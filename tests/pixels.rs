use rustcaster::pixels::{assemble, clamp_channel, render_band};
use rustcaster::plan::{row_bands, Band};

fn level(c: f64) -> i64 {
    (255.99f64 * c).floor() as i64
}

#[test]
fn clamp_channel_bounds() {
    assert_eq!(clamp_channel(-5), 0);
    assert_eq!(clamp_channel(0), 0);
    assert_eq!(clamp_channel(51), 51);
    assert_eq!(clamp_channel(255), 255);
    assert_eq!(clamp_channel(300), 255);
    assert_eq!(clamp_channel(i64::MIN), 0);
    assert_eq!(clamp_channel(i64::MAX), 255);
}

#[test]
fn quantize_ends_of_unit_range() {
    assert_eq!(clamp_channel(level(0.0)), 0);
    assert_eq!(clamp_channel(level(1.0)), 255);
    assert_eq!(clamp_channel(level(-0.3)), 0);
    assert_eq!(clamp_channel(level(1.7)), 255);
}

#[test]
fn quantize_is_monotone() {
    let mut last = 0u8;
    for k in 0..=1000 {
        let b = clamp_channel(level(k as f64 / 1000.0));
        assert!(b >= last);
        last = b;
    }
}

#[test]
fn band_pixel_order() {
    let band = Band { start_y: 3, end_y: 5 };
    let bytes = render_band(2, band, |i: i32, j: i32| (i as i64, j as i64, 7));
    assert_eq!(
        bytes,
        vec![0, 4, 7, 1, 4, 7, 0, 3, 7, 1, 3, 7]
    );
}

#[test]
fn empty_band_gives_no_bytes() {
    let bytes = render_band(4, Band { start_y: 2, end_y: 2 }, |_i: i32, _j: i32| (1, 2, 3));
    assert!(bytes.is_empty());
}

#[test]
fn band_levels_are_clamped() {
    let bytes = render_band(1, Band { start_y: 0, end_y: 1 }, |_i: i32, _j: i32| (-4, 400, 128));
    assert_eq!(bytes, vec![0, 255, 128]);
}

#[test]
fn assemble_keeps_section_order() {
    let sections = vec![vec![1u8, 2, 3], vec![], vec![4u8, 5, 6, 7, 8, 9]];
    assert_eq!(assemble(&sections), vec![1, 2, 3, 4, 5, 6, 7, 8, 9]);
    assert!(assemble(&Vec::new()).is_empty());
}

#[test]
fn constant_colour_frame() {
    let (nx, ny) = (4, 4);
    for threads in 1..6usize {
        let bands = row_bands(ny, threads);
        let sections: Vec<Vec<u8>> = bands
            .iter()
            .map(|&b| render_band(nx, b, |_i: i32, _j: i32| (level(0.2), level(0.4), level(0.6))))
            .collect();
        let frame = assemble(&sections);
        assert_eq!(frame.len(), 48);
        for px in frame.chunks(3) {
            assert_eq!(px, &[51, 102, 153]);
        }
    }
}

#[test]
fn frame_rows_run_top_down() {
    let (nx, ny) = (3, 7);
    let bands = row_bands(ny, 3);
    let sections: Vec<Vec<u8>> = bands
        .iter()
        .map(|&b| render_band(nx, b, |i: i32, j: i32| (j as i64, i as i64, 0)))
        .collect();
    let frame = assemble(&sections);
    assert_eq!(frame.len(), (3 * nx * ny) as usize);
    let mut p = 0;
    for j in (0..ny).rev() {
        for i in 0..nx {
            assert_eq!(frame[3 * p], j as u8);
            assert_eq!(frame[3 * p + 1], i as u8);
            p += 1;
        }
    }
}
