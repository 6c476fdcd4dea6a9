use rustcaster::plan::{machine_row_bands, row_bands, Band};

fn spans(bands: &[Band]) -> Vec<(i32, i32)> {
    bands.iter().map(|b| (b.start_y, b.end_y)).collect()
}

fn covered_once(bands: &[Band], ny: i32) -> bool {
    let mut hits = vec![0u32; ny as usize];
    for b in bands {
        if b.start_y < 0 || b.end_y > ny || b.start_y > b.end_y {
            return false;
        }
        for y in b.start_y..b.end_y {
            hits[y as usize] += 1;
        }
    }
    hits.iter().all(|&h| h == 1)
}

#[test]
fn bands_divide_evenly() {
    let bands = row_bands(8, 4);
    assert_eq!(spans(&bands), vec![(6, 8), (4, 6), (2, 4), (0, 2)]);
}

#[test]
fn bands_with_leftover_rows() {
    let bands = row_bands(10, 4);
    assert_eq!(
        spans(&bands),
        vec![(8, 10), (6, 8), (4, 6), (2, 4), (1, 2), (0, 1)]
    );
}

#[test]
fn more_threads_than_rows() {
    let bands = row_bands(2, 5);
    assert_eq!(
        spans(&bands),
        vec![(2, 2), (2, 2), (2, 2), (2, 2), (2, 2), (1, 2), (0, 1)]
    );
}

#[test]
fn single_thread_single_row() {
    assert_eq!(spans(&row_bands(1, 1)), vec![(0, 1)]);
}

#[test]
fn every_row_covered_exactly_once() {
    for ny in 1..40 {
        for t in 1..12usize {
            let bands = row_bands(ny, t);
            assert!(covered_once(&bands, ny), "ny={} t={}", ny, t);
        }
    }
}

#[test]
fn machine_plan_covers_rows() {
    let plan = machine_row_bands(37);
    assert!(plan.threads >= 1);
    assert!(plan.bands.len() >= plan.threads);
    assert!(covered_once(&plan.bands, 37));
    assert_eq!(plan.bands, row_bands(37, plan.threads));
}
