//! Turning one band's shaded samples into bytes, and reassembling the
//! bands' bytes into the frame buffer.
//!
//! A pixel is three bytes, red, green and blue. Within a band the rows are
//! written from the top row down and, in each row, from column 0 rightwards.
//! A channel reaches this module as an integer level (the floor of the
//! averaged colour times 255.99) and is clamped to `[0, 255]`.

use crate::plan::{is_plan, lemma_plan_is_contiguous, Band};
use vstd::arithmetic::div_mod::{lemma_fundamental_div_mod, lemma_fundamental_div_mod_converse};
use vstd::prelude::*;

verus! {

/// A channel level clamped to the byte range.
pub open spec fn channel_byte(level: int) -> int {
    if level < 0 {
        0
    } else if level > 255 {
        255
    } else {
        level
    }
}

/// The byte of a channel level: below 0 gives 0, above 255 gives 255.
pub fn clamp_channel(level: i64) -> (b: u8)
    ensures
        b == channel_byte(level as int),
{
    if level < 0 {
        0
    } else if level > 255 {
        255
    } else {
        level as u8
    }
}

/// A higher level never gives a lower byte.
pub proof fn lemma_channel_byte_monotone(a: int, b: int)
    requires
        a <= b,
    ensures
        channel_byte(a) <= channel_byte(b),
{
}

/// The three bytes of pixel `p` in `bytes` are the clamped `levels`.
pub open spec fn pixel_has_levels(bytes: Seq<u8>, p: int, levels: (i64, i64, i64)) -> bool {
    &&& bytes[3 * p] == channel_byte(levels.0 as int)
    &&& bytes[3 * p + 1] == channel_byte(levels.1 as int)
    &&& bytes[3 * p + 2] == channel_byte(levels.2 as int)
}

/// Column of the `p`-th pixel written for a band `nx` pixels wide.
pub open spec fn pixel_column(nx: int, p: int) -> int {
    p % nx
}

/// Row of the `p`-th pixel written for `band`, `nx` pixels wide.
pub open spec fn pixel_row(band: Band, nx: int, p: int) -> int {
    band.end_y - 1 - p / nx
}

/// Pixel `p` of `bytes` holds levels that `shade` may return at its column
/// and row.
pub open spec fn pixel_is_shaded<F: Fn(i32, i32) -> (i64, i64, i64)>(
    shade: F,
    band: Band,
    nx: int,
    bytes: Seq<u8>,
    p: int,
) -> bool {
    exists|levels: (i64, i64, i64)|
        shade.ensures(
            (pixel_column(nx, p) as i32, pixel_row(band, nx, p) as i32),
            levels,
        ) && #[trigger] pixel_has_levels(bytes, p, levels)
}

/// `bytes` is `band`, `nx` pixels wide, shaded by `shade`.
pub open spec fn is_shaded_band<F: Fn(i32, i32) -> (i64, i64, i64)>(
    shade: F,
    band: Band,
    nx: int,
    bytes: Seq<u8>,
) -> bool {
    &&& bytes.len() == 3 * (nx * band.height())
    &&& forall|p: int|
        0 <= p < nx * band.height() ==> #[trigger] pixel_is_shaded(shade, band, nx, bytes, p)
}

/// Shades every pixel of `band` with `shade(column, row)` and writes the
/// clamped levels, three bytes a pixel, top row first.
pub fn render_band<F: Fn(i32, i32) -> (i64, i64, i64)>(nx: i32, band: Band, shade: F) -> (bytes:
    Vec<u8>)
    requires
        nx > 0,
        band.start_y <= band.end_y,
        forall|i: i32, j: i32| shade.requires((i, j)),
    ensures
        is_shaded_band(shade, band, nx as int, bytes@),
{
    let mut bytes: Vec<u8> = Vec::new();
    let mut row: i32 = band.end_y;
    while row > band.start_y
        invariant
            nx > 0,
            band.start_y <= row <= band.end_y,
            forall|i: i32, j: i32| shade.requires((i, j)),
            bytes@.len() == 3 * (nx * (band.end_y - row)),
            forall|p: int|
                0 <= p < nx * (band.end_y - row) ==> #[trigger] pixel_is_shaded(
                    shade,
                    band,
                    nx as int,
                    bytes@,
                    p,
                ),
        decreases row - band.start_y,
    {
        let j = row - 1;
        let ghost done = nx * (band.end_y - row);
        assert(done == (band.end_y - 1 - j) * nx) by (nonlinear_arith)
            requires
                done == nx * (band.end_y - row),
                j == row - 1,
        ;
        let mut i: i32 = 0;
        while i < nx
            invariant
                nx > 0,
                0 <= i <= nx,
                j == row - 1,
                band.start_y <= j < band.end_y,
                done == (band.end_y - 1 - j) * nx,
                forall|i: i32, j: i32| shade.requires((i, j)),
                bytes@.len() == 3 * (done + i),
                forall|p: int|
                    0 <= p < done + i ==> #[trigger] pixel_is_shaded(
                        shade,
                        band,
                        nx as int,
                        bytes@,
                        p,
                    ),
            decreases nx - i,
        {
            let levels = shade(i, j);
            let ghost before = bytes@;
            bytes.push(clamp_channel(levels.0));
            bytes.push(clamp_channel(levels.1));
            bytes.push(clamp_channel(levels.2));
            let ghost q = done + i;
            proof {
                lemma_fundamental_div_mod_converse(q, nx as int, band.end_y - 1 - j, i as int);
                assert(pixel_has_levels(bytes@, q, levels));
                assert(pixel_is_shaded(shade, band, nx as int, bytes@, q));
                assert forall|p: int| 0 <= p < q implies #[trigger] pixel_is_shaded(
                    shade,
                    band,
                    nx as int,
                    bytes@,
                    p,
                ) by {
                    assert(pixel_is_shaded(shade, band, nx as int, before, p));
                    let levels_p = choose|lv: (i64, i64, i64)|
                        shade.ensures(
                            (pixel_column(nx as int, p) as i32, pixel_row(band, nx as int, p) as i32),
                            lv,
                        ) && #[trigger] pixel_has_levels(before, p, lv);
                    assert(pixel_has_levels(bytes@, p, levels_p));
                }
            }
            i = i + 1;
        }
        assert(nx * (band.end_y - j) == done + nx) by (nonlinear_arith)
            requires
                done == (band.end_y - 1 - j) * nx,
        ;
        row = j;
    }
    bytes
}

/// Pixel `p` of a frame `nx` by `ny` holds levels that `shade` may return at
/// its column and row, the rows running from `ny - 1` down to 0.
pub open spec fn frame_pixel_is_shaded<F: Fn(i32, i32) -> (i64, i64, i64)>(
    shade: F,
    nx: int,
    ny: int,
    frame: Seq<u8>,
    p: int,
) -> bool {
    exists|levels: (i64, i64, i64)|
        shade.ensures((pixel_column(nx, p) as i32, (ny - 1 - p / nx) as i32), levels)
            && #[trigger] pixel_has_levels(frame, p, levels)
}

proof fn lemma_sections_prefix<F: Fn(i32, i32) -> (i64, i64, i64)>(
    shade: F,
    nx: int,
    ny: int,
    bands: Seq<Band>,
    sections: Seq<Vec<u8>>,
    m: int,
)
    requires
        nx > 0,
        0 <= m <= bands.len(),
        sections.len() == bands.len(),
        bands.len() >= 1,
        bands[0].end_y == ny,
        forall|k: int| 0 <= k < bands.len() ==> #[trigger] bands[k].start_y <= bands[k].end_y,
        forall|k: int| 0 < k < bands.len() ==> #[trigger] bands[k].end_y == bands[k - 1].start_y,
        forall|k: int|
            0 <= k < bands.len() ==> #[trigger] is_shaded_band(shade, bands[k], nx, sections[k]@),
    ensures
        ({
            let top: int = if m == 0 {
                ny
            } else {
                bands[m - 1].start_y as int
            };
            let frame = concatenation(sections.subrange(0, m));
            &&& frame.len() == 3 * (nx * (ny - top))
            &&& forall|p: int|
                0 <= p < nx * (ny - top) ==> #[trigger] frame_pixel_is_shaded(shade, nx, ny, frame, p)
        }),
    decreases m,
{
    if m == 0 {
        assert(sections.subrange(0, 0).map_values(|s: Vec<u8>| s@) =~= Seq::<Seq<u8>>::empty());
        assert(nx * 0 == 0);
    } else {
        let k = m - 1;
        lemma_sections_prefix(shade, nx, ny, bands, sections, k);
        let band = bands[k];
        let section = sections[k]@;
        assert(is_shaded_band(shade, band, nx, section));
        let top: int = band.end_y as int;
        assert(k > 0 ==> bands[k].end_y == bands[k - 1].start_y);
        let head = sections.subrange(0, k);
        let prev = concatenation(head);
        assert(sections.subrange(0, m) =~= head.push(sections[k]));
        assert(sections.subrange(0, m).map_values(|s: Vec<u8>| s@) =~= head.map_values(
            |s: Vec<u8>| s@,
        ).push(section));
        head.map_values(|s: Vec<u8>| s@).lemma_flatten_push(section);
        let frame = concatenation(sections.subrange(0, m));
        assert(frame =~= prev + section);
        let base = nx * (ny - top);
        let height = band.height();
        assert(nx * (ny - band.start_y) == base + nx * height) by (nonlinear_arith)
            requires
                base == nx * (ny - top),
                height == top - band.start_y,
        ;
        assert forall|p: int| 0 <= p < nx * (ny - band.start_y) implies #[trigger] frame_pixel_is_shaded(
            shade,
            nx,
            ny,
            frame,
            p,
        ) by {
            if p < base {
                assert(frame_pixel_is_shaded(shade, nx, ny, prev, p));
                let lv = choose|lv: (i64, i64, i64)|
                    shade.ensures((pixel_column(nx, p) as i32, (ny - 1 - p / nx) as i32), lv)
                        && #[trigger] pixel_has_levels(prev, p, lv);
                assert(pixel_has_levels(frame, p, lv));
            } else {
                let q = p - base;
                assert(pixel_is_shaded(shade, band, nx, section, q));
                let lv = choose|lv: (i64, i64, i64)|
                    shade.ensures(
                        (pixel_column(nx, q) as i32, pixel_row(band, nx, q) as i32),
                        lv,
                    ) && #[trigger] pixel_has_levels(section, q, lv);
                lemma_fundamental_div_mod(q, nx);
                let a = ny - top;
                assert(p == (a + q / nx) * nx + q % nx) by (nonlinear_arith)
                    requires
                        p == base + q,
                        base == nx * a,
                        q == nx * (q / nx) + q % nx,
                ;
                lemma_fundamental_div_mod_converse(p, nx, a + q / nx, q % nx);
                assert(pixel_has_levels(frame, p, lv));
            }
        }
    }
}

/// Rendering each band of a plan and assembling the sections in the plan's
/// order gives the whole frame: three bytes for each of the `nx * ny` pixels,
/// row `ny - 1` first and column 0 first within a row, each pixel shaded at
/// its own column and row.
pub proof fn lemma_assembled_frame<F: Fn(i32, i32) -> (i64, i64, i64)>(
    shade: F,
    nx: int,
    ny: int,
    threads: int,
    bands: Seq<Band>,
    sections: Seq<Vec<u8>>,
)
    requires
        nx > 0,
        ny > 0,
        threads > 0,
        is_plan(bands, ny, threads),
        sections.len() == bands.len(),
        forall|k: int|
            0 <= k < bands.len() ==> #[trigger] is_shaded_band(shade, bands[k], nx, sections[k]@),
    ensures
        concatenation(sections).len() == 3 * (nx * ny),
        forall|p: int|
            0 <= p < nx * ny ==> #[trigger] frame_pixel_is_shaded(
                shade,
                nx,
                ny,
                concatenation(sections),
                p,
            ),
{
    lemma_plan_is_contiguous(bands, ny, threads);
    lemma_sections_prefix(shade, nx, ny, bands, sections, bands.len() as int);
    assert(sections.subrange(0, bands.len() as int) =~= sections);
}

/// The bytes of all `sections`, one after the other.
pub open spec fn concatenation(sections: Seq<Vec<u8>>) -> Seq<u8> {
    sections.map_values(|s: Vec<u8>| s@).flatten()
}

/// The frame buffer: the sections' bytes in the order of `sections`, which
/// is the order of the band plan, whatever order the workers finished in.
pub fn assemble(sections: &Vec<Vec<u8>>) -> (frame: Vec<u8>)
    ensures
        frame@ == concatenation(sections@),
{
    let mut frame: Vec<u8> = Vec::new();
    let mut k: usize = 0;
    while k < sections.len()
        invariant
            0 <= k <= sections@.len(),
            frame@ == concatenation(sections@.subrange(0, k as int)),
        decreases sections@.len() - k,
    {
        let section = &sections[k];
        let ghost start = frame@;
        let mut b: usize = 0;
        while b < section.len()
            invariant
                0 <= b <= section@.len(),
                frame@ == start + section@.subrange(0, b as int),
            decreases section@.len() - b,
        {
            frame.push(section[b]);
            assert(section@.subrange(0, b + 1) =~= section@.subrange(0, b as int).push(section@[b as int]));
            b = b + 1;
        }
        proof {
            assert(section@.subrange(0, b as int) =~= section@);
            let head = sections@.subrange(0, k as int);
            assert(sections@.subrange(0, k + 1) =~= head.push(sections@[k as int]));
            assert(sections@.subrange(0, k + 1).map_values(|s: Vec<u8>| s@) =~= head.map_values(
                |s: Vec<u8>| s@,
            ).push(section@));
            head.map_values(|s: Vec<u8>| s@).lemma_flatten_push(section@);
        }
        k = k + 1;
    }
    assert(sections@.subrange(0, k as int) =~= sections@);
    frame
}

} // verus!
