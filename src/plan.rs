//! Partition of an image's rows into bands, one band per worker.
//!
//! The first wave has one band per thread, each `ny / threads` rows high,
//! laid from the top row down. The rows left over at the bottom are then
//! rendered one row per band, again from the top down.

use vstd::prelude::*;

verus! {

/// A half-open range of rows `[start_y, end_y)`.
#[derive(Clone, Copy, Debug, PartialEq, Eq, Structural)]
pub struct Band {
    pub start_y: i32,
    pub end_y: i32,
}

impl Band {
    pub open spec fn contains(self, y: int) -> bool {
        self.start_y <= y < self.end_y
    }

    pub open spec fn height(self) -> int {
        self.end_y - self.start_y
    }
}

/// Rows per band of the first wave.
pub open spec fn band_height(ny: int, threads: int) -> int {
    ny / threads
}

/// Rows that the first wave leaves over, at the bottom of the image.
pub open spec fn leftover_rows(ny: int, threads: int) -> int {
    ny - threads * band_height(ny, threads)
}

/// Number of bands over both waves.
pub open spec fn band_count(ny: int, threads: int) -> int {
    threads + leftover_rows(ny, threads)
}

/// First row of the `k`-th band of the plan.
pub open spec fn band_start(ny: int, threads: int, k: int) -> int {
    let h = band_height(ny, threads);
    if k < threads {
        ny - (k + 1) * h
    } else {
        leftover_rows(ny, threads) - 1 - (k - threads)
    }
}

/// One past the last row of the `k`-th band of the plan.
pub open spec fn band_end(ny: int, threads: int, k: int) -> int {
    if k < threads {
        ny - k * band_height(ny, threads)
    } else {
        band_start(ny, threads, k) + 1
    }
}

pub open spec fn is_plan(bands: Seq<Band>, ny: int, threads: int) -> bool {
    &&& bands.len() == band_count(ny, threads)
    &&& forall|k: int|
        0 <= k < bands.len() ==> #[trigger] bands[k].start_y == band_start(ny, threads, k)
            && bands[k].end_y == band_end(ny, threads, k)
}

proof fn lemma_height_bounds(ny: int, threads: int)
    requires
        ny > 0,
        threads > 0,
    ensures
        0 <= band_height(ny, threads) <= ny,
        0 <= threads * band_height(ny, threads) <= ny,
        0 <= leftover_rows(ny, threads) < threads,
        leftover_rows(ny, threads) <= ny,
        threads > ny ==> band_height(ny, threads) == 0,
{
    let h = ny / threads;
    let r = ny % threads;
    assert(ny == threads * h + r) by (nonlinear_arith)
        requires
            threads > 0,
            h == ny / threads,
            r == ny % threads,
    ;
    assert(0 <= r < threads);
    assert(h >= 0) by (nonlinear_arith)
        requires
            threads > 0,
            ny > 0,
            ny == threads * h + r,
            r < threads,
    ;
    assert(h <= ny) by (nonlinear_arith)
        requires
            threads > 0,
            h >= 0,
            ny == threads * h + r,
            r >= 0,
    ;
    assert(threads > ny ==> h == 0) by (nonlinear_arith)
        requires
            threads > 0,
            h >= 0,
            ny == threads * h + r,
            r >= 0,
    ;
}

proof fn lemma_mul_le(a: int, b: int, h: int)
    requires
        0 <= a <= b,
        h >= 0,
    ensures
        a * h <= b * h,
{
    assert(a * h <= b * h) by (nonlinear_arith)
        requires
            0 <= a <= b,
            h >= 0,
    ;
}

/// The bands that cover `ny` rows with `thread_count` workers, in the order
/// in which their outputs are concatenated.
pub fn row_bands(ny: i32, thread_count: usize) -> (bands: Vec<Band>)
    requires
        ny > 0,
        thread_count > 0,
    ensures
        is_plan(bands@, ny as int, thread_count as int),
{
    let ghost t = thread_count as int;
    proof {
        lemma_height_bounds(ny as int, t);
    }
    let h: i32 = if thread_count > ny as usize {
        0
    } else {
        ny / (thread_count as i32)
    };
    assert(h == band_height(ny as int, t));
    let mut bands: Vec<Band> = Vec::new();
    let mut end_y: i32 = ny;
    let mut k: usize = 0;
    while k < thread_count
        invariant
            0 <= k <= thread_count,
            t == thread_count as int,
            h == band_height(ny as int, t),
            0 <= t * h <= ny,
            h >= 0,
            end_y == ny - k * h,
            0 <= k * h <= t * h,
            bands@.len() == k,
            forall|m: int|
                0 <= m < k ==> bands@[m].start_y == band_start(ny as int, t, m)
                    && bands@[m].end_y == band_end(ny as int, t, m),
        decreases thread_count - k,
    {
        proof {
            lemma_mul_le(k as int + 1, t, h as int);
        }
        assert((k + 1) * h == k * h + h) by (nonlinear_arith);
        let start_y = end_y - h;
        bands.push(Band { start_y, end_y });
        assert(bands@[k as int].start_y == band_start(ny as int, t, k as int));
        end_y = start_y;
        k = k + 1;
    }
    let leftover = end_y;
    assert(leftover == leftover_rows(ny as int, t));
    let mut row: i32 = leftover;
    while row > 0
        invariant
            0 <= row <= leftover,
            leftover == leftover_rows(ny as int, t),
            leftover < t,
            h == band_height(ny as int, t),
            bands@.len() == t + (leftover - row),
            forall|m: int|
                0 <= m < bands@.len() ==> bands@[m].start_y == band_start(ny as int, t, m)
                    && bands@[m].end_y == band_end(ny as int, t, m),
        decreases row,
    {
        bands.push(Band { start_y: row - 1, end_y: row });
        row = row - 1;
    }
    bands
}

/// Some band of `bands` holds row `y`.
pub open spec fn row_is_covered(bands: Seq<Band>, y: int) -> bool {
    exists|k: int| 0 <= k < bands.len() && #[trigger] bands[k].contains(y)
}

/// Every row of the image lies in exactly one band of the plan, over both
/// waves, and no band reaches outside `[0, ny)`.
pub proof fn lemma_plan_covers_each_row_once(bands: Seq<Band>, ny: int, threads: int)
    requires
        ny > 0,
        threads > 0,
        is_plan(bands, ny, threads),
    ensures
        forall|k: int|
            0 <= k < bands.len() ==> 0 <= #[trigger] bands[k].start_y <= bands[k].end_y <= ny,
        forall|y: int| 0 <= y < ny ==> #[trigger] row_is_covered(bands, y),
        forall|y: int, k1: int, k2: int|
            0 <= k1 < bands.len() && 0 <= k2 < bands.len() && #[trigger] bands[k1].contains(y)
                && #[trigger] bands[k2].contains(y) ==> k1 == k2,
{
    lemma_height_bounds(ny, threads);
    let h = band_height(ny, threads);
    let r = leftover_rows(ny, threads);
    assert forall|k: int| 0 <= k < bands.len() implies 0 <= #[trigger] bands[k].start_y
        <= bands[k].end_y <= ny && (k < threads ==> bands[k].start_y >= r) by {
        assert(bands[k].start_y == band_start(ny, threads, k));
        assert(bands[k].end_y == band_end(ny, threads, k));
        if k < threads {
            assert(0 * h == 0);
            lemma_mul_le(k + 1, threads, h);
            assert((k + 1) * h == k * h + h) by (nonlinear_arith);
            lemma_mul_le(0, k, h);
        }
    }
    assert forall|y: int| 0 <= y < ny implies #[trigger] row_is_covered(bands, y) by {
        if y < r {
            let k = threads + (r - 1 - y);
            assert(bands[k].start_y == band_start(ny, threads, k));
            assert(bands[k].end_y == band_end(ny, threads, k));
            assert(bands[k].contains(y));
        } else {
            assert(h > 0) by (nonlinear_arith)
                requires
                    y >= r,
                    y < ny,
                    r == ny - threads * h,
                    h >= 0,
            ;
            let q = (ny - 1 - y) / h;
            let m = (ny - 1 - y) % h;
            assert(ny - 1 - y == q * h + m && 0 <= m < h) by (nonlinear_arith)
                requires
                    h > 0,
                    q == (ny - 1 - y) / h,
                    m == (ny - 1 - y) % h,
            ;
            assert(0 <= q < threads) by (nonlinear_arith)
                requires
                    ny - 1 - y == q * h + m,
                    0 <= m < h,
                    ny - 1 - y >= 0,
                    ny - 1 - y < threads * h,
            ;
            assert((q + 1) * h == q * h + h) by (nonlinear_arith);
            assert(bands[q].start_y == band_start(ny, threads, q));
            assert(bands[q].end_y == band_end(ny, threads, q));
            assert(bands[q].contains(y));
        }
    }
    assert forall|y: int, k1: int, k2: int|
        0 <= k1 < bands.len() && 0 <= k2 < bands.len() && #[trigger] bands[k1].contains(y)
            && #[trigger] bands[k2].contains(y) implies k1 == k2 by {
        if k1 != k2 {
            let (a, b) = if k1 < k2 { (k1, k2) } else { (k2, k1) };
            assert(bands[a].contains(y) && bands[b].contains(y));
            assert(bands[a].start_y == band_start(ny, threads, a));
            assert(bands[a].end_y == band_end(ny, threads, a));
            assert(bands[b].start_y == band_start(ny, threads, b));
            assert(bands[b].end_y == band_end(ny, threads, b));
            if b < threads {
                lemma_mul_le(a + 1, b, h);
                assert((a + 1) * h == a * h + h) by (nonlinear_arith);
            } else if a < threads {
                assert(bands[a].start_y >= r);
            }
        }
    }
}

/// The bands of a plan run without a gap from row `ny` down to row 0: the
/// first band ends at `ny`, each band ends where the one before it starts,
/// and the last band starts at 0.
pub proof fn lemma_plan_is_contiguous(bands: Seq<Band>, ny: int, threads: int)
    requires
        ny > 0,
        threads > 0,
        is_plan(bands, ny, threads),
    ensures
        bands.len() >= 1,
        bands[0].end_y == ny,
        bands[bands.len() - 1].start_y == 0,
        forall|k: int| 0 <= k < bands.len() ==> #[trigger] bands[k].start_y <= bands[k].end_y,
        forall|k: int| 0 < k < bands.len() ==> #[trigger] bands[k].end_y == bands[k - 1].start_y,
{
    lemma_plan_covers_each_row_once(bands, ny, threads);
    lemma_height_bounds(ny, threads);
    let h = band_height(ny, threads);
    let r = leftover_rows(ny, threads);
    assert(bands[0].start_y == band_start(ny, threads, 0));
    assert(bands[0].end_y == band_end(ny, threads, 0));
    assert(0 * h == 0);
    let last = bands.len() - 1;
    assert(bands[last].start_y == band_start(ny, threads, last));
    if r == 0 {
        assert(last == threads - 1);
        assert((last + 1) * h == threads * h);
    }
    assert forall|k: int| 0 < k < bands.len() implies #[trigger] bands[k].end_y == bands[k
        - 1].start_y by {
        assert(bands[k].start_y == band_start(ny, threads, k));
        assert(bands[k].end_y == band_end(ny, threads, k));
        assert(bands[k - 1].start_y == band_start(ny, threads, k - 1));
    }
}

/// Relies on num_cpus::get: the number of CPUs available, always at least one.
#[verifier::external_body]
fn available_threads() -> (n: usize)
    ensures
        n >= 1,
{
    num_cpus::get()
}

/// A band plan together with the number of first-wave bands.
pub struct RowPlan {
    /// Workers of the first wave, one band each.
    pub threads: usize,
    /// The first wave's bands, then the leftover rows'.
    pub bands: Vec<Band>,
}

/// The band plan for `ny` rows on this machine: one first-wave band per
/// available CPU.
pub fn machine_row_bands(ny: i32) -> (plan: RowPlan)
    requires
        ny > 0,
    ensures
        plan.threads >= 1,
        is_plan(plan.bands@, ny as int, plan.threads as int),
{
    let threads = available_threads();
    let bands = row_bands(ny, threads);
    RowPlan { threads, bands }
}

} // verus!
