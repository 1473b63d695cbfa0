//! Sampling of a region: one iteration count per pixel.
//!
//! No arithmetic on the complex plane is done here. [`point`] follows an
//! orbit whose steps and whose test the caller hands in as function values,
//! and decides how long; [`super_sample`] and [`area`] are handed `count_at`,
//! which is asked for the count at sub-sample `(i, j)` of pixel `(x, y)`, and
//! decide which sub-samples are asked for, how they are reduced to one count
//! and where that count is stored.
use vstd::prelude::*;
use vstd::arithmetic::div_mod::{
    lemma_div_pos_is_pos, lemma_fundamental_div_mod, lemma_fundamental_div_mod_converse,
    lemma_mod_bound, lemma_multiply_divide_le, lemma_multiply_divide_lt,
};
use crate::grid::{grid_shape, Grid};

verus! {

/// Why a region cannot be sampled.
#[derive(Clone, Copy, Debug, PartialEq, Eq, Structural)]
pub enum SampleError {
    /// The resolution has no pixels: its width or its height is zero.
    EmptyResolution,
}

/// Whether `orbit` is a run of `count` steps from `start` that [`point`] may
/// have followed under the cap `max_iters`: `inside` held of every position
/// stepped from, `step` led from each to the next, and the run ended either at
/// the cap or at a position of which `inside` did not hold.
pub open spec fn escape_run<Z: Copy, S: Fn(Z) -> Z, B: Fn(Z) -> bool>(
    start: Z,
    step: S,
    inside: B,
    max_iters: u16,
    count: u16,
    orbit: Seq<Z>,
) -> bool {
    &&& orbit.len() == count + 1
    &&& orbit[0] == start
    &&& count <= max_iters
    &&& forall|k: int|
        0 <= k < count ==> call_ensures(inside, (#[trigger] orbit[k],), true) && call_ensures(
            step,
            (orbit[k],),
            orbit[k + 1],
        )
    &&& count < max_iters ==> call_ensures(inside, (orbit[count as int],), false)
}

/// Whether `count` is a number of steps that [`point`] may return.
pub open spec fn escapes_after<Z: Copy, S: Fn(Z) -> Z, B: Fn(Z) -> bool>(
    start: Z,
    step: S,
    inside: B,
    max_iters: u16,
    count: u16,
) -> bool {
    exists|orbit: Seq<Z>| #[trigger] escape_run(start, step, inside, max_iters, count, orbit)
}

/// Whether `f` gives one result only for each argument.
pub open spec fn single_valued<A, R, F: Fn(A) -> R>(f: F) -> bool {
    forall|a: A, r1: R, r2: R|
        #![trigger call_ensures(f, (a,), r1), call_ensures(f, (a,), r2)]
        call_ensures(f, (a,), r1) && call_ensures(f, (a,), r2) ==> r1 == r2
}

/// Counts the steps of an orbit until it escapes.
///
/// The orbit starts at `start` and goes from each position to `step` of it.
/// A step is counted and taken while `inside` holds of the position reached
/// and fewer than `max_iters` steps were counted. The result is the count at
/// which that stopped: `max_iters` itself where the orbit never left.
pub fn point<Z: Copy, S: Fn(Z) -> Z, B: Fn(Z) -> bool>(
    start: Z,
    step: S,
    inside: B,
    max_iters: u16,
) -> (count: u16)
    requires
        forall|z: Z| call_requires(step, (z,)),
        forall|z: Z| call_requires(inside, (z,)),
    ensures
        count <= max_iters,
        escapes_after(start, step, inside, max_iters, count),
{
    let mut z: Z = start;
    let mut i: u16 = 0;
    let ghost mut orbit: Seq<Z> = seq![start];
    let mut going: bool = inside(z) && i < max_iters;
    while going
        invariant
            forall|z: Z| call_requires(step, (z,)),
            forall|z: Z| call_requires(inside, (z,)),
            orbit.len() == i + 1,
            orbit[0] == start,
            orbit[i as int] == z,
            i <= max_iters,
            forall|k: int|
                0 <= k < i ==> call_ensures(inside, (#[trigger] orbit[k],), true) && call_ensures(
                    step,
                    (orbit[k],),
                    orbit[k + 1],
                ),
            going ==> i < max_iters && call_ensures(inside, (z,), true),
            !going && i < max_iters ==> call_ensures(inside, (z,), false),
        decreases max_iters - i,
    {
        let next: Z = step(z);
        proof {
            orbit = orbit.push(next);
        }
        z = next;
        i = i + 1;
        going = inside(z) && i < max_iters;
    }
    proof {
        assert(escape_run(start, step, inside, max_iters, i, orbit));
    }
    i
}

/// An orbit that starts outside is not followed at all.
pub proof fn lemma_outside_at_once<Z: Copy, S: Fn(Z) -> Z, B: Fn(Z) -> bool>(
    start: Z,
    step: S,
    inside: B,
    max_iters: u16,
    count: u16,
)
    requires
        escapes_after(start, step, inside, max_iters, count),
        forall|held: bool| call_ensures(inside, (start,), held) ==> !held,
    ensures
        count == 0,
{
    let orbit = choose|orbit: Seq<Z>| #[trigger]
        escape_run(start, step, inside, max_iters, count, orbit);
    if count > 0 {
        assert(call_ensures(inside, (orbit[0],), true));
    }
}

/// An orbit that starts inside and leaves with its first step is followed
/// for that one step, unless the cap is zero.
pub proof fn lemma_outside_after_one<Z: Copy, S: Fn(Z) -> Z, B: Fn(Z) -> bool>(
    start: Z,
    step: S,
    inside: B,
    max_iters: u16,
    count: u16,
)
    requires
        escapes_after(start, step, inside, max_iters, count),
        forall|held: bool| call_ensures(inside, (start,), held) ==> held,
        forall|next: Z, held: bool|
            call_ensures(step, (start,), next) && call_ensures(inside, (next,), held) ==> !held,
    ensures
        count == if max_iters == 0 {
            0u16
        } else {
            1u16
        },
{
    let orbit = choose|orbit: Seq<Z>| #[trigger]
        escape_run(start, step, inside, max_iters, count, orbit);
    if count > 1 {
        assert(call_ensures(inside, (orbit[0],), true));
        assert(call_ensures(step, (orbit[0],), orbit[1]));
        assert(call_ensures(inside, (orbit[1],), true));
    }
}

/// An orbit that never leaves is followed to the cap, whatever the cap.
pub proof fn lemma_never_outside<Z: Copy, S: Fn(Z) -> Z, B: Fn(Z) -> bool>(
    start: Z,
    step: S,
    inside: B,
    max_iters: u16,
    count: u16,
)
    requires
        escapes_after(start, step, inside, max_iters, count),
        forall|z: Z, held: bool| call_ensures(inside, (z,), held) ==> held,
    ensures
        count == max_iters,
{
}

/// Two runs from one start, under single-valued `step` and `inside`, pass
/// through the same positions as far as both go.
proof fn lemma_runs_agree<Z: Copy, S: Fn(Z) -> Z, B: Fn(Z) -> bool>(
    start: Z,
    step: S,
    inside: B,
    low: u16,
    high: u16,
    count_low: u16,
    count_high: u16,
    orbit_low: Seq<Z>,
    orbit_high: Seq<Z>,
    k: int,
)
    requires
        single_valued(step),
        escape_run(start, step, inside, low, count_low, orbit_low),
        escape_run(start, step, inside, high, count_high, orbit_high),
        0 <= k <= count_low,
        k <= count_high,
    ensures
        orbit_low[k] == orbit_high[k],
    decreases k,
{
    if k > 0 {
        lemma_runs_agree(
            start,
            step,
            inside,
            low,
            high,
            count_low,
            count_high,
            orbit_low,
            orbit_high,
            k - 1,
        );
        assert(call_ensures(step, (orbit_low[k - 1],), orbit_low[k - 1 + 1]));
        assert(call_ensures(step, (orbit_high[k - 1],), orbit_high[k - 1 + 1]));
    }
}

/// Raising the cap never lowers the count: where the orbit escaped below
/// the lower cap the count stays as it was, and where it did not the count
/// is at least that cap.
pub proof fn lemma_cap_monotone<Z: Copy, S: Fn(Z) -> Z, B: Fn(Z) -> bool>(
    start: Z,
    step: S,
    inside: B,
    low: u16,
    high: u16,
    count_low: u16,
    count_high: u16,
)
    requires
        single_valued(step),
        single_valued(inside),
        low <= high,
        escapes_after(start, step, inside, low, count_low),
        escapes_after(start, step, inside, high, count_high),
    ensures
        count_low <= count_high,
        count_low < low ==> count_high == count_low,
{
    let orbit_low = choose|orbit: Seq<Z>| #[trigger]
        escape_run(start, step, inside, low, count_low, orbit);
    let orbit_high = choose|orbit: Seq<Z>| #[trigger]
        escape_run(start, step, inside, high, count_high, orbit);
    if count_high < count_low {
        lemma_runs_agree(
            start,
            step,
            inside,
            low,
            high,
            count_low,
            count_high,
            orbit_low,
            orbit_high,
            count_high as int,
        );
        assert(call_ensures(inside, (orbit_low[count_high as int],), true));
        assert(call_ensures(inside, (orbit_high[count_high as int],), false));
    }
    if count_low < low && count_low < count_high {
        lemma_runs_agree(
            start,
            step,
            inside,
            low,
            high,
            count_low,
            count_high,
            orbit_low,
            orbit_high,
            count_low as int,
        );
        assert(call_ensures(inside, (orbit_high[count_low as int],), true));
        assert(call_ensures(inside, (orbit_low[count_low as int],), false));
    }
}

/// The sum of a sequence of counts.
pub open spec fn total(samples: Seq<u16>) -> int
    decreases samples.len(),
{
    if samples.len() == 0 {
        0
    } else {
        total(samples.drop_last()) + samples.last()
    }
}

/// The mean of a sequence of counts, with the fraction dropped.
pub open spec fn mean(samples: Seq<u16>) -> int
    recommends
        samples.len() > 0,
{
    total(samples) / (samples.len() as int)
}

/// Whether `samples` lists one outcome of `count_at` for every sub-sample of
/// pixel `(x, y)`, in scan order: sub-sample `k` is the one at
/// `(k % ss_power, k / ss_power)`.
pub open spec fn samples_of<F: Fn(usize, usize, u8, u8) -> u16>(
    count_at: F,
    x: usize,
    y: usize,
    ss_power: u8,
    samples: Seq<u16>,
) -> bool {
    &&& samples.len() == ss_power * ss_power
    &&& forall|k: int|
        0 <= k < samples.len() ==> call_ensures(
            count_at,
            (x, y, (k % (ss_power as int)) as u8, (k / (ss_power as int)) as u8),
            #[trigger] samples[k],
        )
}

/// Whether `count` is the mean, with the fraction dropped, of the
/// `ss_power * ss_power` sub-samples that `count_at` gave for pixel `(x, y)`.
pub open spec fn super_sampled<F: Fn(usize, usize, u8, u8) -> u16>(
    count_at: F,
    x: usize,
    y: usize,
    ss_power: u8,
    count: u16,
) -> bool {
    exists|samples: Seq<u16>| #[trigger]
        samples_of(count_at, x, y, ss_power, samples) && count == mean(samples)
}

/// The pixel that comes `n`-th in the scan of a grid `width` pixels wide: the
/// scan runs along `x` first.
pub open spec fn scan(n: int, width: int) -> (int, int) {
    (n % width, n / width)
}

/// The number of steps between the first and the last pixel of a row, which
/// is one for a row of a single pixel: the divisor that turns the extent of a
/// region into the distance between neighbouring pixels.
pub open spec fn spec_intervals(width: int) -> int {
    if width - 1 > 1 {
        width - 1
    } else {
        1
    }
}

/// Every position below `width * height` scans to a pixel inside the grid,
/// and is found again from that pixel.
pub proof fn lemma_scan_inside(n: int, width: int, height: int)
    requires
        0 <= n < width * height,
        0 < width,
    ensures
        0 <= scan(n, width).0 < width,
        0 <= scan(n, width).1 < height,
        n == scan(n, width).1 * width + scan(n, width).0,
{
    lemma_mod_bound(n, width);
    lemma_div_pos_is_pos(n, width);
    lemma_fundamental_div_mod(n, width);
    lemma_multiply_divide_lt(n, width, height);
    assert(width * (n / width) == (n / width) * width) by (nonlinear_arith);
}

/// Every pixel of the grid is scanned at exactly one position, `y * width + x`.
pub proof fn lemma_scan_reaches(x: int, y: int, width: int, height: int)
    requires
        0 <= x < width,
        0 <= y < height,
    ensures
        0 <= y * width + x < width * height,
        scan(y * width + x, width) == (x, y),
{
    lemma_fundamental_div_mod_converse(y * width + x, width, y, x);
    assert(0 <= y * width && y * width + width <= width * height) by (nonlinear_arith)
        requires
            0 <= y < height,
            0 < width,
    ;
}

/// The sum grows by the count that is appended.
proof fn lemma_total_push(samples: Seq<u16>, count: u16)
    ensures
        total(samples.push(count)) == total(samples) + count,
{
    assert(samples.push(count).drop_last() =~= samples);
}

/// A sum of counts is at most as many times the largest of them.
pub proof fn lemma_total_bounded(samples: Seq<u16>, cap: int)
    requires
        forall|k: int| 0 <= k < samples.len() ==> samples[k] <= cap,
    ensures
        0 <= total(samples) <= samples.len() * cap,
    decreases samples.len(),
{
    if samples.len() > 0 {
        lemma_total_bounded(samples.drop_last(), cap);
        assert((samples.len() - 1) * cap + cap == samples.len() * cap) by (nonlinear_arith);
    }
}

/// With one sub-sample to a pixel, the count of the pixel is the count that
/// `count_at` gave at the corner of the pixel.
pub proof fn lemma_single_sample<F: Fn(usize, usize, u8, u8) -> u16>(
    count_at: F,
    x: usize,
    y: usize,
    count: u16,
)
    requires
        super_sampled(count_at, x, y, 1, count),
    ensures
        call_ensures(count_at, (x, y, 0u8, 0u8), count),
{
    let samples = choose|samples: Seq<u16>| #[trigger]
        samples_of(count_at, x, y, 1, samples) && count == mean(samples);
    assert(samples.len() == 1);
    assert(total(samples.drop_last()) == 0);
    assert(total(samples) == samples[0]);
    assert(mean(samples) == total(samples) / 1);
    assert(0int % 1 == 0 && 0int / 1 == 0);
}

/// Where `count_at` gives no count above `cap` within a pixel, the count of
/// the pixel is not above `cap` either.
pub proof fn lemma_super_sampled_capped<F: Fn(usize, usize, u8, u8) -> u16>(
    count_at: F,
    x: usize,
    y: usize,
    ss_power: u8,
    count: u16,
    cap: u16,
)
    requires
        ss_power >= 1,
        super_sampled(count_at, x, y, ss_power, count),
        forall|i: u8, j: u8, sample: u16|
            call_ensures(count_at, (x, y, i, j), sample) ==> sample <= cap,
    ensures
        count <= cap,
{
    let samples = choose|samples: Seq<u16>| #[trigger]
        samples_of(count_at, x, y, ss_power, samples) && count == mean(samples);
    assert(samples.len() >= 1) by (nonlinear_arith)
        requires
            samples.len() == ss_power * ss_power,
            ss_power >= 1,
    ;
    lemma_total_bounded(samples, cap as int);
    lemma_multiply_divide_le(total(samples), samples.len() as int, cap as int);
}

/// Where `count_at` gives no count above `cap`, no cell of a sampled grid
/// holds a count above `cap`.
pub proof fn lemma_area_capped<F: Fn(usize, usize, u8, u8) -> u16>(
    count_at: F,
    grid: Grid,
    ss_power: u8,
    cap: u16,
)
    requires
        ss_power >= 1,
        forall|x: int, y: int|
            grid.has(x, y) ==> super_sampled(
                count_at,
                x as usize,
                y as usize,
                ss_power,
                #[trigger] grid.at(x, y),
            ),
        forall|x: usize, y: usize, i: u8, j: u8, sample: u16|
            call_ensures(count_at, (x, y, i, j), sample) ==> sample <= cap,
    ensures
        forall|x: int, y: int| grid.has(x, y) ==> #[trigger] grid.at(x, y) <= cap,
{
    assert forall|x: int, y: int| grid.has(x, y) implies #[trigger] grid.at(x, y) <= cap by {
        lemma_super_sampled_capped(
            count_at,
            x as usize,
            y as usize,
            ss_power,
            grid.at(x, y),
            cap,
        );
    }
}

/// The number of steps between the first and the last pixel of a row of
/// `width` pixels, and one where the row has fewer than three pixels.
pub fn intervals(width: usize) -> (steps: usize)
    ensures
        steps == spec_intervals(width as int),
{
    if width > 2 {
        width - 1
    } else {
        1
    }
}

/// Reduces the sub-samples of pixel `(x, y)` to one count.
///
/// The pixel is cut into `ss_power * ss_power` sub-samples. `count_at` is asked
/// for the count of each, addressed by its offsets `(i, j)` from the corner of
/// the pixel, both below `ss_power`. The result is the sum of the counts
/// divided by their number, with the fraction dropped.
pub fn super_sample<F: Fn(usize, usize, u8, u8) -> u16>(
    x: usize,
    y: usize,
    ss_power: u8,
    count_at: &F,
) -> (count: u16)
    requires
        ss_power >= 1,
        forall|i: u8, j: u8|
            i < ss_power && j < ss_power ==> call_requires(*count_at, (x, y, i, j)),
    ensures
        super_sampled(*count_at, x, y, ss_power, count),
        ss_power == 1 ==> call_ensures(*count_at, (x, y, 0u8, 0u8), count),
{
    let side: u32 = ss_power as u32;
    assert(1 <= side * side <= 0xff * 0xff) by (nonlinear_arith)
        requires
            1 <= side <= 0xff,
    ;
    let total_samples: u32 = side * side;
    let mut sum: u64 = 0;
    let ghost mut seen: Seq<u16> = Seq::empty();
    let mut n: u32 = 0;
    while n < total_samples
        invariant
            1 <= side == ss_power,
            total_samples == side * side,
            n <= total_samples,
            seen.len() == n,
            sum == total(seen),
            forall|i: u8, j: u8|
                i < ss_power && j < ss_power ==> call_requires(*count_at, (x, y, i, j)),
            forall|k: int|
                0 <= k < n ==> call_ensures(
                    *count_at,
                    (x, y, (k % (ss_power as int)) as u8, (k / (ss_power as int)) as u8),
                    #[trigger] seen[k],
                ),
        decreases total_samples - n,
    {
        proof {
            lemma_scan_inside(n as int, side as int, side as int);
            lemma_total_bounded(seen, 0xffff);
            assert(seen.len() * 0xffff <= 0xffff * 0xffff) by (nonlinear_arith)
                requires
                    seen.len() <= side * side,
                    side <= 0xff,
            ;
        }
        let i: u8 = (n % side) as u8;
        let j: u8 = (n / side) as u8;
        let sample: u16 = count_at(x, y, i, j);
        sum = sum + sample as u64;
        proof {
            lemma_total_push(seen, sample);
            seen = seen.push(sample);
        }
        n = n + 1;
    }
    proof {
        lemma_total_bounded(seen, 0xffff);
        lemma_multiply_divide_le(sum as int, total_samples as int, 0xffff);
        lemma_div_pos_is_pos(sum as int, total_samples as int);
        assert(samples_of(*count_at, x, y, ss_power, seen));
    }
    let count: u16 = (sum / total_samples as u64) as u16;
    proof {
        if ss_power == 1 {
            lemma_single_sample(*count_at, x, y, count);
        }
    }
    count
}

/// Whether the pixel scanned at position `n` of `grid` holds a count that
/// [`super_sampled`] admits.
pub open spec fn pixel_sampled<F: Fn(usize, usize, u8, u8) -> u16>(
    count_at: F,
    grid: Grid,
    ss_power: u8,
    n: int,
) -> bool {
    let (x, y) = scan(n, grid.width() as int);
    super_sampled(count_at, x as usize, y as usize, ss_power, grid.at(x, y))
}

/// Samples every pixel of a `res[0]` by `res[1]` grid.
///
/// The pixels are visited along `x` first. For each, the sub-samples that
/// `count_at` gives are reduced by [`super_sample`] and the count is stored at
/// `(x, y)`. A resolution without pixels is refused before `count_at` is asked
/// anything.
pub fn area<F: Fn(usize, usize, u8, u8) -> u16>(res: [usize; 2], ss_power: u8, count_at: F) -> (data:
    Result<Grid, SampleError>)
    requires
        ss_power >= 1,
        2 * res[0] * res[1] <= isize::MAX,
        forall|x: usize, y: usize, i: u8, j: u8|
            x < res[0] && y < res[1] && i < ss_power && j < ss_power ==> call_requires(
                count_at,
                (x, y, i, j),
            ),
    ensures
        data is Err <==> res[0] == 0 || res[1] == 0,
        data matches Err(error) ==> error == SampleError::EmptyResolution,
        data matches Ok(grid) ==> {
            &&& grid.width() == res[0]
            &&& grid.height() == res[1]
            &&& forall|x: int, y: int|
                grid.has(x, y) ==> super_sampled(
                    count_at,
                    x as usize,
                    y as usize,
                    ss_power,
                    #[trigger] grid.at(x, y),
                )
        },
{
    let width: usize = res[0];
    let height: usize = res[1];
    if width == 0 || height == 0 {
        return Err(SampleError::EmptyResolution);
    }
    assert(width * height <= 2 * width * height) by (nonlinear_arith)
        requires
            0 <= width,
            0 <= height,
    ;
    let mut grid = Grid::zeros(width, height);
    let total_pixels: usize = width * height;
    let mut n: usize = 0;
    while n < total_pixels
        invariant
            1 <= ss_power,
            1 <= width == res[0],
            1 <= height == res[1],
            total_pixels == width * height,
            n <= total_pixels,
            grid_shape(grid) == (width as nat, height as nat),
            forall|x: usize, y: usize, i: u8, j: u8|
                x < res[0] && y < res[1] && i < ss_power && j < ss_power ==> call_requires(
                    count_at,
                    (x, y, i, j),
                ),
            forall|m: int| 0 <= m < n ==> #[trigger] pixel_sampled(count_at, grid, ss_power, m),
        decreases total_pixels - n,
    {
        proof {
            lemma_scan_inside(n as int, width as int, height as int);
        }
        let xi: usize = n % width;
        let yi: usize = n / width;
        let count: u16 = super_sample(xi, yi, ss_power, &count_at);
        let ghost before = grid;
        grid.store(xi, yi, count);
        proof {
            assert forall|m: int| 0 <= m < n + 1 implies #[trigger] pixel_sampled(
                count_at,
                grid,
                ss_power,
                m,
            ) by {
                lemma_scan_inside(m, width as int, height as int);
                if m < n {
                    assert(pixel_sampled(count_at, before, ss_power, m));
                    assert(scan(m, width as int) != scan(n as int, width as int));
                }
            }
        }
        n = n + 1;
    }
    proof {
        assert forall|x: int, y: int| grid.has(x, y) implies super_sampled(
            count_at,
            x as usize,
            y as usize,
            ss_power,
            #[trigger] grid.at(x, y),
        ) by {
            lemma_scan_reaches(x, y, width as int, height as int);
            assert(pixel_sampled(count_at, grid, ss_power, y * width + x));
        }
    }
    Ok(grid)
}

} // verus!
