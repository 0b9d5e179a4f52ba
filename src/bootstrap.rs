//! Bootstrap distributions of one-sample and two-sample statistics.
//!
//! Resample `i` of a distribution is always the `i`-th resample of a generator
//! seeded with the caller's seed, so a distribution filled chunk by chunk is
//! the one filled in a single pass.
use vstd::prelude::*;

use crate::chunks::{
    chunk_bounds, chunk_count, chunk_spec, granularity, lemma_chunk_step, lemma_nonempty_count,
};
use crate::resamples::{
    advance, initial_state, is_resample_of, lemma_advance_add, lemma_resample_from_is_resample,
    resample_at, resample_from, Resamples,
};

verus! {

/// The values of a statistic over a series of resamples.
pub struct Distribution<A> {
    values: Vec<A>,
}

impl<A> View for Distribution<A> {
    type V = Seq<A>;

    closed spec fn view(&self) -> Seq<A> {
        self.values@
    }
}

impl<A> Distribution<A> {
    /// A distribution holding `values`, in order.
    pub fn from_vec(values: Vec<A>) -> (d: Self)
        ensures
            d@ == values@,
    {
        Distribution { values }
    }

    /// The number of values.
    pub fn len(&self) -> (r: usize)
        ensures
            r == self@.len(),
    {
        self.values.len()
    }

    /// The values, in order.
    pub fn as_slice(&self) -> (r: &[A])
        ensures
            r@ == self@,
    {
        self.values.as_slice()
    }

    /// The values, in order, as an owned vector.
    pub fn into_vec(self) -> (r: Vec<A>)
        ensures
            r@ == self@,
    {
        self.values
    }
}

/// `v` is a value that `statistic` may return on a slice holding `s`.
pub open spec fn yields<T, A, F: Fn(&[T]) -> A>(statistic: F, s: Seq<T>, v: A) -> bool {
    exists|x: &[T]| x@ == s && #[trigger] statistic.ensures((x,), v)
}

/// `v` is a value that `statistic` may return on slices holding `s` and `t`.
pub open spec fn yields2<T, U, C, F: Fn(&[T], &[U]) -> C>(
    statistic: F,
    s: Seq<T>,
    t: Seq<U>,
    v: C,
) -> bool {
    exists|x: &[T], y: &[U]| x@ == s && y@ == t && #[trigger] statistic.ensures((x, y), v)
}

/// `statistic` accepts every slice.
pub open spec fn total<T, A, F: Fn(&[T]) -> A>(statistic: F) -> bool {
    forall|x: &[T]| #[trigger] statistic.requires((x,))
}

/// `statistic` accepts every pair of slices.
pub open spec fn total2<T, U, C, F: Fn(&[T], &[U]) -> C>(statistic: F) -> bool {
    forall|x: &[T], y: &[U]| #[trigger] statistic.requires((x, y))
}

/// `statistic` returns one value for each content of its argument.
pub open spec fn deterministic<T, A, F: Fn(&[T]) -> A>(statistic: F) -> bool {
    forall|x1: &[T], x2: &[T], v1: A, v2: A|
        x1@ == x2@ && #[trigger] statistic.ensures((x1,), v1) && #[trigger] statistic.ensures(
            (x2,),
            v2,
        ) ==> v1 == v2
}

/// `d` holds, for each `i < n`, a value of `statistic` on resample `i` of
/// `sample` under `seed`.
pub open spec fn is_distribution<T, A, F: Fn(&[T]) -> A>(
    sample: Seq<T>,
    statistic: F,
    seed: u64,
    n: nat,
    d: Seq<A>,
) -> bool {
    &&& d.len() == n
    &&& forall|i: int| 0 <= i < n ==> yields(statistic, resample_at(sample, seed, i as nat), #[trigger] d[i])
}

/// Fills slots `start..end` of a one-sample distribution: slot `start + i`
/// gets the statistic of resample `start + i`.
pub fn bootstrap_range<T: Copy, A, F: Fn(&[T]) -> A>(
    sample: &[T],
    statistic: &F,
    seed: u64,
    start: usize,
    end: usize,
) -> (r: Vec<A>)
    requires
        start <= end,
        total(*statistic),
    ensures
        r.len() == end - start,
        forall|i: int|
            0 <= i < r.len() ==> yields(
                *statistic,
                resample_at(sample@, seed, (start + i) as nat),
                #[trigger] r[i],
            ),
{
    let ghost n = sample@.len();
    let mut resamples = Resamples::new(sample, seed);
    resamples.skip(start);
    let mut r: Vec<A> = Vec::with_capacity(end - start);
    let mut k: usize = start;
    while k < end
        invariant
            start <= k <= end,
            n == sample@.len(),
            total(*statistic),
            resamples.sample() == sample@,
            resamples.state() == advance(initial_state(seed), (k * n) as nat),
            r.len() == k - start,
            forall|i: int|
                0 <= i < r.len() ==> yields(
                    *statistic,
                    resample_at(sample@, seed, (start + i) as nat),
                    #[trigger] r[i],
                ),
        decreases end - k,
    {
        let x = resamples.next();
        let xs = x.as_slice();
        let v = statistic(xs);
        proof {
            lemma_advance_add(initial_state(seed), (k * n) as nat, n);
            assert(k * n + n == (k + 1) * n) by (nonlinear_arith);
            assert(xs@ == resample_at(sample@, seed, k as nat));
            assert(yields(*statistic, resample_at(sample@, seed, k as nat), v));
        }
        r.push(v);
        k += 1;
    }
    r
}

/// The bootstrap distribution of `statistic` over `sample`: `nresamples`
/// values, value `i` computed on resample `i` of the generator seeded with
/// `seed`. With more than one worker and more resamples than sample
/// elements, the buffer is filled chunk by chunk as `workers` workers would
/// share it; the result is the same either way.
pub fn bootstrap_single_with_workers<T: Copy, A, F: Fn(&[T]) -> A>(
    sample: &[T],
    statistic: F,
    nresamples: usize,
    workers: usize,
    seed: u64,
) -> (d: Distribution<A>)
    requires
        nresamples > 0,
        total(statistic),
    ensures
        is_distribution(sample@, statistic, seed, nresamples as nat, d@),
{
    if workers > 1 && nresamples > sample.len() {
        let g = granularity(nresamples, workers);
        let bounds = chunk_bounds(nresamples, g);
        let mut values: Vec<A> = Vec::with_capacity(nresamples);
        let mut c: usize = 0;
        proof {
            lemma_nonempty_count(nresamples as nat, g as nat);
            assert(0 * g == 0);
        }
        while c < bounds.len()
            invariant
                g > 0,
                total(statistic),
                bounds.len() == chunk_count(nresamples as nat, g as nat),
                forall|b: int|
                    0 <= b < bounds.len() ==> (#[trigger] bounds[b]).0 == chunk_spec(
                        nresamples as nat,
                        g as nat,
                        b as nat,
                    ).0 && bounds[b].1 == chunk_spec(nresamples as nat, g as nat, b as nat).1,
                c <= bounds.len(),
                c < bounds.len() ==> values.len() == bounds[c as int].0,
                c == bounds.len() ==> values.len() == nresamples,
                forall|i: int|
                    0 <= i < values.len() ==> yields(
                        statistic,
                        resample_at(sample@, seed, i as nat),
                        #[trigger] values[i],
                    ),
            decreases bounds.len() - c,
        {
            let (start, end) = bounds[c];
            proof {
                lemma_chunk_step(nresamples as nat, g as nat, c as nat);
            }
            let mut part = bootstrap_range(sample, &statistic, seed, start, end);
            let ghost before = values@;
            let ghost filled = part@;
            assert(before.len() == start && filled.len() == end - start);
            values.append(&mut part);
            proof {
                assert forall|i: int| 0 <= i < values.len() implies yields(
                    statistic,
                    resample_at(sample@, seed, i as nat),
                    #[trigger] values[i],
                ) by {
                    if i >= before.len() {
                        assert(values[i] == filled[i - start]);
                    } else {
                        assert(values[i] == before[i]);
                    }
                }
            }
            c += 1;
        }
        Distribution { values }
    } else {
        let values = bootstrap_range(sample, &statistic, seed, 0, nresamples);
        Distribution { values }
    }
}

/// With a statistic that returns one value per input, two distributions built
/// from the same sample, seed and resample count are equal: the chunked fill
/// and the single pass give the same values in the same order.
pub proof fn lemma_same_distribution<T, A, F: Fn(&[T]) -> A>(
    sample: Seq<T>,
    statistic: F,
    seed: u64,
    n: nat,
    d1: Seq<A>,
    d2: Seq<A>,
)
    requires
        deterministic(statistic),
        is_distribution(sample, statistic, seed, n, d1),
        is_distribution(sample, statistic, seed, n, d2),
    ensures
        d1 == d2,
{
    assert forall|i: int| 0 <= i < n implies d1[i] == d2[i] by {
        let s = resample_at(sample, seed, i as nat);
        assert(yields(statistic, s, d1[i]));
        assert(yields(statistic, s, d2[i]));
        let x1 = choose|x: &[T]| x@ == s && #[trigger] statistic.ensures((x,), d1[i]);
        let x2 = choose|x: &[T]| x@ == s && #[trigger] statistic.ensures((x,), d2[i]);
        assert(statistic.ensures((x1,), d1[i]) && statistic.ensures((x2,), d2[i]));
    }
    assert(d1 =~= d2);
}

/// Where the statistic's value on every resample of the sample satisfies
/// `inside` (lies in a range, say), so does every value of the distribution.
pub proof fn lemma_range_preserved<T, A, F: Fn(&[T]) -> A>(
    sample: Seq<T>,
    statistic: F,
    seed: u64,
    n: nat,
    d: Seq<A>,
    inside: spec_fn(A) -> bool,
)
    requires
        is_distribution(sample, statistic, seed, n, d),
        forall|x: &[T], v: A|
            is_resample_of(x@, sample) && #[trigger] statistic.ensures((x,), v) ==> inside(v),
    ensures
        forall|i: int| 0 <= i < d.len() ==> inside(#[trigger] d[i]),
{
    assert forall|i: int| 0 <= i < d.len() implies inside(#[trigger] d[i]) by {
        let s = resample_at(sample, seed, i as nat);
        lemma_resample_from_is_resample(
            sample,
            advance(initial_state(seed), i as nat * sample.len()),
        );
        assert(yields(statistic, s, d[i]));
        let x = choose|x: &[T]| x@ == s && #[trigger] statistic.ensures((x,), d[i]);
        assert(is_resample_of(x@, sample));
    }
}

/// Mixed into the caller's seed to seed the generator of the second sample.
pub const SECOND_SEED_MIX: u64 = 0x9E37_79B9_7F4A_7C15;

/// The seed of the generator that resamples the second sample.
pub open spec fn second_seed(seed: u64) -> u64 {
    seed ^ SECOND_SEED_MIX
}

/// `k` is the ceiling of the square root of `n`.
pub open spec fn is_ceil_sqrt(n: nat, k: nat) -> bool {
    n <= k * k && (k == 0 || (k - 1) * (k - 1) < n)
}

/// The ceiling of the square root of `n`.
pub open spec fn ceil_sqrt(n: nat) -> nat {
    choose|k: nat| is_ceil_sqrt(n, k)
}

/// `statistic` returns one value for each content of its two arguments.
pub open spec fn deterministic2<T, U, C, F: Fn(&[T], &[U]) -> C>(statistic: F) -> bool {
    forall|x1: &[T], y1: &[U], x2: &[T], y2: &[U], v1: C, v2: C|
        x1@ == x2@ && y1@ == y2@ && #[trigger] statistic.ensures((x1, y1), v1)
            && #[trigger] statistic.ensures((x2, y2), v2) ==> v1 == v2
}

/// `d` is the `k` by `k` grid, row after row, of a two-sample statistic:
/// slot `p` pairs resample `p / k` of `first` with resample `p` of `second`,
/// so each row takes one resample of `first` and `k` fresh ones of `second`.
pub open spec fn is_distribution2<T, U, C, F: Fn(&[T], &[U]) -> C>(
    first: Seq<T>,
    second: Seq<U>,
    statistic: F,
    seed: u64,
    k: nat,
    d: Seq<C>,
) -> bool {
    &&& d.len() == k * k
    &&& forall|p: int|
        0 <= p < k * k ==> yields2(
            statistic,
            resample_at(first, seed, (p / k as int) as nat),
            resample_at(second, second_seed(seed), p as nat),
            #[trigger] d[p],
        )
}

/// The ceiling of a square root is unique.
pub proof fn lemma_ceil_sqrt_unique(n: nat, k1: nat, k2: nat)
    requires
        is_ceil_sqrt(n, k1),
        is_ceil_sqrt(n, k2),
    ensures
        k1 == k2,
{
    if k1 < k2 {
        assert(k1 * k1 <= (k2 - 1) * (k2 - 1)) by (nonlinear_arith)
            requires
                k1 <= k2 - 1,
        ;
    } else if k2 < k1 {
        assert(k2 * k2 <= (k1 - 1) * (k1 - 1)) by (nonlinear_arith)
            requires
                k2 <= k1 - 1,
        ;
    }
}

/// The side of the square grid that `nresamples` resamples are rounded up
/// to: the ceiling of the square root of `nresamples`.
pub fn resample_grid_side(nresamples: usize) -> (k: usize)
    ensures
        is_ceil_sqrt(nresamples as nat, k as nat),
        k == ceil_sqrt(nresamples as nat),
{
    if nresamples == 0 {
        proof {
            assert(is_ceil_sqrt(0, 0));
            lemma_ceil_sqrt_unique(0, 0, ceil_sqrt(0));
        }
        return 0;
    }
    let n = nresamples as u128;
    let mut lo: u64 = 0;
    let mut hi: u64 = 0x1_0000_0000;
    assert(hi * hi == 0x1_0000_0000_0000_0000u128) by (nonlinear_arith)
        requires
            hi == 0x1_0000_0000u64,
    ;
    while lo + 1 < hi
        invariant
            n == nresamples,
            0 < n < 0x1_0000_0000_0000_0000u128,
            lo < hi <= 0x1_0000_0000u64,
            lo * lo < n,
            n <= hi * hi,
        decreases hi - lo,
    {
        let mid = lo + (hi - lo) / 2;
        let m = mid as u128;
        assert(m * m <= 0x1_0000_0000_0000_0000u128) by (nonlinear_arith)
            requires
                m <= 0x1_0000_0000u128,
        ;
        if m * m < n {
            lo = mid;
        } else {
            hi = mid;
        }
    }
    proof {
        assert(hi == lo + 1);
        assert(is_ceil_sqrt(nresamples as nat, hi as nat));
        assert(hi <= nresamples) by (nonlinear_arith)
            requires
                hi >= 1,
                (hi - 1) * (hi - 1) < nresamples,
        ;
        lemma_ceil_sqrt_unique(nresamples as nat, hi as nat, ceil_sqrt(nresamples as nat));
    }
    hi as usize
}

/// The two-sample bootstrap distribution of `statistic`: the requested
/// `nresamples` is rounded up to `k * k`, with `k` the ceiling of its square
/// root, and the result is the `k` by `k` grid described by
/// `is_distribution2`. With more than one worker and more slots than the two
/// samples hold together, the grid is filled in chunks of whole rows as
/// `workers` workers would share it; the result is the same either way.
pub fn bootstrap_with_workers<T: Copy, U: Copy, C, F: Fn(&[T], &[U]) -> C>(
    first: &[T],
    second: &[U],
    statistic: F,
    nresamples: usize,
    workers: usize,
    seed: u64,
) -> (d: Distribution<C>)
    requires
        nresamples > 0,
        ceil_sqrt(nresamples as nat) * ceil_sqrt(nresamples as nat) <= usize::MAX,
        total2(statistic),
    ensures
        is_distribution2(first@, second@, statistic, seed, ceil_sqrt(nresamples as nat), d@),
{
    let k = resample_grid_side(nresamples);
    let slots = k * k;
    if workers > 1 && slots > first.len() && slots - first.len() > second.len() {
        let g = granularity(k, workers);
        let bounds = chunk_bounds(k, g);
        let mut values: Vec<C> = Vec::with_capacity(slots);
        let mut c: usize = 0;
        proof {
            assert(k > 0) by (nonlinear_arith)
                requires
                    slots == k * k,
                    slots > 0,
            ;
            lemma_nonempty_count(k as nat, g as nat);
            assert(0 * g == 0);
        }
        while c < bounds.len()
            invariant
                g > 0,
                k > 0,
                slots == k * k <= usize::MAX,
                total2(statistic),
                bounds.len() == chunk_count(k as nat, g as nat),
                forall|b: int|
                    0 <= b < bounds.len() ==> (#[trigger] bounds[b]).0 == chunk_spec(
                        k as nat,
                        g as nat,
                        b as nat,
                    ).0 && bounds[b].1 == chunk_spec(k as nat, g as nat, b as nat).1,
                c <= bounds.len(),
                c < bounds.len() ==> values.len() == bounds[c as int].0 * k,
                c == bounds.len() ==> values.len() == slots,
                forall|p: int|
                    0 <= p < values.len() ==> yields2(
                        statistic,
                        resample_at(first@, seed, (p / k as int) as nat),
                        resample_at(second@, second_seed(seed), p as nat),
                        #[trigger] values[p],
                    ),
            decreases bounds.len() - c,
        {
            let (start, end) = bounds[c];
            proof {
                lemma_chunk_step(k as nat, g as nat, c as nat);
            }
            let mut part = bootstrap_rows(first, second, &statistic, seed, k, start, end);
            let ghost before = values@;
            let ghost filled = part@;
            values.append(&mut part);
            proof {
                assert(start * k + (end - start) * k == end * k) by (nonlinear_arith)
                    requires
                        start <= end,
                ;
                assert forall|p: int| 0 <= p < values.len() implies yields2(
                    statistic,
                    resample_at(first@, seed, (p / k as int) as nat),
                    resample_at(second@, second_seed(seed), p as nat),
                    #[trigger] values[p],
                ) by {
                    if p >= before.len() {
                        let q = p - start * k;
                        assert(values[p] == filled[q]);
                        assert(start * k + q == p);
                    } else {
                        assert(values[p] == before[p]);
                    }
                }
            }
            c += 1;
        }
        Distribution { values }
    } else {
        let values = bootstrap_rows(first, second, &statistic, seed, k, 0, k);
        proof {
            assert forall|p: int| 0 <= p < values.len() implies yields2(
                statistic,
                resample_at(first@, seed, (p / k as int) as nat),
                resample_at(second@, second_seed(seed), p as nat),
                #[trigger] values[p],
            ) by {
                assert(0 * k + p == p);
            }
        }
        Distribution { values }
    }
}

/// Relies on num_cpus::get: the number of logical CPUs this process may use.
/// Nothing is promised of the count; any value gives the same distribution.
#[verifier::external_body]
fn available_workers() -> (r: usize) {
    num_cpus::get()
}

/// The bootstrap distribution of `statistic` over `sample`, shared out over
/// as many chunks as the machine has logical CPUs.
pub fn bootstrap_single<T: Copy, A, F: Fn(&[T]) -> A>(
    sample: &[T],
    statistic: F,
    nresamples: usize,
    seed: u64,
) -> (d: Distribution<A>)
    requires
        nresamples > 0,
        total(statistic),
    ensures
        is_distribution(sample@, statistic, seed, nresamples as nat, d@),
{
    let workers = available_workers();
    bootstrap_single_with_workers(sample, statistic, nresamples, workers, seed)
}

/// The two-sample bootstrap distribution of `statistic`, shared out over as
/// many chunks of rows as the machine has logical CPUs.
pub fn bootstrap<T: Copy, U: Copy, C, F: Fn(&[T], &[U]) -> C>(
    first: &[T],
    second: &[U],
    statistic: F,
    nresamples: usize,
    seed: u64,
) -> (d: Distribution<C>)
    requires
        nresamples > 0,
        ceil_sqrt(nresamples as nat) * ceil_sqrt(nresamples as nat) <= usize::MAX,
        total2(statistic),
    ensures
        is_distribution2(first@, second@, statistic, seed, ceil_sqrt(nresamples as nat), d@),
{
    let workers = available_workers();
    bootstrap_with_workers(first, second, statistic, nresamples, workers, seed)
}

/// With a two-sample statistic that returns one value per input, two grids
/// built from the same samples, seed and side are equal, slot for slot.
pub proof fn lemma_same_distribution2<T, U, C, F: Fn(&[T], &[U]) -> C>(
    first: Seq<T>,
    second: Seq<U>,
    statistic: F,
    seed: u64,
    k: nat,
    d1: Seq<C>,
    d2: Seq<C>,
)
    requires
        deterministic2(statistic),
        is_distribution2(first, second, statistic, seed, k, d1),
        is_distribution2(first, second, statistic, seed, k, d2),
    ensures
        d1 == d2,
{
    assert forall|p: int| 0 <= p < k * k implies d1[p] == d2[p] by {
        let s = resample_at(first, seed, (p / k as int) as nat);
        let t = resample_at(second, second_seed(seed), p as nat);
        assert(yields2(statistic, s, t, d1[p]));
        assert(yields2(statistic, s, t, d2[p]));
        let (x1, y1) = choose|x: &[T], y: &[U]|
            x@ == s && y@ == t && #[trigger] statistic.ensures((x, y), d1[p]);
        let (x2, y2) = choose|x: &[T], y: &[U]|
            x@ == s && y@ == t && #[trigger] statistic.ensures((x, y), d2[p]);
        assert(statistic.ensures((x1, y1), d1[p]) && statistic.ensures((x2, y2), d2[p]));
    }
    assert(d1 =~= d2);
}

proof fn lemma_row_index(k: nat, row: nat, j: nat)
    requires
        j < k,
    ensures
        (row * k + j) as int / (k as int) == row as int,
{
    vstd::arithmetic::div_mod::lemma_fundamental_div_mod_converse(
        (row * k + j) as int,
        k as int,
        row as int,
        j as int,
    );
}

/// Fills rows `r0..r1` of a `k` by `k` two-sample grid: the `q`-th value
/// returned is slot `r0 * k + q` of the grid.
pub fn bootstrap_rows<T: Copy, U: Copy, C, F: Fn(&[T], &[U]) -> C>(
    first: &[T],
    second: &[U],
    statistic: &F,
    seed: u64,
    k: usize,
    r0: usize,
    r1: usize,
) -> (r: Vec<C>)
    requires
        r0 <= r1 <= k,
        k * k <= usize::MAX,
        total2(*statistic),
    ensures
        r.len() == (r1 - r0) * k,
        forall|q: int|
            0 <= q < r.len() ==> yields2(
                *statistic,
                resample_at(first@, seed, ((r0 * k + q) / k as int) as nat),
                resample_at(second@, second_seed(seed), (r0 * k + q) as nat),
                #[trigger] r[q],
            ),
{
    let ghost n1 = first@.len();
    let ghost n2 = second@.len();
    let ghost s1 = initial_state(seed);
    let ghost s2 = initial_state(second_seed(seed));
    let mut firsts = Resamples::new(first, seed);
    firsts.skip(r0);
    let mut seconds = Resamples::new(second, seed ^ SECOND_SEED_MIX);
    proof {
        assert(r0 * k <= k * k) by (nonlinear_arith)
            requires
                r0 <= k,
        ;
    }
    seconds.skip(r0 * k);
    proof {
        assert((r1 - r0) * k <= k * k) by (nonlinear_arith)
            requires
                r1 - r0 <= k,
        ;
    }
    let mut r: Vec<C> = Vec::with_capacity((r1 - r0) * k);
    let mut row: usize = r0;
    proof {
        assert((row - r0) * k == 0) by (nonlinear_arith)
            requires
                row == r0,
        ;
    }
    while row < r1
        invariant
            r0 <= row <= r1 <= k,
            k * k <= usize::MAX,
            n1 == first@.len(),
            n2 == second@.len(),
            s1 == initial_state(seed),
            s2 == initial_state(second_seed(seed)),
            total2(*statistic),
            firsts.sample() == first@,
            seconds.sample() == second@,
            firsts.state() == advance(s1, (row * n1) as nat),
            seconds.state() == advance(s2, (row * k * n2) as nat),
            r.len() == (row - r0) * k,
            forall|q: int|
                0 <= q < r.len() ==> yields2(
                    *statistic,
                    resample_at(first@, seed, ((r0 * k + q) / k as int) as nat),
                    resample_at(second@, second_seed(seed), (r0 * k + q) as nat),
                    #[trigger] r[q],
                ),
        decreases r1 - row,
    {
        let a = firsts.next();
        let xs = a.as_slice();
        proof {
            lemma_advance_add(s1, (row * n1) as nat, n1);
            assert(row * n1 + n1 == (row + 1) * n1) by (nonlinear_arith);
            assert(xs@ == resample_at(first@, seed, row as nat));
            assert(row * k + k <= k * k) by (nonlinear_arith)
                requires
                    row < k,
            ;
        }
        let mut j: usize = 0;
        while j < k
            invariant
                r0 <= row < r1 <= k,
                row * k + k <= k * k <= usize::MAX,
                j <= k,
                n2 == second@.len(),
                s2 == initial_state(second_seed(seed)),
                total2(*statistic),
                xs@ == resample_at(first@, seed, row as nat),
                seconds.sample() == second@,
                seconds.state() == advance(s2, ((row * k + j) * n2) as nat),
                r.len() == (row - r0) * k + j,
                forall|q: int|
                    0 <= q < r.len() ==> yields2(
                        *statistic,
                        resample_at(first@, seed, ((r0 * k + q) / k as int) as nat),
                        resample_at(second@, second_seed(seed), (r0 * k + q) as nat),
                        #[trigger] r[q],
                    ),
            decreases k - j,
        {
            let b = seconds.next();
            let ys = b.as_slice();
            let v = statistic(xs, ys);
            proof {
                let p = row * k + j;
                lemma_advance_add(s2, (p * n2) as nat, n2);
                assert(p * n2 + n2 == (p + 1) * n2) by (nonlinear_arith);
                assert(ys@ == resample_at(second@, second_seed(seed), p as nat));
                assert(r0 * k + (row - r0) * k + j == p) by (nonlinear_arith)
                    requires
                        r0 <= row,
                        p == row * k + j,
                ;
                lemma_row_index(k as nat, row as nat, j as nat);
                assert(yields2(*statistic, xs@, ys@, v));
            }
            r.push(v);
            j += 1;
        }
        proof {
            assert((row - r0) * k + k == (row + 1 - r0) * k) by (nonlinear_arith)
                requires
                    r0 <= row,
            ;
            assert(row * k + k == (row + 1) * k) by (nonlinear_arith);
        }
        row += 1;
    }
    r
}

} // verus!
