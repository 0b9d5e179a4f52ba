//! A seeded generator of resamples: each resample is drawn with replacement
//! from a borrowed sample and has the sample's length.
use vstd::prelude::*;

verus! {

/// The state used when the caller seeds the generator with zero, a fixed
/// point of the xorshift step.
pub const ZERO_SEED_STATE: u64 = 0x2545_F491_4F6C_DD1D;

/// One step of the xorshift64 generator.
pub open spec fn xorshift(s: u64) -> u64 {
    let a = s ^ (s << 13u64);
    let b = a ^ (a >> 7u64);
    b ^ (b << 17u64)
}

/// The generator state after `k` steps from `s`.
pub open spec fn advance(s: u64, k: nat) -> u64
    decreases k,
{
    if k == 0 {
        s
    } else {
        advance(xorshift(s), (k - 1) as nat)
    }
}

/// The state a generator starts from for a given seed.
pub open spec fn initial_state(seed: u64) -> u64 {
    if seed == 0 {
        ZERO_SEED_STATE
    } else {
        seed
    }
}

/// The resample drawn from `sample` by a generator in state `s`: element `j`
/// is the sample's element at the index given by the state after `j + 1` steps.
pub open spec fn resample_from<T>(sample: Seq<T>, s: u64) -> Seq<T> {
    Seq::new(
        sample.len(),
        |j: int| sample[advance(s, (j + 1) as nat) as int % sample.len() as int],
    )
}

/// The `i`-th resample (counting from zero) that a generator seeded with
/// `seed` draws from `sample`.
pub open spec fn resample_at<T>(sample: Seq<T>, seed: u64, i: nat) -> Seq<T> {
    resample_from(sample, advance(initial_state(seed), i * sample.len()))
}

/// Every element of `r` is an element of `sample`, and both have one length.
pub open spec fn is_resample_of<T>(r: Seq<T>, sample: Seq<T>) -> bool {
    &&& r.len() == sample.len()
    &&& forall|j: int| 0 <= j < r.len() ==> sample.contains(#[trigger] r[j])
}

/// Advancing by `a` steps and then by `b` steps is advancing by `a + b`.
pub proof fn lemma_advance_add(s: u64, a: nat, b: nat)
    ensures
        advance(advance(s, a), b) == advance(s, a + b),
    decreases a,
{
    if a > 0 {
        lemma_advance_add(xorshift(s), (a - 1) as nat, b);
        assert((a - 1) as nat + b == (a + b - 1) as nat);
    }
}

/// A resample drawn by the generator is a resample of the sample.
pub proof fn lemma_resample_from_is_resample<T>(sample: Seq<T>, s: u64)
    ensures
        is_resample_of(resample_from(sample, s), sample),
{
    let r = resample_from(sample, s);
    assert forall|j: int| 0 <= j < r.len() implies sample.contains(#[trigger] r[j]) by {
        let k = advance(s, (j + 1) as nat) as int % sample.len() as int;
        assert(0 <= k < sample.len());
        assert(r[j] == sample[k]);
    }
}

fn xorshift_step(s: u64) -> (r: u64)
    ensures
        r == xorshift(s),
{
    let a = s ^ (s << 13u64);
    let b = a ^ (a >> 7u64);
    b ^ (b << 17u64)
}

/// A generator of resamples over a borrowed sample.
pub struct Resamples<'a, T> {
    sample: &'a [T],
    state: u64,
}

impl<'a, T: Copy> Resamples<'a, T> {
    /// The sample the resamples are drawn from.
    pub closed spec fn sample(&self) -> Seq<T> {
        self.sample@
    }

    /// The generator's current state.
    pub closed spec fn state(&self) -> u64 {
        self.state
    }

    /// A generator over `sample`, seeded with `seed`.
    pub fn new(sample: &'a [T], seed: u64) -> (r: Self)
        ensures
            r.sample() == sample@,
            r.state() == initial_state(seed),
    {
        let state = if seed == 0 {
            ZERO_SEED_STATE
        } else {
            seed
        };
        Resamples { sample, state }
    }

    /// Draws the next resample.
    pub fn next(&mut self) -> (r: Vec<T>)
        ensures
            final(self).sample() == old(self).sample(),
            r@ == resample_from(old(self).sample(), old(self).state()),
            final(self).state() == advance(old(self).state(), old(self).sample().len()),
    {
        let n = self.sample.len();
        let ghost s0 = self.state;
        let mut out: Vec<T> = Vec::with_capacity(n);
        let mut s = self.state;
        let mut j: usize = 0;
        while j < n
            invariant
                n == self.sample@.len(),
                j <= n,
                s == advance(s0, j as nat),
                out@.len() == j,
                forall|k: int|
                    0 <= k < j ==> out@[k] == self.sample@[advance(s0, (k + 1) as nat) as int % n as int],
            decreases n - j,
        {
            proof {
                lemma_advance_add(s0, j as nat, 1);
                assert(advance(s, 1) == xorshift(s)) by {
                    assert(advance(xorshift(s), 0) == xorshift(s));
                }
            }
            s = xorshift_step(s);
            let idx = (s % (n as u64)) as usize;
            out.push(self.sample[idx]);
            j += 1;
        }
        self.state = s;
        assert(out@ =~= resample_from(self.sample@, s0));
        out
    }

    /// Moves the generator past `count` resamples without drawing them.
    pub fn skip(&mut self, count: usize)
        ensures
            final(self).sample() == old(self).sample(),
            final(self).state() == advance(old(self).state(), (count * old(self).sample().len()) as nat),
    {
        let n = self.sample.len();
        let ghost s0 = self.state;
        let mut i: usize = 0;
        while i < count
            invariant
                n == self.sample@.len(),
                self.sample@ == old(self).sample@,
                i <= count,
                self.state == advance(s0, (i * n) as nat),
            decreases count - i,
        {
            let ghost si = self.state;
            let mut j: usize = 0;
            while j < n
                invariant
                    n == self.sample@.len(),
                    self.sample@ == old(self).sample@,
                    j <= n,
                    self.state == advance(si, j as nat),
                decreases n - j,
            {
                proof {
                    lemma_advance_add(si, j as nat, 1);
                    assert(advance(xorshift(self.state), 0) == xorshift(self.state));
                }
                self.state = xorshift_step(self.state);
                j += 1;
            }
            proof {
                lemma_advance_add(s0, (i * n) as nat, n as nat);
                assert(i * n + n == (i + 1) * n) by (nonlinear_arith);
            }
            i += 1;
        }
    }
}

} // verus!
