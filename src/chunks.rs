//! How a result buffer is cut into contiguous, disjoint chunks, one unit of
//! work each.
use vstd::prelude::*;

verus! {

/// The bounds of chunk `c` when `n` slots are cut into chunks of `g` slots:
/// every chunk but the last holds exactly `g` slots.
pub open spec fn chunk_spec(n: nat, g: nat, c: nat) -> (nat, nat) {
    let start = c * g;
    let end = if (c + 1) * g <= n {
        (c + 1) * g
    } else {
        n
    };
    (start, end)
}

/// The number of chunks of `g` slots that `n` slots make.
pub open spec fn chunk_count(n: nat, g: nat) -> nat
    recommends
        g > 0,
{
    if n % g == 0 {
        n / g
    } else {
        n / g + 1
    }
}

/// Chunk size for `n` units over `workers` workers: every worker gets at most
/// one chunk, and the last chunk may be smaller.
pub fn granularity(n: usize, workers: usize) -> (g: usize)
    requires
        workers > 1,
    ensures
        g == n / workers + 1,
{
    if n > 0 {
        assert(n / workers < n) by {
            vstd::arithmetic::div_mod::lemma_div_decreases(n as int, workers as int);
        }
    }
    n / workers + 1
}

/// Cuts `n` slots into chunks of `g` slots, in order: chunk `c` covers
/// `[c * g, min((c + 1) * g, n))`.
pub fn chunk_bounds(n: usize, g: usize) -> (r: Vec<(usize, usize)>)
    requires
        g > 0,
    ensures
        r.len() == chunk_count(n as nat, g as nat),
        forall|c: int|
            0 <= c < r.len() ==> (#[trigger] r[c]).0 == chunk_spec(n as nat, g as nat, c as nat).0
                && r[c].1 == chunk_spec(n as nat, g as nat, c as nat).1,
{
    let mut r: Vec<(usize, usize)> = Vec::new();
    let mut start: usize = 0;
    proof {
        assert(r.len() * g == 0) by (nonlinear_arith)
            requires
                r.len() == 0,
        ;
        if n == 0 {
            lemma_empty_count(g as nat);
        }
    }
    while start < n
        invariant
            g > 0,
            start <= n,
            start < n ==> r.len() * g == start,
            start == n ==> r.len() == chunk_count(n as nat, g as nat),
            forall|c: int|
                0 <= c < r.len() ==> (#[trigger] r[c]).0 == chunk_spec(n as nat, g as nat, c as nat).0
                    && r[c].1 == chunk_spec(n as nat, g as nat, c as nat).1,
        decreases n - start,
    {
        let end = if g <= n - start {
            start + g
        } else {
            n
        };
        proof {
            assert((r.len() + 1) * g == r.len() * g + g) by (nonlinear_arith);
            if end == n {
                lemma_last_chunk(n as nat, g as nat, r.len() as nat);
            }
        }
        r.push((start, end));
        start = end;
    }
    r
}

proof fn lemma_empty_count(g: nat)
    requires
        g > 0,
    ensures
        chunk_count(0, g) == 0,
{
    vstd::arithmetic::div_mod::lemma_fundamental_div_mod_converse(0, g as int, 0, 0);
}

proof fn lemma_last_chunk(n: nat, g: nat, c: nat)
    requires
        g > 0,
        c * g < n,
        n <= (c + 1) * g,
    ensures
        chunk_count(n, g) == c + 1,
{
    let q = n / g;
    let m = n % g;
    vstd::arithmetic::div_mod::lemma_fundamental_div_mod(n as int, g as int);
    assert(n == q * g + m);
    assert(0 <= m < g);
    assert((c + 1) * g == c * g + g) by (nonlinear_arith);
    if n == (c + 1) * g {
        vstd::arithmetic::div_mod::lemma_fundamental_div_mod_converse(n as int, g as int, (c + 1) as int, 0);
    } else {
        vstd::arithmetic::div_mod::lemma_fundamental_div_mod_converse(
            n as int,
            g as int,
            c as int,
            n - c * g,
        );
    }
}

/// Some chunk exists when there is work.
pub proof fn lemma_nonempty_count(n: nat, g: nat)
    requires
        g > 0,
        n > 0,
    ensures
        chunk_count(n, g) > 0,
{
    vstd::arithmetic::div_mod::lemma_fundamental_div_mod(n as int, g as int);
    if n / g == 0 {
        assert(n % g != 0) by (nonlinear_arith)
            requires
                n == g * (n / g) + n % g,
                n / g == 0,
                n > 0,
        ;
    }
}

/// Chunk `c` starts where chunk `c - 1` ends, is not empty, and the last
/// chunk ends at `n`.
pub proof fn lemma_chunk_step(n: nat, g: nat, c: nat)
    requires
        g > 0,
        c < chunk_count(n, g),
    ensures
        chunk_spec(n, g, c).0 < chunk_spec(n, g, c).1 <= n,
        c + 1 < chunk_count(n, g) ==> chunk_spec(n, g, c + 1).0 == chunk_spec(n, g, c).1,
        c + 1 == chunk_count(n, g) ==> chunk_spec(n, g, c).1 == n,
{
    vstd::arithmetic::div_mod::lemma_fundamental_div_mod(n as int, g as int);
    let q = n / g;
    let m = n % g;
    assert(n == q * g + m);
    assert((c + 1) * g == c * g + g) by (nonlinear_arith);
    if c < q {
        assert((c + 1) * g <= q * g) by (nonlinear_arith)
            requires
                c + 1 <= q,
        ;
    } else {
        assert(c == q);
        assert(m != 0);
    }
    if c + 1 < chunk_count(n, g) {
        assert(c + 1 < q || (c + 1 == q && m != 0));
        assert((c + 1) * g <= q * g) by (nonlinear_arith)
            requires
                c + 1 <= q,
        ;
    }
    if c + 1 == chunk_count(n, g) && m == 0 {
        assert(c + 1 == q);
    }
}

} // verus!
