//! Order-preserving evaluation of a function over many query points, cut
//! into contiguous chunks of the output as workers would share it.
use vstd::prelude::*;

use crate::chunks::{
    chunk_bounds, chunk_count, chunk_spec, granularity, lemma_chunk_step, lemma_nonempty_count,
};

verus! {

/// `f` accepts every point.
pub open spec fn accepts_all<X, Y, F: Fn(X) -> Y>(f: F) -> bool {
    forall|x: X| #[trigger] f.requires((x,))
}

/// `f` returns one value per point.
pub open spec fn single_valued<X, Y, F: Fn(X) -> Y>(f: F) -> bool {
    forall|x: X, y1: Y, y2: Y| #[trigger] f.ensures((x,), y1) && #[trigger] f.ensures((x,), y2) ==> y1 == y2
}

/// `ys` holds, at each position, a value of `f` at the point of `xs` in the
/// same position.
pub open spec fn is_pointwise<X, Y, F: Fn(X) -> Y>(xs: Seq<X>, f: F, ys: Seq<Y>) -> bool {
    &&& ys.len() == xs.len()
    &&& forall|i: int| 0 <= i < ys.len() ==> f.ensures((xs[i],), #[trigger] ys[i])
}

/// Evaluates `f` at `xs[start..end]`, in order.
pub fn map_range<X: Copy, Y, F: Fn(X) -> Y>(
    xs: &[X],
    f: &F,
    start: usize,
    end: usize,
) -> (ys: Vec<Y>)
    requires
        start <= end <= xs@.len(),
        accepts_all(*f),
    ensures
        ys.len() == end - start,
        forall|i: int| 0 <= i < ys.len() ==> f.ensures((xs@[start + i],), #[trigger] ys[i]),
{
    let mut ys: Vec<Y> = Vec::with_capacity(end - start);
    let mut i: usize = start;
    while i < end
        invariant
            start <= i <= end <= xs@.len(),
            accepts_all(*f),
            ys.len() == i - start,
            forall|k: int| 0 <= k < ys.len() ==> f.ensures((xs@[start + k],), #[trigger] ys[k]),
        decreases end - i,
    {
        let y = f(xs[i]);
        ys.push(y);
        i += 1;
    }
    ys
}

/// Evaluates `f` at every point of `xs`: `ys[i]` is a value of `f` at
/// `xs[i]`. With more than one worker and more points than workers, the
/// output is filled in chunks of `xs.len() / workers + 1` points; the
/// position of each value is the same either way.
pub fn map_points<X: Copy, Y, F: Fn(X) -> Y>(xs: &[X], f: F, workers: usize) -> (ys: Vec<Y>)
    requires
        accepts_all(f),
    ensures
        is_pointwise(xs@, f, ys@),
{
    let n = xs.len();
    if workers > 1 && n > workers {
        let g = granularity(n, workers);
        let bounds = chunk_bounds(n, g);
        let mut ys: Vec<Y> = Vec::with_capacity(n);
        let mut c: usize = 0;
        proof {
            lemma_nonempty_count(n as nat, g as nat);
            assert(0 * g == 0);
        }
        while c < bounds.len()
            invariant
                g > 0,
                n == xs@.len(),
                accepts_all(f),
                bounds.len() == chunk_count(n as nat, g as nat),
                forall|b: int|
                    0 <= b < bounds.len() ==> (#[trigger] bounds[b]).0 == chunk_spec(
                        n as nat,
                        g as nat,
                        b as nat,
                    ).0 && bounds[b].1 == chunk_spec(n as nat, g as nat, b as nat).1,
                c <= bounds.len(),
                c < bounds.len() ==> ys.len() == bounds[c as int].0,
                c == bounds.len() ==> ys.len() == n,
                forall|i: int| 0 <= i < ys.len() ==> f.ensures((xs@[i],), #[trigger] ys[i]),
            decreases bounds.len() - c,
        {
            let (start, end) = bounds[c];
            proof {
                lemma_chunk_step(n as nat, g as nat, c as nat);
            }
            let mut part = map_range(xs, &f, start, end);
            let ghost before = ys@;
            let ghost filled = part@;
            ys.append(&mut part);
            proof {
                assert forall|i: int| 0 <= i < ys.len() implies f.ensures(
                    (xs@[i],),
                    #[trigger] ys[i],
                ) by {
                    if i >= before.len() {
                        assert(ys[i] == filled[i - start]);
                    } else {
                        assert(ys[i] == before[i]);
                    }
                }
            }
            c += 1;
        }
        ys
    } else {
        map_range(xs, &f, 0, n)
    }
}

/// With a function that returns one value per point, two pointwise
/// evaluations of the same points are equal, position for position, however
/// the work was cut into chunks.
pub proof fn lemma_same_points<X, Y, F: Fn(X) -> Y>(xs: Seq<X>, f: F, ys1: Seq<Y>, ys2: Seq<Y>)
    requires
        single_valued(f),
        is_pointwise(xs, f, ys1),
        is_pointwise(xs, f, ys2),
    ensures
        ys1 == ys2,
{
    assert forall|i: int| 0 <= i < ys1.len() implies ys1[i] == ys2[i] by {
        assert(f.ensures((xs[i],), ys1[i]) && f.ensures((xs[i],), ys2[i]));
    }
    assert(ys1 =~= ys2);
}

} // verus!
