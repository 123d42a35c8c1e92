//! Folding a fallible step over a sequence, stopping at the first
//! failure, as every stage of the pipeline does.

use vstd::prelude::*;

verus! {

/// Applies `f` to each element in order: all the results, or the first
/// failure.
pub open spec fn collect<A, B, E>(f: spec_fn(A) -> Result<B, E>, xs: Seq<A>) -> Result<Seq<B>, E>
    decreases xs.len(),
{
    if xs.len() == 0 {
        Ok(Seq::empty())
    } else {
        match f(xs[0]) {
            Err(e) => Err(e),
            Ok(b) => match collect(f, xs.skip(1)) {
                Err(e) => Err(e),
                Ok(rest) => Ok(seq![b] + rest),
            },
        }
    }
}

/// Collection distributes over a split of the input, provided the
/// prefix succeeds.
pub proof fn lemma_collect_split<A, B, E>(f: spec_fn(A) -> Result<B, E>, xs: Seq<A>, i: int)
    requires
        0 <= i <= xs.len(),
        collect(f, xs.take(i)) is Ok,
    ensures
        collect(f, xs) == match collect(f, xs.skip(i)) {
            Ok(rest) => Ok::<Seq<B>, E>(collect(f, xs.take(i))->Ok_0 + rest),
            Err(e) => Err::<Seq<B>, E>(e),
        },
    decreases i,
{
    if i == 0 {
        assert(xs.take(0) =~= Seq::<A>::empty());
        assert(xs.skip(0) =~= xs);
        if collect(f, xs) is Ok {
            assert(Seq::<B>::empty() + collect(f, xs)->Ok_0 =~= collect(f, xs)->Ok_0);
        }
    } else {
        let pre = xs.take(i);
        assert(pre[0] == xs[0]);
        assert(pre.skip(1) =~= xs.skip(1).take(i - 1));
        assert(xs.skip(1).skip(i - 1) =~= xs.skip(i));
        lemma_collect_split(f, xs.skip(1), i - 1);
        let b0 = f(xs[0])->Ok_0;
        match collect(f, xs.skip(i)) {
            Ok(rest) => {
                assert(seq![b0] + (collect(f, xs.skip(1).take(i - 1))->Ok_0 + rest) =~= (seq![b0]
                    + collect(f, pre.skip(1))->Ok_0) + rest);
            },
            Err(_) => {},
        }
    }
}

/// Collecting one more element extends the results, or surfaces its
/// failure.
pub proof fn lemma_collect_push<A, B, E>(f: spec_fn(A) -> Result<B, E>, xs: Seq<A>, x: A)
    requires
        collect(f, xs) is Ok,
    ensures
        collect(f, xs.push(x)) == match f(x) {
            Ok(b) => Ok::<Seq<B>, E>(collect(f, xs)->Ok_0.push(b)),
            Err(e) => Err::<Seq<B>, E>(e),
        },
{
    let whole = xs.push(x);
    assert(whole.take(xs.len() as int) =~= xs);
    assert(whole.skip(xs.len() as int) =~= seq![x]);
    lemma_collect_split(f, whole, xs.len() as int);
    assert(seq![x].skip(1) =~= Seq::<A>::empty());
    assert(seq![x][0] == x);
    assert(collect(f, seq![x].skip(1)) == Ok::<Seq<B>, E>(Seq::<B>::empty()));
    match f(x) {
        Ok(b) => {
            assert(collect(f, seq![x]) == Ok::<Seq<B>, E>(seq![b] + Seq::<B>::empty()));
            assert(seq![b] + Seq::<B>::empty() =~= seq![b]);
            assert(collect(f, xs)->Ok_0 + seq![b] =~= collect(f, xs)->Ok_0.push(b));
        },
        Err(_) => {},
    }
}

} // verus!
