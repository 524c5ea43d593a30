//! Facts about sequences.
use vstd::prelude::*;

verus! {

/// Filtering one element more.
pub(crate) proof fn lemma_filter_take<A>(s: Seq<A>, i: int, f: spec_fn(A) -> bool)
    requires
        0 <= i < s.len(),
    ensures
        s.take(i + 1).filter(f) == if f(s[i]) {
            s.take(i).filter(f).push(s[i])
        } else {
            s.take(i).filter(f)
        },
{
    reveal(Seq::filter);
    assert(s.take(i + 1).drop_last() =~= s.take(i));
}

/// What a filter lets through meets the condition and comes from the sequence.
pub(crate) proof fn lemma_filter_from<A>(s: Seq<A>, f: spec_fn(A) -> bool, i: int)
    requires
        0 <= i < s.filter(f).len(),
    ensures
        f(s.filter(f)[i]),
        s.contains(s.filter(f)[i]),
    decreases s.len(),
{
    reveal(Seq::filter);
    let x = s.filter(f)[i];
    let before = s.drop_last();
    if i < before.filter(f).len() {
        lemma_filter_from(before, f, i);
        let j = before.index_of(x);
        assert(s[j] == x);
    } else {
        assert(s[s.len() - 1] == x);
    }
}

/// Filtering nothing.
pub(crate) proof fn lemma_filter_nothing<A>(s: Seq<A>, f: spec_fn(A) -> bool)
    ensures
        s.take(0).filter(f) == Seq::<A>::empty(),
{
    reveal(Seq::filter);
    assert(s.take(0).filter(f) =~= Seq::empty());
}

} // verus!
