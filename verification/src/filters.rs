use vstd::prelude::*;

verus! {

/// A sequence whose items all pass a filter is its own filtering; one whose items all fail
/// it filters to nothing.
pub proof fn lemma_filter_all_or_none<A>(s: Seq<A>, p: spec_fn(A) -> bool, pass: bool)
    requires
        forall|i: int| 0 <= i < s.len() ==> #[trigger] p(s[i]) == pass,
    ensures
        s.filter(p) == (if pass {
            s
        } else {
            Seq::<A>::empty()
        }),
    decreases s.len(),
{
    reveal(Seq::filter);
    if s.len() > 0 {
        assert forall|i: int| 0 <= i < s.drop_last().len() implies #[trigger] p(s.drop_last()[i]) == pass by {
            assert(p(s[i]) == pass);
        }
        lemma_filter_all_or_none(s.drop_last(), p, pass);
        assert(p(s[s.len() - 1]) == pass);
        if pass {
            assert(s.drop_last().push(s.last()) =~= s);
        }
    }
}

/// Filtering by the negation of a filter keeps nothing that passes it, and filtering by the
/// negation again changes nothing.
pub proof fn lemma_filter_removed<A>(s: Seq<A>, p: spec_fn(A) -> bool, q: spec_fn(A) -> bool)
    requires
        forall|x: A| #[trigger] q(x) == !p(x),
    ensures
        s.filter(q).filter(p) == Seq::<A>::empty(),
        s.filter(q).filter(q) == s.filter(q),
{
    let r = s.filter(q);
    assert forall|i: int| 0 <= i < r.len() implies #[trigger] p(r[i]) == false by {
        s.lemma_filter_pred(q, i);
    }
    lemma_filter_all_or_none(r, p, false);
    assert forall|i: int| 0 <= i < r.len() implies #[trigger] q(r[i]) == true by {
        s.lemma_filter_pred(q, i);
    }
    lemma_filter_all_or_none(r, q, true);
}

/// Filtering by a narrower filter after a wider one is filtering by the narrower alone.
pub proof fn lemma_filter_narrower<A>(s: Seq<A>, wide: spec_fn(A) -> bool, narrow: spec_fn(A) -> bool)
    requires
        forall|x: A| #[trigger] narrow(x) ==> wide(x),
    ensures
        s.filter(wide).filter(narrow) == s.filter(narrow),
    decreases s.len(),
{
    if s.len() > 0 {
        let prev = s.drop_last();
        let last = s.last();
        lemma_filter_narrower(prev, wide, narrow);
        assert(prev.push(last) =~= s);
        prev.lemma_filter_push(last, wide);
        prev.lemma_filter_push(last, narrow);
        if wide(last) {
            prev.filter(wide).lemma_filter_push(last, narrow);
        }
    }
}

} // verus!
