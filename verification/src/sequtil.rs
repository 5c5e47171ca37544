use vstd::prelude::*;

verus! {

/// Filtering a sequence extended by one element keeps the element exactly
/// when the predicate holds of it.
pub proof fn lemma_filter_push<A>(s: Seq<A>, x: A, p: spec_fn(A) -> bool)
    ensures
        p(x) ==> s.push(x).filter(p) == s.filter(p).push(x),
        !p(x) ==> s.push(x).filter(p) == s.filter(p),
{
    reveal(Seq::filter);
    assert(s.push(x).drop_last() =~= s);
    assert(s.push(x).last() == x);
}

/// Every element of a filtered sequence comes from the unfiltered one
/// and satisfies the predicate.
pub proof fn lemma_filter_elem_from<A>(s: Seq<A>, p: spec_fn(A) -> bool, j: int)
    requires
        0 <= j < s.filter(p).len(),
    ensures
        exists|i: int| 0 <= i < s.len() && s[i] == s.filter(p)[j] && p(#[trigger] s[i]),
    decreases s.len(),
{
    reveal(Seq::filter);
    if s.len() > 0 {
        if p(s.last()) && j == s.filter(p).len() - 1 {
            assert(s[s.len() - 1] == s.filter(p)[j]);
        } else {
            lemma_filter_elem_from(s.drop_last(), p, j);
            let i = choose|i: int|
                0 <= i < s.drop_last().len() && s.drop_last()[i] == s.drop_last().filter(p)[j] && p(
                    #[trigger] s.drop_last()[i],
                );
            assert(s[i] == s.drop_last()[i]);
        }
    }
}

/// A sequence of distinct integers drawn from `0 .. n` has at most `n`
/// elements.
pub proof fn lemma_distinct_bounded(s: Seq<int>, n: int)
    requires
        n >= 0,
        s.no_duplicates(),
        forall|j: int| 0 <= j < s.len() ==> 0 <= #[trigger] s[j] < n,
    ensures
        s.len() <= n,
{
    s.unique_seq_to_set();
    vstd::set_lib::lemma_int_range(0, n);
    assert(s.to_set().subset_of(vstd::set_lib::set_int_range(0, n))) by {
        assert forall|x: int| s.to_set().contains(x) implies vstd::set_lib::set_int_range(
            0,
            n,
        ).contains(x) by {
            assert(s.contains(x));
        }
    }
    vstd::set_lib::lemma_len_subset(s.to_set(), vstd::set_lib::set_int_range(0, n));
}

/// A sequence of `n` distinct integers drawn from `0 .. n` holds every one
/// of them.
pub proof fn lemma_distinct_complete(s: Seq<int>, n: int, v: int)
    requires
        s.no_duplicates(),
        forall|j: int| 0 <= j < s.len() ==> 0 <= #[trigger] s[j] < n,
        s.len() == n,
        0 <= v < n,
    ensures
        s.contains(v),
{
    if !s.contains(v) {
        s.unique_seq_to_set();
        vstd::set_lib::lemma_int_range(0, n);
        let range_without = vstd::set_lib::set_int_range(0, n).remove(v);
        assert(s.to_set().subset_of(range_without)) by {
            assert forall|x: int| s.to_set().contains(x) implies range_without.contains(x) by {
                assert(s.contains(x));
            }
        }
        assert(range_without.len() == n - 1) by {
            assert(vstd::set_lib::set_int_range(0, n).contains(v));
        }
        vstd::set_lib::lemma_len_subset(s.to_set(), range_without);
    }
}

} // verus!
