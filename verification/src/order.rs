use vstd::prelude::*;
use vstd::multiset::Multiset;
use vstd::relations::sorted_by;
use vstd::string::StrSliceExecFns;

verus! {

broadcast use vstd::multiset::group_multiset_axioms;

/// Strict lexicographic order on character sequences, by code point.
/// This is the order in which the files of a directory are fed to the
/// digest, and it is what makes directory hashing deterministic.
pub open spec fn lex_lt(a: Seq<char>, b: Seq<char>) -> bool
    decreases a.len(),
{
    if b.len() == 0 {
        false
    } else if a.len() == 0 {
        true
    } else if a[0] < b[0] {
        true
    } else if a[0] == b[0] {
        lex_lt(a.drop_first(), b.drop_first())
    } else {
        false
    }
}

/// Reflexive closure of [`lex_lt`].
pub open spec fn lex_le(a: Seq<char>, b: Seq<char>) -> bool {
    lex_lt(a, b) || a == b
}

/// [`lex_le`] as a relation value, for use with [`sorted_by`].
pub open spec fn lex_le_fn() -> spec_fn(Seq<char>, Seq<char>) -> bool {
    |x: Seq<char>, y: Seq<char>| lex_le(x, y)
}

/// `lex_lt` never holds both ways.
pub proof fn lemma_lex_lt_asymmetric(a: Seq<char>, b: Seq<char>)
    ensures
        !(lex_lt(a, b) && lex_lt(b, a)),
    decreases a.len(),
{
    if b.len() == 0 || a.len() == 0 {
    } else if a[0] == b[0] {
        lemma_lex_lt_asymmetric(a.drop_first(), b.drop_first());
    }
}

/// `lex_lt` is irreflexive.
pub proof fn lemma_lex_lt_irreflexive(a: Seq<char>)
    ensures
        !lex_lt(a, a),
    decreases a.len(),
{
    if a.len() > 0 {
        lemma_lex_lt_irreflexive(a.drop_first());
    }
}

/// Any two distinct sequences are ordered one way or the other.
pub proof fn lemma_lex_lt_connected(a: Seq<char>, b: Seq<char>)
    requires
        a != b,
    ensures
        lex_lt(a, b) || lex_lt(b, a),
    decreases a.len(),
{
    if b.len() == 0 {
        if a.len() == 0 {
            assert(a =~= b);
        }
        assert(lex_lt(b, a));
    } else if a.len() == 0 {
    } else if a[0] == b[0] {
        if a.drop_first() == b.drop_first() {
            assert(a.drop_first().len() == a.len() - 1);
            assert(b.drop_first().len() == b.len() - 1);
            assert(a.len() == b.len());
            assert forall|i: int| 0 <= i < a.len() implies a[i] == b[i] by {
                if i > 0 {
                    assert(a.drop_first()[i - 1] == a[i]);
                    assert(b.drop_first()[i - 1] == b[i]);
                }
            }
            assert(a =~= b);
        } else {
            lemma_lex_lt_connected(a.drop_first(), b.drop_first());
        }
    } else {
        // the heads differ, so the smaller head decides
        if a[0] < b[0] {
            assert(lex_lt(a, b));
        } else {
            assert(b[0] < a[0]) by {
                if !(b[0] < a[0]) {
                    assert(a[0] == b[0]);
                }
            }
            assert(lex_lt(b, a));
        }
    }
}

/// `lex_lt` is transitive.
pub proof fn lemma_lex_lt_transitive(a: Seq<char>, b: Seq<char>, c: Seq<char>)
    requires
        lex_lt(a, b),
        lex_lt(b, c),
    ensures
        lex_lt(a, c),
    decreases a.len(),
{
    if a.len() == 0 {
        assert(b.len() > 0);
        assert(c.len() > 0);
    } else {
        assert(b.len() > 0);
        assert(c.len() > 0);
        if a[0] == b[0] && b[0] == c[0] {
            lemma_lex_lt_transitive(a.drop_first(), b.drop_first(), c.drop_first());
        }
    }
}

/// `lex_le` is transitive.
pub proof fn lemma_lex_le_transitive(a: Seq<char>, b: Seq<char>, c: Seq<char>)
    requires
        lex_le(a, b),
        lex_le(b, c),
    ensures
        lex_le(a, c),
{
    if a != b && b != c {
        lemma_lex_lt_transitive(a, b, c);
    }
}

/// `lex_le` is a total order, which is what makes sorting by it
/// canonical.
pub proof fn lemma_lex_le_total_ordering()
    ensures
        vstd::relations::total_ordering(lex_le_fn()),
{
    let le = lex_le_fn();
    assert(vstd::relations::reflexive(le)) by {
        assert forall|x: Seq<char>| #[trigger] le(x, x) by {}
    }
    assert(vstd::relations::transitive(le)) by {
        assert forall|x: Seq<char>, y: Seq<char>, z: Seq<char>|
            #[trigger] le(x, y) && #[trigger] le(y, z) implies le(x, z) by {
            lemma_lex_le_transitive(x, y, z);
        }
    }
    assert(vstd::relations::antisymmetric(le)) by {
        assert forall|x: Seq<char>, y: Seq<char>|
            #[trigger] le(x, y) && #[trigger] le(y, x) implies x == y by {
            lemma_lex_lt_asymmetric(x, y);
        }
    }
    assert(vstd::relations::strongly_connected(le)) by {
        assert forall|x: Seq<char>, y: Seq<char>| true implies #[trigger] le(x, y) || #[trigger] le(
            y,
            x,
        ) by {
            if x != y {
                lemma_lex_lt_connected(x, y);
            }
        }
    }
}

/// Compares two strings in the lexicographic code-point order.
pub fn str_lex_le(a: &str, b: &str) -> (r: bool)
    ensures
        r == lex_le(a@, b@),
{
    let a_len = a.unicode_len();
    let b_len = b.unicode_len();
    let mut i: usize = 0;
    proof {
        assert(a@.skip(0) =~= a@);
        assert(b@.skip(0) =~= b@);
        assert(a@.take(0) =~= b@.take(0));
    }
    loop
        invariant
            0 <= i <= a_len,
            0 <= i <= b_len,
            a_len == a@.len(),
            b_len == b@.len(),
            a@.take(i as int) == b@.take(i as int),
            lex_lt(a@, b@) == lex_lt(a@.skip(i as int), b@.skip(i as int)),
            lex_lt(b@, a@) == lex_lt(b@.skip(i as int), a@.skip(i as int)),
        decreases a_len - i,
    {
        if i == a_len {
            proof {
                if a@.len() == b@.len() {
                    assert(a@ =~= a@.take(i as int));
                    assert(b@ =~= b@.take(i as int));
                } else {
                    assert(b@.skip(i as int).len() > 0);
                    assert(lex_lt(a@, b@));
                    assert(a@ != b@) by {
                        lemma_lex_lt_irreflexive(a@);
                    }
                }
            }
            return true;
        }
        if i == b_len {
            proof {
                assert(a@.skip(i as int).len() > 0);
                assert(lex_lt(b@, a@));
                lemma_lex_lt_asymmetric(a@, b@);
                assert(a@ != b@) by {
                    lemma_lex_lt_irreflexive(a@);
                }
            }
            return false;
        }
        let ca = a.get_char(i);
        let cb = b.get_char(i);
        proof {
            assert(a@.skip(i as int)[0] == a@[i as int]);
            assert(b@.skip(i as int)[0] == b@[i as int]);
        }
        if ca < cb {
            proof {
                assert(lex_lt(a@.skip(i as int), b@.skip(i as int)));
                assert(a@ != b@) by {
                    lemma_lex_lt_irreflexive(a@);
                }
            }
            return true;
        }
        if ca != cb {
            proof {
                assert(!lex_lt(a@.skip(i as int), b@.skip(i as int)));
                assert(a@[i as int] != b@[i as int]);
                assert(a@ != b@);
            }
            return false;
        }
        proof {
            assert(a@.skip(i as int).drop_first() =~= a@.skip(i as int + 1));
            assert(b@.skip(i as int).drop_first() =~= b@.skip(i as int + 1));
            assert(a@.take(i as int + 1) =~= b@.take(i as int + 1));
        }
        i = i + 1;
    }
}

/// Equality test on string slices, stated over their character sequences.
pub fn str_eq(a: &str, b: &str) -> (r: bool)
    ensures
        r == (a@ == b@),
{
    let a_len = a.unicode_len();
    let b_len = b.unicode_len();
    if a_len != b_len {
        return false;
    }
    let mut i: usize = 0;
    while i < a_len
        invariant
            0 <= i <= a_len,
            a_len == a@.len(),
            a_len == b@.len(),
            a@.take(i as int) == b@.take(i as int),
        decreases a_len - i,
    {
        if a.get_char(i) != b.get_char(i) {
            proof {
                assert(a@[i as int] != b@[i as int]);
            }
            return false;
        }
        proof {
            assert(a@.take(i as int + 1) =~= b@.take(i as int + 1));
        }
        i = i + 1;
    }
    proof {
        assert(a@ =~= a@.take(i as int));
        assert(b@ =~= b@.take(i as int));
    }
    true
}

/// Sorts strings into the lexicographic code-point order.
/// The result is a permutation of the input; together with
/// [`lemma_sorted_unique`] this makes the sorted order canonical: any two
/// inputs holding the same multiset of strings sort to the same sequence.
pub fn sort_strings(v: Vec<String>) -> (r: Vec<String>)
    ensures
        sorted_by(r.deep_view(), lex_le_fn()),
        r.deep_view().to_multiset() == v.deep_view().to_multiset(),
{
    let mut out: Vec<String> = Vec::new();
    let mut rest = v;
    proof {
        assert(out.deep_view() =~= Seq::<Seq<char>>::empty());
        vstd::seq_lib::lemma_multiset_commutative(out.deep_view(), rest.deep_view());
        assert(out.deep_view() + rest.deep_view() =~= rest.deep_view());
    }
    let ghost all = rest.deep_view();
    while rest.len() > 0
        invariant
            sorted_by(out.deep_view(), lex_le_fn()),
            (out.deep_view() + rest.deep_view()).to_multiset() == all.to_multiset(),
        decreases rest.len(),
    {
        let ghost pre_out = out.deep_view();
        let ghost pre_rest = rest.deep_view();
        let x = rest.remove(0);
        // find the insertion point in `out`
        let mut j: usize = 0;
        while j < out.len() && str_lex_le(out[j].as_str(), x.as_str())
            invariant
                0 <= j <= out.len(),
                out.deep_view() == pre_out,
                forall|k: int| 0 <= k < j ==> lex_le(#[trigger] out.deep_view()[k], x@),
            decreases out.len() - j,
        {
            j = j + 1;
        }
        proof {
            // everything at or after the insertion point is >= x
            if j < out.len() {
                if out.deep_view()[j as int] != x@ {
                    lemma_lex_lt_connected(out.deep_view()[j as int], x@);
                }
                assert(lex_le(x@, out.deep_view()[j as int]));
            }
        }
        let ghost mid_out = out.deep_view();
        out.insert(j, x);
        proof {
            let le = lex_le_fn();
            let new_out = out.deep_view();
            let xj = j as int;
            assert(new_out =~= mid_out.take(xj).push(x@) + mid_out.skip(xj));
            // x is below everything at or after the insertion point
            assert forall|k: int| xj <= k < mid_out.len() implies lex_le(x@, #[trigger] mid_out[k]) by {
                if k > xj {
                    assert(le(mid_out[xj], mid_out[k]));
                    lemma_lex_le_transitive(x@, mid_out[xj], mid_out[k]);
                }
            }
            assert forall|p: int, q: int| 0 <= p < q < new_out.len() implies #[trigger] le(
                new_out[p],
                new_out[q],
            ) by {
                if p < xj && q > xj {
                    assert(le(mid_out[p], mid_out[q - 1]));
                } else if q == xj {
                    assert(le(mid_out[p], x@));
                } else if p == xj {
                    assert(lex_le(x@, mid_out[q - 1]));
                } else if p > xj {
                    assert(le(mid_out[p - 1], mid_out[q - 1]));
                } else {
                    assert(le(mid_out[p], mid_out[q]));
                }
            }
            assert(sorted_by(new_out, le));
            // multiset bookkeeping: moving x from rest into out
            assert(pre_rest =~= seq![x@] + rest.deep_view());
            assert(new_out =~= mid_out.take(xj) + (seq![x@] + mid_out.skip(xj)));
            vstd::seq_lib::lemma_multiset_commutative(pre_out, pre_rest);
            vstd::seq_lib::lemma_multiset_commutative(new_out, rest.deep_view());
            vstd::seq_lib::lemma_multiset_commutative(
                mid_out.take(xj),
                seq![x@] + mid_out.skip(xj),
            );
            vstd::seq_lib::lemma_multiset_commutative(seq![x@], mid_out.skip(xj));
            vstd::seq_lib::lemma_multiset_commutative(seq![x@], rest.deep_view());
            vstd::seq_lib::lemma_multiset_commutative(mid_out.take(xj), mid_out.skip(xj));
            assert(mid_out.take(xj) + mid_out.skip(xj) =~= mid_out);
            assert((new_out + rest.deep_view()).to_multiset() =~= (pre_out
                + pre_rest).to_multiset());
        }
    }
    proof {
        assert(out.deep_view() + rest.deep_view() =~= out.deep_view());
    }
    out
}

/// Two sequences sorted by `lex_le` that hold the same multiset of strings
/// are the same sequence: the sorted order is canonical.
pub proof fn lemma_sorted_unique(s1: Seq<Seq<char>>, s2: Seq<Seq<char>>)
    requires
        sorted_by(s1, lex_le_fn()),
        sorted_by(s2, lex_le_fn()),
        s1.to_multiset() == s2.to_multiset(),
    ensures
        s1 == s2,
    decreases s1.len(),
{
    broadcast use vstd::seq_lib::group_to_multiset_ensures;

    let le = lex_le_fn();
    if s1.len() == 0 {
        assert(s2.to_multiset().len() == 0);
        assert(s1 =~= s2);
    } else {
        assert(s1.to_multiset().contains(s1[0]));
        assert(s2.to_multiset().contains(s1[0]));
        assert(s2.contains(s1[0]));
        assert(s2.len() > 0);
        assert(s2.to_multiset().contains(s2[0]));
        assert(s1.to_multiset().contains(s2[0]));
        assert(s1.contains(s2[0]));
        // each head is <= the other, so the heads are equal
        let i1 = choose|i: int| 0 <= i < s2.len() && s2[i] == s1[0];
        let i2 = choose|i: int| 0 <= i < s1.len() && s1[i] == s2[0];
        if i1 > 0 {
            assert(le(s2[0], s2[i1]));
        }
        if i2 > 0 {
            assert(le(s1[0], s1[i2]));
        }
        if s1[0] != s2[0] {
            assert(lex_le(s2[0], s1[0]));
            assert(lex_le(s1[0], s2[0]));
            lemma_lex_lt_asymmetric(s1[0], s2[0]);
            assert(false);
        }
        let t1 = s1.drop_first();
        let t2 = s2.drop_first();
        assert(s1 =~= seq![s1[0]] + t1);
        assert(s2 =~= seq![s2[0]] + t2);
        vstd::seq_lib::lemma_multiset_commutative(seq![s1[0]], t1);
        vstd::seq_lib::lemma_multiset_commutative(seq![s2[0]], t2);
        assert(t1.to_multiset() =~= t2.to_multiset()) by {
            assert forall|x: Seq<char>| true implies t1.to_multiset().count(x)
                == t2.to_multiset().count(x) by {
                assert(s1.to_multiset().count(x) == seq![s1[0]].to_multiset().count(x)
                    + t1.to_multiset().count(x));
                assert(s2.to_multiset().count(x) == seq![s2[0]].to_multiset().count(x)
                    + t2.to_multiset().count(x));
            }
        }
        assert(sorted_by(t1, le)) by {
            assert forall|p: int, q: int| 0 <= p < q < t1.len() implies #[trigger] le(
                t1[p],
                t1[q],
            ) by {
                assert(le(s1[p + 1], s1[q + 1]));
            }
        }
        assert(sorted_by(t2, le)) by {
            assert forall|p: int, q: int| 0 <= p < q < t2.len() implies #[trigger] le(
                t2[p],
                t2[q],
            ) by {
                assert(le(s2[p + 1], s2[q + 1]));
            }
        }
        lemma_sorted_unique(t1, t2);
        assert(s1 =~= s2);
    }
}

} // verus!
