//! Descending stable sorting: the order of every ranked metric table.

use vstd::prelude::*;
use vstd::multiset::Multiset;

verus! {

/// `x` inserted into `s` from the left: past every entry that ranks at
/// least `x`, before the first that does not.  Entries ranking equal to `x`
/// keep their head start, so the insertion is stable.
pub open spec fn insert_desc<T>(s: Seq<T>, x: T, ge: spec_fn(T, T) -> bool) -> Seq<T>
    decreases s.len(),
{
    if s.len() == 0 {
        seq![x]
    } else if ge(s[0], x) {
        seq![s[0]] + insert_desc(s.drop_first(), x, ge)
    } else {
        seq![x] + s
    }
}

/// The stable descending order of `s` under `ge`: the entries inserted one
/// by one, left to right.
pub open spec fn sort_desc<T>(s: Seq<T>, ge: spec_fn(T, T) -> bool) -> Seq<T>
    decreases s.len(),
{
    if s.len() == 0 {
        Seq::empty()
    } else {
        insert_desc(sort_desc(s.drop_last(), ge), s.last(), ge)
    }
}

/// Pairwise descending under `ge`.
pub open spec fn sorted_desc<T>(s: Seq<T>, ge: spec_fn(T, T) -> bool) -> bool {
    forall|i: int, j: int| #![trigger s[i], s[j]] 0 <= i <= j < s.len() ==> ge(s[i], s[j])
}

/// `ge` ranks any two values one way or the other.
pub open spec fn ge_total<T>(ge: spec_fn(T, T) -> bool) -> bool {
    forall|a: T, b: T| #[trigger] ge(a, b) || #[trigger] ge(b, a)
}

/// `ge` is transitive.
pub open spec fn ge_trans<T>(ge: spec_fn(T, T) -> bool) -> bool {
    forall|a: T, b: T, c: T| #[trigger] ge(a, b) && #[trigger] ge(b, c) ==> ge(a, c)
}

/// Where the insertion lands: if every entry before `p` ranks at least `x`
/// and the entry at `p` (if any) does not, the insertion splits `s` at `p`.
pub proof fn lemma_insert_desc_at<T>(s: Seq<T>, x: T, ge: spec_fn(T, T) -> bool, p: int)
    requires
        0 <= p <= s.len(),
        forall|k: int| 0 <= k < p ==> ge(#[trigger] s[k], x),
        p < s.len() ==> !ge(s[p], x),
    ensures
        insert_desc(s, x, ge) == s.subrange(0, p).push(x) + s.subrange(p, s.len() as int),
    decreases s.len(),
{
    if s.len() == 0 {
        assert(insert_desc(s, x, ge) =~= s.subrange(0, p).push(x) + s.subrange(
            p,
            s.len() as int,
        ));
    } else if ge(s[0], x) {
        assert(p >= 1);
        lemma_insert_desc_at(s.drop_first(), x, ge, p - 1);
        assert(insert_desc(s, x, ge) =~= s.subrange(0, p).push(x) + s.subrange(
            p,
            s.len() as int,
        ));
    } else {
        assert(p == 0);
        assert(insert_desc(s, x, ge) =~= s.subrange(0, 0).push(x) + s.subrange(
            0,
            s.len() as int,
        ));
    }
}

/// Inserting keeps a descending sequence descending, and adds exactly `x`
/// to its entries.
pub proof fn lemma_insert_desc_sorted<T>(s: Seq<T>, x: T, ge: spec_fn(T, T) -> bool)
    requires
        sorted_desc(s, ge),
        ge_total(ge),
        ge_trans(ge),
    ensures
        sorted_desc(insert_desc(s, x, ge), ge),
        insert_desc(s, x, ge).len() == s.len() + 1,
        forall|k: int|
            0 <= k < insert_desc(s, x, ge).len() ==> insert_desc(s, x, ge)[k] == x || s.contains(
                #[trigger] insert_desc(s, x, ge)[k],
            ),
    decreases s.len(),
{
    let r = insert_desc(s, x, ge);
    if s.len() == 0 {
    } else if ge(s[0], x) {
        lemma_insert_desc_sorted(s.drop_first(), x, ge);
        let rr = insert_desc(s.drop_first(), x, ge);
        assert forall|i: int, j: int|
            #![trigger r[i], r[j]]
            0 <= i <= j < r.len() implies ge(r[i], r[j]) by {
            if i == 0 {
                if j > 0 {
                    assert(r[j] == rr[j - 1]);
                    if rr[j - 1] == x {
                        assert(ge(s[0], x));
                    } else {
                        assert(s.drop_first().contains(rr[j - 1]));
                        let k = choose|k: int|
                            0 <= k < s.drop_first().len() && s.drop_first()[k] == rr[j - 1];
                        assert(s[k + 1] == rr[j - 1]);
                        assert(ge(s[0], s[k + 1]));
                    }
                }
            } else {
                assert(r[i] == rr[i - 1] && r[j] == rr[j - 1]);
            }
        }
        assert forall|k: int|
            0 <= k < r.len() implies r[k] == x || s.contains(#[trigger] r[k]) by {
            if k == 0 {
                assert(s[0] == r[0]);
            } else {
                assert(r[k] == rr[k - 1]);
                if rr[k - 1] != x {
                    assert(s.drop_first().contains(rr[k - 1]));
                    let q = choose|q: int|
                        0 <= q < s.drop_first().len() && s.drop_first()[q] == rr[k - 1];
                    assert(s[q + 1] == rr[k - 1]);
                }
            }
        }
    } else {
        assert(ge(x, s[0]));
        assert forall|i: int, j: int|
            #![trigger r[i], r[j]]
            0 <= i <= j < r.len() implies ge(r[i], r[j]) by {
            if i == 0 && j > 0 {
                assert(r[j] == s[j - 1]);
                assert(ge(s[0], s[j - 1]));
                assert(ge(x, s[j - 1]));
            } else if i > 0 {
                assert(r[i] == s[i - 1] && r[j] == s[j - 1]);
            }
        }
        assert forall|k: int|
            0 <= k < r.len() implies r[k] == x || s.contains(#[trigger] r[k]) by {
            if k > 0 {
                assert(r[k] == s[k - 1]);
            }
        }
    }
}

/// Law: the sorted table is pairwise descending under `ge`.
pub proof fn lemma_sort_desc_sorted<T>(s: Seq<T>, ge: spec_fn(T, T) -> bool)
    requires
        ge_total(ge),
        ge_trans(ge),
    ensures
        sorted_desc(sort_desc(s, ge), ge),
        sort_desc(s, ge).len() == s.len(),
    decreases s.len(),
{
    if s.len() > 0 {
        lemma_sort_desc_sorted(s.drop_last(), ge);
        lemma_insert_desc_sorted(sort_desc(s.drop_last(), ge), s.last(), ge);
    }
}

/// Inserting adds exactly one occurrence of `x` to the entries.
pub proof fn lemma_insert_desc_multiset<T>(s: Seq<T>, x: T, ge: spec_fn(T, T) -> bool)
    ensures
        insert_desc(s, x, ge).to_multiset() == s.to_multiset().insert(x),
    decreases s.len(),
{
    broadcast use vstd::seq_lib::group_seq_properties;
    broadcast use vstd::multiset::group_multiset_axioms;

    if s.len() == 0 {
        assert(insert_desc(s, x, ge) =~= Seq::empty().push(x));
        assert(Seq::<T>::empty().push(x).to_multiset() =~= s.to_multiset().insert(x));
    } else if ge(s[0], x) {
        lemma_insert_desc_multiset(s.drop_first(), x, ge);
        vstd::seq_lib::lemma_multiset_commutative(
            seq![s[0]],
            insert_desc(s.drop_first(), x, ge),
        );
        vstd::seq_lib::lemma_multiset_commutative(seq![s[0]], s.drop_first());
        assert(seq![s[0]] + s.drop_first() =~= s);
        assert(seq![s[0]].to_multiset() =~= Multiset::empty().insert(s[0]));
        assert(insert_desc(s, x, ge).to_multiset() =~= s.to_multiset().insert(x));
    } else {
        vstd::seq_lib::lemma_multiset_commutative(seq![x], s);
        assert(seq![x].to_multiset() =~= Multiset::empty().insert(x));
        assert(insert_desc(s, x, ge).to_multiset() =~= s.to_multiset().insert(x));
    }
}

/// Law: the sorted table is a permutation of its input — same entries, with
/// the same multiplicities.
pub proof fn lemma_sort_desc_multiset<T>(s: Seq<T>, ge: spec_fn(T, T) -> bool)
    ensures
        sort_desc(s, ge).to_multiset() == s.to_multiset(),
    decreases s.len(),
{
    broadcast use vstd::seq_lib::group_seq_properties;

    if s.len() > 0 {
        lemma_sort_desc_multiset(s.drop_last(), ge);
        lemma_insert_desc_multiset(sort_desc(s.drop_last(), ge), s.last(), ge);
        assert(s.drop_last().push(s.last()) =~= s);
        assert(s.drop_last().push(s.last()).to_multiset() == s.drop_last().to_multiset().insert(
            s.last(),
        ));
    }
}

} // verus!
