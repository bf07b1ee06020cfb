//! Sorting of indices by a textual key, used to alphabetize file lists and
//! to order selected files deterministically by relative path. The sorted
//! order is pinned by a canonical insertion sort over (key, index) pairs.

use vstd::prelude::*;
use crate::strutil::{seq_le, chars_le, lemma_seq_le_total, lemma_seq_le_trans};

verus! {

broadcast use vstd::seq_lib::group_to_multiset_ensures;

/// An index paired with the textual key that orders it.
pub struct Keyed {
    pub key: Vec<char>,
    pub idx: usize,
}

/// The mathematical value of one entry.
pub open spec fn keyed_view(k: Keyed) -> (Seq<char>, int) {
    (k.key@, k.idx as int)
}

/// The mathematical values of a run of entries.
pub open spec fn keyed_views(s: Seq<Keyed>) -> Seq<(Seq<char>, int)> {
    s.map_values(|k: Keyed| keyed_view(k))
}

/// `x` placed after every leading pair whose key is `seq_le` its key.
pub open spec fn insert_pair(x: (Seq<char>, int), s: Seq<(Seq<char>, int)>) -> Seq<
    (Seq<char>, int),
>
    decreases s.len(),
{
    if s.len() == 0 {
        seq![x]
    } else if seq_le(s[0].0, x.0) {
        seq![s[0]] + insert_pair(x, s.drop_first())
    } else {
        seq![x] + s
    }
}

/// Insertion sort by key, in `seq_le` order.
pub open spec fn sort_pairs(s: Seq<(Seq<char>, int)>) -> Seq<(Seq<char>, int)>
    decreases s.len(),
{
    if s.len() == 0 {
        Seq::empty()
    } else {
        insert_pair(s[0], sort_pairs(s.drop_first()))
    }
}

/// Keys appear in `seq_le` order.
pub open spec fn pairs_sorted(s: Seq<(Seq<char>, int)>) -> bool {
    forall|i: int, j: int| 0 <= i < j < s.len() ==> seq_le(s[i].0, s[j].0)
}

proof fn lemma_insert_pair_props(x: (Seq<char>, int), s: Seq<(Seq<char>, int)>)
    ensures
        insert_pair(x, s).len() == s.len() + 1,
        insert_pair(x, s).to_multiset() == s.to_multiset().insert(x),
        forall|i: int|
            0 <= i < insert_pair(x, s).len() ==> insert_pair(x, s)[i] == x || s.contains(
                insert_pair(x, s)[i],
            ),
        pairs_sorted(s) ==> pairs_sorted(insert_pair(x, s)),
    decreases s.len(),
{
    let r = insert_pair(x, s);
    if s.len() == 0 {
        assert(r =~= Seq::empty().push(x));
        assert(r.to_multiset() =~= s.to_multiset().insert(x));
    } else if seq_le(s[0].0, x.0) {
        let sdf = s.drop_first();
        lemma_insert_pair_props(x, sdf);
        let rest = insert_pair(x, sdf);
        assert(s =~= seq![s[0]] + sdf);
        vstd::seq_lib::lemma_multiset_commutative(seq![s[0]], sdf);
        vstd::seq_lib::lemma_multiset_commutative(seq![s[0]], rest);
        assert(seq![s[0]].to_multiset() =~= Seq::empty().push(s[0]).to_multiset());
        assert(r.to_multiset() =~= s.to_multiset().insert(x));
        assert forall|i: int| 0 <= i < r.len() implies r[i] == x || s.contains(r[i]) by {
            if i > 0 {
                assert(r[i] == rest[i - 1]);
                if rest[i - 1] != x {
                    assert(sdf.contains(rest[i - 1]));
                    let k = choose|k: int| 0 <= k < sdf.len() && sdf[k] == rest[i - 1];
                    assert(s[k + 1] == sdf[k]);
                }
            }
        }
        if pairs_sorted(s) {
            assert forall|i: int, j: int| 0 <= i < j < sdf.len() implies seq_le(
                sdf[i].0,
                sdf[j].0,
            ) by {
                assert(sdf[i] == s[i + 1]);
                assert(sdf[j] == s[j + 1]);
            }
            assert forall|i: int, j: int| 0 <= i < j < r.len() implies seq_le(r[i].0, r[j].0) by {
                if i == 0 {
                    let e = r[j];
                    assert(e == rest[j - 1]);
                    if e == x {
                        assert(seq_le(s[0].0, x.0));
                    } else {
                        assert(sdf.contains(e));
                        let k = choose|k: int| 0 <= k < sdf.len() && sdf[k] == e;
                        assert(s[k + 1] == e);
                        assert(seq_le(s[0].0, s[k + 1].0));
                    }
                } else {
                    assert(r[i] == rest[i - 1]);
                    assert(r[j] == rest[j - 1]);
                }
            }
        }
    } else {
        assert(r =~= seq![x] + s);
        vstd::seq_lib::lemma_multiset_commutative(seq![x], s);
        assert(seq![x].to_multiset() =~= Seq::empty().push(x).to_multiset());
        assert(r.to_multiset() =~= s.to_multiset().insert(x));
        if pairs_sorted(s) {
            lemma_seq_le_total(s[0].0, x.0);
            assert forall|i: int, j: int| 0 <= i < j < r.len() implies seq_le(r[i].0, r[j].0) by {
                if i == 0 {
                    assert(r[j] == s[j - 1]);
                    if j > 1 {
                        assert(seq_le(s[0].0, s[j - 1].0));
                    }
                    lemma_seq_le_trans(x.0, s[0].0, r[j].0);
                } else {
                    assert(r[i] == s[i - 1]);
                    assert(r[j] == s[j - 1]);
                }
            }
        }
    }
}

/// What the sort yields: the same pairs, as a multiset, with keys in
/// `seq_le` order.
pub proof fn lemma_sort_pairs_props(s: Seq<(Seq<char>, int)>)
    ensures
        sort_pairs(s).len() == s.len(),
        sort_pairs(s).to_multiset() == s.to_multiset(),
        pairs_sorted(sort_pairs(s)),
    decreases s.len(),
{
    if s.len() > 0 {
        let sdf = s.drop_first();
        lemma_sort_pairs_props(sdf);
        lemma_insert_pair_props(s[0], sort_pairs(sdf));
        assert(s =~= seq![s[0]] + sdf);
        vstd::seq_lib::lemma_multiset_commutative(seq![s[0]], sdf);
        assert(seq![s[0]].to_multiset() =~= Seq::empty().push(s[0]).to_multiset());
        assert(sort_pairs(s).to_multiset() =~= s.to_multiset());
    }
}

proof fn lemma_insert_pair_at(x: (Seq<char>, int), s: Seq<(Seq<char>, int)>, j: int)
    requires
        0 <= j <= s.len(),
        forall|k: int| 0 <= k < j ==> seq_le(s[k].0, x.0),
        j < s.len() ==> !seq_le(s[j].0, x.0),
    ensures
        insert_pair(x, s) == s.take(j) + seq![x] + s.skip(j),
    decreases j,
{
    if j == 0 {
        if s.len() == 0 {
            assert(insert_pair(x, s) =~= s.take(0) + seq![x] + s.skip(0));
        } else {
            assert(insert_pair(x, s) == seq![x] + s);
            assert(seq![x] + s =~= s.take(0) + seq![x] + s.skip(0));
        }
    } else {
        let sdf = s.drop_first();
        assert(seq_le(s[0].0, x.0));
        assert forall|k: int| 0 <= k < j - 1 implies seq_le(sdf[k].0, x.0) by {
            assert(sdf[k] == s[k + 1]);
        }
        if j - 1 < sdf.len() {
            assert(sdf[j - 1] == s[j]);
        }
        lemma_insert_pair_at(x, sdf, j - 1);
        assert(insert_pair(x, s) == seq![s[0]] + (sdf.take(j - 1) + seq![x] + sdf.skip(j - 1)));
        assert(seq![s[0]] + (sdf.take(j - 1) + seq![x] + sdf.skip(j - 1)) =~= s.take(j) + seq![x]
            + s.skip(j));
    }
}

fn insert_keyed_exec(x: Keyed, v: &mut Vec<Keyed>)
    ensures
        keyed_views(final(v)@) == insert_pair(keyed_view(x), keyed_views(old(v)@)),
{
    let ghost xv = keyed_view(x);
    let ghost ovs = keyed_views(old(v)@);
    let mut j: usize = 0;
    while j < v.len() && chars_le(&v[j].key, &x.key)
        invariant
            j <= v.len(),
            v@ == old(v)@,
            forall|k: int| 0 <= k < j ==> seq_le(v@[k].key@, x.key@),
        decreases v.len() - j,
    {
        j = j + 1;
    }
    proof {
        assert(ovs.len() == old(v)@.len());
        assert forall|k: int| 0 <= k < j implies seq_le(ovs[k].0, xv.0) by {
            assert(ovs[k] == keyed_view(old(v)@[k]));
        }
        if (j as int) < old(v)@.len() {
            assert(ovs[j as int] == keyed_view(old(v)@[j as int]));
        }
        lemma_insert_pair_at(xv, ovs, j as int);
    }
    v.insert(j, x);
    proof {
        assert(v@ =~= old(v)@.take(j as int) + seq![x] + old(v)@.skip(j as int));
        assert(keyed_views(v@) =~= ovs.take(j as int) + seq![xv] + ovs.skip(j as int));
    }
}

/// Sorts the entries by key; the views come out exactly as `sort_pairs`
/// orders them.
pub fn sort_keyed(v: Vec<Keyed>) -> (r: Vec<Keyed>)
    ensures
        keyed_views(r@) == sort_pairs(keyed_views(v@)),
{
    let ghost orig = keyed_views(v@);
    let mut rest = v;
    let mut acc: Vec<Keyed> = Vec::new();
    proof {
        assert(orig.skip(orig.len() as int) =~= Seq::<(Seq<char>, int)>::empty());
        assert(keyed_views(rest@) =~= orig.take(orig.len() as int));
        assert(keyed_views(acc@) =~= Seq::<(Seq<char>, int)>::empty());
    }
    while rest.len() > 0
        invariant
            rest@.len() <= orig.len(),
            keyed_views(rest@) == orig.take(rest@.len() as int),
            keyed_views(acc@) == sort_pairs(orig.skip(rest@.len() as int)),
        decreases rest.len(),
    {
        let ghost before = rest@;
        let x = rest.pop().unwrap();
        proof {
            let n = before.len() as int;
            assert(keyed_views(before) == orig.take(n));
            assert(keyed_views(before)[n - 1] == keyed_view(before[n - 1]));
            assert(x == before[n - 1]);
            assert(orig.take(n)[n - 1] == orig[n - 1]);
            assert(keyed_views(rest@) =~= orig.take(n - 1));
            assert(orig.skip(n - 1)[0] == orig[n - 1]);
            assert(orig.skip(n - 1).drop_first() =~= orig.skip(n));
        }
        insert_keyed_exec(x, &mut acc);
    }
    proof {
        assert(orig.skip(0) =~= orig);
        assert(keyed_views(rest@) =~= Seq::<(Seq<char>, int)>::empty());
    }
    acc
}

} // verus!
