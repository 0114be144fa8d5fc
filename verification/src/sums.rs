//! The sum of the root as the sum of the leaves of the tree.

use crate::content::{
    entries, lemma_commit_empty, lemma_commit_root, lemma_sum_insert, lookup, root_commit,
};
use crate::key::{bit, lemma_key_by_bits, lemma_with_bit, same_from, same_until, with_bit, zero_key};
use crate::model::{lemma_empty_sum, LeafData, NodeView};
use vstd::prelude::*;
use vstd::set::fold::{is_fun_commutative, lemma_fold_empty, lemma_fold_insert};

verus! {

/// The step of the sum of the leaves of `m`: the sum so far and the sum of
/// the leaf under `key`.
pub open spec fn add_leaf(m: Map<Seq<u8>, LeafData>) -> spec_fn(nat, Seq<u8>) -> nat {
    |sum: nat, key: Seq<u8>| sum + lookup(m, key).sum as nat
}

/// The sum of the sums of all leaves of a map with finitely many entries.
pub open spec fn leaves_sum(m: Map<Seq<u8>, LeafData>) -> nat {
    m.dom().fold(0nat, add_leaf(m))
}

/// The keys of length 32 on the path of `key` down to height `h` under
/// which the subtree `n` holds an entry.
pub open spec fn keys_below(n: NodeView, h: nat, key: Seq<u8>) -> Set<Seq<u8>> {
    Set::new(|k: Seq<u8>| k.len() == 32 && same_until(k, key, h as int) && !n.leaf_at(h, k).is_empty())
}

proof fn lemma_add_leaf_commutes(m: Map<Seq<u8>, LeafData>)
    ensures
        is_fun_commutative(add_leaf(m)),
{
    let f = add_leaf(m);
    assert forall|a1: Seq<u8>, a2: Seq<u8>, b: nat| #[trigger] f(f(b, a2), a1) == f(f(b, a1), a2) by {}
}

/// A sum over a finite set reads the leaves of the keys of the set only.
proof fn lemma_sum_agree(s: Set<Seq<u8>>, a: Map<Seq<u8>, LeafData>, b: Map<Seq<u8>, LeafData>)
    requires
        s.finite(),
        forall|k: Seq<u8>| s.contains(k) ==> lookup(a, k) == lookup(b, k),
    ensures
        s.fold(0nat, add_leaf(a)) == s.fold(0nat, add_leaf(b)),
    decreases s.len(),
{
    broadcast use vstd::set::group_set_axioms;

    lemma_add_leaf_commutes(a);
    lemma_add_leaf_commutes(b);
    if s.len() == 0 {
        vstd::set_lib::lemma_set_empty_equivalency_len(s);
        lemma_fold_empty::<Seq<u8>, nat>(0nat, add_leaf(a));
        lemma_fold_empty::<Seq<u8>, nat>(0nat, add_leaf(b));
    } else {
        let k = s.choose();
        let rest = s.remove(k);
        lemma_sum_agree(rest, a, b);
        assert(rest.insert(k) =~= s);
        lemma_fold_insert(rest, 0nat, add_leaf(a), k);
        lemma_fold_insert(rest, 0nat, add_leaf(b), k);
    }
}

/// The sum of the root that a map of finitely many entries determines is
/// the sum of the sums of its leaves.
pub proof fn lemma_root_sum(m: Map<Seq<u8>, LeafData>)
    requires
        m.dom().finite(),
        forall|k: Seq<u8>| m.contains_key(k) ==> k.len() == 32,
    ensures
        root_commit(m).sum == leaves_sum(m),
    decreases m.dom().len(),
{
    broadcast use vstd::set::group_set_axioms;

    lemma_add_leaf_commutes(m);
    if m.dom().len() == 0 {
        vstd::set_lib::lemma_set_empty_equivalency_len(m.dom());
        lemma_fold_empty::<Seq<u8>, nat>(0nat, add_leaf(m));
        lemma_commit_empty(m, zero_key(), 0);
        lemma_empty_sum(0);
    } else {
        let k = m.dom().choose();
        let rest = m.remove(k);
        assert(rest.dom() =~= m.dom().remove(k));
        lemma_root_sum(rest);
        assert(rest.insert(k, m[k]) =~= m);
        lemma_sum_insert(rest, k, m[k], zero_key(), 0);
        assert(rest.dom().insert(k) =~= m.dom());
        lemma_fold_insert(rest.dom(), 0nat, add_leaf(m), k);
        lemma_sum_agree(rest.dom(), m, rest);
    }
}

/// Keys that agree before `h` with one key and from `h` on with another
/// are one key.
proof fn lemma_one_key(a: Seq<u8>, b: Seq<u8>, before: Seq<u8>, after: Seq<u8>, h: int)
    requires
        a.len() == 32,
        b.len() == 32,
        0 <= h <= 256,
        same_until(a, before, h),
        same_until(b, before, h),
        same_from(after, a, h),
        same_from(after, b, h),
    ensures
        a == b,
{
    assert forall|i: int| 0 <= i < 256 implies bit(a, i) == bit(b, i) by {
        if i < h {
            assert(bit(a, i) == bit(before, i));
            assert(bit(b, i) == bit(before, i));
        } else {
            assert(bit(after, i) == bit(a, i));
            assert(bit(after, i) == bit(b, i));
        }
    }
    lemma_key_by_bits(a, b);
}

/// A set of which any two elements are equal is finite.
proof fn lemma_at_most_one(s: Set<Seq<u8>>)
    requires
        forall|a: Seq<u8>, b: Seq<u8>| s.contains(a) && s.contains(b) ==> a == b,
    ensures
        s.finite(),
{
    broadcast use vstd::set::group_set_axioms;

    if exists|a: Seq<u8>| s.contains(a) {
        let a = choose|a: Seq<u8>| s.contains(a);
        assert(s =~= Set::<Seq<u8>>::empty().insert(a));
    } else {
        assert(s =~= Set::<Seq<u8>>::empty());
    }
}

/// A well-formed subtree holds finitely many entries.
pub proof fn lemma_keys_finite(n: NodeView, h: nat, key: Seq<u8>)
    requires
        n.wf(h),
        key.len() == 32,
    ensures
        keys_below(n, h, key).finite(),
    decreases n,
{
    broadcast use vstd::set::group_set_axioms;

    let s = keys_below(n, h, key);
    match n {
        NodeView::Leaf(_) => {
            assert forall|a: Seq<u8>, b: Seq<u8>| s.contains(a) && s.contains(b) implies a == b by {
                assert(same_from(key, a, 256));
                assert(same_from(key, b, 256));
                lemma_one_key(a, b, key, key, 256);
            }
            lemma_at_most_one(s);
        },
        NodeView::Computed(_) => {
            assert(s =~= Set::<Seq<u8>>::empty());
        },
        NodeView::Compacted(c) => {
            assert forall|a: Seq<u8>, b: Seq<u8>| s.contains(a) && s.contains(b) implies a == b by {
                lemma_one_key(a, b, key, c.key, h as int);
            }
            lemma_at_most_one(s);
        },
        NodeView::Branch(b) => match b.children {
            None => {
                assert(s =~= Set::<Seq<u8>>::empty());
            },
            Some((l, r)) => {
                let k0 = with_bit(key, h as int, false);
                let k1 = with_bit(key, h as int, true);
                lemma_with_bit(key, h as int, false, 0);
                lemma_with_bit(key, h as int, true, 0);
                lemma_keys_finite(*l, h + 1, k0);
                lemma_keys_finite(*r, h + 1, k1);
                let sl = keys_below(*l, h + 1, k0);
                let sr = keys_below(*r, h + 1, k1);
                assert forall|k: Seq<u8>| s.contains(k) implies sl.union(sr).contains(k) by {
                    assert forall|j: int| 0 <= j < h + 1 implies bit(k, j) == bit(
                        with_bit(key, h as int, bit(k, h as int)),
                        j,
                    ) by {
                        lemma_with_bit(key, h as int, bit(k, h as int), j);
                    }
                    if bit(k, h as int) {
                        assert(sr.contains(k));
                    } else {
                        assert(sl.contains(k));
                    }
                }
                vstd::set_lib::lemma_len_subset(s, sl.union(sr));
            },
        },
    }
}

/// The entries of a well-formed tree are finitely many, and the sum of its
/// root is the sum of the sums of its leaves.
pub proof fn lemma_tree_sum(n: NodeView)
    requires
        n.wf(0),
    ensures
        entries(n).dom().finite(),
        n.commitment().sum == leaves_sum(entries(n)),
{
    lemma_keys_finite(n, 0, zero_key());
    assert(entries(n).dom() =~= keys_below(n, 0, zero_key()));
    lemma_commit_root(n);
    lemma_root_sum(entries(n));
}

} // verus!
