//! Global laws of the urn, stated and proved over the same spec-level
//! models that the operations' contracts use.

use crate::types::{Tree, Urn, Weight};
use crate::urn::{
    lemma_insert_tree_balanced, lemma_insert_tree_wf, lemma_insert_uninsert, size_balanced,
    spec_insert_tree, spec_naive_tree, spec_uninsert_tree, wsum,
};
use vstd::prelude::*;

verus! {

/// Insert/uninsert inverse law: for every well-formed balanced urn `u`,
/// weight `w` and value `a`, removing along the path that `uninsert` uses
/// right after `insert` has added `(w, a)` returns exactly `(w, a)` and
/// restores the original tree, so `uninsert(insert(u, w, a))` yields
/// `((w, a), _, Some(u'))` with `u'` observably equal to `u`.
pub proof fn lemma_urn_insert_uninsert<T>(u: Urn<T>, w: Weight, a: T)
    requires
        u.wf(),
        u.balanced(),
        u.size < u32::MAX,
    ensures
        ({
            let inserted = Urn {
                size: (u.size + 1) as u32,
                tree: spec_insert_tree(u.tree, w, a, u.size),
            };
            let back = spec_uninsert_tree(inserted.tree, (inserted.size - 1) as u32);
            &&& back.0 == (w, a)
            &&& back.2 == Some(u.tree)
        }),
{
    lemma_insert_uninsert(u.tree, w, a, u.size);
}

/// Bulk-vs-naive equivalence: on every non-empty input, the tree that the
/// naive fold of single insertions produces is well formed and balanced,
/// holds one leaf per input pair, and its total weight is the wrapped sum
/// of the input weights — exactly the size and weight that the linear-time
/// balanced constructor guarantees, so the two constructors agree on both,
/// though their tree shapes may differ.
pub proof fn lemma_from_list_agrees<T>(elems: Seq<(Weight, T)>)
    requires
        1 <= elems.len() <= u32::MAX,
    ensures
        spec_naive_tree(elems).wf(),
        size_balanced(spec_naive_tree(elems), elems.len() as int),
        spec_naive_tree(elems).leaf_count() == elems.len(),
        spec_naive_tree(elems).spec_weight() == wsum(elems),
    decreases elems.len(),
{
    if elems.len() == 1 {
        let t = spec_naive_tree(elems);
        assert(t == Tree::Leaf(elems[0].0, elems[0].1));
        assert(t.wf());
        assert(t.leaf_count() == 1);
        assert(size_balanced(t, 1));
        assert(elems.drop_last() =~= Seq::<(Weight, T)>::empty());
        assert(wsum(Seq::<(Weight, T)>::empty()) == 0);
        assert(wsum(elems) == (0u32).wrapping_add(elems.last().0));
    } else {
        let prefix = elems.drop_last();
        lemma_from_list_agrees(prefix);
        lemma_insert_tree_wf(
            spec_naive_tree(prefix),
            elems.last().0,
            elems.last().1,
            (elems.len() - 1) as u32,
        );
        lemma_insert_tree_balanced(
            spec_naive_tree(prefix),
            elems.last().0,
            elems.last().1,
            (elems.len() - 1) as u32,
        );
    }
}

/// The exact (unwrapped) sum of the weights in a sequence of
/// (weight, value) pairs.
pub open spec fn sum_weights<T>(s: Seq<(Weight, T)>) -> int
    decreases s.len(),
{
    if s.len() == 0 {
        0
    } else {
        s[0].0 + sum_weights(s.drop_first())
    }
}

/// The position of the leaf whose cumulative-weight bucket contains `i`:
/// buckets are laid out left to right, each as wide as its leaf's weight.
pub open spec fn bucket_of<T>(s: Seq<(Weight, T)>, i: int) -> int
    decreases s.len(),
{
    if s.len() <= 1 {
        0
    } else if i < s[0].0 {
        0
    } else {
        1 + bucket_of(s.drop_first(), i - s[0].0)
    }
}

/// Weight sums are non-negative.
pub proof fn lemma_sum_weights_nonneg<T>(s: Seq<(Weight, T)>)
    ensures
        sum_weights(s) >= 0,
    decreases s.len(),
{
    if s.len() > 0 {
        lemma_sum_weights_nonneg(s.drop_first());
    }
}

/// The weight sum of a concatenation is the sum of the parts' sums.
pub proof fn lemma_sum_weights_concat<T>(a: Seq<(Weight, T)>, b: Seq<(Weight, T)>)
    ensures
        sum_weights(a + b) == sum_weights(a) + sum_weights(b),
    decreases a.len(),
{
    if a.len() == 0 {
        assert(a + b =~= b);
    } else {
        assert((a + b).drop_first() =~= a.drop_first() + b);
        lemma_sum_weights_concat(a.drop_first(), b);
    }
}

/// When the true weight sum fits the weight type, no wrapping occurs and
/// the cached root weight of a well-formed tree is that exact sum.
pub proof fn lemma_wf_weight_exact<T>(t: Tree<T>)
    requires
        t.wf(),
        sum_weights(t.leaves()) <= u32::MAX,
    ensures
        t.spec_weight() == sum_weights(t.leaves()),
    decreases t,
{
    match t {
        Tree::Leaf(w, a) => {
            assert(t.leaves() == seq![(w, a)]);
            assert(t.leaves().drop_first() =~= Seq::<(Weight, T)>::empty());
            assert(sum_weights(Seq::<(Weight, T)>::empty()) == 0);
        },
        Tree::Node(_, l, r) => {
            lemma_sum_weights_concat(l.leaves(), r.leaves());
            lemma_sum_weights_nonneg(l.leaves());
            lemma_sum_weights_nonneg(r.leaves());
            lemma_wf_weight_exact(*l);
            lemma_wf_weight_exact(*r);
        },
    }
}

/// Locating a bucket in a concatenation: an index below the left part's
/// total stays in the left part, any other lands in the right part,
/// shifted down by the left total.
proof fn lemma_bucket_concat<T>(a: Seq<(Weight, T)>, b: Seq<(Weight, T)>, i: int)
    requires
        a.len() >= 1,
        b.len() >= 1,
    ensures
        i < sum_weights(a) ==> bucket_of(a + b, i) == bucket_of(a, i),
        i >= sum_weights(a) ==> bucket_of(a + b, i) == a.len() + bucket_of(b, i - sum_weights(a)),
    decreases a.len(),
{
    if a.len() == 1 {
        assert((a + b).drop_first() =~= b);
        assert(sum_weights(a.drop_first()) == 0);
        assert(sum_weights(a) == a[0].0);
    } else {
        assert((a + b).drop_first() =~= a.drop_first() + b);
        lemma_sum_weights_nonneg(a.drop_first());
        lemma_bucket_concat(a.drop_first(), b, i - a[0].0);
    }
}

/// Index semantics of sampling: in a well-formed tree whose total weight
/// does not wrap, the cumulative-weight descent for an in-range index `i`
/// lands exactly on the leaf whose bucket contains `i` — the `j`-th leaf,
/// where the widths of the buckets are the leaf weights in order.
pub proof fn lemma_sample_index_bucket<T>(t: Tree<T>, i: int)
    requires
        t.wf(),
        sum_weights(t.leaves()) <= u32::MAX,
        0 <= i < sum_weights(t.leaves()),
    ensures
        0 <= bucket_of(t.leaves(), i) < t.leaves().len(),
        t.spec_get(i) == t.leaves()[bucket_of(t.leaves(), i)],
    decreases t,
{
    match t {
        Tree::Leaf(w, a) => {
            assert(t.leaves() == seq![(w, a)]);
        },
        Tree::Node(_, l, r) => {
            let ll = l.leaves();
            let rl = r.leaves();
            l.lemma_leaves_len();
            r.lemma_leaves_len();
            crate::urn::lemma_leaf_count_pos(*l);
            crate::urn::lemma_leaf_count_pos(*r);
            lemma_sum_weights_concat(ll, rl);
            lemma_sum_weights_nonneg(ll);
            lemma_sum_weights_nonneg(rl);
            lemma_wf_weight_exact(*l);
            lemma_wf_weight_exact(*r);
            lemma_bucket_concat(ll, rl, i);
            if i < l.spec_weight() {
                lemma_sample_index_bucket(*l, i);
            } else {
                lemma_sample_index_bucket(*r, i - l.spec_weight());
            }
        },
    }
}

/// A bucket position is always a valid leaf position.
pub proof fn lemma_bucket_of_bounds<T>(s: Seq<(Weight, T)>, i: int)
    requires
        s.len() >= 1,
    ensures
        0 <= bucket_of(s, i) < s.len(),
    decreases s.len(),
{
    if s.len() > 1 && i >= s[0].0 {
        lemma_bucket_of_bounds(s.drop_first(), i - s[0].0);
    }
}

/// When the exact weight sum fits the weight type, the wrapped sum equals
/// it.
pub proof fn lemma_wsum_is_sum_weights<T>(s: Seq<(Weight, T)>)
    requires
        sum_weights(s) <= u32::MAX,
    ensures
        wsum(s) == sum_weights(s),
    decreases s.len(),
{
    if s.len() > 0 {
        assert(s =~= s.drop_last() + seq![s.last()]);
        lemma_sum_weights_concat(s.drop_last(), seq![s.last()]);
        assert(seq![s.last()].drop_first() =~= Seq::<(Weight, T)>::empty());
        assert(sum_weights(Seq::<(Weight, T)>::empty()) == 0);
        assert(sum_weights(seq![s.last()]) == s.last().0);
        lemma_sum_weights_nonneg(s.drop_last());
        lemma_wsum_is_sum_weights(s.drop_last());
    }
}

/// Index semantics of replacement: in a well-formed tree whose total weight
/// does not wrap, replacing at an in-range index `i` rewrites exactly the
/// leaf whose bucket contains `i` and leaves every other leaf in place.
pub proof fn lemma_replace_leaves<T>(t: Tree<T>, w: Weight, a: T, i: int)
    requires
        t.wf(),
        sum_weights(t.leaves()) <= u32::MAX,
        0 <= i < sum_weights(t.leaves()),
    ensures
        t.spec_replace(w, a, i).leaves() == t.leaves().update(bucket_of(t.leaves(), i), (w, a)),
    decreases t,
{
    lemma_sample_index_bucket(t, i);
    match t {
        Tree::Leaf(w0, a0) => {
            assert(t.leaves() == seq![(w0, a0)]);
            assert(Tree::<T>::Leaf(w, a).leaves() == seq![(w, a)]);
            assert(seq![(w0, a0)].update(0, (w, a)) =~= seq![(w, a)]);
        },
        Tree::Node(_, l, r) => {
            let ll = l.leaves();
            let rl = r.leaves();
            l.lemma_leaves_len();
            r.lemma_leaves_len();
            crate::urn::lemma_leaf_count_pos(*l);
            crate::urn::lemma_leaf_count_pos(*r);
            lemma_sum_weights_concat(ll, rl);
            lemma_sum_weights_nonneg(ll);
            lemma_sum_weights_nonneg(rl);
            lemma_wf_weight_exact(*l);
            lemma_wf_weight_exact(*r);
            lemma_bucket_concat(ll, rl, i);
            let b = bucket_of(t.leaves(), i);
            if i < l.spec_weight() {
                lemma_replace_leaves(*l, w, a, i);
                lemma_bucket_of_bounds(ll, i);
                assert((ll + rl).update(b, (w, a)) =~= ll.update(b, (w, a)) + rl);
            } else {
                lemma_replace_leaves(*r, w, a, i - l.spec_weight());
                let br = bucket_of(rl, i - l.spec_weight());
                lemma_bucket_of_bounds(rl, i - l.spec_weight());
                assert((ll + rl).update(b, (w, a)) =~= ll + rl.update(br, (w, a)));
            }
        },
    }
}

/// The position (among the leaves, left to right) of the leaf that removal
/// along `path` takes out.
pub open spec fn removed_pos<T>(t: Tree<T>, path: u32) -> nat
    decreases t,
{
    match t {
        Tree::Leaf(_, _) => 0,
        Tree::Node(_, l, r) => {
            if path % 2 == 1 {
                l.leaf_count() + removed_pos(*r, path / 2)
            } else {
                removed_pos(*l, path / 2)
            }
        },
    }
}

/// Wrapped addition is commutative.
pub proof fn lemma_wadd_comm(x: u32, y: u32)
    ensures
        x.wrapping_add(y) == y.wrapping_add(x),
{
}

/// What removal returns, read off the leaf sequence: the removed pair is
/// the leaf at position `j = removed_pos`, the reported lower bound is the
/// wrapped sum of the weights strictly to its left, and the remaining tree
/// carries the same leaves with position `j` taken out.
pub proof fn lemma_uninsert_leaves<T>(t: Tree<T>, path: u32)
    requires
        t.wf(),
    ensures
        ({
            let j = removed_pos(t, path) as int;
            let res = spec_uninsert_tree(t, path);
            &&& 0 <= j < t.leaves().len()
            &&& res.0 == t.leaves()[j]
            &&& res.1 == wsum(t.leaves().take(j))
            &&& (res.2 matches Some(t2) ==> t2.leaves() == t.leaves().take(j)
                + t.leaves().skip(j + 1))
        }),
    decreases t,
{
    let j = removed_pos(t, path) as int;
    let res = spec_uninsert_tree(t, path);
    match t {
        Tree::Leaf(w, a) => {
            assert(t.leaves() == seq![(w, a)]);
            assert(t.leaves().take(0) =~= Seq::<(Weight, T)>::empty());
            assert(wsum(Seq::<(Weight, T)>::empty()) == 0);
        },
        Tree::Node(_, l, r) => {
            let ll = l.leaves();
            let rl = r.leaves();
            l.lemma_leaves_len();
            r.lemma_leaves_len();
            if path % 2 == 1 {
                lemma_uninsert_leaves(*r, path / 2);
                crate::urn::lemma_uninsert_tree_wf(*r, path / 2);
                let jr = removed_pos(*r, path / 2) as int;
                assert(t.leaves()[j] == rl[jr]);
                // the lower bound: everything in the left subtree counts
                crate::urn::lemma_wf_weight_is_leaf_sum(*l);
                crate::urn::lemma_wsum_concat(ll, rl.take(jr));
                assert(t.leaves().take(j) =~= ll + rl.take(jr));
                lemma_wadd_comm(wsum(rl.take(jr)), wsum(ll));
                match spec_uninsert_tree(*r, path / 2).2 {
                    Some(r2) => {
                        assert(res.2.unwrap().leaves() =~= t.leaves().take(j) + t.leaves().skip(
                            j + 1,
                        )) by {
                            assert(r2.leaves() == rl.take(jr) + rl.skip(jr + 1));
                        }
                    },
                    None => {
                        // the right child was a single leaf; the node
                        // collapses into the left subtree
                        assert(rl.len() == 1 && jr == 0);
                        assert(res.2.unwrap().leaves() =~= t.leaves().take(j) + t.leaves().skip(
                            j + 1,
                        ));
                    },
                }
            } else {
                lemma_uninsert_leaves(*l, path / 2);
                crate::urn::lemma_uninsert_tree_wf(*l, path / 2);
                let jl = removed_pos(*l, path / 2) as int;
                assert(t.leaves()[j] == ll[jl]);
                assert(t.leaves().take(j) =~= ll.take(jl));
                match spec_uninsert_tree(*l, path / 2).2 {
                    Some(l2) => {
                        assert(res.2.unwrap().leaves() =~= t.leaves().take(j) + t.leaves().skip(
                            j + 1,
                        )) by {
                            assert(l2.leaves() == ll.take(jl) + ll.skip(jl + 1));
                        }
                    },
                    None => {
                        assert(ll.len() == 1 && jl == 0);
                        assert(res.2.unwrap().leaves() =~= t.leaves().take(j) + t.leaves().skip(
                            j + 1,
                        ));
                    },
                }
            }
        },
    }
}

/// Index semantics of removal: in a well-formed urn whose total weight does
/// not wrap, removing at an in-range index `i` returns exactly the
/// (weight, value) pair whose bucket contains `i`, and the remaining urn
/// carries the original multiset of pairs with that one pair taken out.
pub proof fn lemma_remove_index_bucket<T>(u: Urn<T>, i: crate::types::Index)
    requires
        u.wf(),
        sum_weights(u.tree.leaves()) <= u32::MAX,
        (i as int) < sum_weights(u.tree.leaves()),
    ensures
        ({
            let leaves = u.tree.leaves();
            let b = bucket_of(leaves, i as int);
            let res = u.spec_remove(i);
            &&& res.0 == leaves[b]
            &&& ((res.1 is None) <==> u.size == 1)
            &&& (res.1 matches Some(u2) ==> u2.tree.leaves().to_multiset()
                == leaves.to_multiset().remove(leaves[b]))
        }),
{
    broadcast use vstd::multiset::group_multiset_axioms;

    let path = (u.size - 1) as u32;
    let leaves = u.tree.leaves();
    let n = leaves.len() as int;
    let ii = i as int;
    let b = bucket_of(leaves, ii);
    u.tree.lemma_leaves_len();
    crate::urn::lemma_leaf_count_pos(u.tree);
    lemma_uninsert_leaves(u.tree, path);
    crate::urn::lemma_uninsert_tree_wf(u.tree, path);
    lemma_bucket_of_bounds(leaves, ii);
    lemma_sum_weights_nonneg(leaves);
    let res_un = spec_uninsert_tree(u.tree, path);
    let j = removed_pos(u.tree, path) as int;
    let x = leaves[j];
    let w = x.0;
    let pfx = leaves.take(j);
    let sfx = leaves.skip(j + 1);
    assert(leaves =~= pfx + (seq![x] + sfx));
    lemma_sum_weights_concat(pfx, seq![x] + sfx);
    lemma_sum_weights_concat(seq![x], sfx);
    assert(seq![x].drop_first() =~= Seq::<(Weight, T)>::empty());
    assert(sum_weights(Seq::<(Weight, T)>::empty()) == 0);
    assert(sum_weights(seq![x]) == w);
    lemma_sum_weights_nonneg(pfx);
    lemma_sum_weights_nonneg(sfx);
    lemma_wsum_is_sum_weights(pfx);
    let lb = res_un.1;
    assert(lb == sum_weights(pfx));
    if u.size == 1 {
        assert(n == 1);
        assert(j == 0 && b == 0);
    } else {
        assert(n >= 2);
        let t2 = res_un.2.unwrap();
        let l2 = t2.leaves();
        assert(l2 == pfx + sfx);
        assert(l2 =~= leaves.remove(j));
        vstd::seq_lib::to_multiset_remove(leaves, j);
        assert(l2.to_multiset() == leaves.to_multiset().remove(x));
        lemma_sum_weights_concat(pfx, sfx);
        assert(sum_weights(l2) == sum_weights(leaves) - w);
        assert(lb.wrapping_add(w) == lb + w);
        assert(leaves.to_multiset().count(x) >= 1) by {
            vstd::seq_lib::to_multiset_contains(leaves, x);
            assert(leaves.contains(x));
        }
        if ii < lb {
            // the addressed bucket lies before the detached one
            assert(pfx.len() >= 1);
            lemma_bucket_concat(pfx, seq![x] + sfx, ii);
            assert(b == bucket_of(pfx, ii));
            lemma_bucket_of_bounds(pfx, ii);
            assert(leaves[b] == pfx[b]);
            if sfx.len() == 0 {
                assert(l2 =~= pfx);
            } else {
                lemma_bucket_concat(pfx, sfx, ii);
            }
            assert(bucket_of(l2, ii) == b);
            assert(l2[b] == pfx[b]);
            lemma_sample_index_bucket(t2, ii);
            assert(t2.spec_get(ii) == leaves[b]);
            lemma_replace_leaves(t2, w, x.1, ii);
            let rt = t2.spec_replace(w, x.1, ii);
            assert(rt.leaves() == l2.update(b, x));
            vstd::seq_lib::to_multiset_update(l2, b, x);
            assert(rt.leaves().to_multiset() =~= leaves.to_multiset().remove(leaves[b]));
        } else if ii < lb + w {
            // the detached pair itself is the target
            if j == 0 {
                assert(b == 0);
            } else {
                lemma_bucket_concat(pfx, seq![x] + sfx, ii);
                if sfx.len() == 0 {
                    assert(bucket_of(seq![x] + sfx, ii - lb) == 0) by {
                        assert((seq![x] + sfx).len() == 1);
                    }
                } else {
                    assert((seq![x] + sfx)[0] == x);
                    assert(bucket_of(seq![x] + sfx, ii - lb) == 0);
                }
                assert(b == j);
            }
            assert(res_un.0 == leaves[b]);
        } else {
            // the addressed bucket lies beyond the detached one
            assert(sfx.len() >= 1);
            assert(i.wrapping_sub(w) == ii - w);
            let k = bucket_of(sfx, ii - lb - w);
            lemma_bucket_of_bounds(sfx, ii - lb - w);
            assert((seq![x] + sfx)[0] == x);
            assert((seq![x] + sfx).drop_first() =~= sfx);
            if j == 0 {
                assert(pfx.len() == 0);
                assert(leaves =~= seq![x] + sfx);
                assert(b == 1 + k) by {
                    assert(bucket_of(seq![x] + sfx, ii) == 1 + bucket_of(sfx, ii - w));
                }
                assert(l2 =~= sfx);
                assert(bucket_of(l2, ii - w) == k);
            } else {
                lemma_bucket_concat(pfx, seq![x] + sfx, ii);
                assert(bucket_of(seq![x] + sfx, ii - lb) == 1 + k);
                assert(b == j + 1 + k);
                lemma_bucket_concat(pfx, sfx, ii - w);
                assert(bucket_of(l2, ii - w) == j + k);
            }
            assert(leaves[b] == sfx[k]);
            assert(l2[bucket_of(l2, ii - w)] == sfx[k]);
            lemma_sample_index_bucket(t2, ii - w);
            assert(t2.spec_get(ii - w) == leaves[b]);
            lemma_replace_leaves(t2, w, x.1, ii - w);
            let rt = t2.spec_replace(w, x.1, ii - w);
            assert(rt.leaves() == l2.update(bucket_of(l2, ii - w), x));
            vstd::seq_lib::to_multiset_update(l2, bucket_of(l2, ii - w), x);
            assert(rt.leaves().to_multiset() =~= leaves.to_multiset().remove(leaves[b]));
        }
    }
}

} // verus!

