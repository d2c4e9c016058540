//! Urn operations: constructors, balance-preserving insertion and removal,
//! and the randomized entry points.

use crate::types::{Index, Tree, Urn, Weight};
use rand::Rng;
use vstd::prelude::*;

verus! {

/// Smart constructor for `Node`s (wraps the two subtrees in `Box`es).
pub fn node<T>(w: Weight, l: Tree<T>, r: Tree<T>) -> (t: Tree<T>)
    ensures
        t == Tree::Node(w, Box::new(l), Box::new(r)),
{
    Tree::Node(w, Box::new(l), Box::new(r))
}

/// Alias for the `Leaf` constructor.
pub fn leaf<T>(w: Weight, a: T) -> (t: Tree<T>)
    ensures
        t == (Tree::Leaf(w, a)),
{
    Tree::Leaf(w, a)
}

/// Tests whether the `n`-th bit of `input` is set.
pub fn test_bit(input: u32, n: u32) -> (b: bool)
    requires
        n < 32,
    ensures
        b == ((input >> n) & 1 == 1),
        n == 0 ==> b == (input % 2 == 1),
{
    proof {
        assert((input & (1u32 << n)) != 0 <==> (input >> n) & 1 == 1) by (bit_vector);
        assert((input >> 0u32) & 1 == 1 <==> input % 2 == 1) by (bit_vector);
    }
    (input & (1u32 << n)) != 0
}

/// The wrapped sum of the weights in a sequence of (weight, value) pairs.
pub open spec fn wsum<T>(s: Seq<(Weight, T)>) -> Weight
    decreases s.len(),
{
    if s.len() == 0 {
        0u32
    } else {
        wsum(s.drop_last()).wrapping_add(s.last().0)
    }
}

/// Wrapped addition is associative.
pub proof fn lemma_wadd_assoc(x: u32, y: u32, z: u32)
    ensures
        (x.wrapping_add(y)).wrapping_add(z) == x.wrapping_add(y.wrapping_add(z)),
{
}

/// The wrapped weight sum of a concatenation is the wrapped sum of the two
/// parts' sums.
pub proof fn lemma_wsum_concat<T>(s1: Seq<(Weight, T)>, s2: Seq<(Weight, T)>)
    ensures
        wsum(s1 + s2) == wsum(s1).wrapping_add(wsum(s2)),
    decreases s2.len(),
{
    if s2.len() == 0 {
        assert(s1 + s2 =~= s1);
        assert(wsum(s2) == 0);
    } else {
        assert((s1 + s2).drop_last() =~= s1 + s2.drop_last());
        assert((s1 + s2).last() == s2.last());
        lemma_wsum_concat(s1, s2.drop_last());
        lemma_wadd_assoc(wsum(s1), wsum(s2.drop_last()), s2.last().0);
    }
}

/// The tree that inserting `(w, a)` along `path` produces: each low bit of
/// `path` picks the child to descend into (0 = left, 1 = right) and is then
/// shifted away; the leaf reached is paired with a new leaf `(w, a)` on the
/// right, and every weight on the path grows by `w` (wrapped).
pub open spec fn spec_insert_tree<T>(t: Tree<T>, w: Weight, a: T, path: u32) -> Tree<T>
    decreases t,
{
    match t {
        Tree::Leaf(w0, a0) => Tree::Node(
            w0.wrapping_add(w),
            Box::new(Tree::Leaf(w0, a0)),
            Box::new(Tree::Leaf(w, a)),
        ),
        Tree::Node(w0, l, r) => {
            if path % 2 == 1 {
                Tree::Node(
                    w0.wrapping_add(w),
                    l,
                    Box::new(spec_insert_tree(*r, w, a, path / 2)),
                )
            } else {
                Tree::Node(
                    w0.wrapping_add(w),
                    Box::new(spec_insert_tree(*l, w, a, path / 2)),
                    r,
                )
            }
        },
    }
}

/// The shape that the insertion-path scheme maintains for a tree of `n`
/// leaves: the left subtree holds the ceiling half of them and the right
/// subtree the floor half, recursively.
pub open spec fn size_balanced<T>(t: Tree<T>, n: int) -> bool
    decreases t,
{
    match t {
        Tree::Leaf(_, _) => n == 1,
        Tree::Node(_, l, r) => {
            &&& n >= 2
            &&& size_balanced(*l, (n + 1) / 2)
            &&& size_balanced(*r, n / 2)
        },
    }
}

/// Every tree has at least one leaf.
pub proof fn lemma_leaf_count_pos<T>(t: Tree<T>)
    ensures
        t.leaf_count() >= 1,
        t.leaf_count() == 1 <==> t is Leaf,
    decreases t,
{
    match t {
        Tree::Leaf(_, _) => {},
        Tree::Node(_, l, r) => {
            lemma_leaf_count_pos(*l);
            lemma_leaf_count_pos(*r);
        },
    }
}

/// Inserting into a weight-consistent tree keeps it weight-consistent, adds
/// one leaf, and grows the root weight by the inserted weight (wrapped).
pub proof fn lemma_insert_tree_wf<T>(t: Tree<T>, w: Weight, a: T, path: u32)
    requires
        t.wf(),
    ensures
        spec_insert_tree(t, w, a, path).wf(),
        spec_insert_tree(t, w, a, path).leaf_count() == t.leaf_count() + 1,
        spec_insert_tree(t, w, a, path).spec_weight() == t.spec_weight().wrapping_add(w),
    decreases t,
{
    match t {
        Tree::Leaf(w0, a0) => {
            assert(Tree::Leaf(w0, a0).wf());
            assert(Tree::<T>::Leaf(w, a).wf());
            assert(Tree::Leaf(w0, a0).leaf_count() == 1);
            assert(Tree::<T>::Leaf(w, a).leaf_count() == 1);
        },
        Tree::Node(w0, l, r) => {
            if path % 2 == 1 {
                lemma_insert_tree_wf(*r, w, a, path / 2);
            } else {
                lemma_insert_tree_wf(*l, w, a, path / 2);
            }
        },
    }
}

/// Inserting with the current size as the path preserves the balanced shape.
pub proof fn lemma_insert_tree_balanced<T>(t: Tree<T>, w: Weight, a: T, n: u32)
    requires
        size_balanced(t, n as int),
    ensures
        size_balanced(spec_insert_tree(t, w, a, n), n + 1),
    decreases t,
{
    match t {
        Tree::Leaf(w0, a0) => {
            assert(size_balanced(Tree::Leaf(w0, a0), 1));
            assert(size_balanced(Tree::<T>::Leaf(w, a), 1));
        },
        Tree::Node(_, l, r) => {
            if n % 2 == 1 {
                lemma_insert_tree_balanced(*r, w, a, n / 2);
            } else {
                lemma_insert_tree_balanced(*l, w, a, n / 2);
            }
        },
    }
}

/// What removing along `path` yields: the removed (weight, value) pair, the
/// wrapped sum of the leaf weights strictly to its left (the lower bound of
/// its bucket), and the remaining tree (`None` when the tree was a single
/// leaf).  A node whose chosen child vanishes collapses into its other
/// child; every other weight on the path shrinks by the removed weight.
pub open spec fn spec_uninsert_tree<T>(t: Tree<T>, path: u32) -> ((Weight, T), Weight, Option<
    Tree<T>,
>)
    decreases t,
{
    match t {
        Tree::Leaf(w, a) => ((w, a), 0u32, None),
        Tree::Node(w0, l, r) => {
            if path % 2 == 1 {
                match spec_uninsert_tree(*r, path / 2) {
                    ((wn, an), lb, r_opt) => {
                        let new_tree = match r_opt {
                            None => *l,
                            Some(r2) => Tree::Node(w0.wrapping_sub(wn), l, Box::new(r2)),
                        };
                        ((wn, an), lb.wrapping_add(l.spec_weight()), Some(new_tree))
                    },
                }
            } else {
                match spec_uninsert_tree(*l, path / 2) {
                    ((wn, an), lb, l_opt) => {
                        let new_tree = match l_opt {
                            None => *r,
                            Some(l2) => Tree::Node(w0.wrapping_sub(wn), Box::new(l2), r),
                        };
                        ((wn, an), lb, Some(new_tree))
                    },
                }
            }
        },
    }
}

/// Wrapped addition and subtraction commute: subtracting `z` from a wrapped
/// sum is the same as adding the wrapped difference.
pub proof fn lemma_wadd_wsub_shift(x: u32, y: u32, z: u32)
    ensures
        (x.wrapping_add(y)).wrapping_sub(z) == x.wrapping_add(y.wrapping_sub(z)),
        (x.wrapping_add(y)).wrapping_sub(z) == (x.wrapping_sub(z)).wrapping_add(y),
{
}

/// Removal keeps the tree weight-consistent, removes exactly one leaf, and
/// shrinks the root weight by the removed weight (wrapped).
#[verifier::rlimit(50)]
pub proof fn lemma_uninsert_tree_wf<T>(t: Tree<T>, path: u32)
    requires
        t.wf(),
    ensures
        (spec_uninsert_tree(t, path).2 is None) <==> (t is Leaf),
        spec_uninsert_tree(t, path).2 matches Some(t2) ==> {
            &&& t2.wf()
            &&& t2.leaf_count() == t.leaf_count() - 1
            &&& t2.spec_weight() == t.spec_weight().wrapping_sub(
                spec_uninsert_tree(t, path).0.0,
            )
        },
    decreases t,
{
    match t {
        Tree::Leaf(_, _) => {},
        Tree::Node(w0, l, r) => {
            let wl = l.spec_weight();
            let wr = r.spec_weight();
            if path % 2 == 1 {
                lemma_uninsert_tree_wf(*r, path / 2);
                let cr = spec_uninsert_tree(*r, path / 2);
                let wn = cr.0.0;
                lemma_wadd_wsub_shift(wl, wr, wn);
                match cr.2 {
                    None => {
                        match *r {
                            Tree::Leaf(wr2, ar2) => {
                                assert(spec_uninsert_tree(Tree::Leaf(wr2, ar2), path / 2) == ((
                                    (wr2, ar2),
                                    0u32,
                                    None::<Tree<T>>,
                                )));
                                assert(wn == wr2);
                                assert(Tree::Leaf(wr2, ar2).leaf_count() == 1);
                            },
                            Tree::Node(_, _, _) => {
                                assert(false);
                            },
                        }
                        assert(spec_uninsert_tree(t, path).2 == Some(*l));
                        assert((*l).spec_weight() == w0.wrapping_sub(wn));
                    },
                    Some(r2) => {
                        assert(r2.wf());
                        assert(r2.spec_weight() == wr.wrapping_sub(wn));
                        assert(spec_uninsert_tree(t, path).2 == Some(
                            Tree::Node(w0.wrapping_sub(wn), l, Box::new(r2)),
                        ));
                        assert(w0.wrapping_sub(wn) == wl.wrapping_add(wr.wrapping_sub(wn)));
                    },
                }
            } else {
                lemma_uninsert_tree_wf(*l, path / 2);
                let cl = spec_uninsert_tree(*l, path / 2);
                let wn = cl.0.0;
                lemma_wadd_wsub_shift(wl, wr, wn);
                match cl.2 {
                    None => {
                        match *l {
                            Tree::Leaf(wl2, al2) => {
                                assert(spec_uninsert_tree(Tree::Leaf(wl2, al2), path / 2) == ((
                                    (wl2, al2),
                                    0u32,
                                    None::<Tree<T>>,
                                )));
                                assert(wn == wl2);
                                assert(Tree::Leaf(wl2, al2).leaf_count() == 1);
                            },
                            Tree::Node(_, _, _) => {
                                assert(false);
                            },
                        }
                        assert(spec_uninsert_tree(t, path).2 == Some(*r));
                        assert((*r).spec_weight() == w0.wrapping_sub(wn));
                    },
                    Some(l2) => {
                        assert(l2.wf());
                        assert(l2.spec_weight() == wl.wrapping_sub(wn));
                        assert(spec_uninsert_tree(t, path).2 == Some(
                            Tree::Node(w0.wrapping_sub(wn), Box::new(l2), r),
                        ));
                        assert(w0.wrapping_sub(wn) == (wl.wrapping_sub(wn)).wrapping_add(wr));
                    },
                }
            }
        },
    }
}

/// Removal along the path derived from `n - 1` (the size before the last
/// insertion) preserves the balanced shape.
pub proof fn lemma_uninsert_tree_balanced<T>(t: Tree<T>, n: u32)
    requires
        size_balanced(t, n as int),
        n >= 1,
    ensures
        n == 1 ==> spec_uninsert_tree(t, (n - 1) as u32).2 is None,
        n >= 2 ==> (spec_uninsert_tree(t, (n - 1) as u32).2 matches Some(t2) && size_balanced(
            t2,
            n - 1,
        )),
    decreases t,
{
    match t {
        Tree::Leaf(_, _) => {},
        Tree::Node(_, l, r) => {
            if (n - 1) % 2 == 1 {
                lemma_uninsert_tree_balanced(*r, n / 2);
            } else {
                lemma_uninsert_tree_balanced(*l, ((n + 1) / 2) as u32);
            }
        },
    }
}

/// The inverse law: removing along path `n` right after inserting along
/// path `n` returns the inserted pair and restores the original tree.
pub proof fn lemma_insert_uninsert<T>(t: Tree<T>, w: Weight, a: T, n: u32)
    requires
        size_balanced(t, n as int),
    ensures
        spec_uninsert_tree(spec_insert_tree(t, w, a, n), n).0 == (w, a),
        spec_uninsert_tree(spec_insert_tree(t, w, a, n), n).2 == Some(t),
    decreases t,
{
    match t {
        Tree::Leaf(w0, a0) => {
            assert(n == 1);
            let it = spec_insert_tree(t, w, a, n);
            assert(it == Tree::Node(
                w0.wrapping_add(w),
                Box::new(Tree::Leaf(w0, a0)),
                Box::new(Tree::Leaf(w, a)),
            ));
            assert(spec_uninsert_tree(Tree::Leaf(w, a), 0u32) == ((
                (w, a),
                0u32,
                None::<Tree<T>>,
            )));
            assert(spec_uninsert_tree(it, n).2 == Some(Tree::Leaf(w0, a0)));
        },
        Tree::Node(_, l, r) => {
            if n % 2 == 1 {
                lemma_insert_uninsert(*r, w, a, n / 2);
            } else {
                lemma_insert_uninsert(*l, w, a, n / 2);
            }
        },
    }
}

/// Recursive worker for [`Urn::uninsert`]: retraces `path` down the tree.
fn uninsert_tree<T>(tree: Tree<T>, path: u32) -> (res: ((Weight, T), Weight, Option<Tree<T>>))
    ensures
        res == spec_uninsert_tree(tree, path),
    decreases tree,
{
    match tree {
        Tree::Leaf(w, a) => ((w, a), 0, None),
        Tree::Node(w0, l, r) => {
            let new_path = path >> 1;
            proof {
                assert(path >> 1u32 == path / 2) by (bit_vector);
            }
            if test_bit(path, 0) {
                let wl = l.weight();
                let ((wn, an), lb, r_opt) = uninsert_tree(*r, new_path);
                let new_tree = match r_opt {
                    None => *l,
                    Some(r2) => {
                        let nw = w0.wrapping_sub(wn);
                        Tree::Node(nw, l, Box::new(r2))
                    },
                };
                ((wn, an), lb.wrapping_add(wl), Some(new_tree))
            } else {
                let ((wn, an), lb, l_opt) = uninsert_tree(*l, new_path);
                let new_tree = match l_opt {
                    None => *r,
                    Some(l2) => {
                        let nw = w0.wrapping_sub(wn);
                        Tree::Node(nw, Box::new(l2), r)
                    },
                };
                ((wn, an), lb, Some(new_tree))
            }
        },
    }
}

/// Replacing a leaf keeps the tree weight-consistent, keeps the leaf count,
/// and moves the root weight from the old leaf weight to the new one.
pub proof fn lemma_replace_wf<T>(t: Tree<T>, w: Weight, a: T, i: int)
    requires
        t.wf(),
    ensures
        t.spec_replace(w, a, i).wf(),
        t.spec_replace(w, a, i).leaf_count() == t.leaf_count(),
        t.spec_replace(w, a, i).spec_weight() == t.spec_weight().wrapping_sub(
            t.spec_get(i).0,
        ).wrapping_add(w),
    decreases t,
{
    match t {
        Tree::Leaf(w0, a0) => {
            assert(Tree::<T>::Leaf(w, a).wf());
            assert(Tree::<T>::Leaf(w, a).leaf_count() == 1);
        },
        Tree::Node(w0, l, r) => {
            let o = t.spec_get(i).0;
            if i < l.spec_weight() {
                lemma_replace_wf(*l, w, a, i);
                assert(((l.spec_weight().wrapping_add(r.spec_weight())).wrapping_sub(
                    o,
                )).wrapping_add(w) == ((l.spec_weight().wrapping_sub(o)).wrapping_add(
                    w,
                )).wrapping_add(r.spec_weight()));
            } else {
                lemma_replace_wf(*r, w, a, i - l.spec_weight());
                assert(((l.spec_weight().wrapping_add(r.spec_weight())).wrapping_sub(
                    o,
                )).wrapping_add(w) == l.spec_weight().wrapping_add(
                    (r.spec_weight().wrapping_sub(o)).wrapping_add(w),
                ));
            }
        },
    }
}

/// Replacing a leaf's contents does not change the shape of the tree.
pub proof fn lemma_replace_balanced<T>(t: Tree<T>, w: Weight, a: T, i: int, n: int)
    requires
        size_balanced(t, n),
    ensures
        size_balanced(t.spec_replace(w, a, i), n),
    decreases t,
{
    match t {
        Tree::Leaf(_, _) => {
            assert(size_balanced(Tree::Leaf(w, a), 1));
        },
        Tree::Node(_, l, r) => {
            if i < l.spec_weight() {
                lemma_replace_balanced(*l, w, a, i, (n + 1) / 2);
            } else {
                lemma_replace_balanced(*r, w, a, i - l.spec_weight(), n / 2);
            }
        },
    }
}

/// Recursive worker for [`Urn::insert`]: threads `path` down the tree.
fn insert_tree<T>(tree: Tree<T>, w: Weight, a: T, path: u32) -> (t: Tree<T>)
    ensures
        t == spec_insert_tree(tree, w, a, path),
    decreases tree,
{
    match tree {
        Tree::Leaf(w0, a0) => {
            let nw = w0.wrapping_add(w);
            node(nw, Tree::Leaf(w0, a0), Tree::Leaf(w, a))
        },
        Tree::Node(w0, l, r) => {
            let new_path = path >> 1;
            proof {
                assert(path >> 1u32 == path / 2) by (bit_vector);
            }
            let nw = w0.wrapping_add(w);
            if test_bit(path, 0) {
                node(nw, *l, insert_tree(*r, w, a, new_path))
            } else {
                node(nw, insert_tree(*l, w, a, new_path), *r)
            }
        },
    }
}

/// The tree that building an urn by repeated insertion produces: the first
/// element is a singleton leaf and every following element is inserted with
/// the size so far as its path.
pub open spec fn spec_naive_tree<T>(elems: Seq<(Weight, T)>) -> Tree<T>
    recommends
        1 <= elems.len() <= u32::MAX,
    decreases elems.len(),
{
    if elems.len() <= 1 {
        Tree::Leaf(elems[0].0, elems[0].1)
    } else {
        spec_insert_tree(
            spec_naive_tree(elems.drop_last()),
            elems.last().0,
            elems.last().1,
            (elems.len() - 1) as u32,
        )
    }
}

/// Naive implementation of `from_list`, which folds `insert` over a vector
/// of (weight, element) pairs.  Kept as the O(n log n) oracle against which
/// the linear-time `from_list` is checked.
pub fn from_list_naive<T: Copy>(elems: Vec<(Weight, T)>) -> (r: Option<Urn<T>>)
    requires
        elems@.len() <= u32::MAX,
    ensures
        (r is None) <==> elems@.len() == 0,
        r matches Some(u) ==> {
            &&& u.wf()
            &&& u.balanced()
            &&& u.size == elems@.len()
            &&& u.tree == spec_naive_tree(elems@)
            &&& u.spec_weight() == wsum(elems@)
        },
{
    if elems.len() == 0 {
        None
    } else {
        let (w0, a0) = elems[0];
        let mut acc = singleton(w0, a0);
        proof {
            assert(elems@.take(1).drop_last() =~= Seq::<(Weight, T)>::empty());
            assert(wsum(Seq::<(Weight, T)>::empty()) == 0);
            assert(elems@.take(1).last() == elems@[0]);
        }
        let mut j: usize = 1;
        while j < elems.len()
            invariant
                1 <= j <= elems@.len() <= u32::MAX,
                acc.wf(),
                acc.balanced(),
                acc.size == j,
                acc.tree == spec_naive_tree(elems@.take(j as int)),
                acc.spec_weight() == wsum(elems@.take(j as int)),
            decreases elems@.len() - j,
        {
            let (w, a) = elems[j];
            acc = acc.insert(w, a);
            j += 1;
            proof {
                assert(elems@.take(j as int).drop_last() =~= elems@.take(j - 1));
                assert(elems@.take(j as int).last() == elems@[j - 1]);
            }
        }
        proof {
            assert(elems@.take(elems@.len() as int) =~= elems@);
        }
        Some(acc)
    }
}

/// Builds an urn from a vector of (weight, element) pairs by handing the
/// whole list to the linear-time balanced constructor (`None` on empty
/// input).  Observably equivalent to [`from_list_naive`] on size and total
/// weight, though the tree shapes may differ.  Time complexity: `O(n)`.
pub fn from_list<T: Copy>(elems: Vec<(Weight, T)>) -> (r: Option<Urn<T>>)
    requires
        elems@.len() <= u32::MAX,
    ensures
        (r is None) <==> elems@.len() == 0,
        r matches Some(u) ==> {
            &&& u.wf()
            &&& u.balanced()
            &&& u.size == elems@.len()
            &&& u.tree.leaves() == elems@
            &&& u.spec_weight() == wsum(elems@)
        },
{
    if elems.is_empty() {
        None
    } else {
        let n = elems.len() as u32;
        let tree = crate::almost_perfect::almost_perfect(elems);
        proof {
            tree.lemma_leaves_len();
        }
        Some(Urn { size: n, tree })
    }
}

/// Creates a singleton urn containing element `a` with weight `w`.
/// Time complexity: `O(1)`.
pub fn singleton<T>(w: Weight, a: T) -> (u: Urn<T>)
    ensures
        u.wf(),
        u.balanced(),
        u.size == 1,
        u.tree == (Tree::Leaf(w, a)),
        u.spec_weight() == w,
{
    Urn { size: 1, tree: Tree::Leaf(w, a) }
}

impl<T> Urn<T> {
    /// Invariant: the tree is weight-consistent and `size` counts its
    /// leaves.  An urn of size 0 does not exist; removal of the last element
    /// yields `None` instead.
    pub open spec fn wf(&self) -> bool {
        &&& self.tree.wf()
        &&& self.size as nat == self.tree.leaf_count()
    }

    /// The shape invariant: the tree's leaves are spread as evenly as the
    /// insertion-path scheme spreads them.
    pub open spec fn balanced(&self) -> bool {
        size_balanced(self.tree, self.size as int)
    }

    /// The total weight of the urn (the weight at the tree's root).
    pub open spec fn spec_weight(&self) -> Weight {
        self.tree.spec_weight()
    }

    /// Fetches the `size` of the urn.
    pub fn size(&self) -> (n: u32)
        ensures
            n == self.size,
    {
        self.size
    }

    /// Retrieves the total weight of the tree underlying the urn.
    pub fn weight(&self) -> (w: Weight)
        ensures
            w == self.spec_weight(),
    {
        self.tree.weight()
    }

    /// Inserts a new element `a` with weight `w` into the urn.  The path
    /// derived from the pre-insertion size alternates which side of the tree
    /// grows, so the tree stays balanced.  Time complexity: `O(log n)`.
    pub fn insert(self, w: Weight, a: T) -> (u: Urn<T>)
        requires
            self.wf(),
            self.size < u32::MAX,
        ensures
            u.wf(),
            u.size == self.size + 1,
            u.tree == spec_insert_tree(self.tree, w, a, self.size),
            u.spec_weight() == self.spec_weight().wrapping_add(w),
            self.balanced() ==> u.balanced(),
    {
        proof {
            lemma_insert_tree_wf(self.tree, w, a, self.size);
            if self.balanced() {
                lemma_insert_tree_balanced(self.tree, w, a, self.size);
            }
        }
        Urn { size: self.size + 1, tree: insert_tree(self.tree, w, a, self.size) }
    }

    /// Deletes the most-recently-inserted weighted value `(w, a)` from the
    /// urn, returning `(w, a)`, the lower bound of the bucket that
    /// previously contained `a`, and the remaining urn (`None` when the urn
    /// had size 1).  Time complexity: `O(log n)`.
    pub fn uninsert(self) -> (r: ((Weight, T), Weight, Option<Urn<T>>))
        requires
            self.wf(),
        ensures
            r.0 == spec_uninsert_tree(self.tree, (self.size - 1) as u32).0,
            r.1 == spec_uninsert_tree(self.tree, (self.size - 1) as u32).1,
            (r.2 is None) <==> self.size == 1,
            (spec_uninsert_tree(self.tree, (self.size - 1) as u32).2 is None) <==> self.size == 1,
            r.2 matches Some(u2) ==> {
                &&& u2.tree == spec_uninsert_tree(self.tree, (self.size - 1) as u32).2.unwrap()
                &&& u2.size == self.size - 1
                &&& u2.wf()
                &&& u2.spec_weight() == self.spec_weight().wrapping_sub(r.0.0)
                &&& (self.balanced() ==> u2.balanced())
            },
    {
        proof {
            lemma_leaf_count_pos(self.tree);
            lemma_uninsert_tree_wf(self.tree, (self.size - 1) as u32);
            if self.balanced() {
                lemma_uninsert_tree_balanced(self.tree, self.size);
            }
        }
        let Urn { size, tree } = self;
        let ((w, a), lb, tree_opt) = uninsert_tree(tree, size - 1);
        match tree_opt {
            None => ((w, a), lb, None),
            Some(t2) => ((w, a), lb, Some(Urn { size: size - 1, tree: t2 })),
        }
    }

    /// Samples the value at index `i` from the urn.
    pub fn sample_index(&self, i: Index) -> (r: T) where T: Copy
        ensures
            r == self.tree.spec_get(i as int).1,
    {
        self.tree.sample_index(i)
    }

    /// Replaces the element whose bucket contains index `i` by `a` with
    /// weight `w`, returning the previous (weight, value) pair and the new
    /// urn.  The size never changes; only one leaf's contents do.
    pub fn replace_index(self, w: Weight, a: T, i: Index) -> (r: ((Weight, T), Urn<T>))
        requires
            self.wf(),
        ensures
            r.0 == self.tree.spec_get(i as int),
            r.1.tree == self.tree.spec_replace(w, a, i as int),
            r.1.size == self.size,
            r.1.wf(),
            r.1.spec_weight() == self.spec_weight().wrapping_sub(r.0.0).wrapping_add(w),
            self.balanced() ==> r.1.balanced(),
    {
        proof {
            lemma_replace_wf(self.tree, w, a, i as int);
            if self.balanced() {
                lemma_replace_balanced(self.tree, w, a, i as int, self.size as int);
            }
        }
        let Urn { size, tree } = self;
        let (old, t2) = tree.replace_index(w, a, i);
        (old, Urn { size, tree: t2 })
    }

    /// Applies `f` to the (weight, value) pair whose bucket contains index
    /// `i`, storing `f`'s result in its place.  Returns the old pair, the
    /// new pair, and the new urn.
    pub fn update_index<F>(self, f: F, i: Index) -> (r: ((Weight, T), (Weight, T), Urn<T>)) where
        T: Copy,
        F: FnOnce(Weight, T) -> (Weight, T),

        requires
            self.wf(),
            forall|wa: (Weight, T)| #[trigger] call_requires(f, wa),
        ensures
            r.0 == self.tree.spec_get(i as int),
            call_ensures(f, r.0, r.1),
            r.2.tree == self.tree.spec_replace(r.1.0, r.1.1, i as int),
            r.2.size == self.size,
            r.2.wf(),
            r.2.spec_weight() == self.spec_weight().wrapping_sub(r.0.0).wrapping_add(r.1.0),
            self.balanced() ==> r.2.balanced(),
    {
        let ghost me = self;
        let Urn { size, tree } = self;
        let (old, new, t2) = tree.update_index(f, i);
        proof {
            lemma_replace_wf(me.tree, new.0, new.1, i as int);
            if me.balanced() {
                lemma_replace_balanced(me.tree, new.0, new.1, i as int, me.size as int);
            }
        }
        (old, new, Urn { size, tree: t2 })
    }

    /// Removes the element whose bucket contains index `i`, returning its
    /// (weight, value) pair and the remaining urn (`None` when the urn had
    /// size 1).  The most-recently-inserted pair is detached by `uninsert`;
    /// if `i` falls outside its old bucket, that pair is written over the
    /// leaf that `i` addresses (shifted below the detached bucket) and the
    /// displaced pair is returned instead.
    pub fn remove_index(self, i: Index) -> (r: ((Weight, T), Option<Urn<T>>))
        requires
            self.wf(),
        ensures
            r == self.spec_remove(i),
            (r.1 is None) <==> self.size == 1,
            r.1 matches Some(u2) ==> {
                &&& u2.wf()
                &&& u2.size == self.size - 1
                &&& u2.spec_weight() == self.spec_weight().wrapping_sub(r.0.0)
                &&& (self.balanced() ==> u2.balanced())
            },
    {
        let ghost me = self;
        let ((w, a), lb, urn_opt) = self.uninsert();
        match urn_opt {
            None => ((w, a), None),
            Some(new_urn) => {
                proof {
                    lemma_replace_wf(new_urn.tree, w, a, i as int);
                    lemma_replace_wf(new_urn.tree, w, a, i.wrapping_sub(w) as int);
                    if me.balanced() {
                        lemma_replace_balanced(
                            new_urn.tree,
                            w,
                            a,
                            i as int,
                            new_urn.size as int,
                        );
                        lemma_replace_balanced(
                            new_urn.tree,
                            w,
                            a,
                            i.wrapping_sub(w) as int,
                            new_urn.size as int,
                        );
                    }
                }
                if i < lb {
                    let (old, final_urn) = new_urn.replace_index(w, a, i);
                    proof {
                        lemma_wsub_rotate(me.spec_weight(), w, old.0);
                    }
                    (old, Some(final_urn))
                } else if i < lb.wrapping_add(w) {
                    ((w, a), Some(new_urn))
                } else {
                    let (old, final_urn) = new_urn.replace_index(w, a, i.wrapping_sub(w));
                    proof {
                        lemma_wsub_rotate(me.spec_weight(), w, old.0);
                    }
                    (old, Some(final_urn))
                }
            },
        }
    }

    /// The result of [`Urn::remove_index`], as a value.
    pub open spec fn spec_remove(self, i: Index) -> ((Weight, T), Option<Urn<T>>) {
        match spec_uninsert_tree(self.tree, (self.size - 1) as u32) {
            ((w, a), lb, t_opt) => match t_opt {
                None => ((w, a), None),
                Some(t) => {
                    let rest = Urn { size: (self.size - 1) as u32, tree: t };
                    if i < lb {
                        (t.spec_get(i as int), Some(
                            Urn {
                                size: (self.size - 1) as u32,
                                tree: t.spec_replace(w, a, i as int),
                            },
                        ))
                    } else if i < lb.wrapping_add(w) {
                        ((w, a), Some(rest))
                    } else {
                        (t.spec_get(i.wrapping_sub(w) as int), Some(
                            Urn {
                                size: (self.size - 1) as u32,
                                tree: t.spec_replace(w, a, i.wrapping_sub(w) as int),
                            },
                        ))
                    }
                },
            },
        }
    }
}

/// Rotating a weight through a wrapped double subtraction: removing `y` and
/// then exchanging `z` for `y` is the same as removing `z`.
pub proof fn lemma_wsub_rotate(x: u32, y: u32, z: u32)
    ensures
        ((x.wrapping_sub(y)).wrapping_sub(z)).wrapping_add(y) == x.wrapping_sub(z),
{
}

/// In a weight-consistent tree the root weight is the wrapped sum of all
/// leaf weights.
pub proof fn lemma_wf_weight_is_leaf_sum<T>(t: Tree<T>)
    requires
        t.wf(),
    ensures
        t.spec_weight() == wsum(t.leaves()),
    decreases t,
{
    match t {
        Tree::Leaf(w, a) => {
            assert(t.leaves() == seq![(w, a)]);
            assert(t.leaves().drop_last() =~= Seq::<(Weight, T)>::empty());
            assert(wsum(Seq::<(Weight, T)>::empty()) == 0);
        },
        Tree::Node(_, l, r) => {
            lemma_wf_weight_is_leaf_sum(*l);
            lemma_wf_weight_is_leaf_sum(*r);
            lemma_wsum_concat(l.leaves(), r.leaves());
        },
    }
}

impl<T> Tree<T> {
    /// Counts the number of leaves in the tree at run time (wrapped, as all
    /// weight-width arithmetic in this crate is).
    pub fn tree_count(&self) -> (c: u32)
        ensures
            self.leaf_count() <= u32::MAX ==> c == self.leaf_count(),
        decreases self,
    {
        match self {
            Tree::Leaf(_, _) => 1,
            Tree::Node(_, l, r) => {
                proof {
                    lemma_leaf_count_pos(**l);
                    lemma_leaf_count_pos(**r);
                }
                l.tree_count().wrapping_add(r.tree_count())
            },
        }
    }

    /// Recomputes the wrapped sum of the weights at all the leaves,
    /// bottom-up, without trusting the cached node weights.
    pub fn sum_leaf_weights(&self) -> (s: Weight)
        ensures
            s == wsum(self.leaves()),
        decreases self,
    {
        match self {
            Tree::Leaf(w, _) => {
                proof {
                    assert(self.leaves().drop_last() =~= Seq::<(Weight, T)>::empty());
                    assert(wsum(Seq::<(Weight, T)>::empty()) == 0);
                }
                *w
            },
            Tree::Node(_, l, r) => {
                proof {
                    lemma_wsum_concat(l.leaves(), r.leaves());
                }
                l.sum_leaf_weights().wrapping_add(r.sum_leaf_weights())
            },
        }
    }

    /// Checks whether the weight at each node matches the recomputed sum of
    /// the subtree's leaf weights, i.e. decides [`Tree::wf`] at run time.
    pub fn weights_match(&self) -> (b: bool)
        ensures
            b == self.wf(),
        decreases self,
    {
        match self {
            Tree::Leaf(_, _) => true,
            Tree::Node(w, l, r) => {
                proof {
                    if l.wf() {
                        lemma_wf_weight_is_leaf_sum(**l);
                    }
                    if r.wf() {
                        lemma_wf_weight_is_leaf_sum(**r);
                    }
                }
                *w == l.sum_leaf_weights().wrapping_add(r.sum_leaf_weights())
                    && l.weights_match() && r.weights_match()
            },
        }
    }
}

impl<T> Urn<T> {
    /// Decides [`Urn::wf`] at run time: the stored size counts the leaves
    /// and every cached node weight is consistent.
    pub fn is_wf(&self) -> (b: bool)
        requires
            self.tree.leaf_count() <= u32::MAX,
        ensures
            b == self.wf(),
    {
        self.tree.tree_count() == self.size() && self.tree.weights_match()
    }
}

/// Draws a weight uniformly at random from the inclusive range `[0, w]`.
///
/// Relies on `rand::Rng::gen_range` on `rand::rngs::ThreadRng` with the
/// range `0..=w`: the drawn value lies within the range, and the range is
/// never empty, so the call does not panic.  The result is random, so
/// nothing more is assumed of it; callers state what holds of every
/// outcome.
#[verifier::external_body]
fn sample_weight(w: Weight) -> (r: Weight)
    ensures
        r <= w,
{
    let mut rng = rand::thread_rng();
    rng.gen_range(0..=w)
}

impl<T> Urn<T> {
    /// Randomly samples an element from the distribution represented by the
    /// urn.  The draw covers the inclusive range `[0, weight]`; a draw equal
    /// to `weight` lands in the rightmost leaf, like every other index at or
    /// beyond its bucket.  Time complexity: `O(log n)`.
    pub fn sample(&self) -> (r: T) where T: Copy
        ensures
            exists|i: Index| i <= self.spec_weight() && r == self.tree.spec_get(i as int).1,
    {
        let i = sample_weight(self.weight());
        let r = self.sample_index(i);
        proof {
            assert(i <= self.spec_weight() && r == self.tree.spec_get(i as int).1);
        }
        r
    }

    /// Randomly samples an element, then replaces the chosen element `a` and
    /// its weight `w` by `f(w, a)`.  Returns the old pair, the new pair, and
    /// the new urn.  Time complexity: `O(log n)`.
    pub fn update<F>(self, f: F) -> (r: ((Weight, T), (Weight, T), Urn<T>)) where
        T: Copy,
        F: FnOnce(Weight, T) -> (Weight, T),

        requires
            self.wf(),
            forall|wa: (Weight, T)| #[trigger] call_requires(f, wa),
        ensures
            call_ensures(f, r.0, r.1),
            r.2.size == self.size,
            r.2.wf(),
            r.2.spec_weight() == self.spec_weight().wrapping_sub(r.0.0).wrapping_add(r.1.0),
            self.balanced() ==> r.2.balanced(),
            exists|i: Index|
                i <= self.spec_weight() && r.0 == self.tree.spec_get(i as int) && r.2.tree
                    == self.tree.spec_replace(r.1.0, r.1.1, i as int),
    {
        let ghost me = self;
        let i = sample_weight(self.weight());
        let r = self.update_index(f, i);
        proof {
            assert(i <= me.spec_weight() && r.0 == me.tree.spec_get(i as int) && r.2.tree
                == me.tree.spec_replace(r.1.0, r.1.1, i as int));
        }
        r
    }

    /// Randomly samples an element and returns it along with an urn where
    /// it has been replaced by element `a` with weight `w`.  The size never
    /// changes.  Time complexity: `O(log n)`.
    pub fn replace(self, w: Weight, a: T) -> (r: ((Weight, T), Urn<T>))
        requires
            self.wf(),
        ensures
            r.1.size == self.size,
            r.1.wf(),
            r.1.spec_weight() == self.spec_weight().wrapping_sub(r.0.0).wrapping_add(w),
            self.balanced() ==> r.1.balanced(),
            exists|i: Index|
                i <= self.spec_weight() && r.0 == self.tree.spec_get(i as int) && r.1.tree
                    == self.tree.spec_replace(w, a, i as int),
    {
        let ghost me = self;
        let i = sample_weight(self.weight());
        let r = self.replace_index(w, a, i);
        proof {
            assert(i <= me.spec_weight() && r.0 == me.tree.spec_get(i as int) && r.1.tree
                == me.tree.spec_replace(w, a, i as int));
        }
        r
    }

    /// Removes a random element from the urn, returning it with its weight
    /// and the remaining urn (`None` when the urn had size 1).
    /// Time complexity: `O(log n)`.
    pub fn remove(self) -> (r: ((Weight, T), Option<Urn<T>>))
        requires
            self.wf(),
        ensures
            (r.1 is None) <==> self.size == 1,
            r.1 matches Some(u2) ==> {
                &&& u2.wf()
                &&& u2.size == self.size - 1
                &&& u2.spec_weight() == self.spec_weight().wrapping_sub(r.0.0)
                &&& (self.balanced() ==> u2.balanced())
            },
            exists|i: Index| i <= self.spec_weight() && r == self.spec_remove(i),
    {
        let ghost me = self;
        let i = sample_weight(self.weight());
        let r = self.remove_index(i);
        proof {
            assert(i <= me.spec_weight() && r == me.spec_remove(i));
        }
        r
    }
}

} // verus!
