//! The weighted binary tree and the urn built on top of it.

use vstd::prelude::*;

verus! {

/// Weights are non-negative fixed-width integers.  Arithmetic on weights
/// wraps; that one overflow policy is applied uniformly across the crate.
pub type Weight = u32;

/// An index into the cumulative-weight range `[0, weight)` of a tree.
pub type Index = u32;

/// A binary tree with a weight at every node and a value at every leaf.
/// Well-formed trees (see [`Tree::wf`]) store, at every `Node`, the wrapped
/// sum of the weights of the two subtrees, hence of all leaves below it.
#[derive(Debug, PartialEq)]
pub enum Tree<T> {
    Leaf(Weight, T),
    Node(Weight, Box<Tree<T>>, Box<Tree<T>>),
}

/// An urn is a weighted tree together with its number of leaves.
#[derive(Debug, PartialEq)]
pub struct Urn<T> {
    pub size: u32,
    pub tree: Tree<T>,
}

impl<T> Tree<T> {
    /// The weight stored at the root.
    pub open spec fn spec_weight(&self) -> Weight {
        match self {
            Tree::Leaf(w, _) => *w,
            Tree::Node(w, _, _) => *w,
        }
    }

    /// The number of leaves.
    pub open spec fn leaf_count(&self) -> nat
        decreases self,
    {
        match self {
            Tree::Leaf(_, _) => 1,
            Tree::Node(_, l, r) => l.leaf_count() + r.leaf_count(),
        }
    }

    /// The left-to-right sequence of (weight, value) pairs at the leaves.
    pub open spec fn leaves(&self) -> Seq<(Weight, T)>
        decreases self,
    {
        match self {
            Tree::Leaf(w, a) => seq![(*w, *a)],
            Tree::Node(_, l, r) => l.leaves() + r.leaves(),
        }
    }

    /// The leaf sequence has exactly one entry per leaf.
    pub proof fn lemma_leaves_len(&self)
        ensures
            self.leaves().len() == self.leaf_count(),
        decreases self,
    {
        match self {
            Tree::Leaf(_, _) => {},
            Tree::Node(_, l, r) => {
                l.lemma_leaves_len();
                r.lemma_leaves_len();
            },
        }
    }

    /// Weight consistency: at every node the stored weight is the wrapped sum
    /// of the two children's weights (and therefore of all leaf weights in
    /// the subtree, see `lemma_wf_weight_is_leaf_sum`).
    pub open spec fn wf(&self) -> bool
        decreases self,
    {
        match self {
            Tree::Leaf(_, _) => true,
            Tree::Node(w, l, r) => {
                &&& *w == l.spec_weight().wrapping_add(r.spec_weight())
                &&& l.wf()
                &&& r.wf()
            },
        }
    }

    /// The (weight, value) pair of the leaf whose cumulative-weight bucket
    /// contains index `i`.  Indexes at or beyond the total weight land in
    /// the rightmost leaf.
    pub open spec fn spec_get(&self, i: int) -> (Weight, T)
        decreases self,
    {
        match self {
            Tree::Leaf(w, a) => (*w, *a),
            Tree::Node(_, l, r) => {
                if i < l.spec_weight() {
                    l.spec_get(i)
                } else {
                    r.spec_get(i - l.spec_weight())
                }
            },
        }
    }

    /// The tree with the leaf whose bucket contains index `i` replaced by a
    /// leaf `(w, a)`; every weight on the path to it is adjusted by
    /// subtracting the old leaf weight and adding the new one (wrapped).
    pub open spec fn spec_replace(&self, w: Weight, a: T, i: int) -> Tree<T>
        decreases self,
    {
        match self {
            Tree::Leaf(_, _) => Tree::Leaf(w, a),
            Tree::Node(nw, l, r) => {
                if i < l.spec_weight() {
                    Tree::Node(
                        nw.wrapping_sub(self.spec_get(i).0).wrapping_add(w),
                        Box::new(l.spec_replace(w, a, i)),
                        *r,
                    )
                } else {
                    Tree::Node(
                        nw.wrapping_sub(self.spec_get(i).0).wrapping_add(w),
                        *l,
                        Box::new(r.spec_replace(w, a, i - l.spec_weight())),
                    )
                }
            },
        }
    }

    /// O(1): the weight at the root.
    pub fn weight(&self) -> (w: Weight)
        ensures
            w == self.spec_weight(),
    {
        match self {
            Tree::Leaf(w, _) => *w,
            Tree::Node(w, _, _) => *w,
        }
    }

    /// Returns the value at index `i` by cumulative-weight descent: at a
    /// node, go left if `i` is below the left child's weight, else go right
    /// with `i` shifted down by that weight.
    pub fn sample_index(&self, i: Index) -> (r: T) where T: Copy
        ensures
            r == self.spec_get(i as int).1,
        decreases self,
    {
        match self {
            Tree::Leaf(_, a) => *a,
            Tree::Node(_, l, r) => {
                let wl = l.weight();
                if i < wl {
                    l.sample_index(i)
                } else {
                    r.sample_index(i - wl)
                }
            },
        }
    }

    /// Replaces the leaf whose bucket contains index `i` by the leaf
    /// `(w, a)` and returns the previous (weight, value) pair together with
    /// the updated tree.
    pub fn replace_index(self, w: Weight, a: T, i: Index) -> (r: ((Weight, T), Tree<T>))
        ensures
            r.0 == self.spec_get(i as int),
            r.1 == self.spec_replace(w, a, i as int),
        decreases self,
    {
        match self {
            Tree::Leaf(w0, a0) => ((w0, a0), Tree::Leaf(w, a)),
            Tree::Node(nw, l, r) => {
                let wl = l.weight();
                if i < wl {
                    let (old, l2) = (*l).replace_index(w, a, i);
                    let nw2 = nw.wrapping_sub(old.0).wrapping_add(w);
                    (old, Tree::Node(nw2, Box::new(l2), r))
                } else {
                    let (old, r2) = (*r).replace_index(w, a, i - wl);
                    let nw2 = nw.wrapping_sub(old.0).wrapping_add(w);
                    (old, Tree::Node(nw2, l, Box::new(r2)))
                }
            },
        }
    }

    /// Applies `f` to the (weight, value) pair of the leaf whose bucket
    /// contains index `i` and stores `f`'s result in its place.  Returns the
    /// old pair, the new pair, and the updated tree.
    pub fn update_index<F>(self, f: F, i: Index) -> (r: ((Weight, T), (Weight, T), Tree<T>)) where
        T: Copy,
        F: FnOnce(Weight, T) -> (Weight, T),

        requires
            forall|wa: (Weight, T)| #[trigger] call_requires(f, wa),
        ensures
            r.0 == self.spec_get(i as int),
            call_ensures(f, r.0, r.1),
            r.2 == self.spec_replace(r.1.0, r.1.1, i as int),
        decreases self,
    {
        match self {
            Tree::Leaf(w0, a0) => {
                let (wn, an) = f(w0, a0);
                ((w0, a0), (wn, an), Tree::Leaf(wn, an))
            },
            Tree::Node(nw, l, r) => {
                let wl = l.weight();
                if i < wl {
                    let (old, new, l2) = (*l).update_index(f, i);
                    let nw2 = nw.wrapping_sub(old.0).wrapping_add(new.0);
                    (old, new, Tree::Node(nw2, Box::new(l2), r))
                } else {
                    let (old, new, r2) = (*r).update_index(f, i - wl);
                    let nw2 = nw.wrapping_sub(old.0).wrapping_add(new.0);
                    (old, new, Tree::Node(nw2, l, Box::new(r2)))
                }
            },
        }
    }
}

} // verus!
