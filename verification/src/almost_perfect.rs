//! Linear-time construction of an almost perfect weighted tree.
//!
//! The builder walks the input once, left to right, constructing a tree of
//! the perfect depth `d = floor(log2(n))`.  Each of the `2^d` depth-0 slots
//! absorbs either one input element (a plain leaf) or two (a two-leaf
//! subtree, one extra level); the doubled slots are exactly those whose
//! bit-reversed position is below `remainder = n - 2^d`, which spreads them
//! evenly across the tree instead of clustering them on one side.

use crate::types::{Tree, Weight};
use crate::urn::{size_balanced, wsum, lemma_wsum_concat};
use vstd::arithmetic::power2::{
    lemma2_to64, lemma_pow2_pos, lemma_pow2_unfold, pow2,
};
use vstd::prelude::*;

verus! {

broadcast use vstd::std_specs::vec::axiom_spec_len;

/// The lowest `n` bits of `x`, in reverse order.
pub open spec fn spec_reverse_bits(n: nat, x: nat) -> nat
    decreases n,
{
    if n == 0 {
        0
    } else {
        (x % 2) * pow2((n - 1) as nat) + spec_reverse_bits((n - 1) as nat, x / 2)
    }
}

/// A bit reversal of `n` bits stays below `2^n`.
pub proof fn lemma_reverse_bits_bound(n: nat, x: nat)
    ensures
        spec_reverse_bits(n, x) < pow2(n),
    decreases n,
{
    lemma_pow2_pos(n);
    if n > 0 {
        lemma_reverse_bits_bound((n - 1) as nat, x / 2);
        lemma_pow2_unfold(n);
        if x % 2 == 0 {
            assert((x % 2) * pow2((n - 1) as nat) == 0);
        } else {
            assert(x % 2 == 1);
            assert((x % 2) * pow2((n - 1) as nat) == pow2((n - 1) as nat));
        }
    }
}

/// Reverses the lowest `n` bits of the number `x` (bits at position `n` and
/// above are ignored; low bits of `x` become high bits of the result).
pub fn reverse_bits(n: u32, x: u32) -> (r: u32)
    requires
        n <= 32,
    ensures
        r == spec_reverse_bits(n as nat, x as nat),
{
    let mut r: u32 = 0;
    let mut k: u32 = n;
    let mut xx: u32 = x;
    proof {
        lemma2_to64();
    }
    while k > 0
        invariant
            k <= n <= 32,
            r < pow2((n - k) as nat),
            spec_reverse_bits(n as nat, x as nat) == r * pow2(k as nat) + spec_reverse_bits(
                k as nat,
                xx as nat,
            ),
        decreases k,
    {
        proof {
            lemma2_to64();
            lemma_pow2_unfold((n - k + 1) as nat);
            lemma_pow2_unfold(k as nat);
            lemma_pow2_pos((k - 1) as nat);
            lemma_pow2_pos((n - k) as nat);
            if n - k < 31 {
                vstd::arithmetic::power2::lemma_pow2_strictly_increases((n - k) as nat, 31);
            }
            assert(r < 0x8000_0000);
            assert(((r << 1u32) | (xx & 1u32)) == 2 * r + (xx % 2u32)) by (bit_vector)
                requires
                    r < 0x8000_0000u32,
            ;
            assert((xx >> 1u32) == xx / 2u32) by (bit_vector);
            // the invariant after one step, in int arithmetic
            assert(r * (2 * pow2((k - 1) as nat)) + ((xx as nat % 2) * pow2((k - 1) as nat)
                + spec_reverse_bits((k - 1) as nat, (xx as nat) / 2)) == (2 * r + (xx as nat
                % 2)) * pow2((k - 1) as nat) + spec_reverse_bits(
                (k - 1) as nat,
                (xx as nat) / 2,
            )) by (nonlinear_arith);
            assert(2 * r + (xx as nat % 2) < 2 * pow2((n - k) as nat));
        }
        r = (r << 1) | (xx & 1);
        xx = xx >> 1;
        k = k - 1;
    }
    proof {
        lemma2_to64();
        assert(k == 0);
        assert(pow2(0) == 1);
        assert(spec_reverse_bits(0, xx as nat) == 0);
        assert(spec_reverse_bits(n as nat, x as nat) == r * pow2(k as nat) + spec_reverse_bits(
            k as nat,
            xx as nat,
        ));
        assert(r * pow2(0) == r);
        assert(spec_reverse_bits(n as nat, x as nat) == r);
    }
    r
}

/// Whether the depth-0 slot at position `index` absorbs two input elements.
pub open spec fn spec_double(d: nat, rem: nat, index: nat) -> bool {
    spec_reverse_bits(d, index) < rem
}

/// How many of the `cnt` consecutive depth-0 slots starting at `index`
/// absorb two input elements.
pub open spec fn count_doubles(d: nat, rem: nat, index: nat, cnt: nat) -> nat
    decreases cnt,
{
    if cnt == 0 {
        0
    } else {
        (if spec_double(d, rem, index) {
            1nat
        } else {
            0nat
        }) + count_doubles(d, rem, index + 1, (cnt - 1) as nat)
    }
}

/// Counting over a range splits at any point of it.
pub proof fn lemma_count_split(d: nat, rem: nat, index: nat, c1: nat, c2: nat)
    ensures
        count_doubles(d, rem, index, c1 + c2) == count_doubles(d, rem, index, c1)
            + count_doubles(d, rem, index + c1, c2),
    decreases c1,
{
    if c1 > 0 {
        lemma_count_split(d, rem, index + 1, (c1 - 1) as nat, c2);
        assert(c1 + c2 - 1 == (c1 - 1) + c2);
    }
}

/// How many input elements the subtree of depth `depth` whose slots start
/// at `index` consumes.
pub open spec fn consumed(d: nat, rem: nat, index: nat, depth: nat) -> nat {
    pow2(depth) + count_doubles(d, rem, index, pow2(depth))
}

/// The ceiling of `e / q`, clamped to zero for non-positive `e`.
pub open spec fn clamp_ceil(e: int, q: int) -> int
    recommends
        q >= 1,
{
    if e <= 0 {
        0
    } else {
        (e + q - 1) / q
    }
}

/// A clamped ceiling splits across a doubled denominator, and doubling the
/// denominator is the same as taking the ceiling half of the result.
pub proof fn lemma_clamp_ceil_split(e: int, q: int)
    requires
        q >= 1,
    ensures
        clamp_ceil(e, q) == clamp_ceil(e, 2 * q) + clamp_ceil(e - q, 2 * q),
        clamp_ceil(e, 2 * q) == (clamp_ceil(e, q) + 1) / 2,
{
    if e > 0 {
        let s = (e - 1) / q;
        let t = (e - 1) % q;
        vstd::arithmetic::div_mod::lemma_fundamental_div_mod(e - 1, q);
        vstd::arithmetic::div_mod::lemma_mod_bound(e - 1, q);
        vstd::arithmetic::div_mod::lemma_div_pos_is_pos(e - 1, q);
        assert(e == q * s + t + 1);
        assert(e + q - 1 == q * (s + 1) + t) by (nonlinear_arith)
            requires
                e == q * s + t + 1,
        ;
        vstd::arithmetic::div_mod::lemma_div_multiples_vanish_fancy(s + 1, t, q);
        assert(clamp_ceil(e, q) == s + 1);
        let u = s / 2;
        vstd::arithmetic::div_mod::lemma_fundamental_div_mod(s, 2);
        vstd::arithmetic::div_mod::lemma_mod_bound(s, 2);
        if s % 2 == 0 {
            assert(s == 2 * u);
            assert(e + 2 * q - 1 == (2 * q) * (u + 1) + t) by (nonlinear_arith)
                requires
                    e == q * s + t + 1,
                    s == 2 * u,
            ;
            vstd::arithmetic::div_mod::lemma_div_multiples_vanish_fancy(u + 1, t, 2 * q);
            assert(clamp_ceil(e, 2 * q) == u + 1);
            if e - q <= 0 {
                assert(s == 0) by (nonlinear_arith)
                    requires
                        q >= 1,
                        s >= 0,
                        t >= 0,
                        e == q * s + t + 1,
                        e - q <= 0,
                ;
                assert(u == 0);
                assert(clamp_ceil(e - q, 2 * q) == 0);
            } else {
                assert(e - q + 2 * q - 1 == (2 * q) * u + (q + t)) by (nonlinear_arith)
                    requires
                        e == q * s + t + 1,
                        s == 2 * u,
                ;
                vstd::arithmetic::div_mod::lemma_div_multiples_vanish_fancy(u, q + t, 2 * q);
                assert(clamp_ceil(e - q, 2 * q) == u);
            }
            assert(s + 2 == 2 * (u + 1) + 0);
            vstd::arithmetic::div_mod::lemma_div_multiples_vanish_fancy(u + 1, 0, 2);
            assert((s + 2) / 2 == u + 1);
        } else {
            assert(s == 2 * u + 1);
            assert(e + 2 * q - 1 == (2 * q) * (u + 1) + (q + t)) by (nonlinear_arith)
                requires
                    e == q * s + t + 1,
                    s == 2 * u + 1,
            ;
            vstd::arithmetic::div_mod::lemma_div_multiples_vanish_fancy(u + 1, q + t, 2 * q);
            assert(clamp_ceil(e, 2 * q) == u + 1);
            assert(e - q >= 1) by (nonlinear_arith)
                requires
                    e == q * s + t + 1,
                    s == 2 * u + 1,
                    u >= 0,
                    t >= 0,
                    q >= 1,
            ;
            assert(e - q + 2 * q - 1 == (2 * q) * (u + 1) + t) by (nonlinear_arith)
                requires
                    e == q * s + t + 1,
                    s == 2 * u + 1,
            ;
            vstd::arithmetic::div_mod::lemma_div_multiples_vanish_fancy(u + 1, t, 2 * q);
            assert(clamp_ceil(e - q, 2 * q) == u + 1);
            assert(s + 2 == 2 * (u + 1) + 1);
            vstd::arithmetic::div_mod::lemma_div_multiples_vanish_fancy(u + 1, 1, 2);
            assert((s + 2) / 2 == u + 1);
        }
    }
}

/// Appending one bit to the input prepends it to the reversal.
pub proof fn lemma_reverse_bits_step(n: nat, m: nat)
    ensures
        spec_reverse_bits(n + 1, 2 * m) == spec_reverse_bits(n, m),
        spec_reverse_bits(n + 1, 2 * m + 1) == pow2(n) + spec_reverse_bits(n, m),
{
    vstd::arithmetic::div_mod::lemma_div_multiples_vanish(m as int, 2);
    vstd::arithmetic::div_mod::lemma_div_multiples_vanish_fancy(m as int, 1, 2);
    assert((2 * m) % 2 == 0 && (2 * m + 1) % 2 == 1);
    assert((2 * m) as nat / 2 == m && (2 * m + 1) as nat / 2 == m);
}

/// The count of doubled slots over an aligned range of `2^k` slots, in
/// closed form: the bit reversals over such a range sweep an arithmetic
/// progression with step `2^(d-k)`, so the count below `rem` is a clamped
/// ceiling.  This is the combinatorial heart of the builder.
pub proof fn lemma_count_aligned(d: nat, rem: nat, k: nat, m: nat)
    requires
        k <= d,
        rem <= pow2(d),
        (m + 1) * pow2(k) <= pow2(d),
    ensures
        count_doubles(d, rem, m * pow2(k), pow2(k)) == clamp_ceil(
            rem - spec_reverse_bits((d - k) as nat, m),
            pow2((d - k) as nat) as int,
        ),
    decreases k,
{
    lemma_pow2_pos(k);
    lemma_pow2_pos((d - k) as nat);
    if k == 0 {
        lemma2_to64();
        assert(m * 1 == m);
        assert(count_doubles(d, rem, m + 1, 0) == 0);
        lemma_reverse_bits_bound(d, m);
        let c = spec_reverse_bits(d, m) as int;
        let q = pow2(d) as int;
        if c < rem {
            assert(count_doubles(d, rem, m, 1) == 1);
            assert(rem - c + q - 1 == q * 1 + (rem - c - 1));
            vstd::arithmetic::div_mod::lemma_div_multiples_vanish_fancy(1, rem - c - 1, q);
            assert(clamp_ceil(rem - c, q) == 1);
        } else {
            assert(count_doubles(d, rem, m, 1) == 0);
            assert(clamp_ceil(rem - c, q) == 0);
        }
    } else {
        let h = pow2((k - 1) as nat);
        lemma_pow2_unfold(k);
        lemma_pow2_pos((k - 1) as nat);
        assert(m * pow2(k) == (2 * m) * h && m * pow2(k) + h == (2 * m + 1) * h && (2 * m + 1
            + 1) * h == (m + 1) * pow2(k) && (2 * m + 1) * h + h == (2 * m + 1 + 1) * h)
            by (nonlinear_arith)
            requires
                pow2(k) == 2 * h,
        ;
        assert((2 * m + 1) * h <= pow2(d) && (2 * m + 1 + 1) * h <= pow2(d));
        lemma_count_split(d, rem, m * pow2(k), h, h);
        lemma_count_aligned(d, rem, (k - 1) as nat, 2 * m);
        lemma_count_aligned(d, rem, (k - 1) as nat, 2 * m + 1);
        lemma_reverse_bits_step((d - k) as nat, m);
        lemma_pow2_unfold((d - k + 1) as nat);
        let q = pow2((d - k) as nat) as int;
        let c = spec_reverse_bits((d - k) as nat, m) as int;
        assert(pow2((d - (k - 1) as nat) as nat) == 2 * q);
        lemma_clamp_ceil_split(rem - c, q);
        assert(rem - (q + c) == (rem - c) - q);
    }
}

/// An aligned subtree's consumption splits between its children as the
/// ceiling half and the floor half: the shape stays balanced.
pub proof fn lemma_consumed_split_balanced(d: nat, rem: nat, index: nat, k: nat)
    requires
        1 <= k <= d,
        index % pow2(k) == 0,
        index + pow2(k) <= pow2(d),
        rem <= pow2(d),
    ensures
        ({
            let h = pow2((k - 1) as nat);
            let n = consumed(d, rem, index, k) as int;
            let nl = consumed(d, rem, index, (k - 1) as nat) as int;
            let nr = consumed(d, rem, index + h, (k - 1) as nat) as int;
            &&& n == nl + nr
            &&& nl == (n + 1) / 2
            &&& nr == n / 2
        }),
{
    let h = pow2((k - 1) as nat);
    lemma_pow2_pos(k);
    lemma_pow2_pos((k - 1) as nat);
    lemma_pow2_pos((d - k) as nat);
    lemma_pow2_unfold(k);
    let m = index as int / pow2(k) as int;
    vstd::arithmetic::div_mod::lemma_fundamental_div_mod(index as int, pow2(k) as int);
    vstd::arithmetic::div_mod::lemma_div_pos_is_pos(index as int, pow2(k) as int);
    assert(index == pow2(k) * m);
    assert(index == m * pow2(k) && index == (2 * m) * h && index + h == (2 * m + 1) * h && (m
        + 1) * pow2(k) == index + pow2(k) && (2 * m + 1 + 1) * h == index + pow2(k))
        by (nonlinear_arith)
        requires
            index == pow2(k) * m,
            pow2(k) == 2 * h,
    ;
    let mn = m as nat;
    assert(mn == m);
    assert(index == mn * pow2(k) && index == (2 * mn) * h && index + h == (2 * mn + 1) * h);
    lemma_count_aligned(d, rem, k, mn);
    lemma_count_aligned(d, rem, (k - 1) as nat, 2 * mn);
    lemma_count_aligned(d, rem, (k - 1) as nat, 2 * mn + 1);
    lemma_reverse_bits_step((d - k) as nat, mn);
    lemma_pow2_unfold((d - k + 1) as nat);
    let q = pow2((d - k) as nat) as int;
    let c = spec_reverse_bits((d - k) as nat, mn) as int;
    assert(pow2((d - (k - 1) as nat) as nat) == 2 * q);
    lemma_clamp_ceil_split(rem - c, q);
    assert(rem - (q + c) == (rem - c) - q);
    let cc = clamp_ceil(rem - c, q);
    let cl = clamp_ceil(rem - c, 2 * q);
    let n = consumed(d, rem, index, k) as int;
    let nl = consumed(d, rem, index, (k - 1) as nat) as int;
    assert(n == pow2(k) + cc);
    assert(nl == h + cl);
    assert(cl == (cc + 1) / 2);
    assert((2 * h + cc + 1) / 2 == h + (cc + 1) / 2) by {
        vstd::arithmetic::div_mod::lemma_fundamental_div_mod(cc + 1, 2);
        vstd::arithmetic::div_mod::lemma_mod_bound(cc + 1, 2);
        let v = (cc + 1) / 2;
        assert(2 * h + cc + 1 == 2 * (h + v) + ((cc + 1) % 2));
        vstd::arithmetic::div_mod::lemma_div_multiples_vanish_fancy(
            h + v,
            (cc + 1) % 2,
            2,
        );
    }
    assert(n / 2 + (n + 1) / 2 == n) by {
        vstd::arithmetic::div_mod::lemma_fundamental_div_mod(n, 2);
        vstd::arithmetic::div_mod::lemma_mod_bound(n, 2);
        let v = n / 2;
        if n % 2 == 0 {
            assert(n + 1 == 2 * v + 1);
            vstd::arithmetic::div_mod::lemma_div_multiples_vanish_fancy(v, 1, 2);
        } else {
            assert(n + 1 == 2 * (v + 1) + 0);
            vstd::arithmetic::div_mod::lemma_div_multiples_vanish_fancy(v + 1, 0, 2);
        }
    }
}

/// Recursive worker for [`almost_perfect`]: builds the subtree of depth
/// `depth` whose depth-0 slots start at position `index`, reading elements
/// from `elems` starting at `pos`.
fn build_go<T: Copy>(
    depth: u32,
    index: u32,
    elems: &Vec<(Weight, T)>,
    pos: usize,
    d: u32,
    rem: u32,
) -> (res: (Tree<T>, usize, u32))
    requires
        depth <= d <= 31,
        (index as nat) % pow2(depth as nat) == 0,
        index + pow2(depth as nat) <= pow2(d as nat),
        rem <= pow2(d as nat),
        pos + consumed(d as nat, rem as nat, index as nat, depth as nat) <= elems@.len(),
    ensures
        res.2 == index + pow2(depth as nat),
        res.1 == pos + consumed(d as nat, rem as nat, index as nat, depth as nat),
        res.0.wf(),
        res.0.leaves() == elems@.subrange(pos as int, res.1 as int),
        res.0.leaf_count() == consumed(d as nat, rem as nat, index as nat, depth as nat),
        res.0.spec_weight() == wsum(elems@.subrange(pos as int, res.1 as int)),
        size_balanced(res.0, consumed(d as nat, rem as nat, index as nat, depth as nat) as int),
    decreases depth,
{
    proof {
        lemma_pow2_pos(depth as nat);
        vstd::arithmetic::power2::lemma_pow2_strictly_increases(d as nat, 32);
        lemma2_to64();
        assert(elems@.len() == vstd::std_specs::vec::spec_vec_len(elems));
    }
    if depth == 0 {
        proof {
            assert(count_doubles(d as nat, rem as nat, (index + 1) as nat, 0) == 0);
            assert(count_doubles(d as nat, rem as nat, index as nat, 1) == (
            if spec_double(d as nat, rem as nat, index as nat) {
                1nat
            } else {
                0nat
            }));
        }
        let rb = reverse_bits(d, index);
        if rb < rem {
            proof {
                assert(consumed(d as nat, rem as nat, index as nat, 0) == 2);
            }
            let (wl, al) = elems[pos];
            let (wr, ar) = elems[pos + 1];
            let t = Tree::Node(
                wl.wrapping_add(wr),
                Box::new(Tree::Leaf(wl, al)),
                Box::new(Tree::Leaf(wr, ar)),
            );
            proof {
                assert(Tree::Leaf(wl, al).leaves() == seq![(wl, al)]);
                assert(Tree::Leaf(wr, ar).leaves() == seq![(wr, ar)]);
                assert(Tree::Leaf(wl, al).wf() && Tree::Leaf(wr, ar).wf());
                assert(Tree::Leaf(wl, al).leaf_count() == 1);
                assert(Tree::Leaf(wr, ar).leaf_count() == 1);
                assert(t.leaves() =~= elems@.subrange(pos as int, pos + 2));
                let s2 = elems@.subrange(pos as int, pos + 2);
                let s1 = elems@.subrange(pos as int, pos + 1);
                assert(s2.drop_last() =~= s1);
                assert(s1.drop_last() =~= Seq::<(Weight, T)>::empty());
                assert(wsum(Seq::<(Weight, T)>::empty()) == 0);
                assert(wsum(s1) == (0u32).wrapping_add(wl));
                assert(wsum(s2) == wl.wrapping_add(wr));
                assert(size_balanced(Tree::Leaf(wl, al), 1));
                assert(size_balanced(Tree::Leaf(wr, ar), 1));
            }
            (t, pos + 2, index + 1)
        } else {
            proof {
                assert(consumed(d as nat, rem as nat, index as nat, 0) == 1);
            }
            let (w, a) = elems[pos];
            let t = Tree::Leaf(w, a);
            proof {
                assert(t.leaves() =~= elems@.subrange(pos as int, pos + 1));
                let s1 = elems@.subrange(pos as int, pos + 1);
                assert(s1.drop_last() =~= Seq::<(Weight, T)>::empty());
                assert(wsum(Seq::<(Weight, T)>::empty()) == 0);
                assert(wsum(s1) == (0u32).wrapping_add(w));
            }
            (t, pos + 1, index + 1)
        }
    } else {
        proof {
            lemma_pow2_unfold(depth as nat);
            lemma_count_split(
                d as nat,
                rem as nat,
                index as nat,
                pow2((depth - 1) as nat),
                pow2((depth - 1) as nat),
            );
            // the children's slot ranges are aligned to their own size
            let h = pow2((depth - 1) as nat) as int;
            lemma_pow2_pos((depth - 1) as nat);
            vstd::arithmetic::div_mod::lemma_fundamental_div_mod(index as int, 2 * h);
            let q = index as int / (2 * h);
            assert(index as int == h * (2 * q)) by (nonlinear_arith)
                requires
                    index as int == (2 * h) * q,
            ;
            vstd::arithmetic::div_mod::lemma_mod_multiples_basic(2 * q, h);
            vstd::arithmetic::div_mod::lemma_mod_multiples_basic(2 * q + 1, h);
            assert(index as int + h == (2 * q + 1) * h) by (nonlinear_arith)
                requires
                    index as int == h * (2 * q),
            ;
            assert((index as nat) % pow2((depth - 1) as nat) == 0);
            assert(((index as nat + pow2((depth - 1) as nat))) % pow2((depth - 1) as nat) == 0);
        }
        proof {
            lemma_consumed_split_balanced(d as nat, rem as nat, index as nat, depth as nat);
        }
        let (l, l_pos, l_index) = build_go(depth - 1, index, elems, pos, d, rem);
        let (r, r_pos, r_index) = build_go(depth - 1, l_index, elems, l_pos, d, rem);
        let wl = l.weight();
        let wr = r.weight();
        let t = Tree::Node(wl.wrapping_add(wr), Box::new(l), Box::new(r));
        proof {
            let lo = pos as int;
            let mid = l_pos as int;
            let hi = r_pos as int;
            assert(t.leaves() =~= elems@.subrange(lo, hi)) by {
                assert(elems@.subrange(lo, mid) + elems@.subrange(mid, hi) =~= elems@.subrange(
                    lo,
                    hi,
                ));
            }
            lemma_wsum_concat(elems@.subrange(lo, mid), elems@.subrange(mid, hi));
            assert(elems@.subrange(lo, mid) + elems@.subrange(mid, hi) =~= elems@.subrange(
                lo,
                hi,
            ));
        }
        (t, r_pos, r_index)
    }
}

/// The floor `d` of the base-2 logarithm of `n`, together with `2^d`.
fn floor_log2(n: u32) -> (res: (u32, u32))
    requires
        n >= 1,
    ensures
        res.0 <= 31,
        res.1 == pow2(res.0 as nat),
        pow2(res.0 as nat) <= n < pow2((res.0 + 1) as nat),
{
    let mut d: u32 = 0;
    let mut p: u32 = 1;
    proof {
        lemma2_to64();
    }
    while p <= n / 2
        invariant
            n >= 1,
            d <= 31,
            p == pow2(d as nat),
            p <= n,
        decreases n - p,
    {
        proof {
            lemma2_to64();
            lemma_pow2_unfold((d + 1) as nat);
            // 2 * p <= n < 2^32, so p < 2^31 and d + 1 stays in range
            if d == 31 {
                assert(p == 0x8000_0000u32);
                assert(false);
            }
        }
        p = p * 2;
        d = d + 1;
    }
    proof {
        lemma_pow2_unfold((d + 1) as nat);
    }
    (d, p)
}

/// Builds an almost perfect tree from the weights and values in `elems`,
/// in one linear left-to-right pass.  The resulting tree is
/// weight-consistent, carries exactly the input pairs at its leaves in
/// order, and has the same balanced shape that repeated insertion
/// maintains.
pub fn almost_perfect<T: Copy>(elems: Vec<(Weight, T)>) -> (t: Tree<T>)
    requires
        1 <= elems@.len() <= u32::MAX,
    ensures
        t.wf(),
        t.leaf_count() == elems@.len(),
        t.leaves() == elems@,
        t.spec_weight() == wsum(elems@),
        size_balanced(t, elems@.len() as int),
{
    let n = elems.len() as u32;
    let (d, p) = floor_log2(n);
    proof {
        lemma_pow2_pos(d as nat);
        lemma_pow2_unfold((d + 1) as nat);
    }
    let rem = n - p;
    proof {
        lemma2_to64();
        // the whole input is consumed: the count over all 2^d slots is rem
        vstd::arithmetic::mul::lemma_mul_basics(pow2(d as nat) as int);
        assert(0 * pow2(d as nat) == 0 && (0 + 1) * pow2(d as nat) == pow2(d as nat));
        lemma_count_aligned(d as nat, rem as nat, d as nat, 0);
        assert(spec_reverse_bits(0, 0) == 0);
        if rem > 0 {
            vstd::arithmetic::div_mod::lemma_div_multiples_vanish_fancy(rem as int, 0, 1);
        }
        assert(clamp_ceil(rem as int, 1) == rem);
        assert(consumed(d as nat, rem as nat, 0, d as nat) == elems@.len());
        vstd::arithmetic::div_mod::lemma_small_mod(0, pow2(d as nat));
        assert(0 as nat % pow2(d as nat) == 0);
    }
    let (tree, _, _) = build_go(d, 0, &elems, 0, d, rem);
    proof {
        assert(elems@.subrange(0, elems@.len() as int) =~= elems@);
    }
    tree
}

} // verus!
