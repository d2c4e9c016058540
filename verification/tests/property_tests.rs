//! Concrete-value checks of the urn's laws and edge cases.

use urn::almost_perfect::reverse_bits;
use urn::urn::{from_list, from_list_naive, singleton};

/// The bit-reversal helper on the documented example values.
#[test]
fn reverse_bits_examples() {
    assert_eq!(reverse_bits(3, 0b110), 0b011);
    assert_eq!(reverse_bits(4, 0b1100), 0b0011);
    assert_eq!(reverse_bits(5, 0b011), 0b11000);
    assert_eq!(reverse_bits(3, 0), 0);
    assert_eq!(reverse_bits(1, 1), 1);
}

/// Both constructors yield "absent" on empty input, never a zero-size urn.
#[test]
fn from_list_empty_is_absent() {
    assert!(from_list::<char>(vec![]).is_none());
    assert!(from_list_naive::<char>(vec![]).is_none());
}

/// The bulk build example: both constructors agree on size 3 and weight 9.
#[test]
fn from_list_bulk_example() {
    let elems = vec![(2, 'R'), (4, 'G'), (3, 'B')];
    let bulk = from_list(elems.clone()).unwrap();
    let naive = from_list_naive(elems).unwrap();
    assert_eq!(bulk.size(), 3);
    assert_eq!(bulk.weight(), 9);
    assert_eq!(naive.size(), 3);
    assert_eq!(naive.weight(), 9);
}

/// Invariant preservation: urns from every constructor and mutator pass the
/// run-time well-formedness check.
#[test]
fn operations_preserve_wf() {
    let u = singleton(4, 'a');
    assert!(u.is_wf());

    let u = u.insert(1, 'b').insert(2, 'c').insert(2, 'd');
    assert!(u.is_wf());
    assert_eq!(u.size(), 4);
    assert_eq!(u.weight(), 9);

    let ((_, _), u) = u.replace_index(3, 'x', 0);
    assert!(u.is_wf());

    let ((_, _), _, u) = u.uninsert();
    let u = u.unwrap();
    assert!(u.is_wf());

    let ((_, _), u) = u.remove_index(1);
    let u = u.unwrap();
    assert!(u.is_wf());

    let big = from_list((1..=100).map(|i| (i, i)).collect()).unwrap();
    assert!(big.is_wf());
    let naive = from_list_naive((1..=100).map(|i| (i, i)).collect()).unwrap();
    assert!(naive.is_wf());
}

/// Size deltas: `insert` adds exactly one element, `uninsert` and `remove`
/// take exactly one away, and only an urn of size 1 vanishes.
#[test]
fn size_deltas() {
    let u = singleton(2, 'x');
    assert_eq!(u.size(), 1);
    let u = u.insert(5, 'y');
    assert_eq!(u.size(), 2);
    let (_, _, u) = u.uninsert();
    let u = u.unwrap();
    assert_eq!(u.size(), 1);
    let (pair, rest) = u.remove_index(0);
    assert_eq!(pair, (2, 'x'));
    assert!(rest.is_none());
}

/// Insert/uninsert inverse law on concrete values: `uninsert` returns the
/// pair that `insert` just added, and the urn it leaves is the original.
#[test]
fn insert_then_uninsert_roundtrip() {
    let elems = vec![(2, 'p'), (4, 'q'), (1, 'r'), (3, 's'), (5, 't')];
    let u = from_list(elems).unwrap();
    let (orig_size, orig_weight) = (u.size(), u.weight());
    let orig_samples: Vec<char> = (0..orig_weight).map(|i| u.sample_index(i)).collect();

    let u = u.insert(7, 'z');
    assert_eq!(u.size(), orig_size + 1);
    assert_eq!(u.weight(), orig_weight + 7);

    let ((w, a), _, rest) = u.uninsert();
    assert_eq!((w, a), (7, 'z'));
    let back = rest.unwrap();
    assert_eq!(back.size(), orig_size);
    assert_eq!(back.weight(), orig_weight);
    let back_samples: Vec<char> = (0..orig_weight).map(|i| back.sample_index(i)).collect();
    assert_eq!(orig_samples, back_samples);

    // structurally, the urn that comes back is the one that was inserted into
    let rebuilt = from_list(vec![(2, 'p'), (4, 'q'), (1, 'r'), (3, 's'), (5, 't')]).unwrap();
    assert_eq!(back, rebuilt);
}

/// Equal weights everywhere: both constructors still agree, and sampling
/// walks the elements in order, one index per unit of weight.
#[test]
fn equal_weights() {
    let elems: Vec<(u32, usize)> = (0..7).map(|i| (1, i)).collect();
    let bulk = from_list(elems.clone()).unwrap();
    let naive = from_list_naive(elems).unwrap();
    assert_eq!(bulk.size(), naive.size());
    assert_eq!(bulk.weight(), naive.weight());
    assert_eq!(bulk.weight(), 7);
    let mut seen: Vec<usize> = (0..7).map(|i| bulk.sample_index(i)).collect();
    seen.sort();
    assert_eq!(seen, (0..7).collect::<Vec<usize>>());
}

/// Weight arithmetic wraps at the type's width; the structure stays
/// well-formed when the total overflows.
#[test]
fn weights_wrap_on_overflow() {
    let u = singleton(u32::MAX, 'a').insert(1, 'b');
    assert_eq!(u.weight(), 0);
    assert_eq!(u.size(), 2);
    assert!(u.is_wf());
}

/// Replace preserves size: only the one addressed leaf changes.
#[test]
fn replace_preserves_size() {
    let u = from_list(vec![(2, 'R'), (4, 'G'), (3, 'B')]).unwrap();
    let ((old_w, old_a), u2) = u.replace_index(6, 'Y', 0);
    assert_eq!((old_w, old_a), (2, 'R'));
    assert_eq!(u2.size(), 3);
    assert_eq!(u2.weight(), 9 - 2 + 6);
    assert!(u2.is_wf());
    assert_eq!(u2.sample_index(0), 'Y');
}

/// Update rewrites the addressed leaf with the function's output and
/// returns both the old and the new pair.
#[test]
fn update_index_applies_function() {
    let u = from_list(vec![(3, 10u64), (5, 20u64)]).unwrap();
    let ((old_w, old_a), (new_w, new_a), u2) = u.update_index(|w, a| (w + 1, a + 1), 4);
    assert_eq!((old_w, old_a), (5, 20));
    assert_eq!((new_w, new_a), (6, 21));
    assert_eq!(u2.size(), 2);
    assert_eq!(u2.weight(), 9);
    assert!(u2.is_wf());
    assert_eq!(u2.sample_index(8), 21);
}

/// Remove by index: the three-way split returns the element whose bucket
/// holds the index and keeps the rest of the urn intact.
#[test]
fn remove_index_scenarios() {
    // removing the element that the last insertion added
    let u = singleton(2, 'a').insert(3, 'b');
    let ((w, a), rest) = u.remove_index(3);
    assert_eq!((w, a), (3, 'b'));
    let rest = rest.unwrap();
    assert_eq!(rest.size(), 1);
    assert_eq!(rest.weight(), 2);

    // removing an element before the detached bucket
    let u = singleton(2, 'a').insert(3, 'b');
    let ((w, a), rest) = u.remove_index(0);
    assert_eq!((w, a), (2, 'a'));
    let rest = rest.unwrap();
    assert_eq!(rest.size(), 1);
    assert_eq!(rest.weight(), 3);
    assert_eq!(rest.sample_index(0), 'b');
}

/// An element of weight 0 occupies an empty bucket and is never sampled by
/// an in-range index.
#[test]
fn zero_weight_bucket_is_skipped() {
    let u = from_list(vec![(0, 'a'), (3, 'b')]).unwrap();
    assert_eq!(u.weight(), 3);
    for i in 0..3 {
        assert_eq!(u.sample_index(i), 'b');
    }
}

/// The randomized draw covers the inclusive range `[0, weight]`; an index
/// equal to the total weight lands in the rightmost leaf, so the
/// index-based operations tolerate the boundary draw.
#[test]
fn sample_at_weight_boundary_hits_last_element() {
    let u = from_list(vec![(1, 'p'), (1, 'q')]).unwrap();
    assert_eq!(u.weight(), 2);
    assert_eq!(u.sample_index(2), 'q');
}

/// The randomized sampler always returns an element of the urn; on a
/// singleton it can only be that element.
#[test]
fn random_sample_returns_an_element() {
    let u = singleton(5, 'k');
    for _ in 0..10 {
        assert_eq!(u.sample(), 'k');
    }
    let u = from_list(vec![(1, 'x'), (2, 'y'), (3, 'z')]).unwrap();
    for _ in 0..50 {
        let s = u.sample();
        assert!(s == 'x' || s == 'y' || s == 'z');
    }
}

/// The randomized remove always hands back a one-smaller urn with the
/// removed weight taken out of the total.
#[test]
fn random_remove_decrements() {
    let u = from_list(vec![(1, 'x'), (2, 'y'), (3, 'z')]).unwrap();
    let ((w, _), rest) = u.remove();
    let rest = rest.unwrap();
    assert_eq!(rest.size(), 2);
    assert_eq!(rest.weight(), 6 - w);
    assert!(rest.is_wf());
}
