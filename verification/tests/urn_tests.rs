//! Unit tests: the bit-reversal helper, the worked sampling example, and
//! the agreement of the two constructors.

use urn::urn::{from_list, from_list_naive, leaf, node};

#[test]
fn test_reverse_bits() {
    // Case `|n| < |x|` : n=3, x=14 (0b1110) -> 0b111
    // Leftmost 1 in `0b1110` is ignored
    assert_eq!(urn::almost_perfect::reverse_bits(3, 0b1110), 0b011);

    // Case `|n| = |x|` : n=4, x=12 (0b1100) -> 0b0011
    // Reverses the entire binary representation of `x`
    assert_eq!(urn::almost_perfect::reverse_bits(4, 0b1100), 0b0011);

    // Case `|n| > |x|` : n=5, x=3 (0b11) -> 0b11000
    // `reverse_bits` adds trailing zeroes in this case
    assert_eq!(urn::almost_perfect::reverse_bits(5, 0b11), 0b11000);

    // Case `x = 0` : n=3, x=0 (0b000) -> 0b000
    // Ensures that 000 is handled correctly
    assert_eq!(urn::almost_perfect::reverse_bits(3, 0b000), 0b000);

    // Case `|n| = |x| = 1`: n=1, x=1 (0b1) -> 0b1
    // Reversing one bit does nothing
    assert_eq!(urn::almost_perfect::reverse_bits(1, 0b1), 0b1);
}

/// Example from the canonical worked sampling example
#[test]
fn lib_sample_example() {
    let tree = node(
        21,
        node(
            9,
            node(5, leaf(4, 'a'), leaf(1, 'b')),
            node(4, leaf(2, 'c'), leaf(2, 'd')),
        ),
        node(
            12,
            node(7, leaf(2, 'e'), leaf(5, 'f')),
            node(5, leaf(3, 'g'), leaf(2, 'h')),
        ),
    );
    let expected = 'f';
    let actual = tree.sample_index(12);
    assert_eq!(expected, actual);
}

/// The same worked example, through the tree's index-based sampler
#[test]
fn urn_sample_example() {
    let tree = node(
        21,
        node(
            9,
            node(5, leaf(4, 'a'), leaf(1, 'b')),
            node(4, leaf(2, 'c'), leaf(2, 'd')),
        ),
        node(
            12,
            node(7, leaf(2, 'e'), leaf(5, 'f')),
            node(5, leaf(3, 'g'), leaf(2, 'h')),
        ),
    );
    let expected = 'f';
    let actual = tree.sample_index(12);
    assert_eq!(expected, actual);
}

#[test]
fn from_list_equiv_small() {
    let elems = vec![(2, 'R'), (4, 'G'), (3, 'B')];
    let naive_urn = from_list_naive(elems.clone()).unwrap();
    let urn = from_list(elems).unwrap();
    assert_eq!(naive_urn.size(), urn.size());
    assert_eq!(naive_urn.weight(), urn.weight());
}

#[test]
fn from_list_equiv_big() {
    let elems = vec![
        (1, 'a'),
        (2, 'b'),
        (3, 'c'),
        (4, 'd'),
        (5, 'e'),
        (6, 'f'),
        (7, 'g'),
        (8, 'h'),
    ];
    let naive_urn = from_list_naive(elems.clone()).unwrap();
    let urn = from_list(elems).unwrap();
    assert_eq!(naive_urn.size(), urn.size());
    assert_eq!(naive_urn.weight(), urn.weight());
}
