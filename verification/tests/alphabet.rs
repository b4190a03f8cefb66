use duration_unit_lookup::alphabet::TrieAlphabet;
use duration_unit_lookup::needles::{starts_with, TrieNeedles};

#[test]
fn alphabet_numbers_the_bytes_that_occur_in_ascending_order() {
    let needles: TrieNeedles<char> =
        TrieNeedles::new(&[("foo", 'a'), ("bar", 'b'), ("quux", 'c')]);
    let alphabet = TrieAlphabet::new(&needles);
    assert_eq!(alphabet.len(), 9);
    assert_eq!(alphabet.equiv_id(b'a'), 1);
    assert_eq!(alphabet.equiv_id(b'b'), 2);
    assert_eq!(alphabet.equiv_id(b'f'), 3);
    assert_eq!(alphabet.equiv_id(b'o'), 4);
    assert_eq!(alphabet.equiv_id(b'q'), 5);
    assert_eq!(alphabet.equiv_id(b'r'), 6);
    assert_eq!(alphabet.equiv_id(b'u'), 7);
    assert_eq!(alphabet.equiv_id(b'x'), 8);
    for byte in 0..=255u8 {
        if !b"foobarquux".contains(&byte) {
            assert_eq!(alphabet.equiv_id(byte), 0);
        }
    }
}

#[test]
fn alphabet_keeps_label_bytes_out_of_class_zero() {
    let needles: TrieNeedles<u8> =
        TrieNeedles::new(&[("µs", 1), ("us", 2), ("\0", 3), ("\u{7f}z", 4), ("", 5)]);
    let alphabet = TrieAlphabet::new(&needles);
    let mut seen = [false; 256];
    for index in 0..needles.len() {
        for &byte in needles.label(index) {
            let id = alphabet.equiv_id(byte);
            assert_ne!(id, 0);
            assert!((id as usize) < alphabet.len());
            seen[byte as usize] = true;
        }
    }
    // 0x00, 0x73 's', 0x75 'u', 0x7a 'z', 0x7f, 0xb5, 0xc2
    assert_eq!(alphabet.len(), 8);
    assert_eq!(alphabet.equiv_id(0x00), 1);
    assert_eq!(alphabet.equiv_id(0xb5), 6);
    assert_eq!(alphabet.equiv_id(0xc2), 7);
    // Different bytes of the labels are in different classes.
    for a in 0..256 {
        for b in 0..a {
            if seen[a] && seen[b] {
                assert_ne!(alphabet.equiv_id(a as u8), alphabet.equiv_id(b as u8));
            }
        }
    }
    assert_eq!(needles.value(0), 1);
    assert_eq!(needles.label(0), "µs".as_bytes());
}

#[test]
fn alphabet_without_needles_has_one_class() {
    let needles: TrieNeedles<u8> = TrieNeedles::new(&[]);
    let alphabet = needles.alphabet();
    assert_eq!(alphabet.len(), 1);
    assert_eq!(needles.alphabet_len(), 1);
    assert_eq!(needles.transition_len(7), 7);
    for byte in 0..=255u8 {
        assert_eq!(alphabet.equiv_id(byte), 0);
    }
    let needles: TrieNeedles<u8> = TrieNeedles::new(&[("", 1)]);
    assert_eq!(needles.alphabet().len(), 1);
}

#[test]
fn needles_are_searched_one_by_one() {
    let needles: TrieNeedles<u8> =
        TrieNeedles::new(&[("s", 1), ("sec", 2), ("secs", 3), ("min", 4), ("sec", 5)]);
    assert_eq!(needles.find_exact(b"sec"), Some(2));
    assert_eq!(needles.find_exact(b"secs"), Some(3));
    assert_eq!(needles.find_exact(b"se"), None);
    assert_eq!(needles.find_exact(b""), None);
    assert_eq!(needles.find_longest(b"secs,5min"), Some((3, 4)));
    assert_eq!(needles.find_longest(b"sec!"), Some((2, 3)));
    assert_eq!(needles.find_longest(b"min "), Some((4, 3)));
    assert_eq!(needles.find_longest(b"xyz"), None);
    assert_eq!(needles.find_longest(b""), None);
    assert!(needles.has_repeats());
    let needles: TrieNeedles<u8> = TrieNeedles::new(&[("", 9), ("a", 1)]);
    assert_eq!(needles.find_longest(b""), Some((9, 0)));
    assert_eq!(needles.find_longest(b"b"), Some((9, 0)));
    assert_eq!(needles.find_longest(b"ab"), Some((1, 1)));
    assert_eq!(needles.find_exact(b""), Some(9));
}

#[test]
fn starts_with_compares_bytes() {
    assert!(starts_with(b"second", b"sec"));
    assert!(starts_with(b"sec", b"sec"));
    assert!(starts_with(b"sec", b""));
    assert!(starts_with(b"", b""));
    assert!(!starts_with(b"se", b"sec"));
    assert!(!starts_with(b"sfc", b"sec"));
    assert!(!starts_with(b"", b"s"));
}
