use duration_unit_lookup::trie3::{Trie, TrieError, TrieNeedles};

#[test]
fn trie3_empty() {
    let needles: TrieNeedles<char> = TrieNeedles::new(&[("", 'z')]);
    let trie = Trie::new(&needles, 2).unwrap();

    assert_eq!(trie.find(b""), Some(('z', 0)));
}

#[test]
fn trie3_fubar() {
    let needles: TrieNeedles<char> =
        TrieNeedles::new(&[("foo", 'a'), ("bar", 'b'), ("quux", 'c')]);
    let trie = Trie::new(&needles, 12).unwrap();

    assert_eq!(trie.find(b""), None);
    assert_eq!(trie.find(b"fo"), None);
    assert_eq!(trie.find(b"foo"), Some(('a', 3)));
    assert_eq!(trie.find(b"fooquux"), Some(('a', 3)));
}

#[test]
fn trie3_aaa() {
    let needles: TrieNeedles<char> =
        TrieNeedles::new(&[("a", 'a'), ("aa", 'b'), ("aaa", 'c')]);
    let trie = Trie::new(&needles, 12).unwrap();

    assert_eq!(trie.find(b""), None);
    assert_eq!(trie.find(b"a"), Some(('a', 1)));
    assert_eq!(trie.find(b"aa"), Some(('b', 2)));
    assert_eq!(trie.find(b"aaa"), Some(('c', 3)));
    assert_eq!(trie.find(b"aaaa"), Some(('c', 3)));
}

#[test]
fn trie3_duplicate_needle_is_rejected() {
    let needles: TrieNeedles<u8> = TrieNeedles::new(&[("sec", 1), ("min", 2), ("sec", 3)]);
    assert_eq!(Trie::new(&needles, 12).err(), Some(TrieError::DuplicateNeedle));
}

#[test]
fn trie3_capacity_is_exact() {
    // "foo", "bar" and "quux" have ten prefixes besides the empty one.
    let needles: TrieNeedles<char> =
        TrieNeedles::new(&[("foo", 'a'), ("bar", 'b'), ("quux", 'c')]);
    assert!(Trie::new(&needles, 12).is_ok());
    assert_eq!(Trie::new(&needles, 11).err(), Some(TrieError::CapacityExceeded));
    assert_eq!(Trie::new(&needles, 1).err(), Some(TrieError::CapacityExceeded));
    assert_eq!(Trie::new(&needles, 255).err(), None);
    assert_eq!(Trie::new(&needles, 256).err(), Some(TrieError::CapacityExceeded));
}

#[test]
fn trie3_first_failing_label_decides_the_error() {
    // The repeat comes before the label that would not fit.
    let needles: TrieNeedles<u8> = TrieNeedles::new(&[("ab", 1), ("ab", 2), ("cdefgh", 3)]);
    assert_eq!(Trie::new(&needles, 4).err(), Some(TrieError::DuplicateNeedle));
    // The label that does not fit comes before the repeat.
    let needles: TrieNeedles<u8> = TrieNeedles::new(&[("ab", 1), ("cdefgh", 3), ("ab", 2)]);
    assert_eq!(Trie::new(&needles, 4).err(), Some(TrieError::CapacityExceeded));
    // Room for the labels before the repeat is all that the repeat needs.
    let needles: TrieNeedles<u8> = TrieNeedles::new(&[("ab", 1), ("ab", 2)]);
    assert_eq!(Trie::new(&needles, 4).err(), Some(TrieError::DuplicateNeedle));
    assert_eq!(Trie::new(&needles, 3).err(), Some(TrieError::CapacityExceeded));
}

#[test]
fn trie3_longest_label_wins() {
    let needles: TrieNeedles<u8> =
        TrieNeedles::new(&[("s", 1), ("sec", 2), ("secs", 3), ("second", 4), ("min", 5)]);
    let trie = Trie::new(&needles, 32).unwrap();

    assert_eq!(trie.find(b"second"), Some((4, 6)));
    assert_eq!(trie.find(b"sec!"), Some((2, 3)));
    assert_eq!(trie.find(b"secs,5min"), Some((3, 4)));
    assert_eq!(trie.find(b"seco"), Some((2, 3)));
    assert_eq!(trie.find(b"min "), Some((5, 3)));
    assert_eq!(trie.find(b"mi"), None);
    assert_eq!(trie.find(b""), None);
    assert_eq!(trie.find(b"xyz"), None);
    assert_eq!(trie.find(b"\xffsec"), None);
}

#[test]
fn trie3_without_needles_finds_nothing() {
    let needles: TrieNeedles<u8> = TrieNeedles::new(&[]);
    assert_eq!(needles.len(), 0);
    assert_eq!(needles.alphabet_len(), 1);
    let trie = Trie::new(&needles, 2).unwrap();
    assert_eq!(trie.find(b""), None);
    assert_eq!(trie.find(b"a"), None);
}

#[test]
fn trie3_end_to_end() {
    let needles: TrieNeedles<u8> =
        TrieNeedles::new(&[("s", 3), ("sec", 3), ("secs", 3), ("min", 4)]);
    let trie = Trie::new(&needles, 16).unwrap();
    assert_eq!(trie.find(b"secs,5min"), Some((3, 4)));
    assert_eq!(trie.find(b"min "), Some((4, 3)));
    assert_eq!(trie.find(b""), None);
    assert_eq!(trie.find(b"xyz"), None);
}

#[test]
fn trie3_every_label_is_found_before_any_trailing_bytes() {
    let table: &[(&str, u8)] =
        &[("years", 1), ("yrs", 2), ("months", 3), ("mos", 4), ("µs", 5), ("ns", 6)];
    let needles: TrieNeedles<u8> = TrieNeedles::new(&[
        ("years", 1),
        ("yrs", 2),
        ("months", 3),
        ("mos", 4),
        ("µs", 5),
        ("ns", 6),
    ]);
    let trie = Trie::new(&needles, 64).unwrap();
    for &(label, value) in table {
        for trailing in ["", " ", "1", "!!", "\u{7f}", "Z"] {
            let input = format!("{label}{trailing}");
            assert_eq!(trie.find(input.as_bytes()), Some((value, label.len())));
        }
    }
}
