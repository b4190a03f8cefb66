use duration_unit_lookup::trie5::{Trie, TrieError, TrieNeedles};

#[test]
fn trie5_empty() {
    let needles: TrieNeedles<char> = TrieNeedles::new(&[("", 'z')]);
    let trie = Trie::new(&needles, needles.transition_len(2), '\0').unwrap();

    assert_eq!(trie.find(b""), Some('z'));
}

#[test]
fn trie5_fubar() {
    let needles: TrieNeedles<char> =
        TrieNeedles::new(&[("foo", 'a'), ("bar", 'b'), ("quux", 'c')]);
    let trie = Trie::new(&needles, needles.transition_len(12), '\0').unwrap();

    assert_eq!(trie.find(b""), None);
    assert_eq!(trie.find(b"fo"), None);
    assert_eq!(trie.find(b"foo"), Some('a'));
    assert_eq!(trie.find(b"quux"), Some('c'));
    assert_eq!(trie.find(b"fooquux"), None);
}

#[test]
fn trie5_aaa() {
    let needles: TrieNeedles<char> =
        TrieNeedles::new(&[("a", 'a'), ("aa", 'b'), ("aaa", 'c')]);
    let trie = Trie::new(&needles, needles.transition_len(12), '\0').unwrap();

    assert_eq!(trie.find(b""), None);
    assert_eq!(trie.find(b"a"), Some('a'));
    assert_eq!(trie.find(b"aa"), Some('b'));
    assert_eq!(trie.find(b"aaa"), Some('c'));
    assert_eq!(trie.find(b"aaaa"), None);
}

#[test]
fn trie5_sizes() {
    let needles: TrieNeedles<char> =
        TrieNeedles::new(&[("foo", 'a'), ("bar", 'b'), ("quux", 'c')]);
    // f, o, b, a, r, q, u, x and the class of all other bytes
    assert_eq!(needles.len(), 3);
    assert_eq!(needles.alphabet_len(), 9);
    assert_eq!(needles.transition_len(12), 108);
}

#[test]
fn trie5_duplicate_needle_is_rejected() {
    let needles: TrieNeedles<u8> = TrieNeedles::new(&[("sec", 1), ("min", 2), ("sec", 3)]);
    assert_eq!(
        Trie::new(&needles, needles.transition_len(12), 0).err(),
        Some(TrieError::DuplicateNeedle)
    );
}

#[test]
fn trie5_capacity_is_exact() {
    let needles: TrieNeedles<char> =
        TrieNeedles::new(&[("foo", 'a'), ("bar", 'b'), ("quux", 'c')]);
    assert!(Trie::new(&needles, 108, '\0').is_ok());
    // one slot short of twelve rows
    assert_eq!(Trie::new(&needles, 107, '\0').err(), Some(TrieError::CapacityExceeded));
    assert_eq!(Trie::new(&needles, 0, '\0').err(), Some(TrieError::CapacityExceeded));
    assert_eq!(Trie::new(&needles, 17, '\0').err(), Some(TrieError::CapacityExceeded));
    assert!(Trie::new(&needles, 65535, '\0').is_ok());
    assert_eq!(Trie::new(&needles, 65536, '\0').err(), Some(TrieError::CapacityExceeded));
}

#[test]
fn trie5_only_whole_labels_match() {
    let needles: TrieNeedles<u8> =
        TrieNeedles::new(&[("s", 1), ("sec", 2), ("secs", 3), ("second", 4), ("min", 5)]);
    let trie = Trie::new(&needles, needles.transition_len(32), 0).unwrap();

    assert_eq!(trie.find(b"s"), Some(1));
    assert_eq!(trie.find(b"sec"), Some(2));
    assert_eq!(trie.find(b"secs"), Some(3));
    assert_eq!(trie.find(b"second"), Some(4));
    assert_eq!(trie.find(b"min"), Some(5));
    assert_eq!(trie.find(b"se"), None);
    assert_eq!(trie.find(b"sec!"), None);
    assert_eq!(trie.find(b"secs,5min"), None);
    assert_eq!(trie.find(b"seconds"), None);
    assert_eq!(trie.find(b"xyz"), None);
    assert_eq!(trie.find(b"x"), None);
    assert_eq!(trie.find(b"xsec"), None);
    assert_eq!(trie.find(b""), None);
}

#[test]
fn trie5_table_layout() {
    let needles: TrieNeedles<char> = TrieNeedles::new(&[("a", 'x'), ("b", 'y')]);
    // Classes: other 0, 'a' 1, 'b' 2. The nodes of "a" and "b" accept and come
    // first, in rows 1 and 2; the root follows in row 3.
    assert_eq!(needles.alphabet_len(), 3);
    let trie = Trie::new(&needles, needles.transition_len(5), '-').unwrap();
    assert_eq!(trie.root_id(), 9);
    assert_eq!(trie.max_match_id(), 6);
    assert_eq!(trie.transition_slots(), &[0, 0, 0, 0, 0, 0, 0, 0, 0, 0, 3, 6, 0, 0, 0]);
    assert_eq!(
        trie.match_slots(),
        &['-', '-', '-', 'x', '-', '-', 'y', '-', '-', '-', '-', '-', '-', '-', '-']
    );
}

#[test]
fn trie5_accepting_nodes_come_first_in_the_order_of_their_making() {
    // Made in the order: root, "s", "se", "sec" (accepts), "m" (accepts), "mi",
    // "min" (accepts). Classes: other 0, c 1, e 2, i 3, m 4, n 5, s 6.
    let needles: TrieNeedles<u8> = TrieNeedles::new(&[("sec", 1), ("m", 2), ("min", 3)]);
    let trie = Trie::new(&needles, needles.transition_len(8), 0).unwrap();
    // New rows: "sec" 1, "m" 2, "min" 3, root 4, "s" 5, "se" 6, "mi" 7.
    assert_eq!(trie.root_id(), 4 * 7);
    assert_eq!(trie.max_match_id(), 3 * 7);
    let slots = trie.transition_slots();
    assert_eq!(slots.len(), 56);
    assert_eq!(slots[4 * 7 + 6], 5 * 7); // root -s-> "s"
    assert_eq!(slots[4 * 7 + 4], 2 * 7); // root -m-> "m"
    assert_eq!(slots[5 * 7 + 2], 6 * 7); // "s" -e-> "se"
    assert_eq!(slots[6 * 7 + 1], 1 * 7); // "se" -c-> "sec"
    assert_eq!(slots[2 * 7 + 3], 7 * 7); // "m" -i-> "mi"
    assert_eq!(slots[7 * 7 + 5], 3 * 7); // "mi" -n-> "min"
    assert_eq!(slots.iter().filter(|&&id| id != 0).count(), 6);
    let matches = trie.match_slots();
    assert_eq!(matches[7], 1);
    assert_eq!(matches[14], 2);
    assert_eq!(matches[21], 3);
    assert_eq!(matches.iter().filter(|&&value| value != 0).count(), 3);
}

#[test]
fn trie5_is_built_the_same_way_every_time() {
    let needles: TrieNeedles<u8> =
        TrieNeedles::new(&[("s", 1), ("sec", 2), ("secs", 3), ("second", 4), ("min", 5)]);
    let first = Trie::new(&needles, needles.transition_len(32), 0).unwrap();
    let second = Trie::new(&needles, needles.transition_len(32), 0).unwrap();
    assert_eq!(first.transition_slots(), second.transition_slots());
    assert_eq!(first.match_slots(), second.match_slots());
    assert_eq!(first.root_id(), second.root_id());
    assert_eq!(first.max_match_id(), second.max_match_id());
}

#[test]
fn trie5_end_to_end() {
    let needles: TrieNeedles<u8> =
        TrieNeedles::new(&[("s", 3), ("sec", 3), ("secs", 3), ("min", 4)]);
    let trie = Trie::new(&needles, needles.transition_len(16), 0).unwrap();
    assert_eq!(trie.find(b"secs"), Some(3));
    assert_eq!(trie.find(b"min"), Some(4));
    assert_eq!(trie.find(b"secs,5min"), None);
    assert_eq!(trie.find(b"min "), None);
    assert_eq!(trie.find(b""), None);
    assert_eq!(trie.find(b"xyz"), None);
}
