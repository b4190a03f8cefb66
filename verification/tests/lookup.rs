use duration_unit_lookup::aho::Searcher;
use duration_unit_lookup::by_gendfa1;
use duration_unit_lookup::by_trie3;
use duration_unit_lookup::by_trie5;
use duration_unit_lookup::by_trie3::DesignatorTrie;
use duration_unit_lookup::designator::{
    designator_end, designator_needles, is_valid_designator_byte, prefix_outcome, run_outcome,
    LookupError,
};
use duration_unit_lookup::needles::TrieNeedles;
use duration_unit_lookup::gendfa1;
use duration_unit_lookup::one_big_match;
use duration_unit_lookup::one_big_match_prefix;
use duration_unit_lookup::one_big_match_prefix_gen;
use duration_unit_lookup::trie3::{Trie, TrieError};
use duration_unit_lookup::Unit;

#[test]
fn size() {
    println!("{}", std::mem::size_of::<DesignatorTrie>());
}

#[test]
fn units_are_ordered_by_magnitude() {
    let ascending = [
        Unit::Nanosecond,
        Unit::Microsecond,
        Unit::Millisecond,
        Unit::Second,
        Unit::Minute,
        Unit::Hour,
        Unit::Day,
        Unit::Week,
        Unit::Month,
        Unit::Year,
    ];
    for pair in ascending.windows(2) {
        assert!(pair[0] < pair[1]);
    }
    assert_eq!(Unit::Year as u8, 9);
    assert_eq!(Unit::Second as u8, 3);
    assert_eq!(Unit::Nanosecond as u8, 0);
}

#[test]
fn designators_fit_the_trie() {
    assert_eq!(designator_needles().len(), 56);
    assert_eq!(by_trie3::NODE_CAPACITY, 99);
    let needles = designator_needles();
    assert!(Trie::new(&needles, 99).is_ok());
    assert_eq!(Trie::new(&needles, 98).err(), Some(TrieError::CapacityExceeded));
}

#[test]
fn by_trie3_finds_the_longest_designator() {
    assert_eq!(by_trie3::lookup(b"y 5 months"), Ok((Unit::Year, &b" 5 months"[..])));
    assert_eq!(by_trie3::lookup(b"years"), Ok((Unit::Year, &b""[..])));
    assert_eq!(by_trie3::lookup(b"yearsx"), Ok((Unit::Year, &b"x"[..])));
    assert_eq!(by_trie3::lookup(b"yea"), Ok((Unit::Year, &b"ea"[..])));
    assert_eq!(by_trie3::lookup(b"mos"), Ok((Unit::Month, &b""[..])));
    assert_eq!(by_trie3::lookup(b"minutes, 5s"), Ok((Unit::Minute, &b", 5s"[..])));
    assert_eq!(by_trie3::lookup(b"millisecondsago"), Ok((Unit::Millisecond, &b"ago"[..])));
    assert_eq!(by_trie3::lookup(b"milliseco"), Ok((Unit::Millisecond, &b"eco"[..])));
    assert_eq!(by_trie3::lookup(b"millx"), Ok((Unit::Minute, &b"illx"[..])));
    assert_eq!(by_trie3::lookup("µs".as_bytes()), Ok((Unit::Microsecond, &b""[..])));
    assert_eq!(by_trie3::lookup("µsecs1".as_bytes()), Ok((Unit::Microsecond, &b"1"[..])));
    assert_eq!(by_trie3::lookup(b"ns"), Ok((Unit::Nanosecond, &b""[..])));
}

#[test]
fn by_trie3_tells_empty_input_from_unrecognized_input() {
    assert_eq!(by_trie3::lookup(b""), Err(LookupError::EndOfInput));
    assert_eq!(by_trie3::lookup(b"xyz"), Err(LookupError::Unrecognized { found: b"xyz" }));
    assert_eq!(by_trie3::lookup(b" s"), Err(LookupError::Unrecognized { found: b" s" }));
    assert_eq!(by_trie3::lookup(b"\xc2"), Err(LookupError::Unrecognized { found: b"\xc2" }));
    assert_eq!(by_trie3::lookup(b"\xff\xfe"), Err(LookupError::Unrecognized { found: b"\xff\xfe" }));
}

#[test]
fn by_trie3_lookup_with_a_trie_built_once() {
    let trie = by_trie3::designator_trie();
    assert_eq!(by_trie3::lookup_with(&trie, b"hrs"), Ok((Unit::Hour, &b""[..])));
    assert_eq!(by_trie3::lookup_with(&trie, b"hours!"), Ok((Unit::Hour, &b"!"[..])));
    assert_eq!(by_trie3::lookup_with(&trie, b""), Err(LookupError::EndOfInput));
}

#[test]
fn one_big_match_prefix_agrees_with_the_trie() {
    let inputs: [&[u8]; 12] = [
        b"y 5 months",
        b"years",
        b"yea",
        b"minutes, 5s",
        b"milliseco",
        b"\xc2\xb5secs1",
        b"\xc2\xb5",
        b"",
        b"xyz",
        b"wks",
        b"d",
        b"nanosecondss",
    ];
    for input in inputs {
        assert_eq!(one_big_match_prefix::lookup(input), by_trie3::lookup(input));
    }
    assert_eq!(one_big_match_prefix_gen::find(b"secs,5min"), Some((Unit::Second, 4)));
    assert_eq!(one_big_match_prefix_gen::find(b"min "), Some((Unit::Minute, 3)));
    assert_eq!(one_big_match_prefix_gen::find(b""), None);
    assert_eq!(one_big_match_prefix_gen::find(b"xyz"), None);
}

#[test]
fn one_big_match_takes_the_whole_run() {
    assert_eq!(one_big_match::lookup(b"y 5 months"), Ok((Unit::Year, &b" 5 months"[..])));
    assert_eq!(one_big_match::lookup(b"years"), Ok((Unit::Year, &b""[..])));
    assert_eq!(one_big_match::lookup(b"secs,5min"), Ok((Unit::Second, &b",5min"[..])));
    assert_eq!(one_big_match::lookup("µsec 1".as_bytes()), Ok((Unit::Microsecond, &b" 1"[..])));
    // The run is "yearsx", which is no designator, though it starts with one.
    assert_eq!(
        one_big_match::lookup(b"yearsx 1"),
        Err(LookupError::Unrecognized { found: b"yearsx" })
    );
    assert_eq!(one_big_match::lookup(b"yea"), Err(LookupError::Unrecognized { found: b"yea" }));
    assert_eq!(
        one_big_match::lookup(b"\xc2\xc2"),
        Err(LookupError::Unrecognized { found: b"\xc2\xc2" })
    );
}

#[test]
fn one_big_match_tells_empty_input_from_unrecognized_input() {
    assert_eq!(one_big_match::lookup(b""), Err(LookupError::EndOfInput));
    assert_eq!(
        one_big_match::lookup(b" years"),
        Err(LookupError::Unrecognized { found: b" years" })
    );
    assert_eq!(one_big_match::lookup(b"5s"), Err(LookupError::Unrecognized { found: b"5s" }));
    assert_eq!(
        one_big_match::lookup(b"Years"),
        Err(LookupError::Unrecognized { found: b"Years" })
    );
    assert_eq!(one_big_match::lookup(b"x 1"), Err(LookupError::Unrecognized { found: b"x" }));
}

#[test]
fn designator_bytes() {
    assert!(is_valid_designator_byte(b'a'));
    assert!(is_valid_designator_byte(b'z'));
    assert!(is_valid_designator_byte(0xc2));
    assert!(is_valid_designator_byte(0xb5));
    assert!(!is_valid_designator_byte(b'`'));
    assert!(!is_valid_designator_byte(b'{'));
    assert!(!is_valid_designator_byte(b'A'));
    assert!(!is_valid_designator_byte(b' '));
    assert!(!is_valid_designator_byte(0xb4));
    assert!(!is_valid_designator_byte(0xc3));
    assert_eq!(designator_end(b""), 0);
    assert_eq!(designator_end(b"abc"), 3);
    assert_eq!(designator_end(b"ab c"), 2);
    assert_eq!(designator_end(b" abc"), 0);
    assert_eq!(designator_end(b"a\xc2\xb5z0"), 4);
}

#[test]
fn outcomes() {
    assert_eq!(prefix_outcome(b"abc", Some((Unit::Day, 1))), Ok((Unit::Day, &b"bc"[..])));
    assert_eq!(prefix_outcome(b"abc", Some((Unit::Day, 3))), Ok((Unit::Day, &b""[..])));
    assert_eq!(prefix_outcome(b"abc", Some((Unit::Day, 0))), Ok((Unit::Day, &b"abc"[..])));
    assert_eq!(prefix_outcome(b"abc", None), Err(LookupError::Unrecognized { found: b"abc" }));
    assert_eq!(prefix_outcome(b"", None), Err(LookupError::EndOfInput));
    assert_eq!(run_outcome(b"abc", 2, Some(Unit::Week)), Ok((Unit::Week, &b"c"[..])));
    assert_eq!(run_outcome(b"abc", 2, None), Err(LookupError::Unrecognized { found: b"ab" }));
    assert_eq!(run_outcome(b"abc", 0, None), Err(LookupError::Unrecognized { found: b"abc" }));
    assert_eq!(
        run_outcome(b"abc", 0, Some(Unit::Week)),
        Err(LookupError::Unrecognized { found: b"abc" })
    );
    assert_eq!(run_outcome(b"", 0, None), Err(LookupError::EndOfInput));
}

#[test]
fn aho_agrees_with_the_trie() {
    let inputs: [&[u8]; 14] = [
        b"y 5 months",
        b"years",
        b"yea",
        b"minutes, 5s",
        b"milliseco",
        b"\xc2\xb5secs1",
        b"\xc2\xb5",
        b"\xc2",
        b"",
        b"xyz",
        b"wks",
        b"d",
        b"nanosecondss",
        b" s",
    ];
    for input in inputs {
        assert_eq!(duration_unit_lookup::aho::lookup(input), by_trie3::lookup(input));
    }
}

#[test]
fn aho_searcher_finds_the_longest_needle() {
    let needles: TrieNeedles<Unit> = TrieNeedles::new(&[
        ("s", Unit::Second),
        ("sec", Unit::Second),
        ("secs", Unit::Second),
        ("min", Unit::Minute),
        ("m", Unit::Month),
    ]);
    let searcher = Searcher::new(needles).unwrap();
    assert_eq!(searcher.find(b"secs,5min"), Some((Unit::Second, 4)));
    assert_eq!(searcher.find(b"sec"), Some((Unit::Second, 3)));
    assert_eq!(searcher.find(b"se"), Some((Unit::Second, 1)));
    assert_eq!(searcher.find(b"min "), Some((Unit::Minute, 3)));
    assert_eq!(searcher.find(b"mi"), Some((Unit::Month, 1)));
    assert_eq!(searcher.find(b"xs"), None);
    assert_eq!(searcher.find(b""), None);
    assert_eq!(
        duration_unit_lookup::aho::lookup_with(&searcher, b"mins"),
        Ok((Unit::Minute, &b"s"[..]))
    );
}

#[test]
fn aho_searcher_refuses_repeated_needles() {
    let needles: TrieNeedles<Unit> =
        TrieNeedles::new(&[("s", Unit::Second), ("m", Unit::Minute), ("s", Unit::Month)]);
    assert!(needles.has_repeats());
    assert!(Searcher::new(needles).is_none());
    let needles: TrieNeedles<Unit> = TrieNeedles::new(&[("s", Unit::Second), ("m", Unit::Minute)]);
    assert!(!needles.has_repeats());
    assert!(Searcher::new(needles).is_some());
}

#[test]
fn by_gendfa1_agrees_with_the_trie() {
    let inputs: [&[u8]; 20] = [
        b"y 5 months",
        b"years",
        b"yea",
        b"da",
        b"dx",
        b"dxy",
        b"se!",
        b"minutes, 5s",
        b"milliseco",
        b"millisecondsago",
        b"\xc2\xb5secs1",
        b"\xc2\xb5",
        b"\xc2",
        b"",
        b"xyz",
        b"wks",
        b"d",
        b"nanosecondss",
        b"nanoseconds",
        b" s",
    ];
    for input in inputs {
        assert_eq!(by_gendfa1::lookup(input), by_trie3::lookup(input));
    }
    let needles = designator_needles();
    for index in 0..needles.len() {
        let label = needles.label(index);
        assert_eq!(gendfa1::find(label), Some((needles.value(index), label.len())));
        for cut in 0..label.len() {
            assert_eq!(gendfa1::find(&label[..cut]), needles.find_longest(&label[..cut]));
        }
        for trailing in [b'!', b' ', b'a', b's', b'z', 0xff, 0x00] {
            let mut input = label.to_vec();
            input.push(trailing);
            assert_eq!(gendfa1::find(&input), needles.find_longest(&input));
        }
    }
}

#[test]
fn gendfa1_walks_state_by_state() {
    // nothing -m-> "m" -i-> "mi" -n-> "min"
    let m = gendfa1::step(0, b'm').unwrap();
    let mi = gendfa1::step(m, b'i').unwrap();
    let min = gendfa1::step(mi, b'n').unwrap();
    assert_eq!(gendfa1::step(0, b'x'), None);
    assert_eq!(gendfa1::step(m, b'x'), None);
    assert_eq!(gendfa1::best(0), None);
    assert_eq!(gendfa1::best(m), Some((Unit::Minute, 1)));
    assert_eq!(gendfa1::best(mi), Some((Unit::Minute, 1)));
    assert_eq!(gendfa1::best(min), Some((Unit::Minute, 3)));
    for sid in 0..gendfa1::STATES {
        for byte in 0..=255u8 {
            if let Some(next) = gendfa1::step(sid, byte) {
                assert!(sid < next && next < gendfa1::STATES);
            }
        }
    }
}

#[test]
fn every_designator_is_found_by_every_lookup() {
    let needles = designator_needles();
    let trie = by_trie3::designator_trie();
    let searcher = Searcher::new(designator_needles()).unwrap();
    for index in 0..needles.len() {
        let label = needles.label(index);
        let unit = needles.value(index);
        let mut input = label.to_vec();
        input.extend_from_slice(b" 5");
        let rest = &input[label.len()..];
        assert_eq!(by_trie3::lookup_with(&trie, &input), Ok((unit, rest)));
        assert_eq!(duration_unit_lookup::aho::lookup_with(&searcher, &input), Ok((unit, rest)));
        assert_eq!(by_gendfa1::lookup(&input), Ok((unit, rest)));
        assert_eq!(one_big_match_prefix::lookup(&input), Ok((unit, rest)));
        assert_eq!(one_big_match::lookup(&input), Ok((unit, rest)));
        assert_eq!(by_trie5::lookup(&input), Ok((unit, rest)));
        assert_eq!(needles.find_exact(label), Some(unit));
    }
}

#[test]
fn the_lookups_by_prefix_agree_on_short_inputs() {
    let bytes = [b'm', b'i', b'n', b's', b'e', b'c', b'o', b' ', 0xc2, 0xb5];
    let trie = by_trie3::designator_trie();
    let searcher = Searcher::new(designator_needles()).unwrap();
    let needles = designator_needles();
    let mut inputs: Vec<Vec<u8>> = vec![Vec::new()];
    let mut from = 0;
    for _ in 0..4 {
        let upto = inputs.len();
        for at in from..upto {
            for byte in bytes {
                let mut longer = inputs[at].clone();
                longer.push(byte);
                inputs.push(longer);
            }
        }
        from = upto;
    }
    assert_eq!(inputs.len(), 11111);
    for input in &inputs {
        let expected = prefix_outcome(input, needles.find_longest(input));
        assert_eq!(by_trie3::lookup_with(&trie, input), expected);
        assert_eq!(duration_unit_lookup::aho::lookup_with(&searcher, input), expected);
        assert_eq!(by_gendfa1::lookup(input), expected);
    }
}

#[test]
fn by_trie5_takes_the_whole_run() {
    assert_eq!(by_trie5::lookup(b"y 5 months"), Ok((Unit::Year, &b" 5 months"[..])));
    assert_eq!(by_trie5::lookup(b"secs,5min"), Ok((Unit::Second, &b",5min"[..])));
    assert_eq!(by_trie5::lookup("µs".as_bytes()), Ok((Unit::Microsecond, &b""[..])));
    assert_eq!(by_trie5::lookup(b"yearsx 1"), Err(LookupError::Unrecognized { found: b"yearsx" }));
    assert_eq!(by_trie5::lookup(b"yea"), Err(LookupError::Unrecognized { found: b"yea" }));
    assert_eq!(by_trie5::lookup(b" s"), Err(LookupError::Unrecognized { found: b" s" }));
    assert_eq!(by_trie5::lookup(b""), Err(LookupError::EndOfInput));
    assert_eq!(by_trie5::NODE_CAPACITY, 99);
}

#[test]
fn the_lookups_by_run_agree_on_short_inputs() {
    let bytes = [b'm', b'i', b'n', b's', b'e', b'c', b'o', b' ', 0xc2, 0xb5];
    let trie = by_trie5::designator_trie();
    let mut inputs: Vec<Vec<u8>> = vec![Vec::new()];
    let mut from = 0;
    for _ in 0..4 {
        let upto = inputs.len();
        for at in from..upto {
            for byte in bytes {
                let mut longer = inputs[at].clone();
                longer.push(byte);
                inputs.push(longer);
            }
        }
        from = upto;
    }
    for input in &inputs {
        assert_eq!(by_trie5::lookup_with(&trie, input), one_big_match::lookup(input));
    }
}
