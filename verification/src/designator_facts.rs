//! What is known of the designators before any of them is looked up: the
//! bytes that they spell, that no two of them spell the same bytes, and that
//! their trie has room in the nodes set aside for it.

use vstd::prelude::*;
use vstd::string::StringSliceAdditionalSpecFns;
use vstd::utf8::encode_scalar;
use vstd::utf8::encode_utf8;
use vstd::utf8::is_ascii_chars;
use vstd::utf8::is_ascii_chars_encode_utf8;
use crate::designator::designators;
use crate::matching::no_repeats;
use crate::model::nodes_needed;
use crate::outcome::build_error;
use crate::outcome::lemma_build_succeeds;
use crate::outcome::lemma_nodes_needed_at_most;
use crate::outcome::shares;
use crate::Unit;

verus! {

/// The number of designators.
pub const DESIGNATORS: usize = 56;

/// The number of nodes that the trie of the designators has.
pub const DESIGNATOR_NODES: usize = 99;

/// The designators byte by byte, each with the unit that it names.
#[verifier::opaque]
pub open spec fn designator_bytes() -> Seq<(Seq<u8>, Unit)> {
    seq![
        (seq![0x79, 0x65, 0x61, 0x72, 0x73], Unit::Year),
        (seq![0x79, 0x65, 0x61, 0x72], Unit::Year),
        (seq![0x79, 0x72, 0x73], Unit::Year),
        (seq![0x79, 0x72], Unit::Year),
        (seq![0x79], Unit::Year),
        (seq![0x6d, 0x6f, 0x6e, 0x74, 0x68, 0x73], Unit::Month),
        (seq![0x6d, 0x6f, 0x6e, 0x74, 0x68], Unit::Month),
        (seq![0x6d, 0x6f, 0x73], Unit::Month),
        (seq![0x6d, 0x6f], Unit::Month),
        (seq![0x77, 0x65, 0x65, 0x6b, 0x73], Unit::Week),
        (seq![0x77, 0x65, 0x65, 0x6b], Unit::Week),
        (seq![0x77, 0x6b, 0x73], Unit::Week),
        (seq![0x77, 0x6b], Unit::Week),
        (seq![0x77], Unit::Week),
        (seq![0x64, 0x61, 0x79, 0x73], Unit::Day),
        (seq![0x64, 0x61, 0x79], Unit::Day),
        (seq![0x64], Unit::Day),
        (seq![0x68, 0x6f, 0x75, 0x72, 0x73], Unit::Hour),
        (seq![0x68, 0x6f, 0x75, 0x72], Unit::Hour),
        (seq![0x68, 0x72, 0x73], Unit::Hour),
        (seq![0x68, 0x72], Unit::Hour),
        (seq![0x68], Unit::Hour),
        (seq![0x6d, 0x69, 0x6e, 0x75, 0x74, 0x65, 0x73], Unit::Minute),
        (seq![0x6d, 0x69, 0x6e, 0x75, 0x74, 0x65], Unit::Minute),
        (seq![0x6d, 0x69, 0x6e, 0x73], Unit::Minute),
        (seq![0x6d, 0x69, 0x6e], Unit::Minute),
        (seq![0x6d], Unit::Minute),
        (seq![0x73, 0x65, 0x63, 0x6f, 0x6e, 0x64, 0x73], Unit::Second),
        (seq![0x73, 0x65, 0x63, 0x6f, 0x6e, 0x64], Unit::Second),
        (seq![0x73, 0x65, 0x63, 0x73], Unit::Second),
        (seq![0x73, 0x65, 0x63], Unit::Second),
        (seq![0x73], Unit::Second),
        (seq![0x6d, 0x69, 0x6c, 0x6c, 0x69, 0x73, 0x65, 0x63, 0x6f, 0x6e, 0x64, 0x73], Unit::Millisecond),
        (seq![0x6d, 0x69, 0x6c, 0x6c, 0x69, 0x73, 0x65, 0x63, 0x6f, 0x6e, 0x64], Unit::Millisecond),
        (seq![0x6d, 0x69, 0x6c, 0x6c, 0x69, 0x73], Unit::Millisecond),
        (seq![0x6d, 0x69, 0x6c, 0x6c, 0x69], Unit::Millisecond),
        (seq![0x6d, 0x73, 0x65, 0x63, 0x73], Unit::Millisecond),
        (seq![0x6d, 0x73, 0x65, 0x63], Unit::Millisecond),
        (seq![0x6d, 0x73], Unit::Millisecond),
        (seq![0x6d, 0x69, 0x63, 0x72, 0x6f, 0x73, 0x65, 0x63, 0x6f, 0x6e, 0x64, 0x73], Unit::Microsecond),
        (seq![0x6d, 0x69, 0x63, 0x72, 0x6f, 0x73, 0x65, 0x63, 0x6f, 0x6e, 0x64], Unit::Microsecond),
        (seq![0x6d, 0x69, 0x63, 0x72, 0x6f, 0x73], Unit::Microsecond),
        (seq![0x6d, 0x69, 0x63, 0x72, 0x6f], Unit::Microsecond),
        (seq![0x75, 0x73, 0x65, 0x63, 0x73], Unit::Microsecond),
        (seq![0x75, 0x73, 0x65, 0x63], Unit::Microsecond),
        (seq![0xc2, 0xb5, 0x73, 0x65, 0x63, 0x73], Unit::Microsecond),
        (seq![0xc2, 0xb5, 0x73, 0x65, 0x63], Unit::Microsecond),
        (seq![0x75, 0x73], Unit::Microsecond),
        (seq![0xc2, 0xb5, 0x73], Unit::Microsecond),
        (seq![0x6e, 0x61, 0x6e, 0x6f, 0x73, 0x65, 0x63, 0x6f, 0x6e, 0x64, 0x73], Unit::Nanosecond),
        (seq![0x6e, 0x61, 0x6e, 0x6f, 0x73, 0x65, 0x63, 0x6f, 0x6e, 0x64], Unit::Nanosecond),
        (seq![0x6e, 0x61, 0x6e, 0x6f, 0x73], Unit::Nanosecond),
        (seq![0x6e, 0x61, 0x6e, 0x6f], Unit::Nanosecond),
        (seq![0x6e, 0x73, 0x65, 0x63, 0x73], Unit::Nanosecond),
        (seq![0x6e, 0x73, 0x65, 0x63], Unit::Nanosecond),
        (seq![0x6e, 0x73], Unit::Nanosecond),
    ]
}

/// For each designator: an earlier designator with which it shares its
/// first bytes, the number of bytes shared, and the number of nodes that the
/// designators up to this one need.
#[verifier::opaque]
pub open spec fn designator_sharing() -> Seq<(int, int, int)> {
    seq![
        (0, 0, 7),
        (0, 4, 7),
        (0, 1, 9),
        (2, 2, 9),
        (0, 1, 9),
        (0, 0, 15),
        (5, 5, 15),
        (5, 2, 16),
        (5, 2, 16),
        (0, 0, 21),
        (9, 4, 21),
        (9, 1, 23),
        (11, 2, 23),
        (9, 1, 23),
        (0, 0, 27),
        (14, 3, 27),
        (14, 1, 27),
        (0, 0, 32),
        (17, 4, 32),
        (17, 1, 34),
        (19, 2, 34),
        (17, 1, 34),
        (5, 1, 40),
        (22, 6, 40),
        (22, 3, 41),
        (22, 3, 41),
        (5, 1, 41),
        (0, 0, 48),
        (27, 6, 48),
        (27, 3, 49),
        (27, 3, 49),
        (27, 1, 49),
        (22, 2, 59),
        (32, 11, 59),
        (32, 6, 59),
        (32, 5, 59),
        (5, 1, 63),
        (36, 4, 63),
        (36, 2, 63),
        (22, 2, 73),
        (39, 11, 73),
        (39, 6, 73),
        (39, 5, 73),
        (0, 0, 78),
        (43, 4, 78),
        (0, 0, 84),
        (45, 5, 84),
        (43, 2, 84),
        (45, 3, 84),
        (0, 0, 95),
        (49, 10, 95),
        (49, 5, 95),
        (49, 4, 95),
        (49, 1, 99),
        (53, 4, 99),
        (53, 2, 99),
    ]
}

/// The bytes of a text of ASCII characters are its characters.
proof fn lemma_ascii_bytes(text: &str, bytes: Seq<u8>)
    requires
        text@.len() == bytes.len(),
        forall|i: int| 0 <= i < bytes.len() ==> text@[i] as int == #[trigger] bytes[i] < 128,
    ensures
        text.spec_bytes() == bytes,
{
    assert(is_ascii_chars(text@)) by {
        assert forall|i: int| 0 <= i < text@.len() implies '\0' <= #[trigger] text@[i]
            <= '\u{7f}' by {
            assert(text@[i] as int == bytes[i]);
        }
    }
    is_ascii_chars_encode_utf8(text@);
    assert(text.spec_bytes() =~= bytes);
}

/// The bytes of a text of `µ` and ASCII characters after it are the two
/// bytes of `µ` and these characters.
proof fn lemma_micro_bytes(text: &str, bytes: Seq<u8>)
    requires
        text@.len() >= 1,
        text@.len() + 1 == bytes.len(),
        text@[0] == 'µ',
        bytes[0] == 0xc2,
        bytes[1] == 0xb5,
        forall|i: int| 2 <= i < bytes.len() ==> text@[i - 1] as int == #[trigger] bytes[i] < 128,
    ensures
        text.spec_bytes() == bytes,
{
    let rest = text@.drop_first();
    assert(is_ascii_chars(rest)) by {
        assert forall|i: int| 0 <= i < rest.len() implies '\0' <= #[trigger] rest[i] <= '\u{7f}' by {
            assert(rest[i] == text@[i + 1]);
            assert(text@[i + 1] as int == bytes[i + 2]);
        }
    }
    is_ascii_chars_encode_utf8(rest);
    assert('µ' as u32 == 0xb5u32);
    assert(0xC0u8 | ((0xb5u32 >> 6) & 0x1F) as u8 == 0xc2u8) by (bit_vector);
    assert(0x80u8 | (0xb5u32 & 0x3F) as u8 == 0xb5u8) by (bit_vector);
    assert(encode_scalar(0xb5u32) =~= seq![0xc2u8, 0xb5u8]);
    assert(encode_utf8(text@) == encode_scalar(text@[0] as u32) + encode_utf8(rest));
    assert forall|i: int| 0 <= i < rest.len() implies encode_utf8(rest)[i] == bytes[i + 2] by {
        assert(rest[i] == text@[i + 1]);
        assert(text@[i + 1] as int == bytes[i + 2]);
        assert(rest[i] as u8 == encode_utf8(rest)[i]);
    }
    assert(text.spec_bytes() =~= bytes);
}

/// The designators spell the bytes of `designator_bytes`.
pub proof fn lemma_designator_bytes()
    ensures
        designators() == designator_bytes(),
{
    reveal(designator_bytes);
    let bytes = designator_bytes();
    reveal_strlit("years");
    reveal_strlit("year");
    reveal_strlit("yrs");
    reveal_strlit("yr");
    reveal_strlit("y");
    reveal_strlit("months");
    reveal_strlit("month");
    reveal_strlit("mos");
    reveal_strlit("mo");
    reveal_strlit("weeks");
    reveal_strlit("week");
    reveal_strlit("wks");
    reveal_strlit("wk");
    reveal_strlit("w");
    reveal_strlit("days");
    reveal_strlit("day");
    reveal_strlit("d");
    reveal_strlit("hours");
    reveal_strlit("hour");
    reveal_strlit("hrs");
    reveal_strlit("hr");
    reveal_strlit("h");
    reveal_strlit("minutes");
    reveal_strlit("minute");
    reveal_strlit("mins");
    reveal_strlit("min");
    reveal_strlit("m");
    reveal_strlit("seconds");
    reveal_strlit("second");
    reveal_strlit("secs");
    reveal_strlit("sec");
    reveal_strlit("s");
    reveal_strlit("milliseconds");
    reveal_strlit("millisecond");
    reveal_strlit("millis");
    reveal_strlit("milli");
    reveal_strlit("msecs");
    reveal_strlit("msec");
    reveal_strlit("ms");
    reveal_strlit("microseconds");
    reveal_strlit("microsecond");
    reveal_strlit("micros");
    reveal_strlit("micro");
    reveal_strlit("usecs");
    reveal_strlit("usec");
    reveal_strlit("µsecs");
    reveal_strlit("µsec");
    reveal_strlit("us");
    reveal_strlit("µs");
    reveal_strlit("nanoseconds");
    reveal_strlit("nanosecond");
    reveal_strlit("nanos");
    reveal_strlit("nano");
    reveal_strlit("nsecs");
    reveal_strlit("nsec");
    reveal_strlit("ns");
    lemma_ascii_bytes("years", bytes[0].0);
    lemma_ascii_bytes("year", bytes[1].0);
    lemma_ascii_bytes("yrs", bytes[2].0);
    lemma_ascii_bytes("yr", bytes[3].0);
    lemma_ascii_bytes("y", bytes[4].0);
    lemma_ascii_bytes("months", bytes[5].0);
    lemma_ascii_bytes("month", bytes[6].0);
    lemma_ascii_bytes("mos", bytes[7].0);
    lemma_ascii_bytes("mo", bytes[8].0);
    lemma_ascii_bytes("weeks", bytes[9].0);
    lemma_ascii_bytes("week", bytes[10].0);
    lemma_ascii_bytes("wks", bytes[11].0);
    lemma_ascii_bytes("wk", bytes[12].0);
    lemma_ascii_bytes("w", bytes[13].0);
    lemma_ascii_bytes("days", bytes[14].0);
    lemma_ascii_bytes("day", bytes[15].0);
    lemma_ascii_bytes("d", bytes[16].0);
    lemma_ascii_bytes("hours", bytes[17].0);
    lemma_ascii_bytes("hour", bytes[18].0);
    lemma_ascii_bytes("hrs", bytes[19].0);
    lemma_ascii_bytes("hr", bytes[20].0);
    lemma_ascii_bytes("h", bytes[21].0);
    lemma_ascii_bytes("minutes", bytes[22].0);
    lemma_ascii_bytes("minute", bytes[23].0);
    lemma_ascii_bytes("mins", bytes[24].0);
    lemma_ascii_bytes("min", bytes[25].0);
    lemma_ascii_bytes("m", bytes[26].0);
    lemma_ascii_bytes("seconds", bytes[27].0);
    lemma_ascii_bytes("second", bytes[28].0);
    lemma_ascii_bytes("secs", bytes[29].0);
    lemma_ascii_bytes("sec", bytes[30].0);
    lemma_ascii_bytes("s", bytes[31].0);
    lemma_ascii_bytes("milliseconds", bytes[32].0);
    lemma_ascii_bytes("millisecond", bytes[33].0);
    lemma_ascii_bytes("millis", bytes[34].0);
    lemma_ascii_bytes("milli", bytes[35].0);
    lemma_ascii_bytes("msecs", bytes[36].0);
    lemma_ascii_bytes("msec", bytes[37].0);
    lemma_ascii_bytes("ms", bytes[38].0);
    lemma_ascii_bytes("microseconds", bytes[39].0);
    lemma_ascii_bytes("microsecond", bytes[40].0);
    lemma_ascii_bytes("micros", bytes[41].0);
    lemma_ascii_bytes("micro", bytes[42].0);
    lemma_ascii_bytes("usecs", bytes[43].0);
    lemma_ascii_bytes("usec", bytes[44].0);
    lemma_micro_bytes("µsecs", bytes[45].0);
    lemma_micro_bytes("µsec", bytes[46].0);
    lemma_ascii_bytes("us", bytes[47].0);
    lemma_micro_bytes("µs", bytes[48].0);
    lemma_ascii_bytes("nanoseconds", bytes[49].0);
    lemma_ascii_bytes("nanosecond", bytes[50].0);
    lemma_ascii_bytes("nanos", bytes[51].0);
    lemma_ascii_bytes("nano", bytes[52].0);
    lemma_ascii_bytes("nsecs", bytes[53].0);
    lemma_ascii_bytes("nsec", bytes[54].0);
    lemma_ascii_bytes("ns", bytes[55].0);
    assert(designators() =~= bytes);
}

/// Two designators spell different bytes.
proof fn lemma_designators_differ(i: int, j: int)
    requires
        0 <= i < j < DESIGNATORS,
    ensures
        designator_bytes()[i].0 != designator_bytes()[j].0,
{
    reveal(designator_bytes);
    let a = designator_bytes()[i].0;
    let b = designator_bytes()[j].0;
    if a.len() == b.len() {
        assert(a[0] != b[0] || a[1] != b[1] || a[2] != b[2] || a[3] != b[3] || a[4] != b[4] || a[5]
            != b[5] || a[6] != b[6] || a[7] != b[7] || a[8] != b[8] || a[9] != b[9] || a[10]
            != b[10] || a[11] != b[11]);
    }
}

/// What `designator_sharing` says of a designator holds.
proof fn lemma_designator_shares(i: int)
    requires
        0 <= i < DESIGNATORS,
    ensures
        shares(designator_bytes(), designator_sharing(), i),
        designator_bytes().len() == DESIGNATORS,
        designator_sharing().len() == DESIGNATORS,
        designator_sharing()[DESIGNATORS - 1].2 == DESIGNATOR_NODES,
{
    reveal(designator_bytes);
    reveal(designator_sharing);
    let (earlier, shared, nodes) = designator_sharing()[i];
    let label = designator_bytes()[i].0;
    if shared > 0 {
        let other = designator_bytes()[earlier].0;
        assert(label.take(shared) =~= other.subrange(0, shared));
    }
}

/// No two designators spell the same bytes, and their trie has room in the
/// nodes set aside for it: it can be built.
pub proof fn lemma_designators_fit()
    ensures
        no_repeats(designators(), DESIGNATORS as int),
        designators().len() == DESIGNATORS,
        nodes_needed(designators()) <= DESIGNATOR_NODES,
        build_error(designators(), DESIGNATOR_NODES as int) is None,
{
    let labels = designator_bytes();
    lemma_designator_bytes();
    lemma_designator_shares(0);
    assert forall|i: int, j: int| 0 <= i < j < DESIGNATORS implies (#[trigger] labels[i]).0
        != (#[trigger] labels[j]).0 by {
        lemma_designators_differ(i, j);
    }
    assert forall|i: int| 0 <= i < DESIGNATORS implies shares(labels, designator_sharing(), i) by {
        lemma_designator_shares(i);
    }
    lemma_nodes_needed_at_most(labels, designator_sharing(), DESIGNATORS as int);
    assert(labels.take(DESIGNATORS as int) =~= labels);
    lemma_build_succeeds(labels, DESIGNATOR_NODES as int);
}

} // verus!
