use duration_unit_lookup::designator::designator_needles;
use duration_unit_lookup::gen_simd::{bad_hash, bytes_to_u64, hash_table, is_perfect, try_seed};
use duration_unit_lookup::needles::TrieNeedles;
use duration_unit_lookup::Unit;

const SEED: u64 = 0xb8e624b1299dcf7c;

#[test]
fn bytes_are_packed_lowest_first() {
    assert_eq!(bytes_to_u64(b""), 0);
    assert_eq!(bytes_to_u64(b"y"), 0x79);
    assert_eq!(bytes_to_u64(b"hr"), 0x7268);
    assert_eq!(bytes_to_u64(b"milli"), 0x696c6c696d);
    assert_eq!(bytes_to_u64(b"millisec"), 0x636573696c6c696d);
    assert_eq!(bytes_to_u64(b"milliseconds"), 0x636573696c6c696d);
    assert_eq!(bytes_to_u64(b"\xff\xff\xff\xff\xff\xff\xff\xff"), u64::MAX);
    assert_eq!(bytes_to_u64(b"\x00\x00\x00\x00\x00\x00\x00\x80\x01"), 0x8000_0000_0000_0000);
    assert_eq!(bytes_to_u64("µs".as_bytes()), 0x73b5c2);
}

#[test]
fn hashes_are_the_highest_seven_bits() {
    assert_eq!(bad_hash(b"y", SEED), 14);
    assert_eq!(bad_hash(b"milli", SEED), 2);
    assert_eq!(bad_hash(b"hr", SEED), 5);
    assert_eq!(bad_hash(b"millisecond", SEED), 7);
    assert_eq!(bad_hash(b"milliseconds", SEED), 99);
    assert_eq!(bad_hash(b"", SEED), 0);
    assert_eq!(bad_hash(b"anything", 0), 0);
    // (0x79 + 1) * 2^57 has the bits 1111010 on top
    assert_eq!(bad_hash(b"y", 1 << 57), 0x7a);
    for byte in 0..=255u8 {
        assert!(bad_hash(&[byte, byte, byte], SEED) < 128);
    }
}

#[test]
fn a_seed_is_tried() {
    assert!(try_seed(SEED));
    assert!(!try_seed(0));
    assert!(!try_seed(1));
    assert!(is_perfect(&designator_needles(), SEED));
    let one: TrieNeedles<u8> = TrieNeedles::new(&[("only", 1)]);
    assert!(is_perfect(&one, 0));
    let twice: TrieNeedles<u8> = TrieNeedles::new(&[("same", 1), ("same", 2)]);
    assert!(!is_perfect(&twice, SEED));
}

#[test]
fn the_table_holds_each_designator_in_its_bucket() {
    let table = hash_table(SEED);
    assert_eq!(table.len(), 128);
    assert_eq!(table[0], ((0, 0), Unit::Nanosecond));
    assert_eq!(table[2], ((0x696c6c696d, 0), Unit::Millisecond));
    assert_eq!(table[5], ((0x7268, 0), Unit::Hour));
    assert_eq!(table[7], ((0x636573696c6c696d, 0x646e6f), Unit::Millisecond));
    assert_eq!(table[14], ((0x79, 0), Unit::Year));
    assert_eq!(table[17], ((0x6f6365736f6e616e, 0x73646e), Unit::Nanosecond));
    assert_eq!(table[62], ((0x73b5c2, 0), Unit::Microsecond));
    assert_eq!(table[79], ((0x6365736f7263696d, 0x73646e6f), Unit::Microsecond));
    assert_eq!(table[126], ((0x6365736d, 0), Unit::Millisecond));
    assert_eq!(table[127], ((0, 0), Unit::Nanosecond));
    assert_eq!(table.iter().filter(|bucket| bucket.0 != (0, 0)).count(), 56);
    let needles = designator_needles();
    for index in 0..needles.len() {
        let label = needles.label(index);
        let (strings, unit) = table[bad_hash(label, SEED)];
        assert_eq!(strings.0, bytes_to_u64(label));
        assert_eq!(strings.1, bytes_to_u64(&label[label.len().min(8)..]));
        assert_eq!(unit, needles.value(index));
    }
}

#[test]
fn the_last_designator_of_a_bucket_owns_it() {
    // Under the seed 0 every designator hashes to 0, and "ns" is the last.
    let table = hash_table(0);
    assert_eq!(table[0], ((0x736e, 0), Unit::Nanosecond));
    for bucket in 1..128 {
        assert_eq!(table[bucket], ((0, 0), Unit::Nanosecond));
    }
}
