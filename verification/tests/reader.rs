use chain_events::error::DecodeError;
use chain_events::reader::BinaryReader;
use chain_events::registry::SizeRule;
use parity_scale_codec::{Compact, Encode};

#[test]
fn bytes_come_in_their_order() {
    let input = [7u8, 8, 9];
    let mut reader = BinaryReader::new(&input);
    assert_eq!(reader.remaining(), 3);
    assert_eq!(reader.read_byte(), Ok(7));
    assert_eq!(reader.read_byte(), Ok(8));
    assert_eq!(reader.remaining(), 1);
    assert_eq!(reader.read_byte(), Ok(9));
    assert_eq!(reader.read_byte(), Err(DecodeError::Truncated));
    assert_eq!(reader.remaining(), 0);
}

#[test]
fn u32_is_little_endian() {
    let input = [0x78u8, 0x56, 0x34, 0x12, 0xff];
    let mut reader = BinaryReader::new(&input);
    assert_eq!(reader.read_u32(), Ok(0x1234_5678));
    assert_eq!(reader.remaining(), 1);
    assert_eq!(reader.read_byte(), Ok(0xff));
}

#[test]
fn u32_reads_what_the_codec_writes() {
    let input = 4_000_000_123u32.encode();
    let mut reader = BinaryReader::new(&input);
    assert_eq!(reader.read_u32(), Ok(4_000_000_123));
    assert_eq!(reader.remaining(), 0);
}

#[test]
fn short_u32_is_truncated_and_nothing_is_consumed() {
    let input = [1u8, 2, 3];
    let mut reader = BinaryReader::new(&input);
    assert_eq!(reader.read_u32(), Err(DecodeError::Truncated));
    assert_eq!(reader.remaining(), 3);
    assert_eq!(reader.read_byte(), Ok(1));
}

#[test]
fn compact_of_one_byte() {
    let input = [0x04u8, 0xaa];
    let mut reader = BinaryReader::new(&input);
    assert_eq!(reader.read_compact(), Ok(1));
    assert_eq!(reader.remaining(), 1);
}

#[test]
fn compact_of_two_bytes() {
    let input = [0x01u8, 0x01, 0xaa];
    let mut reader = BinaryReader::new(&input);
    assert_eq!(reader.read_compact(), Ok(64));
    assert_eq!(reader.remaining(), 1);
}

#[test]
fn compact_of_four_bytes() {
    let input = [0x02u8, 0x00, 0x01, 0x00, 0xaa];
    let mut reader = BinaryReader::new(&input);
    assert_eq!(reader.read_compact(), Ok(16384));
    assert_eq!(reader.remaining(), 1);
}

#[test]
fn compact_of_five_bytes() {
    let input = [0x03u8, 0x00, 0x00, 0x00, 0x40, 0xaa];
    let mut reader = BinaryReader::new(&input);
    assert_eq!(reader.read_compact(), Ok(0x4000_0000));
    assert_eq!(reader.remaining(), 1);
}

#[test]
fn compact_reads_what_the_codec_writes() {
    for value in [0u32, 1, 63, 64, 16383, 16384, 0x3fff_ffff, 0x4000_0000, u32::MAX] {
        let mut input = Compact(value).encode();
        let width = input.len();
        input.push(0xaa);
        let mut reader = BinaryReader::new(&input);
        assert_eq!(reader.read_compact(), Ok(value));
        assert_eq!(reader.remaining(), input.len() - width);
    }
}

#[test]
fn compact_that_is_not_the_shortest_is_turned_down() {
    let two_for_zero = [0x01u8, 0x00];
    let mut reader = BinaryReader::new(&two_for_zero);
    assert_eq!(reader.read_compact(), Err(DecodeError::Truncated));
    assert_eq!(reader.remaining(), 2);

    let four_for_one = [0x06u8, 0x00, 0x00, 0x00];
    let mut reader = BinaryReader::new(&four_for_one);
    assert_eq!(reader.read_compact(), Err(DecodeError::Truncated));

    let five_for_one = [0x03u8, 0x01, 0x00, 0x00, 0x00];
    let mut reader = BinaryReader::new(&five_for_one);
    assert_eq!(reader.read_compact(), Err(DecodeError::Truncated));
}

#[test]
fn compact_wider_than_32_bits_is_turned_down() {
    let input = [0x07u8, 0, 0, 0, 0, 1];
    let mut reader = BinaryReader::new(&input);
    assert_eq!(reader.read_compact(), Err(DecodeError::Truncated));
    assert_eq!(reader.remaining(), 6);
}

#[test]
fn compact_cut_short_is_truncated() {
    let empty: [u8; 0] = [];
    let mut reader = BinaryReader::new(&empty);
    assert_eq!(reader.read_compact(), Err(DecodeError::Truncated));

    let half = [0x01u8];
    let mut reader = BinaryReader::new(&half);
    assert_eq!(reader.read_compact(), Err(DecodeError::Truncated));
    assert_eq!(reader.remaining(), 1);

    let three_of_four = [0x02u8, 0x00, 0x01];
    let mut reader = BinaryReader::new(&three_of_four);
    assert_eq!(reader.read_compact(), Err(DecodeError::Truncated));
}

#[test]
fn take_hands_out_the_bytes_as_they_are() {
    let input = [1u8, 2, 3, 4, 5];
    let mut reader = BinaryReader::new(&input);
    assert_eq!(reader.take(2), Ok(&input[0..2]));
    assert_eq!(reader.take(0), Ok(&input[2..2]));
    assert_eq!(reader.take(4), Err(DecodeError::Truncated));
    assert_eq!(reader.remaining(), 3);
    assert_eq!(reader.take(3), Ok(&input[2..5]));
    assert_eq!(reader.remaining(), 0);
}

#[test]
fn fixed_value_takes_its_width() {
    let input = [1u8, 2, 3, 4, 5];
    let mut reader = BinaryReader::new(&input);
    assert_eq!(reader.take_value(SizeRule::Fixed(4)), Ok(&input[0..4]));
    assert_eq!(reader.take_value(SizeRule::Fixed(2)), Err(DecodeError::Truncated));
    assert_eq!(reader.remaining(), 1);
}

#[test]
fn sequence_takes_its_count_and_its_items() {
    let input = [0x08u8, 1, 2, 3, 4, 9, 9];
    let mut reader = BinaryReader::new(&input);
    assert_eq!(reader.take_value(SizeRule::Sequence(2)), Ok(&input[0..5]));
    assert_eq!(reader.remaining(), 2);
}

#[test]
fn empty_sequence_takes_its_count_only() {
    let input = [0x00u8, 9];
    let mut reader = BinaryReader::new(&input);
    assert_eq!(reader.take_value(SizeRule::Sequence(32)), Ok(&input[0..1]));
    assert_eq!(reader.remaining(), 1);
}

#[test]
fn sequence_with_missing_items_is_truncated() {
    let input = [0x08u8, 1, 2, 3];
    let mut reader = BinaryReader::new(&input);
    assert_eq!(reader.take_value(SizeRule::Sequence(2)), Err(DecodeError::Truncated));
    assert_eq!(reader.remaining(), 4);
}

#[test]
fn sequence_too_large_to_count_is_truncated() {
    let mut input = Compact(u32::MAX).encode();
    input.extend_from_slice(&[0u8; 16]);
    let mut reader = BinaryReader::new(&input);
    assert_eq!(reader.take_value(SizeRule::Sequence(usize::MAX)), Err(DecodeError::Truncated));
    assert_eq!(reader.remaining(), input.len());
}

#[test]
fn sequence_with_a_wide_count() {
    let items: Vec<u8> = (0..100u8).collect();
    let mut input = items.encode();
    assert_eq!(input.len(), 102);
    input.push(0xaa);
    let mut reader = BinaryReader::new(&input);
    assert_eq!(reader.take_value(SizeRule::Sequence(1)), Ok(&input[0..102]));
    assert_eq!(reader.remaining(), 1);

    let mut reader = BinaryReader::new(&input);
    assert_eq!(reader.take_value(SizeRule::Sequence(2)), Err(DecodeError::Truncated));
    assert_eq!(reader.remaining(), 103);
}
