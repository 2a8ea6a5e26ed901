use ffxiv_tools::util::{read_u32_le, round_up};

#[test]
fn round_up_to_multiple() {
    assert_eq!(round_up(0, 4), 0);
    assert_eq!(round_up(1, 4), 4);
    assert_eq!(round_up(4, 4), 4);
    assert_eq!(round_up(5, 4), 8);
    assert_eq!(round_up(17, 16), 32);
}

#[test]
fn round_up_with_zero_multiple_keeps_value() {
    assert_eq!(round_up(7, 0), 7);
    assert_eq!(round_up(0, 0), 0);
}

#[test]
fn round_up_near_limit() {
    assert_eq!(round_up(usize::MAX - 3, 4), usize::MAX - 3);
    assert_eq!(round_up(usize::MAX - 5, 4), usize::MAX - 3);
}

#[test]
fn read_little_endian_words() {
    let data = [0x78, 0x56, 0x34, 0x12, 0xff, 0xff, 0xff, 0xff];
    assert_eq!(read_u32_le(&data, 0), 0x1234_5678);
    assert_eq!(read_u32_le(&data, 4), u32::MAX);
    assert_eq!(read_u32_le(&data, 2), 0xffff_1234);
}
