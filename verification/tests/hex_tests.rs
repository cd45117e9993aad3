use hex_codec::hex::{from_string, from_string_u64, to_hex_bytes, to_string, to_string_u64, to_vec_u64};

#[test]
fn to_and_from_string() {
    let res_str = to_string(&[1, 2, 3, 4]);
    assert_eq!("01020304", res_str);
    let res_vec = from_string(&res_str);
    assert_eq!(vec![1, 2, 3, 4], res_vec);
}

#[test]
fn to_and_from_string_u64() {
    let mut i: u64 = u64::MAX;
    let mut res_str = to_string_u64(i, false);
    assert_eq!(res_str, "ffffffffffffffff");
    i = u64::MIN;
    res_str = to_string_u64(i, false);
    assert_eq!(res_str, "0000000000000000");
    res_str = to_string_u64(i, true);
    assert_eq!(res_str, "");
    i = 0x400;
    res_str = to_string_u64(i, true);
    assert_eq!(res_str, "400");
    i = from_string_u64("0x400");
    assert_eq!(i, 0x400);
    i = from_string_u64("0x0");
    assert_eq!(i, 0x0);
    i = from_string_u64("ffffffffffffffff");
    assert_eq!(i, u64::MAX);
    i = from_string_u64("ff");
    assert_eq!(i, 255);
    res_str = to_string_u64(i, true);
    assert_eq!(i, 255);
    assert_eq!(res_str, "ff");
}

#[test]
fn test_to_vec_u64() {
    let mut v = to_vec_u64(u64::MAX, false);
    assert_eq!(
        vec![102, 102, 102, 102, 102, 102, 102, 102, 102, 102, 102, 102, 102, 102, 102, 102],
        v
    );
    v = to_vec_u64(1024, true);
    assert_eq!(vec![52, 48, 48], v); // '4' '0' '0'
    v = to_vec_u64(u64::MIN, false);
    assert_eq!(vec![48, 48, 48, 48, 48, 48, 48, 48, 48, 48, 48, 48, 48, 48, 48, 48], v);
}

#[test]
fn test_to_hex_bytes() {
    let mut dest: [u8; 6] = [0; 6];
    let num_hex_bytes = to_hex_bytes(&[52, 48, 48], &mut dest);
    assert_eq!(num_hex_bytes, 6);
    assert_eq!(dest, [51, 52, 51, 48, 51, 48]);
}

#[test]
fn round_trip_many_byte_values() {
    let bytes: Vec<u8> = vec![0x00, 0x01, 0x7f, 0x80, 0x9a, 0xab, 0xcd, 0xef, 0xff];
    let text = to_string(&bytes);
    assert_eq!(text, "00017f809aabcdefff");
    assert_eq!(from_string(&text), bytes);
}

#[test]
fn encoded_length_is_twice_input_length() {
    assert_eq!(to_string(&[]).len(), 0);
    assert_eq!(to_string(&[0xab]).len(), 2);
    assert_eq!(to_string(&[1, 2, 3]).len(), 6);
    assert_eq!(to_string(&[0; 100]).len(), 200);
}

#[test]
fn decode_skips_non_hex_characters() {
    assert_eq!(from_string("0102 0304"), from_string("01020304"));
    assert_eq!(from_string("0102 0304"), vec![1, 2, 3, 4]);
    // the '0' of a "0x" prefix still counts as a hex digit; only 'x' is skipped
    assert_eq!(from_string("0x0102"), vec![0x00, 0x10]);
    assert_eq!(from_string("zz!!--"), Vec::<u8>::new());
    assert_eq!(from_string(""), Vec::<u8>::new());
}

#[test]
fn decode_drops_trailing_odd_nibble() {
    // five valid hex characters: the fifth is dropped
    assert_eq!(from_string("01023"), vec![1, 2]);
    assert_eq!(from_string("f"), Vec::<u8>::new());
}

#[test]
fn decode_accepts_uppercase_digits() {
    assert_eq!(from_string("FF"), vec![255]);
    assert_eq!(from_string("AbCd"), vec![0xab, 0xcd]);
    assert_eq!(from_string_u64("FF"), 255);
}

#[test]
fn parse_u64_wraps_past_sixteen_digits() {
    assert_eq!(from_string_u64("11112222333344445555"), 0x2222333344445555);
    assert_eq!(from_string_u64(""), 0);
    assert_eq!(from_string_u64("4"), 0); // a lone nibble is dropped
}

#[test]
fn to_hex_bytes_leaves_tail_untouched() {
    let mut dest: [u8; 8] = [9; 8];
    let written = to_hex_bytes(&[0xab, 0xcd], &mut dest);
    assert_eq!(written, 4);
    assert_eq!(dest, [97, 98, 99, 100, 9, 9, 9, 9]);
}

#[test]
fn skip_leading_zeroes_only_strips_the_front() {
    assert_eq!(to_string_u64(0x00a0_0b00, true), "a00b00");
    assert_eq!(to_vec_u64(1, true), vec![49]);
    assert_eq!(to_string_u64(1, false), "0000000000000001");
}
