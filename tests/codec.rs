use genome::{
    partition_str, partition_string, u16_from_str, u16_to_string, u32_from_str, u32_to_string,
    DecodeError,
};

#[test]
fn u16_text_is_four_lowercase_digits() {
    assert_eq!(u16_to_string(0), "0000");
    assert_eq!(u16_to_string(0x1a2b), "1a2b");
    assert_eq!(u16_to_string(65535), "ffff");
    assert_eq!(u16_to_string(4), "0004");
}

#[test]
fn u32_text_is_eight_lowercase_digits() {
    assert_eq!(u32_to_string(0x3f80_0000), "3f800000");
    assert_eq!(u32_to_string(0xdead_beef), "deadbeef");
    assert_eq!(u32_to_string(1), "00000001");
}

#[test]
fn u16_read_back() {
    assert_eq!(u16_from_str("00ff"), Ok(255));
    assert_eq!(u16_from_str("00FF"), Ok(255));
    assert_eq!(u16_from_str("ffff"), Ok(65535));
    assert_eq!(u16_from_str(&u16_to_string(4242)), Ok(4242));
    assert_eq!(u16_from_str("0g00"), Err(DecodeError::BadHexDigit));
    assert_eq!(u16_from_str("abc"), Err(DecodeError::UnexpectedLength));
    assert_eq!(u16_from_str("abcde"), Err(DecodeError::UnexpectedLength));
}

#[test]
fn u32_read_back() {
    assert_eq!(u32_from_str("deadbeef"), Ok(0xdead_beef));
    assert_eq!(u32_from_str(&u32_to_string(123_456_789)), Ok(123_456_789));
    assert_eq!(u32_from_str("dead-eef"), Err(DecodeError::BadHexDigit));
    assert_eq!(u32_from_str("dead"), Err(DecodeError::UnexpectedLength));
}

#[test]
fn partition_keeps_a_short_tail() {
    assert_eq!(partition_str("abcdefg", 3), vec!["abc", "def", "g"]);
    assert_eq!(partition_str("abcdef", 3), vec!["abc", "def"]);
    assert_eq!(partition_str("", 3), Vec::<&str>::new());
    let s = String::from("0123456789");
    assert_eq!(partition_string(&s, 4), vec!["0123", "4567", "89"]);
}

#[test]
fn partition_counts_characters() {
    assert_eq!(partition_str("héllo", 2), vec!["hé", "ll", "o"]);
}
