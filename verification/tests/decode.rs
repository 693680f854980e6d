use bencode::Bencoded::{Bytestring, Dict, Integer, List};
use bencode::{DecodeError, Dictionary};

#[test]
fn parse_integer() {
    assert_eq!(bencode::parse_integer(b"i42e", 1), Ok((Integer(42), 4)));
    assert_eq!(bencode::parse_integer(b"i-42e", 1), Ok((Integer(-42), 5)));
}

#[test]
fn parse_bytestring() {
    assert_eq!(
        bencode::parse_bytestring(b"5:hello", 0),
        Ok((Bytestring(b"hello".to_vec()), 7))
    );
}

#[test]
fn parse_list() {
    assert_eq!(
        bencode::parse_list(b"li42ee", 1),
        Ok((List(vec![Integer(42)]), 6))
    );
}

#[test]
fn parse_dict() {
    let mut m = Dictionary::new();
    m.insert(b"n".to_vec(), Integer(42));
    assert_eq!(bencode::parse_dict(b"d1:ni42ee", 1), Ok((Dict(m), 9)));
}

#[test]
fn parse_bencoded() {
    assert_eq!(bencode::parse_bencoded(b"i42e", 0), Ok((Integer(42), 4)));
    assert_eq!(
        bencode::parse_bencoded(b"5:hello", 0),
        Ok((Bytestring(b"hello".to_vec()), 7))
    );
    assert_eq!(
        bencode::parse_bencoded(b"li42ee", 0),
        Ok((List(vec![Integer(42)]), 6))
    );
    assert_eq!(
        bencode::parse_bencoded(b"li42e5:helloe", 0),
        Ok((List(vec![Integer(42), Bytestring(b"hello".to_vec())]), 13))
    );

    let mut m = Dictionary::new();
    m.insert(b"n".to_vec(), Integer(42));
    assert_eq!(bencode::parse_bencoded(b"d1:ni42ee", 0), Ok((Dict(m), 9)));
}

#[test]
fn integer_zero() {
    assert_eq!(bencode::parse(b"i0e"), Ok(Integer(0)));
}

#[test]
fn integer_negative() {
    assert_eq!(bencode::parse(b"i-42e"), Ok(Integer(-42)));
}

#[test]
fn integer_with_leading_zeros_is_read() {
    assert_eq!(bencode::parse(b"i007e"), Ok(Integer(7)));
    assert_eq!(bencode::parse_integer(b"i007e", 1), Ok((Integer(7), 5)));
}

#[test]
fn integer_minus_zero_is_read() {
    assert_eq!(bencode::parse(b"i-0e"), Ok(Integer(0)));
}

#[test]
fn integer_without_digits_is_malformed() {
    assert_eq!(bencode::parse(b"ie"), Err(DecodeError::Malformed));
    assert_eq!(bencode::parse(b"i-e"), Err(DecodeError::Malformed));
}

#[test]
fn integer_with_a_letter_is_malformed() {
    assert_eq!(bencode::parse(b"i4x2e"), Err(DecodeError::Malformed));
    assert_eq!(bencode::parse(b"i--1e"), Err(DecodeError::Malformed));
    assert_eq!(bencode::parse(b"i+1e"), Err(DecodeError::Malformed));
}

#[test]
fn integer_without_end_is_truncated() {
    assert_eq!(bencode::parse(b"i42"), Err(DecodeError::Truncated));
    assert_eq!(bencode::parse(b"i-"), Err(DecodeError::Truncated));
    assert_eq!(bencode::parse(b"i"), Err(DecodeError::Truncated));
}

#[test]
fn integer_at_the_limits() {
    let max = format!("i{}e", isize::MAX);
    let min = format!("i{}e", isize::MIN);
    assert_eq!(bencode::parse(max.as_bytes()), Ok(Integer(isize::MAX)));
    assert_eq!(bencode::parse(min.as_bytes()), Ok(Integer(isize::MIN)));
}

#[test]
fn integer_past_the_limits_overflows() {
    let above = format!("i{}e", isize::MAX as i128 + 1);
    let below = format!("i{}e", isize::MIN as i128 - 1);
    assert_eq!(bencode::parse(above.as_bytes()), Err(DecodeError::Overflow));
    assert_eq!(bencode::parse(below.as_bytes()), Err(DecodeError::Overflow));
    assert_eq!(
        bencode::parse(b"i99999999999999999999999999999999999999999e"),
        Err(DecodeError::Overflow)
    );
}

#[test]
fn integer_too_large_and_malformed_is_malformed() {
    assert_eq!(
        bencode::parse(b"i99999999999999999999999999999999999999999xe"),
        Err(DecodeError::Malformed)
    );
    assert_eq!(
        bencode::parse(b"i99999999999999999999999999999999999999999"),
        Err(DecodeError::Truncated)
    );
}

#[test]
fn bytestring_empty() {
    assert_eq!(bencode::parse(b"0:"), Ok(Bytestring(vec![])));
    assert_eq!(
        bencode::parse_bytestring(b"0:", 0),
        Ok((Bytestring(vec![]), 2))
    );
}

#[test]
fn bytestring_holds_raw_bytes() {
    assert_eq!(
        bencode::parse(&[b'3', b':', 0x00, 0xff, 0x80]),
        Ok(Bytestring(vec![0x00, 0xff, 0x80]))
    );
}

#[test]
fn bytestring_length_with_leading_zeros_is_read() {
    assert_eq!(
        bencode::parse_bytestring(b"05:hello", 0),
        Ok((Bytestring(b"hello".to_vec()), 8))
    );
}

#[test]
fn bytestring_longer_than_the_buffer_is_truncated() {
    assert_eq!(bencode::parse(b"5:hell"), Err(DecodeError::Truncated));
    assert_eq!(bencode::parse(b"1:"), Err(DecodeError::Truncated));
    assert_eq!(bencode::parse(b"10:abc"), Err(DecodeError::Truncated));
}

#[test]
fn bytestring_length_past_the_machine_word_is_truncated() {
    assert_eq!(
        bencode::parse(b"99999999999999999999999999999999999999999:abc"),
        Err(DecodeError::Truncated)
    );
    let at_limit = format!("{}:abc", usize::MAX);
    assert_eq!(
        bencode::parse(at_limit.as_bytes()),
        Err(DecodeError::Truncated)
    );
}

#[test]
fn bytestring_without_colon() {
    assert_eq!(bencode::parse(b"5"), Err(DecodeError::Truncated));
    assert_eq!(bencode::parse(b"5hello"), Err(DecodeError::Malformed));
    assert_eq!(
        bencode::parse_bytestring(b":abc", 0),
        Err(DecodeError::Malformed)
    );
}

#[test]
fn empty_containers() {
    assert_eq!(bencode::parse(b"le"), Ok(List(vec![])));
    assert_eq!(bencode::parse(b"de"), Ok(Dict(Dictionary::new())));
}

#[test]
fn nested_list_ends_after_thirteen_bytes() {
    assert_eq!(
        bencode::parse_bencoded(b"li42e5:helloe", 0),
        Ok((List(vec![Integer(42), Bytestring(b"hello".to_vec())]), 13))
    );
}

#[test]
fn nested_containers() {
    let mut inner = Dictionary::new();
    inner.insert(b"k".to_vec(), List(vec![Integer(1), Integer(2)]));
    assert_eq!(
        bencode::parse(b"lld1:kli1ei2eeeee"),
        Ok(List(vec![List(vec![Dict(inner)])]))
    );
}

#[test]
fn unknown_lookahead_is_malformed() {
    assert_eq!(bencode::parse(b"x"), Err(DecodeError::Malformed));
    assert_eq!(bencode::parse(b":"), Err(DecodeError::Malformed));
    assert_eq!(bencode::parse(b"-1"), Err(DecodeError::Malformed));
    assert_eq!(bencode::parse(b"e"), Err(DecodeError::Malformed));
    assert_eq!(bencode::parse(b"lxe"), Err(DecodeError::Malformed));
}

#[test]
fn empty_buffer_is_truncated() {
    assert_eq!(bencode::parse(b""), Err(DecodeError::Truncated));
    assert_eq!(
        bencode::parse_bencoded(b"i1e", 3),
        Err(DecodeError::Truncated)
    );
    assert_eq!(
        bencode::parse_bencoded(b"i1e", 100),
        Err(DecodeError::Truncated)
    );
    assert_eq!(
        bencode::parse_integer(b"i1e", 100),
        Err(DecodeError::Truncated)
    );
    assert_eq!(
        bencode::parse_bytestring(b"1:a", 100),
        Err(DecodeError::Truncated)
    );
    assert_eq!(bencode::parse_list(b"le", 100), Err(DecodeError::Truncated));
    assert_eq!(bencode::parse_dict(b"de", 100), Err(DecodeError::Truncated));
}

#[test]
fn unclosed_containers_are_truncated() {
    assert_eq!(bencode::parse(b"l"), Err(DecodeError::Truncated));
    assert_eq!(bencode::parse(b"li1e"), Err(DecodeError::Truncated));
    assert_eq!(bencode::parse(b"d"), Err(DecodeError::Truncated));
    assert_eq!(bencode::parse(b"d1:a"), Err(DecodeError::Truncated));
    assert_eq!(bencode::parse(b"d1:ai1e"), Err(DecodeError::Truncated));
}

#[test]
fn first_failure_in_a_list_wins() {
    assert_eq!(
        bencode::parse(b"li99999999999999999999999999999999999999999ex"),
        Err(DecodeError::Overflow)
    );
    assert_eq!(bencode::parse(b"lxi9"), Err(DecodeError::Malformed));
}

#[test]
fn dict_key_must_be_a_bytestring() {
    assert_eq!(bencode::parse(b"di1ei2ee"), Err(DecodeError::Malformed));
    assert_eq!(bencode::parse(b"dlei2ee"), Err(DecodeError::Malformed));
}

#[test]
fn dict_with_unsorted_keys_is_read() {
    let mut m = Dictionary::new();
    m.insert(b"a".to_vec(), Integer(1));
    m.insert(b"b".to_vec(), Integer(2));
    assert_eq!(bencode::parse(b"d1:bi2e1:ai1ee"), Ok(Dict(m)));
}

#[test]
fn dict_with_a_key_twice_keeps_the_last() {
    let mut m = Dictionary::new();
    m.insert(b"a".to_vec(), Integer(2));
    assert_eq!(bencode::parse(b"d1:ai1e1:ai2ee"), Ok(Dict(m)));
    let parsed = bencode::parse(b"d1:ai1e1:bi5e1:ai2ee").unwrap();
    assert_eq!(parsed.get(b"a"), Some(&Integer(2)));
    assert_eq!(parsed.get(b"b"), Some(&Integer(5)));
}

#[test]
fn bytes_behind_the_value_are_left_alone() {
    assert_eq!(bencode::parse(b"i42etrailing"), Ok(Integer(42)));
    assert_eq!(bencode::parse(b"lei1e"), Ok(List(vec![])));
    assert_eq!(
        bencode::parse_bencoded(b"4:spamXYZ", 0),
        Ok((Bytestring(b"spam".to_vec()), 6))
    );
}

#[test]
fn value_in_the_middle_of_a_buffer() {
    assert_eq!(
        bencode::parse_bencoded(b"xxi7eyy", 2),
        Ok((Integer(7), 5))
    );
}
