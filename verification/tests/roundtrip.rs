use bencode::Bencoded::{Bytestring, Dict, Integer, List};
use bencode::{Bencoded, Dictionary};

fn sample() -> Bencoded {
    let mut files = Dictionary::new();
    files.insert(b"length".to_vec(), Integer(1 << 20));
    files.insert(b"path".to_vec(), List(vec![Bytestring(b"a".to_vec()), Bytestring(vec![0xff, 0x00])]));
    let mut info = Dictionary::new();
    info.insert(b"name".to_vec(), Bytestring(b"sample".to_vec()));
    info.insert(b"files".to_vec(), List(vec![Dict(files), Dict(Dictionary::new())]));
    info.insert(b"".to_vec(), Integer(isize::MIN));
    info.insert(b"piece length".to_vec(), Integer(-0));
    let mut root = Dictionary::new();
    root.insert(b"info".to_vec(), Dict(info));
    root.insert(b"announce".to_vec(), Bytestring(b"http://example/".to_vec()));
    root.insert(b"list".to_vec(), List(vec![]));
    root.insert(b"max".to_vec(), Integer(isize::MAX));
    Dict(root)
}

#[test]
fn decoding_an_encoding_gives_the_value_back() {
    let values = vec![
        Integer(0),
        Integer(-1),
        Integer(isize::MAX),
        Integer(isize::MIN),
        Bytestring(vec![]),
        Bytestring(b"e".to_vec()),
        Bytestring(b"i1e".to_vec()),
        Bytestring((0..=255u8).collect()),
        List(vec![]),
        List(vec![List(vec![List(vec![])])]),
        Dict(Dictionary::new()),
        sample(),
    ];
    for value in values {
        let bytes = value.encode();
        assert_eq!(
            bencode::parse_bencoded(&bytes, 0),
            Ok((value, bytes.len()))
        );
    }
}

#[test]
fn encoding_a_decoded_canonical_buffer_gives_it_back() {
    let buffers: Vec<&[u8]> = vec![
        b"i0e",
        b"i-42e",
        b"0:",
        b"5:hello",
        b"le",
        b"de",
        b"li42e5:helloe",
        b"d3:bar4:spam3:fooi42ee",
        b"d1:ad1:pi1e1:qi2ee1:blee",
        b"d4:infod6:lengthi12e4:name1:xee",
    ];
    for buffer in buffers {
        let value = bencode::parse(buffer).unwrap();
        assert_eq!(value.encode(), buffer.to_vec());
    }
}

#[test]
fn encoding_puts_a_lenient_buffer_in_canonical_form() {
    assert_eq!(bencode::parse(b"i007e").unwrap().encode(), b"i7e".to_vec());
    assert_eq!(bencode::parse(b"i-0e").unwrap().encode(), b"i0e".to_vec());
    assert_eq!(
        bencode::parse(b"03:abc").unwrap().encode(),
        b"3:abc".to_vec()
    );
    assert_eq!(
        bencode::parse(b"d1:bi2e1:ai1ee").unwrap().encode(),
        b"d1:ai1e1:bi2ee".to_vec()
    );
    assert_eq!(
        bencode::parse(b"d1:ai1e1:ai2ee").unwrap().encode(),
        b"d1:ai2ee".to_vec()
    );
}

#[test]
fn sample_survives_both_ways() {
    let value = sample();
    let bytes = value.encode();
    let again = bencode::parse(&bytes).unwrap();
    assert_eq!(again, value);
    assert_eq!(again.encode(), bytes);
}

/// A fixed sequence of numbers that looks shuffled.
fn shuffled(count: usize) -> Vec<u64> {
    let mut state: u64 = 0x2545_f491_4f6c_dd1d;
    let mut numbers = Vec::new();
    for _ in 0..count {
        state ^= state << 13;
        state ^= state >> 7;
        state ^= state << 17;
        numbers.push(state);
    }
    numbers
}

#[test]
fn many_keys_come_out_in_order() {
    let mut dictionary = Dictionary::new();
    let mut expected = std::collections::BTreeMap::new();
    for number in shuffled(300) {
        let length = (number % 5) as usize;
        let key: Vec<u8> = number.to_le_bytes()[..length].to_vec();
        let value = (number >> 40) as isize - 5000;
        dictionary.insert(key.clone(), Integer(value));
        expected.insert(key, value);
    }
    assert_eq!(dictionary.len(), expected.len());

    let mut bytes = b"d".to_vec();
    for (key, value) in &expected {
        bytes.extend_from_slice(format!("{}:", key.len()).as_bytes());
        bytes.extend_from_slice(key);
        bytes.extend_from_slice(format!("i{}e", value).as_bytes());
    }
    bytes.push(b'e');

    let value = Dict(dictionary);
    assert_eq!(value.encode(), bytes);
    assert_eq!(bencode::parse(&bytes), Ok(value));
    for (key, number) in &expected {
        assert_eq!(
            bencode::parse(&bytes).unwrap().get(key),
            Some(&Integer(*number))
        );
    }
}

#[test]
fn keys_in_descending_order_are_put_in_order() {
    let mut bytes = b"d".to_vec();
    let mut canonical = b"d".to_vec();
    for n in (0..100).rev() {
        bytes.extend_from_slice(format!("3:k{:02}i{}e", n, n).as_bytes());
    }
    for n in 0..100 {
        canonical.extend_from_slice(format!("3:k{:02}i{}e", n, n).as_bytes());
    }
    bytes.push(b'e');
    canonical.push(b'e');
    let value = bencode::parse(&bytes).unwrap();
    assert_eq!(value.encode(), canonical);
    assert_eq!(bencode::parse(&canonical), Ok(value));
}

#[test]
fn deep_nesting_survives_both_ways() {
    let depth = 200;
    let mut bytes = vec![b'l'; depth];
    bytes.extend_from_slice(b"i1e");
    bytes.extend(vec![b'e'; depth]);
    let value = bencode::parse(&bytes).unwrap();
    assert_eq!(value.encode(), bytes);
    let mut expected = Integer(1);
    for _ in 0..depth {
        expected = List(vec![expected]);
    }
    assert_eq!(value, expected);
}
