use bencode::Bencoded::{Bytestring, Dict, Integer, List};
use bencode::{Bencoded, Dictionary};

#[test]
fn get_finds_the_value_under_a_key() {
    let mut m = Dictionary::new();
    m.insert(b"n".to_vec(), Integer(42));
    assert_eq!(Dict(m).get(b"n"), Some(&Integer(42)));
}

#[test]
fn get_on_another_shape_finds_nothing() {
    assert_eq!(Integer(5).get(b"n"), None);
    assert_eq!(Bytestring(b"n".to_vec()).get(b"n"), None);
    assert_eq!(List(vec![Bytestring(b"n".to_vec())]).get(b"n"), None);
}

#[test]
fn get_of_a_missing_key_finds_nothing() {
    assert_eq!(Dict(Dictionary::new()).get(b"missing"), None);
    let mut m = Dictionary::new();
    m.insert(b"n".to_vec(), Integer(42));
    let d = Dict(m);
    assert_eq!(d.get(b"m"), None);
    assert_eq!(d.get(b""), None);
    assert_eq!(d.get(b"nn"), None);
}

#[test]
fn get_compares_keys_byte_by_byte() {
    let mut m = Dictionary::new();
    m.insert(vec![0xc3, 0xa9], Integer(1));
    m.insert(vec![0x65, 0xcc, 0x81], Integer(2));
    m.insert(vec![], Integer(3));
    let d = Dict(m);
    assert_eq!(d.get(&[0xc3, 0xa9]), Some(&Integer(1)));
    assert_eq!(d.get(&[0x65, 0xcc, 0x81]), Some(&Integer(2)));
    assert_eq!(d.get(&[]), Some(&Integer(3)));
    assert_eq!(d.get(&[0xc3]), None);
}

#[test]
fn get_after_decoding() {
    let d = bencode::parse(b"d4:infod6:lengthi12e4:name1:xee").unwrap();
    let info = d.get(b"info").unwrap();
    assert_eq!(info.get(b"length"), Some(&Integer(12)));
    assert_eq!(info.get(b"name"), Some(&Bytestring(b"x".to_vec())));
    assert_eq!(d.get(b"length"), None);
}

#[test]
fn dictionary_insert_returns_what_was_there() {
    let mut m = Dictionary::new();
    assert_eq!(m.len(), 0);
    assert_eq!(m.insert(b"a".to_vec(), Integer(1)), None);
    assert_eq!(m.insert(b"b".to_vec(), Integer(2)), None);
    assert_eq!(m.len(), 2);
    assert_eq!(m.insert(b"a".to_vec(), Integer(3)), Some(Integer(1)));
    assert_eq!(m.len(), 2);
    assert_eq!(m.get(b"a"), Some(&Integer(3)));
    assert_eq!(m.get(b"b"), Some(&Integer(2)));
    assert_eq!(m.get(b"c"), None);
}

#[test]
fn dictionary_sorted_entries_ascend() {
    let mut m = Dictionary::new();
    m.insert(b"pear".to_vec(), Integer(1));
    m.insert(b"apple".to_vec(), Integer(2));
    m.insert(b"pea".to_vec(), Integer(3));
    m.insert(b"zoo".to_vec(), Integer(4));
    m.insert(b"apple".to_vec(), Integer(5));
    let sorted = m.sorted_entries();
    let keys: Vec<&[u8]> = sorted.iter().map(|e| e.0).collect();
    assert_eq!(
        keys,
        vec![&b"apple"[..], &b"pea"[..], &b"pear"[..], &b"zoo"[..]]
    );
    let values: Vec<&Bencoded> = sorted.iter().map(|e| e.1).collect();
    assert_eq!(
        values,
        vec![&Integer(5), &Integer(3), &Integer(1), &Integer(4)]
    );
    assert!(Dictionary::new().sorted_entries().is_empty());
}

#[test]
fn equal_values() {
    assert_eq!(Integer(1), Integer(1));
    assert_ne!(Integer(1), Integer(2));
    assert_eq!(Bytestring(b"a".to_vec()), Bytestring(b"a".to_vec()));
    assert_ne!(Bytestring(b"a".to_vec()), Bytestring(b"b".to_vec()));
    assert_ne!(Bytestring(b"a".to_vec()), Bytestring(b"aa".to_vec()));
    assert_ne!(Bytestring(b"1".to_vec()), Integer(1));
    assert_ne!(List(vec![]), Dict(Dictionary::new()));
    assert_ne!(List(vec![Integer(1)]), Integer(1));
}

#[test]
fn lists_are_equal_in_order_only() {
    assert_eq!(
        List(vec![Integer(1), Integer(2)]),
        List(vec![Integer(1), Integer(2)])
    );
    assert_ne!(
        List(vec![Integer(1), Integer(2)]),
        List(vec![Integer(2), Integer(1)])
    );
    assert_ne!(List(vec![Integer(1)]), List(vec![Integer(1), Integer(1)]));
    assert_ne!(List(vec![Integer(1), Integer(2)]), List(vec![Integer(1)]));
}

#[test]
fn dicts_are_equal_in_any_order() {
    let mut a = Dictionary::new();
    a.insert(b"x".to_vec(), Integer(1));
    a.insert(b"y".to_vec(), List(vec![Integer(2)]));
    let mut b = Dictionary::new();
    b.insert(b"y".to_vec(), List(vec![Integer(2)]));
    b.insert(b"x".to_vec(), Integer(1));
    assert_eq!(a, b);
    assert_eq!(Dict(a), Dict(b));
}

#[test]
fn dicts_differ_by_key_or_value() {
    let mut a = Dictionary::new();
    a.insert(b"x".to_vec(), Integer(1));
    let mut b = Dictionary::new();
    b.insert(b"x".to_vec(), Integer(2));
    let mut c = Dictionary::new();
    c.insert(b"y".to_vec(), Integer(1));
    let mut d = Dictionary::new();
    d.insert(b"x".to_vec(), Integer(1));
    d.insert(b"y".to_vec(), Integer(1));
    assert_ne!(a, b);
    assert_ne!(a, c);
    assert_ne!(a, d);
    assert_ne!(d, a);
    assert_ne!(Dict(a), Dict(Dictionary::new()));
}

#[test]
fn nested_dicts_are_equal_in_any_order() {
    let left = bencode::parse(b"d1:ad1:pi1e1:qi2ee1:blee").unwrap();
    let right = bencode::parse(b"d1:ble1:ad1:qi2e1:pi1eee").unwrap();
    assert_eq!(left, right);
}
