use bencode::Bencoded::{Bytestring, Dict, Integer, List};
use bencode::Dictionary;

#[test]
fn encode_integers() {
    assert_eq!(Integer(0).encode(), b"i0e".to_vec());
    assert_eq!(Integer(42).encode(), b"i42e".to_vec());
    assert_eq!(Integer(-42).encode(), b"i-42e".to_vec());
    assert_eq!(Integer(7).encode(), b"i7e".to_vec());
    assert_eq!(Integer(10).encode(), b"i10e".to_vec());
    assert_eq!(Integer(-1).encode(), b"i-1e".to_vec());
    assert_eq!(Integer(1234567890).encode(), b"i1234567890e".to_vec());
}

#[test]
fn encode_integers_at_the_limits() {
    assert_eq!(
        Integer(isize::MAX).encode(),
        format!("i{}e", isize::MAX).into_bytes()
    );
    assert_eq!(
        Integer(isize::MIN).encode(),
        format!("i{}e", isize::MIN).into_bytes()
    );
}

#[test]
fn encode_bytestrings() {
    assert_eq!(Bytestring(vec![]).encode(), b"0:".to_vec());
    assert_eq!(Bytestring(b"hej".to_vec()).encode(), b"3:hej".to_vec());
    assert_eq!(
        Bytestring(b"0123456789".to_vec()).encode(),
        b"10:0123456789".to_vec()
    );
    assert_eq!(
        Bytestring(vec![0x00, 0xff, 0x80]).encode(),
        vec![b'3', b':', 0x00, 0xff, 0x80]
    );
}

#[test]
fn encode_long_bytestring() {
    let bytes = vec![b'x'; 1000];
    let mut expected = b"1000:".to_vec();
    expected.extend_from_slice(&bytes);
    assert_eq!(Bytestring(bytes).encode(), expected);
}

#[test]
fn encode_lists() {
    assert_eq!(List(vec![]).encode(), b"le".to_vec());
    assert_eq!(List(vec![Integer(42)]).encode(), b"li42ee".to_vec());
    assert_eq!(
        List(vec![Integer(42), Bytestring(b"hello".to_vec())]).encode(),
        b"li42e5:helloe".to_vec()
    );
    assert_eq!(
        List(vec![Bytestring(b"hello".to_vec()), Integer(42)]).encode(),
        b"l5:helloi42ee".to_vec()
    );
    assert_eq!(
        List(vec![List(vec![]), List(vec![Integer(1)])]).encode(),
        b"lleli1eee".to_vec()
    );
}

#[test]
fn encode_dicts() {
    assert_eq!(Dict(Dictionary::new()).encode(), b"de".to_vec());
    let mut m = Dictionary::new();
    m.insert(b"foo".to_vec(), Integer(42));
    assert_eq!(Dict(m).encode(), b"d3:fooi42ee".to_vec());
}

#[test]
fn encode_dict_orders_the_keys() {
    let mut m = Dictionary::new();
    m.insert(b"foo".to_vec(), Integer(42));
    m.insert(b"bar".to_vec(), Bytestring(b"spam".to_vec()));
    assert_eq!(Dict(m).encode(), b"d3:bar4:spam3:fooi42ee".to_vec());

    let mut m = Dictionary::new();
    m.insert(b"bar".to_vec(), Bytestring(b"spam".to_vec()));
    m.insert(b"foo".to_vec(), Integer(42));
    assert_eq!(Dict(m).encode(), b"d3:bar4:spam3:fooi42ee".to_vec());
}

#[test]
fn encode_dict_orders_by_byte_value() {
    let mut m = Dictionary::new();
    m.insert(b"b".to_vec(), Integer(1));
    m.insert(b"ab".to_vec(), Integer(2));
    m.insert(vec![0xff], Integer(3));
    m.insert(b"a".to_vec(), Integer(4));
    m.insert(vec![], Integer(5));
    m.insert(b"B".to_vec(), Integer(6));
    let mut expected = b"d0:i5e1:Bi6e1:ai4e2:abi2e1:bi1e1:".to_vec();
    expected.push(0xff);
    expected.extend_from_slice(b"i3ee");
    assert_eq!(Dict(m).encode(), expected);
}

#[test]
fn encode_dict_after_overwriting_a_key() {
    let mut m = Dictionary::new();
    m.insert(b"k".to_vec(), Integer(1));
    m.insert(b"j".to_vec(), Integer(2));
    m.insert(b"k".to_vec(), Integer(3));
    assert_eq!(Dict(m).encode(), b"d1:ji2e1:ki3ee".to_vec());
}

#[test]
fn encode_nested_dicts() {
    let mut inner = Dictionary::new();
    inner.insert(b"z".to_vec(), List(vec![Integer(-1)]));
    inner.insert(b"y".to_vec(), Bytestring(vec![]));
    let mut outer = Dictionary::new();
    outer.insert(b"in".to_vec(), Dict(inner));
    outer.insert(b"a".to_vec(), Integer(0));
    assert_eq!(
        Dict(outer).encode(),
        b"d1:ai0e2:ind1:y0:1:zli-1eeee".to_vec()
    );
}

#[test]
fn to_string_shows_each_byte_as_a_character() {
    assert_eq!(Integer(-7).to_string(), "i-7e");
    assert_eq!(Bytestring(vec![0xe9]).to_string(), "1:\u{e9}");
    assert_eq!(Bytestring(vec![0x00, 0x7f]).to_string(), "2:\u{0}\u{7f}");
    assert_eq!(List(vec![]).to_string(), "le");
}

#[test]
fn to_string_agrees_with_encode() {
    let mut m = Dictionary::new();
    m.insert(b"foo".to_vec(), Integer(42));
    m.insert(b"bar".to_vec(), Bytestring(vec![0x80, 0xff]));
    let value = List(vec![Dict(m), Integer(-3)]);
    let text: String = value.encode().iter().map(|b| *b as char).collect();
    assert_eq!(value.to_string(), text);
}
