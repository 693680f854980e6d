use bencode::Bencoded::{Bytestring, Dict, Integer, List};
use bencode::Dictionary;

#[test]
fn parse_big_dict() {
    let mut m = Dictionary::new();
    m.insert(b"bar".to_vec(), Bytestring(b"spam".to_vec()));
    m.insert(b"foo".to_vec(), Integer(42));

    assert_eq!(bencode::parse(b"d3:bar4:spam3:fooi42ee"), Ok(Dict(m)));
}

#[test]
fn bencoded_display() {
    assert_eq!(Integer(42).to_string(), "i42e");
    assert_eq!(Bytestring(b"hej".to_vec()).to_string(), "3:hej");
    assert_eq!(List(vec![Integer(42)]).to_string(), "li42ee");

    let mut m = Dictionary::new();
    m.insert(b"foo".to_vec(), Integer(42));
    assert_eq!(Dict(m).to_string(), "d3:fooi42ee");

    let s = "d3:bar4:spam3:fooi42ee".to_string();
    assert_eq!(bencode::parse(s.as_bytes()).unwrap().to_string(), s);
}
