use kvdb::{decode, encode};

#[test]
fn it_works() {
    assert_eq!(String::from("TXkgU3RyaW5n"), encode("My String".as_bytes()));
}

#[test]
fn encode_empty_input() {
    assert_eq!(encode(b""), "");
}

#[test]
fn encode_pads_partial_groups() {
    assert_eq!(encode(b"f"), "Zg==");
    assert_eq!(encode(b"fo"), "Zm8=");
    assert_eq!(encode(b"foo"), "Zm9v");
    assert_eq!(encode(b"foob"), "Zm9vYg==");
    assert_eq!(encode(b"fooba"), "Zm9vYmE=");
    assert_eq!(encode(b"foobar"), "Zm9vYmFy");
}

#[test]
fn encode_uses_plus_and_slash() {
    assert_eq!(encode(&[0xfb, 0xff, 0xbf]), "+/+/");
    assert_eq!(encode(&[0, 0, 0]), "AAAA");
}

#[test]
fn decode_refuses_every_input() {
    assert_eq!(decode("TXkgU3RyaW5n"), None);
    assert_eq!(decode(""), None);
}
