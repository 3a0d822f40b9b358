use rust_monitor::base64::{base64_url_decode, base64_url_encode, decode, encode};
use rust_monitor::url::urlenc;

#[test]
fn encoding_has_its_known_forms() {
    for (plain, coded) in [
        ("", ""),
        ("f", "Zg=="),
        ("fo", "Zm8="),
        ("foo", "Zm9v"),
        ("foob", "Zm9vYg=="),
        ("fooba", "Zm9vYmE="),
        ("foobar", "Zm9vYmFy"),
    ] {
        assert_eq!(encode(plain.as_bytes()), coded);
        assert_eq!(decode(coded), Some(plain.as_bytes().to_vec()));
        assert_eq!(base64_url_encode(plain.as_bytes()), coded.trim_end_matches('='));
        assert_eq!(base64_url_decode(coded), Some(plain.as_bytes().to_vec()));
    }
    assert_eq!(encode(&[0xfb, 0xff, 0xfe]), "+//+");
    assert_eq!(base64_url_encode(&[0xfb, 0xff, 0xfe]), "-__-");
}

#[test]
fn decoding_inverts_encoding() {
    let mut data: Vec<u8> = Vec::new();
    for i in 0..300u32 {
        assert_eq!(decode(&encode(&data)), Some(data.clone()));
        assert_eq!(base64_url_decode(&base64_url_encode(&data)), Some(data.clone()));
        data.push((i * 37 % 256) as u8);
    }
}

#[test]
fn decoding_refuses_what_is_not_base64() {
    assert_eq!(decode("Zg="), None);
    assert_eq!(decode("Zg"), None);
    assert_eq!(decode("Z!=="), None);
    assert_eq!(decode("Zgé="), None);
    assert_eq!(decode("Zm\n9v\r\n"), Some(b"foo".to_vec()));
    // A padding character counts as zero bits wherever it stands.
    assert_eq!(decode("===="), Some(vec![0]));
    assert_eq!(decode("=m9v"), Some(vec![0x02, 0x6f, 0x6f]));
    assert_eq!(decode("Zm=v"), Some(vec![0x66, 0x2f]));
    assert_eq!(base64_url_decode("Z"), Some(vec![0x64]));
    assert_eq!(base64_url_decode("é"), None);
}

#[test]
fn urls_are_escaped_by_bytes() {
    assert_eq!(urlenc("AZaz09-_.~"), "AZaz09-_.~");
    assert_eq!(urlenc("a b/c?d=é"), "a%20b%2Fc%3Fd%3D%C3%A9");
    assert_eq!(urlenc(""), "");
    assert_eq!(urlenc("\u{7f}%\n"), "%7F%25%0A");
    assert_ne!(urlenc("a+b"), urlenc("a b"));
}
