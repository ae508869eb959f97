use nvim_oxi::string::NvimString;

#[test]
fn partial_eq() {
    let lhs = NvimString::from("foo bar baz");
    let rhs = NvimString::from("foo bar baz");
    assert_eq!(lhs, rhs);

    let lhs = NvimString::from("foo bar baz");
    let rhs = NvimString::from("bar foo baz");
    assert_ne!(lhs, rhs);

    let lhs = NvimString::from("€");
    let rhs = "€";
    assert_eq!(lhs, rhs);
}

#[test]
fn clone() {
    let lhs = NvimString::from("abc");
    let rhs = lhs.clone();

    assert_eq!(lhs, rhs);
}

#[test]
fn from_string() {
    let foo = String::from("foo bar baz");

    let lhs = NvimString::from(foo.as_ref());
    let rhs = NvimString::from(foo);

    assert_eq!(lhs, rhs);
}

#[test]
fn to_bytes() {
    let s = NvimString::from("hello");
    let bytes = s.into_bytes();
    assert_eq!(&[104, 101, 108, 108, 111][..], &bytes[..]);
}

#[test]
fn as_bytes_round_trip() {
    let cases: Vec<Vec<u8>> = vec![
        vec![],
        vec![0],
        vec![0x66, 0x6f, 0x6f],
        vec![0x66, 0x6f, 0x6f, 0x00, 0x62, 0x61, 0x72],
        vec![0xff, 0xfe, 0x80],
    ];
    for b in cases {
        let s = NvimString::from_bytes(b.clone());
        assert_eq!(s.as_bytes(), &b[..]);
        assert_eq!(s.len(), b.len());
        assert_eq!(s.into_bytes(), b);
    }
}

#[test]
fn empty_is_null_sentinel() {
    let s = NvimString::from_bytes(Vec::new());
    assert!(s.data_is_null());
    assert!(s.is_empty());
    assert_eq!(s.len(), 0);
    assert_eq!(s.as_bytes(), &[][..]);

    let t = NvimString::new();
    assert!(t.data_is_null());

    let u = NvimString::from_bytes(vec![1]);
    assert!(!u.data_is_null());
}

#[test]
fn as_str_strict() {
    let ok = NvimString::from("héllo");
    assert_eq!(ok.as_str().unwrap(), "héllo");

    // embedded zero byte is rejected, reporting its offset
    let nul = NvimString::from_bytes(vec![0x66, 0x6f, 0x6f, 0x00, 0x62, 0x61, 0x72]);
    let err = nul.as_str().unwrap_err();
    assert_eq!(err.offset, 3);

    // malformed UTF-8 is rejected at the first bad byte
    let bad = NvimString::from_bytes(vec![0x66, 0x80]);
    assert_eq!(bad.as_str().unwrap_err().offset, 1);

    // truncated multi-byte sequence is rejected at its start
    let cut = NvimString::from_bytes(vec![0xe0, 0xa0]);
    assert_eq!(cut.as_str().unwrap_err().offset, 0);

    // overlong encoding of '/' is rejected
    let overlong = NvimString::from_bytes(vec![0xc0, 0xaf]);
    assert_eq!(overlong.as_str().unwrap_err().offset, 0);

    // surrogate range is rejected
    let surrogate = NvimString::from_bytes(vec![0xed, 0xa0, 0x80]);
    assert_eq!(surrogate.as_str().unwrap_err().offset, 0);
}

#[test]
fn into_string_recovers_bytes() {
    let ok = NvimString::from("plain");
    assert_eq!(ok.into_string().unwrap(), "plain");

    let bytes = vec![0x61, 0xf5, 0x62];
    let bad = NvimString::from_bytes(bytes.clone());
    let err = bad.into_string().unwrap_err();
    assert_eq!(err.offset, 1);
    assert_eq!(err.bytes, bytes);
}

#[test]
fn lossy_conversion() {
    let ok = NvimString::from("héllo");
    assert_eq!(ok.to_string_lossy(), "héllo");

    let bad = NvimString::from_bytes(vec![0x66, 0xff, 0x6f]);
    assert_eq!(bad.to_string_lossy(), "f\u{fffd}o");

    // an embedded zero byte cannot survive the C boundary, so the lossy
    // form replaces it as well
    let nul = NvimString::from_bytes(vec![0x66, 0x00, 0x6f]);
    assert_eq!(nul.to_string_lossy(), "f\u{fffd}o");
}

#[test]
fn lossy_replaces_maximal_subparts() {
    // a truncated three-byte sequence is one maximal subpart
    let s = NvimString::from_bytes(vec![0xe0, 0xa0]);
    assert_eq!(s.to_string_lossy(), "\u{fffd}");

    // well-formed prefix of a three-byte sequence, then an ASCII byte
    let s = NvimString::from_bytes(vec![0xe0, 0xa0, 0x61]);
    assert_eq!(s.to_string_lossy(), "\u{fffd}a");

    // truncated four-byte sequence with two continuation bytes
    let s = NvimString::from_bytes(vec![0xf0, 0x9f, 0x92]);
    assert_eq!(s.to_string_lossy(), "\u{fffd}");
    let s = NvimString::from_bytes(vec![0xf4, 0x80, 0x61]);
    assert_eq!(s.to_string_lossy(), "\u{fffd}a");

    // a continuation byte outside the lead's allowed range starts a new
    // subpart: 0x80 may not follow 0xE0
    let s = NvimString::from_bytes(vec![0xe0, 0x80]);
    assert_eq!(s.to_string_lossy(), "\u{fffd}\u{fffd}");

    // surrogate: 0xA0 may not follow 0xED, so three lone bytes
    let s = NvimString::from_bytes(vec![0xed, 0xa0, 0x80]);
    assert_eq!(s.to_string_lossy(), "\u{fffd}\u{fffd}\u{fffd}");

    // an overlong two-byte lead stands alone
    let s = NvimString::from_bytes(vec![0xc0, 0xaf]);
    assert_eq!(s.to_string_lossy(), "\u{fffd}\u{fffd}");

    // matches the lossy decoding of std on non-zero bytes
    for bytes in [
        vec![0xe0, 0xa0],
        vec![0xe0, 0xa0, 0x61],
        vec![0xf0, 0x9f, 0x92],
        vec![0xf4, 0x80, 0x61],
        vec![0xe0, 0x80],
        vec![0xed, 0xa0, 0x80],
        vec![0xc0, 0xaf],
        vec![0x66, 0xff, 0x6f],
        vec![0xf0, 0x9f, 0x92, 0x96, 0x2c, 0xfe],
    ] {
        let ours = NvimString::from_bytes(bytes.clone()).to_string_lossy();
        assert_eq!(ours, String::from_utf8_lossy(&bytes));
    }
}

#[test]
fn ordering_is_bytewise_lexicographic() {
    let a = NvimString::from("ab");
    let b = NvimString::from("abc");
    assert!(a < b);
    assert!(b > a);

    let c = NvimString::from_bytes(vec![0x61, 0x00]);
    let d = NvimString::from_bytes(vec![0x61, 0x01]);
    assert!(c < d);

    let e = NvimString::from("ab");
    assert_eq!(a.partial_cmp(&e), Some(std::cmp::Ordering::Equal));
}

#[test]
fn clone_is_independent() {
    let original = NvimString::from_bytes(vec![1, 2, 0, 3]);
    let copy = original.clone();
    drop(original);
    assert_eq!(copy.as_bytes(), &[1, 2, 0, 3][..]);
}

#[test]
fn non_owning_view_reads_original() {
    let s = NvimString::from("view me");
    let view = s.non_owning();
    assert_eq!(view.get().as_bytes(), s.as_bytes());
}

#[test]
fn from_char_and_default() {
    let c = NvimString::from('€');
    assert_eq!(c.as_bytes(), "€".as_bytes());

    let a = NvimString::from('a');
    assert_eq!(a.as_bytes(), &[0x61][..]);

    let d = NvimString::default();
    assert!(d.is_empty());
    assert!(d.data_is_null());
}

#[test]
fn try_from_is_strict() {
    let ok = NvimString::from("fine");
    let s: String = String::try_from(ok).unwrap();
    assert_eq!(s, "fine");

    let bad = NvimString::from_bytes(vec![0x61, 0x00]);
    let err = String::try_from(bad).unwrap_err();
    assert_eq!(err.offset, 1);
    assert_eq!(err.bytes, vec![0x61, 0x00]);
}

#[test]
fn embedded_nul_scenario() {
    // "foo\0bar": all seven bytes survive every byte-level round trip,
    // and strict text conversion detects the embedded zero byte.
    let bytes = vec![0x66, 0x6f, 0x6f, 0x00, 0x62, 0x61, 0x72];
    let s = NvimString::from_bytes(bytes.clone());
    assert_eq!(s.len(), 7);
    assert_eq!(s.as_bytes(), &bytes[..]);
    assert!(s.as_str().is_err());
    assert_eq!(s.as_str().unwrap_err().offset, 3);
    assert_eq!(s.into_bytes(), bytes);
}
