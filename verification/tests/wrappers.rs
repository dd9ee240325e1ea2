use pmxcfs::digest::sha256;
use pmxcfs::logger::entry::read_null_terminated;
use pmxcfs::text::string_from_utf8;

#[test]
fn sha256_known_vectors() {
    let empty = sha256(b"");
    assert_eq!(
        empty,
        [
            0xe3, 0xb0, 0xc4, 0x42, 0x98, 0xfc, 0x1c, 0x14, 0x9a, 0xfb, 0xf4, 0xc8, 0x99, 0x6f, 0xb9, 0x24, 0x27, 0xae,
            0x41, 0xe4, 0x64, 0x9b, 0x93, 0x4c, 0xa4, 0x95, 0x99, 0x1b, 0x78, 0x52, 0xb8, 0x55
        ]
    );
    let abc = sha256(b"abc");
    assert_eq!(
        abc,
        [
            0xba, 0x78, 0x16, 0xbf, 0x8f, 0x01, 0xcf, 0xea, 0x41, 0x41, 0x40, 0xde, 0x5d, 0xae, 0x22, 0x23, 0xb0, 0x03,
            0x61, 0xa3, 0x96, 0x17, 0x7a, 0x9c, 0xb4, 0x10, 0xff, 0x61, 0xf2, 0x00, 0x15, 0xad
        ]
    );
}

#[test]
fn utf8_decoding_of_byte_strings() {
    assert_eq!(string_from_utf8(b"h\xc3\xa9llo"), Some("héllo".to_string()));
    assert_eq!(string_from_utf8(b""), Some(String::new()));
    assert_eq!(string_from_utf8(b"\xff\xfe"), None);
    assert_eq!(string_from_utf8(b"ab\xc3"), None);
}

#[test]
fn null_terminated_text_is_decoded_lossily() {
    assert_eq!(read_null_terminated(b"node1\0garbage").unwrap(), "node1");
    assert_eq!(read_null_terminated(b"no-nul").unwrap(), "no-nul");
    assert_eq!(read_null_terminated(b"\0").unwrap(), "");
    assert_eq!(read_null_terminated(b"a\xffb\0").unwrap(), "a\u{fffd}b");
    assert_eq!(read_null_terminated(b"\xc3\xa9\0").unwrap(), "é");
}
