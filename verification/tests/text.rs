use slipspace::bytes::{
    append_bytes, ascii_bytes, bytes_eq, copy_range, decimal_bytes, find_byte, read_number,
    trimmed_end,
};
use slipspace::digest::{cache_file_name, digest_name, lossy_bytes};

#[test]
fn every_white_character_is_trimmed() {
    let mut n = 0u32;
    while n <= 0x10ffff {
        if let Some(c) = char::from_u32(n) {
            let s = format!("ab{}", c);
            assert_eq!(
                trimmed_end(s.as_bytes()),
                s.trim_end().as_bytes().to_vec(),
                "{:?}",
                c
            );
        }
        n += 1;
    }
}

#[test]
fn white_tails_are_trimmed_whole() {
    for s in ["", " ", "a \t\r\n", " a b \n", "a\u{2003}\u{a0} \n", "\n\n\n", "\u{85}", "a\u{3000}"] {
        assert_eq!(trimmed_end(s.as_bytes()), s.trim_end().as_bytes().to_vec(), "{:?}", s);
    }
}

#[test]
fn numbers_are_read_as_std_reads_them() {
    for s in [
        "", "+", "-", "0", "00", "7", "+7", "-7", "+-7", "++7", "12a", " 12", "12 ", "65535",
        "65536", "18446744073709551615", "18446744073709551616", "99999999999999999999999",
        "+18446744073709551615", "000000000000000000000000005", "\u{0661}",
    ] {
        assert_eq!(read_number(s.as_bytes(), u64::MAX), s.parse::<u64>().ok(), "{:?}", s);
        assert_eq!(
            read_number(s.as_bytes(), u16::MAX as u64),
            s.parse::<u16>().ok().map(|n| n as u64),
            "{:?}",
            s
        );
    }
}

#[test]
fn decimals_are_read_back() {
    for n in [0, 1, 9, 10, 11, 99, 100, 4095, 1000000, u64::MAX - 1, u64::MAX] {
        let d = decimal_bytes(n);
        assert_eq!(d, n.to_string().into_bytes());
        assert_eq!(read_number(&d, u64::MAX), Some(n));
    }
    assert_eq!(read_number(&decimal_bytes(101), 100), None);
}

#[test]
fn byte_strings_are_built_and_searched() {
    let mut v = ascii_bytes("abc");
    append_bytes(&mut v, b" def");
    assert_eq!(v, b"abc def".to_vec());
    assert_eq!(find_byte(&v, b' ', 0), 3);
    assert_eq!(find_byte(&v, b' ', 4), 7);
    assert_eq!(copy_range(&v, 4, 6), b"de".to_vec());
    assert!(bytes_eq(&v, b"abc def"));
    assert!(!bytes_eq(&v, b"abc deg"));
    assert!(!bytes_eq(&v, b"abc de"));
}

#[test]
fn broken_text_is_mended() {
    assert_eq!(lossy_bytes(b"plain"), b"plain".to_vec());
    assert_eq!(lossy_bytes("gr\u{fc}n".as_bytes()), "gr\u{fc}n".as_bytes().to_vec());
    assert_eq!(lossy_bytes(b"a\xffb"), "a\u{fffd}b".as_bytes().to_vec());
}

#[test]
fn digests_are_written_in_hex() {
    assert_eq!(digest_name(&[0, 0x1f, 0xa9, 0xff]), b"001fa9ff".to_vec());
    assert_eq!(digest_name(&[]), Vec::<u8>::new());
}

#[test]
fn cache_names_are_digests() {
    // The SHA-256 digests of the empty text and of `abc`.
    assert_eq!(
        cache_file_name(b""),
        b"e3b0c44298fc1c149afbf4c8996fb92427ae41e4649b934ca495991b7852b855".to_vec()
    );
    assert_eq!(
        cache_file_name(b"abc"),
        b"ba7816bf8f01cfea414140de5dae2223b00361a396177a9cb410ff61f20015ad".to_vec()
    );
    // What is no text is mended first.
    assert_eq!(cache_file_name(b"a\xff"), cache_file_name("a\u{fffd}".as_bytes()));
    assert_ne!(cache_file_name(b"/srv/a"), cache_file_name(b"/srv/b"));
}
