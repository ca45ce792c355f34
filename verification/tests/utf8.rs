use cursor_api::byte_str::ByteStr;
use cursor_api::utf8::{
    in_inclusive_range8, is_valid_ascii, is_valid_utf8, utf8_valid_up_to, validate_ascii,
    validate_utf8, Utf8Data,
};

#[test]
fn valid_inputs() {
    for s in ["", "ascii only", "héllo", "日本語", "emoji 🦀 crab", "\u{7f}\u{80}\u{7ff}\u{800}\u{ffff}\u{10000}\u{10ffff}"] {
        assert!(is_valid_utf8(s.as_bytes()), "{s:?}");
        assert_eq!(utf8_valid_up_to(s.as_bytes()), s.len());
        assert_eq!(validate_utf8(s.as_bytes()), Ok(()));
    }
}

#[test]
fn valid_prefix_matches_std() {
    let cases: [&[u8]; 12] = [
        b"abc\xff",
        b"\x80",
        b"ab\xc3",
        b"\xc0\x80",
        b"\xc1\xbf",
        b"\xe0\x80\x80",
        b"\xed\xa0\x80",
        b"\xf0\x8f\xbf\xbf",
        b"\xf4\x90\x80\x80",
        b"\xf5\x80\x80\x80",
        b"ok\xe2\x82",
        b"\xe2\x82\xacx\xf0\x9f\xa6",
    ];
    for bytes in cases {
        let ours = validate_utf8(bytes).unwrap_err();
        let std = std::str::from_utf8(bytes).unwrap_err();
        assert_eq!(ours.valid_up_to(), std.valid_up_to(), "{bytes:?}");
        assert_eq!(ours.error_len().map(usize::from), std.error_len(), "{bytes:?}");
        assert_eq!(utf8_valid_up_to(bytes), std.valid_up_to());
        assert!(!is_valid_utf8(bytes));
    }
}

#[test]
fn error_lengths() {
    // An unexpected end of input has no error length.
    let e = validate_utf8(b"\xe2\x82").unwrap_err();
    assert_eq!((e.valid_up_to(), e.error_len()), (0, None));
    // A stray continuation byte is one byte long.
    let e = validate_utf8(b"a\x80b").unwrap_err();
    assert_eq!((e.valid_up_to(), e.error_len()), (1, Some(1)));
    // A sequence cut short by a byte that does not continue it.
    let e = validate_utf8(b"\xe2\x82x").unwrap_err();
    assert_eq!((e.valid_up_to(), e.error_len()), (0, Some(2)));
}

#[test]
fn ascii_checks() {
    assert_eq!(validate_ascii(b"plain"), None);
    assert_eq!(validate_ascii(b"pl\xc3\xa9"), Some((0xc3, 2)));
    assert!(is_valid_ascii(b""));
    assert!(!is_valid_ascii("é".as_bytes()));
    assert!(in_inclusive_range8(0x85, 0x80, 0xbf));
    assert!(!in_inclusive_range8(0x7f, 0x80, 0xbf));
    assert!(!in_inclusive_range8(0xc0, 0x80, 0xbf));
}

#[test]
fn byte_str_api() {
    let empty = ByteStr::new();
    assert!(empty.is_empty());
    assert_eq!(empty.len(), 0);

    let s = ByteStr::from_static("héllo");
    assert_eq!(s.len(), 6);
    assert_eq!(s.as_str(), "héllo");
    assert_eq!(s.as_bytes(), "héllo".as_bytes());
    assert_eq!(s.clone(), s);
    assert!(s.eq_str("héllo"));
    assert!(!s.eq_str("hello"));

    let owned = ByteStr::from_string(String::from("owned"));
    assert_eq!(owned.as_str(), "owned");
    assert_eq!(owned.into_bytes(), b"owned".to_vec());

    let ok = ByteStr::from_utf8(vec![0xe6, 0x97, 0xa5]).unwrap();
    assert_eq!(ok.as_str(), "日");
    let err = ByteStr::from_utf8(vec![b'a', 0xff]).unwrap_err();
    assert_eq!(err.valid_up_to(), 1);
    assert_eq!(err.error_len(), Some(1));

    let mut cleared = ByteStr::from_str_slice("gone");
    cleared.clear();
    assert!(cleared.is_empty());
    assert_eq!(ByteStr::default(), ByteStr::new());
}

#[test]
fn byte_str_split_like_str() {
    let texts = ["key=value=more", "no delimiter", "", "=", "日本=語=", "a==b"];
    let delims = ["=", "==", "語", "", "missing"];
    for t in texts {
        let s = ByteStr::from_static(t);
        for d in delims {
            let ours = s.split_once(d).map(|(a, b)| (a.as_str().to_string(), b.as_str().to_string()));
            let std = t.split_once(d).map(|(a, b)| (a.to_string(), b.to_string()));
            assert_eq!(ours, std, "split_once({t:?}, {d:?})");
            let ours = s.rsplit_once(d).map(|(a, b)| (a.as_str().to_string(), b.as_str().to_string()));
            let std = t.rsplit_once(d).map(|(a, b)| (a.to_string(), b.to_string()));
            assert_eq!(ours, std, "rsplit_once({t:?}, {d:?})");
        }
    }
}

#[test]
fn byte_str_slice() {
    let s = ByteStr::from_static("héllo");
    assert_eq!(s.slice(0, 1).as_str(), "h");
    assert_eq!(s.slice(1, 3).as_str(), "é");
    assert_eq!(s.slice(3, 6).as_str(), "llo");
    assert!(s.slice(2, 2).is_empty());
}

#[test]
fn lookup_table_entries() {
    let data = Utf8Data::new();
    // Classes of the byte after a lead.
    assert_eq!(data.table[0x41], 252);
    assert_eq!(data.table[0x80], 84);
    assert_eq!(data.table[0x95], 148);
    assert_eq!(data.table[0xbf], 164);
    assert_eq!(data.table[0xc0], 252);
    // Masks of lead bytes, at `lead + 0x80`.
    assert_eq!(data.table[0xc1 + 0x80], 4);
    assert_eq!(data.table[0xc2 + 0x80], 8);
    assert_eq!(data.table[0xe0 + 0x80], 16);
    assert_eq!(data.table[0xed + 0x80], 32);
    assert_eq!(data.table[0xf0 + 0x80], 64);
    assert_eq!(data.table[0xf4 + 0x80], 128);
    assert_eq!(data.table[0xf5 + 0x80], 4);
}

#[test]
fn every_short_sequence_matches_std() {
    let thirds = [0x00u8, 0x41, 0x80, 0x9f, 0xa0, 0xbf, 0xc0, 0xff];
    for lead in 0x80u8..=0xff {
        for second in 0u8..=0xff {
            for &third in &thirds {
                for &fourth in &[0x80u8, 0xc0] {
                    let seq = [lead, second, third, fourth];
                    // With room after it, the sequence is checked at once; at
                    // the very end, one byte at a time.
                    for pad in [0usize, 5] {
                        let mut bytes = b"ab".to_vec();
                        bytes.extend_from_slice(&seq);
                        bytes.extend(std::iter::repeat(b'z').take(pad));
                        let expected = match std::str::from_utf8(&bytes) {
                            Ok(_) => bytes.len(),
                            Err(e) => e.valid_up_to(),
                        };
                        assert_eq!(utf8_valid_up_to(&bytes), expected, "{bytes:x?}");
                        let cut = &bytes[..2 + 3];
                        let expected = match std::str::from_utf8(cut) {
                            Ok(_) => cut.len(),
                            Err(e) => e.valid_up_to(),
                        };
                        assert_eq!(utf8_valid_up_to(cut), expected, "{cut:x?}");
                    }
                }
            }
        }
    }
}

#[test]
fn runs_of_multibyte_sequences() {
    let text = "aé€𝄞日本語 mixed ascii ééé €€€ 𝄞𝄞 end";
    for start in 0..text.len() {
        for end in start..=text.len() {
            let bytes = &text.as_bytes()[start..end];
            let expected = match std::str::from_utf8(bytes) {
                Ok(_) => bytes.len(),
                Err(e) => e.valid_up_to(),
            };
            assert_eq!(utf8_valid_up_to(bytes), expected, "{start}..{end}");
        }
    }
}
