use fable::error::{Error, ErrorKind};
use fable::shared::{
    decode_bytes_as_utf8_string, decode_null_terminated_string, decode_rle_string, same_text,
    text_of,
};

fn text(s: &str) -> String {
    s.to_string()
}

#[test]
fn bytes_as_utf8_takes_the_whole_input() {
    assert_eq!(decode_bytes_as_utf8_string(b"hello"), Ok((&b""[..], text("hello"))));
    assert_eq!(decode_bytes_as_utf8_string(b""), Ok((&b""[..], text(""))));
    assert_eq!(
        decode_bytes_as_utf8_string("gr\u{fc}n \u{2603}".as_bytes()),
        Ok((&b""[..], text("gr\u{fc}n \u{2603}")))
    );
}

#[test]
fn bytes_that_are_not_utf8_fail() {
    assert_eq!(
        decode_bytes_as_utf8_string(b"ab\xff"),
        Err(Error { kind: ErrorKind::Utf8Error, remaining: 3 })
    );
    assert_eq!(
        decode_bytes_as_utf8_string(b"\xed\xa0\x80"),
        Err(Error { kind: ErrorKind::Utf8Error, remaining: 3 })
    );
    assert_eq!(
        decode_bytes_as_utf8_string(b"\xc0\xaf"),
        Err(Error { kind: ErrorKind::Utf8Error, remaining: 2 })
    );
    assert_eq!(
        decode_bytes_as_utf8_string(b"\xf4\x90\x80\x80"),
        Err(Error { kind: ErrorKind::Utf8Error, remaining: 4 })
    );
    assert_eq!(
        decode_bytes_as_utf8_string(b"\xe2\x98"),
        Err(Error { kind: ErrorKind::Utf8Error, remaining: 2 })
    );
}

#[test]
fn text_of_bytes() {
    assert_eq!(text_of(b"abc"), Some(text("abc")));
    assert_eq!(text_of("\u{10ffff}".as_bytes()), Some(text("\u{10ffff}")));
    assert_eq!(text_of(b"\x80"), None);
    assert_eq!(text_of(b""), Some(text("")));
}

#[test]
fn same_text_compares_characters() {
    assert!(same_text("abc", "abc"));
    assert!(same_text("", ""));
    assert!(!same_text("abc", "abd"));
    assert!(!same_text("abc", "ab"));
    assert!(!same_text("abc", "ABC"));
    assert!(same_text("\u{e9}", "\u{e9}"));
    assert!(!same_text("\u{e9}", "e\u{301}"));
}

#[test]
fn string_with_its_length_before_it() {
    assert_eq!(decode_rle_string(b"\x03\x00\x00\x00abcdef"), Ok((&b"def"[..], text("abc"))));
    assert_eq!(decode_rle_string(b"\x00\x00\x00\x00"), Ok((&b""[..], text(""))));
    assert_eq!(decode_rle_string(b"\x00\x00\x00\x00x"), Ok((&b"x"[..], text(""))));
    let mut long = vec![0x02, 0x01, 0x00, 0x00];
    long.extend(std::iter::repeat(b'a').take(258));
    long.push(b'!');
    assert_eq!(decode_rle_string(&long), Ok((&b"!"[..], "a".repeat(258))));
}

#[test]
fn string_with_a_length_that_the_input_does_not_hold() {
    assert_eq!(
        decode_rle_string(b"\x04\x00\x00\x00abc"),
        Err(Error { kind: ErrorKind::Mismatch, remaining: 3 })
    );
    assert_eq!(
        decode_rle_string(b"\x00\x00\x00\x01abc"),
        Err(Error { kind: ErrorKind::Mismatch, remaining: 3 })
    );
    assert_eq!(
        decode_rle_string(b"\xff\xff\xff\xff"),
        Err(Error { kind: ErrorKind::Mismatch, remaining: 0 })
    );
    assert_eq!(
        decode_rle_string(b"\x01\x00\x00"),
        Err(Error { kind: ErrorKind::Mismatch, remaining: 3 })
    );
    assert_eq!(decode_rle_string(b""), Err(Error { kind: ErrorKind::Mismatch, remaining: 0 }));
}

#[test]
fn string_with_a_length_and_bytes_that_are_not_utf8() {
    assert_eq!(
        decode_rle_string(b"\x02\x00\x00\x00\xff\xfeab"),
        Err(Error { kind: ErrorKind::Utf8Error, remaining: 4 })
    );
}

#[test]
fn string_that_a_zero_byte_ends() {
    assert_eq!(decode_null_terminated_string(b"abc\x00def"), Ok((&b"def"[..], text("abc"))));
    assert_eq!(decode_null_terminated_string(b"\x00"), Ok((&b""[..], text(""))));
    assert_eq!(decode_null_terminated_string(b"\x00\x00"), Ok((&b"\x00"[..], text(""))));
    assert_eq!(
        decode_null_terminated_string("\u{e9}\u{0}".as_bytes()),
        Ok((&b""[..], text("\u{e9}")))
    );
}

#[test]
fn string_without_its_zero_byte_fails() {
    assert_eq!(
        decode_null_terminated_string(b"abc"),
        Err(Error { kind: ErrorKind::Mismatch, remaining: 0 })
    );
    assert_eq!(
        decode_null_terminated_string(b""),
        Err(Error { kind: ErrorKind::Mismatch, remaining: 0 })
    );
    assert_eq!(
        decode_null_terminated_string(b"\xff\x00"),
        Err(Error { kind: ErrorKind::Utf8Error, remaining: 2 })
    );
}

#[test]
fn length_agrees_with_the_parser_library() {
    let inputs: [&[u8]; 4] = [
        b"\x03\x00\x00\x00abc",
        b"\x01\x02\x03\x04",
        b"\xff\xff\xff\xff",
        b"\x00\x01\x00\x00",
    ];
    for input in inputs {
        let size: nom::IResult<&[u8], u32, (&[u8], nom::error::ErrorKind)> =
            nom::number::complete::le_u32(input);
        let (body, size) = size.unwrap();
        let taken: nom::IResult<&[u8], &[u8], (&[u8], nom::error::ErrorKind)> =
            nom::bytes::complete::take(size)(body);
        match (decode_rle_string(input), taken) {
            (Ok((rest, found)), Ok((left, bytes))) => {
                assert_eq!(rest, left);
                assert_eq!(found.as_bytes(), bytes);
            },
            (Err(e), Err(_)) => assert_eq!(e.kind, ErrorKind::Mismatch),
            (ours, theirs) => panic!("{:?} against {:?}", ours, theirs),
        }
    }
}
