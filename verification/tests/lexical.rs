use fable::lexical::{
    has_first, has_prefix, read_decimal, scan_line_ending, scan_line_endings, scan_run, skip_bytes,
    skip_run, ByteClass,
};
use nom::error::ErrorKind;
use nom::IResult;

type Scan<'a> = IResult<&'a [u8], &'a [u8], (&'a [u8], ErrorKind)>;

const SAMPLES: [&[u8]; 24] = [
    b"",
    b"0",
    b"0123456789",
    b"12ab",
    b"ab12",
    b"a_b c",
    b"_",
    b" \t x",
    b"\t\r\n x",
    b"\n",
    b"\r\n",
    b"\r",
    b"\r\r\n",
    b"\n\r\n\nx",
    b"TRUE",
    b"*/",
    b"a*/b",
    b"Zz09",
    b"@[`{/:",
    b"\x00abc",
    b"abc\x00",
    b"\xff\xfe",
    b"az AZ 09 _",
    b"9\xc3\xa9",
];

/// The number of bytes that an outside scanner took, 0 where it failed.
fn taken(input: &[u8], result: Scan) -> usize {
    match result {
        Ok((rest, run)) => {
            assert_eq!(run.len() + rest.len(), input.len());
            assert!(input.starts_with(run));
            run.len()
        },
        Err(_) => 0,
    }
}

#[test]
fn classes_hold_the_bytes_they_name() {
    for b in 0..=255u8 {
        let letter = b.is_ascii_alphabetic();
        let digit = b.is_ascii_digit();
        assert_eq!(ByteClass::Digit.has(b), digit);
        assert_eq!(ByteClass::Alphanumeric.has(b), letter || digit);
        assert_eq!(ByteClass::Key.has(b), letter || digit || b == b'_');
        assert_eq!(ByteClass::Name.has(b), letter || digit || b == b'_' || b == b' ');
        assert_eq!(ByteClass::Space.has(b), b == b' ' || b == b'\t');
        assert_eq!(ByteClass::Multispace.has(b), b == b' ' || b == b'\t' || b == b'\r' || b == b'\n');
        assert_eq!(ByteClass::LineText.has(b), b != b'\n');
        assert_eq!(ByteClass::NonZero.has(b), b != 0);
    }
}

#[test]
fn classes_agree_with_the_parser_library() {
    for b in 0..=255u8 {
        assert_eq!(ByteClass::Digit.has(b), nom::character::is_digit(b));
        assert_eq!(ByteClass::Alphanumeric.has(b), nom::character::is_alphanumeric(b));
        assert_eq!(
            ByteClass::Key.has(b),
            nom::character::is_alphabetic(b) || nom::character::is_digit(b) || b == 0x5f
        );
    }
}

#[test]
fn runs_agree_with_the_parser_library() {
    for input in SAMPLES {
        assert_eq!(
            scan_run(input, ByteClass::Digit),
            taken(input, nom::character::complete::digit1(input))
        );
        assert_eq!(
            scan_run(input, ByteClass::Alphanumeric),
            taken(input, nom::character::complete::alphanumeric1(input))
        );
        assert_eq!(
            scan_run(input, ByteClass::Space),
            taken(input, nom::character::complete::space0(input))
        );
        assert_eq!(
            scan_run(input, ByteClass::Multispace),
            taken(input, nom::character::complete::multispace0(input))
        );
        let key = nom::bytes::complete::take_while1(|x| {
            nom::character::is_alphabetic(x) || nom::character::is_digit(x) || x == 0x5f
        });
        assert_eq!(scan_run(input, ByteClass::Key), taken(input, key(input)));
        let name = nom::bytes::complete::take_while1(|x| {
            nom::character::is_alphabetic(x)
                || nom::character::is_digit(x)
                || x == 0x5f
                || x == 0x20
        });
        assert_eq!(scan_run(input, ByteClass::Name), taken(input, name(input)));
        let text = nom::bytes::complete::take_till(|x| x == 0);
        assert_eq!(scan_run(input, ByteClass::NonZero), taken(input, text(input)));
    }
}

#[test]
fn line_endings_agree_with_the_parser_library() {
    for input in SAMPLES {
        assert_eq!(
            scan_line_ending(input),
            taken(input, nom::character::complete::line_ending(input))
        );
        let all: IResult<&[u8], Vec<&[u8]>, (&[u8], ErrorKind)> =
            nom::multi::many0(nom::character::complete::line_ending)(input);
        let (rest, _) = all.unwrap();
        assert_eq!(scan_line_endings(input), input.len() - rest.len());
    }
}

#[test]
fn prefixes_agree_with_the_parser_library() {
    let tags: [&[u8]; 8] = [b"", b"TRUE", b"FALSE", b"//", b"/*", b"a", b"\r\n", b"\xff"];
    for input in SAMPLES {
        for tag in tags {
            let found: Scan = nom::bytes::complete::tag(tag)(input);
            assert_eq!(has_prefix(input, tag), found.is_ok());
        }
    }
}

#[test]
fn run_is_the_longest_prefix_of_the_class() {
    assert_eq!(scan_run(b"123abc", ByteClass::Digit), 3);
    assert_eq!(scan_run(b"abc123", ByteClass::Digit), 0);
    assert_eq!(scan_run(b"123", ByteClass::Digit), 3);
    assert_eq!(scan_run(b"", ByteClass::Digit), 0);
    assert_eq!(scan_run(b"abc def\n", ByteClass::LineText), 7);
    assert_eq!(scan_run(b"abc", ByteClass::LineText), 3);
    assert_eq!(skip_run(b"  \tx ", ByteClass::Space), b"x ");
    assert_eq!(skip_run(b"x ", ByteClass::Space), b"x ");
    assert_eq!(skip_bytes(b"abc", 0), b"abc");
    assert_eq!(skip_bytes(b"abc", 2), b"c");
    assert_eq!(skip_bytes(b"abc", 3), b"");
    assert_eq!(skip_bytes(b"abc", 4), b"");
    assert_eq!(skip_bytes(b"", 0), b"");
}

#[test]
fn first_byte_and_prefix() {
    assert!(has_first(b";x", b';'));
    assert!(!has_first(b"x;", b';'));
    assert!(!has_first(b"", b';'));
    assert!(has_prefix(b"TRUE", b"TRUE"));
    assert!(has_prefix(b"TRUEx", b"TRUE"));
    assert!(!has_prefix(b"TRU", b"TRUE"));
    assert!(!has_prefix(b"xTRUE", b"TRUE"));
    assert!(has_prefix(b"", b""));
}

#[test]
fn line_endings_are_counted_together() {
    assert_eq!(scan_line_ending(b"\nx"), 1);
    assert_eq!(scan_line_ending(b"\r\nx"), 2);
    assert_eq!(scan_line_ending(b"\rx"), 0);
    assert_eq!(scan_line_ending(b"x\n"), 0);
    assert_eq!(scan_line_endings(b"\n\r\n\n\rx"), 4);
    assert_eq!(scan_line_endings(b"\n\n"), 2);
    assert_eq!(scan_line_endings(b""), 0);
}

#[test]
fn decimal_digits_spell_a_number_up_to_the_limit() {
    assert_eq!(read_decimal(b"", 10), Some(0));
    assert_eq!(read_decimal(b"0", 0), Some(0));
    assert_eq!(read_decimal(b"9", 8), None);
    assert_eq!(read_decimal(b"9", 9), Some(9));
    assert_eq!(read_decimal(b"10", 9), None);
    assert_eq!(read_decimal(b"1234567890", u64::MAX), Some(1234567890));
    assert_eq!(read_decimal(b"0000123", 123), Some(123));
    assert_eq!(read_decimal(b"18446744073709551615", u64::MAX), Some(u64::MAX));
    assert_eq!(read_decimal(b"18446744073709551616", u64::MAX), None);
    assert_eq!(read_decimal(b"18446744073709551620", u64::MAX), None);
    assert_eq!(read_decimal(b"100000000000000000000000", u64::MAX), None);
    assert_eq!(read_decimal(b"2147483648", 2147483647), None);
    assert_eq!(read_decimal(b"2147483648", 2147483648), Some(2147483648));
}

#[test]
fn bytes_that_are_no_digits_spell_no_number() {
    assert_eq!(read_decimal(b"12a", u64::MAX), None);
    assert_eq!(read_decimal(b"-1", u64::MAX), None);
    assert_eq!(read_decimal(b" 1", u64::MAX), None);
    assert_eq!(read_decimal(b"1.0", u64::MAX), None);
    assert_eq!(read_decimal(b"/", u64::MAX), None);
    assert_eq!(read_decimal(b":", u64::MAX), None);
}
