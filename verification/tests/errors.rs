use fable::error::{Error, ErrorKind};
use fable::script::decode::{
    decode_accessor_index, decode_big_number, decode_block_comment, decode_bool, decode_call,
    decode_field, decode_field_named, decode_line_comment, decode_markup, decode_string,
};

#[test]
fn offset_counts_from_the_start() {
    let e = Error { kind: ErrorKind::Mismatch, remaining: 3 };
    assert_eq!(e.offset(10), 7);
    assert_eq!(e.offset(3), 0);
    assert_eq!(e.offset(2), 0);
    let e = Error { kind: ErrorKind::Mismatch, remaining: 0 };
    assert_eq!(e.offset(10), 10);
    assert_eq!(e.offset(0), 0);
}

#[test]
fn failure_names_the_place_in_the_input() {
    let input = b"speed 1.5\n";
    let e = decode_field(input).unwrap_err();
    assert_eq!(e.kind, ErrorKind::Mismatch);
    assert_eq!(e.offset(input.len()), 9);
    assert_eq!(input[e.offset(input.len())], b'\n');

    let input = b"go(1, 2; 3)";
    let e = decode_call(input).unwrap_err();
    assert_eq!(e.offset(input.len()), 7);
    assert_eq!(input[e.offset(input.len())], b';');

    let input = b"<A> 1; <\\B>";
    let e = decode_markup(input).unwrap_err();
    assert_eq!(e.offset(input.len()), 7);

    let input = b"\"never closed";
    let e = decode_string(input).unwrap_err();
    assert_eq!(e.offset(input.len()), input.len());
}

#[test]
fn every_kind_of_failure_is_reached() {
    assert_eq!(decode_field_named("a", b"b 1;\n").unwrap_err().kind, ErrorKind::InvalidTagName);
    assert_eq!(decode_accessor_index(b"?").unwrap_err().kind, ErrorKind::InvalidScriptProperty);
    assert_eq!(
        decode_big_number(b"99999999999999999999").unwrap_err().kind,
        ErrorKind::InvalidScriptValue
    );
    assert_eq!(decode_line_comment(b"//\xff\n").unwrap_err().kind, ErrorKind::Utf8Error);
    assert_eq!(decode_block_comment(b"/* ").unwrap_err().kind, ErrorKind::UnterminatedComment);
    assert_eq!(decode_bool(b"yes").unwrap_err().kind, ErrorKind::Mismatch);
}
