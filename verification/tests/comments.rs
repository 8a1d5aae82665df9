use fable::error::{Error, ErrorKind};
use fable::script::decode::{
    decode_block_comment, decode_comment, decode_expression, decode_expression_comment,
    decode_line_comment,
};
use fable::script::{ScriptComment, ScriptExpression, ScriptValue};

fn text(s: &str) -> String {
    s.to_string()
}

fn mismatch(remaining: usize) -> Error {
    Error { kind: ErrorKind::Mismatch, remaining }
}

fn unterminated(remaining: usize) -> Error {
    Error { kind: ErrorKind::UnterminatedComment, remaining }
}

#[test]
fn line_comment_leaves_the_line_ending() {
    assert_eq!(
        decode_expression(b"// trailing comment\n"),
        Ok((&b"\n"[..], ScriptExpression::Comment(ScriptComment::Line(text(" trailing comment")))))
    );
    assert_eq!(
        decode_line_comment(b"// trailing comment\nnext"),
        Ok((&b"\nnext"[..], ScriptComment::Line(text(" trailing comment"))))
    );
}

#[test]
fn block_comment_takes_its_closing_mark() {
    assert_eq!(
        decode_expression(b"/* block */"),
        Ok((&b""[..], ScriptExpression::Comment(ScriptComment::Block(text(" block ")))))
    );
    assert_eq!(
        decode_block_comment(b"/* block */;"),
        Ok((&b";"[..], ScriptComment::Block(text(" block "))))
    );
}

#[test]
fn line_comment_drops_one_carriage_return() {
    assert_eq!(
        decode_line_comment(b"//text\r\nnext"),
        Ok((&b"\r\nnext"[..], ScriptComment::Line(text("text"))))
    );
    assert_eq!(
        decode_line_comment(b"//text\r\r\n"),
        Ok((&b"\r\n"[..], ScriptComment::Line(text("text\r"))))
    );
    assert_eq!(
        decode_line_comment(b"//a\rb\n"),
        Ok((&b"\n"[..], ScriptComment::Line(text("a\rb"))))
    );
}

#[test]
fn line_comment_may_be_empty() {
    assert_eq!(decode_line_comment(b"//\n"), Ok((&b"\n"[..], ScriptComment::Line(text("")))));
    assert_eq!(decode_line_comment(b"//\r\n"), Ok((&b"\r\n"[..], ScriptComment::Line(text("")))));
    assert_eq!(decode_line_comment(b"///\n"), Ok((&b"\n"[..], ScriptComment::Line(text("/")))));
}

#[test]
fn line_comment_without_line_feed_is_unterminated() {
    assert_eq!(decode_line_comment(b"// no end"), Err(unterminated(9)));
    assert_eq!(decode_line_comment(b"//"), Err(unterminated(2)));
    assert_eq!(decode_line_comment(b"//\r"), Err(unterminated(3)));
}

#[test]
fn line_comment_needs_two_slashes() {
    assert_eq!(decode_line_comment(b"/ x\n"), Err(mismatch(4)));
    assert_eq!(decode_line_comment(b" //x\n"), Err(mismatch(5)));
    assert_eq!(decode_line_comment(b""), Err(mismatch(0)));
}

#[test]
fn block_comment_ends_at_the_first_closing_mark() {
    assert_eq!(
        decode_block_comment(b"/* a */ b */"),
        Ok((&b" b */"[..], ScriptComment::Block(text(" a "))))
    );
    assert_eq!(decode_block_comment(b"/**/"), Ok((&b""[..], ScriptComment::Block(text("")))));
    assert_eq!(decode_block_comment(b"/***/"), Ok((&b""[..], ScriptComment::Block(text("*")))));
    assert_eq!(
        decode_block_comment(b"/* a\nb\r\n*/x"),
        Ok((&b"x"[..], ScriptComment::Block(text(" a\nb\r\n"))))
    );
    assert_eq!(decode_block_comment(b"/*/ */"), Ok((&b""[..], ScriptComment::Block(text("/ ")))));
}

#[test]
fn block_comment_without_closing_mark_is_unterminated() {
    assert_eq!(decode_block_comment(b"/* abc"), Err(unterminated(6)));
    assert_eq!(decode_block_comment(b"/*"), Err(unterminated(2)));
    assert_eq!(decode_block_comment(b"/*/"), Err(unterminated(3)));
    assert_eq!(decode_block_comment(b"/* abc *"), Err(unterminated(8)));
    assert_eq!(decode_comment(b"/* abc"), Err(unterminated(6)));
}

#[test]
fn block_comment_needs_its_opening_mark() {
    assert_eq!(decode_block_comment(b"/ * x */"), Err(mismatch(8)));
    assert_eq!(decode_block_comment(b""), Err(mismatch(0)));
    assert_eq!(decode_block_comment(b"//x\n"), Err(mismatch(4)));
}

#[test]
fn comment_that_is_not_utf8_fails() {
    assert_eq!(
        decode_line_comment(b"//\xff\n"),
        Err(Error { kind: ErrorKind::Utf8Error, remaining: 4 })
    );
    assert_eq!(
        decode_block_comment(b"/*\xc3*/"),
        Err(Error { kind: ErrorKind::Utf8Error, remaining: 5 })
    );
}

#[test]
fn comment_holds_any_utf8() {
    assert_eq!(
        decode_line_comment("// caf\u{e9}\n".as_bytes()),
        Ok((&b"\n"[..], ScriptComment::Line(text(" caf\u{e9}"))))
    );
    assert_eq!(
        decode_block_comment("/*\u{4e16}\u{754c}*/".as_bytes()),
        Ok((&b""[..], ScriptComment::Block(text("\u{4e16}\u{754c}"))))
    );
}

#[test]
fn comment_is_a_line_comment_or_else_a_block_comment() {
    assert_eq!(decode_comment(b"//a\n"), Ok((&b"\n"[..], ScriptComment::Line(text("a")))));
    assert_eq!(decode_comment(b"/*a*/"), Ok((&b""[..], ScriptComment::Block(text("a")))));
    assert_eq!(decode_comment(b"x"), Err(mismatch(1)));
    assert_eq!(decode_comment(b"// a"), Err(mismatch(4)));
    assert_eq!(
        decode_expression_comment(b"//a\n"),
        Ok((&b"\n"[..], ScriptExpression::Comment(ScriptComment::Line(text("a")))))
    );
    assert_eq!(decode_expression_comment(b"x"), Err(mismatch(1)));
}

#[test]
fn unterminated_comment_is_no_expression_of_its_own() {
    assert_eq!(
        decode_expression(b"/* abc"),
        Ok((&b"/* abc"[..], ScriptExpression::Value(ScriptValue::Empty)))
    );
    assert_eq!(
        decode_expression(b"// abc"),
        Ok((&b"// abc"[..], ScriptExpression::Value(ScriptValue::Empty)))
    );
}
