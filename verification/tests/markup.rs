use fable::error::{Error, ErrorKind};
use fable::script::decode::{decode_expression, decode_expression_markup, decode_markup};
use fable::script::{
    ScriptCall, ScriptExpression, ScriptField, ScriptMarkup, ScriptReference, ScriptValue,
};

fn text(s: &str) -> String {
    s.to_string()
}

fn mismatch(remaining: usize) -> Error {
    Error { kind: ErrorKind::Mismatch, remaining }
}

fn field(name: &str, value: ScriptValue) -> ScriptExpression {
    ScriptExpression::Field(ScriptField { reference: ScriptReference::Name(text(name)), value })
}

#[test]
fn markup_with_one_field() {
    let expected = ScriptMarkup {
        name: text("Group"),
        body: vec![field("a", ScriptValue::Number(1))],
    };
    assert_eq!(decode_markup(b"<Group> a 1;\n; <\\Group>"), Ok((&b""[..], expected)));
}

#[test]
fn markup_field_without_line_break_is_a_bare_word() {
    let expected = ScriptMarkup {
        name: text("Group"),
        body: vec![ScriptExpression::Value(ScriptValue::Name(text("a 1")))],
    };
    assert_eq!(decode_markup(b"<Group> a 1; <\\Group>"), Ok((&b""[..], expected)));
}

#[test]
fn markup_with_another_closing_name_fails() {
    assert_eq!(decode_markup(b"<Group> a 1; <\\Other>"), Err(mismatch(8)));
    assert_eq!(decode_markup(b"<Group> a 1;\n; <\\Other>"), Err(mismatch(8)));
    assert_eq!(decode_markup(b"<Group> <\\Groups>"), Err(mismatch(9)));
    assert_eq!(decode_markup(b"<Group> <\\Grou>"), Err(mismatch(7)));
    assert_eq!(decode_markup(b"<Group> <\\group>"), Err(mismatch(8)));
    assert_eq!(decode_markup(b"<Group> </Group>"), Err(mismatch(8)));
}

#[test]
fn markup_may_be_empty() {
    let expected = ScriptMarkup { name: text("A"), body: vec![] };
    assert_eq!(decode_markup(b"<A><\\A>"), Ok((&b""[..], expected)));
    let expected = ScriptMarkup { name: text("A1"), body: vec![] };
    assert_eq!(decode_markup(b" \t<A1>  \t <\\A1> \t ;"), Ok((&b";"[..], expected)));
}

#[test]
fn markup_bodies_nest() {
    let inner = ScriptExpression::Markup(ScriptMarkup {
        name: text("In"),
        body: vec![ScriptExpression::Value(ScriptValue::Number(1))],
    });
    let call = ScriptExpression::Call(ScriptCall {
        reference: ScriptReference::Name(text("f")),
        arguments: vec![ScriptExpression::Value(ScriptValue::Number(2))],
    });
    let expected = ScriptMarkup { name: text("Out"), body: vec![inner, call] };
    assert_eq!(
        decode_markup(b"<Out>\n  <In> 1; <\\In>;\n  f(2);\n<\\Out>\n"),
        Err(mismatch(8))
    );
    assert_eq!(
        decode_markup(b"<Out>\n  <In> 1; <\\In>;\n  f(2);<\\Out>\n"),
        Ok((&b"\n"[..], expected))
    );
}

#[test]
fn markup_name_is_letters_and_digits() {
    assert_eq!(decode_markup(b"<a_b><\\a_b>"), Err(mismatch(9)));
    assert_eq!(decode_markup(b"<><\\>"), Err(mismatch(4)));
    assert_eq!(decode_markup(b"< A><\\A>"), Err(mismatch(7)));
    assert_eq!(decode_markup(b"<A ><\\A>"), Err(mismatch(6)));
}

#[test]
fn markup_needs_its_opening_tag() {
    assert_eq!(decode_markup(b"A><\\A>"), Err(mismatch(6)));
    assert_eq!(decode_markup(b"\n<A><\\A>"), Err(mismatch(8)));
    assert_eq!(decode_markup(b""), Err(mismatch(0)));
    assert_eq!(decode_markup(b"<A"), Err(mismatch(0)));
    assert_eq!(decode_markup(b"<A>"), Err(mismatch(0)));
}

#[test]
fn markup_as_expression() {
    let expected = ScriptExpression::Markup(ScriptMarkup { name: text("A"), body: vec![] });
    assert_eq!(decode_expression_markup(b"<A><\\A>"), Ok((&b""[..], expected)));
    let expected = ScriptExpression::Markup(ScriptMarkup { name: text("A"), body: vec![] });
    assert_eq!(decode_expression(b"\n\n  <A><\\A> ;"), Ok((&b";"[..], expected)));
    assert_eq!(decode_expression_markup(b"<A><\\B>"), Err(mismatch(4)));
}
