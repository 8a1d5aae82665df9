use fable::error::{Error, ErrorKind};
use fable::script::decode::{
    decode_call, decode_expression, decode_expression_list, decode_expression_value, decode_markup,
};
use fable::script::grammar::NESTING_LIMIT;
use fable::script::{
    ScriptCall, ScriptComment, ScriptExpression, ScriptField, ScriptMarkup, ScriptReference,
    ScriptValue,
};

fn text(s: &str) -> String {
    s.to_string()
}

fn word(s: &str) -> ScriptExpression {
    ScriptExpression::Value(ScriptValue::Name(text(s)))
}

fn number(n: i32) -> ScriptExpression {
    ScriptExpression::Value(ScriptValue::Number(n))
}

fn field(name: &str, value: ScriptValue) -> ScriptExpression {
    ScriptExpression::Field(ScriptField { reference: ScriptReference::Name(text(name)), value })
}

#[test]
fn list_of_one_call() {
    let call = ScriptExpression::Call(ScriptCall {
        reference: ScriptReference::Name(text("set")),
        arguments: vec![word("x"), number(1), ScriptExpression::Value(ScriptValue::String(text("y")))],
    });
    assert_eq!(decode_expression_list(b"set(x, 1, \"y\");"), Ok((&b""[..], vec![call])));
}

#[test]
fn list_ends_where_no_separator_follows() {
    assert_eq!(decode_expression_list(b""), Ok((&b""[..], vec![])));
    assert_eq!(decode_expression_list(b"abc"), Ok((&b"abc"[..], vec![])));
    assert_eq!(decode_expression_list(b"1; 2; 3"), Ok((&b" 3"[..], vec![number(1), number(2)])));
    assert_eq!(decode_expression_list(b"1;?"), Ok((&b"?"[..], vec![number(1)])));
}

#[test]
fn digits_before_a_separator_and_a_line_break_are_a_field() {
    assert_eq!(decode_expression(b"1;\n?"), Ok((&b"?"[..], field("1", ScriptValue::Empty))));
    assert_eq!(decode_expression_list(b"1;\n?"), Ok((&b"1;\n?"[..], vec![])));
    assert_eq!(
        decode_expression_list(b"1;\n;?"),
        Ok((&b"?"[..], vec![field("1", ScriptValue::Empty)]))
    );
}

#[test]
fn line_comment_ends_a_list() {
    assert_eq!(decode_expression_list(b"// head\n;1;"), Ok((&b"// head\n;1;"[..], vec![])));
    assert_eq!(decode_expression_list(b"1; // tail\n;2;"), Ok((&b" // tail\n;2;"[..], vec![number(1)])));
}

#[test]
fn list_reads_empty_literals_between_separators() {
    let empty = || ScriptExpression::Value(ScriptValue::Empty);
    assert_eq!(decode_expression_list(b";"), Ok((&b""[..], vec![empty()])));
    assert_eq!(decode_expression_list(b";;;"), Ok((&b""[..], vec![empty(), empty(), empty()])));
    assert_eq!(decode_expression_list(b" ; ;x"), Ok((&b"x"[..], vec![empty(), empty()])));
}

#[test]
fn list_of_every_kind() {
    let input =
        b"/* head */;\n<Block> v 1.5;\n; <\\Block>;\nrun(fast);\nkey value;\n;\n42; // tail\n";
    let expected = vec![
        ScriptExpression::Comment(ScriptComment::Block(text(" head "))),
        ScriptExpression::Markup(ScriptMarkup {
            name: text("Block"),
            body: vec![field("v", ScriptValue::Float(text("1.5")))],
        }),
        ScriptExpression::Call(ScriptCall {
            reference: ScriptReference::Name(text("run")),
            arguments: vec![word("fast")],
        }),
        field("key", ScriptValue::Name(text("value"))),
        number(42),
    ];
    assert_eq!(decode_expression_list(input), Ok((&b" // tail\n"[..], expected)));
}

#[test]
fn expression_skips_white_space_before_and_blanks_after() {
    assert_eq!(decode_expression(b" \r\n\t 7 \t\n"), Ok((&b"\n"[..], number(7))));
    assert_eq!(decode_expression(b"7"), Ok((&b""[..], number(7))));
}

#[test]
fn expression_always_matches() {
    assert_eq!(decode_expression(b""), Ok((&b""[..], ScriptExpression::Value(ScriptValue::Empty))));
    assert_eq!(decode_expression(b"?"), Ok((&b"?"[..], ScriptExpression::Value(ScriptValue::Empty))));
    assert_eq!(
        decode_expression(b"  \n)"),
        Ok((&b")"[..], ScriptExpression::Value(ScriptValue::Empty)))
    );
    assert_eq!(
        decode_expression_value(b"?"),
        Ok((&b"?"[..], ScriptExpression::Value(ScriptValue::Empty)))
    );
}

#[test]
fn field_is_read_before_a_bare_word() {
    assert_eq!(decode_expression(b"name value;\n"), Ok((&b""[..], field("name", ScriptValue::Name(text("value"))))));
    assert_eq!(decode_expression(b"name value;"), Ok((&b";"[..], word("name value"))));
}

#[test]
fn decoding_twice_gives_equal_trees() {
    let input = b"<A> f(1, g(\"x\")); k v;\n; /* c */; <\\A>; tail";
    let first = decode_expression_list(input);
    let second = decode_expression_list(input);
    assert_eq!(first, second);
    let (rest, list) = first.unwrap();
    assert_eq!(rest, b" tail");
    assert_eq!(list.len(), 1);
    let copy = input.to_vec();
    let third = decode_expression_list(&copy);
    assert_eq!(third, second);
}

#[test]
fn what_is_left_is_the_end_of_the_input() {
    let inputs: [&[u8]; 6] = [
        b"a 1;\n; b(2); rest",
        b"<A> <\\A>; /* x */ ; ?",
        b"\"open",
        b"1.5; 2; TRUE; FALSE; \"s\"; w w;",
        b"",
        b"\xff\xfe",
    ];
    for input in inputs {
        let (rest, _) = decode_expression_list(input).unwrap();
        assert!(input.ends_with(rest));
        let (rest, _) = decode_expression(input).unwrap();
        assert!(input.ends_with(rest));
    }
}

fn nested_calls(depth: usize) -> Vec<u8> {
    let mut input = Vec::new();
    for _ in 0..depth {
        input.extend_from_slice(b"f(");
    }
    input.push(b'x');
    for _ in 0..depth {
        input.push(b')');
    }
    input
}

fn call_depth(expression: &ScriptExpression) -> usize {
    match expression {
        ScriptExpression::Call(call) => 1 + call_depth(&call.arguments[0]),
        _ => 0,
    }
}

#[test]
fn calls_nest_up_to_the_limit() {
    let input = nested_calls(NESTING_LIMIT);
    let (rest, expression) = decode_expression(&input).unwrap();
    assert_eq!(rest, b"");
    assert_eq!(call_depth(&expression), NESTING_LIMIT);
    let (rest, call) = decode_call(&input).unwrap();
    assert_eq!(rest, b"");
    assert_eq!(call_depth(&call.arguments[0]), NESTING_LIMIT - 1);
}

#[test]
fn calls_beyond_the_limit_are_not_read() {
    let input = nested_calls(NESTING_LIMIT + 1);
    let (rest, expression) = decode_expression(&input).unwrap();
    assert_eq!(expression, word("f"));
    assert_eq!(rest, &input[1..]);
    assert_eq!(
        decode_call(&input),
        Err(Error { kind: ErrorKind::Mismatch, remaining: input.len() - 3 })
    );
    let deep = nested_calls(10 * NESTING_LIMIT);
    let (rest, list) = decode_expression_list(&deep).unwrap();
    assert_eq!(rest, &deep[..]);
    assert_eq!(list, vec![]);
}

#[test]
fn markup_nests_up_to_the_limit() {
    let mut input = Vec::new();
    for _ in 0..NESTING_LIMIT {
        input.extend_from_slice(b"<A>");
    }
    for i in 0..NESTING_LIMIT {
        input.extend_from_slice(b"<\\A>");
        if i + 1 < NESTING_LIMIT {
            input.push(b';');
        }
    }
    let (rest, markup) = decode_markup(&input).unwrap();
    assert_eq!(rest, b"");
    let mut depth = 1;
    let mut block = &markup;
    while let Some(ScriptExpression::Markup(inner)) = block.body.first() {
        depth += 1;
        block = inner;
    }
    assert_eq!(depth, NESTING_LIMIT);
    let mut deeper = b"<A>".to_vec();
    deeper.extend_from_slice(&input);
    deeper.extend_from_slice(b";<\\A>");
    assert!(decode_markup(&deeper).is_err());
}
