//! The script format, rule by rule, as functions on byte sequences.
//!
//! A rule takes what is left of the input and gives either the value that
//! it reads with the bytes that follow it, or a failure. Rules are tried in
//! a fixed order and the first that matches wins, so every rule is a
//! function: the same bytes always read as the same tree.
//!
//! ```text
//! document      = { expression ";" }
//! expression    = ws* (comment | markup | call | field | value) sp*
//! field         = {newline} reference sp* value ";" newline+
//! call          = reference "(" expression {"," expression} ")" sp*
//! markup        = sp* "<" name ">" sp* document sp* "<\" name ">" sp*
//! reference     = ident [ accessor+ ]
//! accessor      = "." ident | "[" (int32 | ident)
//! value         = bool | float | int32 | uint64 | string | word | (empty)
//! line-comment  = "//" up-to-newline
//! block-comment = "/*" up-to-"*/" "*/"
//! ```
//!
//! Three rules repeat: the steps of a path, the expressions of a list and
//! the arguments of a call. Their definitions go on only where the round
//! before has read something, which makes them well founded; the laws show
//! that every round does.

use vstd::prelude::*;
use vstd::utf8::{decode_utf8, valid_utf8};
use crate::error::{Error, ErrorKind};
use crate::lexical::{
    decimal, line_endings_len, run_len, starts_with_byte, ByteClass, BACKSLASH, CARRIAGE_RETURN,
    QUOTE,
};
use crate::script::model::{
    Accessor, Call, Comment, Expression, Field, Markup, Reference, Value,
};
use crate::rule::{failure, first_of, Rule};
use crate::shared::ascii_text;

verus! {

/// The bytes of `TRUE`.
pub open spec fn keyword_true() -> Seq<u8> {
    seq!['T' as u8, 'R' as u8, 'U' as u8, 'E' as u8]
}

/// The bytes of `FALSE`.
pub open spec fn keyword_false() -> Seq<u8> {
    seq!['F' as u8, 'A' as u8, 'L' as u8, 'S' as u8, 'E' as u8]
}

/// An identifier: a run of letters, digits and underscores, not empty.
pub open spec fn key_name(s: Seq<u8>) -> Rule<Seq<char>> {
    let n = run_len(s, ByteClass::Key) as int;
    if n == 0 {
        failure(ErrorKind::Mismatch, s)
    } else {
        Ok((s.skip(n), ascii_text(s.take(n))))
    }
}

/// `TRUE` or `FALSE`, in upper case only.
pub open spec fn boolean(s: Seq<u8>) -> Rule<Value> {
    if keyword_true().is_prefix_of(s) {
        Ok((s.skip(4), Value::Bool(true)))
    } else if keyword_false().is_prefix_of(s) {
        Ok((s.skip(5), Value::Bool(false)))
    } else {
        failure(ErrorKind::Mismatch, s)
    }
}

/// The length of the sign at the start of `s`: 1 for `-` or `+`, else 0.
pub open spec fn sign_len(s: Seq<u8>) -> int {
    if starts_with_byte(s, '-' as u8) || starts_with_byte(s, '+' as u8) {
        1
    } else {
        0
    }
}

/// A decimal literal with a fraction: an optional sign, digits, a dot,
/// digits. Its value is its text.
pub open spec fn float(s: Seq<u8>) -> Rule<Value> {
    let whole = s.skip(sign_len(s));
    let n = run_len(whole, ByteClass::Digit) as int;
    let dot = whole.skip(n);
    let fraction = dot.skip(1);
    let m = run_len(fraction, ByteClass::Digit) as int;
    if n == 0 {
        failure(ErrorKind::Mismatch, whole)
    } else if !starts_with_byte(dot, '.' as u8) {
        failure(ErrorKind::Mismatch, dot)
    } else if m == 0 {
        failure(ErrorKind::Mismatch, fraction)
    } else {
        Ok((fraction.skip(m), Value::Float(ascii_text(s.take(sign_len(s) + n + 1 + m)))))
    }
}

/// An integer of 32 bits: an optional sign and digits. Digits that spell a
/// number out of range are no number.
pub open spec fn number(s: Seq<u8>) -> Rule<Value> {
    let digits = s.skip(sign_len(s));
    let n = run_len(digits, ByteClass::Digit) as int;
    let magnitude = decimal(digits.take(n)) as int;
    let value = if starts_with_byte(s, '-' as u8) {
        -magnitude
    } else {
        magnitude
    };
    if n == 0 {
        failure(ErrorKind::Mismatch, digits)
    } else if i32::MIN <= value <= i32::MAX {
        Ok((digits.skip(n), Value::Number(value)))
    } else {
        failure(ErrorKind::InvalidScriptValue, s)
    }
}

/// An unsigned integer of 64 bits: digits without a sign. Digits that
/// spell a number out of range are no number.
pub open spec fn big_number(s: Seq<u8>) -> Rule<Value> {
    let n = run_len(s, ByteClass::Digit) as int;
    let value = decimal(s.take(n)) as int;
    if n == 0 {
        failure(ErrorKind::Mismatch, s)
    } else if value <= u64::MAX {
        Ok((s.skip(n), Value::BigNumber(value)))
    } else {
        failure(ErrorKind::InvalidScriptValue, s)
    }
}

/// The inside of a quoted string, read from just after the opening quote:
/// what follows the closing quote, and the bytes between the quotes with
/// each `\"` and `\\` replaced by its second byte. A backslash before any
/// other byte stands for itself. Nothing where no quote closes the string.
pub open spec fn string_body(s: Seq<u8>) -> Option<(Seq<u8>, Seq<u8>)>
    decreases s.len(),
{
    if s.len() == 0 {
        None
    } else if s[0] == QUOTE {
        Some((s.skip(1), Seq::empty()))
    } else {
        let escape = s[0] == BACKSLASH && s.len() > 1 && (s[1] == QUOTE || s[1] == BACKSLASH);
        let (byte, step) = if escape {
            (s[1], 2int)
        } else {
            (s[0], 1int)
        };
        match string_body(s.skip(step)) {
            Some((rest, bytes)) => Some((rest, seq![byte] + bytes)),
            None => None,
        }
    }
}

/// A quoted string. Its text is the inside as UTF-8. A string that no
/// quote closes fails at the end of the input.
pub open spec fn string(s: Seq<u8>) -> Rule<Value> {
    if !starts_with_byte(s, QUOTE) {
        failure(ErrorKind::Mismatch, s)
    } else {
        match string_body(s.skip(1)) {
            None => failure(ErrorKind::Mismatch, Seq::<u8>::empty()),
            Some((rest, bytes)) => if valid_utf8(bytes) {
                Ok((rest, Value::String(decode_utf8(bytes))))
            } else {
                failure(ErrorKind::InvalidScriptValue, s)
            },
        }
    }
}

/// A bare word: a run of letters, digits, underscores and blanks, not
/// empty.
pub open spec fn name(s: Seq<u8>) -> Rule<Value> {
    let n = run_len(s, ByteClass::Name) as int;
    if n == 0 {
        failure(ErrorKind::Mismatch, s)
    } else {
        Ok((s.skip(n), Value::Name(ascii_text(s.take(n)))))
    }
}

/// The empty literal: matches everywhere and reads nothing.
pub open spec fn empty(s: Seq<u8>) -> Rule<Value> {
    Ok((s, Value::Empty))
}

/// A literal: the first of boolean, float, number, big number, string,
/// bare word and the empty literal that matches.
#[verifier::opaque]
pub open spec fn value(s: Seq<u8>) -> Rule<Value> {
    first_of(
        boolean(s),
        first_of(
            float(s),
            first_of(
                number(s),
                first_of(big_number(s), first_of(string(s), first_of(name(s), empty(s)))),
            ),
        ),
    )
}

/// A named step of a path, read from just after its dot.
pub open spec fn accessor_name(s: Seq<u8>) -> Rule<Accessor> {
    match key_name(s) {
        Ok((rest, name)) => Ok((rest, Accessor::Name(name))),
        Err(e) => Err(e),
    }
}

/// An indexed step of a path, read from just after its bracket: a number
/// of 32 bits, or else an identifier. No closing bracket is read.
pub open spec fn accessor_index(s: Seq<u8>) -> Rule<Accessor> {
    match number(s) {
        Ok((rest, Value::Number(index))) => Ok((rest, Accessor::Index(index))),
        _ => match key_name(s) {
            Ok((rest, name)) => Ok((rest, Accessor::IndexName(name))),
            Err(_) => failure(ErrorKind::InvalidScriptProperty, s),
        },
    }
}

/// One step of a path: `.` and a name, or `[` and an index.
pub open spec fn accessor(s: Seq<u8>) -> Rule<Accessor> {
    if starts_with_byte(s, '.' as u8) {
        accessor_name(s.skip(1))
    } else if starts_with_byte(s, '[' as u8) {
        accessor_index(s.skip(1))
    } else {
        failure(ErrorKind::Mismatch, s)
    }
}

/// All the steps that follow each other at the start of `s`, and what
/// follows the last of them.
pub open spec fn accessors(s: Seq<u8>) -> (Seq<u8>, Seq<Accessor>)
    decreases s.len(),
{
    match accessor(s) {
        Ok((rest, first)) => if rest.len() < s.len() {
            let (end, others) = accessors(rest);
            (end, seq![first] + others)
        } else {
            (s, Seq::empty())
        },
        Err(_) => (s, Seq::empty()),
    }
}

/// An identifier alone.
pub open spec fn reference_name(s: Seq<u8>) -> Rule<Reference> {
    match key_name(s) {
        Ok((rest, name)) => Ok((rest, Reference::Name(name))),
        Err(e) => Err(e),
    }
}

/// An identifier and the path that follows it, of one step at least.
pub open spec fn reference_property(s: Seq<u8>) -> Rule<Reference> {
    match key_name(s) {
        Ok((rest, name)) => match accessor(rest) {
            Ok(_) => Ok((accessors(rest).0, Reference::Property(name, accessors(rest).1))),
            Err(e) => Err(e),
        },
        Err(e) => Err(e),
    }
}

/// A reference: a property where a path follows the identifier, else a
/// name.
#[verifier::opaque]
pub open spec fn reference(s: Seq<u8>) -> Rule<Reference> {
    first_of(reference_property(s), reference_name(s))
}

/// A field: line endings, a reference, blanks, a value, `;`, and one line
/// ending at least.
#[verifier::opaque]
pub open spec fn field(s: Seq<u8>) -> Rule<Field> {
    match reference(s.skip(line_endings_len(s) as int)) {
        Ok((after_reference, reference)) => {
            let at_value = after_reference.skip(run_len(after_reference, ByteClass::Space) as int);
            match value(at_value) {
                Ok((after_value, value)) => {
                    let after_separator = after_value.skip(1);
                    let n = line_endings_len(after_separator) as int;
                    if !starts_with_byte(after_value, ';' as u8) {
                        failure(ErrorKind::Mismatch, after_value)
                    } else if n == 0 {
                        failure(ErrorKind::Mismatch, after_separator)
                    } else {
                        Ok((after_separator.skip(n), Field { reference, value }))
                    }
                },
                Err(e) => Err(e),
            }
        },
        Err(e) => Err(e),
    }
}

/// A field whose reference is the plain name `expected`.
pub open spec fn field_named(expected: Seq<char>, s: Seq<u8>) -> Rule<Field> {
    match field(s) {
        Ok((rest, found)) => if found.reference == Reference::Name(expected) {
            Ok((rest, found))
        } else {
            failure(ErrorKind::InvalidTagName, s)
        },
        Err(e) => Err(e),
    }
}

/// The bytes of `//`.
pub open spec fn line_comment_opener() -> Seq<u8> {
    seq!['/' as u8, '/' as u8]
}

/// The bytes of `/*`.
pub open spec fn block_comment_opener() -> Seq<u8> {
    seq!['/' as u8, '*' as u8]
}

/// A line comment: `//` and the bytes up to the line feed, without the
/// carriage return that may stand before it. The line ending is not read.
/// Where no line feed follows, the comment has no end.
pub open spec fn line_comment(s: Seq<u8>) -> Rule<Comment> {
    let line = s.skip(2);
    let n = run_len(line, ByteClass::LineText) as int;
    let end = if n > 0 && line[n - 1] == CARRIAGE_RETURN {
        n - 1
    } else {
        n
    };
    if !line_comment_opener().is_prefix_of(s) {
        failure(ErrorKind::Mismatch, s)
    } else if n == line.len() {
        failure(ErrorKind::UnterminatedComment, s)
    } else if valid_utf8(line.take(end)) {
        Ok((line.skip(end), Comment::Line(decode_utf8(line.take(end)))))
    } else {
        failure(ErrorKind::Utf8Error, s)
    }
}

/// Whether `*/` stands at place `i` of `s`.
pub open spec fn closes_at(s: Seq<u8>, i: int) -> bool {
    0 <= i && i + 1 < s.len() && s[i] == '*' as u8 && s[i + 1] == '/' as u8
}

/// The number of bytes before the first `*/` in `s`; nothing where there is
/// none.
pub open spec fn block_comment_len(s: Seq<u8>) -> Option<int>
    decreases s.len(),
{
    if s.len() < 2 {
        None
    } else if closes_at(s, 0) {
        Some(0)
    } else {
        match block_comment_len(s.skip(1)) {
            Some(n) => Some(n + 1),
            None => None,
        }
    }
}

/// A block comment: `/*`, the bytes up to the first `*/`, and that `*/`.
pub open spec fn block_comment(s: Seq<u8>) -> Rule<Comment> {
    let body = s.skip(2);
    if !block_comment_opener().is_prefix_of(s) {
        failure(ErrorKind::Mismatch, s)
    } else {
        match block_comment_len(body) {
            None => failure(ErrorKind::UnterminatedComment, s),
            Some(n) => if valid_utf8(body.take(n)) {
                Ok((body.skip(n + 2), Comment::Block(decode_utf8(body.take(n)))))
            } else {
                failure(ErrorKind::Utf8Error, s)
            },
        }
    }
}

/// A comment: a line comment, or else a block comment.
#[verifier::opaque]
pub open spec fn comment(s: Seq<u8>) -> Rule<Comment> {
    first_of(line_comment(s), block_comment(s))
}

/// How deep calls and markup blocks may nest. A call or a block at a
/// greater depth is not read as one, which bounds the recursion of the
/// decoders whatever the input.
pub const NESTING_LIMIT: usize = 128;

/// The closing tag of a markup block named `name`: `<\`, the name, `>`.
pub open spec fn markup_closer(name: Seq<u8>) -> Seq<u8> {
    seq!['<' as u8, BACKSLASH] + name + seq!['>' as u8]
}

/// The length of the run of blanks and tabs at the start of `s`.
pub open spec fn spaces(s: Seq<u8>) -> int {
    run_len(s, ByteClass::Space) as int
}

/// A comment as an expression.
pub open spec fn expression_comment(s: Seq<u8>) -> Rule<Expression> {
    match comment(s) {
        Ok((rest, comment)) => Ok((rest, Expression::Comment(comment))),
        Err(e) => Err(e),
    }
}

/// A field as an expression.
pub open spec fn expression_field(s: Seq<u8>) -> Rule<Expression> {
    match field(s) {
        Ok((rest, field)) => Ok((rest, Expression::Field(field))),
        Err(e) => Err(e),
    }
}

/// A literal as an expression.
pub open spec fn expression_value(s: Seq<u8>) -> Rule<Expression> {
    match value(s) {
        Ok((rest, value)) => Ok((rest, Expression::Value(value))),
        Err(e) => Err(e),
    }
}

/// A markup block as an expression, with `depth` levels of nesting left.
pub open spec fn expression_markup(s: Seq<u8>, depth: nat) -> Rule<Expression>
    decreases depth, 2nat, s.len(),
{
    match markup(s, depth) {
        Ok((rest, markup)) => Ok((rest, Expression::Markup(markup))),
        Err(e) => Err(e),
    }
}

/// A call as an expression, with `depth` levels of nesting left.
pub open spec fn expression_call(s: Seq<u8>, depth: nat) -> Rule<Expression>
    decreases depth, 2nat, s.len(),
{
    match call(s, depth) {
        Ok((rest, call)) => Ok((rest, Expression::Call(call))),
        Err(e) => Err(e),
    }
}

/// An expression, with `depth` levels of nesting left: white space, then
/// the first of comment, markup block, call, field and literal that
/// matches, then blanks. It always matches, as the literal does. With no
/// level left, a markup block or a call is not tried.
pub open spec fn expression(s: Seq<u8>, depth: nat) -> Rule<Expression>
    decreases depth, 3nat, s.len(),
{
    let start = s.skip(run_len(s, ByteClass::Multispace) as int);
    let found = first_of(
        expression_comment(start),
        first_of(
            expression_markup(start, depth),
            first_of(
                expression_call(start, depth),
                first_of(expression_field(start), expression_value(start)),
            ),
        ),
    );
    match found {
        Ok((rest, expression)) => Ok((rest.skip(spaces(rest)), expression)),
        Err(e) => Err(e),
    }
}

/// A list of expressions, each with a `;` after it: what follows the last
/// `;`, and the expressions. The list ends before the first expression that
/// no `;` follows.
pub open spec fn expression_list(s: Seq<u8>, depth: nat) -> (Seq<u8>, Seq<Expression>)
    decreases depth, 4nat, s.len(),
{
    match expression(s, depth) {
        Ok((rest, first)) => if starts_with_byte(rest, ';' as u8) && rest.len() <= s.len() {
            let (end, others) = expression_list(rest.skip(1), depth);
            (end, seq![first] + others)
        } else {
            (s, Seq::empty())
        },
        Err(_) => (s, Seq::empty()),
    }
}

/// The arguments of a call, read from just after its `(`: expressions with
/// a `,` between them, then `)` and blanks.
pub open spec fn call_arguments(s: Seq<u8>, depth: nat) -> Rule<Seq<Expression>>
    decreases depth, 4nat, s.len(),
{
    match expression(s, depth) {
        Ok((rest, first)) => if starts_with_byte(rest, ',' as u8) && rest.len() <= s.len() {
            match call_arguments(rest.skip(1), depth) {
                Ok((end, others)) => Ok((end, seq![first] + others)),
                Err(e) => Err(e),
            }
        } else if starts_with_byte(rest, ')' as u8) {
            Ok((rest.skip(1).skip(spaces(rest.skip(1))), seq![first]))
        } else {
            failure(ErrorKind::Mismatch, rest)
        },
        Err(e) => Err(e),
    }
}

/// A call, with `depth` levels of nesting left, itself included: a
/// reference, `(`, and the arguments.
pub open spec fn call(s: Seq<u8>, depth: nat) -> Rule<Call>
    decreases depth, 1nat, s.len(),
{
    if depth == 0 {
        failure(ErrorKind::Mismatch, s)
    } else {
        match reference(s) {
            Ok((rest, reference)) => if !starts_with_byte(rest, '(' as u8) {
                failure(ErrorKind::Mismatch, rest)
            } else {
                match call_arguments(rest.skip(1), (depth - 1) as nat) {
                    Ok((end, arguments)) => Ok((end, Call { reference, arguments })),
                    Err(e) => Err(e),
                }
            },
            Err(e) => Err(e),
        }
    }
}

/// The opening tag of a markup block: blanks, `<`, a name of letters and
/// digits, `>`, blanks. Its value is the name as bytes.
#[verifier::opaque]
pub open spec fn markup_opening(s: Seq<u8>) -> Rule<Seq<u8>> {
    let opener = s.skip(spaces(s));
    let tag = opener.skip(1);
    let n = run_len(tag, ByteClass::Alphanumeric) as int;
    let bracket = tag.skip(n);
    let opened = bracket.skip(1);
    if !starts_with_byte(opener, '<' as u8) {
        failure(ErrorKind::Mismatch, opener)
    } else if n == 0 {
        failure(ErrorKind::Mismatch, tag)
    } else if !starts_with_byte(bracket, '>' as u8) {
        failure(ErrorKind::Mismatch, bracket)
    } else {
        Ok((opened.skip(spaces(opened)), tag.take(n)))
    }
}

/// The closing tag of the markup block `name`: blanks, `<\`, the name,
/// `>`, blanks. What follows it.
#[verifier::opaque]
pub open spec fn markup_closing(name: Seq<u8>, s: Seq<u8>) -> Result<Seq<u8>, Error> {
    let closer = s.skip(spaces(s));
    let end = closer.skip(markup_closer(name).len() as int);
    if markup_closer(name).is_prefix_of(closer) {
        Ok(end.skip(spaces(end)))
    } else {
        failure(ErrorKind::Mismatch, closer)
    }
}

/// A markup block, with `depth` levels of nesting left, itself included:
/// the opening tag, a list of expressions, and the closing tag of the same
/// name.
pub open spec fn markup(s: Seq<u8>, depth: nat) -> Rule<Markup>
    decreases depth, 1nat, s.len(),
{
    if depth == 0 {
        failure(ErrorKind::Mismatch, s)
    } else {
        match markup_opening(s) {
            Ok((inside, name)) => {
                let (after_body, body) = expression_list(inside, (depth - 1) as nat);
                match markup_closing(name, after_body) {
                    Ok(rest) => Ok((rest, Markup { name: ascii_text(name), body })),
                    Err(e) => Err(e),
                }
            },
            Err(e) => Err(e),
        }
    }
}

} // verus!
