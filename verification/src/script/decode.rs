//! The decoders: one for each rule of the grammar, each giving exactly what
//! the rule gives.

use vstd::prelude::*;
use vstd::slice::slice_subrange;
use crate::error::{Error, ErrorKind};
use crate::lexical::{
    has_first, has_prefix, is_ascii_bytes, lemma_run_is_ascii, lemma_run_len_is_run,
    read_decimal, run_len, scan_line_endings, scan_run, skip_bytes, skip_run, starts_with_byte,
    ByteClass, BACKSLASH, CARRIAGE_RETURN, QUOTE,
};
use crate::rule::{decoded, lemma_suffix_of_suffix, lemma_within_tail, within, Rule};
use crate::script::grammar;
use crate::script::grammar::NESTING_LIMIT;
use crate::script::model::{all_well_formed, Expression};
use crate::script::shape::{
    law_expressions_are_well_formed, law_fields_are_well_formed, law_references_are_well_formed,
    law_values_are_well_formed,
};
use crate::script::{
    expressions_model, path_model, ScriptAccessor, ScriptCall, ScriptComment, ScriptExpression,
    ScriptField, ScriptMarkup, ScriptReference, ScriptValue,
};
use crate::shared::{ascii_text, ascii_text_of, same_text, string_from_utf8, text_of};

verus! {

/// The first `n` bytes of the input, which are a run of `class`, as text.
fn run_text(input: &[u8], class: ByteClass, n: usize) -> (text: String)
    requires
        n == run_len(input@, class),
        class.only_ascii(),
    ensures
        text@ == ascii_text(input@.take(n as int)),
{
    proof {
        lemma_run_len_is_run(input@, class);
        lemma_run_is_ascii(input@, class);
    }
    ascii_text_of(slice_subrange(input, 0, n))
}

//
// Reference
//

/// Reads an identifier.
pub fn decode_key_name(input: &[u8]) -> (r: Result<(&[u8], String), Error>)
    ensures
        decoded(r, grammar::key_name(input@)),
        within(r, input@),
{
    let n = scan_run(input, ByteClass::Key);
    if n == 0 {
        return Err(Error { kind: ErrorKind::Mismatch, remaining: input.len() });
    }
    let name = run_text(input, ByteClass::Key, n);
    Ok((skip_bytes(input, n), name))
}

/// Reads an identifier as a reference.
pub fn decode_reference_name(input: &[u8]) -> (r: Result<(&[u8], ScriptReference), Error>)
    ensures
        decoded(r, grammar::reference_name(input@)),
        within(r, input@),
{
    match decode_key_name(input) {
        Ok((rest, name)) => Ok((rest, ScriptReference::Name(name))),
        Err(e) => Err(e),
    }
}

/// Reads a named step of a path, from just after its dot.
pub fn decode_accessor_name(input: &[u8]) -> (r: Result<(&[u8], ScriptAccessor), Error>)
    ensures
        decoded(r, grammar::accessor_name(input@)),
        within(r, input@),
{
    match decode_key_name(input) {
        Ok((rest, name)) => Ok((rest, ScriptAccessor::Name(name))),
        Err(e) => Err(e),
    }
}

/// Reads an indexed step of a path, from just after its bracket: a number,
/// or else an identifier.
pub fn decode_accessor_index(input: &[u8]) -> (r: Result<(&[u8], ScriptAccessor), Error>)
    ensures
        decoded(r, grammar::accessor_index(input@)),
        within(r, input@),
{
    if let Ok((rest, ScriptValue::Number(index))) = decode_number(input) {
        return Ok((rest, ScriptAccessor::Index(index)));
    }
    match decode_key_name(input) {
        Ok((rest, name)) => Ok((rest, ScriptAccessor::IndexName(name))),
        Err(_) => Err(Error { kind: ErrorKind::InvalidScriptProperty, remaining: input.len() }),
    }
}

/// Reads one step of a path. A step that is read is one byte long at least.
pub fn decode_accessor(input: &[u8]) -> (r: Result<(&[u8], ScriptAccessor), Error>)
    ensures
        decoded(r, grammar::accessor(input@)),
        within(r, input@),
        r matches Ok((rest, _)) ==> rest@.len() < input@.len(),
{
    if has_first(input, '.' as u8) {
        let r = decode_accessor_name(skip_bytes(input, 1));
        proof {
            lemma_within_tail(r, input@, 1);
        }
        r
    } else if has_first(input, '[' as u8) {
        let r = decode_accessor_index(skip_bytes(input, 1));
        proof {
            lemma_within_tail(r, input@, 1);
        }
        r
    } else {
        Err(Error { kind: ErrorKind::Mismatch, remaining: input.len() })
    }
}

/// Reads an identifier and the path that follows it, of one step at least.
pub fn decode_reference_property(input: &[u8]) -> (r: Result<(&[u8], ScriptReference), Error>)
    ensures
        decoded(r, grammar::reference_property(input@)),
        within(r, input@),
{
    let (start, name) = match decode_key_name(input) {
        Ok(found) => found,
        Err(e) => {
            return Err(e);
        },
    };
    let (after_first, first) = match decode_accessor(start) {
        Ok(found) => found,
        Err(e) => {
            return Err(e);
        },
    };
    let mut path: Vec<ScriptAccessor> = Vec::new();
    path.push(first);
    let mut rest = after_first;
    proof {
        assert(path_model(path@) + grammar::accessors(rest@).1 =~= seq![first@]
            + grammar::accessors(rest@).1);
    }
    loop
        invariant
            rest@.is_suffix_of(start@),
            grammar::accessors(start@) == (
                grammar::accessors(rest@).0,
                path_model(path@) + grammar::accessors(rest@).1,
            ),
        ensures
            rest@.is_suffix_of(start@),
            grammar::accessors(start@) == (rest@, path_model(path@)),
        decreases rest@.len(),
    {
        let ghost before = path_model(path@);
        match decode_accessor(rest) {
            Ok((next, step)) => {
                path.push(step);
                proof {
                    lemma_suffix_of_suffix(next@, rest@, start@);
                    assert(path_model(path@) =~= before.push(step@));
                    assert(before + (seq![step@] + grammar::accessors(next@).1) =~= path_model(
                        path@,
                    ) + grammar::accessors(next@).1);
                }
                rest = next;
            },
            Err(_) => {
                proof {
                    assert(before + Seq::empty() =~= before);
                }
                break;
            },
        }
    }
    proof {
        lemma_suffix_of_suffix(rest@, start@, input@);
    }
    Ok((rest, ScriptReference::Property(name, path)))
}

/// Reads a reference: a property, or else a name.
pub fn decode_reference(input: &[u8]) -> (r: Result<(&[u8], ScriptReference), Error>)
    ensures
        decoded(r, grammar::reference(input@)),
        within(r, input@),
        r matches Ok((_, reference)) ==> reference@.well_formed(),
{
    reveal(grammar::reference);
    proof {
        law_references_are_well_formed(input@);
    }
    if let Ok(found) = decode_reference_property(input) {
        return Ok(found);
    }
    decode_reference_name(input)
}

//
// Field
//

/// Reads a field.
pub fn decode_field(input: &[u8]) -> (r: Result<(&[u8], ScriptField), Error>)
    ensures
        decoded(r, grammar::field(input@)),
        within(r, input@),
        r matches Ok((_, field)) ==> field@.well_formed(),
{
    reveal(grammar::field);
    proof {
        law_fields_are_well_formed(input@);
    }
    let start = skip_bytes(input, scan_line_endings(input));
    let (after_reference, reference) = match decode_reference(start) {
        Ok(found) => found,
        Err(e) => {
            return Err(e);
        },
    };
    let at_value = skip_run(after_reference, ByteClass::Space);
    let (after_value, value) = match decode_value(at_value) {
        Ok(found) => found,
        Err(e) => {
            return Err(e);
        },
    };
    proof {
        lemma_suffix_of_suffix(after_reference@, start@, input@);
        lemma_suffix_of_suffix(at_value@, after_reference@, input@);
        lemma_suffix_of_suffix(after_value@, at_value@, input@);
    }
    if !has_first(after_value, ';' as u8) {
        return Err(Error { kind: ErrorKind::Mismatch, remaining: after_value.len() });
    }
    let after_separator = skip_bytes(after_value, 1);
    let n = scan_line_endings(after_separator);
    if n == 0 {
        return Err(Error { kind: ErrorKind::Mismatch, remaining: after_separator.len() });
    }
    let rest = skip_bytes(after_separator, n);
    proof {
        lemma_suffix_of_suffix(after_separator@, after_value@, input@);
        lemma_suffix_of_suffix(rest@, after_separator@, input@);
    }
    Ok((rest, ScriptField { reference, value }))
}

/// Reads a field and checks that its reference is the plain name `name`.
pub fn decode_field_named<'a>(name: &str, input: &'a [u8]) -> (r: Result<
    (&'a [u8], ScriptField),
    Error,
>)
    ensures
        decoded(r, grammar::field_named(name@, input@)),
        within(r, input@),
{
    let (rest, field) = match decode_field(input) {
        Ok(found) => found,
        Err(e) => {
            return Err(e);
        },
    };
    let named = match &field.reference {
        ScriptReference::Name(found) => same_text(found.as_str(), name),
        ScriptReference::Property(_, _) => false,
    };
    if named {
        Ok((rest, field))
    } else {
        Err(Error { kind: ErrorKind::InvalidTagName, remaining: input.len() })
    }
}

//
// Value
//

/// Reads `TRUE` or `FALSE`.
pub fn decode_bool(input: &[u8]) -> (r: Result<(&[u8], ScriptValue), Error>)
    ensures
        decoded(r, grammar::boolean(input@)),
        within(r, input@),
{
    let yes: [u8; 4] = ['T' as u8, 'R' as u8, 'U' as u8, 'E' as u8];
    let no: [u8; 5] = ['F' as u8, 'A' as u8, 'L' as u8, 'S' as u8, 'E' as u8];
    proof {
        assert(yes@ =~= grammar::keyword_true());
        assert(no@ =~= grammar::keyword_false());
    }
    if has_prefix(input, &yes) {
        Ok((skip_bytes(input, 4), ScriptValue::Bool(true)))
    } else if has_prefix(input, &no) {
        Ok((skip_bytes(input, 5), ScriptValue::Bool(false)))
    } else {
        Err(Error { kind: ErrorKind::Mismatch, remaining: input.len() })
    }
}

/// Reads the empty literal, which is always there.
pub fn decode_none(input: &[u8]) -> (r: Result<(&[u8], ScriptValue), Error>)
    ensures
        decoded(r, grammar::empty(input@)),
        within(r, input@),
{
    Ok((input, ScriptValue::Empty))
}

/// The length of the sign at the start of the input, 0 or 1.
fn scan_sign(input: &[u8]) -> (n: usize)
    ensures
        n == grammar::sign_len(input@),
        n <= input@.len(),
{
    if has_first(input, '-' as u8) || has_first(input, '+' as u8) {
        1
    } else {
        0
    }
}

/// Reads a decimal literal with a fraction.
pub fn decode_float(input: &[u8]) -> (r: Result<(&[u8], ScriptValue), Error>)
    ensures
        decoded(r, grammar::float(input@)),
        within(r, input@),
{
    let sign = scan_sign(input);
    let whole = skip_bytes(input, sign);
    let n = scan_run(whole, ByteClass::Digit);
    if n == 0 {
        return Err(Error { kind: ErrorKind::Mismatch, remaining: whole.len() });
    }
    let dot = skip_bytes(whole, n);
    if !has_first(dot, '.' as u8) {
        return Err(Error { kind: ErrorKind::Mismatch, remaining: dot.len() });
    }
    let fraction = skip_bytes(dot, 1);
    let m = scan_run(fraction, ByteClass::Digit);
    if m == 0 {
        return Err(Error { kind: ErrorKind::Mismatch, remaining: fraction.len() });
    }
    let total = input.len();
    assert(sign + n + 1 + m <= total) by {
        assert(whole@.len() == input@.len() - sign);
        assert(dot@.len() == whole@.len() - n);
        assert(fraction@.len() == dot@.len() - 1);
    }
    let len = sign + n + 1 + m;
    let literal = slice_subrange(input, 0, len);
    proof {
        lemma_run_len_is_run(whole@, ByteClass::Digit);
        lemma_run_len_is_run(fraction@, ByteClass::Digit);
        assert forall|i: int| 0 <= i < literal@.len() implies #[trigger] literal@[i] < 0x80 by {
            if sign <= i < sign + n {
                assert(literal@[i] == whole@[i - sign]);
            } else if i == sign + n {
                assert(literal@[i] == dot@[0]);
            } else if i > sign + n {
                assert(literal@[i] == fraction@[i - sign - n - 1]);
            }
        }
    }
    let text = ascii_text_of(literal);
    Ok((skip_bytes(fraction, m), ScriptValue::Float(text)))
}

/// Reads an integer of 32 bits.
pub fn decode_number(input: &[u8]) -> (r: Result<(&[u8], ScriptValue), Error>)
    ensures
        decoded(r, grammar::number(input@)),
        within(r, input@),
{
    let negative = has_first(input, '-' as u8);
    let sign = scan_sign(input);
    let digits = skip_bytes(input, sign);
    let n = scan_run(digits, ByteClass::Digit);
    if n == 0 {
        return Err(Error { kind: ErrorKind::Mismatch, remaining: digits.len() });
    }
    proof {
        lemma_run_len_is_run(digits@, ByteClass::Digit);
    }
    let limit: u64 = if negative {
        0x8000_0000
    } else {
        0x7fff_ffff
    };
    match read_decimal(slice_subrange(digits, 0, n), limit) {
        Some(magnitude) => {
            let value: i32 = if !negative {
                magnitude as i32
            } else if magnitude == 0x8000_0000 {
                i32::MIN
            } else {
                -(magnitude as i32)
            };
            Ok((skip_bytes(digits, n), ScriptValue::Number(value)))
        },
        None => Err(Error { kind: ErrorKind::InvalidScriptValue, remaining: input.len() }),
    }
}

/// Reads an unsigned integer of 64 bits.
pub fn decode_big_number(input: &[u8]) -> (r: Result<(&[u8], ScriptValue), Error>)
    ensures
        decoded(r, grammar::big_number(input@)),
        within(r, input@),
{
    let n = scan_run(input, ByteClass::Digit);
    if n == 0 {
        return Err(Error { kind: ErrorKind::Mismatch, remaining: input.len() });
    }
    proof {
        lemma_run_len_is_run(input@, ByteClass::Digit);
    }
    match read_decimal(slice_subrange(input, 0, n), u64::MAX) {
        Some(value) => Ok((skip_bytes(input, n), ScriptValue::BigNumber(value))),
        None => Err(Error { kind: ErrorKind::InvalidScriptValue, remaining: input.len() }),
    }
}

/// Reads a quoted string.
pub fn decode_string(input: &[u8]) -> (r: Result<(&[u8], ScriptValue), Error>)
    ensures
        decoded(r, grammar::string(input@)),
        within(r, input@),
{
    if !has_first(input, QUOTE) {
        return Err(Error { kind: ErrorKind::Mismatch, remaining: input.len() });
    }
    let body = skip_bytes(input, 1);
    let mut bytes: Vec<u8> = Vec::new();
    let mut i: usize = 0;
    proof {
        assert(body@.skip(0) =~= body@);
        assert(bytes@ + Seq::<u8>::empty() =~= Seq::<u8>::empty());
    }
    loop
        invariant_except_break
            starts_with_byte(input@, QUOTE),
            body@ == input@.skip(1),
            i <= body@.len(),
            grammar::string_body(body@) == match grammar::string_body(body@.skip(i as int)) {
                Some((rest, tail)) => Some((rest, bytes@ + tail)),
                None => None,
            },
        ensures
            i < body@.len(),
            grammar::string_body(body@) == Some((body@.skip(i + 1), bytes@)),
        decreases body@.len() - i,
    {
        let ghost here = body@.skip(i as int);
        if i >= body.len() {
            assert(here.len() == 0);
            return Err(Error { kind: ErrorKind::Mismatch, remaining: 0 });
        }
        let byte = body[i];
        assert(here[0] == byte);
        if byte == QUOTE {
            proof {
                assert(here.skip(1) =~= body@.skip(i + 1));
                assert(bytes@ + Seq::<u8>::empty() =~= bytes@);
            }
            break;
        }
        let ghost before = bytes@;
        if byte == BACKSLASH && i + 1 < body.len() && (body[i + 1] == QUOTE || body[i + 1]
            == BACKSLASH) {
            assert(here[1] == body@[i + 1]);
            bytes.push(body[i + 1]);
            i += 2;
            proof {
                assert(here.skip(2) =~= body@.skip(i as int));
            }
        } else {
            if byte == BACKSLASH && i + 1 < body.len() {
                assert(here[1] == body@[i + 1]);
            }
            bytes.push(byte);
            i += 1;
            proof {
                assert(here.skip(1) =~= body@.skip(i as int));
            }
        }
        proof {
            let pushed = bytes@.last();
            match grammar::string_body(body@.skip(i as int)) {
                Some((rest, tail)) => {
                    assert(before + (seq![pushed] + tail) =~= bytes@ + tail);
                },
                None => {},
            }
        }
    }
    assert(i < body.len());
    let rest = skip_bytes(body, i + 1);
    match string_from_utf8(bytes) {
        Some(text) => Ok((rest, ScriptValue::String(text))),
        None => Err(Error { kind: ErrorKind::InvalidScriptValue, remaining: input.len() }),
    }
}

/// Reads a bare word.
pub fn decode_name(input: &[u8]) -> (r: Result<(&[u8], ScriptValue), Error>)
    ensures
        decoded(r, grammar::name(input@)),
        within(r, input@),
{
    let n = scan_run(input, ByteClass::Name);
    if n == 0 {
        return Err(Error { kind: ErrorKind::Mismatch, remaining: input.len() });
    }
    let name = run_text(input, ByteClass::Name, n);
    Ok((skip_bytes(input, n), ScriptValue::Name(name)))
}

/// Reads a literal: the first kind that matches, in the order boolean,
/// float, number, big number, string, bare word, empty. It always matches.
pub fn decode_value(input: &[u8]) -> (r: Result<(&[u8], ScriptValue), Error>)
    ensures
        decoded(r, grammar::value(input@)),
        within(r, input@),
        r is Ok,
        r matches Ok((_, value)) ==> value@.well_formed(),
{
    reveal(grammar::value);
    proof {
        law_values_are_well_formed(input@);
    }
    if let Ok(found) = decode_bool(input) {
        return Ok(found);
    }
    if let Ok(found) = decode_float(input) {
        return Ok(found);
    }
    if let Ok(found) = decode_number(input) {
        return Ok(found);
    }
    if let Ok(found) = decode_big_number(input) {
        return Ok(found);
    }
    if let Ok(found) = decode_string(input) {
        return Ok(found);
    }
    if let Ok(found) = decode_name(input) {
        return Ok(found);
    }
    decode_none(input)
}

//
// Expression
//

/// A decoder's list is the one that the rule gives: the same remainder, and
/// expressions with the same models.
pub open spec fn decoded_list(
    r: Result<(&[u8], Vec<ScriptExpression>), Error>,
    rule: Rule<Seq<Expression>>,
) -> bool {
    match (r, rule) {
        (Ok((rest, list)), Ok((rule_rest, rule_list))) => rest@ =~= rule_rest
            && expressions_model(list) == rule_list,
        (Err(e), Err(rule_e)) => e == rule_e,
        _ => false,
    }
}

/// Reads a list of expressions, each with a `;` after it. The list ends
/// where no further expression with its `;` can be read, so this never
/// fails: what could not be read is left. Calls and markup blocks are read
/// down to [`NESTING_LIMIT`] levels.
pub fn decode_expression_list(input: &[u8]) -> (r: Result<(&[u8], Vec<ScriptExpression>), Error>)
    ensures
        decoded_list(r, Ok(grammar::expression_list(input@, NESTING_LIMIT as nat))),
        within(r, input@),
        r matches Ok((_, list)) ==> all_well_formed(expressions_model(list)),
{
    proof {
        law_expressions_are_well_formed(input@, NESTING_LIMIT as nat);
    }
    Ok(expression_list_within(input, NESTING_LIMIT))
}

/// Reads one expression: the first kind that matches, in the order
/// comment, markup block, call, field, literal. It always matches. Calls
/// and markup blocks are read down to [`NESTING_LIMIT`] levels.
pub fn decode_expression(input: &[u8]) -> (r: Result<(&[u8], ScriptExpression), Error>)
    ensures
        decoded(r, grammar::expression(input@, NESTING_LIMIT as nat)),
        within(r, input@),
        r is Ok,
        r matches Ok((_, expression)) ==> expression@.well_formed(),
{
    proof {
        law_expressions_are_well_formed(input@, NESTING_LIMIT as nat);
    }
    expression_within(input, NESTING_LIMIT)
}

/// Reads a literal as an expression.
pub fn decode_expression_value(input: &[u8]) -> (r: Result<(&[u8], ScriptExpression), Error>)
    ensures
        decoded(r, grammar::expression_value(input@)),
        within(r, input@),
        r is Ok,
{
    match decode_value(input) {
        Ok((rest, value)) => Ok((rest, ScriptExpression::Value(value))),
        Err(e) => Err(e),
    }
}

/// Reads a field as an expression.
pub fn decode_expression_field(input: &[u8]) -> (r: Result<(&[u8], ScriptExpression), Error>)
    ensures
        decoded(r, grammar::expression_field(input@)),
        within(r, input@),
{
    match decode_field(input) {
        Ok((rest, field)) => Ok((rest, ScriptExpression::Field(field))),
        Err(e) => Err(e),
    }
}

/// Reads a call as an expression.
pub fn decode_expression_call(input: &[u8]) -> (r: Result<(&[u8], ScriptExpression), Error>)
    ensures
        decoded(r, grammar::expression_call(input@, NESTING_LIMIT as nat)),
        within(r, input@),
{
    expression_call_within(input, NESTING_LIMIT)
}

/// Reads a markup block as an expression.
pub fn decode_expression_markup(input: &[u8]) -> (r: Result<(&[u8], ScriptExpression), Error>)
    ensures
        decoded(r, grammar::expression_markup(input@, NESTING_LIMIT as nat)),
        within(r, input@),
{
    expression_markup_within(input, NESTING_LIMIT)
}

/// Reads a comment as an expression.
pub fn decode_expression_comment(input: &[u8]) -> (r: Result<(&[u8], ScriptExpression), Error>)
    ensures
        decoded(r, grammar::expression_comment(input@)),
        within(r, input@),
{
    match decode_comment(input) {
        Ok((rest, comment)) => Ok((rest, ScriptExpression::Comment(comment))),
        Err(e) => Err(e),
    }
}

/// The list of expressions at the start of the input, with `depth` levels
/// of nesting left.
fn expression_list_within(input: &[u8], depth: usize) -> (r: (&[u8], Vec<ScriptExpression>))
    ensures
        r.0@ =~= grammar::expression_list(input@, depth as nat).0,
        expressions_model(r.1) == grammar::expression_list(input@, depth as nat).1,
        r.0@.is_suffix_of(input@),
    decreases depth, 4nat,
{
    let mut list: Vec<ScriptExpression> = Vec::new();
    let mut rest = input;
    proof {
        assert(expressions_model(list) + grammar::expression_list(rest@, depth as nat).1
            =~= grammar::expression_list(rest@, depth as nat).1);
    }
    loop
        invariant
            rest@.is_suffix_of(input@),
            grammar::expression_list(input@, depth as nat) == (
                grammar::expression_list(rest@, depth as nat).0,
                expressions_model(list) + grammar::expression_list(rest@, depth as nat).1,
            ),
        ensures
            rest@.is_suffix_of(input@),
            grammar::expression_list(input@, depth as nat) == (rest@, expressions_model(list)),
        decreases rest@.len(),
    {
        let ghost before = expressions_model(list);
        let found = expression_within(rest, depth);
        match found {
            Ok((after, expression)) if has_first(after, ';' as u8) => {
                let next = skip_bytes(after, 1);
                let ghost others = grammar::expression_list(next@, depth as nat).1;
                list.push(expression);
                proof {
                    lemma_suffix_of_suffix(next@, after@, rest@);
                    lemma_suffix_of_suffix(next@, rest@, input@);
                    assert(expressions_model(list) =~= before.push(expression@));
                    assert(before + (seq![expression@] + others) =~= expressions_model(list)
                        + others);
                }
                rest = next;
            },
            _ => {
                proof {
                    assert(before + Seq::empty() =~= before);
                }
                break;
            },
        }
    }
    (rest, list)
}

/// The expression at the start of the input, with `depth` levels of
/// nesting left.
fn expression_within(input: &[u8], depth: usize) -> (r: Result<(&[u8], ScriptExpression), Error>)
    ensures
        decoded(r, grammar::expression(input@, depth as nat)),
        within(r, input@),
        r is Ok,
    decreases depth, 3nat,
{
    let start = skip_run(input, ByteClass::Multispace);
    let (rest, expression) = if let Ok(found) = decode_expression_comment(start) {
        found
    } else if let Ok(found) = expression_markup_within(start, depth) {
        found
    } else if let Ok(found) = expression_call_within(start, depth) {
        found
    } else if let Ok(found) = decode_expression_field(start) {
        found
    } else {
        match decode_expression_value(start) {
            Ok(found) => found,
            Err(e) => {
                return Err(e);
            },
        }
    };
    let end = skip_run(rest, ByteClass::Space);
    proof {
        lemma_suffix_of_suffix(rest@, start@, input@);
        lemma_suffix_of_suffix(end@, rest@, input@);
    }
    Ok((end, expression))
}

/// The markup block at the start of the input as an expression, with
/// `depth` levels of nesting left.
fn expression_markup_within(input: &[u8], depth: usize) -> (r: Result<
    (&[u8], ScriptExpression),
    Error,
>)
    ensures
        decoded(r, grammar::expression_markup(input@, depth as nat)),
        within(r, input@),
    decreases depth, 2nat,
{
    match markup_within(input, depth) {
        Ok((rest, markup)) => Ok((rest, ScriptExpression::Markup(markup))),
        Err(e) => Err(e),
    }
}

/// The call at the start of the input as an expression, with `depth` levels
/// of nesting left.
fn expression_call_within(input: &[u8], depth: usize) -> (r: Result<
    (&[u8], ScriptExpression),
    Error,
>)
    ensures
        decoded(r, grammar::expression_call(input@, depth as nat)),
        within(r, input@),
    decreases depth, 2nat,
{
    match call_within(input, depth) {
        Ok((rest, call)) => Ok((rest, ScriptExpression::Call(call))),
        Err(e) => Err(e),
    }
}

//
// Call
//

/// Reads a call: a reference, `(`, expressions with `,` between them, `)`
/// and blanks. Calls and markup blocks among the arguments are read down to
/// [`NESTING_LIMIT`] levels, this call included.
pub fn decode_call(input: &[u8]) -> (r: Result<(&[u8], ScriptCall), Error>)
    ensures
        decoded(r, grammar::call(input@, NESTING_LIMIT as nat)),
        within(r, input@),
        r matches Ok((_, call)) ==> call@.well_formed(),
{
    proof {
        law_expressions_are_well_formed(input@, NESTING_LIMIT as nat);
    }
    call_within(input, NESTING_LIMIT)
}

/// The arguments of a call, read from just after its `(`, with `depth`
/// levels of nesting left.
fn call_arguments_within(input: &[u8], depth: usize) -> (r: Result<
    (&[u8], Vec<ScriptExpression>),
    Error,
>)
    ensures
        decoded_list(r, grammar::call_arguments(input@, depth as nat)),
        within(r, input@),
    decreases depth, 4nat,
{
    let mut arguments: Vec<ScriptExpression> = Vec::new();
    let mut last_input = input;
    proof {
        match grammar::call_arguments(input@, depth as nat) {
            Ok((end, others)) => {
                assert(expressions_model(arguments) + others =~= others);
            },
            Err(_) => {},
        }
    }
    loop
        invariant_except_break
            last_input@.is_suffix_of(input@),
            grammar::call_arguments(input@, depth as nat) == match grammar::call_arguments(
                last_input@,
                depth as nat,
            ) {
                Ok((end, others)) => Ok((end, expressions_model(arguments) + others)),
                Err(e) => Err(e),
            },
        ensures
            last_input@.is_suffix_of(input@),
            grammar::call_arguments(input@, depth as nat) == Ok::<_, Error>(
                (last_input@, expressions_model(arguments)),
            ),
        decreases last_input@.len(),
    {
        let ghost before = expressions_model(arguments);
        let (after, argument) = match expression_within(last_input, depth) {
            Ok(found) => found,
            Err(e) => {
                proof {
                    lemma_within_tail::<ScriptExpression>(
                        Err(e),
                        input@,
                        input@.len() - last_input@.len(),
                    );
                }
                return Err(e);
            },
        };
        arguments.push(argument);
        proof {
            lemma_suffix_of_suffix(after@, last_input@, input@);
            assert(expressions_model(arguments) =~= before.push(argument@));
        }
        if has_first(after, ',' as u8) {
            let next = skip_bytes(after, 1);
            proof {
                lemma_suffix_of_suffix(next@, after@, input@);
                lemma_suffix_of_suffix(next@, after@, last_input@);
                match grammar::call_arguments(next@, depth as nat) {
                    Ok((end, others)) => {
                        assert(before + (seq![argument@] + others) =~= expressions_model(
                            arguments,
                        ) + others);
                    },
                    Err(_) => {},
                }
            }
            last_input = next;
        } else {
            if !has_first(after, ')' as u8) {
                return Err(Error { kind: ErrorKind::Mismatch, remaining: after.len() });
            }
            let closed = skip_bytes(after, 1);
            let end = skip_run(closed, ByteClass::Space);
            proof {
                lemma_suffix_of_suffix(closed@, after@, input@);
                lemma_suffix_of_suffix(end@, closed@, input@);
                assert(before + seq![argument@] =~= expressions_model(arguments));
            }
            last_input = end;
            break;
        }
    }
    Ok((last_input, arguments))
}

/// The call at the start of the input, with `depth` levels of nesting left.
fn call_within(input: &[u8], depth: usize) -> (r: Result<(&[u8], ScriptCall), Error>)
    ensures
        decoded(r, grammar::call(input@, depth as nat)),
        within(r, input@),
    decreases depth, 1nat,
{
    if depth == 0 {
        return Err(Error { kind: ErrorKind::Mismatch, remaining: input.len() });
    }
    let (after_reference, reference) = match decode_reference(input) {
        Ok(found) => found,
        Err(e) => {
            return Err(e);
        },
    };
    if !has_first(after_reference, '(' as u8) {
        return Err(Error { kind: ErrorKind::Mismatch, remaining: after_reference.len() });
    }
    let start = skip_bytes(after_reference, 1);
    proof {
        lemma_suffix_of_suffix(start@, after_reference@, input@);
    }
    match call_arguments_within(start, depth - 1) {
        Ok((rest, arguments)) => {
            proof {
                lemma_suffix_of_suffix(rest@, start@, input@);
            }
            Ok((rest, ScriptCall { reference, arguments }))
        },
        Err(e) => Err(e),
    }
}

//
// Markup
//

/// Whether the input begins with the closing tag of the block `name`.
fn has_closer(input: &[u8], name: &[u8]) -> (r: bool)
    ensures
        r == grammar::markup_closer(name@).is_prefix_of(input@),
{
    let ghost closer = grammar::markup_closer(name@);
    assert(closer.len() == name@.len() + 3);
    if input.len() < 3 || input.len() - 3 < name.len() {
        return false;
    }
    assert(closer[0] == '<' as u8 && closer[1] == BACKSLASH);
    assert(closer[name@.len() as int + 2] == '>' as u8);
    if input[0] != '<' as u8 || input[1] != BACKSLASH {
        return false;
    }
    let tail = skip_bytes(input, 2);
    if !has_prefix(tail, name) {
        proof {
            if closer.is_prefix_of(input@) {
                assert forall|k: int| 0 <= k < name@.len() implies name@[k] == tail@[k] by {
                    assert(closer[k + 2] == input@[k + 2]);
                }
                assert(name@ =~= tail@.subrange(0, name@.len() as int));
            }
        }
        return false;
    }
    if input[name.len() + 2] != '>' as u8 {
        return false;
    }
    proof {
        assert forall|k: int| 0 <= k < closer.len() implies closer[k] == input@[k] by {
            if 2 <= k < name@.len() + 2 {
                assert(closer[k] == name@[k - 2]);
                assert(tail@[k - 2] == input@[k]);
            }
        }
        assert(closer =~= input@.subrange(0, closer.len() as int));
    }
    true
}

/// Reads a markup block: `<`, a name, `>`, a list of expressions, and the
/// closing tag of the same name, with blanks around each. Calls and markup
/// blocks in the body are read down to [`NESTING_LIMIT`] levels, this block
/// included.
pub fn decode_markup(input: &[u8]) -> (r: Result<(&[u8], ScriptMarkup), Error>)
    ensures
        decoded(r, grammar::markup(input@, NESTING_LIMIT as nat)),
        within(r, input@),
        r matches Ok((_, markup)) ==> markup@.well_formed(),
{
    proof {
        law_expressions_are_well_formed(input@, NESTING_LIMIT as nat);
    }
    markup_within(input, NESTING_LIMIT)
}

/// Reads the opening tag of a markup block: what follows it, and the name
/// as bytes.
fn markup_opening(input: &[u8]) -> (r: Result<(&[u8], &[u8]), Error>)
    ensures
        decoded(r, grammar::markup_opening(input@)),
        within(r, input@),
        r matches Ok((_, name)) ==> is_ascii_bytes(name@),
{
    reveal(grammar::markup_opening);
    let opener = skip_run(input, ByteClass::Space);
    if !has_first(opener, '<' as u8) {
        return Err(Error { kind: ErrorKind::Mismatch, remaining: opener.len() });
    }
    let tag = skip_bytes(opener, 1);
    let n = scan_run(tag, ByteClass::Alphanumeric);
    proof {
        lemma_suffix_of_suffix(tag@, opener@, input@);
        lemma_run_is_ascii(tag@, ByteClass::Alphanumeric);
    }
    if n == 0 {
        return Err(Error { kind: ErrorKind::Mismatch, remaining: tag.len() });
    }
    let bracket = skip_bytes(tag, n);
    proof {
        lemma_suffix_of_suffix(bracket@, tag@, input@);
    }
    if !has_first(bracket, '>' as u8) {
        return Err(Error { kind: ErrorKind::Mismatch, remaining: bracket.len() });
    }
    let opened = skip_bytes(bracket, 1);
    let inside = skip_run(opened, ByteClass::Space);
    proof {
        lemma_suffix_of_suffix(opened@, bracket@, input@);
        lemma_suffix_of_suffix(inside@, opened@, input@);
    }
    Ok((inside, slice_subrange(tag, 0, n)))
}

/// Reads the closing tag of the markup block `name`: what follows it.
fn markup_closing<'a>(name: &[u8], input: &'a [u8]) -> (r: Result<&'a [u8], Error>)
    ensures
        match (r, grammar::markup_closing(name@, input@)) {
            (Ok(rest), Ok(rule_rest)) => rest@ =~= rule_rest && rest@.is_suffix_of(input@),
            (Err(e), Err(rule_e)) => e == rule_e && e.remaining <= input@.len(),
            _ => false,
        },
{
    reveal(grammar::markup_closing);
    let closer = skip_run(input, ByteClass::Space);
    if !has_closer(closer, name) {
        return Err(Error { kind: ErrorKind::Mismatch, remaining: closer.len() });
    }
    assert(name@.len() + 3 == grammar::markup_closer(name@).len() <= closer.len());
    let end = skip_bytes(closer, name.len() + 3);
    let rest = skip_run(end, ByteClass::Space);
    proof {
        lemma_suffix_of_suffix(end@, closer@, input@);
        lemma_suffix_of_suffix(rest@, end@, input@);
    }
    Ok(rest)
}

/// The markup block at the start of the input, with `depth` levels of
/// nesting left.
fn markup_within(input: &[u8], depth: usize) -> (r: Result<(&[u8], ScriptMarkup), Error>)
    ensures
        decoded(r, grammar::markup(input@, depth as nat)),
        within(r, input@),
    decreases depth, 1nat,
{
    if depth == 0 {
        return Err(Error { kind: ErrorKind::Mismatch, remaining: input.len() });
    }
    let (inside, name) = match markup_opening(input) {
        Ok(found) => found,
        Err(e) => {
            return Err(e);
        },
    };
    let (after_body, body) = expression_list_within(inside, depth - 1);
    let rest = match markup_closing(name, after_body) {
        Ok(rest) => rest,
        Err(e) => {
            return Err(e);
        },
    };
    proof {
        lemma_suffix_of_suffix(after_body@, inside@, input@);
        lemma_suffix_of_suffix(rest@, after_body@, input@);
    }
    Ok((rest, ScriptMarkup { name: ascii_text_of(name), body }))
}

//
// Comment
//

/// Reads a line comment. The line ending stays in the input.
pub fn decode_line_comment(input: &[u8]) -> (r: Result<(&[u8], ScriptComment), Error>)
    ensures
        decoded(r, grammar::line_comment(input@)),
        within(r, input@),
{
    let opener: [u8; 2] = ['/' as u8, '/' as u8];
    proof {
        assert(opener@ =~= grammar::line_comment_opener());
    }
    if !has_prefix(input, &opener) {
        return Err(Error { kind: ErrorKind::Mismatch, remaining: input.len() });
    }
    let line = skip_bytes(input, 2);
    let n = scan_run(line, ByteClass::LineText);
    if n == line.len() {
        return Err(Error { kind: ErrorKind::UnterminatedComment, remaining: input.len() });
    }
    let end = if n > 0 && line[n - 1] == CARRIAGE_RETURN {
        n - 1
    } else {
        n
    };
    let rest = skip_bytes(line, end);
    proof {
        lemma_suffix_of_suffix(rest@, line@, input@);
    }
    match text_of(slice_subrange(line, 0, end)) {
        Some(text) => Ok((rest, ScriptComment::Line(text))),
        None => Err(Error { kind: ErrorKind::Utf8Error, remaining: input.len() }),
    }
}

/// The number of bytes before the first `*/` of the input.
fn scan_block_comment(body: &[u8]) -> (r: Option<usize>)
    ensures
        match r {
            Some(n) => grammar::block_comment_len(body@) == Some(n as int) && n + 2 <= body@.len(),
            None => grammar::block_comment_len(body@) is None,
        },
{
    let mut i: usize = 0;
    proof {
        assert(body@.skip(0) =~= body@);
    }
    loop
        invariant
            i <= body@.len(),
            grammar::block_comment_len(body@) == match grammar::block_comment_len(
                body@.skip(i as int),
            ) {
                Some(n) => Some(n + i),
                None => None,
            },
        decreases body@.len() - i,
    {
        let ghost here = body@.skip(i as int);
        if body.len() - i < 2 {
            return None;
        }
        assert(here[0] == body@[i as int] && here[1] == body@[i + 1]);
        if body[i] == '*' as u8 && body[i + 1] == '/' as u8 {
            assert(grammar::closes_at(here, 0));
            return Some(i);
        }
        proof {
            assert(here.skip(1) =~= body@.skip(i + 1));
        }
        i += 1;
    }
}

/// Reads a block comment.
pub fn decode_block_comment(input: &[u8]) -> (r: Result<(&[u8], ScriptComment), Error>)
    ensures
        decoded(r, grammar::block_comment(input@)),
        within(r, input@),
{
    let opener: [u8; 2] = ['/' as u8, '*' as u8];
    proof {
        assert(opener@ =~= grammar::block_comment_opener());
    }
    if !has_prefix(input, &opener) {
        return Err(Error { kind: ErrorKind::Mismatch, remaining: input.len() });
    }
    let body = skip_bytes(input, 2);
    let n = match scan_block_comment(body) {
        Some(n) => n,
        None => {
            return Err(Error { kind: ErrorKind::UnterminatedComment, remaining: input.len() });
        },
    };
    assert(n + 2 <= body.len());
    let rest = skip_bytes(body, n + 2);
    proof {
        lemma_suffix_of_suffix(rest@, body@, input@);
    }
    match text_of(slice_subrange(body, 0, n)) {
        Some(text) => Ok((rest, ScriptComment::Block(text))),
        None => Err(Error { kind: ErrorKind::Utf8Error, remaining: input.len() }),
    }
}

/// Reads a comment: a line comment, or else a block comment.
pub fn decode_comment(input: &[u8]) -> (r: Result<(&[u8], ScriptComment), Error>)
    ensures
        decoded(r, grammar::comment(input@)),
        within(r, input@),
{
    reveal(grammar::comment);
    if let Ok(found) = decode_line_comment(input) {
        return Ok(found);
    }
    decode_block_comment(input)
}

} // verus!
