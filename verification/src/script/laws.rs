//! What holds of the grammar on every input: what the keywords and digits
//! read as, which inputs fail and how, and that decoding is a function of
//! the bytes.

use vstd::prelude::*;
use crate::error::{Error, ErrorKind};
use crate::lexical::{
    decimal, is_digit, is_run, lemma_run_is_run_len, lemma_run_len_is_run, run_len,
    starts_with_byte, ByteClass, LINE_FEED, QUOTE,
};
use crate::rule::failure;
use crate::script::decode::decoded_list;
use crate::script::grammar::{
    big_number, block_comment, block_comment_len, block_comment_opener, closes_at, expression,
    expression_call, expression_comment, expression_field, expression_list, expression_markup,
    expression_value, float, keyword_false, keyword_true, line_comment, line_comment_opener,
    markup, markup_closer, markup_closing, markup_opening, number, sign_len, spaces, string,
    string_body, value, NESTING_LIMIT,
};
use crate::script::model::{Comment, Value};
use crate::script::{expressions_model, ScriptExpression};

verus! {

/// Where the input begins with `TRUE`, a literal reads as the boolean true
/// and takes four bytes; where it begins with `FALSE`, as the boolean false
/// and takes five.
pub proof fn law_keywords_read_as_booleans(s: Seq<u8>)
    ensures
        keyword_true().is_prefix_of(s) ==> value(s) == Ok::<_, Error>(
            (s.skip(4), Value::Bool(true)),
        ),
        keyword_false().is_prefix_of(s) ==> value(s) == Ok::<_, Error>(
            (s.skip(5), Value::Bool(false)),
        ),
{
    reveal(value);
    if keyword_false().is_prefix_of(s) {
        assert(s[0] == keyword_false()[0]);
        if keyword_true().is_prefix_of(s) {
            assert(s[0] == keyword_true()[0]);
        }
    }
}

/// Whether a dot and a digit stand at the start of `s`.
pub open spec fn starts_fraction(s: Seq<u8>) -> bool {
    s.len() > 1 && s[0] == '.' as u8 && is_digit(s[1])
}

/// Digits that no fraction follows read as a number where they spell one of
/// 32 bits, and as a big number where they spell a greater one of 64 bits.
/// The value is the number that they spell, and all the digits are taken.
pub proof fn law_digits_read_as_numbers(s: Seq<u8>)
    requires
        run_len(s, ByteClass::Digit) > 0,
        !starts_fraction(s.skip(run_len(s, ByteClass::Digit) as int)),
    ensures
        ({
            let n = run_len(s, ByteClass::Digit) as int;
            let spelled = decimal(s.take(n)) as int;
            &&& spelled <= i32::MAX ==> value(s) == Ok::<_, Error>(
                (s.skip(n), Value::Number(spelled)),
            )
            &&& i32::MAX < spelled <= u64::MAX ==> value(s) == Ok::<_, Error>(
                (s.skip(n), Value::BigNumber(spelled)),
            )
        }),
{
    reveal(value);
    lemma_run_len_is_run(s, ByteClass::Digit);
    assert(is_digit(s[0]));
    assert(s.skip(0) =~= s);
    assert(!keyword_true().is_prefix_of(s)) by {
        if keyword_true().is_prefix_of(s) {
            assert(s[0] == keyword_true()[0]);
        }
    }
    assert(!keyword_false().is_prefix_of(s)) by {
        if keyword_false().is_prefix_of(s) {
            assert(s[0] == keyword_false()[0]);
        }
    }
    let n = run_len(s, ByteClass::Digit) as int;
    let dot = s.skip(n);
    if starts_with_byte(dot, '.' as u8) {
        let fraction = dot.skip(1);
        if fraction.len() > 0 {
            assert(fraction[0] == dot[1]);
        }
        assert(run_len(fraction, ByteClass::Digit) == 0);
    }
}

/// What the float rule reads is read as a float by the literal rule too: no
/// kind before it takes a sign or a digit. What the number rule reads and
/// the float rule does not is read as that number.
pub proof fn law_floats_come_before_numbers(s: Seq<u8>)
    ensures
        float(s) is Ok ==> value(s) == float(s),
        float(s) is Err && number(s) is Ok ==> value(s) == number(s),
{
    reveal(value);
    let whole = s.skip(sign_len(s));
    lemma_run_len_is_run(whole, ByteClass::Digit);
    if run_len(whole, ByteClass::Digit) > 0 {
        assert(is_digit(whole[0]));
        assert(whole[0] == s[sign_len(s)]);
        if keyword_true().is_prefix_of(s) {
            assert(s[0] == keyword_true()[0]);
        }
        if keyword_false().is_prefix_of(s) {
            assert(s[0] == keyword_false()[0]);
        }
    }
}

/// Digits that spell a number of more than 64 bits are no big number: the
/// failure is an invalid value, at the first digit.
pub proof fn law_big_number_out_of_range(s: Seq<u8>)
    requires
        run_len(s, ByteClass::Digit) > 0,
        decimal(s.take(run_len(s, ByteClass::Digit) as int)) > u64::MAX,
    ensures
        big_number(s) == failure::<(Seq<u8>, Value)>(ErrorKind::InvalidScriptValue, s),
{
}

/// A string's inside without a quote has no end.
proof fn lemma_string_body_needs_a_quote(s: Seq<u8>)
    requires
        forall|i: int| 0 <= i < s.len() ==> s[i] != QUOTE,
    ensures
        string_body(s) is None,
    decreases s.len(),
{
    if s.len() > 0 {
        if s.len() > 1 {
            lemma_string_body_needs_a_quote(s.skip(2));
        }
        lemma_string_body_needs_a_quote(s.skip(1));
    }
}

/// Where the opening quote is the only quote of the input, the string is
/// not closed and does not match.
pub proof fn law_unterminated_string(s: Seq<u8>)
    requires
        starts_with_byte(s, QUOTE),
        forall|i: int| 1 <= i < s.len() ==> s[i] != QUOTE,
    ensures
        string(s) == failure::<(Seq<u8>, Value)>(ErrorKind::Mismatch, Seq::<u8>::empty()),
{
    lemma_string_body_needs_a_quote(s.skip(1));
}

/// Where no line feed follows `//`, the line comment has no end: the
/// failure is an unterminated comment, at the `//`.
pub proof fn law_unterminated_line_comment(s: Seq<u8>)
    requires
        line_comment_opener().is_prefix_of(s),
        forall|i: int| 2 <= i < s.len() ==> s[i] != LINE_FEED,
    ensures
        line_comment(s) == failure::<(Seq<u8>, Comment)>(
            ErrorKind::UnterminatedComment,
            s,
        ),
{
    let line = s.skip(2);
    assert(is_run(line, ByteClass::LineText, line.len() as int)) by {
        assert forall|i: int| 0 <= i < line.len() implies ByteClass::LineText.has(
            #[trigger] line[i],
        ) by {
            assert(line[i] == s[i + 2]);
        }
    }
    lemma_run_is_run_len(line, ByteClass::LineText, line.len() as int);
}

/// The length of a block comment's text is the place of the first `*/`.
pub proof fn lemma_block_comment_len(s: Seq<u8>)
    ensures
        match block_comment_len(s) {
            Some(n) => closes_at(s, n) && forall|i: int| 0 <= i < n ==> !closes_at(s, i),
            None => forall|i: int| !closes_at(s, i),
        },
    decreases s.len(),
{
    if s.len() >= 2 && !closes_at(s, 0) {
        let tail = s.skip(1);
        lemma_block_comment_len(tail);
        assert forall|i: int| closes_at(s, i) == closes_at(tail, i - 1) by {
            if 0 < i && i + 1 < s.len() {
                assert(tail[i - 1] == s[i] && tail[i] == s[i + 1]);
            }
        }
    }
}

/// Where no `*/` follows `/*`, the block comment has no end: the failure is
/// an unterminated comment, at the `/*`.
pub proof fn law_unterminated_block_comment(s: Seq<u8>)
    requires
        block_comment_opener().is_prefix_of(s),
        forall|i: int| 2 <= i ==> !closes_at(s, i),
    ensures
        block_comment(s) == failure::<(Seq<u8>, Comment)>(
            ErrorKind::UnterminatedComment,
            s,
        ),
{
    let body = s.skip(2);
    lemma_block_comment_len(body);
    if let Some(n) = block_comment_len(body) {
        assert(body[n] == s[n + 2] && body[n + 1] == s[n + 3]);
        assert(closes_at(s, n + 2));
    }
}

/// A markup block is read only where the closing tag that follows its body
/// carries its own name: where the tag of a block of another name stands
/// there, the block does not match.
pub proof fn law_markup_needs_its_own_closer(s: Seq<u8>, depth: nat, other: Seq<u8>)
    requires
        depth > 0,
        markup_opening(s) is Ok,
        forall|i: int| 0 <= i < other.len() ==> ByteClass::Alphanumeric.has(#[trigger] other[i]),
        other != markup_opening(s)->Ok_0.1,
        ({
            let (inside, name) = markup_opening(s)->Ok_0;
            let after_body = expression_list(inside, (depth - 1) as nat).0;
            markup_closer(other).is_prefix_of(after_body.skip(spaces(after_body)))
        }),
    ensures
        markup(s, depth) is Err,
        markup(s, depth)->Err_0.kind == ErrorKind::Mismatch,
{
    reveal(markup_opening);
    reveal(markup_closing);
    let (inside, name) = markup_opening(s)->Ok_0;
    let after_body = expression_list(inside, (depth - 1) as nat).0;
    let closer = after_body.skip(spaces(after_body));
    let tag = s.skip(spaces(s)).skip(1);
    lemma_run_len_is_run(tag, ByteClass::Alphanumeric);
    if markup_closer(name).is_prefix_of(closer) {
        let mine = markup_closer(name);
        let theirs = markup_closer(other);
        let n = name.len() as int;
        let m = other.len() as int;
        assert(mine.len() == name.len() + 3);
        assert(theirs.len() == other.len() + 3);
        assert forall|i: int| 0 <= i < name.len() implies ByteClass::Alphanumeric.has(
            #[trigger] name[i],
        ) by {
            assert(name[i] == tag[i]);
        }
        if n < m {
            assert(mine[n + 2] == closer[n + 2]);
            assert(theirs[n + 2] == closer[n + 2]);
            assert(theirs[n + 2] == other[n]);
            assert(ByteClass::Alphanumeric.has(other[n]));
            assert(false);
        } else if m < n {
            assert(mine[m + 2] == closer[m + 2]);
            assert(theirs[m + 2] == closer[m + 2]);
            assert(mine[m + 2] == name[m]);
            assert(ByteClass::Alphanumeric.has(name[m]));
            assert(false);
        } else {
            assert forall|i: int| 0 <= i < name.len() implies name[i] == other[i] by {
                assert(mine[i + 2] == closer[i + 2]);
                assert(theirs[i + 2] == closer[i + 2]);
                assert(mine[i + 2] == name[i]);
                assert(theirs[i + 2] == other[i]);
            }
            assert(name =~= other);
            assert(false);
        }
    }
}

/// The kinds of expression are tried in a fixed order: an expression is the
/// comment at its start where there is one, else the markup block, else the
/// call, else the field, and a literal only where none of these matches. So
/// a name before `(` with its arguments is a call, never a word.
pub proof fn law_kinds_are_tried_in_order(s: Seq<u8>, depth: nat)
    ensures
        ({
            let start = s.skip(run_len(s, ByteClass::Multispace) as int);
            let kind = if expression_comment(start) is Ok {
                expression_comment(start)
            } else if expression_markup(start, depth) is Ok {
                expression_markup(start, depth)
            } else if expression_call(start, depth) is Ok {
                expression_call(start, depth)
            } else if expression_field(start) is Ok {
                expression_field(start)
            } else {
                expression_value(start)
            };
            &&& kind is Ok
            &&& expression(s, depth) == Ok::<_, Error>(
                (kind->Ok_0.0.skip(spaces(kind->Ok_0.0)), kind->Ok_0.1),
            )
        }),
{
    reveal(value);
}

/// Decoding is a function of the bytes alone: whatever the list decoder
/// gave for an input, it gives again, the same remainder and expressions
/// with the same models.
pub proof fn law_decoding_is_repeatable(
    input: Seq<u8>,
    first: Result<(&[u8], Vec<ScriptExpression>), Error>,
    second: Result<(&[u8], Vec<ScriptExpression>), Error>,
)
    requires
        decoded_list(first, Ok(expression_list(input, NESTING_LIMIT as nat))),
        decoded_list(second, Ok(expression_list(input, NESTING_LIMIT as nat))),
    ensures
        first is Ok,
        second is Ok,
        first->Ok_0.0@ == second->Ok_0.0@,
        expressions_model(first->Ok_0.1) == expressions_model(second->Ok_0.1),
{
}

} // verus!
