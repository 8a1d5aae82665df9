//! Every rule reads from the front of what it is given: what it leaves is
//! the end of that, and a failure is at a place in it. So nothing is read
//! twice, nothing is made up, and every rule that repeats goes on.

use vstd::prelude::*;
use crate::error::Error;
use crate::lexical::{
    lemma_line_endings_len_bound, lemma_run_len_is_run, line_endings_len, run_len,
    starts_with_byte, ByteClass, BACKSLASH, CARRIAGE_RETURN, QUOTE,
};
use crate::rule::{first_of, in_bounds, lemma_suffix_of_suffix};
use crate::script::grammar::{
    accessor, accessors, big_number, block_comment, block_comment_len, block_comment_opener,
    boolean, call, call_arguments, comment, expression, expression_call, expression_comment,
    expression_field, expression_list, expression_markup, expression_value, field, float,
    key_name, line_comment, line_comment_opener, markup, markup_closer, markup_closing,
    markup_opening, name, number, reference, reference_name, reference_property, sign_len,
    spaces, string, string_body, value,
};
use crate::script::laws::lemma_block_comment_len;

verus! {

/// A string's inside ends within it.
proof fn lemma_string_body_in_bounds(s: Seq<u8>)
    ensures
        string_body(s) matches Some((rest, _)) ==> rest.is_suffix_of(s),
    decreases s.len(),
{
    if s.len() > 0 && s[0] != QUOTE {
        let escape = s[0] == BACKSLASH && s.len() > 1 && (s[1] == QUOTE || s[1] == BACKSLASH);
        let step = if escape {
            2int
        } else {
            1int
        };
        lemma_string_body_in_bounds(s.skip(step));
        if let Some((rest, _)) = string_body(s.skip(step)) {
            lemma_suffix_of_suffix(rest, s.skip(step), s);
        }
    }
}

/// What a number leaves is the end of what it was given.
proof fn lemma_numbers_are_in_bounds(s: Seq<u8>)
    ensures
        in_bounds(float(s), s),
        in_bounds(number(s), s),
        in_bounds(big_number(s), s),
{
    let whole = s.skip(sign_len(s));
    let n = run_len(whole, ByteClass::Digit) as int;
    let fraction = whole.skip(n).skip(1);
    lemma_run_len_is_run(whole, ByteClass::Digit);
    lemma_run_len_is_run(fraction, ByteClass::Digit);
    lemma_run_len_is_run(s, ByteClass::Digit);
}

/// What a string leaves is the end of what it was given.
proof fn lemma_strings_are_in_bounds(s: Seq<u8>)
    ensures
        in_bounds(string(s), s),
{
    if starts_with_byte(s, QUOTE) {
        lemma_string_body_in_bounds(s.skip(1));
        if let Some((rest, _)) = string_body(s.skip(1)) {
            lemma_suffix_of_suffix(rest, s.skip(1), s);
        }
    }
}

/// What a word leaves is the end of what it was given.
proof fn lemma_words_are_in_bounds(s: Seq<u8>)
    ensures
        in_bounds(boolean(s), s),
        in_bounds(name(s), s),
        in_bounds(key_name(s), s),
{
    lemma_run_len_is_run(s, ByteClass::Name);
    lemma_run_len_is_run(s, ByteClass::Key);
}

/// What a literal leaves is the end of what it was given.
pub proof fn law_values_are_in_bounds(s: Seq<u8>)
    ensures
        in_bounds(boolean(s), s),
        in_bounds(float(s), s),
        in_bounds(number(s), s),
        in_bounds(big_number(s), s),
        in_bounds(string(s), s),
        in_bounds(name(s), s),
        in_bounds(value(s), s),
        in_bounds(key_name(s), s),
{
    reveal(value);
    lemma_numbers_are_in_bounds(s);
    lemma_strings_are_in_bounds(s);
    lemma_words_are_in_bounds(s);
}

/// A step of a path that is read is one byte long at least.
pub proof fn lemma_accessor_reads(s: Seq<u8>)
    ensures
        accessor(s) matches Ok((rest, _)) ==> rest.len() < s.len(),
{
    let tail = s.skip(1);
    let digits = tail.skip(sign_len(tail));
    lemma_run_len_is_run(tail, ByteClass::Key);
    lemma_run_len_is_run(digits, ByteClass::Digit);
}

/// What a reference leaves is the end of what it was given, and so for
/// each step of its path.
pub proof fn law_references_are_in_bounds(s: Seq<u8>)
    ensures
        in_bounds(accessor(s), s),
        accessors(s).0.is_suffix_of(s),
        in_bounds(reference_name(s), s),
        in_bounds(reference_property(s), s),
        in_bounds(reference(s), s),
    decreases s.len(),
{
    reveal(reference);
    let tail = s.skip(1);
    law_values_are_in_bounds(tail);
    law_values_are_in_bounds(s);
    lemma_accessor_reads(s);
    if let Ok((rest, _)) = accessor(s) {
        lemma_suffix_of_suffix(rest, tail, s);
        law_references_are_in_bounds(rest);
        lemma_suffix_of_suffix(accessors(rest).0, rest, s);
    }
    if let Ok((rest, _)) = key_name(s) {
        if rest.len() < s.len() {
            law_references_are_in_bounds(rest);
            lemma_suffix_of_suffix(accessors(rest).0, rest, s);
        }
    }
}

/// What a field leaves is the end of what it was given.
pub proof fn law_fields_are_in_bounds(s: Seq<u8>)
    ensures
        in_bounds(field(s), s),
{
    reveal(field);
    lemma_line_endings_len_bound(s);
    let start = s.skip(line_endings_len(s) as int);
    law_references_are_in_bounds(start);
    if let Ok((after_reference, _)) = reference(start) {
        lemma_run_len_is_run(after_reference, ByteClass::Space);
        let at_value = after_reference.skip(spaces(after_reference));
        law_values_are_in_bounds(at_value);
        lemma_suffix_of_suffix(after_reference, start, s);
        lemma_suffix_of_suffix(at_value, after_reference, s);
        if let Ok((after_value, _)) = value(at_value) {
            lemma_suffix_of_suffix(after_value, at_value, s);
            if starts_with_byte(after_value, ';' as u8) {
                let after_separator = after_value.skip(1);
                lemma_line_endings_len_bound(after_separator);
                let rest = after_separator.skip(line_endings_len(after_separator) as int);
                lemma_suffix_of_suffix(after_separator, after_value, s);
                lemma_suffix_of_suffix(rest, after_separator, s);
            }
        }
    }
}

/// What a comment leaves is the end of what it was given.
pub proof fn law_comments_are_in_bounds(s: Seq<u8>)
    ensures
        in_bounds(line_comment(s), s),
        in_bounds(block_comment(s), s),
        in_bounds(comment(s), s),
{
    reveal(comment);
    let body = s.skip(2);
    lemma_run_len_is_run(body, ByteClass::LineText);
    lemma_block_comment_len(body);
    if line_comment_opener().is_prefix_of(s) {
        let n = run_len(body, ByteClass::LineText) as int;
        let end = if n > 0 && body[n - 1] == CARRIAGE_RETURN {
            n - 1
        } else {
            n
        };
        lemma_suffix_of_suffix(body.skip(end), body, s);
    }
    if block_comment_opener().is_prefix_of(s) {
        if let Some(n) = block_comment_len(body) {
            lemma_suffix_of_suffix(body.skip(n + 2), body, s);
        }
    }
}

/// What the tags of a markup block leave is the end of what they were
/// given.
proof fn lemma_markup_tags_in_bounds(s: Seq<u8>, name: Seq<u8>)
    ensures
        in_bounds(markup_opening(s), s),
        markup_closing(name, s) matches Ok(rest) ==> rest.is_suffix_of(s),
        markup_closing(name, s) matches Err(e) ==> e.remaining <= s.len(),
        markup_opening(s) matches Ok((rest, _)) ==> rest.len() < s.len(),
{
    reveal(markup_opening);
    reveal(markup_closing);
    lemma_run_len_is_run(s, ByteClass::Space);
    let opener = s.skip(spaces(s));
    let tag = opener.skip(1);
    lemma_run_len_is_run(tag, ByteClass::Alphanumeric);
    let bracket = tag.skip(run_len(tag, ByteClass::Alphanumeric) as int);
    let opened = bracket.skip(1);
    lemma_run_len_is_run(opened, ByteClass::Space);
    if markup_opening(s) is Ok {
        let inside = opened.skip(spaces(opened));
        lemma_suffix_of_suffix(tag, opener, s);
        lemma_suffix_of_suffix(bracket, tag, s);
        lemma_suffix_of_suffix(opened, bracket, s);
        lemma_suffix_of_suffix(inside, opened, s);
    }
    let closer = opener;
    let end = closer.skip(markup_closer(name).len() as int);
    lemma_run_len_is_run(end, ByteClass::Space);
    if markup_closer(name).is_prefix_of(closer) {
        lemma_suffix_of_suffix(end, closer, s);
        lemma_suffix_of_suffix(end.skip(spaces(end)), end, s);
    }
}

/// What an expression leaves is the end of what it was given, and an
/// expression is always read.
pub proof fn law_expressions_are_in_bounds(s: Seq<u8>, depth: nat)
    ensures
        in_bounds(expression(s, depth), s),
        expression(s, depth) is Ok,
    decreases depth, s.len(), 1nat,
{
    lemma_run_len_is_run(s, ByteClass::Multispace);
    let start = s.skip(run_len(s, ByteClass::Multispace) as int);
    law_blocks_are_in_bounds(start, depth);
    law_comments_are_in_bounds(start);
    law_fields_are_in_bounds(start);
    law_values_are_in_bounds(start);
    let found = first_of(
        expression_comment(start),
        first_of(
            expression_markup(start, depth),
            first_of(
                expression_call(start, depth),
                first_of(expression_field(start), expression_value(start)),
            ),
        ),
    );
    assert(in_bounds(found, start));
    assert(value(start) is Ok) by {
        reveal(value);
    }
    let before = found->Ok_0.0;
    lemma_run_len_is_run(before, ByteClass::Space);
    lemma_suffix_of_suffix(before, start, s);
    lemma_suffix_of_suffix(before.skip(spaces(before)), before, s);
}

/// What a list of expressions leaves is the end of what it was given, and
/// so for the arguments of a call.
pub proof fn law_lists_are_in_bounds(s: Seq<u8>, depth: nat)
    ensures
        expression_list(s, depth).0.is_suffix_of(s),
        in_bounds(call_arguments(s, depth), s),
    decreases depth, s.len(), 2nat,
{
    law_expressions_are_in_bounds(s, depth);
    let (rest, _) = expression(s, depth)->Ok_0;
    if starts_with_byte(rest, ';' as u8) || starts_with_byte(rest, ',' as u8) {
        let next = rest.skip(1);
        law_lists_are_in_bounds(next, depth);
        lemma_suffix_of_suffix(next, rest, s);
        lemma_suffix_of_suffix(expression_list(next, depth).0, next, s);
        if let Ok((end, _)) = call_arguments(next, depth) {
            lemma_suffix_of_suffix(end, next, s);
        }
    }
    if starts_with_byte(rest, ')' as u8) {
        let closed = rest.skip(1);
        lemma_run_len_is_run(closed, ByteClass::Space);
        lemma_suffix_of_suffix(closed, rest, s);
        lemma_suffix_of_suffix(closed.skip(spaces(closed)), closed, s);
    }
}

/// What a call leaves is the end of what it was given, and so for a markup
/// block.
pub proof fn law_blocks_are_in_bounds(s: Seq<u8>, depth: nat)
    ensures
        in_bounds(call(s, depth), s),
        in_bounds(markup(s, depth), s),
        in_bounds(expression_call(s, depth), s),
        in_bounds(expression_markup(s, depth), s),
    decreases depth, s.len(), 0nat,
{
    if depth > 0 {
        let inner = (depth - 1) as nat;
        law_references_are_in_bounds(s);
        if let Ok((rest, _)) = reference(s) {
            if starts_with_byte(rest, '(' as u8) {
                let start = rest.skip(1);
                law_lists_are_in_bounds(start, inner);
                lemma_suffix_of_suffix(start, rest, s);
                if let Ok((end, _)) = call_arguments(start, inner) {
                    lemma_suffix_of_suffix(end, start, s);
                }
            }
        }
        lemma_markup_tags_in_bounds(s, Seq::empty());
        if let Ok((inside, name)) = markup_opening(s) {
            law_lists_are_in_bounds(inside, inner);
            let after_body = expression_list(inside, inner).0;
            lemma_markup_tags_in_bounds(after_body, name);
            lemma_suffix_of_suffix(after_body, inside, s);
            if let Ok(rest) = markup_closing(name, after_body) {
                lemma_suffix_of_suffix(rest, after_body, s);
            }
        }
    }
}

/// A list never stops for want of progress: where an expression and its
/// `;` are read, the list is that expression and the list that follows; and
/// so for the arguments of a call with `,`, and for the steps of a path.
pub proof fn law_lists_go_on(s: Seq<u8>, depth: nat)
    ensures
        expression(s, depth) matches Ok((rest, first)) ==> (starts_with_byte(rest, ';' as u8)
            ==> expression_list(s, depth) == (
            expression_list(rest.skip(1), depth).0,
            seq![first] + expression_list(rest.skip(1), depth).1,
        )),
        expression(s, depth) matches Ok((rest, first)) ==> (starts_with_byte(rest, ',' as u8)
            ==> call_arguments(s, depth) == match call_arguments(rest.skip(1), depth) {
            Ok((end, others)) => Ok::<_, Error>((end, seq![first] + others)),
            Err(e) => Err(e),
        }),
        accessor(s) matches Ok((rest, first)) ==> accessors(s) == (
            accessors(rest).0,
            seq![first] + accessors(rest).1,
        ),
{
    law_expressions_are_in_bounds(s, depth);
    lemma_accessor_reads(s);
}

} // verus!
