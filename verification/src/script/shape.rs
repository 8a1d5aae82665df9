//! Every tree that the grammar reads is well formed.

use vstd::prelude::*;
use crate::lexical::{
    lemma_run_len_is_run, line_endings_len, run_len, starts_with_byte, ByteClass,
};
use crate::script::bounds::lemma_accessor_reads;
use crate::script::grammar::{
    accessor, accessors, call_arguments, expression, expression_call, expression_list,
    expression_markup, field, float, key_name, markup_opening, name, number, reference,
    sign_len, spaces, value,
};
use crate::script::model::{all_well_formed, char_in, is_float_text, is_float_text_of, is_word};
use crate::shared::ascii_text;

verus! {

/// A run of ASCII bytes, read as text, is a word of its class.
pub proof fn lemma_run_is_word(s: Seq<u8>, class: ByteClass)
    requires
        class.only_ascii(),
        run_len(s, class) > 0,
    ensures
        is_word(class, ascii_text(s.take(run_len(s, class) as int))),
{
    lemma_run_len_is_run(s, class);
    let text = ascii_text(s.take(run_len(s, class) as int));
    assert forall|i: int| 0 <= i < text.len() implies char_in(class, #[trigger] text[i]) by {
        assert(class.has(s[i]));
        assert(text[i] == s[i] as char);
    }
}

/// Every literal that the grammar reads is well formed.
pub proof fn law_values_are_well_formed(s: Seq<u8>)
    ensures
        value(s) matches Ok((_, v)) ==> v.well_formed(),
        number(s) matches Ok((_, v)) ==> v.well_formed(),
{
    reveal(value);
    if float(s) is Ok {
        let sign = sign_len(s);
        let whole = s.skip(sign);
        let n = run_len(whole, ByteClass::Digit) as int;
        let fraction = whole.skip(n).skip(1);
        let m = run_len(fraction, ByteClass::Digit) as int;
        let text = ascii_text(s.take(sign + n + 1 + m));
        lemma_run_len_is_run(whole, ByteClass::Digit);
        lemma_run_len_is_run(fraction, ByteClass::Digit);
        assert(is_float_text_of(text, sign, n)) by {
            assert forall|i: int| sign <= i < sign + n implies char_in(
                ByteClass::Digit,
                #[trigger] text[i],
            ) by {
                assert(ByteClass::Digit.has(whole[i - sign]));
                assert(text[i] == s[i] as char);
            }
            assert forall|i: int| sign + n < i < text.len() implies char_in(
                ByteClass::Digit,
                #[trigger] text[i],
            ) by {
                assert(ByteClass::Digit.has(fraction[i - sign - n - 1]));
                assert(text[i] == s[i] as char);
            }
            assert(text[sign + n] == s[sign + n] as char);
            assert(whole.skip(n)[0] == s[sign + n]);
            if sign == 1 {
                assert(text[0] == s[0] as char);
            }
        }
        assert(is_float_text(text));
    }
    if name(s) is Ok {
        lemma_run_is_word(s, ByteClass::Name);
    }
}

/// Every step of a path that the grammar reads is well formed.
pub proof fn law_accessors_are_well_formed(s: Seq<u8>)
    ensures
        accessor(s) matches Ok((_, step)) ==> step.well_formed(),
        forall|i: int|
            0 <= i < accessors(s).1.len() ==> (#[trigger] accessors(s).1[i]).well_formed(),
    decreases s.len(),
{
    let tail = s.skip(1);
    if starts_with_byte(s, '.' as u8) {
        if key_name(tail) is Ok {
            lemma_run_is_word(tail, ByteClass::Key);
        }
    } else if starts_with_byte(s, '[' as u8) {
        law_values_are_well_formed(tail);
        if key_name(tail) is Ok {
            lemma_run_is_word(tail, ByteClass::Key);
        }
    }
    if let Ok((rest, first)) = accessor(s) {
        if rest.len() < s.len() {
            law_accessors_are_well_formed(rest);
            let others = accessors(rest).1;
            assert forall|i: int| 0 <= i < accessors(s).1.len() implies (
            #[trigger] accessors(s).1[i]).well_formed() by {
                if i > 0 {
                    assert(accessors(s).1[i] == others[i - 1]);
                }
            }
        }
    }
}

/// Every reference that the grammar reads is well formed: its name is an
/// identifier, and its path, where it has one, is not empty.
pub proof fn law_references_are_well_formed(s: Seq<u8>)
    ensures
        reference(s) matches Ok((_, r)) ==> r.well_formed(),
{
    reveal(reference);
    if let Ok((rest, name)) = key_name(s) {
        lemma_run_is_word(s, ByteClass::Key);
        law_accessors_are_well_formed(rest);
        lemma_accessor_reads(rest);
    }
}

/// Every field that the grammar reads is well formed.
pub proof fn law_fields_are_well_formed(s: Seq<u8>)
    ensures
        field(s) matches Ok((_, f)) ==> f.well_formed(),
{
    reveal(field);
    let start = s.skip(line_endings_len(s) as int);
    law_references_are_well_formed(start);
    if let Ok((after_reference, _)) = reference(start) {
        law_values_are_well_formed(after_reference.skip(spaces(after_reference)));
    }
}

/// Every expression that the grammar reads is well formed, and so is every
/// expression of a list, of the arguments of a call and of the body of a
/// markup block.
pub proof fn law_expressions_are_well_formed(s: Seq<u8>, depth: nat)
    ensures
        expression(s, depth) matches Ok((_, e)) ==> e.well_formed(),
        all_well_formed(expression_list(s, depth).1),
        call_arguments(s, depth) matches Ok((_, arguments)) ==> arguments.len() > 0
            && all_well_formed(arguments),
        expression_call(s, depth) matches Ok((_, e)) ==> e.well_formed(),
        expression_markup(s, depth) matches Ok((_, e)) ==> e.well_formed(),
    decreases depth, s.len(), 1nat,
{
    lemma_nested_are_well_formed(s, depth);
    let start = s.skip(run_len(s, ByteClass::Multispace) as int);
    lemma_run_len_is_run(s, ByteClass::Multispace);
    lemma_nested_are_well_formed(start, depth);
    law_fields_are_well_formed(start);
    law_values_are_well_formed(start);
    if let Ok((rest, first)) = expression(s, depth) {
        if starts_with_byte(rest, ';' as u8) && rest.len() <= s.len() {
            law_expressions_are_well_formed(rest.skip(1), depth);
            let others = expression_list(rest.skip(1), depth).1;
            let list = expression_list(s, depth).1;
            assert forall|i: int| 0 <= i < list.len() implies (#[trigger] list[i]).well_formed() by {
                if i > 0 {
                    assert(list[i] == others[i - 1]);
                }
            }
        }
        if starts_with_byte(rest, ',' as u8) && rest.len() <= s.len() {
            law_expressions_are_well_formed(rest.skip(1), depth);
            if let Ok((_, others)) = call_arguments(rest.skip(1), depth) {
                let list = call_arguments(s, depth)->Ok_0.1;
                assert forall|i: int| 0 <= i < list.len() implies (
                #[trigger] list[i]).well_formed() by {
                    if i > 0 {
                        assert(list[i] == others[i - 1]);
                    }
                }
            }
        }
    }
}

/// Every call and every markup block that the grammar reads is well formed.
proof fn lemma_nested_are_well_formed(s: Seq<u8>, depth: nat)
    ensures
        expression_call(s, depth) matches Ok((_, e)) ==> e.well_formed(),
        expression_markup(s, depth) matches Ok((_, e)) ==> e.well_formed(),
    decreases depth, s.len(), 0nat,
{
    reveal(markup_opening);
    if depth > 0 {
        law_references_are_well_formed(s);
        if let Ok((rest, _)) = reference(s) {
            law_expressions_are_well_formed(rest.skip(1), (depth - 1) as nat);
        }
        if let Ok((inside, name)) = markup_opening(s) {
            law_expressions_are_well_formed(inside, (depth - 1) as nat);
            let tag = s.skip(spaces(s)).skip(1);
            lemma_run_is_word(tag, ByteClass::Alphanumeric);
        }
    }
}

} // verus!
