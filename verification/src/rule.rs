//! What a rule of a format gives, and what it means for a decoder to
//! compute it.

use vstd::prelude::*;
use crate::error::{Error, ErrorKind};

verus! {

/// What a rule gives: the bytes that follow the match, and its value.
pub type Rule<T> = Result<(Seq<u8>, T), Error>;

/// Ordered choice: the first rule where it matches, else the second.
pub open spec fn first_of<T>(first: Rule<T>, second: Rule<T>) -> Rule<T> {
    if first is Ok {
        first
    } else {
        second
    }
}

/// The failure of `kind` at the place where `at` is what is left to read.
pub open spec fn failure<T>(kind: ErrorKind, at: Seq<u8>) -> Result<T, Error> {
    Err(Error { kind, remaining: at.len() as usize })
}

/// What a rule gives lies within what it was given: what follows the match
/// is the end of `s`, and a failure is at a place in `s`.
pub open spec fn in_bounds<T>(rule: Rule<T>, s: Seq<u8>) -> bool {
    match rule {
        Ok((rest, _)) => rest.is_suffix_of(s),
        Err(e) => e.remaining <= s.len(),
    }
}

/// A decoder's result is the one that the rule gives: the same failure, or
/// the same remainder and a value with the same model.
pub open spec fn decoded<T: View>(
    r: Result<(&[u8], T), Error>,
    rule: Result<(Seq<u8>, T::V), Error>,
) -> bool {
    match (r, rule) {
        (Ok((rest, value)), Ok((rule_rest, rule_value))) => rest@ =~= rule_rest && value@
            == rule_value,
        (Err(e), Err(rule_e)) => e == rule_e,
        _ => false,
    }
}

/// A decoder's result lies within its input: what is left is the end of the
/// input, and a failure is at a place in it.
pub open spec fn within<T>(r: Result<(&[u8], T), Error>, input: Seq<u8>) -> bool {
    match r {
        Ok((rest, _)) => rest@.is_suffix_of(input),
        Err(e) => e.remaining <= input.len(),
    }
}

/// The end of an end of a sequence is an end of that sequence.
pub proof fn lemma_suffix_of_suffix(a: Seq<u8>, b: Seq<u8>, c: Seq<u8>)
    requires
        a.is_suffix_of(b),
        b.is_suffix_of(c),
    ensures
        a.is_suffix_of(c),
{
    let shift = c.len() - b.len();
    let start = b.len() - a.len();
    assert forall|i: int| 0 <= i < a.len() implies a[i] == c[c.len() - a.len() + i] by {
        assert(a[i] == b[start + i]);
        assert(b[start + i] == c[shift + start + i]);
    }
}

/// A result that lies within the input from its `n`th byte on lies within
/// the input, and leaves less than the input where `n` is not 0.
pub proof fn lemma_within_tail<T>(r: Result<(&[u8], T), Error>, input: Seq<u8>, n: int)
    requires
        0 <= n <= input.len(),
        within(r, input.skip(n)),
    ensures
        within(r, input),
        r matches Ok((rest, _)) ==> rest@.len() + n <= input.len(),
{
    if let Ok((rest, _)) = r {
        lemma_suffix_of_suffix(rest@, input.skip(n), input);
    }
}

} // verus!
