//! Bytes and runs of bytes: the classes that the rules are written in, and
//! the scanners for them.

use vstd::prelude::*;
use vstd::slice::slice_subrange;

verus! {

/// `"`
pub const QUOTE: u8 = 0x22;

/// `\`
pub const BACKSLASH: u8 = 0x5c;

/// `_`
pub const UNDERSCORE: u8 = 0x5f;

/// The blank.
pub const BLANK: u8 = 0x20;

/// The horizontal tab.
pub const TAB: u8 = 0x09;

/// The line feed.
pub const LINE_FEED: u8 = 0x0a;

/// The carriage return.
pub const CARRIAGE_RETURN: u8 = 0x0d;

/// A set of bytes that a rule reads a run of.
#[derive(Clone, Copy, Debug, PartialEq, Eq, Structural)]
pub enum ByteClass {
    /// `0` to `9`.
    Digit,
    /// ASCII letters and digits.
    Alphanumeric,
    /// What an identifier is made of: ASCII letters, digits and `_`.
    Key,
    /// What a bare word is made of: the bytes of an identifier, and the blank.
    Name,
    /// Blank and tab.
    Space,
    /// Blank, tab, carriage return and line feed.
    Multispace,
    /// Every byte but the line feed.
    LineText,
    /// Every byte but 0.
    NonZero,
}

/// Whether the byte is one of `0` to `9`.
pub open spec fn is_digit(b: u8) -> bool {
    0x30 <= b <= 0x39
}

/// Whether the byte is one of `A` to `Z` or of `a` to `z`.
pub open spec fn is_alphabetic(b: u8) -> bool {
    (0x41 <= b <= 0x5a) || (0x61 <= b <= 0x7a)
}

/// Whether every byte is below 128.
pub open spec fn is_ascii_bytes(bytes: Seq<u8>) -> bool {
    forall|i: int| 0 <= i < bytes.len() ==> #[trigger] bytes[i] < 0x80
}

impl ByteClass {
    /// Whether the byte belongs to the class.
    pub open spec fn spec_has(self, b: u8) -> bool {
        match self {
            ByteClass::Digit => is_digit(b),
            ByteClass::Alphanumeric => is_alphabetic(b) || is_digit(b),
            ByteClass::Key => is_alphabetic(b) || is_digit(b) || b == UNDERSCORE,
            ByteClass::Name => is_alphabetic(b) || is_digit(b) || b == UNDERSCORE || b == BLANK,
            ByteClass::Space => b == BLANK || b == TAB,
            ByteClass::Multispace => b == BLANK || b == TAB || b == CARRIAGE_RETURN || b
                == LINE_FEED,
            ByteClass::LineText => b != LINE_FEED,
            ByteClass::NonZero => b != 0,
        }
    }

    /// Whether every byte of the class is ASCII.
    pub open spec fn only_ascii(self) -> bool {
        self != ByteClass::LineText && self != ByteClass::NonZero
    }

    /// Whether the byte belongs to the class.
    #[verifier::when_used_as_spec(spec_has)]
    pub fn has(self, b: u8) -> (r: bool)
        ensures
            r == self.spec_has(b),
    {
        let digit = 0x30 <= b && b <= 0x39;
        let letter = (0x41 <= b && b <= 0x5a) || (0x61 <= b && b <= 0x7a);
        match self {
            ByteClass::Digit => digit,
            ByteClass::Alphanumeric => letter || digit,
            ByteClass::Key => letter || digit || b == UNDERSCORE,
            ByteClass::Name => letter || digit || b == UNDERSCORE || b == BLANK,
            ByteClass::Space => b == BLANK || b == TAB,
            ByteClass::Multispace => b == BLANK || b == TAB || b == CARRIAGE_RETURN || b
                == LINE_FEED,
            ByteClass::LineText => b != LINE_FEED,
            ByteClass::NonZero => b != 0,
        }
    }
}

/// The length of the longest prefix of `s` whose bytes all belong to `class`.
pub open spec fn run_len(s: Seq<u8>, class: ByteClass) -> nat
    decreases s.len(),
{
    if s.len() > 0 && class.has(s[0]) {
        1 + run_len(s.skip(1), class)
    } else {
        0
    }
}

/// `n` bytes of the class stand at the start of `s`, and no more.
pub open spec fn is_run(s: Seq<u8>, class: ByteClass, n: int) -> bool {
    &&& 0 <= n <= s.len()
    &&& forall|i: int| 0 <= i < n ==> class.has(#[trigger] s[i])
    &&& n < s.len() ==> !class.has(s[n])
}

/// The run at the start of a sequence ends at the first byte outside the
/// class, or with the sequence.
pub proof fn lemma_run_len_is_run(s: Seq<u8>, class: ByteClass)
    ensures
        is_run(s, class, run_len(s, class) as int),
    decreases s.len(),
{
    if s.len() > 0 && class.has(s[0]) {
        let tail = s.skip(1);
        lemma_run_len_is_run(tail, class);
        let n = run_len(s, class) as int;
        assert forall|i: int| 0 <= i < n implies class.has(#[trigger] s[i]) by {
            if i > 0 {
                assert(s[i] == tail[i - 1]);
            }
        }
        if n < s.len() {
            assert(s[n] == tail[n - 1]);
        }
    }
}

/// There is one such length only.
pub proof fn lemma_run_is_run_len(s: Seq<u8>, class: ByteClass, n: int)
    requires
        is_run(s, class, n),
    ensures
        run_len(s, class) == n,
    decreases s.len(),
{
    if n > 0 {
        let tail = s.skip(1);
        assert(class.has(s[0]));
        assert forall|i: int| 0 <= i < n - 1 implies class.has(#[trigger] tail[i]) by {
            assert(tail[i] == s[i + 1]);
        }
        lemma_run_is_run_len(tail, class, n - 1);
    }
}

/// The runs that the rules read as text are ASCII.
pub proof fn lemma_run_is_ascii(s: Seq<u8>, class: ByteClass)
    requires
        class.only_ascii(),
    ensures
        is_ascii_bytes(s.take(run_len(s, class) as int)),
{
    lemma_run_len_is_run(s, class);
    let run = s.take(run_len(s, class) as int);
    assert forall|i: int| 0 <= i < run.len() implies #[trigger] run[i] < 0x80 by {
        assert(class.has(s[i]));
    }
}

/// The length of the run of `class` at the start of the input.
pub fn scan_run(input: &[u8], class: ByteClass) -> (n: usize)
    ensures
        n == run_len(input@, class),
        n <= input@.len(),
{
    let mut n: usize = 0;
    while n < input.len() && class.has(input[n])
        invariant
            n <= input@.len(),
            forall|i: int| 0 <= i < n ==> class.has(#[trigger] input@[i]),
        decreases input@.len() - n,
    {
        n += 1;
    }
    proof {
        lemma_run_is_run_len(input@, class, n as int);
    }
    n
}

/// The input without the run of `class` at its start.
pub fn skip_run(input: &[u8], class: ByteClass) -> (rest: &[u8])
    ensures
        rest@ == input@.skip(run_len(input@, class) as int),
        rest@.is_suffix_of(input@),
{
    let n = scan_run(input, class);
    slice_subrange(input, n, input.len())
}

/// The input from its `n`th byte on; nothing where it is shorter.
pub fn skip_bytes(input: &[u8], n: usize) -> (rest: &[u8])
    ensures
        n <= input@.len() ==> rest@ == input@.skip(n as int),
        n > input@.len() ==> rest@.len() == 0,
        rest@.is_suffix_of(input@),
{
    if n <= input.len() {
        slice_subrange(input, n, input.len())
    } else {
        slice_subrange(input, input.len(), input.len())
    }
}

/// Whether the input holds `byte` at its start.
pub open spec fn starts_with_byte(s: Seq<u8>, byte: u8) -> bool {
    s.len() > 0 && s[0] == byte
}

/// Whether the input holds `byte` at its start.
pub fn has_first(input: &[u8], byte: u8) -> (r: bool)
    ensures
        r == starts_with_byte(input@, byte),
{
    input.len() > 0 && input[0] == byte
}

/// Whether the input begins with the bytes of `tag`.
pub fn has_prefix(input: &[u8], tag: &[u8]) -> (r: bool)
    ensures
        r == tag@.is_prefix_of(input@),
{
    if tag.len() > input.len() {
        return false;
    }
    let mut i: usize = 0;
    while i < tag.len()
        invariant
            i <= tag@.len() <= input@.len(),
            forall|k: int| 0 <= k < i ==> tag@[k] == input@[k],
        decreases tag@.len() - i,
    {
        if tag[i] != input[i] {
            return false;
        }
        i += 1;
    }
    true
}

/// The length of the line ending at the start of `s`, a line feed or a
/// carriage return and a line feed; 0 where there is none.
pub open spec fn line_ending_len(s: Seq<u8>) -> nat {
    if starts_with_byte(s, LINE_FEED) {
        1
    } else if s.len() > 1 && s[0] == CARRIAGE_RETURN && s[1] == LINE_FEED {
        2
    } else {
        0
    }
}

/// The length of all the line endings that follow each other at the start
/// of `s`.
pub open spec fn line_endings_len(s: Seq<u8>) -> nat
    decreases s.len(),
{
    let n = line_ending_len(s);
    if n == 0 {
        0
    } else {
        n + line_endings_len(s.skip(n as int))
    }
}

/// The line endings at the start of a sequence lie within it.
pub proof fn lemma_line_endings_len_bound(s: Seq<u8>)
    ensures
        line_endings_len(s) <= s.len(),
    decreases s.len(),
{
    let n = line_ending_len(s);
    if n != 0 {
        lemma_line_endings_len_bound(s.skip(n as int));
    }
}

/// The length of the line ending at the start of the input, 0 for none.
pub fn scan_line_ending(input: &[u8]) -> (n: usize)
    ensures
        n == line_ending_len(input@),
        n <= input@.len(),
{
    if input.len() > 0 && input[0] == LINE_FEED {
        1
    } else if input.len() > 1 && input[0] == CARRIAGE_RETURN && input[1] == LINE_FEED {
        2
    } else {
        0
    }
}

/// The length of the line endings at the start of the input.
pub fn scan_line_endings(input: &[u8]) -> (n: usize)
    ensures
        n == line_endings_len(input@),
        n <= input@.len(),
{
    let mut n: usize = 0;
    proof {
        assert(input@.skip(0) =~= input@);
    }
    loop
        invariant
            n <= input@.len(),
            line_endings_len(input@) == n + line_endings_len(input@.skip(n as int)),
        ensures
            n <= input@.len(),
            line_endings_len(input@) == n,
        decreases input@.len() - n,
    {
        let rest = slice_subrange(input, n, input.len());
        let step = scan_line_ending(rest);
        if step == 0 {
            break;
        }
        proof {
            assert(input@.skip(n as int).skip(step as int) =~= input@.skip(n + step));
        }
        n += step;
    }
    n
}

/// What a digit counts for; 0 for another byte.
pub open spec fn digit_value(b: u8) -> nat {
    if is_digit(b) {
        (b - 0x30) as nat
    } else {
        0
    }
}

/// The number that decimal digits spell.
pub open spec fn decimal(digits: Seq<u8>) -> nat
    decreases digits.len(),
{
    if digits.len() == 0 {
        0
    } else {
        decimal(digits.drop_last()) * 10 + digit_value(digits.last())
    }
}

/// Reading on never makes the number smaller.
pub proof fn lemma_decimal_grows(digits: Seq<u8>, n: int)
    requires
        0 <= n <= digits.len(),
    ensures
        decimal(digits.take(n)) <= decimal(digits),
    decreases digits.len() - n,
{
    if n < digits.len() {
        lemma_decimal_grows(digits, n + 1);
        assert(digits.take(n + 1).drop_last() =~= digits.take(n));
    } else {
        assert(digits.take(n) =~= digits);
    }
}

/// Whether every byte is a decimal digit.
pub open spec fn all_digits(s: Seq<u8>) -> bool {
    forall|i: int| 0 <= i < s.len() ==> is_digit(#[trigger] s[i])
}

/// The number that the bytes spell, where they are decimal digits and the
/// number is at most `limit`; nothing else.
pub fn read_decimal(digits: &[u8], limit: u64) -> (r: Option<u64>)
    ensures
        r is Some <==> all_digits(digits@) && decimal(digits@) <= limit,
        r matches Some(v) ==> v == decimal(digits@),
{
    let mut value: u64 = 0;
    let mut i: usize = 0;
    while i < digits.len()
        invariant
            i <= digits@.len(),
            value == decimal(digits@.take(i as int)),
            value <= limit,
            all_digits(digits@.take(i as int)),
        decreases digits@.len() - i,
    {
        let byte = digits[i];
        if !ByteClass::Digit.has(byte) {
            return None;
        }
        let digit: u64 = (byte - 0x30) as u64;
        proof {
            let next = digits@.take(i + 1);
            assert(next.drop_last() =~= digits@.take(i as int));
            assert(next.last() == byte);
            assert(decimal(next) == value * 10 + digit);
            assert forall|k: int| 0 <= k < next.len() implies is_digit(#[trigger] next[k]) by {
                if k < i {
                    assert(next[k] == digits@.take(i as int)[k]);
                }
            }
            lemma_decimal_grows(digits@, i + 1);
        }
        if limit < digit || value > (limit - digit) / 10 {
            assert(value * 10 + digit > limit);
            return None;
        }
        value = value * 10 + digit;
        i += 1;
    }
    proof {
        assert(digits@.take(i as int) =~= digits@);
    }
    Some(value)
}

} // verus!
