//! The tree as a mathematical value: text as sequences of characters,
//! numbers as integers, lists as sequences.

use vstd::prelude::*;
use crate::lexical::ByteClass;

verus! {

/// Whether the character is the ASCII one of a byte of the class.
pub open spec fn char_in(class: ByteClass, c: char) -> bool {
    (c as u32) < 0x80 && class.has(c as u8)
}

/// Whether the text is a word of the class: not empty, and made of its
/// characters only.
pub open spec fn is_word(class: ByteClass, text: Seq<char>) -> bool {
    text.len() > 0 && forall|i: int| 0 <= i < text.len() ==> char_in(class, #[trigger] text[i])
}

/// Whether the text is a decimal literal with a fraction: a sign or none,
/// digits, a dot, and digits.
pub open spec fn is_float_text(text: Seq<char>) -> bool {
    exists|sign: int, whole: int| #[trigger] is_float_text_of(text, sign, whole)
}

/// Whether the text is a decimal literal with a fraction: `sign` signs,
/// then `whole` digits, a dot, and digits to the end.
pub open spec fn is_float_text_of(text: Seq<char>, sign: int, whole: int) -> bool {
    &&& 0 <= sign <= 1
    &&& 1 <= whole
    &&& sign + whole + 1 < text.len()
    &&& sign == 1 ==> text[0] == '-' || text[0] == '+'
    &&& forall|i: int| sign <= i < sign + whole ==> char_in(ByteClass::Digit, #[trigger] text[i])
    &&& text[sign + whole] == '.'
    &&& forall|i: int|
        sign + whole < i < text.len() ==> char_in(ByteClass::Digit, #[trigger] text[i])
}

/// A literal. A float is its text; the numbers are integers within the
/// range of their kind.
pub enum Value {
    Bool(bool),
    Float(Seq<char>),
    Number(int),
    BigNumber(int),
    String(Seq<char>),
    Name(Seq<char>),
    Empty,
}

impl Value {
    /// What holds of every literal that was read: a float is the text of a
    /// decimal literal, numbers are within their range, a bare word is one.
    pub open spec fn well_formed(self) -> bool {
        match self {
            Value::Float(text) => is_float_text(text),
            Value::Number(n) => i32::MIN <= n <= i32::MAX,
            Value::BigNumber(n) => 0 <= n <= u64::MAX,
            Value::Name(text) => is_word(ByteClass::Name, text),
            _ => true,
        }
    }
}

/// One step of a path.
pub enum Accessor {
    Name(Seq<char>),
    Index(int),
    IndexName(Seq<char>),
}

impl Accessor {
    /// What holds of every step that was read: a name is an identifier, an
    /// index is within 32 bits.
    pub open spec fn well_formed(self) -> bool {
        match self {
            Accessor::Name(name) => is_word(ByteClass::Key, name),
            Accessor::Index(index) => i32::MIN <= index <= i32::MAX,
            Accessor::IndexName(name) => is_word(ByteClass::Key, name),
        }
    }
}

/// A name, or a name and the path that follows it.
pub enum Reference {
    Name(Seq<char>),
    Property(Seq<char>, Seq<Accessor>),
}

impl Reference {
    /// What holds of every reference that was read: its name is an
    /// identifier, and its path, where it has one, is not empty.
    pub open spec fn well_formed(self) -> bool {
        match self {
            Reference::Name(name) => is_word(ByteClass::Key, name),
            Reference::Property(name, path) => {
                &&& is_word(ByteClass::Key, name)
                &&& path.len() > 0
                &&& forall|i: int| 0 <= i < path.len() ==> (#[trigger] path[i]).well_formed()
            },
        }
    }
}

/// A reference and the value given to it.
pub struct Field {
    pub reference: Reference,
    pub value: Value,
}

impl Field {
    /// What holds of every field that was read.
    pub open spec fn well_formed(self) -> bool {
        self.reference.well_formed() && self.value.well_formed()
    }
}

/// The text of a comment, without its delimiters.
pub enum Comment {
    Line(Seq<char>),
    Block(Seq<char>),
}

/// A callee and its arguments in order.
pub struct Call {
    pub reference: Reference,
    pub arguments: Seq<Expression>,
}

/// The name of a block and the expressions between its tags.
pub struct Markup {
    pub name: Seq<char>,
    pub body: Seq<Expression>,
}

/// One unit of a script.
pub enum Expression {
    Comment(Comment),
    Markup(Markup),
    Call(Call),
    Field(Field),
    Value(Value),
}

impl Expression {
    /// What holds of every expression that was read: its references and
    /// values are well formed, a call has one argument at least, the name of
    /// a markup block is made of letters and digits, and the same holds of
    /// the expressions inside.
    pub open spec fn well_formed(self) -> bool
        decreases self,
    {
        match self {
            Expression::Comment(_) => true,
            Expression::Markup(markup) => {
                &&& is_word(ByteClass::Alphanumeric, markup.name)
                &&& forall|i: int|
                    0 <= i < markup.body.len() ==> (#[trigger] markup.body[i]).well_formed()
            },
            Expression::Call(call) => {
                &&& call.reference.well_formed()
                &&& call.arguments.len() > 0
                &&& forall|i: int|
                    0 <= i < call.arguments.len() ==> (#[trigger] call.arguments[i]).well_formed()
            },
            Expression::Field(field) => field.well_formed(),
            Expression::Value(value) => value.well_formed(),
        }
    }
}

impl Call {
    /// What holds of every call that was read.
    pub open spec fn well_formed(self) -> bool {
        Expression::Call(self).well_formed()
    }
}

impl Markup {
    /// What holds of every markup block that was read.
    pub open spec fn well_formed(self) -> bool {
        Expression::Markup(self).well_formed()
    }
}

/// Every expression of the list is well formed.
pub open spec fn all_well_formed(list: Seq<Expression>) -> bool {
    forall|i: int| 0 <= i < list.len() ==> (#[trigger] list[i]).well_formed()
}

} // verus!
