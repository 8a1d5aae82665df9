//! The expression tree of a script, and its mathematical model.

use vstd::prelude::*;

pub mod bounds;
pub mod decode;
pub mod grammar;
pub mod laws;
pub mod model;
pub mod shape;

verus! {

/// A literal value.
#[derive(Clone, Debug, PartialEq, Eq)]
pub enum ScriptValue {
    Bool(bool),
    /// A decimal literal with a fraction, held as its text: an optional
    /// sign, digits, a dot, digits.
    Float(String),
    Number(i32),
    BigNumber(u64),
    String(String),
    /// An unquoted word, which may hold spaces.
    Name(String),
    /// The literal that matches nothing and is always there.
    Empty,
}

/// One step of a property path.
#[derive(Clone, Debug, PartialEq, Eq)]
pub enum ScriptAccessor {
    Name(String),
    Index(i32),
    IndexName(String),
}

/// What a field assigns to, or a call calls.
#[derive(Clone, Debug, PartialEq, Eq)]
pub enum ScriptReference {
    Name(String),
    Property(String, Vec<ScriptAccessor>),
}

/// An assignment: a reference and the value given to it.
#[derive(Clone, Debug, PartialEq, Eq)]
pub struct ScriptField {
    pub reference: ScriptReference,
    pub value: ScriptValue,
}

/// A comment, without its delimiters.
#[derive(Clone, Debug, PartialEq, Eq)]
pub enum ScriptComment {
    Line(String),
    Block(String),
}

/// A call: the callee and its arguments in order.
#[derive(Debug, PartialEq, Eq)]
pub struct ScriptCall {
    pub reference: ScriptReference,
    pub arguments: Vec<ScriptExpression>,
}

/// A named block and the expressions between its opening and closing tag.
#[derive(Debug, PartialEq, Eq)]
pub struct ScriptMarkup {
    pub name: String,
    pub body: Vec<ScriptExpression>,
}

/// One unit of a script.
#[derive(Debug, PartialEq, Eq)]
pub enum ScriptExpression {
    Comment(ScriptComment),
    Markup(ScriptMarkup),
    Call(ScriptCall),
    Field(ScriptField),
    Value(ScriptValue),
}

impl View for ScriptValue {
    type V = model::Value;

    open spec fn view(&self) -> model::Value {
        match self {
            ScriptValue::Bool(b) => model::Value::Bool(*b),
            ScriptValue::Float(text) => model::Value::Float(text@),
            ScriptValue::Number(n) => model::Value::Number(*n as int),
            ScriptValue::BigNumber(n) => model::Value::BigNumber(*n as int),
            ScriptValue::String(text) => model::Value::String(text@),
            ScriptValue::Name(text) => model::Value::Name(text@),
            ScriptValue::Empty => model::Value::Empty,
        }
    }
}

impl View for ScriptAccessor {
    type V = model::Accessor;

    open spec fn view(&self) -> model::Accessor {
        match self {
            ScriptAccessor::Name(name) => model::Accessor::Name(name@),
            ScriptAccessor::Index(index) => model::Accessor::Index(*index as int),
            ScriptAccessor::IndexName(name) => model::Accessor::IndexName(name@),
        }
    }
}

/// The models of the steps of a path, in order.
pub open spec fn path_model(path: Seq<ScriptAccessor>) -> Seq<model::Accessor> {
    Seq::new(path.len(), |i: int| path[i]@)
}

impl View for ScriptReference {
    type V = model::Reference;

    open spec fn view(&self) -> model::Reference {
        match self {
            ScriptReference::Name(name) => model::Reference::Name(name@),
            ScriptReference::Property(name, path) => model::Reference::Property(
                name@,
                path_model(path@),
            ),
        }
    }
}

impl View for ScriptField {
    type V = model::Field;

    open spec fn view(&self) -> model::Field {
        model::Field { reference: self.reference@, value: self.value@ }
    }
}

impl View for ScriptComment {
    type V = model::Comment;

    open spec fn view(&self) -> model::Comment {
        match self {
            ScriptComment::Line(text) => model::Comment::Line(text@),
            ScriptComment::Block(text) => model::Comment::Block(text@),
        }
    }
}

/// The model of an expression, children included.
pub open spec fn expression_model(e: ScriptExpression) -> model::Expression
    decreases e,
{
    match e {
        ScriptExpression::Comment(c) => model::Expression::Comment(c@),
        ScriptExpression::Markup(m) => model::Expression::Markup(
            model::Markup { name: m.name@, body: expressions_model(m.body) },
        ),
        ScriptExpression::Call(c) => model::Expression::Call(
            model::Call { reference: c.reference@, arguments: expressions_model(c.arguments) },
        ),
        ScriptExpression::Field(f) => model::Expression::Field(f@),
        ScriptExpression::Value(v) => model::Expression::Value(v@),
    }
}

/// The models of a list of expressions, in order.
pub open spec fn expressions_model(v: Vec<ScriptExpression>) -> Seq<model::Expression>
    decreases v,
{
    Seq::new(
        v@.len(),
        |i: int|
            if 0 <= i < v@.len() {
                expression_model(v@[i])
            } else {
                arbitrary()
            },
    )
}

impl View for ScriptExpression {
    type V = model::Expression;

    open spec fn view(&self) -> model::Expression {
        expression_model(*self)
    }
}

impl View for ScriptCall {
    type V = model::Call;

    open spec fn view(&self) -> model::Call {
        model::Call { reference: self.reference@, arguments: expressions_model(self.arguments) }
    }
}

impl View for ScriptMarkup {
    type V = model::Markup;

    open spec fn view(&self) -> model::Markup {
        model::Markup { name: self.name@, body: expressions_model(self.body) }
    }
}

} // verus!
