use vstd::prelude::*;
use crate::phones::{Phone, SpecPhone};
use crate::tokens::{AndType, CondType, ScopeType, Shift};

verus! {

/// Breaks in phone lists
///
/// Separate input, output, conditions and anti-conditions
#[derive(Debug, Clone, Copy, PartialEq, Eq)]
pub enum Break {
    /// Separates input and output, and denotes how a change should be applied
    Shift(Shift),
    /// Starts a condition
    Cond,
    /// Starts an anti-condition
    AntiCond,
    /// Joins a sub-condition to the condition before it
    And(AndType),
}

/// Tokens that make up the intermediate representation of sound changes
#[derive(Debug, Clone, Copy, PartialEq, Eq)]
pub enum IrToken<'s> {
    /// A phone literal
    Phone(Phone<'s>),
    /// The label of a scope, any, or gap
    Label(&'s str),
    /// A break between phone lists
    Break(Break),
    /// Any non-boundary phone
    Any,
    /// An item separator for selection scopes
    ArgSep,
    /// A gap of size 0 or greater that does not contain a word boundary
    Gap,
    /// The focus of a condition or anti-condition
    CondType(CondType),
    /// The start of a scope
    ScopeStart(ScopeType),
    /// The end of a scope
    ScopeEnd(ScopeType),
}

/// Prefixes added to literal strings to modify their effects
#[derive(Debug, Clone, Copy, PartialEq, Eq)]
pub enum Prefix {
    /// Inserts a predefined value in its place
    Definition,
    /// Allows for scopes to agree in what they add to the phone list
    Label,
    /// Inserts a value given at runtime in its place
    Variable,
}

/// Non-rule commands executed at runtime
#[derive(Debug, Clone, Copy, PartialEq, Eq)]
pub enum RuntimeCmd {
    /// Reports the current phones with a message
    Print,
    /// Asks for text that a variable holds as phones
    Get,
    /// Asks for text that a variable holds as code
    GetAsCode,
}

/// A line of source code after tokenization
#[derive(Debug, Clone, PartialEq, Eq)]
pub enum IrLine<'s> {
    /// The tokens of a rule
    Ir(Vec<IrToken<'s>>),
    /// A command and its arguments
    Cmd(RuntimeCmd, &'s str),
    /// A line with nothing to execute
    Empty,
}


/// The mathematical value of an ir token
pub enum SpecIrToken {
    Phone(SpecPhone),
    Label(Seq<char>),
    Break(Break),
    Any,
    ArgSep,
    Gap,
    CondType(CondType),
    ScopeStart(ScopeType),
    ScopeEnd(ScopeType),
}

impl<'s> View for IrToken<'s> {
    type V = SpecIrToken;

    open spec fn view(&self) -> SpecIrToken {
        match *self {
            IrToken::Phone(p) => SpecIrToken::Phone(p@),
            IrToken::Label(name) => SpecIrToken::Label(name@),
            IrToken::Break(b) => SpecIrToken::Break(b),
            IrToken::Any => SpecIrToken::Any,
            IrToken::ArgSep => SpecIrToken::ArgSep,
            IrToken::Gap => SpecIrToken::Gap,
            IrToken::CondType(c) => SpecIrToken::CondType(c),
            IrToken::ScopeStart(k) => SpecIrToken::ScopeStart(k),
            IrToken::ScopeEnd(k) => SpecIrToken::ScopeEnd(k),
        }
    }
}

/// The mathematical values of a list of ir tokens
pub open spec fn ir_view<'s>(s: Seq<IrToken<'s>>) -> Seq<SpecIrToken> {
    s.map_values(|t: IrToken<'s>| t@)
}

/// The mathematical value of a line of ir
pub enum SpecIrLine {
    Ir(Seq<SpecIrToken>),
    Cmd(RuntimeCmd, Seq<char>),
    Empty,
}

/// The mathematical value of a line of ir
pub open spec fn ir_line_view<'s>(l: IrLine<'s>) -> SpecIrLine {
    match l {
        IrLine::Ir(tokens) => SpecIrLine::Ir(ir_view(tokens@)),
        IrLine::Cmd(c, args) => SpecIrLine::Cmd(c, args@),
        IrLine::Empty => SpecIrLine::Empty,
    }
}

}
