//! Tokens of the source language.
use vstd::prelude::*;

verus! {

/// One word of source text.
#[derive(Clone, Copy, Debug, PartialEq, Eq, Structural)]
pub enum Token {
    /// A variable, written `:n` or `xn`.
    Var(u64),
    /// An integer literal.
    Int(i64),
    /// `t` or `f`.
    Bool(bool),
    Inc,
    Dec,
    Neg,
    Add,
    Mul,
    Div,
    Eq,
    Lt,
    /// `=`.
    Assign,
    /// `ap`: application of the next expression to the one after it.
    App,
    S,
    C,
    B,
    I,
    Cons,
    Car,
    Cdr,
    Nil,
    IsNil,
    Galaxy,
}

} // verus!
