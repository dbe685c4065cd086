use vstd::prelude::*;

use crate::tokenizer::{lex, tokenize, ExprError, Lexeme};
use crate::visitors::{evaluate, printed, to_postfix, CalcVisitor, ParserVisitor, PrintVisitor};

verus! {

/// What `run` gives for the text `s`: the postfix form written out, and its
/// value; or the first error of tokenizing, converting or evaluating.
pub open spec fn run_result(s: Seq<char>) -> Result<(Seq<char>, i32), ExprError> {
    match lex(s, None) {
        Err(e) => Err(e),
        Ok(ts) => match to_postfix(ts) {
            Err(e) => Err(e),
            Ok(pf) => match evaluate(pf) {
                Err(e) => Err(e),
                Ok(v) => Ok((printed(pf, pf.len() as int), v)),
            },
        },
    }
}

/// The tokens of an infix expression.
pub fn tokenize_infix(data: &str) -> (r: Result<Vec<Lexeme>, ExprError>)
    ensures
        match r {
            Ok(ts) => lex(data@, None) == Ok::<Seq<Lexeme>, ExprError>(ts@),
            Err(e) => lex(data@, None) == Err::<Seq<Lexeme>, ExprError>(e),
        },
{
    tokenize(data)
}

/// Infix tokens in postfix order.
pub fn infix_to_postfix(data: &Vec<Lexeme>) -> (r: Result<Vec<Lexeme>, ExprError>)
    ensures
        match r {
            Ok(v) => to_postfix(data@) == Ok::<Seq<Lexeme>, ExprError>(v@),
            Err(e) => to_postfix(data@) == Err::<Seq<Lexeme>, ExprError>(e),
        },
{
    ParserVisitor::infix_to_postfix(data)
}

/// The value of postfix tokens.
pub fn calc_postfix(data: &Vec<Lexeme>) -> (r: Result<i32, ExprError>)
    ensures
        r == evaluate(data@),
{
    CalcVisitor::evaluate_postfix(data)
}

/// Tokens written as text.
pub fn tokens_to_string(data: &Vec<Lexeme>) -> (r: Result<String, ExprError>)
    ensures
        r is Ok,
        r->Ok_0@ == printed(data@, data@.len() as int),
{
    PrintVisitor::write(data)
}

/// Converts an infix expression to postfix and evaluates it: returns the
/// postfix form as text and the value.
pub fn run(data: &str) -> (r: Result<(String, i32), ExprError>)
    ensures
        match run_result(data@) {
            Ok((s, v)) => r is Ok && r->Ok_0.0@ == s && r->Ok_0.1 == v,
            Err(e) => r is Err && r->Err_0 == e,
        },
{
    let tokens = match tokenize_infix(data) {
        Ok(t) => t,
        Err(e) => return Err(e),
    };
    let postfix = match infix_to_postfix(&tokens) {
        Ok(p) => p,
        Err(e) => return Err(e),
    };
    let res = match calc_postfix(&postfix) {
        Ok(v) => v,
        Err(e) => return Err(e),
    };
    let postfix_repr = match tokens_to_string(&postfix) {
        Ok(s) => s,
        Err(e) => return Err(e),
    };
    Ok((postfix_repr, res))
}

} // verus!
