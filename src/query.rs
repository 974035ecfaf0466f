use vstd::prelude::*;
use vstd::string::{StringExecFns, StringSliceAdditionalSpecFns};
use crate::ast::BinOpcode;
use crate::eval::{eval, eval_tree, valid_rolls, EvalError, Env, Fault, Operator};
use crate::rational::{rat_text, Rat};
use crate::lexer::lex_from;
use crate::parser::lexemes_of;
use crate::resolve::{best_parse, resolve};

verus! {

/// A request: one line of text to evaluate.
#[derive(Debug, PartialEq, Eq)]
pub struct Request {
    pub message: String,
}

/// The answer to a request: a value, or a message saying what went wrong.
#[derive(Debug, PartialEq, Eq)]
pub enum Response {
    Good { val: Option<String> },
    Bad { message: String },
}

pub open spec fn operator_text(op: Operator) -> Seq<char> {
    match op {
        Operator::Unary(_) => "!"@,
        Operator::Binary(BinOpcode::And) => "and"@,
        Operator::Binary(BinOpcode::Or) => "or"@,
        Operator::Binary(BinOpcode::Xor) => "xor"@,
        Operator::Binary(BinOpcode::LShift) => "<<"@,
        Operator::Binary(BinOpcode::RShift) => ">>"@,
        Operator::Binary(_) => "an operator"@,
    }
}

/// The one-line description of an evaluation error.
pub open spec fn fault_text(f: Fault) -> Seq<char> {
    match f {
        Fault::UnboundVariable(x) => "unbound variable "@ + x,
        Fault::UnknownFunction(x) => "unknown function "@ + x,
        Fault::NonIntegerOperand(op) => "non-integer operand of "@ + operator_text(op),
        Fault::NonIntegerExponent => "non-integer exponent"@,
        Fault::DivisionByZero => "division by zero"@,
        Fault::MalformedExpression => "malformed expression"@,
        Fault::EmptyDie => "a die needs at least one side"@,
        Fault::ShiftTooLarge => "shift too large"@,
    }
}

fn operator_name(op: Operator) -> (r: &'static str)
    ensures
        r@ == operator_text(op),
{
    match op {
        Operator::Unary(_) => "!",
        Operator::Binary(BinOpcode::And) => "and",
        Operator::Binary(BinOpcode::Or) => "or",
        Operator::Binary(BinOpcode::Xor) => "xor",
        Operator::Binary(BinOpcode::LShift) => "<<",
        Operator::Binary(BinOpcode::RShift) => ">>",
        Operator::Binary(_) => "an operator",
    }
}

impl EvalError {
    /// A one-line description of the error.
    pub fn message(&self) -> (r: String)
        ensures
            r@ == fault_text(self@),
    {
        match self {
            EvalError::UnboundVariable(x) => "unbound variable ".to_owned().concat(x.as_str()),
            EvalError::UnknownFunction(x) => "unknown function ".to_owned().concat(x.as_str()),
            EvalError::NonIntegerOperand(op) => "non-integer operand of ".to_owned().concat(operator_name(*op)),
            EvalError::NonIntegerExponent => "non-integer exponent".to_owned(),
            EvalError::DivisionByZero => "division by zero".to_owned(),
            EvalError::MalformedExpression => "malformed expression".to_owned(),
            EvalError::EmptyDie => "a die needs at least one side".to_owned(),
            EvalError::ShiftTooLarge => "shift too large".to_owned(),
        }
    }
}

/// `r` reports the evaluation outcome `out`.
pub open spec fn response_for(out: Result<Rat, Fault>, r: Response) -> bool {
    match out {
        Ok(v) => r matches Response::Good { val: Some(s) } && s@ == rat_text(v),
        Err(f) => r matches Response::Bad { message } && message@ == fault_text(f),
    }
}

pub open spec fn no_parse_text(line: Seq<char>) -> Seq<char> {
    "no good parse in '"@ + line + "'"@
}

/// Answers one line: its best parse evaluated with no variables bound, or what went wrong.
pub fn respond(line: &str) -> (r: Response)
    ensures
        match resolve(lexemes_of(lex_from(line.spec_bytes(), 0))) {
            None => r matches Response::Bad { message } && message@ == no_parse_text(line@),
            Some(t) => exists|rolls: Seq<int>|
                #[trigger] valid_rolls(t, rolls) && response_for(
                    eval_tree(t, Map::empty(), rolls),
                    r,
                ),
        },
{
    match best_parse(line) {
        None => Response::Bad { message: "no good parse in '".to_owned().concat(line).concat("'") },
        Some(expr) => {
            let env = Env::new();
            match eval(&expr, &env) {
                Ok(v) => Response::Good { val: Some(v.to_text()) },
                Err(e) => Response::Bad { message: e.message() },
            }
        },
    }
}

} // verus!
