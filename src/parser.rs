use vstd::prelude::*;
use crate::ast::{views_of, BinOpcode, Node, NumSource, Tree, UnaOpcode};
use crate::lexer::{lex_from, lexemes, spans_view, tokenize, Lexeme, Token};
use vstd::string::StringSliceAdditionalSpecFns;
use crate::rational::{rat_of, to_num};
use crate::words::{lemma_phrase_bound, phrase, phrase_at, scale_value};

verus! {

pub open spec fn is_at(ts: Seq<Lexeme>, p: int, l: Lexeme) -> bool {
    0 <= p < ts.len() && ts[p] == l
}

/// The precedence level of a binary operator, loosest first (`^` binds tighter than all).
pub open spec fn op_level(op: BinOpcode) -> int {
    match op {
        BinOpcode::Or | BinOpcode::Xor => 0,
        BinOpcode::And => 1,
        BinOpcode::LShift | BinOpcode::RShift => 2,
        BinOpcode::Add | BinOpcode::Sub => 3,
        BinOpcode::Mul | BinOpcode::Div => 4,
        BinOpcode::Exp => 6,
    }
}

/// The token at `q` is an operator spelled as a word.
pub open spec fn spelled_at(ts: Seq<Lexeme>, q: int) -> bool {
    0 <= q < ts.len() && ts[q] is WordOp
}

/// A complete expression may stand before position `q`: the tokens end there, or an
/// operator, `)` or `,` comes next.
pub open spec fn can_follow(ts: Seq<Lexeme>, q: int) -> bool {
    q >= ts.len() || match ts[q] {
        Lexeme::Plus | Lexeme::Minus | Lexeme::Times | Lexeme::Slash | Lexeme::Hat | Lexeme::Excl
        | Lexeme::And | Lexeme::Or | Lexeme::LShift | Lexeme::RShift | Lexeme::WordOp(_)
        | Lexeme::RParen | Lexeme::Comma => true,
        _ => false,
    }
}

/// The binary operators of each precedence level, loosest first: `or`/`xor`, `and`,
/// shifts, `+`/`-`, `*`/`/`.
pub open spec fn level_op(level: int, l: Lexeme) -> Option<BinOpcode> {
    match l {
        Lexeme::Or => if level == 0 { Some(BinOpcode::Or) } else { None },
        Lexeme::WordOp(op) => if level == op_level(op) { Some(op) } else { None },
        Lexeme::And => if level == 1 { Some(BinOpcode::And) } else { None },
        Lexeme::LShift => if level == 2 { Some(BinOpcode::LShift) } else { None },
        Lexeme::RShift => if level == 2 { Some(BinOpcode::RShift) } else { None },
        Lexeme::Plus => if level == 3 { Some(BinOpcode::Add) } else { None },
        Lexeme::Minus => if level == 3 { Some(BinOpcode::Sub) } else { None },
        Lexeme::Times => if level == 4 { Some(BinOpcode::Mul) } else { None },
        Lexeme::Slash => if level == 4 { Some(BinOpcode::Div) } else { None },
        _ => None,
    }
}

pub open spec fn op_at(ts: Seq<Lexeme>, q: int, level: int) -> Option<BinOpcode> {
    if 0 <= q < ts.len() { level_op(level, ts[q]) } else { None }
}

/// The longest expression at `p` whose operators bind at least as tightly as `level`,
/// with the position after it. Levels 0 to 4 hold the binary operators; beyond them come
/// unary minus, `^`, postfix `!` and the atoms.
pub open spec fn parse_level(ts: Seq<Lexeme>, p: int, level: int) -> Option<(Tree, int)>
    decreases ts.len() - p, 2 * (10 - level) + 1,
{
    if p < 0 || p > ts.len() || level < 0 || level > 5 {
        None
    } else if level >= 5 {
        parse_unary(ts, p)
    } else {
        match parse_level(ts, p, level + 1) {
            None => None,
            Some((l, q)) => if p <= q <= ts.len() { parse_rest(ts, q, level, l) } else { None },
        }
    }
}

/// Extends `left` by `op operand` pairs of `level`, left to right, while they parse. An
/// operator spelled as a word (which may as well be an English word of the surrounding
/// text) joins only when the expression can end after its operand.
pub open spec fn parse_rest(ts: Seq<Lexeme>, q: int, level: int, left: Tree) -> Option<(Tree, int)>
    decreases ts.len() - q, 2 * (10 - level),
{
    if q < 0 || q > ts.len() || level < 0 || level >= 5 {
        Some((left, q))
    } else {
        match op_at(ts, q, level) {
            Some(op) => match parse_level(ts, q + 1, level + 1) {
                Some((r, q2)) => if q < q2 <= ts.len() && (!spelled_at(ts, q) || can_follow(ts, q2)) {
                    parse_rest(ts, q2, level, Tree::BinOp(op, Box::new(left), Box::new(r)))
                } else {
                    Some((left, q))
                },
                None => Some((left, q)),
            },
            None => Some((left, q)),
        }
    }
}

/// Negation is written as subtraction from zero.
pub open spec fn negation(e: Tree) -> Tree {
    Tree::BinOp(BinOpcode::Sub, Box::new(Tree::Number(rat_of(0), NumSource::Digits)), Box::new(e))
}

pub open spec fn parse_unary(ts: Seq<Lexeme>, p: int) -> Option<(Tree, int)>
    decreases ts.len() - p, 4int,
{
    if p < 0 || p > ts.len() {
        None
    } else if is_at(ts, p, Lexeme::Minus) || is_at(ts, p, Lexeme::WordOp(BinOpcode::Sub)) {
        match parse_unary(ts, p + 1) {
            Some((e, q)) => Some((negation(e), q)),
            None => None,
        }
    } else {
        parse_power(ts, p)
    }
}

/// A postfix expression, raised by `^` to a right operand that may itself hold `^`.
pub open spec fn parse_power(ts: Seq<Lexeme>, p: int) -> Option<(Tree, int)>
    decreases ts.len() - p, 3int,
{
    if p < 0 || p > ts.len() {
        None
    } else {
        match parse_postfix(ts, p) {
            None => None,
            Some((b, q)) => if p <= q && is_at(ts, q, Lexeme::Hat) {
                match parse_unary(ts, q + 1) {
                    Some((e, q2)) => Some((Tree::BinOp(BinOpcode::Exp, Box::new(b), Box::new(e)), q2)),
                    None => Some((b, q)),
                }
            } else {
                Some((b, q))
            },
        }
    }
}

/// Applies a factorial for each `!` from `q` on.
pub open spec fn bangs(ts: Seq<Lexeme>, q: int, a: Tree) -> (Tree, int)
    decreases ts.len() - q,
{
    if 0 <= q < ts.len() && ts[q] == Lexeme::Excl {
        bangs(ts, q + 1, Tree::UnaOp(UnaOpcode::Factorial, Box::new(a)))
    } else {
        (a, q)
    }
}

pub open spec fn parse_postfix(ts: Seq<Lexeme>, p: int) -> Option<(Tree, int)>
    decreases ts.len() - p, 2int,
{
    if p < 0 || p > ts.len() {
        None
    } else {
        match parse_atom(ts, p) {
            None => None,
            Some((a, q)) => Some(bangs(ts, q, a)),
        }
    }
}

pub open spec fn parse_atom(ts: Seq<Lexeme>, p: int) -> Option<(Tree, int)>
    decreases ts.len() - p, 1int,
{
    if p < 0 || p >= ts.len() {
        None
    } else {
        match ts[p] {
            Lexeme::LParen => match parse_level(ts, p + 1, 0) {
                Some((e, q)) => if is_at(ts, q, Lexeme::RParen) { Some((e, q + 1)) } else { None },
                None => None,
            },
            Lexeme::Digits(v) => Some((Tree::Number(v, NumSource::Digits), p + 1)),
            Lexeme::Roll(n, s) => Some((Tree::Roll(n, s), p + 1)),
            Lexeme::Var(x) => if is_at(ts, p + 1, Lexeme::LParen) {
                match parse_args(ts, p + 2) {
                    Some((args, q)) => Some((Tree::Funcall(x, args), q)),
                    None => Some((Tree::Var(x), p + 1)),
                }
            } else {
                Some((Tree::Var(x), p + 1))
            },
            Lexeme::Word(_) => match phrase_at(ts, p, 5) {
                Some((v, q)) => Some((Tree::Number(rat_of(v), NumSource::Words), q)),
                None => None,
            },
            _ => None,
        }
    }
}

/// Arguments after an opening parenthesis: none, or expressions separated by commas; then
/// the closing parenthesis.
pub open spec fn parse_args(ts: Seq<Lexeme>, p: int) -> Option<(Seq<Tree>, int)>
    decreases ts.len() - p, 22int,
{
    if p < 0 || p > ts.len() {
        None
    } else if is_at(ts, p, Lexeme::RParen) {
        Some((Seq::empty(), p + 1))
    } else {
        match parse_level(ts, p, 0) {
            Some((e, q)) => if p < q <= ts.len() { parse_more_args(ts, q, seq![e]) } else { None },
            None => None,
        }
    }
}

pub open spec fn parse_more_args(ts: Seq<Lexeme>, q: int, acc: Seq<Tree>) -> Option<(Seq<Tree>, int)>
    decreases ts.len() - q, 0int,
{
    if q < 0 || q > ts.len() {
        None
    } else if is_at(ts, q, Lexeme::RParen) {
        Some((acc, q + 1))
    } else if is_at(ts, q, Lexeme::Comma) {
        match parse_level(ts, q + 1, 0) {
            Some((e, q2)) => if q < q2 <= ts.len() { parse_more_args(ts, q2, acc.push(e)) } else { None },
            None => None,
        }
    } else {
        None
    }
}

/// The parse of a whole token sequence: the longest expression at its start, marked as
/// `BadParse` when tokens are left after it.
pub open spec fn parse_spec(ts: Seq<Lexeme>) -> Option<Tree> {
    match parse_level(ts, 0, 0) {
        Some((e, q)) => if q == ts.len() { Some(e) } else { Some(Tree::BadParse(Box::new(e))) },
        None => None,
    }
}

pub open spec fn pres(r: Option<(Node, usize)>) -> Option<(Tree, int)> {
    match r {
        Some((e, q)) => Some((e@, q as int)),
        None => None,
    }
}


pub open spec fn args_res(r: Option<(Vec<Box<Node>>, usize)>) -> Option<(Seq<Tree>, int)> {
    match r {
        Some((v, q)) => Some((views_of(v@), q as int)),
        None => None,
    }
}

fn level_of(op: BinOpcode) -> (r: u8)
    ensures
        r as int == op_level(op),
{
    match op {
        BinOpcode::Or | BinOpcode::Xor => 0,
        BinOpcode::And => 1,
        BinOpcode::LShift | BinOpcode::RShift => 2,
        BinOpcode::Add | BinOpcode::Sub => 3,
        BinOpcode::Mul | BinOpcode::Div => 4,
        BinOpcode::Exp => 6,
    }
}

fn op_tok(ts: &[(usize, Token, usize)], q: usize, level: u8) -> (r: Option<BinOpcode>)
    ensures
        r == op_at(lexemes(ts@), q as int, level as int),
{
    if q >= ts.len() {
        return None;
    }
    match ts[q].1 {
        Token::Or => if level == 0 { Some(BinOpcode::Or) } else { None },
        Token::WordOp(op) => if level == level_of(op) {
            Some(op)
        } else {
            None
        },
        Token::And => if level == 1 { Some(BinOpcode::And) } else { None },
        Token::LShift => if level == 2 { Some(BinOpcode::LShift) } else { None },
        Token::RShift => if level == 2 { Some(BinOpcode::RShift) } else { None },
        Token::Plus => if level == 3 { Some(BinOpcode::Add) } else { None },
        Token::Minus => if level == 3 { Some(BinOpcode::Sub) } else { None },
        Token::Times => if level == 4 { Some(BinOpcode::Mul) } else { None },
        Token::Slash => if level == 4 { Some(BinOpcode::Div) } else { None },
        _ => None,
    }
}

fn minus_at(ts: &[(usize, Token, usize)], p: usize) -> (r: bool)
    ensures
        r == (is_at(lexemes(ts@), p as int, Lexeme::Minus) || is_at(
            lexemes(ts@),
            p as int,
            Lexeme::WordOp(BinOpcode::Sub),
        )),
{
    p < ts.len() && (matches!(ts[p].1, Token::Minus) || matches!(ts[p].1, Token::WordOp(BinOpcode::Sub)))
}

fn spelled_tok(ts: &[(usize, Token, usize)], q: usize) -> (r: bool)
    ensures
        r == spelled_at(lexemes(ts@), q as int),
{
    q < ts.len() && matches!(ts[q].1, Token::WordOp(_))
}

fn follows_tok(ts: &[(usize, Token, usize)], q: usize) -> (r: bool)
    ensures
        r == can_follow(lexemes(ts@), q as int),
{
    if q >= ts.len() {
        return true;
    }
    match ts[q].1 {
        Token::Plus | Token::Minus | Token::Times | Token::Slash | Token::Hat | Token::Excl
        | Token::And | Token::Or | Token::LShift | Token::RShift | Token::WordOp(_)
        | Token::RParen | Token::Comma => true,
        _ => false,
    }
}

fn hat_at(ts: &[(usize, Token, usize)], p: usize) -> (r: bool)
    ensures
        r == is_at(lexemes(ts@), p as int, Lexeme::Hat),
{
    p < ts.len() && matches!(ts[p].1, Token::Hat)
}

fn excl_at(ts: &[(usize, Token, usize)], p: usize) -> (r: bool)
    ensures
        r == is_at(lexemes(ts@), p as int, Lexeme::Excl),
{
    p < ts.len() && matches!(ts[p].1, Token::Excl)
}

fn lparen_at(ts: &[(usize, Token, usize)], p: usize) -> (r: bool)
    ensures
        r == is_at(lexemes(ts@), p as int, Lexeme::LParen),
{
    p < ts.len() && matches!(ts[p].1, Token::LParen)
}

fn rparen_at(ts: &[(usize, Token, usize)], p: usize) -> (r: bool)
    ensures
        r == is_at(lexemes(ts@), p as int, Lexeme::RParen),
{
    p < ts.len() && matches!(ts[p].1, Token::RParen)
}

fn comma_at(ts: &[(usize, Token, usize)], p: usize) -> (r: bool)
    ensures
        r == is_at(lexemes(ts@), p as int, Lexeme::Comma),
{
    p < ts.len() && matches!(ts[p].1, Token::Comma)
}

fn level_expr(ts: &[(usize, Token, usize)], p: usize, level: u8) -> (r: Option<(Node, usize)>)
    requires
        p <= ts@.len(),
        level <= 5,
    ensures
        pres(r) == parse_level(lexemes(ts@), p as int, level as int),
    decreases ts@.len() - p, 2 * (10 - level) + 1,
{
    let len = ts.len();
    if level >= 5 {
        unary_expr(ts, p)
    } else {
        match level_expr(ts, p, level + 1) {
            None => None,
            Some((l, q)) => if p <= q && q <= len {
                rest_expr(ts, q, level, l)
            } else {
                None
            },
        }
    }
}

fn rest_expr(ts: &[(usize, Token, usize)], q: usize, level: u8, left: Node) -> (r: Option<(Node, usize)>)
    requires
        q <= ts@.len(),
        level < 5,
    ensures
        pres(r) == parse_rest(lexemes(ts@), q as int, level as int, left@),
    decreases ts@.len() - q, 2 * (10 - level),
{
    let len = ts.len();
    match op_tok(ts, q, level) {
        Some(op) => match level_expr(ts, q + 1, level + 1) {
            Some((r, q2)) => if q < q2 && q2 <= len && (!spelled_tok(ts, q) || follows_tok(ts, q2)) {
                rest_expr(ts, q2, level, Node::BinOp(op, Box::new(left), Box::new(r)))
            } else {
                Some((left, q))
            },
            None => Some((left, q)),
        },
        None => Some((left, q)),
    }
}

fn unary_expr(ts: &[(usize, Token, usize)], p: usize) -> (r: Option<(Node, usize)>)
    requires
        p <= ts@.len(),
    ensures
        pres(r) == parse_unary(lexemes(ts@), p as int),
    decreases ts@.len() - p, 4int,
{
    let len = ts.len();
    if minus_at(ts, p) {
        match unary_expr(ts, p + 1) {
            Some((e, q)) => {
                let zero = Node::Number(to_num(0), NumSource::Digits);
                assert(zero@ == Tree::Number(rat_of(0), NumSource::Digits));
                Some((Node::BinOp(BinOpcode::Sub, Box::new(zero), Box::new(e)), q))
            },
            None => None,
        }
    } else {
        power_expr(ts, p)
    }
}

fn power_expr(ts: &[(usize, Token, usize)], p: usize) -> (r: Option<(Node, usize)>)
    requires
        p <= ts@.len(),
    ensures
        pres(r) == parse_power(lexemes(ts@), p as int),
    decreases ts@.len() - p, 3int,
{
    let len = ts.len();
    match postfix_expr(ts, p) {
        None => None,
        Some((b, q)) => if p <= q && hat_at(ts, q) {
            match unary_expr(ts, q + 1) {
                Some((e, q2)) => Some((Node::BinOp(BinOpcode::Exp, Box::new(b), Box::new(e)), q2)),
                None => Some((b, q)),
            }
        } else {
            Some((b, q))
        },
    }
}

fn apply_bangs(ts: &[(usize, Token, usize)], q: usize, a: Node) -> (r: (Node, usize))
    ensures
        (r.0@, r.1 as int) == bangs(lexemes(ts@), q as int, a@),
    decreases ts@.len() - q,
{
    let len = ts.len();
    if excl_at(ts, q) {
        apply_bangs(ts, q + 1, Node::UnaOp(UnaOpcode::Factorial, Box::new(a)))
    } else {
        (a, q)
    }
}

fn postfix_expr(ts: &[(usize, Token, usize)], p: usize) -> (r: Option<(Node, usize)>)
    requires
        p <= ts@.len(),
    ensures
        pres(r) == parse_postfix(lexemes(ts@), p as int),
    decreases ts@.len() - p, 2int,
{
    match atom_expr(ts, p) {
        None => None,
        Some((a, q)) => Some(apply_bangs(ts, q, a)),
    }
}

fn atom_expr(ts: &[(usize, Token, usize)], p: usize) -> (r: Option<(Node, usize)>)
    requires
        p <= ts@.len(),
    ensures
        pres(r) == parse_atom(lexemes(ts@), p as int),
    decreases ts@.len() - p, 1int,
{
    if p >= ts.len() {
        return None;
    }
    let ghost l = lexemes(ts@);
    assert(l[p as int] == ts@[p as int].1@);
    match &ts[p].1 {
        Token::LParen => match level_expr(ts, p + 1, 0) {
            Some((e, q)) => if rparen_at(ts, q) { Some((e, q + 1)) } else { None },
            None => None,
        },
        Token::Digits(v) => {
            let n = Node::Number(v.clone(), NumSource::Digits);
            assert(n@ == Tree::Number(v@, NumSource::Digits));
            Some((n, p + 1))
        },
        Token::Roll(d) => Some((Node::Roll(d.0, d.1), p + 1)),
        Token::Var(x) => call_or_var(ts, p, x),
        Token::Word(_) => {
            proof {
                lemma_phrase_bound(l, p as int, 5);
            }
            match phrase(ts, p, 5) {
                Some((v, q)) => {
                    assert(v < scale_value(5));
                    let n = Node::Number(to_num(v as i64), NumSource::Words);
                    assert(n@ == Tree::Number(rat_of(v as int), NumSource::Words));
                    Some((n, q))
                },
                None => None,
            }
        },
        _ => None,
    }
}

/// A function call `x(...)` at `p`, or else the variable `x`.
fn call_or_var(ts: &[(usize, Token, usize)], p: usize, x: &String) -> (r: Option<(Node, usize)>)
    requires
        p < ts@.len(),
        lexemes(ts@)[p as int] == Lexeme::Var(x@),
    ensures
        pres(r) == parse_atom(lexemes(ts@), p as int),
    decreases ts@.len() - p, 0int,
{
    let len = ts.len();
    if lparen_at(ts, p + 1) {
        match args_list(ts, p + 2) {
            Some((args, q)) => {
                let ghost av = args@;
                let name = x.clone();
                let e = Node::Funcall(name, args);
                proof {
                    assert(e@ == Tree::Funcall(x@, views_of(av)));
                }
                Some((e, q))
            },
            None => Some((Node::Var(x.clone()), p + 1)),
        }
    } else {
        Some((Node::Var(x.clone()), p + 1))
    }
}

fn args_list(ts: &[(usize, Token, usize)], p: usize) -> (r: Option<(Vec<Box<Node>>, usize)>)
    requires
        p <= ts@.len(),
    ensures
        args_res(r) == parse_args(lexemes(ts@), p as int),
    decreases ts@.len() - p, 22int,
{
    let len = ts.len();
    if rparen_at(ts, p) {
        let v: Vec<Box<Node>> = Vec::new();
        Some((v, p + 1))
    } else {
        match level_expr(ts, p, 0) {
            Some((e, q)) => if p < q && q <= len {
                let mut v: Vec<Box<Node>> = Vec::new();
                let ghost ev = e@;
                v.push(Box::new(e));
                assert(v@.drop_last() =~= Seq::<Box<Node>>::empty());
                assert(views_of(v@.drop_last()) == Seq::<Tree>::empty());
                assert(views_of(v@) == Seq::<Tree>::empty().push(ev));
                assert(views_of(v@) =~= seq![ev]);
                more_args(ts, q, v)
            } else {
                None
            },
            None => None,
        }
    }
}

fn more_args(ts: &[(usize, Token, usize)], q: usize, acc: Vec<Box<Node>>) -> (r: Option<(Vec<Box<Node>>, usize)>)
    requires
        q <= ts@.len(),
    ensures
        args_res(r) == parse_more_args(lexemes(ts@), q as int, views_of(acc@)),
    decreases ts@.len() - q, 0int,
{
    let len = ts.len();
    if rparen_at(ts, q) {
        Some((acc, q + 1))
    } else if comma_at(ts, q) {
        match level_expr(ts, q + 1, 0) {
            Some((e, q2)) => if q < q2 && q2 <= len {
                let ghost e_view = e@;
                let mut acc = acc;
                let ghost before = views_of(acc@);
                let ghost old_acc = acc@;
                acc.push(Box::new(e));
                assert(acc@.drop_last() =~= old_acc);
                assert(views_of(acc@) =~= before.push(e_view));
                more_args(ts, q2, acc)
            } else {
                None
            },
            None => None,
        }
    } else {
        None
    }
}

/// No expression starts at the beginning of the tokens.
#[derive(Debug, PartialEq, Eq, Clone, Copy)]
pub struct ParseError {
    /// Byte offset of the first token, or 0 when there is none.
    pub position: usize,
}

pub open spec fn tree_res(r: Result<Node, ParseError>) -> Option<Tree> {
    match r {
        Ok(e) => Some(e@),
        Err(_) => None,
    }
}

/// The lexemes of a lexed text.
pub open spec fn lexemes_of(s: Seq<(int, Lexeme, int)>) -> Seq<Lexeme> {
    s.map_values(|t: (int, Lexeme, int)| t.1)
}

pub proof fn lemma_lexemes(v: Seq<(usize, Token, usize)>)
    ensures
        lexemes(v) == lexemes_of(spans_view(v)),
{
    assert(lexemes(v) =~= lexemes_of(spans_view(v)));
}

/// Parses a token sequence: the longest expression at its start, as a `BadParse` when
/// tokens are left over.
pub fn parse_tokens(ts: &[(usize, Token, usize)]) -> (r: Result<Node, ParseError>)
    ensures
        tree_res(r) == parse_spec(lexemes(ts@)),
{
    let len = ts.len();
    match level_expr(ts, 0, 0) {
        Some((e, q)) => if q == len {
            Ok(e)
        } else {
            Ok(Node::BadParse(Box::new(e)))
        },
        None => Err(ParseError { position: if len > 0 { ts[0].0 } else { 0 } }),
    }
}

/// Parses a whole text.
pub fn parse(text: &str) -> (r: Result<Node, ParseError>)
    ensures
        tree_res(r) == parse_spec(lexemes_of(lex_from(text.spec_bytes(), 0))),
{
    let ts = tokenize(text);
    proof {
        lemma_lexemes(ts@);
    }
    parse_tokens(ts.as_slice())
}

pub open spec fn words_spec(ts: Seq<Lexeme>) -> Option<u64> {
    match phrase_at(ts, 0, 5) {
        Some((v, q)) => if q == ts.len() { Some(v as u64) } else { None },
        None => None,
    }
}

/// The value of a text that is one number phrase in words and nothing else.
pub fn number_words(text: &str) -> (r: Option<u64>)
    ensures
        r == words_spec(lexemes_of(lex_from(text.spec_bytes(), 0))),
{
    let ts = tokenize(text);
    proof {
        lemma_lexemes(ts@);
        lemma_phrase_bound(lexemes(ts@), 0, 5);
    }
    match phrase(ts.as_slice(), 0, 5) {
        Some((v, q)) => if q == ts.len() { Some(v) } else { None },
        None => None,
    }
}

} // verus!
