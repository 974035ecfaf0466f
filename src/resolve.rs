use vstd::prelude::*;
use vstd::string::StringSliceAdditionalSpecFns;
use crate::ast::{views_of, Node, Tree};
use crate::lexer::{lex_from, lexemes, tokenize, Lexeme};
use crate::parser::{lemma_lexemes, lexemes_of, parse_spec, parse_tokens};

verus! {

/// The size of a tree: a literal or variable counts 1, dice 2, each operator or call 1
/// plus its operands; a `BadParse` counts what it wraps.
pub open spec fn tree_size(t: Tree) -> int
    decreases t,
{
    match t {
        Tree::Number(_, _) => 1,
        Tree::Roll(_, _) => 2,
        Tree::Var(_) => 1,
        Tree::UnaOp(_, a) => 1 + tree_size(*a),
        Tree::BinOp(_, l, r) => 1 + tree_size(*l) + tree_size(*r),
        Tree::Funcall(_, args) => 1 + sizes_sum(args),
        Tree::BadParse(e) => tree_size(*e),
    }
}

pub open spec fn sizes_sum(s: Seq<Tree>) -> int
    decreases s,
{
    if s.len() == 0 {
        0
    } else {
        sizes_sum(s.drop_last()) + tree_size(s.last())
    }
}

/// The size, counted up to the largest `u64`.
pub open spec fn capped_size(t: Tree) -> int {
    if tree_size(t) < u64::MAX { tree_size(t) } else { u64::MAX as int }
}

pub proof fn lemma_size_positive(t: Tree)
    ensures
        tree_size(t) >= 1,
    decreases t,
{
    match t {
        Tree::UnaOp(_, a) => lemma_size_positive(*a),
        Tree::BinOp(_, l, r) => {
            lemma_size_positive(*l);
            lemma_size_positive(*r);
        },
        Tree::Funcall(_, args) => lemma_sum_nonneg(args),
        Tree::BadParse(e) => lemma_size_positive(*e),
        _ => {},
    }
}

proof fn lemma_sum_nonneg(s: Seq<Tree>)
    ensures
        sizes_sum(s) >= 0,
    decreases s,
{
    if s.len() > 0 {
        lemma_sum_nonneg(s.drop_last());
        lemma_size_positive(s.last());
    }
}

fn add_capped(a: u64, b: u64) -> (r: u64)
    ensures
        r as int == if a + b < u64::MAX { a + b } else { u64::MAX as int },
{
    if a < u64::MAX - b { a + b } else { u64::MAX }
}

/// The size of an expression, counted up to the largest `u64`.
pub fn expr_size(e: &Node) -> (r: u64)
    ensures
        r as int == capped_size(e@),
    decreases e,
{
    proof {
        lemma_size_positive(e@);
    }
    match e {
        Node::Number(_, _) => 1,
        Node::Roll(_, _) => 2,
        Node::Var(_) => 1,
        Node::UnaOp(_, a) => {
            proof {
                lemma_size_positive((**a)@);
            }
            add_capped(1, expr_size(a))
        },
        Node::BinOp(_, l, r) => {
            proof {
                lemma_size_positive((**l)@);
                lemma_size_positive((**r)@);
            }
            add_capped(add_capped(1, expr_size(l)), expr_size(r))
        },
        Node::Funcall(f, args) => {
            let mut total: u64 = 1;
            let mut i: usize = 0;
            while i < args.len()
                invariant
                    *e == Node::Funcall(*f, *args),
                    i <= args@.len(),
                    total as int == if 1 + sizes_sum(views_of(args@.take(i as int))) < u64::MAX {
                        1 + sizes_sum(views_of(args@.take(i as int)))
                    } else {
                        u64::MAX as int
                    },
                decreases args@.len() - i,
            {
                proof {
                    let t = args@.take(i as int + 1);
                    assert(t.drop_last() =~= args@.take(i as int));
                    lemma_sum_nonneg(views_of(args@.take(i as int)));
                    lemma_size_positive((*args@[i as int])@);
                    assert(views_of(t).drop_last() =~= views_of(args@.take(i as int)));
                }
                proof {
                    vstd::std_specs::vec::axiom_vec_index_decreases(*args, i as int);
                    assert(decreases_to!(*e => (*e)->Funcall_1));
                    assert(decreases_to!(*e => args[i as int]));
                }
                total = add_capped(total, expr_size(&args[i]));
                i = i + 1;
            }
            proof {
                assert(args@.take(args@.len() as int) =~= args@);
            }
            total
        },
        Node::BadParse(inner) => expr_size(inner),
    }
}

/// What the parse of the tokens from `i` on contributes: its expression, unwrapped from
/// a `BadParse`.
pub open spec fn candidate(ts: Seq<Lexeme>, i: int) -> Option<Tree> {
    match parse_spec(ts.skip(i)) {
        Some(Tree::BadParse(e)) => Some(*e),
        Some(e) => Some(e),
        None => None,
    }
}

/// Scans the start offsets from `i` on, keeping the first candidate of the greatest size
/// above one; `best` is the choice so far.
pub open spec fn best_from(ts: Seq<Lexeme>, i: int, best: Option<Tree>) -> Option<Tree>
    decreases ts.len() - i,
{
    if i < 0 || i >= ts.len() {
        best
    } else {
        let next = match candidate(ts, i) {
            Some(c) => if capped_size(c) > 1 && (match best {
                Some(b) => capped_size(c) > capped_size(b),
                None => true,
            }) {
                Some(c)
            } else {
                best
            },
            None => best,
        };
        best_from(ts, i + 1, next)
    }
}

/// The expression that a token sequence stands for: its complete parse when there is one,
/// else the largest expression that parses from some offset.
pub open spec fn resolve(ts: Seq<Lexeme>) -> Option<Tree> {
    match parse_spec(ts) {
        Some(e) => if e is BadParse { best_from(ts, 0, None) } else { Some(e) },
        None => best_from(ts, 0, None),
    }
}

proof fn lemma_best_from(ts: Seq<Lexeme>, i: int, best: Option<Tree>)
    requires
        0 <= i <= ts.len(),
        best matches Some(b) ==> capped_size(b) > 1,
    ensures
        match best_from(ts, i, best) {
            Some(t) => capped_size(t) > 1 && (best matches Some(b) ==> capped_size(b) <= capped_size(t))
                && forall|j: int|
                i <= j < ts.len() ==> (#[trigger] candidate(ts, j) matches Some(c) ==> capped_size(c)
                    <= capped_size(t)),
            None => best is None && forall|j: int|
                i <= j < ts.len() ==> (#[trigger] candidate(ts, j) matches Some(c) ==> capped_size(c)
                    <= 1),
        },
    decreases ts.len() - i,
{
    if i < ts.len() {
        let next = match candidate(ts, i) {
            Some(c) => if capped_size(c) > 1 && (match best {
                Some(b) => capped_size(c) > capped_size(b),
                None => true,
            }) {
                Some(c)
            } else {
                best
            },
            None => best,
        };
        lemma_best_from(ts, i + 1, next);
    }
}

/// When the search decides, its result has size above one, no candidate from any offset
/// is larger, and there is no result only when every candidate has size at most one.
pub proof fn lemma_best_is_largest(ts: Seq<Lexeme>)
    ensures
        match best_from(ts, 0, None) {
            Some(t) => capped_size(t) > 1 && forall|j: int|
                0 <= j < ts.len() ==> (#[trigger] candidate(ts, j) matches Some(c) ==> capped_size(c)
                    <= capped_size(t)),
            None => forall|j: int|
                0 <= j < ts.len() ==> (#[trigger] candidate(ts, j) matches Some(c) ==> capped_size(c)
                    <= 1),
        },
{
    lemma_best_from(ts, 0, None);
}

/// When the whole token sequence parses with nothing left over, that parse is the result,
/// without looking at any other offset.
pub proof fn lemma_fast_path(ts: Seq<Lexeme>, e: Tree)
    requires
        parse_spec(ts) == Some(e),
        !(e is BadParse),
    ensures
        resolve(ts) == Some(e),
{
}

/// Two parses of the same text give the same expression.
pub proof fn lemma_parse_deterministic(text: Seq<u8>, r1: Option<Node>, r2: Option<Node>)
    requires
        node_opt(r1) == resolve(lexemes_of(lex_from(text, 0))),
        node_opt(r2) == resolve(lexemes_of(lex_from(text, 0))),
    ensures
        node_opt(r1) == node_opt(r2),
{
}

pub open spec fn node_opt(r: Option<Node>) -> Option<Tree> {
    match r {
        Some(e) => Some(e@),
        None => None,
    }
}

pub open spec fn best_view(b: Option<(Node, u64)>) -> Option<Tree> {
    match b {
        Some((e, _)) => Some(e@),
        None => None,
    }
}

/// The best parse of `line`: the complete parse of its tokens when it exists; otherwise,
/// over every start offset in increasing order, the first of the largest expressions of
/// size above one (a `BadParse` counting as what it wraps); `None` when there is none.
pub fn best_parse(line: &str) -> (r: Option<Node>)
    ensures
        node_opt(r) == resolve(lexemes_of(lex_from(line.spec_bytes(), 0))),
{
    let toks = tokenize(line);
    let ts = toks.as_slice();
    let ghost l = lexemes(ts@);
    proof {
        lemma_lexemes(toks@);
    }
    let first = parse_tokens(ts);
    if let Ok(e) = first {
        if !matches!(e, Node::BadParse(_)) {
            return Some(e);
        }
    }
    let mut best: Option<(Node, u64)> = None;
    let mut i: usize = 0;
    while i < ts.len()
        invariant
            l == lexemes(ts@),
            i <= ts@.len(),
            resolve(l) == best_from(l, i as int, best_view(best)),
            best matches Some((b, s)) ==> s as int == capped_size(b@),
        decreases ts@.len() - i,
    {
        let sub = vstd::slice::slice_subrange(ts, i, ts.len());
        assert(lexemes(sub@) =~= l.skip(i as int));
        let cand = match parse_tokens(sub) {
            Ok(Node::BadParse(inner)) => Some(*inner),
            Ok(e) => Some(e),
            Err(_) => None,
        };
        if let Some(c) = cand {
            let size = expr_size(&c);
            let better = match &best {
                Some((_, s)) => size > *s,
                None => true,
            };
            if size > 1 && better {
                best = Some((c, size));
            }
        }
        i = i + 1;
    }
    match best {
        Some((e, _)) => Some(e),
        None => None,
    }
}

} // verus!
