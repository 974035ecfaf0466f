use vstd::prelude::*;
use crate::lexer::{lexemes, Lexeme, Token};

verus! {

pub open spec fn word_at(ts: Seq<Lexeme>, p: int) -> Option<u64> {
    if 0 <= p < ts.len() {
        match ts[p] {
            Lexeme::Word(v) => Some(v),
            _ => None,
        }
    } else {
        None
    }
}

/// A unit word, "zero" to "nine".
pub open spec fn unit_at(ts: Seq<Lexeme>, p: int) -> Option<u64> {
    match word_at(ts, p) {
        Some(v) => if v < 10 { Some(v) } else { None },
        None => None,
    }
}

/// Which power of a thousand a magnitude word names: 1 for "thousand" up to 4 for
/// "trillion"; 0 for any other token.
pub open spec fn scale_at(ts: Seq<Lexeme>, p: int) -> int {
    match word_at(ts, p) {
        Some(v) => if v == 1000 {
            1
        } else if v == 1000000 {
            2
        } else if v == 1000000000 {
            3
        } else if v == 1000000000000 {
            4
        } else {
            0
        },
        None => 0,
    }
}

pub open spec fn scale_value(k: int) -> int {
    if k <= 0 {
        1
    } else if k == 1 {
        1000
    } else if k == 2 {
        1000000
    } else if k == 3 {
        1000000000
    } else if k == 4 {
        1000000000000
    } else {
        1000000000000000
    }
}

/// A number below a hundred: a unit, a teen, or a tens word with an optional unit from
/// one to nine; with the position after it.
pub open spec fn small_at(ts: Seq<Lexeme>, p: int) -> Option<(int, int)> {
    match word_at(ts, p) {
        Some(v) => if v < 20 {
            Some((v as int, p + 1))
        } else if 20 <= v <= 90 && v % 10 == 0 {
            match unit_at(ts, p + 1) {
                Some(u) => if u >= 1 { Some((v + u, p + 2)) } else { Some((v as int, p + 1)) },
                None => Some((v as int, p + 1)),
            }
        } else {
            None
        },
        None => None,
    }
}

/// A number below a thousand: a unit word and "hundred", then an optional number below a
/// hundred; or a number below a hundred alone.
pub open spec fn group_at(ts: Seq<Lexeme>, p: int) -> Option<(int, int)> {
    match unit_at(ts, p) {
        Some(u) => if word_at(ts, p + 1) == Some(100u64) {
            match small_at(ts, p + 2) {
                Some((s, q)) => Some((u * 100 + s, q)),
                None => Some((u * 100, p + 2)),
            }
        } else {
            small_at(ts, p)
        },
        None => small_at(ts, p),
    }
}

/// The longest number phrase at `p` whose magnitude words all lie below `limit`, in
/// strictly decreasing order; with the position after it.
pub open spec fn phrase_at(ts: Seq<Lexeme>, p: int, limit: int) -> Option<(int, int)>
    decreases ts.len() - p,
{
    match group_at(ts, p) {
        None => None,
        Some((g, q)) => {
            let k = scale_at(ts, q);
            if p < q && 1 <= k < limit {
                match phrase_at(ts, q + 1, k) {
                    Some((r, q2)) => Some((g * scale_value(k) + r, q2)),
                    None => Some((g * scale_value(k), q + 1)),
                }
            } else {
                Some((g, q))
            }
        },
    }
}

proof fn lemma_small_bound(ts: Seq<Lexeme>, p: int)
    ensures
        small_at(ts, p) matches Some((v, q)) ==> 0 <= v < 100 && p < q <= ts.len(),
{
}

proof fn lemma_group_bound(ts: Seq<Lexeme>, p: int)
    ensures
        group_at(ts, p) matches Some((v, q)) ==> 0 <= v < 1000 && p < q <= ts.len(),
{
    lemma_small_bound(ts, p);
    lemma_small_bound(ts, p + 2);
}

pub proof fn lemma_phrase_bound(ts: Seq<Lexeme>, p: int, limit: int)
    requires
        1 <= limit <= 5,
    ensures
        phrase_at(ts, p, limit) matches Some((v, q)) ==> 0 <= v < scale_value(limit) && p < q
            <= ts.len(),
    decreases ts.len() - p,
{
    lemma_group_bound(ts, p);
    if let Some((g, q)) = group_at(ts, p) {
        let k = scale_at(ts, q);
        if p < q && 1 <= k < limit {
            lemma_phrase_bound(ts, q + 1, k);
            assert(g * scale_value(k) + scale_value(k) <= scale_value(limit)) by {
                assert(1 <= k <= 4);
                if k == 1 {
                } else if k == 2 {
                } else if k == 3 {
                } else {
                }
            }
        }
    }
}

fn word_tok(ts: &[(usize, Token, usize)], p: usize) -> (r: Option<u64>)
    ensures
        r == word_at(lexemes(ts@), p as int),
{
    if p < ts.len() {
        match &ts[p].1 {
            Token::Word(v) => Some(*v),
            _ => None,
        }
    } else {
        None
    }
}

fn unit_tok(ts: &[(usize, Token, usize)], p: usize) -> (r: Option<u64>)
    ensures
        r == unit_at(lexemes(ts@), p as int),
{
    match word_tok(ts, p) {
        Some(v) => if v < 10 { Some(v) } else { None },
        None => None,
    }
}

fn scale_tok(ts: &[(usize, Token, usize)], p: usize) -> (r: u64)
    ensures
        r as int == scale_at(lexemes(ts@), p as int),
{
    match word_tok(ts, p) {
        Some(v) => if v == 1000 {
            1
        } else if v == 1000000 {
            2
        } else if v == 1000000000 {
            3
        } else if v == 1000000000000 {
            4
        } else {
            0
        },
        None => 0,
    }
}

fn small(ts: &[(usize, Token, usize)], p: usize) -> (r: Option<(u64, usize)>)
    ensures
        match r {
            Some((v, q)) => small_at(lexemes(ts@), p as int) == Some((v as int, q as int)),
            None => small_at(lexemes(ts@), p as int) is None,
        },
{
    let len = ts.len();
    match word_tok(ts, p) {
        Some(v) => if v < 20 {
            Some((v, p + 1))
        } else if 20 <= v && v <= 90 && v % 10 == 0 {
            match unit_tok(ts, p + 1) {
                Some(u) => if u >= 1 { Some((v + u, p + 2)) } else { Some((v, p + 1)) },
                None => Some((v, p + 1)),
            }
        } else {
            None
        },
        None => None,
    }
}

fn group(ts: &[(usize, Token, usize)], p: usize) -> (r: Option<(u64, usize)>)
    ensures
        match r {
            Some((v, q)) => group_at(lexemes(ts@), p as int) == Some((v as int, q as int)),
            None => group_at(lexemes(ts@), p as int) is None,
        },
{
    let len = ts.len();
    match unit_tok(ts, p) {
        Some(u) => if word_tok(ts, p + 1) == Some(100u64) {
            proof {
                lemma_small_bound(lexemes(ts@), p + 2);
            }
            match small(ts, p + 2) {
                Some((s, q)) => Some((u * 100 + s, q)),
                None => Some((u * 100, p + 2)),
            }
        } else {
            small(ts, p)
        },
        None => small(ts, p),
    }
}

fn scale_num(k: u64) -> (r: u64)
    requires
        1 <= k <= 4,
    ensures
        r as int == scale_value(k as int),
{
    if k == 1 {
        1000
    } else if k == 2 {
        1000000
    } else if k == 3 {
        1000000000
    } else {
        1000000000000
    }
}

/// The value and end of the longest number phrase at `p` whose magnitudes lie below `limit`.
pub fn phrase(ts: &[(usize, Token, usize)], p: usize, limit: u64) -> (r: Option<(u64, usize)>)
    requires
        1 <= limit <= 5,
    ensures
        match r {
            Some((v, q)) => phrase_at(lexemes(ts@), p as int, limit as int) == Some((v as int, q as int)),
            None => phrase_at(lexemes(ts@), p as int, limit as int) is None,
        },
    decreases ts@.len() - p,
{
    let ghost l = lexemes(ts@);
    let len = ts.len();
    proof {
        lemma_group_bound(l, p as int);
        lemma_phrase_bound(l, p as int, limit as int);
    }
    match group(ts, p) {
        None => None,
        Some((g, q)) => {
            let k = scale_tok(ts, q);
            if p < q && 1 <= k && k < limit {
                let m = scale_num(k);
                assert(q < len);
                proof {
                    lemma_phrase_bound(l, q + 1, k as int);
                    assert(g * m + m <= scale_value(limit as int)) by {
                        if k == 1 {
                        } else if k == 2 {
                        } else if k == 3 {
                        } else {
                        }
                    }
                }
                match phrase(ts, q + 1, k) {
                    Some((rest, q2)) => Some((g * m + rest, q2)),
                    None => Some((g * m, q + 1)),
                }
            } else {
                Some((g, q))
            }
        },
    }
}

} // verus!
