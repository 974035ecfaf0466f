use vstd::prelude::*;
use vstd::utf8::{decode_utf8, encode_utf8, is_ascii_chars, is_char_boundary, pop_first_scalar, valid_first_scalar, valid_utf8};
use vstd::arithmetic::power::{lemma1_pow, lemma_pow_positive, pow};
use vstd::string::StringSliceAdditionalSpecFns;
use crate::ast::BinOpcode;
use crate::rational::{lemma_norm_int, num_from_u64, num_add, num_div, num_mul, num_pow, num_to_i64, parse_digits, to_num, rat_add, rat_div, rat_mul, rat_of, rat_pow, Num, Rat};

verus! {

/// A lexical token. Number words carry their value (`Word(1000)` is "thousand").
#[derive(Debug, PartialEq)]
pub enum Token {
    Plus,
    Minus,
    Times,
    Slash,
    Hat,
    Excl,
    LParen,
    RParen,
    Comma,
    And,
    Or,
    LShift,
    RShift,
    /// An operator spelled as a word: "plus", "minus", "times", "and", "or", "xor"
    /// or "shift".
    WordOp(BinOpcode),
    /// Dice: (count, sides).
    Roll((i64, i64)),
    Digits(Num),
    Var(String),
    Word(u64),
    Unknown,
}

/// The content of a `Token`.
pub enum Lexeme {
    Plus,
    Minus,
    Times,
    Slash,
    Hat,
    Excl,
    LParen,
    RParen,
    Comma,
    And,
    Or,
    LShift,
    RShift,
    WordOp(BinOpcode),
    Roll(i64, i64),
    Digits(Rat),
    Var(Seq<char>),
    Word(u64),
    Unknown,
}

impl View for Token {
    type V = Lexeme;

    open spec fn view(&self) -> Lexeme {
        match self {
            Token::Plus => Lexeme::Plus,
            Token::Minus => Lexeme::Minus,
            Token::Times => Lexeme::Times,
            Token::Slash => Lexeme::Slash,
            Token::Hat => Lexeme::Hat,
            Token::Excl => Lexeme::Excl,
            Token::LParen => Lexeme::LParen,
            Token::RParen => Lexeme::RParen,
            Token::Comma => Lexeme::Comma,
            Token::And => Lexeme::And,
            Token::Or => Lexeme::Or,
            Token::LShift => Lexeme::LShift,
            Token::RShift => Lexeme::RShift,
            Token::WordOp(op) => Lexeme::WordOp(*op),
            Token::Roll(d) => Lexeme::Roll(d.0, d.1),
            Token::Digits(n) => Lexeme::Digits(n@),
            Token::Var(v) => Lexeme::Var(v@),
            Token::Word(w) => Lexeme::Word(*w),
            Token::Unknown => Lexeme::Unknown,
        }
    }
}

pub open spec fn is_space(c: u8) -> bool {
    c == 0x20 || (0x09 <= c && c <= 0x0d)
}

/// Length of the white-space character at the start of `s`, or 0: ASCII blanks and the
/// other Unicode white-space characters in their UTF-8 form.
pub open spec fn space_len(s: Seq<u8>) -> int {
    if s.len() >= 1 && is_space(s[0]) {
        1
    } else if s.len() >= 2 && s[0] == 0xc2 && (s[1] == 0x85 || s[1] == 0xa0) {
        2
    } else if s.len() >= 3 && ((s[0] == 0xe1 && s[1] == 0x9a && s[2] == 0x80) || (s[0] == 0xe2
        && s[1] == 0x80 && ((0x80 <= s[2] && s[2] <= 0x8a) || s[2] == 0xa8 || s[2] == 0xa9 || s[2]
        == 0xaf)) || (s[0] == 0xe2 && s[1] == 0x81 && s[2] == 0x9f) || (s[0] == 0xe3 && s[1] == 0x80
        && s[2] == 0x80)) {
        3
    } else {
        0
    }
}

pub open spec fn is_alpha(c: u8) -> bool {
    (0x41 <= c && c <= 0x5a) || (0x61 <= c && c <= 0x7a)
}

pub open spec fn is_ident_char(c: u8) -> bool {
    is_alpha(c) || (0x30 <= c && c <= 0x39) || c == 0x5f
}

pub open spec fn is_digit_in(c: u8, radix: nat) -> bool {
    if radix == 16 {
        (0x30 <= c && c <= 0x39) || (0x41 <= c && c <= 0x46) || (0x61 <= c && c <= 0x66)
    } else {
        0x30 <= c && c < 0x30 + radix
    }
}

pub open spec fn digit_of(c: u8) -> nat {
    if c <= 0x39 {
        (c - 0x30) as nat
    } else if c <= 0x46 {
        (c - 0x41 + 10) as nat
    } else {
        (c - 0x61 + 10) as nat
    }
}

/// Value of digits in `radix`, most significant first.
pub open spec fn digits_value(ds: Seq<u8>, radix: nat) -> nat
    decreases ds.len(),
{
    if ds.len() == 0 {
        0
    } else {
        digits_value(ds.drop_last(), radix) * radix + digit_of(ds.last())
    }
}

/// Number of digits of `radix` in `s` from index `i` on.
pub open spec fn run_len(s: Seq<u8>, i: int, radix: nat) -> int
    decreases s.len() - i,
{
    if 0 <= i < s.len() && is_digit_in(s[i], radix) {
        1 + run_len(s, i + 1, radix)
    } else {
        0
    }
}

/// Number of identifier characters in `s` from index `i` on.
pub open spec fn ident_len(s: Seq<u8>, i: int) -> int
    decreases s.len() - i,
{
    if 0 <= i < s.len() && is_ident_char(s[i]) {
        1 + ident_len(s, i + 1)
    } else {
        0
    }
}

pub open spec fn byte_at(s: Seq<u8>, i: int) -> int {
    if 0 <= i < s.len() { s[i] as int } else { -1 }
}

/// Length of `digits`, `digits.digits*` or `.digits` at `i` (0 when none is there).
pub open spec fn body_len(s: Seq<u8>, i: int, radix: nat) -> int {
    let k = run_len(s, i, radix);
    if k >= 1 {
        if byte_at(s, i + k) == 0x2e { k + 1 + run_len(s, i + k + 1, radix) } else { k }
    } else if byte_at(s, i) == 0x2e && run_len(s, i + 1, radix) >= 1 {
        1 + run_len(s, i + 1, radix)
    } else {
        0
    }
}

pub open spec fn sign_len(s: Seq<u8>) -> int {
    if byte_at(s, 0) == 0x2d { 1 } else { 0 }
}

/// The radix that a `0x`, `0o` or `0b` prefix after the sign names, when digits follow it.
pub open spec fn prefix_radix(s: Seq<u8>) -> nat {
    let g = sign_len(s);
    let r: nat = if byte_at(s, g + 1) == 0x78 { 16 } else if byte_at(s, g + 1) == 0x6f { 8 } else if byte_at(s, g + 1) == 0x62 { 2 } else { 0 };
    if byte_at(s, g) == 0x30 && r != 0 && body_len(s, g + 2, r) > 0 { r } else { 10 }
}

/// Where the digits of a numeric literal start.
pub open spec fn body_start(s: Seq<u8>) -> int {
    if prefix_radix(s) == 10 { sign_len(s) } else { sign_len(s) + 2 }
}

/// Length of the numeric literal at the start of `s` (0 when none is there).
pub open spec fn literal_len(s: Seq<u8>) -> int {
    let b = body_len(s, body_start(s), prefix_radix(s));
    if b > 0 { body_start(s) + b } else { 0 }
}

/// Exact value of the literal: sign times (integer part + fraction digits / radix^count).
pub open spec fn literal_value(s: Seq<u8>) -> Rat {
    let r = prefix_radix(s);
    let i = body_start(s);
    let k = run_len(s, i, r);
    let end = literal_len(s);
    let whole = s.subrange(i, i + k);
    let frac = if i + k < end { s.subrange(i + k + 1, end) } else { Seq::empty() };
    let sign: int = if sign_len(s) == 1 { -1 } else { 1 };
    rat_mul(
        rat_of(sign),
        rat_add(
            rat_of(digits_value(whole, r) as int),
            rat_div(rat_of(digits_value(frac, r) as int), rat_pow(rat_of(r as int), frac.len() as int)),
        ),
    )
}

/// Length of the dice literal `[count](d|D)sides` at the start of `s` (0 when none is there).
pub open spec fn roll_len(s: Seq<u8>) -> int {
    let a = run_len(s, 0, 10);
    let c = run_len(s, a + 1, 10);
    if (byte_at(s, a) == 0x64 || byte_at(s, a) == 0x44) && c >= 1 { a + 1 + c } else { 0 }
}

/// The dice literal's count (1 when absent or too large) and sides, if the sides fit.
pub open spec fn roll_lexeme(s: Seq<u8>) -> Lexeme {
    let a = run_len(s, 0, 10);
    let count = digits_value(s.take(a), 10);
    let sides = digits_value(s.subrange(a + 1, roll_len(s)), 10);
    if sides > i64::MAX {
        Lexeme::Unknown
    } else {
        Lexeme::Roll(if a == 0 || count > i64::MAX { 1 } else { count as i64 }, sides as i64)
    }
}

pub open spec fn lower(c: u8) -> u8 {
    if 0x41 <= c && c <= 0x5a { (c + 32) as u8 } else { c }
}

/// `w` spells the ASCII word `kw`, ignoring the case of letters.
pub open spec fn spells(w: Seq<u8>, kw: Seq<char>) -> bool {
    is_ascii_chars(kw) && w.len() == kw.len() && forall|i: int|
        0 <= i < w.len() ==> lower(#[trigger] w[i]) == kw[i] as u8
}

pub open spec fn keyword(w: Seq<u8>) -> Option<Lexeme> {
    if spells(w, "plus"@) { Some(Lexeme::WordOp(BinOpcode::Add)) }
    else if spells(w, "minus"@) { Some(Lexeme::WordOp(BinOpcode::Sub)) }
    else if spells(w, "times"@) { Some(Lexeme::WordOp(BinOpcode::Mul)) }
    else if spells(w, "and"@) { Some(Lexeme::WordOp(BinOpcode::And)) }
    else if spells(w, "or"@) { Some(Lexeme::WordOp(BinOpcode::Or)) }
    else if spells(w, "xor"@) { Some(Lexeme::WordOp(BinOpcode::Xor)) }
    else if spells(w, "shift"@) { Some(Lexeme::WordOp(BinOpcode::LShift)) }
    else { match number_word(w) { Some(v) => Some(Lexeme::Word(v)), None => None } }
}

pub open spec fn number_word(w: Seq<u8>) -> Option<u64> {
    if spells(w, "zero"@) { Some(0) }
    else if spells(w, "one"@) { Some(1) }
    else if spells(w, "two"@) { Some(2) }
    else if spells(w, "three"@) { Some(3) }
    else if spells(w, "four"@) { Some(4) }
    else if spells(w, "five"@) { Some(5) }
    else if spells(w, "six"@) { Some(6) }
    else if spells(w, "seven"@) { Some(7) }
    else if spells(w, "eight"@) { Some(8) }
    else if spells(w, "nine"@) { Some(9) }
    else if spells(w, "ten"@) { Some(10) }
    else if spells(w, "eleven"@) { Some(11) }
    else if spells(w, "twelve"@) { Some(12) }
    else if spells(w, "thirteen"@) { Some(13) }
    else if spells(w, "fourteen"@) { Some(14) }
    else if spells(w, "fifteen"@) { Some(15) }
    else if spells(w, "sixteen"@) { Some(16) }
    else if spells(w, "seventeen"@) { Some(17) }
    else if spells(w, "eighteen"@) { Some(18) }
    else if spells(w, "nineteen"@) { Some(19) }
    else if spells(w, "twenty"@) { Some(20) }
    else if spells(w, "thirty"@) { Some(30) }
    else if spells(w, "forty"@) { Some(40) }
    else if spells(w, "fifty"@) { Some(50) }
    else if spells(w, "sixty"@) { Some(60) }
    else if spells(w, "seventy"@) { Some(70) }
    else if spells(w, "eighty"@) { Some(80) }
    else if spells(w, "ninety"@) { Some(90) }
    else if spells(w, "hundred"@) { Some(100) }
    else if spells(w, "thousand"@) { Some(1000) }
    else if spells(w, "million"@) { Some(1000000) }
    else if spells(w, "billion"@) { Some(1000000000) }
    else if spells(w, "trillion"@) { Some(1000000000000) }
    else { None }
}

pub open spec fn symbol(c: u8) -> Option<Lexeme> {
    if c == 0x2b { Some(Lexeme::Plus) }
    else if c == 0x2d { Some(Lexeme::Minus) }
    else if c == 0x2a { Some(Lexeme::Times) }
    else if c == 0x2f { Some(Lexeme::Slash) }
    else if c == 0x5e { Some(Lexeme::Hat) }
    else if c == 0x21 { Some(Lexeme::Excl) }
    else if c == 0x28 { Some(Lexeme::LParen) }
    else if c == 0x29 { Some(Lexeme::RParen) }
    else if c == 0x2c { Some(Lexeme::Comma) }
    else if c == 0x26 { Some(Lexeme::And) }
    else if c == 0x7c { Some(Lexeme::Or) }
    else { None }
}

/// Bytes in the UTF-8 character that starts with `c`, as far as `s` reaches.
pub open spec fn char_width(s: Seq<u8>) -> int {
    let w: int = if s[0] < 0xc0 { 1 } else if s[0] < 0xe0 { 2 } else if s[0] < 0xf0 { 3 } else { 4 };
    if w <= s.len() { w } else { s.len() as int }
}

/// The token at the start of `s` and its length in bytes: the longest match among the
/// token rules, a word or dice literal winning a tie with an identifier.
pub open spec fn scan(s: Seq<u8>) -> (Lexeme, int) {
    let c = s[0];
    if is_alpha(c) {
        let n = ident_len(s, 0);
        if roll_len(s) == n {
            (roll_lexeme(s), n)
        } else {
            match keyword(s.take(n)) {
                Some(k) => (k, n),
                None => (Lexeme::Var(decode_utf8(s.take(n))), n),
            }
        }
    } else if (0x30 <= c && c <= 0x39) || c == 0x2d || c == 0x2e {
        let lit = literal_len(s);
        let rl = roll_len(s);
        if rl > lit {
            (roll_lexeme(s), rl)
        } else if lit > 0 {
            (Lexeme::Digits(literal_value(s)), lit)
        } else if c == 0x2d {
            (Lexeme::Minus, 1)
        } else {
            (Lexeme::Unknown, 1)
        }
    } else if c == 0x3c && byte_at(s, 1) == 0x3c {
        (Lexeme::LShift, 2)
    } else if c == 0x3e && byte_at(s, 1) == 0x3e {
        (Lexeme::RShift, 2)
    } else {
        match symbol(c) {
            Some(k) => (k, 1),
            None => (Lexeme::Unknown, char_width(s)),
        }
    }
}

/// The tokens of `b` from byte `p` on, each with its byte span; white space is skipped.
pub open spec fn lex_from(b: Seq<u8>, p: int) -> Seq<(int, Lexeme, int)>
    decreases b.len() - p,
{
    if p < 0 || p >= b.len() {
        Seq::empty()
    } else if space_len(b.skip(p)) > 0 {
        lex_from(b, p + space_len(b.skip(p)))
    } else {
        let (k, n) = scan(b.skip(p));
        if n < 1 || p + n > b.len() {
            Seq::empty()
        } else {
            seq![(p, k, p + n)] + lex_from(b, p + n)
        }
    }
}

/// Spans measured from `d` bytes later.
pub open spec fn shift_spans(ts: Seq<(int, Lexeme, int)>, d: int) -> Seq<(int, Lexeme, int)> {
    ts.map_values(|t: (int, Lexeme, int)| (t.0 - d, t.1, t.2 - d))
}

proof fn lemma_lex_suffix(b: Seq<u8>, q: int, p: int)
    requires
        0 <= q <= p,
        q <= b.len(),
    ensures
        lex_from(b.skip(q), p - q) == shift_spans(lex_from(b, p), q),
    decreases b.len() - p,
{
    let c = b.skip(q);
    if p >= b.len() {
        assert(shift_spans(lex_from(b, p), q) =~= Seq::empty());
    } else if space_len(b.skip(p)) > 0 {
        assert(c.skip(p - q) =~= b.skip(p));
        lemma_lex_suffix(b, q, p + space_len(b.skip(p)));
    } else {
        assert(c.skip(p - q) =~= b.skip(p));
        assert(scan(c.skip(p - q)) == scan(b.skip(p)));
        let (k, n) = scan(b.skip(p));
        if n >= 1 && p + n <= b.len() {
            lemma_lex_suffix(b, q, p + n);
            assert(shift_spans(lex_from(b, p), q) =~= seq![(p - q, k, p + n - q)] + shift_spans(
                lex_from(b, p + n),
                q,
            ));
        } else {
            assert(shift_spans(lex_from(b, p), q) =~= Seq::empty());
        }
    }
}

proof fn lemma_lex_tail(b: Seq<u8>, p: int, i: int)
    requires
        0 <= i < lex_from(b, p).len(),
    ensures
        lex_from(b, p).skip(i) == lex_from(b, lex_from(b, p)[i].0),
    decreases b.len() - p,
{
    if p < 0 || p >= b.len() {
    } else if space_len(b.skip(p)) > 0 {
        lemma_lex_tail(b, p + space_len(b.skip(p)), i);
    } else {
        let (k, n) = scan(b.skip(p));
        if n >= 1 && p + n <= b.len() {
            if i == 0 {
                assert(lex_from(b, p).skip(0) =~= lex_from(b, p));
            } else {
                lemma_lex_tail(b, p + n, i - 1);
                assert(lex_from(b, p).skip(i) =~= lex_from(b, p + n).skip(i - 1));
            }
        }
    }
}

/// Lexing may restart at any token: the text from the start of token `i` on lexes to
/// tokens `i..` of the whole text, with spans measured from that start.
pub proof fn lemma_restartable(b: Seq<u8>, i: int)
    requires
        0 <= i < lex_from(b, 0).len(),
    ensures
        lex_from(b.skip(lex_from(b, 0)[i].0), 0) == shift_spans(lex_from(b, 0).skip(i), lex_from(b, 0)[i].0),
{
    let start = lex_from(b, 0)[i].0;
    lemma_lex_start(b, 0, i);
    lemma_lex_bound(b, 0, i);
    lemma_lex_tail(b, 0, i);
    lemma_lex_suffix(b, start, start);
}

proof fn lemma_lex_bound(b: Seq<u8>, p: int, i: int)
    requires
        0 <= i < lex_from(b, p).len(),
    ensures
        lex_from(b, p)[i].0 < b.len(),
    decreases b.len() - p,
{
    if p < 0 || p >= b.len() {
    } else if space_len(b.skip(p)) > 0 {
        lemma_lex_bound(b, p + space_len(b.skip(p)), i);
    } else {
        let (k, n) = scan(b.skip(p));
        if n >= 1 && p + n <= b.len() && i > 0 {
            lemma_lex_bound(b, p + n, i - 1);
        }
    }
}

proof fn lemma_lex_start(b: Seq<u8>, p: int, i: int)
    requires
        0 <= p,
        0 <= i < lex_from(b, p).len(),
    ensures
        p <= lex_from(b, p)[i].0,
    decreases b.len() - p,
{
    if p < 0 || p >= b.len() {
    } else if space_len(b.skip(p)) > 0 {
        lemma_lex_start(b, p + space_len(b.skip(p)), i);
    } else {
        let (k, n) = scan(b.skip(p));
        if n >= 1 && p + n <= b.len() && i > 0 {
            lemma_lex_start(b, p + n, i - 1);
        }
    }
}

pub open spec fn lexemes(v: Seq<(usize, Token, usize)>) -> Seq<Lexeme> {
    v.map_values(|t: (usize, Token, usize)| t.1@)
}

pub open spec fn spans_view(v: Seq<(usize, Token, usize)>) -> Seq<(int, Lexeme, int)> {
    v.map_values(|t: (usize, Token, usize)| (t.0 as int, t.1@, t.2 as int))
}

fn digit_in(c: u8, radix: u32) -> (r: bool)
    ensures
        r == is_digit_in(c, radix as nat),
{
    if radix == 16 {
        (0x30 <= c && c <= 0x39) || (0x41 <= c && c <= 0x46) || (0x61 <= c && c <= 0x66)
    } else {
        0x30 <= c && (c as u64) < 0x30 + radix as u64
    }
}

fn is_ident_byte(c: u8) -> (r: bool)
    ensures
        r == is_ident_char(c),
{
    (0x41 <= c && c <= 0x5a) || (0x61 <= c && c <= 0x7a) || (0x30 <= c && c <= 0x39) || c == 0x5f
}

fn byte(s: &[u8], i: usize) -> (r: i16)
    ensures
        r as int == byte_at(s@, i as int),
{
    if i < s.len() { s[i] as i16 } else { -1 }
}

fn digit_run(s: &[u8], i: usize, radix: u32) -> (r: usize)
    requires
        i <= s@.len(),
    ensures
        r as int == run_len(s@, i as int, radix as nat),
        i + r <= s@.len(),
{
    let mut k = i;
    while k < s.len() && digit_in(s[k], radix)
        invariant
            i <= k <= s@.len(),
            run_len(s@, i as int, radix as nat) == (k - i) + run_len(s@, k as int, radix as nat),
        decreases s@.len() - k,
    {
        k = k + 1;
    }
    k - i
}

fn ident_run(s: &[u8]) -> (r: usize)
    ensures
        r as int == ident_len(s@, 0),
        r <= s@.len(),
{
    let mut k: usize = 0;
    while k < s.len() && is_ident_byte(s[k])
        invariant
            k <= s@.len(),
            ident_len(s@, 0) == k + ident_len(s@, k as int),
        decreases s@.len() - k,
    {
        k = k + 1;
    }
    k
}

fn body(s: &[u8], i: usize, radix: u32) -> (r: usize)
    requires
        i <= s@.len(),
    ensures
        r as int == body_len(s@, i as int, radix as nat),
        i + r <= s@.len(),
{
    let len = s.len();
    let k = digit_run(s, i, radix);
    if k >= 1 {
        if i + k < len && s[i + k] == 0x2e {
            k + 1 + digit_run(s, i + k + 1, radix)
        } else {
            k
        }
    } else if i < len && s[i] == 0x2e && digit_run(s, i + 1, radix) >= 1 {
        1 + digit_run(s, i + 1, radix)
    } else {
        0
    }
}

/// The radix, start of the digits and length of the numeric literal at the start of `s`.
fn literal(s: &[u8]) -> (r: (u32, usize, usize))
    ensures
        r.0 as nat == prefix_radix(s@),
        r.1 as int == body_start(s@),
        r.2 as int == literal_len(s@),
        r.2 <= s@.len(),
        r.2 > 0 ==> r.1 < r.2,
{
    let g: usize = if byte(s, 0) == 0x2d { 1 } else { 0 };
    let c = byte(s, g + 1);
    let r: u32 = if c == 0x78 { 16 } else if c == 0x6f { 8 } else if c == 0x62 { 2 } else { 0 };
    let (radix, start) = if byte(s, g) == 0x30 && r != 0 && g + 2 <= s.len() && body(s, g + 2, r) > 0 {
        (r, g + 2)
    } else {
        (10, g)
    };
    if start > s.len() {
        return (radix, start, 0);
    }
    let b = body(s, start, radix);
    if b > 0 {
        (radix, start, start + b)
    } else {
        (radix, start, 0)
    }
}

fn roll_length(s: &[u8]) -> (r: usize)
    ensures
        r as int == roll_len(s@),
        r <= s@.len(),
{
    let a = digit_run(s, 0, 10);
    if a < s.len() && (s[a] == 0x64 || s[a] == 0x44) {
        let c = digit_run(s, a + 1, 10);
        if c >= 1 {
            return a + 1 + c;
        }
    }
    0
}

fn lower_byte(c: u8) -> (r: u8)
    ensures
        r == lower(c),
{
    if 0x41 <= c && c <= 0x5a { c + 32 } else { c }
}

/// Whether the first `n` bytes of `s` spell `kw`.
fn spells_at(s: &[u8], n: usize, kw: &str) -> (r: bool)
    requires
        n <= s@.len(),
    ensures
        r == spells(s@.take(n as int), kw@),
{
    if !kw.is_ascii() {
        return false;
    }
    let k = kw.as_bytes();
    proof {
        vstd::utf8::is_ascii_chars_encode_utf8(kw@);
    }
    assert(k@.len() == kw@.len());
    if k.len() != n {
        return false;
    }
    let mut i: usize = 0;
    while i < n
        invariant
            n == k@.len(),
            n <= s@.len(),
            k@.len() == kw@.len(),
            forall|j: int| 0 <= j < n ==> k@[j] == kw@[j] as u8,
            forall|j: int| 0 <= j < i ==> lower(#[trigger] s@.take(n as int)[j]) == kw@[j] as u8,
        decreases n - i,
    {
        if lower_byte(s[i]) != k[i] {
            assert(lower(s@.take(n as int)[i as int]) != kw@[i as int] as u8);
            return false;
        }
        i = i + 1;
    }
    true
}

fn number_word_at(s: &[u8], n: usize) -> (r: Option<u64>)
    requires
        n <= s@.len(),
    ensures
        r == number_word(s@.take(n as int)),
{
    if spells_at(s, n, "zero") {
        return Some(0);
    }
    if spells_at(s, n, "one") {
        return Some(1);
    }
    if spells_at(s, n, "two") {
        return Some(2);
    }
    if spells_at(s, n, "three") {
        return Some(3);
    }
    if spells_at(s, n, "four") {
        return Some(4);
    }
    if spells_at(s, n, "five") {
        return Some(5);
    }
    if spells_at(s, n, "six") {
        return Some(6);
    }
    if spells_at(s, n, "seven") {
        return Some(7);
    }
    if spells_at(s, n, "eight") {
        return Some(8);
    }
    if spells_at(s, n, "nine") {
        return Some(9);
    }
    if spells_at(s, n, "ten") {
        return Some(10);
    }
    if spells_at(s, n, "eleven") {
        return Some(11);
    }
    if spells_at(s, n, "twelve") {
        return Some(12);
    }
    if spells_at(s, n, "thirteen") {
        return Some(13);
    }
    if spells_at(s, n, "fourteen") {
        return Some(14);
    }
    if spells_at(s, n, "fifteen") {
        return Some(15);
    }
    if spells_at(s, n, "sixteen") {
        return Some(16);
    }
    if spells_at(s, n, "seventeen") {
        return Some(17);
    }
    if spells_at(s, n, "eighteen") {
        return Some(18);
    }
    if spells_at(s, n, "nineteen") {
        return Some(19);
    }
    if spells_at(s, n, "twenty") {
        return Some(20);
    }
    if spells_at(s, n, "thirty") {
        return Some(30);
    }
    if spells_at(s, n, "forty") {
        return Some(40);
    }
    if spells_at(s, n, "fifty") {
        return Some(50);
    }
    if spells_at(s, n, "sixty") {
        return Some(60);
    }
    if spells_at(s, n, "seventy") {
        return Some(70);
    }
    if spells_at(s, n, "eighty") {
        return Some(80);
    }
    if spells_at(s, n, "ninety") {
        return Some(90);
    }
    if spells_at(s, n, "hundred") {
        return Some(100);
    }
    if spells_at(s, n, "thousand") {
        return Some(1000);
    }
    if spells_at(s, n, "million") {
        return Some(1000000);
    }
    if spells_at(s, n, "billion") {
        return Some(1000000000);
    }
    if spells_at(s, n, "trillion") {
        return Some(1000000000000);
    }
    None
}

fn keyword_at(s: &[u8], n: usize) -> (r: Option<Token>)
    requires
        n <= s@.len(),
    ensures
        match r {
            Some(t) => keyword(s@.take(n as int)) == Some(t@),
            None => keyword(s@.take(n as int)) is None,
        },
{
    if spells_at(s, n, "plus") {
        return Some(Token::WordOp(BinOpcode::Add));
    }
    if spells_at(s, n, "minus") {
        return Some(Token::WordOp(BinOpcode::Sub));
    }
    if spells_at(s, n, "times") {
        return Some(Token::WordOp(BinOpcode::Mul));
    }
    if spells_at(s, n, "and") {
        return Some(Token::WordOp(BinOpcode::And));
    }
    if spells_at(s, n, "or") {
        return Some(Token::WordOp(BinOpcode::Or));
    }
    if spells_at(s, n, "xor") {
        return Some(Token::WordOp(BinOpcode::Xor));
    }
    if spells_at(s, n, "shift") {
        return Some(Token::WordOp(BinOpcode::LShift));
    }
    match number_word_at(s, n) {
        Some(v) => Some(Token::Word(v)),
        None => None,
    }
}

proof fn lemma_run_digits(s: Seq<u8>, i: int, radix: nat)
    requires
        0 <= i,
    ensures
        i + run_len(s, i, radix) <= s.len() || run_len(s, i, radix) == 0,
        forall|j: int| i <= j < i + run_len(s, i, radix) ==> is_digit_in(#[trigger] s[j], radix),
    decreases s.len() - i,
{
    if 0 <= i < s.len() && is_digit_in(s[i], radix) {
        lemma_run_digits(s, i + 1, radix);
    }
}

/// The value of the digits `s[a..b]` in `radix`; zero when there are none.
fn digits_num(s: &[u8], a: usize, b: usize, radix: u32) -> (r: Num)
    requires
        a <= b <= s@.len(),
        radix == 2 || radix == 8 || radix == 10 || radix == 16,
        forall|j: int| a <= j < b ==> is_digit_in(#[trigger] s@[j], radix as nat),
    ensures
        r@ == rat_of(digits_value(s@.subrange(a as int, b as int), radix as nat) as int),
{
    if a == b {
        assert(s@.subrange(a as int, b as int).len() == 0);
        to_num(0)
    } else {
        parse_digits(s, a, b, radix)
    }
}

fn literal_num(s: &[u8]) -> (r: Num)
    requires
        literal_len(s@) > 0,
    ensures
        r@ == literal_value(s@),
{
    let len = s.len();
    let (radix, start, end) = literal(s);
    assert(start < end && end <= len);
    let k = digit_run(s, start, radix);
    assert(start + k <= s@.len());
    proof {
        lemma_run_digits(s@, start as int, radix as nat);
    }
    let whole = digits_num(s, start, start + k, radix);
    let (fs, fe) = if start + k < end {
        (start + k + 1, end)
    } else {
        (end, end)
    };
    proof {
        lemma_run_digits(s@, fs as int, radix as nat);
    }
    let frac = digits_num(s, fs, fe, radix);
    let m = fe - fs;
    let scale = num_pow(&to_num(radix as i64), &num_from_u64(m as u64));
    proof {
        lemma1_pow(m as nat);
        lemma_pow_positive(radix as int, m as nat);
        lemma_norm_int(pow(radix as int, m as nat));
    }
    let part = num_div(&frac, &scale);
    let sign = to_num(if s[0] == 0x2d { -1 } else { 1 });
    proof {
        if fs == fe {
            assert(s@.subrange(fs as int, fe as int) =~= Seq::<u8>::empty());
        }
    }
    num_mul(&sign, &num_add(&whole, &part))
}

fn roll_token(s: &[u8], n: usize) -> (r: Token)
    requires
        n as int == roll_len(s@),
        n > 0,
    ensures
        r@ == roll_lexeme(s@),
{
    let a = digit_run(s, 0, 10);
    proof {
        lemma_run_digits(s@, 0, 10);
        lemma_run_digits(s@, a + 1, 10);
    }
    let sides = digits_num(s, a + 1, n, 10);
    match num_to_i64(&sides) {
        None => Token::Unknown,
        Some(sd) => {
            assert(s@.subrange(0, a as int) =~= s@.take(a as int));
            let count = if a == 0 {
                1
            } else {
                match num_to_i64(&digits_num(s, 0, a, 10)) {
                    Some(c) => c,
                    None => 1,
                }
            };
            Token::Roll((count, sd))
        },
    }
}

proof fn lemma_boundary_after_ascii(b: Seq<u8>, i: int)
    requires
        valid_utf8(b),
        0 <= i < b.len(),
        b[i] < 0x80,
    ensures
        is_char_boundary(b, i + 1),
{
    broadcast use vstd::utf8::is_char_boundary_iff_not_is_continuation_byte,
        vstd::utf8::is_char_boundary_start_end_of_seq;

    if i + 1 < b.len() {
        vstd::utf8::is_char_boundary_iff_not_is_continuation_byte(b, i);
        vstd::utf8::is_char_boundary_iff_not_is_continuation_byte(b, i + 1);
        assert(is_char_boundary(b, i));
        vstd::utf8::valid_utf8_split(b, i);
        let t = b.subrange(i, b.len() as int);
        assert(valid_utf8(t));
        let u = pop_first_scalar(t);
        assert(u =~= b.subrange(i + 1, b.len() as int));
        assert(valid_utf8(u));
        assert(valid_first_scalar(u));
        assert(u[0] == b[i + 1]);
    }
}

proof fn lemma_ident_chars(s: Seq<u8>, i: int)
    requires
        0 <= i,
    ensures
        ident_len(s, i) >= 0,
        forall|j: int| i <= j < i + ident_len(s, i) ==> #[trigger] is_ident_char(s[j]) && j < s.len(),
    decreases s.len() - i,
{
    if 0 <= i < s.len() && is_ident_char(s[i]) {
        lemma_ident_chars(s, i + 1);
    }
}

fn symbol_token(c: u8) -> (r: Option<Token>)
    ensures
        match r {
            Some(t) => symbol(c) == Some(t@),
            None => symbol(c) is None,
        },
{
    if c == 0x2b { Some(Token::Plus) }
    else if c == 0x2d { Some(Token::Minus) }
    else if c == 0x2a { Some(Token::Times) }
    else if c == 0x2f { Some(Token::Slash) }
    else if c == 0x5e { Some(Token::Hat) }
    else if c == 0x21 { Some(Token::Excl) }
    else if c == 0x28 { Some(Token::LParen) }
    else if c == 0x29 { Some(Token::RParen) }
    else if c == 0x2c { Some(Token::Comma) }
    else if c == 0x26 { Some(Token::And) }
    else if c == 0x7c { Some(Token::Or) }
    else { None }
}

/// The text of bytes `p .. p + n` of `text`, which are ASCII identifier characters.
fn ident_text(text: &str, p: usize, n: usize) -> (r: String)
    requires
        n >= 1,
        p + n <= text.spec_bytes().len(),
        forall|j: int| p <= j < p + n ==> is_ident_char(#[trigger] text.spec_bytes()[j]),
    ensures
        r@ == decode_utf8(text.spec_bytes().subrange(p as int, (p + n) as int)),
{
    let ghost b = text.spec_bytes();
    let blen = text.as_bytes().len();
    assert(p + n <= blen);
    proof {
        vstd::utf8::encode_utf8_valid_utf8(text@);
        assert(is_ident_char(b[p + n - 1]));
        lemma_boundary_after_ascii(b, p + n - 1);
    }
    let (head, _) = text.split_at(p + n);
    proof {
        vstd::utf8::encode_utf8_valid_utf8(head@);
        assert(head.spec_bytes()[p as int] == b[p as int]);
        assert(is_ident_char(b[p as int]));
        vstd::utf8::is_char_boundary_iff_not_is_continuation_byte(head.spec_bytes(), p as int);
    }
    let (_, word) = head.split_at(p);
    proof {
        vstd::utf8::encode_utf8_decode_utf8(word@);
        assert(word.spec_bytes() =~= b.subrange(p as int, (p + n) as int));
    }
    word.to_owned()
}

fn char_width_of(s: &[u8]) -> (r: usize)
    requires
        s@.len() >= 1,
    ensures
        r as int == char_width(s@),
{
    let w: usize = if s[0] < 0xc0 { 1 } else if s[0] < 0xe0 { 2 } else if s[0] < 0xf0 { 3 } else { 4 };
    if w <= s.len() { w } else { s.len() }
}

/// The token at byte `p` of `text` and its length in bytes.
fn scan_token(text: &str, p: usize) -> (r: (Token, usize))
    requires
        p < text.spec_bytes().len(),
    ensures
        r.0@ == scan(text.spec_bytes().skip(p as int)).0,
        r.1 as int == scan(text.spec_bytes().skip(p as int)).1,
        1 <= r.1 <= text.spec_bytes().len() - p,
{
    let b = text.as_bytes();
    let s = vstd::slice::slice_subrange(b, p, b.len());
    assert(s@ =~= b@.skip(p as int));
    let c = s[0];
    if (0x41 <= c && c <= 0x5a) || (0x61 <= c && c <= 0x7a) {
        let n = ident_run(s);
        proof {
            lemma_ident_chars(s@, 1);
        }
        assert(is_ident_char(s@[0]) && ident_len(s@, 0) == 1 + ident_len(s@, 1));
        let rl = roll_length(s);
        if rl == n {
            return (roll_token(s, n), n);
        }
        match keyword_at(s, n) {
            Some(t) => (t, n),
            None => {
                proof {
                    lemma_ident_chars(s@, 0);
                    assert forall|j: int| p <= j < p + n implies is_ident_char(#[trigger] b@[j]) by {
                        assert(b@[j] == s@[j - p]);
                    }
                    assert(s@.take(n as int) =~= b@.subrange(p as int, (p + n) as int));
                }
                (Token::Var(ident_text(text, p, n)), n)
            },
        }
    } else if (0x30 <= c && c <= 0x39) || c == 0x2d || c == 0x2e {
        let (_, _, lit) = literal(s);
        let rl = roll_length(s);
        if rl > lit {
            (roll_token(s, rl), rl)
        } else if lit > 0 {
            (Token::Digits(literal_num(s)), lit)
        } else if c == 0x2d {
            (Token::Minus, 1)
        } else {
            (Token::Unknown, 1)
        }
    } else if c == 0x3c && byte(s, 1) == 0x3c {
        (Token::LShift, 2)
    } else if c == 0x3e && byte(s, 1) == 0x3e {
        (Token::RShift, 2)
    } else {
        match symbol_token(c) {
            Some(t) => (t, 1),
            None => (Token::Unknown, char_width_of(s)),
        }
    }
}

fn space_width(s: &[u8]) -> (r: usize)
    ensures
        r as int == space_len(s@),
{
    let n = s.len();
    if n >= 1 && (s[0] == 0x20 || (0x09 <= s[0] && s[0] <= 0x0d)) {
        1
    } else if n >= 2 && s[0] == 0xc2 && (s[1] == 0x85 || s[1] == 0xa0) {
        2
    } else if n >= 3 && ((s[0] == 0xe1 && s[1] == 0x9a && s[2] == 0x80) || (s[0] == 0xe2 && s[1]
        == 0x80 && ((0x80 <= s[2] && s[2] <= 0x8a) || s[2] == 0xa8 || s[2] == 0xa9 || s[2] == 0xaf))
        || (s[0] == 0xe2 && s[1] == 0x81 && s[2] == 0x9f) || (s[0] == 0xe3 && s[1] == 0x80 && s[2]
        == 0x80)) {
        3
    } else {
        0
    }
}

/// Length of the white space at byte `p` of `b`, or 0.
fn space_at(b: &[u8], p: usize) -> (r: usize)
    requires
        p <= b@.len(),
    ensures
        r as int == space_len(b@.skip(p as int)),
        p + r <= b@.len(),
{
    let s = vstd::slice::slice_subrange(b, p, b.len());
    assert(s@ =~= b@.skip(p as int));
    space_width(s)
}

/// Splits `text` into tokens with their byte spans.
pub fn tokenize(text: &str) -> (r: Vec<(usize, Token, usize)>)
    ensures
        spans_view(r@) == lex_from(text.spec_bytes(), 0),
{
    let b = text.as_bytes();
    let mut out: Vec<(usize, Token, usize)> = Vec::new();
    let mut p: usize = 0;
    while p < b.len()
        invariant
            b@ == text.spec_bytes(),
            p <= b@.len(),
            lex_from(b@, 0) == spans_view(out@) + lex_from(b@, p as int),
        decreases b@.len() - p,
    {
        let ghost before = out@;
        let w = space_at(b, p);
        if w > 0 {
            p = p + w;
        } else {
            let (t, n) = scan_token(text, p);
            out.push((p, t, p + n));
            proof {
                assert(spans_view(out@) =~= spans_view(before) + seq![(p as int, out@.last().1@, (p + n) as int)]);
                assert(lex_from(b@, p as int) == seq![(p as int, out@.last().1@, (p + n) as int)] + lex_from(b@, (p + n) as int));
            }
            p = p + n;
        }
    }
    proof {
        assert(spans_view(out@) + lex_from(b@, p as int) =~= spans_view(out@));
    }
    out
}

/// Hands out the tokens of a text one at a time.
pub struct TokenLexer {
    text: String,
    pos: usize,
}

impl TokenLexer {
    /// The tokens not handed out yet.
    pub closed spec fn remaining(&self) -> Seq<(int, Lexeme, int)> {
        lex_from(encode_utf8(self.text@), self.pos as int)
    }

    pub fn new(input: &str) -> (r: TokenLexer)
        ensures
            r.remaining() == lex_from(input.spec_bytes(), 0),
    {
        TokenLexer { text: input.to_owned(), pos: 0 }
    }

    /// The next token with its byte span, or `None` at the end of the text.
    pub fn next_token(&mut self) -> (r: Option<(usize, Token, usize)>)
        ensures
            match r {
                Some(t) => old(self).remaining() == seq![(t.0 as int, t.1@, t.2 as int)] + final(self).remaining(),
                None => old(self).remaining().len() == 0,
            },
    {
        let text = self.text.as_str();
        let b = text.as_bytes();
        while self.pos < b.len() && space_at(b, self.pos) > 0
            invariant
                b@ == text.spec_bytes(),
                text@ == self.text@,
                lex_from(b@, old(self).pos as int) == lex_from(b@, self.pos as int),
            decreases b@.len() - self.pos,
        {
            self.pos = self.pos + space_at(b, self.pos);
        }
        if self.pos >= b.len() {
            return None;
        }
        let p = self.pos;
        let (t, n) = scan_token(text, p);
        self.pos = p + n;
        Some((p, t, p + n))
    }
}

} // verus!
