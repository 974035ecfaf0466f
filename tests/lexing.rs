use counter_parser::ast::BinOpcode;
use counter_parser::lexer::{tokenize, Token, TokenLexer};
use counter_parser::rational::{to_num, Num};

fn only_token(text: &str) -> Token {
    let mut toks = tokenize(text);
    assert_eq!(toks.len(), 1, "{:?} gave {:?}", text, toks);
    toks.pop().unwrap().1
}

#[test]
fn test_lexer() {
    let input = "12 + + asdf asdf  zero";
    let toks = tokenize(input);
    for (s, tok, e) in toks.iter() {
        println!("Token {:?} from {:?}", tok, &input[*s..*e]);
    }
    assert_eq!(
        toks,
        vec![
            (0, Token::Digits(to_num(12)), 2),
            (3, Token::Plus, 4),
            (5, Token::Plus, 6),
            (7, Token::Var("asdf".to_string()), 11),
            (12, Token::Var("asdf".to_string()), 16),
            (18, Token::Word(0), 22),
        ]
    );
}

#[test]
fn test_parse_roll() {
    assert_eq!(only_token("3d7"), Token::Roll((3, 7)));
    assert_eq!(only_token("d8"), Token::Roll((1, 8)));
}

#[test]
fn test_parse_radix() {
    assert_eq!(only_token("12"), Token::Digits(to_num(12)));
    assert_eq!(only_token("1.5"), Token::Digits(Num::fraction(3, 2)));
    assert_eq!(only_token(".05"), Token::Digits(Num::fraction(1, 20)));
    assert_eq!(only_token("50."), Token::Digits(to_num(50)));
    assert_eq!(only_token("-50."), Token::Digits(to_num(-50)));
    assert_eq!(only_token("0x10.1"), Token::Digits(Num::fraction(257, 16)));
    assert_eq!(only_token("-0x10.1"), Token::Digits(Num::fraction(-257, 16)));
    assert_eq!(only_token("-0x.1"), Token::Digits(Num::fraction(-1, 16)));
    assert_eq!(only_token("-0x1."), Token::Digits(to_num(-1)));
    assert_eq!(only_token("0x1."), Token::Digits(to_num(1)));
}

#[test]
fn other_radixes() {
    assert_eq!(only_token("0b101"), Token::Digits(to_num(5)));
    assert_eq!(only_token("0o17"), Token::Digits(to_num(15)));
    assert_eq!(only_token("0xff"), Token::Digits(to_num(255)));
    assert_eq!(only_token("0b1.1"), Token::Digits(Num::fraction(3, 2)));
    match only_token("123456789012345678901234567890") {
        Token::Digits(n) => assert_eq!(n.to_text(), "123456789012345678901234567890"),
        other => panic!("not a number: {:?}", other),
    }
}

#[test]
fn literal_and_operator_edges() {
    assert_eq!(only_token("-5"), Token::Digits(to_num(-5)));
    assert_eq!(only_token("-"), Token::Minus);
    assert_eq!(only_token("<<"), Token::LShift);
    assert_eq!(only_token("SHIFT"), Token::WordOp(BinOpcode::LShift));
    assert_eq!(only_token("Plus"), Token::WordOp(BinOpcode::Add));
    assert_eq!(only_token("+"), Token::Plus);
    assert_eq!(only_token("XOR"), Token::WordOp(BinOpcode::Xor));
    assert_eq!(only_token("and"), Token::WordOp(BinOpcode::And));
    assert_eq!(only_token("&"), Token::And);
    assert_eq!(only_token("Trillion"), Token::Word(1_000_000_000_000));
    assert_eq!(only_token("seventeen"), Token::Word(17));
    assert_eq!(only_token("ones"), Token::Var("ones".to_string()));
    assert_eq!(only_token("d6x"), Token::Var("d6x".to_string()));
    assert_eq!(only_token("0d5"), Token::Roll((0, 5)));
    assert_eq!(only_token("99999999999999999999d6"), Token::Roll((1, 6)));
    assert_eq!(only_token("2d99999999999999999999"), Token::Unknown);
    assert_eq!(only_token("#"), Token::Unknown);
    assert_eq!(only_token("é"), Token::Unknown);
    let toks = tokenize("3d");
    assert_eq!(toks, vec![(0, Token::Digits(to_num(3)), 1), (1, Token::Var("d".to_string()), 2)]);
    let toks = tokenize("1-5");
    assert_eq!(toks, vec![(0, Token::Digits(to_num(1)), 1), (1, Token::Digits(to_num(-5)), 3)]);
}

#[test]
fn lexing_restarts_at_any_token() {
    let input = "12 + + asdf asdf  zero 0x1.8 (3d6) <<";
    let all = tokenize(input);
    for i in 0..all.len() {
        let start = all[i].0;
        let rest = tokenize(&input[start..]);
        let expected: Vec<(usize, Token, usize)> =
            all[i..].iter().map(|(s, t, e)| (s - start, t.clone_token(), e - start)).collect();
        assert_eq!(rest, expected);
    }
}

#[test]
fn token_lexer_hands_out_the_same_tokens() {
    let input = "one + 2 and some junk";
    let mut lexer = TokenLexer::new(input);
    let mut seen = Vec::new();
    while let Some(t) = lexer.next_token() {
        seen.push(t);
    }
    assert_eq!(seen, tokenize(input));
}

trait CloneToken {
    fn clone_token(&self) -> Token;
}

impl CloneToken for Token {
    fn clone_token(&self) -> Token {
        match self {
            Token::Digits(n) => Token::Digits(n.clone()),
            Token::Var(v) => Token::Var(v.clone()),
            Token::Roll(d) => Token::Roll(*d),
            Token::Word(w) => Token::Word(*w),
            Token::Plus => Token::Plus,
            Token::Minus => Token::Minus,
            Token::Times => Token::Times,
            Token::Slash => Token::Slash,
            Token::Hat => Token::Hat,
            Token::Excl => Token::Excl,
            Token::LParen => Token::LParen,
            Token::RParen => Token::RParen,
            Token::Comma => Token::Comma,
            Token::And => Token::And,
            Token::Or => Token::Or,
            Token::WordOp(op) => Token::WordOp(*op),
            Token::LShift => Token::LShift,
            Token::RShift => Token::RShift,
            Token::Unknown => Token::Unknown,
        }
    }
}

#[test]
fn unicode_white_space_is_skipped() {
    let toks = tokenize("1\u{a0}+\u{3000}2\u{2029}");
    assert_eq!(
        toks,
        vec![(0, Token::Digits(to_num(1)), 1), (3, Token::Plus, 4), (7, Token::Digits(to_num(2)), 8)]
    );
}
