use counter_parser::ast::{BinOpcode, Node, NumSource, UnaOpcode};
use counter_parser::parser::{number_words, parse, parse_tokens};
use counter_parser::rational::to_num;
use counter_parser::resolve::{best_parse, expr_size};
use counter_parser::lexer::TokenLexer;

fn digits(v: i64) -> Box<Node> {
    Box::new(Node::Number(to_num(v), NumSource::Digits))
}

fn words(v: i64) -> Box<Node> {
    Box::new(Node::Number(to_num(v), NumSource::Words))
}

#[test]
fn test_terms() {
    let cases = vec![
        ("(42)", Node::Number(to_num(42), NumSource::Digits)),
        ("one hundred fifty + 3", Node::BinOp(BinOpcode::Add, words(150), digits(3))),
    ];
    for (string, expected) in cases {
        let parsed = parse(string);
        assert!(parsed.is_ok(), "Failed to parse {:?}: {:?}", string, parsed);
        assert_eq!(parsed.unwrap(), expected, "String parsed to the wrong expr: {:?}", string);
    }
}

#[test]
fn test_numword_parser() {
    let cases = [
        ("one hundred five", 105),
        ("one hundred twenty two", 122),
        ("one hundred fifteen", 115),
        ("fifteen", 15),
        ("zero hundred fifteen", 15),
        ("two", 2),
        ("one thousand", 1000),
        ("twenty", 20),
        ("twenty thousand", 20000),
        ("twenty thousand five hundred fifteen", 20515),
        ("one hundred twenty three thousand five hundred fifteen", 123515),
        ("one million two thousand three", 1_002_003),
    ];
    for (string, num) in cases.iter() {
        let parsed = number_words(string);
        assert!(parsed.is_some(), "Failed to parse {:?}", string);
        assert_eq!(parsed.unwrap(), *num, "String parsed to the wrong number: {:?}", string);
    }
}

#[test]
fn test_numword_parser_fails() {
    let cases = [
        "ten one",
        "eleven hundred",
        "one thousand million",
        "one thousand two million",
        "one thousand two thousand",
    ];
    for string in cases.iter() {
        let parsed = number_words(string);
        assert!(parsed.is_none(), "Parsing {:?} incorrectly succeeded, with {:?}", string, parsed);
    }
}

#[test]
fn test_precedence() {
    let cases = vec![
        (
            "1 + 2 * 3",
            Node::BinOp(BinOpcode::Add, digits(1), Box::new(Node::BinOp(BinOpcode::Mul, digits(2), digits(3)))),
        ),
        (
            "1 * 2 + 3",
            Node::BinOp(BinOpcode::Add, Box::new(Node::BinOp(BinOpcode::Mul, digits(1), digits(2))), digits(3)),
        ),
    ];
    for (string, expected) in cases {
        assert_eq!(parse(string).unwrap(), expected, "Wrong parse");
    }
}

#[test]
fn scan_once() {
    let string = "one + 2 and some junk";
    let mut lexer = TokenLexer::new(string);
    let mut tokens = Vec::new();
    while let Some(t) = lexer.next_token() {
        tokens.push(t);
    }
    let parsed = parse_tokens(&tokens);
    println!("{:?} -> {:?}", string, parsed);
}

#[test]
fn test_best_parse() {
    let string = "one + 2";
    let best = best_parse(string);
    println!("Best parse for {:?} is {:?}", string, best);
    assert_eq!(best, Some(Node::BinOp(BinOpcode::Add, words(1), digits(2))));
}

#[test]
fn noise_after_words_is_dropped() {
    assert_eq!(best_parse("one + 2 and some junk"), best_parse("one + 2"));
    assert_eq!(
        best_parse("one + 2 and some junk"),
        Some(Node::BinOp(BinOpcode::Add, words(1), digits(2)))
    );
    assert_eq!(best_parse("one + 2 junk"), best_parse("one + 2"));
    assert_eq!(
        best_parse("one hundred fifty + 3"),
        Some(Node::BinOp(BinOpcode::Add, words(150), digits(3)))
    );
}

#[test]
fn spelled_operators_join_complete_expressions() {
    assert_eq!(parse("6 and 3").unwrap(), Node::BinOp(BinOpcode::And, digits(6), digits(3)));
    assert_eq!(
        parse("2 plus 3 times 4").unwrap(),
        Node::BinOp(BinOpcode::Add, digits(2), Box::new(Node::BinOp(BinOpcode::Mul, digits(3), digits(4))))
    );
    assert_eq!(
        parse("1 + 2 and some junk").unwrap(),
        Node::BadParse(Box::new(Node::BinOp(BinOpcode::Add, digits(1), digits(2))))
    );
    assert_eq!(
        parse("1 & x junk").unwrap(),
        Node::BadParse(Box::new(Node::BinOp(BinOpcode::And, digits(1), Box::new(Node::Var("x".to_string())))))
    );
    assert_eq!(
        parse("minus 4").unwrap(),
        Node::BinOp(BinOpcode::Sub, digits(0), digits(4))
    );
}

#[test]
fn noise_before_an_expression_is_skipped() {
    assert_eq!(
        best_parse("please compute 4 * 5"),
        Some(Node::BinOp(BinOpcode::Mul, digits(4), digits(5)))
    );
}

#[test]
fn larger_later_candidate_wins() {
    // From offset 0 only `1` parses; from `2` on a larger expression does.
    assert_eq!(
        best_parse("1 ) 2 + 3 * 4"),
        Some(Node::BinOp(
            BinOpcode::Add,
            digits(2),
            Box::new(Node::BinOp(BinOpcode::Mul, digits(3), digits(4)))
        ))
    );
}

#[test]
fn equal_sizes_keep_the_earlier_candidate() {
    assert_eq!(
        best_parse("1 + 2 ) 3 + 4"),
        Some(Node::BinOp(BinOpcode::Add, digits(1), digits(2)))
    );
}

#[test]
fn lone_leftovers_are_no_parse() {
    assert_eq!(best_parse(""), None);
    assert_eq!(best_parse(") 7"), None);
    assert_eq!(best_parse("junk )"), None);
}

#[test]
fn complete_single_term_takes_the_fast_path() {
    assert_eq!(best_parse("42"), Some(Node::Number(to_num(42), NumSource::Digits)));
}

#[test]
fn fast_path_matches_full_parse() {
    let text = "2 ^ 3 ^ 2 - 4 / x";
    assert_eq!(best_parse(text), Some(parse(text).unwrap()));
}

#[test]
fn parsing_is_deterministic() {
    let text = "one + 2 and some junk";
    assert_eq!(best_parse(text), best_parse(text));
    assert_eq!(parse(text), parse(text));
}

#[test]
fn exponent_is_right_associative_and_above_negation() {
    assert_eq!(
        parse("2 ^ 3 ^ 2").unwrap(),
        Node::BinOp(BinOpcode::Exp, digits(2), Box::new(Node::BinOp(BinOpcode::Exp, digits(3), digits(2))))
    );
    assert_eq!(
        parse("- 2 ^ 2").unwrap(),
        Node::BinOp(
            BinOpcode::Sub,
            digits(0),
            Box::new(Node::BinOp(BinOpcode::Exp, digits(2), digits(2)))
        )
    );
}

#[test]
fn operator_levels() {
    assert_eq!(
        parse("1 or 2 and 3").unwrap(),
        Node::BinOp(BinOpcode::Or, digits(1), Box::new(Node::BinOp(BinOpcode::And, digits(2), digits(3))))
    );
    assert_eq!(
        parse("1 << 2 + 3").unwrap(),
        Node::BinOp(BinOpcode::LShift, digits(1), Box::new(Node::BinOp(BinOpcode::Add, digits(2), digits(3))))
    );
    assert_eq!(
        parse("3 ! !").unwrap(),
        Node::UnaOp(
            UnaOpcode::Factorial,
            Box::new(Node::UnaOp(UnaOpcode::Factorial, digits(3)))
        )
    );
}

#[test]
fn function_calls_parse() {
    assert_eq!(
        parse("f(1, x)").unwrap(),
        Node::Funcall(
            "f".to_string(),
            vec![digits(1), Box::new(Node::Var("x".to_string()))]
        )
    );
    assert_eq!(parse("g()").unwrap(), Node::Funcall("g".to_string(), vec![]));
}

#[test]
fn incomplete_input_is_tainted() {
    assert_eq!(parse("1 + (2").unwrap(), Node::BadParse(digits(1)));
    assert!(parse(")").is_err());
    assert!(parse("").is_err());
}

#[test]
fn sizes_follow_the_metric() {
    assert_eq!(expr_size(&Node::Number(to_num(1), NumSource::Digits)), 1);
    assert_eq!(expr_size(&Node::Roll(1, 6)), 2);
    assert_eq!(expr_size(&parse("1 + 2 * 3").unwrap()), 5);
    assert_eq!(expr_size(&parse("f(1, 2d6)").unwrap()), 4);
    assert_eq!(expr_size(&parse("3 !").unwrap()), 2);
    assert_eq!(expr_size(&Node::BadParse(digits(1))), 1);
}
