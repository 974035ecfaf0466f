use counter_parser::ast::{BinOpcode, Node, NumSource, UnaOpcode};
use counter_parser::dice::{die_face, roll, roll_total, FixedDraws, ThreadDraws};
use counter_parser::eval::{bitand, bitor, bitshift, bitxor, eval, eval_with, exp, factorial, Env, EvalError, Operator};
use counter_parser::query::{respond, Response};
use counter_parser::rational::{to_num, Num};

fn digits(v: i64) -> Box<Node> {
    Box::new(Node::Number(to_num(v), NumSource::Digits))
}

fn words(v: i64) -> Box<Node> {
    Box::new(Node::Number(to_num(v), NumSource::Words))
}

fn frac(n: i64, d: i64) -> Box<Node> {
    Box::new(Node::Number(Num::fraction(n, d), NumSource::Digits))
}

#[test]
fn test_eval() {
    let mut env = Env::new();
    env.insert("i".to_string(), to_num(2));

    assert_eq!(eval(&Node::Number(to_num(5), NumSource::Digits), &env).unwrap(), to_num(5));
    assert_eq!(eval(&Node::BinOp(BinOpcode::Add, digits(1), words(2)), &env).unwrap(), to_num(3));
    assert_eq!(
        eval(&Node::BinOp(BinOpcode::Add, Box::new(Node::Var("i".to_string())), words(2)), &env).unwrap(),
        to_num(4)
    );
    assert!(eval(&Node::BinOp(BinOpcode::Add, Box::new(Node::Var("j".to_string())), words(2)), &env).is_err());
}

#[test]
fn test_roll() {
    let total = roll(5, 2, &mut ThreadDraws::new());
    println!("1d2 -> {:?}", total.to_text());
    let text = total.to_text();
    let value: i64 = text.parse().unwrap();
    assert!(5 <= value && value <= 10);
}

#[test]
fn variables_and_unbound_names() {
    let mut env = Env::new();
    env.insert("i".to_string(), to_num(2));
    assert_eq!(eval(&Node::Var("i".to_string()), &env).unwrap(), to_num(2));
    assert_eq!(
        eval(&Node::Var("j".to_string()), &Env::new()),
        Err(EvalError::UnboundVariable("j".to_string()))
    );
    env.insert("i".to_string(), to_num(7));
    assert_eq!(eval(&Node::Var("i".to_string()), &env).unwrap(), to_num(7));
}

#[test]
fn factorial_edges() {
    assert_eq!(factorial(to_num(0)).unwrap(), to_num(1));
    assert_eq!(factorial(to_num(-3)).unwrap(), to_num(1));
    assert_eq!(factorial(to_num(5)).unwrap(), to_num(120));
    assert_eq!(factorial(to_num(25)).unwrap().to_text(), "15511210043330985984000000");
    assert_eq!(
        factorial(Num::fraction(1, 2)),
        Err(EvalError::NonIntegerOperand(Operator::Unary(UnaOpcode::Factorial)))
    );
}

#[test]
fn division_and_exact_fractions() {
    let env = Env::new();
    assert_eq!(eval(&Node::BinOp(BinOpcode::Div, digits(1), digits(0)), &env), Err(EvalError::DivisionByZero));
    assert_eq!(eval(&Node::BinOp(BinOpcode::Div, digits(1), digits(3)), &env).unwrap(), Num::fraction(1, 3));
    assert_eq!(eval(&Node::BinOp(BinOpcode::Div, digits(6), digits(-4)), &env).unwrap().to_text(), "-3/2");
    assert_eq!(eval(&Node::BinOp(BinOpcode::Sub, frac(1, 2), frac(1, 3)), &env).unwrap(), Num::fraction(1, 6));
    assert_eq!(eval(&Node::BinOp(BinOpcode::Mul, frac(2, 3), frac(3, 4)), &env).unwrap(), Num::fraction(1, 2));
}

#[test]
fn exponents() {
    assert_eq!(exp(to_num(2), to_num(10)).unwrap(), to_num(1024));
    assert_eq!(exp(to_num(2), to_num(-2)).unwrap(), Num::fraction(1, 4));
    assert_eq!(exp(Num::fraction(2, 3), to_num(2)).unwrap(), Num::fraction(4, 9));
    assert_eq!(exp(to_num(0), to_num(0)).unwrap(), to_num(1));
    assert_eq!(exp(to_num(2), Num::fraction(1, 2)), Err(EvalError::NonIntegerExponent));
    assert_eq!(exp(to_num(0), to_num(-1)), Err(EvalError::DivisionByZero));
}

#[test]
fn bitwise_operations() {
    assert_eq!(bitand(to_num(6), to_num(3)).unwrap(), to_num(2));
    assert_eq!(bitor(to_num(6), to_num(3)).unwrap(), to_num(7));
    assert_eq!(bitxor(to_num(6), to_num(3)).unwrap(), to_num(5));
    assert_eq!(bitand(to_num(-1), to_num(5)).unwrap(), to_num(5));
    assert_eq!(bitor(to_num(-8), to_num(3)).unwrap(), to_num(-5));
    assert_eq!(bitxor(to_num(-1), to_num(0)).unwrap(), to_num(-1));
    let half = Num::fraction(1, 2);
    assert_eq!(
        bitand(half.clone(), to_num(1)),
        Err(EvalError::NonIntegerOperand(Operator::Binary(BinOpcode::And)))
    );
    assert_eq!(
        bitor(to_num(1), half.clone()),
        Err(EvalError::NonIntegerOperand(Operator::Binary(BinOpcode::Or)))
    );
    assert_eq!(
        bitxor(half.clone(), half.clone()),
        Err(EvalError::NonIntegerOperand(Operator::Binary(BinOpcode::Xor)))
    );
}

#[test]
fn shifts() {
    let env = Env::new();
    let shl = |a: i64, b: i64| eval(&Node::BinOp(BinOpcode::LShift, digits(a), digits(b)), &env);
    let shr = |a: i64, b: i64| eval(&Node::BinOp(BinOpcode::RShift, digits(a), digits(b)), &env);
    assert_eq!(shl(1, 3).unwrap(), to_num(8));
    assert_eq!(shr(-5, 1).unwrap(), to_num(-3));
    assert_eq!(shr(1, -3).unwrap(), to_num(8));
    for a in [-37i64, -1, 0, 1, 5, 1000] {
        for b in [-4i64, -1, 0, 1, 2, 7] {
            assert_eq!(shl(a, -b), shr(a, b), "a = {}, b = {}", a, b);
        }
    }
    assert_eq!(
        bitshift(Num::fraction(1, 2), to_num(1)),
        Err(EvalError::NonIntegerOperand(Operator::Binary(BinOpcode::LShift)))
    );
    assert_eq!(
        eval(&Node::BinOp(BinOpcode::RShift, digits(1), frac(1, 2)), &env),
        Err(EvalError::NonIntegerOperand(Operator::Binary(BinOpcode::RShift)))
    );
    let huge = eval(&Node::BinOp(BinOpcode::Exp, digits(2), digits(70)), &env).unwrap();
    let minus_huge = eval(&Node::BinOp(BinOpcode::Sub, digits(0), Box::new(Node::Number(huge.clone(), NumSource::Digits))), &env).unwrap();
    assert_eq!(bitshift(to_num(1), huge.clone()), Err(EvalError::ShiftTooLarge));
    assert_eq!(bitshift(to_num(0), huge.clone()), Ok(to_num(0)));
    assert_eq!(bitshift(to_num(12345), minus_huge.clone()), Ok(to_num(0)));
    assert_eq!(bitshift(to_num(-12345), minus_huge.clone()), Ok(to_num(-1)));
    assert_eq!(
        eval(&Node::BinOp(BinOpcode::RShift, digits(-7), Box::new(Node::Number(huge, NumSource::Digits))), &env),
        Ok(to_num(-1))
    );
    let max = to_num(i64::MAX);
    assert_eq!(
        eval(&Node::BinOp(BinOpcode::RShift, digits(5), Box::new(Node::Number(max, NumSource::Digits))), &env),
        Ok(to_num(0))
    );
}

#[test]
fn calls_and_taint_fail() {
    let env = Env::new();
    assert_eq!(
        eval(&Node::Funcall("f".to_string(), vec![digits(1)]), &env),
        Err(EvalError::UnknownFunction("f".to_string()))
    );
    assert_eq!(eval(&Node::BadParse(digits(1)), &env), Err(EvalError::MalformedExpression));
}

#[test]
fn first_error_aborts() {
    let env = Env::new();
    let tree = Node::BinOp(
        BinOpcode::Add,
        Box::new(Node::BinOp(BinOpcode::Div, digits(1), digits(0))),
        Box::new(Node::Var("y".to_string())),
    );
    assert_eq!(eval(&tree, &env), Err(EvalError::DivisionByZero));
}

#[test]
fn dice() {
    let env = Env::new();
    for _ in 0..20 {
        let v = eval(&Node::Roll(3, 6), &env).unwrap().to_text();
        let k: i64 = v.parse().unwrap();
        assert!(3 <= k && k <= 18);
    }
    assert_eq!(eval(&Node::Roll(0, 6), &env).unwrap(), to_num(0));
    assert_eq!(eval(&Node::Roll(2, 0), &env), Err(EvalError::EmptyDie));
    assert_eq!(die_face(0, 6), 1);
    assert_eq!(die_face(17, 6), 6);
    assert_eq!(die_face(u64::MAX, 1), 1);
}

#[test]
fn evaluation_without_dice_is_deterministic() {
    let env = Env::new();
    let tree = Node::BinOp(BinOpcode::Exp, frac(3, 2), digits(3));
    assert_eq!(eval(&tree, &env), eval(&tree, &env));
    assert_eq!(eval(&tree, &env).unwrap(), Num::fraction(27, 8));
}

#[test]
fn numbers_render_in_lowest_terms() {
    assert_eq!(to_num(-12).to_text(), "-12");
    assert_eq!(Num::fraction(10, 4).to_text(), "5/2");
    assert_eq!(Num::fraction(0, -4).to_text(), "0");
}

#[test]
fn responses() {
    assert_eq!(respond("1 + 2"), Response::Good { val: Some("3".to_string()) });
    assert_eq!(respond("one half is 1 / 2"), Response::Good { val: Some("1/2".to_string()) });
    assert_eq!(respond(""), Response::Bad { message: "no good parse in ''".to_string() });
    assert_eq!(respond("1 / 0"), Response::Bad { message: "division by zero".to_string() });
    assert_eq!(respond("x"), Response::Bad { message: "unbound variable x".to_string() });
    assert_eq!(respond("f(2)"), Response::Bad { message: "unknown function f".to_string() });
    assert_eq!(respond("1 << (2 ^ 70)"), Response::Bad { message: "shift too large".to_string() });
    assert_eq!(
        respond("0.5 & 1"),
        Response::Bad { message: "non-integer operand of and".to_string() }
    );
}

#[test]
fn totals_follow_the_draws() {
    assert_eq!(roll_total(&vec![0, 1, 2], 6), to_num(6));
    assert_eq!(roll_total(&vec![5, 6, 13], 6), to_num(6 + 1 + 2));
    assert_eq!(roll_total(&vec![], 6), to_num(0));
    let mut source = FixedDraws::new(vec![3, 10]);
    assert_eq!(roll(3, 4, &mut source), to_num(4 + 3 + 4));
    assert_eq!(roll(0, 4, &mut source), to_num(0));
}

#[test]
fn injected_draws_make_dice_reproducible() {
    let env = Env::new();
    let tree = Node::BinOp(BinOpcode::Add, Box::new(Node::Roll(2, 6)), Box::new(Node::Roll(1, 20)));
    let first = eval_with(&tree, &env, &mut FixedDraws::new(vec![5, 0, 19]));
    let second = eval_with(&tree, &env, &mut FixedDraws::new(vec![5, 0, 19]));
    assert_eq!(first, second);
    assert_eq!(first.unwrap(), to_num(6 + 1 + 20));
}

#[test]
fn division_by_a_zero_valued_operand() {
    let env = Env::new();
    let zero = Node::BinOp(BinOpcode::Sub, digits(2), digits(2));
    assert_eq!(
        eval(&Node::BinOp(BinOpcode::Div, digits(7), Box::new(zero)), &env),
        Err(EvalError::DivisionByZero)
    );
    let no_dice = Node::Roll(0, 6);
    assert_eq!(
        eval(&Node::BinOp(BinOpcode::Div, digits(7), Box::new(no_dice)), &env),
        Err(EvalError::DivisionByZero)
    );
}
