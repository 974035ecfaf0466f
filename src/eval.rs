use vstd::prelude::*;
use crate::ast::{BinOpcode, Node, Tree, UnaOpcode};
use crate::dice::{faces_total, lemma_faces_bounds, roll, DrawSource, ThreadDraws};
use crate::rational::{
    bitwise, lemma_norm_int, norm, num_add, num_bitand, num_bitor, num_bitxor, num_div,
    num_is_integer, num_le, num_mul, num_pow, num_shl, num_shr, num_sub, num_to_i64, pow2,
    rat_add, rat_div, rat_mul, rat_of, rat_pow, rat_sub, to_num, BitwiseOp, Num, Rat,
};

verus! {

/// The operator whose operand had to be an integer.
#[derive(Debug, PartialEq, Eq, Clone, Copy)]
pub enum Operator {
    Unary(UnaOpcode),
    Binary(BinOpcode),
}

#[derive(Debug, PartialEq, Eq)]
pub enum EvalError {
    UnboundVariable(String),
    UnknownFunction(String),
    NonIntegerOperand(Operator),
    NonIntegerExponent,
    DivisionByZero,
    MalformedExpression,
    /// A roll of one or more dice that have fewer than one side.
    EmptyDie,
    /// A left shift of a nonzero integer by more than `i64::MAX` bits.
    ShiftTooLarge,
}

/// The content of an `EvalError`.
pub enum Fault {
    UnboundVariable(Seq<char>),
    UnknownFunction(Seq<char>),
    NonIntegerOperand(Operator),
    NonIntegerExponent,
    DivisionByZero,
    MalformedExpression,
    EmptyDie,
    ShiftTooLarge,
}

impl View for EvalError {
    type V = Fault;

    open spec fn view(&self) -> Fault {
        match self {
            EvalError::UnboundVariable(v) => Fault::UnboundVariable(v@),
            EvalError::UnknownFunction(f) => Fault::UnknownFunction(f@),
            EvalError::NonIntegerOperand(op) => Fault::NonIntegerOperand(*op),
            EvalError::NonIntegerExponent => Fault::NonIntegerExponent,
            EvalError::DivisionByZero => Fault::DivisionByZero,
            EvalError::MalformedExpression => Fault::MalformedExpression,
            EvalError::EmptyDie => Fault::EmptyDie,
            EvalError::ShiftTooLarge => Fault::ShiftTooLarge,
        }
    }
}

pub open spec fn outcome(r: Result<Num, EvalError>) -> Result<Rat, Fault> {
    match r {
        Ok(v) => Ok(v@),
        Err(e) => Err(e@),
    }
}

/// Values of variables: a later binding of a name hides an earlier one.
pub struct Env {
    entries: Vec<(String, Num)>,
}

pub open spec fn bindings(s: Seq<(String, Num)>) -> Map<Seq<char>, Rat>
    decreases s.len(),
{
    if s.len() == 0 {
        Map::empty()
    } else {
        bindings(s.drop_last()).insert(s.last().0@, s.last().1@)
    }
}

impl View for Env {
    type V = Map<Seq<char>, Rat>;

    closed spec fn view(&self) -> Map<Seq<char>, Rat> {
        bindings(self.entries@)
    }
}

impl Env {
    pub fn new() -> (r: Env)
        ensures
            r@ == Map::<Seq<char>, Rat>::empty(),
    {
        Env { entries: Vec::new() }
    }

    pub fn insert(&mut self, name: String, value: Num)
        ensures
            final(self)@ == old(self)@.insert(name@, value@),
    {
        self.entries.push((name, value));
        proof {
            assert(self.entries@.drop_last() =~= old(self).entries@);
        }
    }

    pub fn get(&self, name: &String) -> (r: Option<Num>)
        ensures
            match r {
                Some(v) => self@.contains_key(name@) && v@ == self@[name@],
                None => !self@.contains_key(name@),
            },
    {
        let mut i = self.entries.len();
        assert(self.entries@.take(i as int) =~= self.entries@);
        while i > 0
            invariant
                i <= self.entries.len(),
                bindings(self.entries@).contains_key(name@) == bindings(
                    self.entries@.take(i as int),
                ).contains_key(name@),
                bindings(self.entries@).contains_key(name@) ==> bindings(self.entries@)[name@]
                    == bindings(self.entries@.take(i as int))[name@],
            decreases i,
        {
            let ghost prefix = self.entries@.take(i as int);
            assert(prefix.drop_last() =~= self.entries@.take(i - 1));
            if self.entries[i - 1].0 == *name {
                return Some(self.entries[i - 1].1.clone());
            }
            i = i - 1;
        }
        assert(self.entries@.take(0) =~= Seq::<(String, Num)>::empty());
        None
    }
}

pub open spec fn factorial_of(n: int) -> int
    decreases n,
{
    if n < 2 { 1 } else { n * factorial_of(n - 1) }
}

/// The dice of a tree in left-to-right order, as (count, sides).
pub open spec fn roll_leaves(t: Tree) -> Seq<(i64, i64)>
    decreases t,
{
    match t {
        Tree::Roll(n, s) => seq![(n, s)],
        Tree::UnaOp(_, a) => roll_leaves(*a),
        Tree::BinOp(_, l, r) => roll_leaves(*l) + roll_leaves(*r),
        _ => Seq::empty(),
    }
}

/// `k` is a total that `count` dice of `sides` sides can show.
pub open spec fn roll_ok(die: (i64, i64), k: int) -> bool {
    die.0 <= 0 || die.1 < 1 || (die.0 <= k && k <= die.0 * die.1)
}

/// One possible total for each die of the tree.
pub open spec fn valid_rolls(t: Tree, rolls: Seq<int>) -> bool {
    rolls.len() == roll_leaves(t).len() && forall|i: int|
        0 <= i < rolls.len() ==> #[trigger] roll_ok(roll_leaves(t)[i], rolls[i])
}

pub open spec fn shift_amount(op: BinOpcode, b: Rat) -> Rat {
    if op == BinOpcode::RShift { rat_sub(rat_of(0), b) } else { b }
}

/// `a` shifted left by `k` bits, or right by `-k` bits (rounding down) when `k` is not
/// positive.
pub open spec fn shift_spec(op: BinOpcode, a: Rat, k: Rat) -> Result<Rat, Fault> {
    if a.1 != 1 || k.1 != 1 {
        Err(Fault::NonIntegerOperand(Operator::Binary(op)))
    } else if k.0 > 0 {
        if k.0 > i64::MAX && a.0 != 0 {
            Err(Fault::ShiftTooLarge)
        } else {
            Ok(rat_of(a.0 * pow2(k.0 as nat)))
        }
    } else {
        Ok(rat_of(a.0 / pow2((-k.0) as nat)))
    }
}

pub open spec fn bitwise_spec(op: BinOpcode, bop: BitwiseOp, a: Rat, b: Rat) -> Result<Rat, Fault> {
    if a.1 == 1 && b.1 == 1 {
        Ok(rat_of(bitwise(bop, a.0, b.0)))
    } else {
        Err(Fault::NonIntegerOperand(Operator::Binary(op)))
    }
}

pub open spec fn exp_spec(a: Rat, b: Rat) -> Result<Rat, Fault> {
    if b.1 != 1 {
        Err(Fault::NonIntegerExponent)
    } else if a.0 == 0 && b.0 < 0 {
        Err(Fault::DivisionByZero)
    } else {
        Ok(rat_pow(a, b.0))
    }
}

pub open spec fn apply_bin(op: BinOpcode, a: Rat, b: Rat) -> Result<Rat, Fault> {
    match op {
        BinOpcode::Add => Ok(rat_add(a, b)),
        BinOpcode::Sub => Ok(rat_sub(a, b)),
        BinOpcode::Mul => Ok(rat_mul(a, b)),
        BinOpcode::Div => if b.0 == 0 { Err(Fault::DivisionByZero) } else { Ok(rat_div(a, b)) },
        BinOpcode::Exp => exp_spec(a, b),
        BinOpcode::And => bitwise_spec(op, BitwiseOp::And, a, b),
        BinOpcode::Or => bitwise_spec(op, BitwiseOp::Or, a, b),
        BinOpcode::Xor => bitwise_spec(op, BitwiseOp::Xor, a, b),
        BinOpcode::LShift => shift_spec(op, a, shift_amount(op, b)),
        BinOpcode::RShift => shift_spec(op, a, shift_amount(op, b)),
    }
}

pub open spec fn factorial_spec(a: Rat) -> Result<Rat, Fault> {
    if a.1 == 1 {
        Ok(rat_of(factorial_of(a.0)))
    } else {
        Err(Fault::NonIntegerOperand(Operator::Unary(UnaOpcode::Factorial)))
    }
}

/// The value of `t` under `env`, where the dice show `rolls` in left-to-right order.
pub open spec fn eval_tree(t: Tree, env: Map<Seq<char>, Rat>, rolls: Seq<int>) -> Result<Rat, Fault>
    decreases t,
{
    match t {
        Tree::Number(v, _) => Ok(v),
        Tree::Roll(n, s) => if n <= 0 {
            Ok(rat_of(0))
        } else if s < 1 {
            Err(Fault::EmptyDie)
        } else {
            Ok(rat_of(rolls[0]))
        },
        Tree::Var(x) => if env.contains_key(x) {
            Ok(env[x])
        } else {
            Err(Fault::UnboundVariable(x))
        },
        Tree::UnaOp(UnaOpcode::Factorial, a) => match eval_tree(*a, env, rolls) {
            Ok(v) => factorial_spec(v),
            Err(e) => Err(e),
        },
        Tree::BinOp(op, l, r) => {
            let k = roll_leaves(*l).len() as int;
            match eval_tree(*l, env, rolls.take(k)) {
                Ok(a) => match eval_tree(*r, env, rolls.skip(k)) {
                    Ok(b) => apply_bin(op, a, b),
                    Err(e) => Err(e),
                },
                Err(e) => Err(e),
            }
        },
        Tree::Funcall(f, _) => Err(Fault::UnknownFunction(f)),
        Tree::BadParse(_) => Err(Fault::MalformedExpression),
    }
}

/// `n!` for an integer `n`: the product of the integers from 2 to `n`, so 1 when `n < 2`.
pub fn factorial(n: Num) -> (r: Result<Num, EvalError>)
    ensures
        outcome(r) == factorial_spec(n@),
{
    if !num_is_integer(&n) {
        return Err(EvalError::NonIntegerOperand(Operator::Unary(UnaOpcode::Factorial)));
    }
    let one = to_num(1);
    let mut res = to_num(1);
    let mut iter = to_num(2);
    let ghost top = n@.0;
    while num_le(&iter, &n)
        invariant
            n@.1 == 1,
            top == n@.0,
            one@ == rat_of(1),
            iter@.1 == 1,
            2 <= iter@.0,
            iter@.0 <= top + 1 || iter@.0 == 2,
            res@ == rat_of(factorial_of(iter@.0 - 1)),
        decreases top + 2 - iter@.0,
    {
        let ghost k = iter@.0;
        let ghost f = factorial_of(k - 1);
        assert(k * 1 <= top * 1);
        res = num_mul(&res, &iter);
        iter = num_add(&iter, &one);
        proof {
            assert(f * k == factorial_of(k)) by {
                assert(factorial_of(k) == k * factorial_of(k - 1));
                assert(f * k == k * f) by (nonlinear_arith);
            }
            assert(res@ == norm(f * k, 1));
            lemma_norm_int(f * k);
            assert(iter@ == norm(k + 1, 1));
            lemma_norm_int(k + 1);
        }
    }
    proof {
        if top >= 2 {
            assert(iter@.0 == top + 1);
        }
    }
    Ok(res)
}

pub fn exp(a: Num, e: Num) -> (r: Result<Num, EvalError>)
    ensures
        outcome(r) == exp_spec(a@, e@),
{
    if !num_is_integer(&e) {
        return Err(EvalError::NonIntegerExponent);
    }
    let zero = to_num(0);
    if num_le(&a, &zero) && num_le(&zero, &a) && !num_le(&zero, &e) {
        return Err(EvalError::DivisionByZero);
    }
    Ok(num_pow(&a, &e))
}

pub fn bitand(a: Num, b: Num) -> (r: Result<Num, EvalError>)
    ensures
        outcome(r) == bitwise_spec(BinOpcode::And, BitwiseOp::And, a@, b@),
{
    if num_is_integer(&a) && num_is_integer(&b) {
        Ok(num_bitand(&a, &b))
    } else {
        Err(EvalError::NonIntegerOperand(Operator::Binary(BinOpcode::And)))
    }
}

pub fn bitor(a: Num, b: Num) -> (r: Result<Num, EvalError>)
    ensures
        outcome(r) == bitwise_spec(BinOpcode::Or, BitwiseOp::Or, a@, b@),
{
    if num_is_integer(&a) && num_is_integer(&b) {
        Ok(num_bitor(&a, &b))
    } else {
        Err(EvalError::NonIntegerOperand(Operator::Binary(BinOpcode::Or)))
    }
}

pub fn bitxor(a: Num, b: Num) -> (r: Result<Num, EvalError>)
    ensures
        outcome(r) == bitwise_spec(BinOpcode::Xor, BitwiseOp::Xor, a@, b@),
{
    if num_is_integer(&a) && num_is_integer(&b) {
        Ok(num_bitxor(&a, &b))
    } else {
        Err(EvalError::NonIntegerOperand(Operator::Binary(BinOpcode::Xor)))
    }
}

/// Rounding down twice is rounding down once by the product.
proof fn lemma_floor_compose(x: int, c: int, d: int)
    requires
        c > 0,
        d > 0,
    ensures
        (x / c) / d == x / (c * d),
{
    let q1 = x / c;
    let r1 = x % c;
    let q2 = q1 / d;
    let r2 = q1 % d;
    vstd::arithmetic::div_mod::lemma_fundamental_div_mod(x, c);
    vstd::arithmetic::div_mod::lemma_fundamental_div_mod(q1, d);
    vstd::arithmetic::div_mod::lemma_mod_bound(x, c);
    vstd::arithmetic::div_mod::lemma_mod_bound(q1, d);
    assert(x == (c * d) * q2 + (c * r2 + r1)) by (nonlinear_arith)
        requires
            x == c * q1 + r1,
            q1 == d * q2 + r2,
    ;
    assert(0 <= c * r2 + r1 < c * d) by (nonlinear_arith)
        requires
            0 <= r1 < c,
            0 <= r2 < d,
            c > 0,
    ;
    vstd::arithmetic::div_mod::lemma_fundamental_div_mod_converse(x, c * d, q2, c * r2 + r1);
}

proof fn lemma_pow2(s: nat, t: nat)
    ensures
        pow2(s) > 0,
        pow2(s) * pow2(t) == pow2(s + t),
{
    vstd::arithmetic::power::lemma_pow_positive(2, s);
    vstd::arithmetic::power::lemma_pow_adds(2, s, t);
}

/// `a` shifted right by `m` bits, rounding down, for any number of bits: in steps of at
/// most `i64::MAX` bits, stopping once only the sign is left.
fn shift_right(a: &Num, m: &Num) -> (r: Num)
    requires
        a@.1 == 1,
        m@.1 == 1,
        m@.0 >= 0,
    ensures
        r@ == rat_of(a@.0 / pow2(m@.0 as nat)),
{
    let zero = to_num(0);
    let minus_one = to_num(-1);
    let chunk = to_num(i64::MAX);
    let mut x = a.clone();
    let mut rest = m.clone();
    proof {
        lemma_pow2(0, 0);
        vstd::arithmetic::power::lemma_pow0(2);
        assert(a@.0 / 1 == a@.0);
    }
    while !num_le(&rest, &zero) && !(num_le(&x, &zero) && num_le(&zero, &x)) && !(num_le(&x, &minus_one)
        && num_le(&minus_one, &x))
        invariant
            zero@ == rat_of(0),
            minus_one@ == rat_of(-1),
            chunk@ == rat_of(i64::MAX as int),
            x@.1 == 1,
            rest@.1 == 1,
            0 <= rest@.0 <= m@.0,
            x@.0 == a@.0 / pow2((m@.0 - rest@.0) as nat),
        decreases rest@.0,
    {
        let ghost done = (m@.0 - rest@.0) as nat;
        match num_to_i64(&rest) {
            Some(k) => {
                let ghost step = k as nat;
                x = num_shr(&x, k as u64);
                rest = to_num(0);
                proof {
                    lemma_pow2(done, step);
                    lemma_pow2(step, 0);
                    lemma_floor_compose(a@.0, pow2(done), pow2(step));
                }
            },
            None => {
                let ghost step = i64::MAX as nat;
                let ghost r0 = rest@.0;
                x = num_shr(&x, i64::MAX as u64);
                rest = num_sub(&rest, &chunk);
                proof {
                    lemma_pow2(done, step);
                    lemma_pow2(step, 0);
                    lemma_floor_compose(a@.0, pow2(done), pow2(step));
                    assert(rest@ == norm(r0 * 1int - (i64::MAX as int) * 1int, 1int * 1int));
                    lemma_norm_int(r0 - i64::MAX);
                }
            },
        }
    }
    proof {
        let done = (m@.0 - rest@.0) as nat;
        let left = rest@.0 as nat;
        lemma_pow2(done, left);
        lemma_pow2(left, 0);
        lemma_floor_compose(a@.0, pow2(done), pow2(left));
        if rest@.0 > 0 {
            assert(x@.0 == 0 || x@.0 == -1);
            assert(x@.0 / pow2(left) == x@.0) by (nonlinear_arith)
                requires
                    x@.0 == 0 || x@.0 == -1,
                    pow2(left) > 0,
            ;
        } else {
            assert(pow2(0) == 1) by {
                vstd::arithmetic::power::lemma_pow0(2);
            }
        }
    }
    x
}

/// Shifts `a` left by `b` bits, or right by `-b` bits (rounding down) when `b` is not
/// positive; fails when an operand is not an integer, or when a nonzero `a` would be
/// shifted left by more than `i64::MAX` bits.
pub fn bitshift(a: Num, b: Num) -> (r: Result<Num, EvalError>)
    ensures
        outcome(r) == shift_spec(BinOpcode::LShift, a@, b@),
{
    let op = BinOpcode::LShift;
    if !num_is_integer(&a) || !num_is_integer(&b) {
        return Err(EvalError::NonIntegerOperand(Operator::Binary(op)));
    }
    let zero = to_num(0);
    if !num_le(&b, &zero) {
        match num_to_i64(&b) {
            Some(k) => Ok(num_shl(&a, k as u64)),
            None => {
                if num_le(&a, &zero) && num_le(&zero, &a) {
                    Ok(zero)
                } else {
                    Err(EvalError::ShiftTooLarge)
                }
            },
        }
    } else {
        let m = num_sub(&zero, &b);
        proof {
            lemma_norm_int(-b@.0);
            assert(rat_sub(rat_of(0), b@) == norm(0int * 1int - b@.0 * 1int, 1int * 1int));
        }
        Ok(shift_right(&a, &m))
    }
}

/// For integers `a` and `b`, shifting left by `-b` gives what shifting right by `b` gives.
pub proof fn lemma_shift_symmetry(a: int, b: int)
    ensures
        apply_bin(BinOpcode::LShift, rat_of(a), rat_of(-b)) == apply_bin(
            BinOpcode::RShift,
            rat_of(a),
            rat_of(b),
        ),
{
    lemma_norm_int(-b);
    assert(rat_sub(rat_of(0), rat_of(b)) == norm(0int * 1int - b * 1int, 1int * 1int));
}

/// Dividing by an operand whose value is zero fails with `DivisionByZero`.
pub proof fn lemma_division_by_zero(
    l: Tree,
    r: Tree,
    env: Map<Seq<char>, Rat>,
    rolls: Seq<int>,
    a: Rat,
    z: Rat,
)
    requires
        eval_tree(l, env, rolls.take(roll_leaves(l).len() as int)) == Ok::<Rat, Fault>(a),
        eval_tree(r, env, rolls.skip(roll_leaves(l).len() as int)) == Ok::<Rat, Fault>(z),
        z.0 == 0,
    ensures
        eval_tree(Tree::BinOp(BinOpcode::Div, Box::new(l), Box::new(r)), env, rolls) == Err::<Rat, Fault>(
            Fault::DivisionByZero,
        ),
{
}

/// With dice taking their draws in order, dividing by an operand whose value is zero
/// fails with `DivisionByZero`.
pub proof fn lemma_division_by_zero_drawn(
    l: Tree,
    r: Tree,
    env: Map<Seq<char>, Rat>,
    d: Seq<u64>,
    a: Rat,
    z: Rat,
)
    requires
        eval_drawn(l, env, d).0 == Ok::<Rat, Fault>(a),
        0 <= eval_drawn(l, env, d).1 <= d.len(),
        eval_drawn(r, env, d.skip(eval_drawn(l, env, d).1)).0 == Ok::<Rat, Fault>(z),
        z.0 == 0,
    ensures
        eval_drawn(Tree::BinOp(BinOpcode::Div, Box::new(l), Box::new(r)), env, d).0 == Err::<Rat, Fault>(
            Fault::DivisionByZero,
        ),
{
}

/// Evaluating a tree without dice gives one outcome, whatever rolls are supplied.
pub proof fn lemma_eval_deterministic(t: Tree, env: Map<Seq<char>, Rat>, r1: Seq<int>, r2: Seq<int>)
    requires
        roll_leaves(t).len() == 0,
        valid_rolls(t, r1),
        valid_rolls(t, r2),
    ensures
        eval_tree(t, env, r1) == eval_tree(t, env, r2),
{
    assert(r1 =~= r2);
}

/// The value of `t` under `env` when its dice take their raw draws from `d` in order, die
/// by die from left to right, each die count taking that many draws; with the number of
/// draws taken. Evaluation stops at the first error, and dice after it take no draws.
pub open spec fn eval_drawn(t: Tree, env: Map<Seq<char>, Rat>, d: Seq<u64>) -> (Result<Rat, Fault>, int)
    decreases t,
{
    match t {
        Tree::Number(v, _) => (Ok(v), 0),
        Tree::Roll(n, s) => if n <= 0 {
            (Ok(rat_of(0)), 0)
        } else if s < 1 {
            (Err(Fault::EmptyDie), 0)
        } else {
            (Ok(rat_of(faces_total(d.take(n as int), s as int))), n as int)
        },
        Tree::Var(x) => (if env.contains_key(x) {
            Ok(env[x])
        } else {
            Err(Fault::UnboundVariable(x))
        }, 0),
        Tree::UnaOp(UnaOpcode::Factorial, a) => {
            let (ra, k) = eval_drawn(*a, env, d);
            (match ra {
                Ok(v) => factorial_spec(v),
                Err(e) => Err(e),
            }, k)
        },
        Tree::BinOp(op, l, r) => {
            let (ra, k) = eval_drawn(*l, env, d);
            match ra {
                Err(e) => (Err(e), k),
                Ok(a) => {
                    let rest = if 0 <= k <= d.len() { d.skip(k) } else { Seq::empty() };
                    let (rb, k2) = eval_drawn(*r, env, rest);
                    (match rb {
                        Ok(b) => apply_bin(op, a, b),
                        Err(e) => Err(e),
                    }, k + k2)
                },
            }
        },
        Tree::Funcall(f, _) => (Err(Fault::UnknownFunction(f)), 0),
        Tree::BadParse(_) => (Err(Fault::MalformedExpression), 0),
    }
}

proof fn lemma_drawn_nonneg(t: Tree, env: Map<Seq<char>, Rat>, d: Seq<u64>)
    ensures
        eval_drawn(t, env, d).1 >= 0,
    decreases t,
{
    match t {
        Tree::UnaOp(_, a) => lemma_drawn_nonneg(*a, env, d),
        Tree::BinOp(_, l, r) => {
            lemma_drawn_nonneg(*l, env, d);
            let k = eval_drawn(*l, env, d).1;
            let rest = if 0 <= k <= d.len() { d.skip(k) } else { Seq::empty() };
            lemma_drawn_nonneg(*r, env, rest);
        },
        _ => {},
    }
}

/// Draws after the ones a tree takes do not change its evaluation.
proof fn lemma_drawn_prefix(t: Tree, env: Map<Seq<char>, Rat>, d: Seq<u64>, e: Seq<u64>)
    requires
        eval_drawn(t, env, d).1 <= d.len(),
    ensures
        eval_drawn(t, env, d + e) == eval_drawn(t, env, d),
    decreases t,
{
    match t {
        Tree::Roll(n, s) => {
            if n > 0 && s >= 1 {
                assert((d + e).take(n as int) =~= d.take(n as int));
            }
        },
        Tree::UnaOp(_, a) => lemma_drawn_prefix(*a, env, d, e),
        Tree::BinOp(_, l, r) => {
            lemma_drawn_nonneg(*l, env, d);
            let k = eval_drawn(*l, env, d).1;
            let rest = if 0 <= k <= d.len() { d.skip(k) } else { Seq::empty() };
            lemma_drawn_nonneg(*r, env, rest);
            lemma_drawn_prefix(*l, env, d, e);
            if eval_drawn(*l, env, d).0 is Ok {
                assert((d + e).skip(k) =~= d.skip(k) + e);
                lemma_drawn_prefix(*r, env, d.skip(k), e);
            }
        },
        _ => {},
    }
}

/// `after` is `before` with draws appended.
pub open spec fn extends(before: Seq<u64>, after: Seq<u64>) -> bool {
    before.len() <= after.len() && after.take(before.len() as int) == before
}

/// Rolls that a tree's dice may show when evaluation stopped before reaching them.
pub open spec fn least_rolls(t: Tree) -> Seq<int> {
    Seq::new(roll_leaves(t).len(), |i: int| roll_leaves(t)[i].0 as int)
}

proof fn lemma_least_rolls(t: Tree)
    ensures
        valid_rolls(t, least_rolls(t)),
{
    assert forall|i: int| 0 <= i < least_rolls(t).len() implies #[trigger] roll_ok(
        roll_leaves(t)[i],
        least_rolls(t)[i],
    ) by {
        let d = roll_leaves(t)[i];
        if d.0 > 0 && d.1 >= 1 {
            assert(d.0 * 1 <= d.0 * d.1) by (nonlinear_arith)
                requires
                    d.0 > 0,
                    d.1 >= 1,
            ;
        }
    }
}

proof fn lemma_join_rolls(l: Tree, r: Tree, a: Seq<int>, b: Seq<int>)
    requires
        valid_rolls(l, a),
        valid_rolls(r, b),
    ensures
        valid_rolls_pair(l, r, a + b),
        (a + b).take(a.len() as int) == a,
        (a + b).skip(a.len() as int) == b,
{
    assert((a + b).take(a.len() as int) =~= a);
    assert((a + b).skip(a.len() as int) =~= b);
    let s = roll_leaves(l) + roll_leaves(r);
    assert forall|i: int| 0 <= i < (a + b).len() implies #[trigger] roll_ok(s[i], (a + b)[i]) by {
        if i < a.len() {
            assert(roll_ok(roll_leaves(l)[i], a[i]));
        } else {
            assert(roll_ok(roll_leaves(r)[i - a.len()], b[i - a.len()]));
        }
    }
}

pub open spec fn valid_rolls_pair(l: Tree, r: Tree, rolls: Seq<int>) -> bool {
    rolls.len() == roll_leaves(l).len() + roll_leaves(r).len() && forall|i: int|
        0 <= i < rolls.len() ==> #[trigger] roll_ok((roll_leaves(l) + roll_leaves(r))[i], rolls[i])
}

fn apply(op: BinOpcode, a: Num, b: Num) -> (r: Result<Num, EvalError>)
    ensures
        outcome(r) == apply_bin(op, a@, b@),
{
    match op {
        BinOpcode::Add => Ok(num_add(&a, &b)),
        BinOpcode::Sub => Ok(num_sub(&a, &b)),
        BinOpcode::Mul => Ok(num_mul(&a, &b)),
        BinOpcode::Div => {
            let zero = to_num(0);
            if num_le(&b, &zero) && num_le(&zero, &b) {
                Err(EvalError::DivisionByZero)
            } else {
                Ok(num_div(&a, &b))
            }
        },
        BinOpcode::Exp => exp(a, b),
        BinOpcode::And => bitand(a, b),
        BinOpcode::Or => bitor(a, b),
        BinOpcode::Xor => bitxor(a, b),
        BinOpcode::LShift => bitshift(a, b),
        BinOpcode::RShift => {
            let zero = to_num(0);
            match bitshift(a, num_sub(&zero, &b)) {
                Err(EvalError::NonIntegerOperand(_)) => Err(
                    EvalError::NonIntegerOperand(Operator::Binary(BinOpcode::RShift)),
                ),
                other => other,
            }
        },
    }
}

fn eval_rolled<D: DrawSource>(expr: &Node, env: &Env, source: &mut D) -> (r: (Result<Num, EvalError>, Ghost<Seq<int>>))
    ensures
        valid_rolls(expr@, r.1@),
        outcome(r.0) == eval_tree(expr@, env@, r.1@),
        extends(old(source).drawn(), final(source).drawn()),
        eval_drawn(expr@, env@, final(source).drawn().skip(old(source).drawn().len() as int)) == (
            outcome(r.0),
            final(source).drawn().len() - old(source).drawn().len(),
        ),
    decreases expr,
{
    let ghost start = source.drawn();
    proof {
        assert(start.take(start.len() as int) =~= start);
        assert(start.skip(start.len() as int) =~= Seq::<u64>::empty());
    }
    match expr {
        Node::Number(v, _) => {
            proof {
                assert(valid_rolls(expr@, Seq::empty()));
            }
            (Ok(v.clone()), Ghost(Seq::empty()))
        },
        Node::Roll(n, sides) => {
            let ghost zero_roll = seq![0int];
            if *n <= 0 {
                proof {
                    assert(valid_rolls(expr@, seq![0int]));
                }
                (Ok(to_num(0)), Ghost(zero_roll))
            } else if *sides < 1 {
                proof {
                    assert(valid_rolls(expr@, seq![0int]));
                }
                (Err(EvalError::EmptyDie), Ghost(zero_roll))
            } else {
                let ghost before = source.drawn();
                let v = roll(*n, *sides, source);
                let ghost rolls = seq![v@.0];
                proof {
                    let used = source.drawn().skip(before.len() as int);
                    lemma_faces_bounds(used, *sides as int);
                    assert(roll_ok(roll_leaves(expr@)[0], rolls[0]));
                    assert(used.take(*n as int) =~= used);
                }
                (Ok(v), Ghost(rolls))
            }
        },
        Node::Var(name) => {
            proof {
                assert(valid_rolls(expr@, Seq::empty()));
            }
            match env.get(name) {
                Some(v) => (Ok(v), Ghost(Seq::empty())),
                None => (Err(EvalError::UnboundVariable(name.clone())), Ghost(Seq::empty())),
            }
        },
        Node::UnaOp(UnaOpcode::Factorial, a) => {
            let (ra, rolls) = eval_rolled(a, env, source);
            match ra {
                Ok(v) => (factorial(v), rolls),
                Err(e) => (Err(e), rolls),
            }
        },
        Node::BinOp(op, l, r) => {
            let (ra, rolls_l) = eval_rolled(l, env, source);
            let ghost mid = source.drawn();
            let ghost used_l = mid.skip(start.len() as int);
            match ra {
                Err(e) => {
                    let ghost rest = least_rolls((**r)@);
                    proof {
                        lemma_least_rolls((**r)@);
                        lemma_join_rolls((**l)@, (**r)@, rolls_l@, rest);
                    }
                    (Err(e), Ghost(rolls_l@ + rest))
                },
                Ok(a) => {
                    let (rb, rolls_r) = eval_rolled(r, env, source);
                    proof {
                        lemma_join_rolls((**l)@, (**r)@, rolls_l@, rolls_r@);
                        let fin = source.drawn();
                        let used_r = fin.skip(mid.len() as int);
                        let used = fin.skip(start.len() as int);
                        assert(mid =~= fin.take(mid.len() as int));
                        assert(fin.take(start.len() as int) =~= mid.take(start.len() as int));
                        assert(used =~= used_l + used_r);
                        lemma_drawn_prefix((**l)@, env@, used_l, used_r);
                        assert(used.skip(used_l.len() as int) =~= used_r);
                    }
                    match rb {
                        Err(e) => (Err(e), Ghost(rolls_l@ + rolls_r@)),
                        Ok(b) => (apply(*op, a, b), Ghost(rolls_l@ + rolls_r@)),
                    }
                },
            }
        },
        Node::Funcall(f, _) => {
            proof {
                assert(valid_rolls(expr@, Seq::empty()));
            }
            (Err(EvalError::UnknownFunction(f.clone())), Ghost(Seq::empty()))
        },
        Node::BadParse(_) => {
            proof {
                assert(valid_rolls(expr@, Seq::empty()));
            }
            (Err(EvalError::MalformedExpression), Ghost(Seq::empty()))
        },
    }
}

/// Evaluates `expr` under `env`, drawing dice from `source`: the result is the tree's
/// value when each die, left to right, takes the next draws appended to `source`, and
/// evaluation takes exactly the draws it needs. It is a value for some total that each
/// die can show; a tree without dice has exactly one value.
pub fn eval_with<D: DrawSource>(expr: &Node, env: &Env, source: &mut D) -> (r: Result<Num, EvalError>)
    ensures
        extends(old(source).drawn(), final(source).drawn()),
        eval_drawn(expr@, env@, final(source).drawn().skip(old(source).drawn().len() as int)) == (
            outcome(r),
            final(source).drawn().len() - old(source).drawn().len(),
        ),
        exists|rolls: Seq<int>|
            #[trigger] valid_rolls(expr@, rolls) && outcome(r) == eval_tree(expr@, env@, rolls),
        roll_leaves(expr@).len() == 0 ==> outcome(r) == eval_tree(expr@, env@, Seq::empty()),
{
    let (r, rolls) = eval_rolled(expr, env, source);
    proof {
        if roll_leaves(expr@).len() == 0 {
            assert(rolls@ =~= Seq::<int>::empty());
        }
    }
    r
}

/// Evaluates `expr` under `env`, drawing dice from the thread's random generator.
pub fn eval(expr: &Node, env: &Env) -> (r: Result<Num, EvalError>)
    ensures
        exists|rolls: Seq<int>|
            #[trigger] valid_rolls(expr@, rolls) && outcome(r) == eval_tree(expr@, env@, rolls),
        roll_leaves(expr@).len() == 0 ==> outcome(r) == eval_tree(expr@, env@, Seq::empty()),
{
    let mut source = ThreadDraws::new();
    eval_with(expr, env, &mut source)
}

} // verus!
