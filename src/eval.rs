//! Execution and evaluation
//!
//! Walks syntax trees and evaluates the programs that they represent,
//! against an environment of variable bindings.

use vstd::prelude::*;
use vstd::hash_map::StringHashMap;
use crate::ast::{Expr, Token, TokenKind};

verus! {

broadcast use vstd::seq::group_seq_axioms, vstd::seq_lib::group_seq_properties,
    vstd::std_specs::vec::group_vec_axioms;

/// The built-in procedures.
#[derive(Clone, Copy, Debug, PartialEq, Eq, Structural)]
pub enum Builtin {
    /// `print`: emits each argument; gives the last one, or nil
    Print,
    /// `exit`: ends the program with the given status, 0 by default
    Exit,
    /// `begin`: gives the last argument, or nil
    Begin,
    /// `+`: the sum of the arguments
    Add,
    /// `*`: the product of the arguments
    Mul,
    /// `-`: negation of one argument, or the first minus the rest
    Sub,
    /// `/`: reciprocal of one argument, or the first divided by the rest
    Div,
}

/// A value that evaluation produces or a variable holds.
#[derive(Clone, Copy, Debug, PartialEq, Eq, Structural)]
pub enum Value {
    /// A numeric value
    Number(i64),
    /// A callable value
    Callable(Builtin),
    /// The neutral empty value
    Nil,
}

/// Why an evaluation failed, as a value of logic.
pub ghost enum Fault {
    UndefinedSymbol(Seq<char>),
    UndefinedProcedure(Seq<char>),
    NotASymbol,
    NotANumber(Builtin),
    WrongArity(Builtin),
    DivisionByZero,
    Overflow,
    Exit(i64),
}

/// Evaluation errors.
#[derive(Debug, PartialEq)]
pub enum EvalError {
    /// A variable that is not bound
    UndefinedSymbol(String),
    /// A call of a name that is not bound to a procedure
    UndefinedProcedure(String),
    /// A definition or call whose target token is not a symbol
    NotASymbol,
    /// A built-in given an argument that is not a number
    NotANumber(Builtin),
    /// A built-in given a number of arguments it does not take
    WrongArity(Builtin),
    /// An integer division by zero
    DivisionByZero,
    /// An arithmetic result that does not fit in an `i64`
    Overflow,
    /// `exit` was called with this status: the program is to end now
    Exit(i64),
}

impl View for EvalError {
    type V = Fault;

    open spec fn view(&self) -> Fault {
        match self {
            EvalError::UndefinedSymbol(s) => Fault::UndefinedSymbol(s@),
            EvalError::UndefinedProcedure(s) => Fault::UndefinedProcedure(s@),
            EvalError::NotASymbol => Fault::NotASymbol,
            EvalError::NotANumber(b) => Fault::NotANumber(*b),
            EvalError::WrongArity(b) => Fault::WrongArity(*b),
            EvalError::DivisionByZero => Fault::DivisionByZero,
            EvalError::Overflow => Fault::Overflow,
            EvalError::Exit(n) => Fault::Exit(*n),
        }
    }
}

/// Evaluation result: a `Value` on success or an `EvalError` on failure.
pub type EvalResult = Result<Value, EvalError>;

/// The logical outcome of an evaluation result.
pub open spec fn outcome(r: EvalResult) -> Result<Value, Fault> {
    match r {
        Ok(v) => Ok(v),
        Err(e) => Err(e@),
    }
}

/// The state of an evaluation session: the variable bindings, and the
/// values printed so far, oldest first.
pub ghost struct State {
    pub vars: Map<Seq<char>, Value>,
    pub printed: Seq<Value>,
}

/// An evaluation environment: variable bindings and the output of
/// `print` that the driver has not yet taken.
pub struct Env {
    vars: StringHashMap<Value>,
    printed: Vec<Value>,
}

impl View for Env {
    type V = State;

    closed spec fn view(&self) -> State {
        State { vars: self.vars@, printed: self.printed@ }
    }
}

/// Zero is false; every other value is true.
pub open spec fn truthy(v: Value) -> bool {
    match v {
        Value::Number(n) => n != 0,
        _ => true,
    }
}

pub open spec fn spec_last_or_nil(vals: Seq<Value>) -> Value {
    if vals.len() == 0 {
        Value::Nil
    } else {
        vals.last()
    }
}

pub open spec fn all_numbers(vals: Seq<Value>) -> bool {
    forall|i: int| 0 <= i < vals.len() ==> (#[trigger] vals[i]) is Number
}

/// The exact sum of the numbers in `vals`.
pub open spec fn sum_of(vals: Seq<Value>) -> int
    decreases vals.len(),
{
    if vals.len() == 0 {
        0
    } else {
        sum_of(vals.drop_last()) + vals.last()->Number_0
    }
}

/// The exact product of the numbers in `vals`.
pub open spec fn product_of(vals: Seq<Value>) -> int
    decreases vals.len(),
{
    if vals.len() == 0 {
        1
    } else {
        product_of(vals.drop_last()) * vals.last()->Number_0
    }
}

/// `x` as a number value when it fits in an `i64`, else an overflow.
pub open spec fn exact_number(x: int) -> Result<Value, Fault> {
    if i64::MIN <= x <= i64::MAX {
        Ok(Value::Number(x as i64))
    } else {
        Err(Fault::Overflow)
    }
}

/// One step of `-` or `/`: `acc` minus, or divided by, `n`.
pub open spec fn step(b: Builtin, acc: i64, n: i64) -> Result<i64, Fault> {
    if b == Builtin::Sub {
        match acc.checked_sub(n) {
            Some(x) => Ok(x),
            None => Err(Fault::Overflow),
        }
    } else if n == 0 {
        Err(Fault::DivisionByZero)
    } else {
        match acc.checked_div(n) {
            Some(x) => Ok(x),
            None => Err(Fault::Overflow),
        }
    }
}

/// `init` minus, or divided by, each number of `vals` in turn, from the
/// left;
/// the first failing step decides the error.
pub open spec fn fold(b: Builtin, init: i64, vals: Seq<Value>) -> Result<i64, Fault>
    decreases vals.len(),
{
    if vals.len() == 0 {
        Ok(init)
    } else {
        match fold(b, init, vals.drop_last()) {
            Ok(acc) => step(b, acc, vals.last()->Number_0),
            Err(f) => Err(f),
        }
    }
}

pub open spec fn number_result(r: Result<i64, Fault>) -> Result<Value, Fault> {
    match r {
        Ok(n) => Ok(Value::Number(n)),
        Err(f) => Err(f),
    }
}

/// What a built-in gives when called with `vals`.
///
/// `+` and `*` give the exact sum and product, an overflow only when
/// that does not fit in an `i64`; `-` and `/` fold from the left, and the
/// first step that fails decides the error. `(-)` with no argument gives 0; `(/)` with no argument is an arity
/// error; `(exit)` takes at most one argument.
pub open spec fn builtin_result(b: Builtin, vals: Seq<Value>) -> Result<Value, Fault> {
    match b {
        Builtin::Print | Builtin::Begin => Ok(spec_last_or_nil(vals)),
        Builtin::Exit => if vals.len() == 0 {
            Err(Fault::Exit(0))
        } else if vals.len() > 1 {
            Err(Fault::WrongArity(b))
        } else if vals[0] is Number {
            Err(Fault::Exit(vals[0]->Number_0))
        } else {
            Err(Fault::NotANumber(b))
        },
        _ => if !all_numbers(vals) {
            Err(Fault::NotANumber(b))
        } else {
            match b {
                Builtin::Add => exact_number(sum_of(vals)),
                Builtin::Mul => exact_number(product_of(vals)),
                _ => if vals.len() == 0 {
                    if b == Builtin::Sub {
                        Ok(Value::Number(0))
                    } else {
                        Err(Fault::WrongArity(b))
                    }
                } else if vals.len() == 1 {
                    number_result(step(b, if b == Builtin::Sub { 0 } else { 1 }, vals[0]->Number_0))
                } else {
                    number_result(fold(b, vals[0]->Number_0, vals.drop_first()))
                },
            }
        },
    }
}

/// The session state after calling built-in `b` with `vals`: `print`
/// emits its arguments; the others leave the state as it is.
pub open spec fn builtin_state(b: Builtin, vals: Seq<Value>, s: State) -> State {
    if b == Builtin::Print {
        State { printed: s.printed + vals, ..s }
    } else {
        s
    }
}

/// The name a variable or procedure token stands for.
pub open spec fn symbol_of(t: Token) -> Seq<char> {
    t.kind->Symbol_0@
}

/// The outcome of evaluating `e` in state `s`, and the state after it.
pub open spec fn eval_spec(e: Expr, s: State) -> (Result<Value, Fault>, State)
    decreases e,
{
    match e {
        Expr::Symbol(_, name) => if s.vars.contains_key(name@) {
            (Ok(s.vars[name@]), s)
        } else {
            (Err(Fault::UndefinedSymbol(name@)), s)
        },
        Expr::Number(_, n) => (Ok(Value::Number(n)), s),
        Expr::If(_, _, c, t, f, _) => {
            let (rc, s1) = eval_spec(*c, s);
            match rc {
                Ok(v) => if truthy(v) {
                    eval_spec(*t, s1)
                } else {
                    eval_spec(*f, s1)
                },
                Err(x) => (Err(x), s1),
            }
        },
        Expr::Define(_, _, target, v, _) => {
            let (rv, s1) = eval_spec(*v, s);
            match rv {
                Ok(val) => if target.kind is Symbol {
                    (Ok(val), State { vars: s1.vars.insert(symbol_of(target), val), ..s1 })
                } else {
                    (Err(Fault::NotASymbol), s1)
                },
                Err(x) => (Err(x), s1),
            }
        },
        Expr::Call(_, callee, args, _) => {
            proof {
                assert(decreases_to!(args => args@));
            }
            if !(callee.kind is Symbol) {
                (Err(Fault::NotASymbol), s)
            } else if s.vars.contains_key(symbol_of(callee)) && s.vars[symbol_of(
                callee,
            )] is Callable {
                let b = s.vars[symbol_of(callee)]->Callable_0;
                let (ra, s1) = eval_args(args@, s);
                match ra {
                    Ok(vals) => (builtin_result(b, vals), builtin_state(b, vals, s1)),
                    Err(x) => (Err(x), s1),
                }
            } else {
                (Err(Fault::UndefinedProcedure(symbol_of(callee))), s)
            }
        },
    }
}

/// Evaluating the expressions `es` from the left, stopping at the
/// first failure.
pub open spec fn eval_args(es: Seq<Expr>, s: State) -> (Result<Seq<Value>, Fault>, State)
    decreases es,
{
    if es.len() == 0 {
        (Ok(seq![]), s)
    } else {
        proof {
            assert(decreases_to!(es => es.last()));
        }
        let (r, s1) = eval_args(es.drop_last(), s);
        match r {
            Ok(vals) => {
                let (rv, s2) = eval_spec(es.last(), s1);
                match rv {
                    Ok(v) => (Ok(vals.push(v)), s2),
                    Err(x) => (Err(x), s2),
                }
            },
            Err(x) => (Err(x), s1),
        }
    }
}

impl Value {
    /// Check the truthiness of a value: zero is the one false value.
    pub fn is_truthy(&self) -> (r: bool)
        ensures
            r == truthy(*self),
    {
        match *self {
            Value::Number(n) => n != 0,
            _ => true,
        }
    }

    /// The number this value holds, if it is one.
    pub fn into_num(self) -> (r: Option<i64>)
        ensures
            r == (if self is Number {
                Some(self->Number_0)
            } else {
                None
            }),
    {
        match self {
            Value::Number(n) => Some(n),
            _ => None,
        }
    }
}

/// The name a token stands for, if it is a symbol.
pub fn to_sym(token: Token) -> (r: Result<String, EvalError>)
    ensures
        match r {
            Ok(s) => token.kind is Symbol && s@ == symbol_of(token),
            Err(e) => !(token.kind is Symbol) && e@ == Fault::NotASymbol,
        },
{
    match token.kind {
        TokenKind::Symbol(s) => Ok(s),
        _ => Err(EvalError::NotASymbol),
    }
}

/// The last value, or `Nil` if there are none.
pub fn last_or_nil(values: Vec<Value>) -> (r: Value)
    ensures
        r == spec_last_or_nil(values@),
{
    if values.len() == 0 {
        Value::Nil
    } else {
        values[values.len() - 1]
    }
}

impl Env {
    /// An environment with no bindings and nothing printed.
    pub fn new() -> (r: Env)
        ensures
            r@.vars == Map::<Seq<char>, Value>::empty(),
            r@.printed == Seq::<Value>::empty(),
    {
        Env { vars: StringHashMap::new(), printed: Vec::new() }
    }

    /// The value bound to `name`, if any.
    pub fn get(&self, name: &str) -> (r: Option<Value>)
        ensures
            match r {
                Some(v) => self@.vars.contains_key(name@) && v == self@.vars[name@],
                None => !self@.vars.contains_key(name@),
            },
    {
        match self.vars.get(name) {
            Some(v) => Some(*v),
            None => None,
        }
    }

    /// Bind `name` to `value`, replacing any earlier binding.
    pub fn define(&mut self, name: String, value: Value)
        ensures
            final(self)@.vars == old(self)@.vars.insert(name@, value),
            final(self)@.printed == old(self)@.printed,
    {
        self.vars.insert(name, value);
    }

    /// Hand over the values printed since the last call, oldest first.
    pub fn take_printed(&mut self) -> (r: Vec<Value>)
        ensures
            r@ == old(self)@.printed,
            final(self)@.vars == old(self)@.vars,
            final(self)@.printed == Seq::<Value>::empty(),
    {
        let mut out: Vec<Value> = Vec::new();
        std::mem::swap(&mut out, &mut self.printed);
        out
    }

    /// Record `vals` as printed.
    fn emit(&mut self, vals: &Vec<Value>)
        ensures
            final(self)@.vars == old(self)@.vars,
            final(self)@.printed == old(self)@.printed + vals@,
    {
        let mut i: usize = 0;
        while i < vals.len()
            invariant
                0 <= i <= vals.len(),
                self@.vars == old(self)@.vars,
                self@.printed == old(self)@.printed + vals@.subrange(0, i as int),
            decreases vals.len() - i,
        {
            self.printed.push(vals[i]);
            proof {
                assert(vals@.subrange(0, i + 1) =~= vals@.subrange(0, i as int).push(vals@[i as int]));
            }
            i = i + 1;
        }
        proof {
            assert(vals@.subrange(0, vals.len() as int) =~= vals@);
        }
    }
}

fn step_exec(b: Builtin, acc: i64, n: i64) -> (r: Result<i64, EvalError>)
    requires
        b == Builtin::Sub || b == Builtin::Div,
    ensures
        match r {
            Ok(x) => step(b, acc, n) == Ok::<i64, Fault>(x),
            Err(e) => step(b, acc, n) == Err::<i64, Fault>(e@),
        },
{
    let r = if b == Builtin::Sub {
        acc.checked_sub(n)
    } else if n == 0 {
        return Err(EvalError::DivisionByZero);
    } else {
        acc.checked_div(n)
    };
    match r {
        Some(x) => Ok(x),
        None => Err(EvalError::Overflow),
    }
}

proof fn lemma_fold_fails(b: Builtin, init: i64, vals: Seq<Value>, k: int)
    requires
        0 <= k <= vals.len(),
        fold(b, init, vals.subrange(0, k)) is Err,
    ensures
        fold(b, init, vals) == fold(b, init, vals.subrange(0, k)),
    decreases vals.len(),
{
    if k == vals.len() {
        assert(vals.subrange(0, k) =~= vals);
    } else {
        assert(vals.drop_last().subrange(0, k) =~= vals.subrange(0, k));
        lemma_fold_fails(b, init, vals.drop_last(), k);
    }
}

/// Combine `init` with each number of `vals` from position `from` on.
fn fold_numbers(b: Builtin, init: i64, vals: &Vec<Value>, from: usize) -> (r: Result<i64, EvalError>)
    requires
        b == Builtin::Sub || b == Builtin::Div,
        from <= vals.len(),
        all_numbers(vals@),
    ensures
        match r {
            Ok(x) => fold(b, init, vals@.subrange(from as int, vals.len() as int)) == Ok::<
                i64,
                Fault,
            >(x),
            Err(e) => fold(b, init, vals@.subrange(from as int, vals.len() as int)) == Err::<
                i64,
                Fault,
            >(e@),
        },
{
    let ghost rest = vals@.subrange(from as int, vals.len() as int);
    let mut acc = init;
    let mut i: usize = from;
    proof {
        assert(vals@.subrange(from as int, from as int) =~= Seq::<Value>::empty());
    }
    while i < vals.len()
        invariant
            from <= i <= vals.len(),
            all_numbers(vals@),
            rest == vals@.subrange(from as int, vals.len() as int),
            b == Builtin::Sub || b == Builtin::Div,
            fold(b, init, vals@.subrange(from as int, i as int)) == Ok::<i64, Fault>(acc),
        decreases vals.len() - i,
    {
        let n = match vals[i] {
            Value::Number(n) => n,
            _ => 0,
        };
        proof {
            assert(vals@[i as int] is Number);
            let pre = vals@.subrange(from as int, i + 1);
            assert(pre.drop_last() =~= vals@.subrange(from as int, i as int));
            assert(rest.subrange(0, i + 1 - from) =~= pre);
        }
        match step_exec(b, acc, n) {
            Ok(x) => {
                acc = x;
            },
            Err(e) => {
                proof {
                    lemma_fold_fails(b, init, rest, i + 1 - from);
                }
                return Err(e);
            },
        }
        i = i + 1;
    }
    Ok(acc)
}

/// The sum of `vals`, added up in 128 bits, where no partial sum of at
/// most `usize::MAX` numbers can overflow.
fn sum_numbers(vals: &Vec<Value>) -> (r: Result<i64, EvalError>)
    requires
        all_numbers(vals@),
    ensures
        match r {
            Ok(x) => x == sum_of(vals@),
            Err(e) => e@ == Fault::Overflow && !(i64::MIN <= sum_of(vals@) <= i64::MAX),
        },
{
    let mut acc: i128 = 0;
    let mut i: usize = 0;
    proof {
        assert(vals@.subrange(0, 0) =~= Seq::<Value>::empty());
    }
    while i < vals.len()
        invariant
            0 <= i <= vals.len(),
            all_numbers(vals@),
            acc == sum_of(vals@.subrange(0, i as int)),
            -(i as int) * 0x8000_0000_0000_0000 <= acc <= (i as int) * 0x8000_0000_0000_0000,
        decreases vals.len() - i,
    {
        let n = match vals[i] {
            Value::Number(n) => n,
            _ => 0,
        };
        proof {
            assert(vals@[i as int] is Number);
            let pre = vals@.subrange(0, i + 1);
            assert(pre.drop_last() =~= vals@.subrange(0, i as int));
        }
        acc = acc + n as i128;
        i = i + 1;
    }
    proof {
        assert(vals@.subrange(0, vals.len() as int) =~= vals@);
    }
    if acc < i64::MIN as i128 || acc > i64::MAX as i128 {
        Err(EvalError::Overflow)
    } else {
        Ok(acc as i64)
    }
}

/// A product with a zero factor is zero.
proof fn lemma_product_zero(vals: Seq<Value>, k: int)
    requires
        0 <= k < vals.len(),
        vals[k] == Value::Number(0),
    ensures
        product_of(vals) == 0,
    decreases vals.len(),
{
    let a = product_of(vals.drop_last());
    let x = vals.last()->Number_0 as int;
    if k < vals.len() - 1 {
        assert(vals.drop_last()[k] == vals[k]);
        lemma_product_zero(vals.drop_last(), k);
        assert(a * x == 0) by (nonlinear_arith)
            requires
                a == 0,
        ;
    } else {
        assert(a * x == 0) by (nonlinear_arith)
            requires
                x == 0,
        ;
    }
}

/// Without a zero factor, a product is at least as large in size as
/// any product of its first factors.
proof fn lemma_product_grows(vals: Seq<Value>, k: int)
    requires
        0 <= k <= vals.len(),
        all_numbers(vals),
        forall|i: int| 0 <= i < vals.len() ==> (#[trigger] vals[i])->Number_0 != 0,
    ensures
        ({
            let p = product_of(vals);
            let q = product_of(vals.subrange(0, k));
            (p >= 0 ==> p >= q && p >= -q) && (p < 0 ==> -p >= q && -p >= -q)
        }),
    decreases vals.len(),
{
    if k == vals.len() {
        assert(vals.subrange(0, k) =~= vals);
    } else {
        let rest = vals.drop_last();
        assert(rest.subrange(0, k) =~= vals.subrange(0, k));
        assert forall|i: int| 0 <= i < rest.len() implies (#[trigger] rest[i])->Number_0 != 0 by {
            assert(rest[i] == vals[i]);
        }
        lemma_product_grows(rest, k);
        let a = product_of(rest);
        let x = vals.last()->Number_0 as int;
        assert(x != 0);
        assert((a >= 0 ==> a * x >= a || a * x <= -a) && (a < 0 ==> a * x >= -a || a * x <= a))
            by (nonlinear_arith)
            requires
                x != 0,
        ;
    }
}

/// The product of `vals`. A zero factor gives zero at once; otherwise
/// the size of the running product never shrinks, so it is kept in 128
/// bits and the work stops once it passes 2^63.
fn product_numbers(vals: &Vec<Value>) -> (r: Result<i64, EvalError>)
    requires
        all_numbers(vals@),
    ensures
        match r {
            Ok(x) => x == product_of(vals@),
            Err(e) => e@ == Fault::Overflow && !(i64::MIN <= product_of(vals@) <= i64::MAX),
        },
{
    let mut i: usize = 0;
    while i < vals.len()
        invariant
            0 <= i <= vals.len(),
            all_numbers(vals@),
            forall|k: int| 0 <= k < i ==> (#[trigger] vals@[k])->Number_0 != 0,
        decreases vals.len() - i,
    {
        if matches!(vals[i], Value::Number(0)) {
            proof {
                lemma_product_zero(vals@, i as int);
            }
            return Ok(0);
        }
        proof {
            assert(vals@[i as int] is Number);
        }
        i = i + 1;
    }
    let mut acc: i128 = 1;
    i = 0;
    proof {
        assert(vals@.subrange(0, 0) =~= Seq::<Value>::empty());
    }
    while i < vals.len()
        invariant
            0 <= i <= vals.len(),
            all_numbers(vals@),
            forall|k: int| 0 <= k < vals.len() ==> (#[trigger] vals@[k])->Number_0 != 0,
            acc == product_of(vals@.subrange(0, i as int)),
            -0x8000_0000_0000_0000 <= acc <= 0x8000_0000_0000_0000,
        decreases vals.len() - i,
    {
        let n = match vals[i] {
            Value::Number(n) => n,
            _ => 0,
        };
        proof {
            assert(vals@[i as int] is Number);
            let pre = vals@.subrange(0, i + 1);
            assert(pre.drop_last() =~= vals@.subrange(0, i as int));
            let a = acc as int;
            let m = n as int;
            assert(-0x4000_0000_0000_0000_0000_0000_0000_0000 <= a * m
                <= 0x4000_0000_0000_0000_0000_0000_0000_0000) by (nonlinear_arith)
                requires
                    -0x8000_0000_0000_0000 <= a <= 0x8000_0000_0000_0000,
                    -0x8000_0000_0000_0000 <= m <= 0x8000_0000_0000_0000,
            ;
        }
        acc = acc * n as i128;
        i = i + 1;
        if acc > 0x8000_0000_0000_0000 || acc < -0x8000_0000_0000_0000 {
            proof {
                lemma_product_grows(vals@, i as int);
            }
            return Err(EvalError::Overflow);
        }
    }
    proof {
        assert(vals@.subrange(0, vals.len() as int) =~= vals@);
    }
    if acc < i64::MIN as i128 || acc > i64::MAX as i128 {
        Err(EvalError::Overflow)
    } else {
        Ok(acc as i64)
    }
}

/// Call built-in `b` with the evaluated arguments `vals`.
fn call_builtin(b: Builtin, vals: Vec<Value>, env: &mut Env) -> (r: EvalResult)
    ensures
        outcome(r) == builtin_result(b, vals@),
        final(env)@ == builtin_state(b, vals@, old(env)@),
{
    match b {
        Builtin::Print => {
            env.emit(&vals);
            return Ok(last_or_nil(vals));
        },
        Builtin::Begin => {
            return Ok(last_or_nil(vals));
        },
        Builtin::Exit => {
            if vals.len() == 0 {
                return Err(EvalError::Exit(0));
            } else if vals.len() > 1 {
                return Err(EvalError::WrongArity(b));
            }
            return match vals[0] {
                Value::Number(n) => Err(EvalError::Exit(n)),
                _ => Err(EvalError::NotANumber(b)),
            };
        },
        _ => {},
    }
    let mut i: usize = 0;
    while i < vals.len()
        invariant
            0 <= i <= vals.len(),
            b == Builtin::Add || b == Builtin::Mul || b == Builtin::Sub || b == Builtin::Div,
            env@ == old(env)@,
            forall|k: int| 0 <= k < i ==> (#[trigger] vals@[k]) is Number,
        decreases vals.len() - i,
    {
        if !matches!(vals[i], Value::Number(_)) {
            proof {
                assert(!(vals@[i as int] is Number));
                assert(!all_numbers(vals@));
            }
            return Err(EvalError::NotANumber(b));
        }
        i = i + 1;
    }
    let r = if b == Builtin::Add {
        sum_numbers(&vals)
    } else if b == Builtin::Mul {
        product_numbers(&vals)
    } else if vals.len() == 0 {
        if b == Builtin::Sub {
            Ok(0)
        } else {
            return Err(EvalError::WrongArity(b));
        }
    } else {
        let first = match vals[0] {
            Value::Number(n) => n,
            _ => 0,
        };
        if vals.len() == 1 {
            step_exec(b, if b == Builtin::Sub { 0 } else { 1 }, first)
        } else {
            proof {
                assert(vals@.subrange(1, vals.len() as int) =~= vals@.drop_first());
            }
            fold_numbers(b, first, &vals, 1)
        }
    };
    proof {
        assert(vals@.subrange(0, vals.len() as int) =~= vals@);
    }
    match r {
        Ok(n) => Ok(Value::Number(n)),
        Err(e) => Err(e),
    }
}

proof fn lemma_args_fail(es: Seq<Expr>, k: int, s: State)
    requires
        0 <= k <= es.len(),
        eval_args(es.subrange(0, k), s).0 is Err,
    ensures
        eval_args(es, s) == eval_args(es.subrange(0, k), s),
    decreases es.len(),
{
    if k == es.len() {
        assert(es.subrange(0, k) =~= es);
    } else {
        assert(es.drop_last().subrange(0, k) =~= es.subrange(0, k));
        lemma_args_fail(es.drop_last(), k, s);
    }
}

fn eval_expr(e: &Expr, env: &mut Env) -> (r: EvalResult)
    ensures
        (outcome(r), final(env)@) == eval_spec(*e, old(env)@),
    decreases e,
{
    match e {
        Expr::Symbol(_, name) => match env.get(name.as_str()) {
            Some(v) => Ok(v),
            None => Err(EvalError::UndefinedSymbol(name.clone())),
        },
        Expr::Number(_, n) => Ok(Value::Number(*n)),
        Expr::If(_, _, c, t, f, _) => {
            let cond = match eval_expr(c, env) {
                Ok(v) => v,
                Err(x) => return Err(x),
            };
            if cond.is_truthy() {
                eval_expr(t, env)
            } else {
                eval_expr(f, env)
            }
        },
        Expr::Define(_, _, target, v, _) => {
            let value = match eval_expr(v, env) {
                Ok(v) => v,
                Err(x) => return Err(x),
            };
            let name = match &target.kind {
                TokenKind::Symbol(s) => s.clone(),
                _ => return Err(EvalError::NotASymbol),
            };
            env.define(name, value);
            Ok(value)
        },
        Expr::Call(_, callee, args, _) => {
            let name = match &callee.kind {
                TokenKind::Symbol(s) => s,
                _ => return Err(EvalError::NotASymbol),
            };
            let b = match env.get(name.as_str()) {
                Some(Value::Callable(b)) => b,
                _ => return Err(EvalError::UndefinedProcedure(name.clone())),
            };
            let ghost s0 = env@;
            let mut vals: Vec<Value> = Vec::new();
            let mut i: usize = 0;
            proof {
                assert(args@.subrange(0, 0) =~= Seq::<Expr>::empty());
            }
            proof {
                assert forall|j: int| 0 <= j < args.len() implies decreases_to!(*e => args[j]) by {
                    assert(decreases_to!(*e => *args));
                    assert(decreases_to!(*args => args[j]));
                }
            }
            while i < args.len()
                invariant
                    0 <= i <= args.len(),
                    s0 == old(env)@,
                    callee.kind is Symbol,
                    name@ == symbol_of(*callee),
                    s0.vars.contains_key(name@),
                    s0.vars[name@] == Value::Callable(b),
                    *e == Expr::Call(e->Call_0, *callee, *args, e->Call_3),
                    forall|j: int| 0 <= j < args.len() ==> decreases_to!(*e => args[j]),
                    eval_args(args@.subrange(0, i as int), s0) == (
                        Ok::<Seq<Value>, Fault>(vals@),
                        env@,
                    ),
                decreases args.len() - i,
            {
                let r = eval_expr(&args[i], env);
                proof {
                    let pre = args@.subrange(0, i + 1);
                    assert(pre.drop_last() =~= args@.subrange(0, i as int));
                    assert(pre.last() == args@[i as int]);
                }
                match r {
                    Ok(v) => {
                        vals.push(v);
                    },
                    Err(x) => {
                        proof {
                            lemma_args_fail(args@, i + 1, s0);
                        }
                        return Err(x);
                    },
                }
                i = i + 1;
            }
            proof {
                assert(args@.subrange(0, args.len() as int) =~= args@);
            }
            call_builtin(b, vals, env)
        },
    }
}

/// Evaluate a syntax tree in the given environment.
///
/// A `define` binds in `env`, and the binding stays for later
/// evaluations; values that `print` is given are kept in `env` for the
/// driver to take.
pub fn eval_with_env(expr: Expr, env: &mut Env) -> (r: EvalResult)
    ensures
        (outcome(r), final(env)@) == eval_spec(expr, old(env)@),
{
    eval_expr(&expr, env)
}

/// Evaluate a syntax tree in a fresh environment holding the built-ins,
/// which is dropped afterwards.
pub fn eval(expr: Expr) -> (r: EvalResult)
    ensures
        outcome(r) == eval_spec(expr, State { vars: global_bindings(), printed: seq![] }).0,
{
    let mut env = make_global_env();
    eval_with_env(expr, &mut env)
}

/// The bindings of the built-in procedures.
pub open spec fn global_bindings() -> Map<Seq<char>, Value> {
    map![
        seq!['p', 'r', 'i', 'n', 't'] => Value::Callable(Builtin::Print),
        seq!['e', 'x', 'i', 't'] => Value::Callable(Builtin::Exit),
        seq!['b', 'e', 'g', 'i', 'n'] => Value::Callable(Builtin::Begin),
        seq!['+'] => Value::Callable(Builtin::Add),
        seq!['*'] => Value::Callable(Builtin::Mul),
        seq!['-'] => Value::Callable(Builtin::Sub),
        seq!['/'] => Value::Callable(Builtin::Div),
    ]
}

/// Create the global environment: the built-in procedures, bound to
/// their names, and nothing printed.
pub fn make_global_env() -> (r: Env)
    ensures
        r@.vars == global_bindings(),
        r@.printed == Seq::<Value>::empty(),
{
    let mut env = Env::new();
    env.define(String::from_str("print"), Value::Callable(Builtin::Print));
    env.define(String::from_str("exit"), Value::Callable(Builtin::Exit));
    env.define(String::from_str("begin"), Value::Callable(Builtin::Begin));
    env.define(String::from_str("+"), Value::Callable(Builtin::Add));
    env.define(String::from_str("*"), Value::Callable(Builtin::Mul));
    env.define(String::from_str("-"), Value::Callable(Builtin::Sub));
    env.define(String::from_str("/"), Value::Callable(Builtin::Div));
    proof {
        reveal_strlit("print");
        reveal_strlit("exit");
        reveal_strlit("begin");
        reveal_strlit("+");
        reveal_strlit("*");
        reveal_strlit("-");
        reveal_strlit("/");
        assert("print"@ =~= seq!['p', 'r', 'i', 'n', 't']);
        assert("exit"@ =~= seq!['e', 'x', 'i', 't']);
        assert("begin"@ =~= seq!['b', 'e', 'g', 'i', 'n']);
        assert("+"@ =~= seq!['+']);
        assert("*"@ =~= seq!['*']);
        assert("-"@ =~= seq!['-']);
        assert("/"@ =~= seq!['/']);
        assert(env@.vars =~= global_bindings());
    }
    env
}

/// A definition is seen by a later evaluation in the same environment:
/// once `def` has bound a name, evaluating that name gives the value it
/// was bound to and changes nothing.
pub proof fn lemma_define_then_lookup(def: Expr, var: Expr, s: State)
    requires
        def is Define,
        var is Symbol,
        def->Define_2.kind is Symbol,
        symbol_of(def->Define_2) == var->Symbol_1@,
        eval_spec(def, s).0 is Ok,
    ensures
        eval_spec(var, eval_spec(def, s).1) == (eval_spec(def, s).0, eval_spec(def, s).1),
{
}

/// A name that no built-in has is not bound in a fresh environment:
/// evaluating it there fails with `UndefinedSymbol`.
pub proof fn lemma_fresh_lookup(var: Expr)
    requires
        var is Symbol,
        !global_bindings().contains_key(var->Symbol_1@),
    ensures
        eval_spec(var, State { vars: global_bindings(), printed: seq![] }).0 == Err::<Value, Fault>(
            Fault::UndefinedSymbol(var->Symbol_1@),
        ),
{
}

} // verus!
