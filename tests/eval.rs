use formula_one::ast::{Span, Token, TokenKind};
use formula_one::eval::{
    eval, eval_with_env, last_or_nil, make_global_env, to_sym, Builtin, Env, EvalError, Value,
};
use formula_one::parse::parse;

fn run(source: &str) -> Result<Value, EvalError> {
    eval(parse(source).unwrap())
}

fn run_in(source: &str, env: &mut Env) -> Result<Value, EvalError> {
    eval_with_env(parse(source).unwrap(), env)
}

#[test]
fn arithmetic_builtins() {
    assert_eq!(Ok(Value::Number(6)), run("(+ 1 2 3)"));
    assert_eq!(Ok(Value::Number(1)), run("(* )"));
    assert_eq!(Ok(Value::Number(-5)), run("(- 5)"));
    assert_eq!(Ok(Value::Number(0)), run("(+)"));
    assert_eq!(Ok(Value::Number(24)), run("(* 2 3 4)"));
    assert_eq!(Ok(Value::Number(4)), run("(- 10 4 2)"));
    assert_eq!(Ok(Value::Number(0)), run("(-)"));
    assert_eq!(Ok(Value::Number(5)), run("(/ 100 10 2)"));
    assert_eq!(Ok(Value::Number(-3)), run("(/ (- 7) 2)"));
    assert_eq!(Ok(Value::Number(0)), run("(/ 2)"));
    assert_eq!(Ok(Value::Number(1)), run("(/ 1)"));
}

#[test]
fn if_treats_only_zero_as_false() {
    assert_eq!(Ok(Value::Number(2)), run("(if 0 1 2)"));
    assert_eq!(Ok(Value::Number(1)), run("(if 5 1 2)"));
    assert_eq!(Ok(Value::Number(1)), run("(if (- 5) 1 2)"));
    assert_eq!(Ok(Value::Number(1)), run("(if + 1 2)"));
}

#[test]
fn untaken_branch_is_not_evaluated() {
    let mut env = make_global_env();
    assert_eq!(Ok(Value::Number(1)), run_in("(if 1 1 (define y 2))", &mut env));
    assert_eq!(
        Err(EvalError::UndefinedSymbol("y".into())),
        run_in("y", &mut env)
    );
}

#[test]
fn define_is_seen_in_same_environment() {
    let mut env = make_global_env();
    assert_eq!(Ok(Value::Number(10)), run_in("(define x 10) ", &mut env));
    assert_eq!(Ok(Value::Number(10)), run_in("x", &mut env));
    let mut fresh = make_global_env();
    assert_eq!(
        Err(EvalError::UndefinedSymbol("x".into())),
        run_in("x", &mut fresh)
    );
}

#[test]
fn define_overwrites() {
    let mut env = make_global_env();
    assert_eq!(Ok(Value::Number(1)), run_in("(define x 1)", &mut env));
    assert_eq!(Ok(Value::Number(3)), run_in("(define x (+ x 2))", &mut env));
    assert_eq!(Ok(Value::Number(3)), run_in("x", &mut env));
}

#[test]
fn unbound_procedure() {
    assert_eq!(
        Err(EvalError::UndefinedProcedure("foo".into())),
        run("(foo 1)")
    );
    let mut env = make_global_env();
    assert_eq!(Ok(Value::Number(1)), run_in("(define one 1)", &mut env));
    assert_eq!(
        Err(EvalError::UndefinedProcedure("one".into())),
        run_in("(one)", &mut env)
    );
}

#[test]
fn division_by_zero_is_an_error() {
    assert_eq!(Err(EvalError::DivisionByZero), run("(/ 1 0)"));
    assert_eq!(Err(EvalError::DivisionByZero), run("(/ 0)"));
}

#[test]
fn errors_of_builtins() {
    assert_eq!(Err(EvalError::NotANumber(Builtin::Add)), run("(+ 1 +)"));
    assert_eq!(Err(EvalError::WrongArity(Builtin::Div)), run("(/)"));
    assert_eq!(Err(EvalError::Overflow), run("(+ 9223372036854775807 1)"));
    assert_eq!(Err(EvalError::Overflow), run("(* 9223372036854775807 2)"));
    assert_eq!(Err(EvalError::Overflow), run("(- (- 9223372036854775807) 2)"));
    assert_eq!(
        Err(EvalError::Overflow),
        run("(/ (- (- 9223372036854775807) 1) (- 1))")
    );
    assert_eq!(Err(EvalError::UndefinedSymbol("z".into())), run("(+ 1 z)"));
}

#[test]
fn exit_reports_its_status() {
    assert_eq!(Err(EvalError::Exit(0)), run("(exit)"));
    assert_eq!(Err(EvalError::Exit(3)), run("(exit 3)"));
    assert_eq!(Err(EvalError::WrongArity(Builtin::Exit)), run("(exit 1 2)"));
    assert_eq!(Err(EvalError::Exit(4)), run("(begin (exit 4) (foo))"));
}

#[test]
fn print_and_begin() {
    let mut env = make_global_env();
    assert_eq!(Ok(Value::Number(2)), run_in("(print 1 2)", &mut env));
    assert_eq!(Ok(Value::Nil), run_in("(print)", &mut env));
    assert_eq!(Ok(Value::Number(3)), run_in("(begin (print 3))", &mut env));
    assert_eq!(
        vec![Value::Number(1), Value::Number(2), Value::Number(3)],
        env.take_printed()
    );
    assert_eq!(Vec::<Value>::new(), env.take_printed());
    assert_eq!(Ok(Value::Nil), run("(begin)"));
}

#[test]
fn arguments_stop_at_first_failure() {
    let mut env = make_global_env();
    assert_eq!(
        Err(EvalError::UndefinedSymbol("nope".into())),
        run_in("(begin (define a 1) nope (define b 2))", &mut env)
    );
    assert_eq!(Ok(Value::Number(1)), run_in("a", &mut env));
    assert_eq!(
        Err(EvalError::UndefinedSymbol("b".into())),
        run_in("b", &mut env)
    );
}

#[test]
fn value_helpers() {
    assert!(!Value::Number(0).is_truthy());
    assert!(Value::Number(-1).is_truthy());
    assert!(Value::Nil.is_truthy());
    assert_eq!(Some(7), Value::Number(7).into_num());
    assert_eq!(None, Value::Callable(Builtin::Add).into_num());
}

#[test]
fn global_env_binds_builtins() {
    let env = make_global_env();
    assert_eq!(Some(Value::Callable(Builtin::Print)), env.get("print"));
    assert_eq!(Some(Value::Callable(Builtin::Div)), env.get("/"));
    assert_eq!(None, env.get("x"));
    assert_eq!(None, Env::new().get("print"));
}

#[test]
fn token_to_symbol_and_last_value() {
    let sym = Token::with_span(TokenKind::Symbol("abc".into()), Span::new(1, 4));
    assert_eq!(Ok("abc".to_string()), to_sym(sym));
    let num = Token::with_span(TokenKind::Number(3), Span::new(1, 2));
    assert_eq!(Err(EvalError::NotASymbol), to_sym(num));
    assert_eq!(Value::Nil, last_or_nil(vec![]));
    assert_eq!(
        Value::Number(2),
        last_or_nil(vec![Value::Number(1), Value::Number(2)])
    );
}

#[test]
fn sum_and_product_are_exact() {
    assert_eq!(
        Ok(Value::Number(i64::MAX)),
        run("(+ 9223372036854775807 1 (- 1))")
    );
    assert_eq!(Ok(Value::Number(0)), run("(* 9223372036854775807 2 0)"));
    assert_eq!(
        Ok(Value::Number(i64::MIN)),
        run("(* (- (- 9223372036854775807) 1) (- 1) (- 1))")
    );
    assert_eq!(
        Ok(Value::Number(i64::MIN)),
        run("(+ (- 9223372036854775807) (- 1))")
    );
    assert_eq!(Err(EvalError::NotANumber(Builtin::Mul)), run("(* 4294967296 0 +)"));
    assert_eq!(Err(EvalError::Overflow), run("(* 4294967296 4294967296 1)"));
    assert_eq!(Err(EvalError::Overflow), run("(+ 9223372036854775807 9223372036854775807 (- 1))"));
}
