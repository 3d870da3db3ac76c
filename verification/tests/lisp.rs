use algorithms::builtins::{apply_builtin, standard_env};
use algorithms::equality::{env_equal, exp_equal};
use algorithms::error::{EvalError, Form, ParseError};
use algorithms::eval::{apply, eval};
use algorithms::expr::{Builtin, Env, Exp};
use algorithms::number::{
    bits_below, bits_equal, bits_is_nan, bits_is_zero, bits_negated, Arith, ONE_BITS, ZERO_BITS,
};
use algorithms::reader::{atom, atom_of, parse, read_from_tokens, tokenize};
use std::rc::Rc;

const DEPTH: usize = 200;

// The library leaves every floating-point operation to its caller. These
// are the three that the tests hand to it.

fn number(token: &str) -> Option<u64> {
    token.parse::<f64>().ok().map(f64::to_bits)
}

fn arith(op: Arith, a: u64, b: u64) -> u64 {
    let x = f64::from_bits(a);
    let y = f64::from_bits(b);
    let r = match op {
        Arith::Add => x + y,
        Arith::Sub => x - y,
        Arith::Mul => x * y,
        Arith::Div => x / y,
    };
    r.to_bits()
}

fn show(bits: u64) -> String {
    format!("{}", f64::from_bits(bits))
}

fn num(value: f64) -> Exp {
    Exp::Number(value.to_bits())
}

fn sym(name: &str) -> Exp {
    Exp::Symbol(name.to_string())
}

fn read(program: &str) -> Exp {
    parse(program, &number).expect("the program is an expression")
}

fn run(program: &str) -> Result<Exp, EvalError> {
    eval(&read(program), &standard_env(), &arith, DEPTH)
}

fn text(program: &str) -> String {
    run(program).expect("the program has a value").to_text(&show)
}

fn words(tokens: &[&str]) -> Vec<String> {
    tokens.iter().map(|t| t.to_string()).collect()
}

// The scenarios.

#[test]
fn sum_of_two_numbers() {
    assert_eq!(run("(+ 1 2)"), Ok(num(3.0)));
}

#[test]
fn if_takes_the_branch_of_its_test() {
    assert_eq!(run("(if (> 3 2) 1 2)"), Ok(num(1.0)));
    assert_eq!(run("(if (< 3 2) 1 2)"), Ok(num(2.0)));
}

#[test]
fn quote_returns_its_operand_unevaluated() {
    assert_eq!(run("(quote (1 2 3))"), Ok(Exp::List(vec![num(1.0), num(2.0), num(3.0)])));
    assert_eq!(run("(quote nowhere-defined)"), Ok(sym("nowhere-defined")));
    assert_eq!(run("(quote (nowhere-defined))"), Ok(Exp::List(vec![sym("nowhere-defined")])));
}

#[test]
fn lambda_squares_its_argument() {
    assert_eq!(run("((lambda (x) (* x x)) 5)"), Ok(num(25.0)));
}

#[test]
fn parameter_is_not_visible_outside_the_call() {
    let env = standard_env();
    let call = read("((lambda (x) (* x x)) 5)");
    assert_eq!(eval(&call, &env, &arith, DEPTH), Ok(num(25.0)));
    assert_eq!(
        eval(&sym("x"), &env, &arith, DEPTH),
        Err(EvalError::UndefinedSymbol("x".to_string()))
    );
    assert_eq!(env.find("x"), None);
}

#[test]
fn car_of_a_list_and_of_the_empty_list() {
    assert_eq!(run("(car (list 1 2 3))"), Ok(num(1.0)));
    assert_eq!(run("(car (list))"), Err(EvalError::WrongArgumentKind(Builtin::Car)));
}

// The reader.

#[test]
fn tokenize_splits_at_parentheses_and_spaces() {
    assert_eq!(
        tokenize("(+ 1\t(foo  2))"),
        words(&["(", "+", "1", "(", "foo", "2", ")", ")"])
    );
    assert_eq!(tokenize("(a)(b)"), words(&["(", "a", ")", "(", "b", ")"]));
    assert_eq!(tokenize("abc"), words(&["abc"]));
}

#[test]
fn tokenize_of_nothing_is_nothing() {
    assert_eq!(tokenize(""), Vec::<String>::new());
    assert_eq!(tokenize("  \n\t "), Vec::<String>::new());
}

#[test]
fn tokenize_knows_the_white_space_of_unicode() {
    assert_eq!(tokenize("a\u{a0}b\u{2003}c\u{3000}d\u{85}e"), words(&["a", "b", "c", "d", "e"]));
    assert_eq!(tokenize("a\u{200b}b"), words(&["a\u{200b}b"]));
}

#[test]
fn tokenize_agrees_with_padding_and_splitting() {
    for program in ["(define (f x) (* x  x))", " ( ) ", "(a\r\n(b\u{2028}c))x", "((((", "é(ü)"] {
        let padded = program.replace('(', " ( ").replace(')', " ) ");
        let expected: Vec<String> = padded.split_whitespace().map(String::from).collect();
        assert_eq!(tokenize(program), expected);
    }
}

#[test]
fn tokenize_keeps_quotes_and_semicolons_as_token_characters() {
    assert_eq!(tokenize("\"a b\" ;c"), words(&["\"a", "b\"", ";c"]));
}

#[test]
fn atom_is_a_number_where_the_token_reads_as_one() {
    assert_eq!(atom("42", &number), num(42.0));
    assert_eq!(atom("-1.5e3", &number), num(-1500.0));
    assert_eq!(atom("inf", &number), num(f64::INFINITY));
    assert_eq!(atom("x1", &number), sym("x1"));
    assert_eq!(atom("+", &number), sym("+"));
    assert_eq!(atom("1+", &number), sym("1+"));
}

#[test]
fn atom_of_a_token_and_what_it_was_read_as() {
    assert_eq!(atom_of("1", Some(7)), Exp::Number(7));
    assert_eq!(atom_of("1", None), sym("1"));
    assert_eq!(atom_of("", None), sym(""));
}

#[test]
fn parse_reads_atoms_and_nested_lists() {
    assert_eq!(read("7"), num(7.0));
    assert_eq!(read("seven"), sym("seven"));
    assert_eq!(read("()"), Exp::List(vec![]));
    assert_eq!(
        read("(a (b 1) ())"),
        Exp::List(vec![sym("a"), Exp::List(vec![sym("b"), num(1.0)]), Exp::List(vec![])])
    );
}

#[test]
fn parse_fails_on_unbalanced_input() {
    assert_eq!(parse("(+ 1 2", &number), Err(ParseError::UnexpectedEof));
    assert_eq!(parse("(+ (1 2)", &number), Err(ParseError::UnexpectedEof));
    assert_eq!(parse("(", &number), Err(ParseError::UnexpectedEof));
    assert_eq!(parse(")", &number), Err(ParseError::UnmatchedCloseParen));
    assert_eq!(parse(") (", &number), Err(ParseError::UnmatchedCloseParen));
}

#[test]
fn parse_fails_on_nothing() {
    assert_eq!(parse("", &number), Err(ParseError::UnexpectedEof));
    assert_eq!(parse("   ", &number), Err(ParseError::UnexpectedEof));
}

#[test]
fn parse_reads_the_first_expression_only() {
    assert_eq!(read("1 2"), num(1.0));
    assert_eq!(read("(a) b"), Exp::List(vec![sym("a")]));
    assert_eq!(read("(a))"), Exp::List(vec![sym("a")]));
}

#[test]
fn read_from_tokens_returns_the_place_after_the_expression() {
    let tokens = words(&["(", "a", ")", "b", ")"]);
    assert_eq!(read_from_tokens(&tokens, 0, &number), Ok((Exp::List(vec![sym("a")]), 3)));
    assert_eq!(read_from_tokens(&tokens, 1, &number), Ok((sym("a"), 2)));
    assert_eq!(read_from_tokens(&tokens, 3, &number), Ok((sym("b"), 4)));
    assert_eq!(read_from_tokens(&tokens, 4, &number), Err(ParseError::UnmatchedCloseParen));
    assert_eq!(read_from_tokens(&tokens, 5, &number), Err(ParseError::UnexpectedEof));
    assert_eq!(read_from_tokens(&tokens, 9, &number), Err(ParseError::UnexpectedEof));
}

#[test]
fn parse_error_messages() {
    assert_eq!(ParseError::UnexpectedEof.message(), "unexpected EOF");
    assert_eq!(ParseError::UnmatchedCloseParen.message(), "unexpected ')'");
}

// The printer.

#[test]
fn text_of_each_kind_of_expression() {
    assert_eq!(sym("abc").to_text(&show), "abc");
    assert_eq!(num(3.0).to_text(&show), "3");
    assert_eq!(num(-2.5).to_text(&show), "-2.5");
    assert_eq!(Exp::List(vec![]).to_text(&show), "()");
    assert_eq!(read("(a (b 1)  ())").to_text(&show), "(a (b 1) ())");
    assert_eq!(Exp::Proc(Builtin::Add).to_text(&show), "<procedure>");
    assert_eq!(text("car"), "<procedure>");
    assert_eq!(text("(lambda (x) x)"), "<lambda>");
    assert_eq!(text("(list 1 (list 2 3))"), "(1 (2 3))");
}

#[test]
fn numbers_and_lists_of_numbers_read_back_as_they_were() {
    let values = [
        0.0,
        -0.0,
        1.0,
        -1.0,
        0.1,
        2.5e-7,
        1.0e21,
        123456789.125,
        f64::MAX,
        f64::MIN_POSITIVE,
        5e-324,
        f64::INFINITY,
        f64::NEG_INFINITY,
    ];
    for value in values {
        let x = num(value);
        assert_eq!(parse(&x.to_text(&show), &number), Ok(x));
    }
    let list = Exp::List(values.iter().map(|v| num(*v)).collect());
    assert_eq!(parse(&list.to_text(&show), &number), Ok(list));
    let empty = Exp::List(vec![]);
    assert_eq!(parse(&empty.to_text(&show), &number), Ok(empty));
    let single = Exp::List(vec![num(4.0)]);
    assert_eq!(single.to_text(&show), "(4)");
    assert_eq!(parse(&single.to_text(&show), &number), Ok(single));
}

#[test]
fn nan_reads_back_as_a_nan_that_equals_nothing() {
    let odd_nan = Exp::Number(0x7ff0_0000_0000_0001);
    let back = parse(&odd_nan.to_text(&show), &number).unwrap();
    match back {
        Exp::Number(bits) => assert!(bits_is_nan(bits)),
        _ => panic!("a number was expected"),
    }
    assert!(!exp_equal(&back, &odd_nan));
}

// The evaluator.

#[test]
fn atoms_and_the_empty_list_evaluate_to_themselves() {
    assert_eq!(run("12"), Ok(num(12.0)));
    assert_eq!(run("()"), Ok(Exp::List(vec![])));
    assert_eq!(run("+"), Ok(Exp::Proc(Builtin::Add)));
    let env = standard_env();
    assert_eq!(eval(&num(1.0), &env, &arith, 0), Ok(num(1.0)));
    assert_eq!(eval(&Exp::List(vec![]), &env, &arith, 0), Ok(Exp::List(vec![])));
    assert_eq!(eval(&sym("car"), &env, &arith, 0), Ok(Exp::Proc(Builtin::Car)));
    let closure = eval(&read("(lambda (x) x)"), &env, &arith, DEPTH).unwrap();
    assert_eq!(eval(&closure, &env, &arith, 0), Ok(closure.clone()));
}

#[test]
fn undefined_symbol_is_reported_with_its_name() {
    assert_eq!(run("y"), Err(EvalError::UndefinedSymbol("y".to_string())));
    assert_eq!(run("(+ 1 y)"), Err(EvalError::UndefinedSymbol("y".to_string())));
    assert_eq!(run("(nothing 1)"), Err(EvalError::UndefinedSymbol("nothing".to_string())));
}

#[test]
fn quote_without_operand_fails() {
    assert_eq!(run("(quote)"), Err(EvalError::MissingOperand(Form::Quote)));
    assert_eq!(run("(quote a b)"), Ok(sym("a")));
}

#[test]
fn only_zero_is_false() {
    assert_eq!(run("(if 0 1 2)"), Ok(num(2.0)));
    assert_eq!(run("(if -0 1 2)"), Ok(num(2.0)));
    assert_eq!(run("(if 0.5 1 2)"), Ok(num(1.0)));
    assert_eq!(run("(if -3 1 2)"), Ok(num(1.0)));
    assert_eq!(run("(if (/ 0 0) 1 2)"), Ok(num(1.0)));
    assert_eq!(run("(if (list) 1 2)"), Ok(num(1.0)));
    assert_eq!(run("(if (list 0) 1 2)"), Ok(num(1.0)));
    assert_eq!(run("(if (quote a) 1 2)"), Ok(num(1.0)));
    assert_eq!(run("(if car 1 2)"), Ok(num(1.0)));
}

#[test]
fn if_evaluates_the_branch_it_takes_and_no_other() {
    assert_eq!(run("(if 1 2 undefined)"), Ok(num(2.0)));
    assert_eq!(run("(if 0 undefined 3)"), Ok(num(3.0)));
    assert_eq!(run("(if 1 2)"), Ok(num(2.0)));
}

#[test]
fn if_fails_where_the_branch_it_needs_is_absent() {
    assert_eq!(run("(if)"), Err(EvalError::MissingOperand(Form::If)));
    assert_eq!(run("(if 1)"), Err(EvalError::MissingOperand(Form::If)));
    assert_eq!(run("(if 0 1)"), Err(EvalError::MissingOperand(Form::If)));
    assert_eq!(run("(if undefined 1 2)"), Err(EvalError::UndefinedSymbol("undefined".to_string())));
}

// Of the two readings of `define`, this library takes the first: the
// binding is made in a copy of the frame, so a definition does not last
// beyond the expression that makes it.
#[test]
fn define_returns_the_value_and_does_not_persist() {
    let env = standard_env();
    assert_eq!(eval(&read("(define x (+ 1 2))"), &env, &arith, DEPTH), Ok(num(3.0)));
    assert_eq!(
        eval(&sym("x"), &env, &arith, DEPTH),
        Err(EvalError::UndefinedSymbol("x".to_string()))
    );
    assert_eq!(env.find("x"), None);
}

#[test]
fn define_asks_for_a_symbol_and_a_value() {
    assert_eq!(run("(define)"), Err(EvalError::MissingOperand(Form::Define)));
    assert_eq!(run("(define 5 1)"), Err(EvalError::Malformed(Form::Define)));
    assert_eq!(run("(define (f) 1)"), Err(EvalError::Malformed(Form::Define)));
    assert_eq!(run("(define 5)"), Err(EvalError::Malformed(Form::Define)));
    assert_eq!(run("(define x)"), Err(EvalError::MissingOperand(Form::Define)));
    assert_eq!(run("(define x y)"), Err(EvalError::UndefinedSymbol("y".to_string())));
}

#[test]
fn lambda_makes_a_closure_without_evaluating_the_body() {
    let env = standard_env();
    let closure = eval(&read("(lambda (a b) (undefined a b))"), &env, &arith, DEPTH).unwrap();
    match &closure {
        Exp::Lambda(params, body, captured) => {
            assert_eq!(params, &words(&["a", "b"]));
            assert_eq!(**body, read("(undefined a b)"));
            assert!(Rc::ptr_eq(captured, &env));
        }
        _ => panic!("a closure was expected"),
    }
}

#[test]
fn lambda_asks_for_a_list_of_symbols_and_a_body() {
    assert_eq!(run("(lambda)"), Err(EvalError::MissingOperand(Form::Lambda)));
    assert_eq!(run("(lambda x x)"), Err(EvalError::Malformed(Form::Lambda)));
    assert_eq!(run("(lambda 1 x)"), Err(EvalError::Malformed(Form::Lambda)));
    assert_eq!(run("(lambda (x 1) x)"), Err(EvalError::ParameterNotSymbol));
    assert_eq!(run("(lambda ((x)) x)"), Err(EvalError::ParameterNotSymbol));
    assert_eq!(run("(lambda (1))"), Err(EvalError::ParameterNotSymbol));
    assert_eq!(run("(lambda (x))"), Err(EvalError::MissingOperand(Form::Lambda)));
}

#[test]
fn closures_see_the_environment_they_were_made_in() {
    assert_eq!(run("((lambda (x) ((lambda (y) (+ x y)) 2)) 1)"), Ok(num(3.0)));
    assert_eq!(run("(((lambda (x) (lambda (y) (- x y))) 10) 4)"), Ok(num(6.0)));
    assert_eq!(run("((lambda (x) ((lambda (x) x) 2)) 1)"), Ok(num(2.0)));
    assert_eq!(run("((lambda (car) (car 1)) (lambda (x) (+ x 1)))"), Ok(num(2.0)));
}

#[test]
fn parameters_and_arguments_are_matched_as_far_as_both_go() {
    assert_eq!(run("((lambda (x y) x) 1)"), Ok(num(1.0)));
    assert_eq!(
        run("((lambda (x y) y) 1)"),
        Err(EvalError::UndefinedSymbol("y".to_string()))
    );
    assert_eq!(run("((lambda (x) x) 1 2 3)"), Ok(num(1.0)));
    assert_eq!(run("((lambda () 7))"), Ok(num(7.0)));
    assert_eq!(run("((lambda (x x) x) 1 2)"), Ok(num(2.0)));
}

#[test]
fn head_that_is_no_procedure_fails() {
    assert_eq!(run("(1 2)"), Err(EvalError::NotAProcedure));
    assert_eq!(run("((list 1) 2)"), Err(EvalError::NotAProcedure));
    assert_eq!(run("((quote car) (list 1))"), Err(EvalError::NotAProcedure));
}

#[test]
fn first_failure_is_the_failure_of_the_whole() {
    assert_eq!(run("(+ a b)"), Err(EvalError::UndefinedSymbol("a".to_string())));
    assert_eq!(run("(1 a)"), Err(EvalError::UndefinedSymbol("a".to_string())));
    assert_eq!(run("(f a)"), Err(EvalError::UndefinedSymbol("f".to_string())));
    assert_eq!(run("(+ 1 (car (list)) b)"), Err(EvalError::WrongArgumentKind(Builtin::Car)));
    assert_eq!(run("(list (- ) (1))"), Err(EvalError::WrongArgumentCount(Builtin::Sub)));
}

#[test]
fn evaluation_stops_at_the_depth_it_was_given() {
    let env = standard_env();
    let sum = read("(+ 1 2)");
    assert_eq!(eval(&sum, &env, &arith, 0), Err(EvalError::TooDeep));
    assert_eq!(eval(&sum, &env, &arith, 1), Ok(num(3.0)));
    let nested = read("(+ 1 (+ 2 3))");
    assert_eq!(eval(&nested, &env, &arith, 1), Err(EvalError::TooDeep));
    assert_eq!(eval(&nested, &env, &arith, 2), Ok(num(6.0)));
    let call = read("((lambda (x) (* x x)) 5)");
    assert_eq!(eval(&call, &env, &arith, 1), Err(EvalError::TooDeep));
    assert_eq!(eval(&call, &env, &arith, 2), Ok(num(25.0)));
    assert_eq!(eval(&read("(quote (a (b (c))))"), &env, &arith, 1), Ok(read("(a (b (c)))")));
}

#[test]
fn endless_recursion_ends_as_too_deep() {
    assert_eq!(run("((lambda (f) (f f)) (lambda (f) (f f)))"), Err(EvalError::TooDeep));
}

#[test]
fn recursion_through_self_application() {
    let factorial = "((lambda (f n) (f f n)) \
                      (lambda (f n) (if (< n 2) 1 (* n (f f (- n 1))))) 10)";
    assert_eq!(run(factorial), Ok(num(3628800.0)));
}

#[test]
fn apply_calls_primitives_and_closures() {
    let env = standard_env();
    assert_eq!(
        apply(&Exp::Proc(Builtin::Sub), &vec![num(9.0), num(4.0)], &arith, 0),
        Ok(num(5.0))
    );
    let closure = eval(&read("(lambda (x y) (list y x))"), &env, &arith, DEPTH).unwrap();
    assert_eq!(
        apply(&closure, &vec![num(1.0), num(2.0)], &arith, 1),
        Ok(Exp::List(vec![num(2.0), num(1.0)]))
    );
    assert_eq!(apply(&closure, &vec![num(1.0), num(2.0)], &arith, 0), Err(EvalError::TooDeep));
    assert_eq!(apply(&num(1.0), &vec![], &arith, 5), Err(EvalError::NotAProcedure));
    assert_eq!(apply(&sym("car"), &vec![], &arith, 5), Err(EvalError::NotAProcedure));
}

// The primitives.

#[test]
fn sums_and_products() {
    assert_eq!(run("(+)"), Ok(num(0.0)));
    assert_eq!(run("(+ 5)"), Ok(num(5.0)));
    assert_eq!(run("(+ 1 2 3 4)"), Ok(num(10.0)));
    assert_eq!(run("(+ 0.1 0.2)"), Ok(num(0.1 + 0.2)));
    assert_eq!(run("(+ -0)"), Ok(num(0.0)));
    assert_eq!(run("(*)"), Ok(num(1.0)));
    assert_eq!(run("(* 7)"), Ok(num(7.0)));
    assert_eq!(run("(* 2 3 4)"), Ok(num(24.0)));
    assert_eq!(run("(+ 1 (quote a))"), Err(EvalError::WrongArgumentKind(Builtin::Add)));
    assert_eq!(run("(* (list) 2)"), Err(EvalError::WrongArgumentKind(Builtin::Mul)));
}

#[test]
fn differences_and_quotients() {
    assert_eq!(run("(- 5)"), Ok(num(-5.0)));
    assert_eq!(run("(- 0)"), Ok(num(-0.0)));
    assert_eq!(run("(- 10 1 2)"), Ok(num(7.0)));
    assert_eq!(run("(-)"), Err(EvalError::WrongArgumentCount(Builtin::Sub)));
    assert_eq!(run("(- (quote a))"), Err(EvalError::WrongArgumentKind(Builtin::Sub)));
    assert_eq!(run("(- 1 (quote a))"), Err(EvalError::WrongArgumentKind(Builtin::Sub)));
    assert_eq!(run("(/ 8 2 2)"), Ok(num(2.0)));
    assert_eq!(run("(/ 5)"), Ok(num(5.0)));
    assert_eq!(run("(/ 1 3)"), Ok(num(1.0 / 3.0)));
    assert_eq!(run("(/)"), Err(EvalError::WrongArgumentCount(Builtin::Div)));
    assert_eq!(run("(/ (list 1) 2)"), Err(EvalError::WrongArgumentKind(Builtin::Div)));
    assert_eq!(run("(/ 1 car)"), Err(EvalError::WrongArgumentKind(Builtin::Div)));
}

#[test]
fn division_by_zero_follows_the_numbers() {
    assert_eq!(run("(/ 1 0)"), Ok(num(f64::INFINITY)));
    assert_eq!(run("(/ -1 0)"), Ok(num(f64::NEG_INFINITY)));
    match run("(/ 0 0)") {
        Ok(Exp::Number(bits)) => assert!(bits_is_nan(bits)),
        other => panic!("a NaN was expected, not {:?}", other),
    }
}

#[test]
fn comparisons() {
    assert_eq!(run("(< 1 2)"), Ok(num(1.0)));
    assert_eq!(run("(< 2 1)"), Ok(num(0.0)));
    assert_eq!(run("(< 1 1)"), Ok(num(0.0)));
    assert_eq!(run("(< -2 -1)"), Ok(num(1.0)));
    assert_eq!(run("(< -1 1)"), Ok(num(1.0)));
    assert_eq!(run("(< -0 0)"), Ok(num(0.0)));
    assert_eq!(run("(> 1 2)"), Ok(num(0.0)));
    assert_eq!(run("(> 2 1)"), Ok(num(1.0)));
    assert_eq!(run("(> 0 -0)"), Ok(num(0.0)));
    assert_eq!(run("(< (/ 0 0) 1)"), Ok(num(0.0)));
    assert_eq!(run("(> (/ 0 0) 1)"), Ok(num(0.0)));
    assert_eq!(run("(< 1)"), Err(EvalError::WrongArgumentCount(Builtin::Less)));
    assert_eq!(run("(< 1 2 3)"), Err(EvalError::WrongArgumentCount(Builtin::Less)));
    assert_eq!(run("(>)"), Err(EvalError::WrongArgumentCount(Builtin::Greater)));
    assert_eq!(run("(< 1 (quote a))"), Err(EvalError::WrongArgumentKind(Builtin::Less)));
    assert_eq!(run("(> (list) 1)"), Err(EvalError::WrongArgumentKind(Builtin::Greater)));
}

#[test]
fn equality_is_structural() {
    assert_eq!(run("(= 1 1)"), Ok(num(1.0)));
    assert_eq!(run("(= 1 2)"), Ok(num(0.0)));
    assert_eq!(run("(= 0 -0)"), Ok(num(1.0)));
    assert_eq!(run("(= (/ 0 0) (/ 0 0))"), Ok(num(0.0)));
    assert_eq!(run("(= (quote a) (quote a))"), Ok(num(1.0)));
    assert_eq!(run("(= (quote a) (quote b))"), Ok(num(0.0)));
    assert_eq!(run("(= (quote a) 1)"), Ok(num(0.0)));
    assert_eq!(run("(= (list 1 (list 2 3)) (list 1 (list 2 3)))"), Ok(num(1.0)));
    assert_eq!(run("(= (list 1 2) (list 1 2 3))"), Ok(num(0.0)));
    assert_eq!(run("(= (list 1 2) (list 1 3))"), Ok(num(0.0)));
    assert_eq!(run("(= (list) (list))"), Ok(num(1.0)));
    assert_eq!(run("(= car car)"), Ok(num(1.0)));
    assert_eq!(run("(= car cdr)"), Ok(num(0.0)));
    assert_eq!(run("(= (lambda (x) x) (lambda (x) x))"), Ok(num(1.0)));
    assert_eq!(run("(= (lambda (x) x) (lambda (y) y))"), Ok(num(0.0)));
    assert_eq!(run("(= (lambda (x) x) (lambda (x) 1))"), Ok(num(0.0)));
    assert_eq!(run("(= 1)"), Err(EvalError::WrongArgumentCount(Builtin::Equal)));
    assert_eq!(run("(= 1 1 1)"), Err(EvalError::WrongArgumentCount(Builtin::Equal)));
}

#[test]
fn closures_are_equal_where_their_environments_are() {
    let same = "((lambda (make) (= (make 1) (make 1))) (lambda (n) (lambda () n)))";
    assert_eq!(run(same), Ok(num(1.0)));
    let other = "((lambda (make) (= (make 1) (make 2))) (lambda (n) (lambda () n)))";
    assert_eq!(run(other), Ok(num(0.0)));
}

#[test]
fn lists() {
    assert_eq!(run("(list)"), Ok(Exp::List(vec![])));
    assert_eq!(run("(list 1 (quote a) (list))"), Ok(Exp::List(vec![num(1.0), sym("a"), Exp::List(vec![])])));
    assert_eq!(run("(car (list (list 1) 2))"), Ok(Exp::List(vec![num(1.0)])));
    assert_eq!(run("(cdr (list 1 2 3))"), Ok(Exp::List(vec![num(2.0), num(3.0)])));
    assert_eq!(run("(cdr (list 1))"), Ok(Exp::List(vec![])));
    assert_eq!(run("(cdr (list))"), Err(EvalError::WrongArgumentKind(Builtin::Cdr)));
    assert_eq!(run("(car 5)"), Err(EvalError::WrongArgumentKind(Builtin::Car)));
    assert_eq!(run("(cdr (quote a))"), Err(EvalError::WrongArgumentKind(Builtin::Cdr)));
    assert_eq!(run("(car)"), Err(EvalError::WrongArgumentCount(Builtin::Car)));
    assert_eq!(run("(cdr)"), Err(EvalError::WrongArgumentCount(Builtin::Cdr)));
    assert_eq!(run("(car (list 1 2) 5)"), Ok(num(1.0)));
}

#[test]
fn apply_builtin_folds_from_the_left() {
    let args = vec![num(1.0e16), num(1.0), num(-1.0e16)];
    assert_eq!(apply_builtin(Builtin::Add, &args, &arith), Ok(num((1.0e16 + 1.0) + -1.0e16)));
    let args = vec![num(2.0), num(3.0), num(4.0)];
    assert_eq!(apply_builtin(Builtin::Sub, &args, &arith), Ok(num(-5.0)));
    assert_eq!(apply_builtin(Builtin::Div, &args, &arith), Ok(num(2.0 / 3.0 / 4.0)));
    assert_eq!(apply_builtin(Builtin::List, &args, &arith), Ok(Exp::List(args.clone())));
}

#[test]
fn arithmetic_is_what_the_caller_says_it_is() {
    let always_seven = |_: Arith, _: u64, _: u64| 7.0f64.to_bits();
    assert_eq!(
        eval(&read("(+ 1 2)"), &standard_env(), &always_seven, DEPTH),
        Ok(num(7.0))
    );
    assert_eq!(eval(&read("(- 1)"), &standard_env(), &always_seven, DEPTH), Ok(num(-1.0)));
    assert_eq!(eval(&read("(/ 3)"), &standard_env(), &always_seven, DEPTH), Ok(num(3.0)));
}

#[test]
fn error_messages() {
    let message = |program: &str| run(program).unwrap_err().message();
    assert_eq!(message("x"), "undefined symbol: x");
    assert_eq!(message("(1)"), "not a procedure");
    assert_eq!(message("(+ car)"), "+ requires numbers");
    assert_eq!(message("(-)"), "- requires arguments");
    assert_eq!(message("(- car)"), "- requires numbers");
    assert_eq!(message("(* car)"), "* requires numbers");
    assert_eq!(message("(/)"), "/ requires arguments");
    assert_eq!(message("(/ car)"), "/ requires numbers");
    assert_eq!(message("(< 1)"), "< requires 2 arguments");
    assert_eq!(message("(< 1 car)"), "< requires numbers");
    assert_eq!(message("(> 1)"), "> requires 2 arguments");
    assert_eq!(message("(> 1 car)"), "> requires numbers");
    assert_eq!(message("(= 1)"), "= requires 2 arguments");
    assert_eq!(message("(car (list))"), "car requires non-empty list");
    assert_eq!(message("(cdr 1)"), "cdr requires non-empty list");
    assert_eq!(message("(car)"), "car requires arguments");
    assert_eq!(message("(define 1 2)"), "define requires symbol");
    assert_eq!(message("(lambda 1 2)"), "lambda requires parameter list");
    assert_eq!(message("(lambda (1) 2)"), "lambda parameters must be symbols");
    assert_eq!(message("(quote)"), "quote requires more operands");
    assert_eq!(message("(if)"), "if requires more operands");
    assert_eq!(EvalError::TooDeep.message(), "evaluation nests too deeply");
}

// Numbers as encodings.

const SAMPLES: [f64; 14] = [
    0.0,
    -0.0,
    1.0,
    -1.0,
    0.5,
    -0.5,
    5e-324,
    -5e-324,
    1.0e300,
    -1.0e300,
    f64::INFINITY,
    f64::NEG_INFINITY,
    f64::NAN,
    2.0,
];

#[test]
fn order_and_equality_of_encodings_are_those_of_the_numbers() {
    for a in SAMPLES {
        for b in SAMPLES {
            assert_eq!(bits_below(a.to_bits(), b.to_bits()), a < b, "{} < {}", a, b);
            assert_eq!(bits_equal(a.to_bits(), b.to_bits()), a == b, "{} == {}", a, b);
        }
    }
}

#[test]
fn zero_nan_and_negation_of_encodings() {
    for a in SAMPLES {
        assert_eq!(bits_is_zero(a.to_bits()), a == 0.0);
        assert_eq!(bits_is_nan(a.to_bits()), a.is_nan());
        assert_eq!(bits_negated(a.to_bits()), (-a).to_bits());
    }
    assert!(bits_is_nan(0xfff8_0000_0000_0001));
    assert_eq!(ZERO_BITS, 0.0f64.to_bits());
    assert_eq!(ONE_BITS, 1.0f64.to_bits());
}

// Environments.

#[test]
fn root_environment_binds_the_ten_primitives() {
    let env = standard_env();
    let expected = [
        ("+", Builtin::Add),
        ("-", Builtin::Sub),
        ("*", Builtin::Mul),
        ("/", Builtin::Div),
        ("<", Builtin::Less),
        (">", Builtin::Greater),
        ("=", Builtin::Equal),
        ("list", Builtin::List),
        ("car", Builtin::Car),
        ("cdr", Builtin::Cdr),
    ];
    for (name, builtin) in expected {
        assert_eq!(env.find(name), Some(Exp::Proc(builtin)));
        assert_eq!(builtin.name(), name);
    }
    assert_eq!(env.find("quote"), None);
    assert!(env.outer.is_none());
}

#[test]
fn find_looks_in_the_nearest_frame_first() {
    let mut root = Env::new();
    assert_eq!(root.find("a"), None);
    root.set("a".to_string(), num(1.0));
    root.set("b".to_string(), num(2.0));
    let root = Rc::new(root);
    let mut inner = Env::with_outer(root.clone());
    assert_eq!(inner.find("a"), Some(num(1.0)));
    inner.set("a".to_string(), num(10.0));
    assert_eq!(inner.find("a"), Some(num(10.0)));
    assert_eq!(inner.find("b"), Some(num(2.0)));
    assert_eq!(inner.find("c"), None);
    assert_eq!(root.find("a"), Some(num(1.0)));
}

#[test]
fn set_replaces_an_earlier_binding_of_the_name() {
    let mut env = Env::new();
    env.set("a".to_string(), num(1.0));
    env.set("a".to_string(), num(2.0));
    assert_eq!(env.find("a"), Some(num(2.0)));
}

#[test]
fn environments_are_equal_as_mappings() {
    let mut one = Env::new();
    one.set("a".to_string(), num(1.0));
    one.set("b".to_string(), num(2.0));
    let mut other = Env::new();
    other.set("b".to_string(), num(0.0));
    other.set("a".to_string(), num(1.0));
    assert!(!env_equal(&one, &other));
    other.set("b".to_string(), num(2.0));
    assert!(env_equal(&one, &other));
    assert!(env_equal(&other, &one));
    other.set("c".to_string(), num(3.0));
    assert!(!env_equal(&one, &other));
    assert!(!env_equal(&other, &one));
    assert!(!env_equal(&Env::with_outer(Rc::new(Env::new())), &Env::new()));
    assert!(env_equal(&Env::with_outer(Rc::new(Env::new())), &Env::with_outer(Rc::new(Env::new()))));
}

#[test]
fn clone_copies_the_whole_expression() {
    let x = read("(a (b 1.5) () c)");
    assert_eq!(x.clone(), x);
    let closure = run("(lambda (x y) (+ x y))").unwrap();
    assert!(exp_equal(&closure.clone(), &closure));
}

#[test]
fn white_space_is_what_the_standard_library_takes_for_it() {
    for code in 0..=0x10ffffu32 {
        if let Some(c) = char::from_u32(code) {
            if c == '(' || c == ')' {
                continue;
            }
            let mut text = String::from("a");
            text.push(c);
            text.push('b');
            let expected = if c.is_whitespace() { 2 } else { 1 };
            assert_eq!(tokenize(&text).len(), expected, "U+{:04X}", code);
        }
    }
}
