//! The primitive procedures and the root environment that binds them.

use crate::equality::{exp_equal, same_value};
use crate::error::{builtin_name, EvalError, EvalErrorModel};
use crate::expr::{exps_model, lemma_model_shape, Builtin, Env, EnvModel, Exp, ExpModel};
use crate::number::{below, bits_below, bits_negated, negated, Arith, ONE_BITS, ZERO_BITS};
use std::rc::Rc;
use vstd::prelude::*;
use vstd::string::StringExecFns;

verus! {

/// A rounding operation as a mathematical function on encodings.
pub type ArithModel = spec_fn(Arith, u64, u64) -> u64;

/// Whether `f` may be called on every operation and every pair of encodings,
/// and what it returns is a function of its arguments.
pub open spec fn arith_ready<A: Fn(Arith, u64, u64) -> u64>(f: &A) -> bool {
    &&& forall|op: Arith, a: u64, b: u64| f.requires((op, a, b))
    &&& forall|op: Arith, a: u64, b: u64, r1: u64, r2: u64|
        f.ensures((op, a, b), r1) && f.ensures((op, a, b), r2) ==> r1 == r2
}

/// The function that `f` computes.
pub open spec fn arith_model<A: Fn(Arith, u64, u64) -> u64>(f: &A) -> ArithModel {
    |op: Arith, a: u64, b: u64| choose|r: u64| f.ensures((op, a, b), r)
}

/// The encoding of a truth value: `1.0` for true, `0.0` for false.
pub open spec fn truth(b: bool) -> u64 {
    if b {
        ONE_BITS
    } else {
        ZERO_BITS
    }
}

/// The left fold of `op` over `args`, starting from `acc`: none if an
/// argument is not a number.
pub open spec fn fold_numbers(op: Arith, acc: u64, args: Seq<ExpModel>, arith: ArithModel) -> Option<
    u64,
>
    decreases args.len(),
{
    if args.len() == 0 {
        Some(acc)
    } else {
        match args[0] {
            ExpModel::Number(n) => fold_numbers(op, arith(op, acc, n), args.drop_first(), arith),
            _ => None,
        }
    }
}

/// Folds `op` over the arguments from place `from` on, starting from
/// `start`: none if one of them is not a number.
fn fold<A: Fn(Arith, u64, u64) -> u64>(
    op: Arith,
    start: u64,
    args: &Vec<Exp>,
    from: usize,
    arith: &A,
) -> (r: Option<u64>)
    requires
        arith_ready(arith),
        from <= args.len(),
    ensures
        r == fold_numbers(op, start, exps_model(*args).skip(from as int), arith_model(arith)),
{
    let mut acc: u64 = start;
    let mut i: usize = from;
    while i < args.len()
        invariant
            arith_ready(arith),
            from <= i <= args.len(),
            fold_numbers(op, acc, exps_model(*args).skip(i as int), arith_model(arith))
                == fold_numbers(
                op,
                start,
                exps_model(*args).skip(from as int),
                arith_model(arith),
            ),
        decreases args.len() - i,
    {
        let ghost rest = exps_model(*args).skip(i as int);
        assert(rest[0] == args@[i as int]@);
        assert(rest.drop_first() == exps_model(*args).skip(i + 1));
        match &args[i] {
            Exp::Number(n) => {
                acc = arith(op, acc, *n);
            },
            _ => {
                return None;
            },
        }
        i += 1;
    }
    Some(acc)
}

/// What a primitive returns for a sequence of argument values.
pub open spec fn builtin_model(b: Builtin, args: Seq<ExpModel>, arith: ArithModel) -> Result<
    ExpModel,
    EvalErrorModel,
> {
    match b {
        Builtin::Add => match fold_numbers(Arith::Add, ZERO_BITS, args, arith) {
            Some(sum) => Ok(ExpModel::Number(sum)),
            None => Err(EvalErrorModel::WrongArgumentKind(b)),
        },
        Builtin::Mul => match fold_numbers(Arith::Mul, ONE_BITS, args, arith) {
            Some(product) => Ok(ExpModel::Number(product)),
            None => Err(EvalErrorModel::WrongArgumentKind(b)),
        },
        Builtin::Sub => if args.len() == 0 {
            Err(EvalErrorModel::WrongArgumentCount(b))
        } else {
            match args[0] {
                ExpModel::Number(first) => if args.len() == 1 {
                    Ok(ExpModel::Number(negated(first)))
                } else {
                    match fold_numbers(Arith::Sub, first, args.skip(1), arith) {
                        Some(difference) => Ok(ExpModel::Number(difference)),
                        None => Err(EvalErrorModel::WrongArgumentKind(b)),
                    }
                },
                _ => Err(EvalErrorModel::WrongArgumentKind(b)),
            }
        },
        Builtin::Div => if args.len() == 0 {
            Err(EvalErrorModel::WrongArgumentCount(b))
        } else {
            match args[0] {
                ExpModel::Number(first) => match fold_numbers(
                    Arith::Div,
                    first,
                    args.skip(1),
                    arith,
                ) {
                    Some(quotient) => Ok(ExpModel::Number(quotient)),
                    None => Err(EvalErrorModel::WrongArgumentKind(b)),
                },
                _ => Err(EvalErrorModel::WrongArgumentKind(b)),
            }
        },
        Builtin::Less => if args.len() != 2 {
            Err(EvalErrorModel::WrongArgumentCount(b))
        } else {
            match (args[0], args[1]) {
                (ExpModel::Number(x), ExpModel::Number(y)) => Ok(
                    ExpModel::Number(truth(below(x, y))),
                ),
                _ => Err(EvalErrorModel::WrongArgumentKind(b)),
            }
        },
        Builtin::Greater => if args.len() != 2 {
            Err(EvalErrorModel::WrongArgumentCount(b))
        } else {
            match (args[0], args[1]) {
                (ExpModel::Number(x), ExpModel::Number(y)) => Ok(
                    ExpModel::Number(truth(below(y, x))),
                ),
                _ => Err(EvalErrorModel::WrongArgumentKind(b)),
            }
        },
        Builtin::Equal => if args.len() != 2 {
            Err(EvalErrorModel::WrongArgumentCount(b))
        } else {
            Ok(ExpModel::Number(truth(same_value(args[0], args[1]))))
        },
        Builtin::List => Ok(ExpModel::List(args)),
        Builtin::Car => if args.len() == 0 {
            Err(EvalErrorModel::WrongArgumentCount(b))
        } else {
            match args[0] {
                ExpModel::List(items) => if items.len() > 0 {
                    Ok(items[0])
                } else {
                    Err(EvalErrorModel::WrongArgumentKind(b))
                },
                _ => Err(EvalErrorModel::WrongArgumentKind(b)),
            }
        },
        Builtin::Cdr => if args.len() == 0 {
            Err(EvalErrorModel::WrongArgumentCount(b))
        } else {
            match args[0] {
                ExpModel::List(items) => if items.len() > 0 {
                    Ok(ExpModel::List(items.skip(1)))
                } else {
                    Err(EvalErrorModel::WrongArgumentKind(b))
                },
                _ => Err(EvalErrorModel::WrongArgumentKind(b)),
            }
        },
    }
}

/// What an evaluation returns, apart from how it is laid out in memory.
pub open spec fn outcome_model(r: Result<Exp, EvalError>) -> Result<ExpModel, EvalErrorModel> {
    match r {
        Ok(value) => Ok(value@),
        Err(e) => Err(e@),
    }
}

/// The number that stands for a truth value.
fn truth_value(b: bool) -> (r: Exp)
    ensures
        r@ == ExpModel::Number(truth(b)),
{
    if b {
        Exp::Number(ONE_BITS)
    } else {
        Exp::Number(ZERO_BITS)
    }
}

/// A copy of the items of `items` from place `from` on.
fn copy_from(items: &Vec<Exp>, from: usize) -> (r: Vec<Exp>)
    requires
        from <= items.len(),
    ensures
        exps_model(r) == exps_model(*items).skip(from as int),
{
    let mut r: Vec<Exp> = Vec::new();
    let mut i: usize = from;
    while i < items.len()
        invariant
            from <= i <= items.len(),
            r.len() == i - from,
            forall|j: int| 0 <= j < r.len() ==> r@[j]@ == items@[from + j]@,
        decreases items.len() - i,
    {
        r.push(items[i].clone());
        i += 1;
    }
    assert(exps_model(r) =~= exps_model(*items).skip(from as int));
    r
}

/// Applies a primitive to argument values.
pub fn apply_builtin<A: Fn(Arith, u64, u64) -> u64>(b: Builtin, args: &Vec<Exp>, arith: &A) -> (r:
    Result<Exp, EvalError>)
    requires
        arith_ready(arith),
    ensures
        outcome_model(r) == builtin_model(b, exps_model(*args), arith_model(arith)),
{
    let ghost models = exps_model(*args);
    proof {
        assert(models.skip(0) == models);
        if args.len() > 0 {
            lemma_model_shape(args@[0]);
            assert(models[0] == args@[0]@);
        }
        if args.len() > 1 {
            lemma_model_shape(args@[1]);
            assert(models[1] == args@[1]@);
        }
    }
    match b {
        Builtin::Add => match fold(Arith::Add, ZERO_BITS, args, 0, arith) {
            Some(sum) => Ok(Exp::Number(sum)),
            None => Err(EvalError::WrongArgumentKind(b)),
        },
        Builtin::Mul => match fold(Arith::Mul, ONE_BITS, args, 0, arith) {
            Some(product) => Ok(Exp::Number(product)),
            None => Err(EvalError::WrongArgumentKind(b)),
        },
        Builtin::Sub => {
            if args.len() == 0 {
                return Err(EvalError::WrongArgumentCount(b));
            }
            match &args[0] {
                Exp::Number(first) => {
                    if args.len() == 1 {
                        Ok(Exp::Number(bits_negated(*first)))
                    } else {
                        match fold(Arith::Sub, *first, args, 1, arith) {
                            Some(difference) => Ok(Exp::Number(difference)),
                            None => Err(EvalError::WrongArgumentKind(b)),
                        }
                    }
                },
                _ => Err(EvalError::WrongArgumentKind(b)),
            }
        },
        Builtin::Div => {
            if args.len() == 0 {
                return Err(EvalError::WrongArgumentCount(b));
            }
            match &args[0] {
                Exp::Number(first) => match fold(Arith::Div, *first, args, 1, arith) {
                    Some(quotient) => Ok(Exp::Number(quotient)),
                    None => Err(EvalError::WrongArgumentKind(b)),
                },
                _ => Err(EvalError::WrongArgumentKind(b)),
            }
        },
        Builtin::Less => {
            if args.len() != 2 {
                return Err(EvalError::WrongArgumentCount(b));
            }
            match (&args[0], &args[1]) {
                (Exp::Number(x), Exp::Number(y)) => Ok(truth_value(bits_below(*x, *y))),
                _ => Err(EvalError::WrongArgumentKind(b)),
            }
        },
        Builtin::Greater => {
            if args.len() != 2 {
                return Err(EvalError::WrongArgumentCount(b));
            }
            match (&args[0], &args[1]) {
                (Exp::Number(x), Exp::Number(y)) => Ok(truth_value(bits_below(*y, *x))),
                _ => Err(EvalError::WrongArgumentKind(b)),
            }
        },
        Builtin::Equal => {
            if args.len() != 2 {
                return Err(EvalError::WrongArgumentCount(b));
            }
            Ok(truth_value(exp_equal(&args[0], &args[1])))
        },
        Builtin::List => Ok(Exp::List(copy_from(args, 0))),
        Builtin::Car => {
            if args.len() == 0 {
                return Err(EvalError::WrongArgumentCount(b));
            }
            match &args[0] {
                Exp::List(items) => {
                    if items.len() > 0 {
                        Ok(items[0].clone())
                    } else {
                        Err(EvalError::WrongArgumentKind(b))
                    }
                },
                _ => Err(EvalError::WrongArgumentKind(b)),
            }
        },
        Builtin::Cdr => {
            if args.len() == 0 {
                return Err(EvalError::WrongArgumentCount(b));
            }
            match &args[0] {
                Exp::List(items) => {
                    if items.len() > 0 {
                        Ok(Exp::List(copy_from(items, 1)))
                    } else {
                        Err(EvalError::WrongArgumentKind(b))
                    }
                },
                _ => Err(EvalError::WrongArgumentKind(b)),
            }
        },
    }
}

/// The primitives in the order in which the root environment binds them.
pub open spec fn all_builtins() -> Seq<Builtin> {
    seq![
        Builtin::Add,
        Builtin::Sub,
        Builtin::Mul,
        Builtin::Div,
        Builtin::Less,
        Builtin::Greater,
        Builtin::Equal,
        Builtin::List,
        Builtin::Car,
        Builtin::Cdr,
    ]
}

/// The bindings of the first `n` primitives.
pub open spec fn builtin_bindings(n: nat) -> Map<Seq<char>, ExpModel>
    decreases n,
{
    if n == 0 || n > all_builtins().len() {
        Map::empty()
    } else {
        let b = all_builtins()[n - 1];
        builtin_bindings((n - 1) as nat).insert(builtin_name(b), ExpModel::Proc(b))
    }
}

/// The root environment as a model: each primitive under its name, and no
/// enclosing frame.
pub open spec fn standard_env_model() -> EnvModel {
    EnvModel { data: builtin_bindings(10), outer: None }
}

/// The root environment.
pub fn standard_env() -> (env: Rc<Env>)
    ensures
        env@ == standard_env_model(),
{
    let mut env = Env::new();
    reveal_with_fuel(builtin_bindings, 11);
    env.set(String::from_str("+"), Exp::Proc(Builtin::Add));
    env.set(String::from_str("-"), Exp::Proc(Builtin::Sub));
    env.set(String::from_str("*"), Exp::Proc(Builtin::Mul));
    env.set(String::from_str("/"), Exp::Proc(Builtin::Div));
    env.set(String::from_str("<"), Exp::Proc(Builtin::Less));
    env.set(String::from_str(">"), Exp::Proc(Builtin::Greater));
    env.set(String::from_str("="), Exp::Proc(Builtin::Equal));
    env.set(String::from_str("list"), Exp::Proc(Builtin::List));
    env.set(String::from_str("car"), Exp::Proc(Builtin::Car));
    env.set(String::from_str("cdr"), Exp::Proc(Builtin::Cdr));
    Rc::new(env)
}

} // verus!
