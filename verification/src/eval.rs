//! The evaluator.

use crate::builtins::{
    apply_builtin, arith_model, arith_ready, builtin_model, outcome_model, ArithModel,
};
use crate::error::{EvalError, EvalErrorModel, Form};
use crate::expr::{
    exps_model, lemma_model_shape, same_text, share, texts, Env, EnvModel, Exp, ExpModel,
};
use crate::number::{bits_is_zero, is_zero, Arith};
use std::rc::Rc;
use vstd::prelude::*;

verus! {

/// Whether a value counts as true in a condition: every value but the
/// number zero does.
pub open spec fn truthy(value: ExpModel) -> bool {
    match value {
        ExpModel::Number(n) => !is_zero(n),
        _ => true,
    }
}

/// Whether every item is a symbol.
pub open spec fn all_symbols(items: Seq<ExpModel>) -> bool {
    forall|i: int| 0 <= i < items.len() ==> #[trigger] items[i] is Symbol
}

/// The names of a sequence of symbols.
pub open spec fn symbol_names(items: Seq<ExpModel>) -> Seq<Seq<char>> {
    Seq::new(items.len(), |i: int| items[i]->Symbol_0)
}

/// The bindings of the first `n` names to the first `n` values.
pub open spec fn bind(names: Seq<Seq<char>>, values: Seq<ExpModel>, n: nat) -> Map<
    Seq<char>,
    ExpModel,
>
    decreases n,
{
    if n == 0 || n > names.len() || n > values.len() {
        Map::empty()
    } else {
        bind(names, values, (n - 1) as nat).insert(names[n - 1], values[n - 1])
    }
}

/// The frame in which the body of a closure runs: each parameter bound to
/// the argument at its place, as far as both sequences go, inside the
/// environment that the closure captured.
pub open spec fn call_frame(
    names: Seq<Seq<char>>,
    values: Seq<ExpModel>,
    captured: EnvModel,
) -> EnvModel {
    let n = if names.len() <= values.len() {
        names.len()
    } else {
        values.len()
    };
    EnvModel { data: bind(names, values, n), outer: Some(Box::new(captured)) }
}

/// The value of `(quote operand ..)`: the first operand as it stands.
pub open spec fn quote_model(operands: Seq<ExpModel>) -> Result<ExpModel, EvalErrorModel> {
    if operands.len() == 0 {
        Err(EvalErrorModel::MissingOperand(Form::Quote))
    } else {
        Ok(operands[0])
    }
}

/// The value of `(lambda parameters body ..)` in `env`: a closure over `env`,
/// if the parameters are a list of symbols and there is a body.
pub open spec fn lambda_model(operands: Seq<ExpModel>, env: EnvModel) -> Result<
    ExpModel,
    EvalErrorModel,
> {
    if operands.len() == 0 {
        Err(EvalErrorModel::MissingOperand(Form::Lambda))
    } else {
        match operands[0] {
            ExpModel::List(params) => if !all_symbols(params) {
                Err(EvalErrorModel::ParameterNotSymbol)
            } else if operands.len() < 2 {
                Err(EvalErrorModel::MissingOperand(Form::Lambda))
            } else {
                Ok(ExpModel::Lambda(symbol_names(params), Box::new(operands[1]), Box::new(env)))
            },
            _ => Err(EvalErrorModel::Malformed(Form::Lambda)),
        }
    }
}

/// The value of an expression in an environment, where compound forms may
/// nest `depth` deep.
///
/// A symbol stands for what the environment binds it to; numbers, the empty
/// list, primitives and closures stand for themselves. A non-empty list is a
/// special form if its head is one of the symbols `quote`, `if`, `define`
/// and `lambda`, and an application otherwise: the head is evaluated, then
/// the operands from left to right, then the procedure is applied. The
/// first failure is the failure of the whole. `define` binds its symbol in
/// a copy of the frame, which ends with the form: it returns the value of
/// its second operand and leaves the environment as it is.
pub open spec fn eval_model(x: ExpModel, env: EnvModel, arith: ArithModel, depth: nat) -> Result<
    ExpModel,
    EvalErrorModel,
>
    decreases depth, 0nat,
{
    match x {
        ExpModel::Symbol(name) => match env.lookup(name) {
            Some(value) => Ok(value),
            None => Err(EvalErrorModel::UndefinedSymbol(name)),
        },
        ExpModel::List(items) => if items.len() == 0 {
            Ok(x)
        } else if depth == 0 {
            Err(EvalErrorModel::TooDeep)
        } else {
            let d = (depth - 1) as nat;
            let head = items[0];
            let operands = items.skip(1);
            if head == ExpModel::Symbol("quote"@) {
                quote_model(operands)
            } else if head == ExpModel::Symbol("if"@) {
                if operands.len() == 0 {
                    Err(EvalErrorModel::MissingOperand(Form::If))
                } else {
                    match eval_model(operands[0], env, arith, d) {
                        Err(e) => Err(e),
                        Ok(test) => {
                            let branch: int = if truthy(test) {
                                1
                            } else {
                                2
                            };
                            if operands.len() <= branch {
                                Err(EvalErrorModel::MissingOperand(Form::If))
                            } else {
                                eval_model(operands[branch], env, arith, d)
                            }
                        },
                    }
                }
            } else if head == ExpModel::Symbol("define"@) {
                if operands.len() == 0 {
                    Err(EvalErrorModel::MissingOperand(Form::Define))
                } else if !(operands[0] is Symbol) {
                    Err(EvalErrorModel::Malformed(Form::Define))
                } else if operands.len() < 2 {
                    Err(EvalErrorModel::MissingOperand(Form::Define))
                } else {
                    eval_model(operands[1], env, arith, d)
                }
            } else if head == ExpModel::Symbol("lambda"@) {
                lambda_model(operands, env)
            } else {
                match eval_model(head, env, arith, d) {
                    Err(e) => Err(e),
                    Ok(procedure) => match eval_each(operands, env, arith, d) {
                        Err(e) => Err(e),
                        Ok(values) => apply_model(procedure, values, arith, d),
                    },
                }
            }
        },
        _ => Ok(x),
    }
}

/// The values of a sequence of expressions, evaluated from left to right:
/// the failure of the first one that fails, if one does.
pub open spec fn eval_each(items: Seq<ExpModel>, env: EnvModel, arith: ArithModel, depth: nat) -> Result<
    Seq<ExpModel>,
    EvalErrorModel,
>
    decreases depth, 1 + items.len(),
{
    if items.len() == 0 {
        Ok(Seq::empty())
    } else {
        match eval_model(items[0], env, arith, depth) {
            Err(e) => Err(e),
            Ok(value) => after(seq![value], eval_each(items.drop_first(), env, arith, depth)),
        }
    }
}

/// The values `done` followed by the values that `rest` holds, or the
/// failure that it holds.
pub open spec fn after(done: Seq<ExpModel>, rest: Result<Seq<ExpModel>, EvalErrorModel>) -> Result<
    Seq<ExpModel>,
    EvalErrorModel,
> {
    match rest {
        Ok(values) => Ok(done + values),
        Err(e) => Err(e),
    }
}

/// What a procedure returns for a sequence of argument values.
pub open spec fn apply_model(
    procedure: ExpModel,
    values: Seq<ExpModel>,
    arith: ArithModel,
    depth: nat,
) -> Result<ExpModel, EvalErrorModel>
    decreases depth, 1nat,
{
    match procedure {
        ExpModel::Proc(b) => builtin_model(b, values, arith),
        ExpModel::Lambda(names, body, captured) => eval_model(
            *body,
            call_frame(names, values, *captured),
            arith,
            depth,
        ),
        _ => Err(EvalErrorModel::NotAProcedure),
    }
}

/// `(quote x)` has the value `x` as it stands, whatever `x` is and whatever
/// the environment binds: nothing in `x` is evaluated, so that a symbol in
/// it need not be bound.
pub proof fn lemma_quote_returns_operand(
    x: ExpModel,
    env: EnvModel,
    arith: ArithModel,
    depth: nat,
)
    requires
        depth > 0,
    ensures
        eval_model(ExpModel::List(seq![ExpModel::Symbol("quote"@), x]), env, arith, depth) == Ok::<
            ExpModel,
            EvalErrorModel,
        >(x),
{
    let items = seq![ExpModel::Symbol("quote"@), x];
    assert(items[0] == ExpModel::Symbol("quote"@));
    assert(items.skip(1)[0] == x);
}

/// The names of a parameter list: none if an item is not a symbol.
fn parameter_names(params: &Vec<Exp>) -> (r: Option<Vec<String>>)
    ensures
        match r {
            Some(names) => all_symbols(exps_model(*params)) && texts(names@) == symbol_names(
                exps_model(*params),
            ),
            None => !all_symbols(exps_model(*params)),
        },
{
    let mut names: Vec<String> = Vec::new();
    let mut i: usize = 0;
    while i < params.len()
        invariant
            i <= params.len(),
            names.len() == i,
            forall|j: int| 0 <= j < i ==> #[trigger] exps_model(*params)[j] is Symbol,
            forall|j: int|
                0 <= j < i ==> #[trigger] names@[j]@ == exps_model(*params)[j]->Symbol_0,
        decreases params.len() - i,
    {
        proof {
            lemma_model_shape(params@[i as int]);
            assert(exps_model(*params)[i as int] == params@[i as int]@);
        }
        match &params[i] {
            Exp::Symbol(name) => {
                names.push(name.clone());
            },
            _ => {
                return None;
            },
        }
        i += 1;
    }
    assert(texts(names@) =~= symbol_names(exps_model(*params)));
    Some(names)
}

/// Evaluates the operands of an application, `items[1..]`, from left to
/// right.
fn eval_operands<A: Fn(Arith, u64, u64) -> u64>(
    items: &Vec<Exp>,
    env: &Rc<Env>,
    arith: &A,
    depth: usize,
) -> (r: Result<Vec<Exp>, EvalError>)
    requires
        arith_ready(arith),
        items.len() >= 1,
    ensures
        match r {
            Ok(values) => eval_each(
                exps_model(*items).skip(1),
                env@,
                arith_model(arith),
                depth as nat,
            ) == Ok::<Seq<ExpModel>, EvalErrorModel>(exps_model(values)),
            Err(e) => eval_each(exps_model(*items).skip(1), env@, arith_model(arith), depth as nat)
                == Err::<Seq<ExpModel>, EvalErrorModel>(e@),
        },
    decreases depth, 1nat,
{
    let ghost models = exps_model(*items);
    let ghost m = arith_model(arith);
    let mut values: Vec<Exp> = Vec::new();
    let mut i: usize = 1;
    assert(exps_model(values) =~= Seq::<ExpModel>::empty());
    assert(after(exps_model(values), eval_each(models.skip(1), env@, m, depth as nat)) == eval_each(
        models.skip(1),
        env@,
        m,
        depth as nat,
    )) by {
        let rest = eval_each(models.skip(1), env@, m, depth as nat);
        if rest is Ok {
            assert(Seq::<ExpModel>::empty() + rest->Ok_0 =~= rest->Ok_0);
        }
    }
    while i < items.len()
        invariant
            arith_ready(arith),
            1 <= i <= items.len(),
            models == exps_model(*items),
            m == arith_model(arith),
            after(exps_model(values), eval_each(models.skip(i as int), env@, m, depth as nat))
                == eval_each(models.skip(1), env@, m, depth as nat),
        decreases items.len() - i,
    {
        let ghost rest = models.skip(i as int);
        let ghost done = exps_model(values);
        proof {
            assert(rest[0] == items@[i as int]@);
            assert(rest.drop_first() == models.skip(i + 1));
        }
        match eval(&items[i], env, arith, depth) {
            Ok(value) => {
                values.push(value);
                proof {
                    assert(exps_model(values) =~= done + seq![value@]);
                    let tail = eval_each(models.skip(i + 1), env@, m, depth as nat);
                    if tail is Ok {
                        assert(done + (seq![value@] + tail->Ok_0) =~= (done + seq![value@])
                            + tail->Ok_0);
                    }
                }
            },
            Err(e) => {
                return Err(e);
            },
        }
        i += 1;
    }
    proof {
        let last = eval_each(models.skip(i as int), env@, m, depth as nat);
        assert(last == Ok::<Seq<ExpModel>, EvalErrorModel>(Seq::empty()));
        assert(exps_model(values) + Seq::<ExpModel>::empty() =~= exps_model(values));
    }
    Ok(values)
}

/// Applies a procedure to argument values, where the body of a closure may
/// nest `depth` deep.
pub fn apply<A: Fn(Arith, u64, u64) -> u64>(
    procedure: &Exp,
    values: &Vec<Exp>,
    arith: &A,
    depth: usize,
) -> (r: Result<Exp, EvalError>)
    requires
        arith_ready(arith),
    ensures
        outcome_model(r) == apply_model(
            procedure@,
            exps_model(*values),
            arith_model(arith),
            depth as nat,
        ),
    decreases depth, 1nat,
{
    proof {
        lemma_model_shape(*procedure);
    }
    match procedure {
        Exp::Proc(b) => apply_builtin(*b, values, arith),
        Exp::Lambda(params, body, captured) => {
            let mut frame = Env::with_outer(share(captured));
            let n: usize = if params.len() <= values.len() {
                params.len()
            } else {
                values.len()
            };
            let mut i: usize = 0;
            while i < n
                invariant
                    i <= n,
                    n <= params.len(),
                    n <= values.len(),
                    frame@ == (EnvModel {
                        data: bind(texts(params@), exps_model(*values), i as nat),
                        outer: Some(Box::new(captured@)),
                    }),
                decreases n - i,
            {
                frame.set(params[i].clone(), values[i].clone());
                i += 1;
            }
            eval(body, &Rc::new(frame), arith, depth)
        },
        _ => Err(EvalError::NotAProcedure),
    }
}

/// Evaluates `x` in `env`.
///
/// The library does not compute on floating-point values: `arith` is called
/// for each addition, subtraction, multiplication and division of two
/// numbers, on their encodings. `depth` bounds how deep compound forms may
/// nest while they are evaluated; beyond it the evaluation fails with
/// `TooDeep`.
pub fn eval<A: Fn(Arith, u64, u64) -> u64>(x: &Exp, env: &Rc<Env>, arith: &A, depth: usize) -> (r:
    Result<Exp, EvalError>)
    requires
        arith_ready(arith),
    ensures
        outcome_model(r) == eval_model(x@, env@, arith_model(arith), depth as nat),
    decreases depth, 0nat,
{
    proof {
        lemma_model_shape(*x);
    }
    match x {
        Exp::Symbol(name) => match env.find(name.as_str()) {
            Some(value) => Ok(value),
            None => Err(EvalError::UndefinedSymbol(name.clone())),
        },
        Exp::List(items) => {
            if items.len() == 0 {
                return Ok(x.clone());
            }
            if depth == 0 {
                return Err(EvalError::TooDeep);
            }
            let d: usize = depth - 1;
            let ghost models = exps_model(*items);
            let ghost operands = models.skip(1);
            proof {
                assert forall|k: int| 0 <= k < operands.len() implies #[trigger] operands[k]
                    == items@[k + 1]@ by {
                    assert(operands[k] == models[k + 1]);
                }
                lemma_model_shape(items@[0]);
                if items.len() > 1 {
                    lemma_model_shape(items@[1]);
                }
            }
            match &items[0] {
                Exp::Symbol(head) => {
                    if same_text(head.as_str(), "quote") {
                        if items.len() < 2 {
                            return Err(EvalError::MissingOperand(Form::Quote));
                        }
                        return Ok(items[1].clone());
                    }
                    if same_text(head.as_str(), "if") {
                        if items.len() < 2 {
                            return Err(EvalError::MissingOperand(Form::If));
                        }
                        let test = match eval(&items[1], env, arith, d) {
                            Ok(value) => value,
                            Err(e) => {
                                return Err(e);
                            },
                        };
                        proof {
                            lemma_model_shape(test);
                        }
                        let is_true = match test {
                            Exp::Number(n) => !bits_is_zero(n),
                            _ => true,
                        };
                        let branch: usize = if is_true {
                            2
                        } else {
                            3
                        };
                        if items.len() <= branch {
                            return Err(EvalError::MissingOperand(Form::If));
                        }
                        return eval(&items[branch], env, arith, d);
                    }
                    if same_text(head.as_str(), "define") {
                        if items.len() < 2 {
                            return Err(EvalError::MissingOperand(Form::Define));
                        }
                        match &items[1] {
                            Exp::Symbol(_) => {},
                            _ => {
                                return Err(EvalError::Malformed(Form::Define));
                            },
                        }
                        if items.len() < 3 {
                            return Err(EvalError::MissingOperand(Form::Define));
                        }
                        let value = match eval(&items[2], env, arith, d) {
                            Ok(value) => value,
                            Err(e) => {
                                return Err(e);
                            },
                        };
                        if let Exp::Symbol(name) = &items[1] {
                            // The binding is made in a frame of its own, which
                            // nothing else holds: the environment of the caller
                            // stays as it is.
                            let mut frame: Env = (**env).clone();
                            frame.set(name.clone(), value.clone());
                            assert(frame@.data == env@.data.insert(name@, value@));
                        }
                        return Ok(value);
                    }
                    if same_text(head.as_str(), "lambda") {
                        if items.len() < 2 {
                            return Err(EvalError::MissingOperand(Form::Lambda));
                        }
                        match &items[1] {
                            Exp::List(params) => {
                                let names = match parameter_names(params) {
                                    Some(names) => names,
                                    None => {
                                        return Err(EvalError::ParameterNotSymbol);
                                    },
                                };
                                if items.len() < 3 {
                                    return Err(EvalError::MissingOperand(Form::Lambda));
                                }
                                return Ok(
                                    Exp::Lambda(names, Box::new(items[2].clone()), share(env)),
                                );
                            },
                            _ => {
                                return Err(EvalError::Malformed(Form::Lambda));
                            },
                        }
                    }
                },
                _ => {},
            }
            let procedure = match eval(&items[0], env, arith, d) {
                Ok(value) => value,
                Err(e) => {
                    return Err(e);
                },
            };
            let values = match eval_operands(items, env, arith, d) {
                Ok(values) => values,
                Err(e) => {
                    return Err(e);
                },
            };
            apply(&procedure, &values, arith, d)
        },
        _ => Ok(x.clone()),
    }
}

} // verus!
