//! Structural equality of expressions.

use crate::expr::{
    exps_model, frame_model, lemma_frame_lookup, lemma_model_shape, position, same_text, texts,
    Env, EnvModel, Exp, ExpModel,
};
use crate::number::{bits_equal, same_number};
use vstd::prelude::*;

verus! {

/// Whether two expressions are equal part by part: symbols by their names,
/// numbers as numbers (so that a NaN equals nothing and the two zeros are
/// equal), lists item by item, primitives by identity, closures by their
/// parameters, bodies and captured environments.
pub open spec fn same_value(a: ExpModel, b: ExpModel) -> bool
    decreases a,
{
    match a {
        ExpModel::Symbol(x) => b matches ExpModel::Symbol(y) && x == y,
        ExpModel::Number(x) => b matches ExpModel::Number(y) && same_number(x, y),
        ExpModel::List(x) => b matches ExpModel::List(y) && x.len() == y.len() && forall|i: int|
            0 <= i < x.len() ==> same_value(#[trigger] x[i], y[i]),
        ExpModel::Proc(x) => b matches ExpModel::Proc(y) && x == y,
        ExpModel::Lambda(params, body, env) => b matches ExpModel::Lambda(params2, body2, env2)
            && params == params2 && same_value(*body, *body2) && same_env(*env, *env2),
    }
}

/// Whether two environments bind the same names to equal values, frame by
/// frame.
pub open spec fn same_env(a: EnvModel, b: EnvModel) -> bool
    decreases a,
{
    &&& a.data.dom() == b.data.dom()
    &&& forall|k: Seq<char>| a.data.dom().contains(k) ==> same_value(#[trigger] a.data[k], b.data[k])
    &&& match a.outer {
        Some(x) => b.outer matches Some(y) && same_env(*x, *y),
        None => b.outer is None,
    }
}

/// Whether two vectors of names hold the same names in the same order.
pub fn names_equal(a: &Vec<String>, b: &Vec<String>) -> (r: bool)
    ensures
        r == (texts(a@) == texts(b@)),
{
    if a.len() != b.len() {
        assert(texts(a@).len() != texts(b@).len());
        return false;
    }
    let mut i: usize = 0;
    while i < a.len()
        invariant
            a.len() == b.len(),
            i <= a.len(),
            forall|j: int| 0 <= j < i ==> a@[j]@ == b@[j]@,
        decreases a.len() - i,
    {
        if !same_text(a[i].as_str(), b[i].as_str()) {
            assert(texts(a@)[i as int] != texts(b@)[i as int]);
            return false;
        }
        i += 1;
    }
    assert(texts(a@) =~= texts(b@));
    true
}

/// Structural equality of two expressions.
pub fn exp_equal(a: &Exp, b: &Exp) -> (r: bool)
    ensures
        r == same_value(a@, b@),
    decreases a,
{
    proof {
        lemma_model_shape(*a);
        lemma_model_shape(*b);
    }
    match a {
        Exp::Symbol(x) => match b {
            Exp::Symbol(y) => same_text(x.as_str(), y.as_str()),
            _ => false,
        },
        Exp::Number(x) => match b {
            Exp::Number(y) => bits_equal(*x, *y),
            _ => false,
        },
        Exp::List(x) => match b {
            Exp::List(y) => {
                if x.len() != y.len() {
                    return false;
                }
                let mut i: usize = 0;
                while i < x.len()
                    invariant
                        *a == Exp::List(*x),
                        a@ == ExpModel::List(exps_model(*x)),
                        b@ == ExpModel::List(exps_model(*y)),
                        x.len() == y.len(),
                        i <= x.len(),
                        forall|j: int| 0 <= j < i ==> same_value(x@[j]@, y@[j]@),
                    decreases x.len() - i,
                {
                    proof {
                        vstd::std_specs::vec::axiom_vec_index_decreases(*x, i as int);
                        assert(a->List_0 == *x);
                    }
                    if !exp_equal(&x[i], &y[i]) {
                        assert(exps_model(*x)[i as int] == x@[i as int]@);
                        assert(exps_model(*y)[i as int] == y@[i as int]@);
                        return false;
                    }
                    i += 1;
                }
                assert forall|j: int| 0 <= j < exps_model(*x).len() implies same_value(
                    #[trigger] exps_model(*x)[j],
                    exps_model(*y)[j],
                ) by {
                    assert(exps_model(*x)[j] == x@[j]@);
                    assert(exps_model(*y)[j] == y@[j]@);
                }
                true
            },
            _ => false,
        },
        Exp::Proc(x) => match b {
            Exp::Proc(y) => *x == *y,
            _ => false,
        },
        Exp::Lambda(params, body, env) => match b {
            Exp::Lambda(params2, body2, env2) => {
                names_equal(params, params2) && exp_equal(body, body2) && env_equal(env, env2)
            },
            _ => false,
        },
    }
}

/// Structural equality of two environments.
pub fn env_equal(a: &Env, b: &Env) -> (r: bool)
    ensures
        r == same_env(a@, b@),
    decreases a,
{
    let ghost fa = frame_model(a.data, a.data@.len());
    let ghost fb = frame_model(b.data, b.data@.len());
    let mut i: usize = 0;
    while i < a.data.len()
        invariant
            i <= a.data.len(),
            fa == frame_model(a.data, a.data@.len()),
            fb == frame_model(b.data, b.data@.len()),
            fa == a@.data,
            fb == b@.data,
            forall|j: int|
                0 <= j < i ==> fb.dom().contains(#[trigger] a.data@[j].0@) && same_value(
                    fa[a.data@[j].0@],
                    fb[a.data@[j].0@],
                ),
        decreases a.data.len() - i,
    {
        let key = a.data[i].0.as_str();
        proof {
            lemma_frame_lookup(a.data, a.data@.len(), key@);
        }
        match position(&a.data, key) {
            Some(ia) => {
                match position(&b.data, key) {
                    Some(ib) => {
                        proof {
                            vstd::std_specs::vec::axiom_vec_index_decreases(a.data, ia as int);
                        }
                        if !exp_equal(&a.data[ia].1, &b.data[ib].1) {
                            assert(fa.dom().contains(key@));
                            return false;
                        }
                    },
                    None => {
                        assert(fa.dom().contains(key@));
                        return false;
                    },
                }
            },
            None => {
                return false;
            },
        }
        i += 1;
    }
    let mut j: usize = 0;
    while j < b.data.len()
        invariant
            j <= b.data.len(),
            fa == frame_model(a.data, a.data@.len()),
            fb == frame_model(b.data, b.data@.len()),
            fa == a@.data,
            fb == b@.data,
            forall|k: int| 0 <= k < j ==> fa.dom().contains(#[trigger] b.data@[k].0@),
        decreases b.data.len() - j,
    {
        let key = b.data[j].0.as_str();
        proof {
            lemma_frame_lookup(b.data, b.data@.len(), key@);
        }
        match position(&a.data, key) {
            Some(_) => {},
            None => {
                assert(fb.dom().contains(key@));
                return false;
            },
        }
        j += 1;
    }
    proof {
        assert forall|k: Seq<char>| fa.dom().contains(k) == fb.dom().contains(k) by {
            lemma_frame_lookup(a.data, a.data@.len(), k);
            lemma_frame_lookup(b.data, b.data@.len(), k);
        }
        assert forall|k: Seq<char>| fa.dom().contains(k) implies same_value(
            #[trigger] fa[k],
            fb[k],
        ) by {
            lemma_frame_lookup(a.data, a.data@.len(), k);
        }
        assert(fa.dom() =~= fb.dom());
    }
    match &a.outer {
        Some(x) => match &b.outer {
            Some(y) => env_equal(x, y),
            None => false,
        },
        None => b.outer.is_none(),
    }
}

} // verus!
