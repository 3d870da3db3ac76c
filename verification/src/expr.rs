//! Expressions and environments, with their mathematical models.

use std::rc::Rc;
use vstd::prelude::*;

verus! {

/// The primitive procedures of the root environment.
#[derive(Clone, Copy, Debug, PartialEq, Eq, Structural)]
pub enum Builtin {
    Add,
    Sub,
    Mul,
    Div,
    Less,
    Greater,
    Equal,
    List,
    Car,
    Cdr,
}

/// An expression: both the syntax that the reader produces and the values
/// that evaluation returns. A number is held as the bit pattern of its
/// double-precision encoding; `==` compares those patterns, `exp_equal`
/// compares numbers as numbers.
#[derive(Debug, PartialEq)]
pub enum Exp {
    Symbol(String),
    Number(u64),
    List(Vec<Exp>),
    Proc(Builtin),
    Lambda(Vec<String>, Box<Exp>, Rc<Env>),
}

/// One frame of bindings and the frame that encloses it. A later entry of
/// `data` for a name replaces an earlier one, so that the frame is a mapping
/// from names to values.
#[derive(Debug, PartialEq)]
pub struct Env {
    pub data: Vec<(String, Exp)>,
    pub outer: Option<Rc<Env>>,
}

/// What an expression is, apart from how it is laid out in memory.
pub enum ExpModel {
    Symbol(Seq<char>),
    Number(u64),
    List(Seq<ExpModel>),
    Proc(Builtin),
    Lambda(Seq<Seq<char>>, Box<ExpModel>, Box<EnvModel>),
}

/// What an environment is: a mapping from names to values, and the
/// enclosing environment.
pub struct EnvModel {
    pub data: Map<Seq<char>, ExpModel>,
    pub outer: Option<Box<EnvModel>>,
}

/// The texts of a sequence of strings.
pub open spec fn texts(names: Seq<String>) -> Seq<Seq<char>> {
    names.map_values(|t: String| t@)
}

/// What the expression is.
pub open spec fn exp_model(x: Exp) -> ExpModel
    decreases x, 0nat, 0nat,
{
    match x {
        Exp::Symbol(s) => ExpModel::Symbol(s@),
        Exp::Number(n) => ExpModel::Number(n),
        Exp::List(items) => ExpModel::List(exps_model(items)),
        Exp::Proc(b) => ExpModel::Proc(b),
        Exp::Lambda(params, body, env) => ExpModel::Lambda(
            texts(params@),
            Box::new(exp_model(*body)),
            Box::new(env_model(*env)),
        ),
    }
}

/// The models of the expressions of a vector, in order.
pub open spec fn exps_model(items: Vec<Exp>) -> Seq<ExpModel>
    decreases items, 1nat, 0nat,
{
    Seq::new(
        items@.len(),
        |i: int|
            if 0 <= i < items@.len() {
                exp_model(items@[i])
            } else {
                ExpModel::Number(0)
            },
    )
}

/// The mapping that the first `n` entries of a frame make.
pub open spec fn frame_model(data: Vec<(String, Exp)>, n: nat) -> Map<Seq<char>, ExpModel>
    decreases data, 0nat, n,
{
    if n == 0 || n > data@.len() {
        Map::empty()
    } else {
        frame_model(data, (n - 1) as nat).insert(data@[n - 1].0@, exp_model(data@[n - 1].1))
    }
}

/// What the environment is.
pub open spec fn env_model(e: Env) -> EnvModel
    decreases e, 1nat, 0nat,
{
    EnvModel {
        data: frame_model(e.data, e.data@.len()),
        outer: match e.outer {
            Some(o) => Some(Box::new(env_model(*o))),
            None => None,
        },
    }
}

impl View for Exp {
    type V = ExpModel;

    open spec fn view(&self) -> ExpModel {
        exp_model(*self)
    }
}

impl View for Env {
    type V = EnvModel;

    open spec fn view(&self) -> EnvModel {
        env_model(*self)
    }
}

impl EnvModel {
    /// The value of `name` in the nearest frame that binds it.
    pub open spec fn lookup(self, name: Seq<char>) -> Option<ExpModel>
        decreases self,
    {
        if self.data.dom().contains(name) {
            Some(self.data[name])
        } else {
            match self.outer {
                Some(o) => o.lookup(name),
                None => None,
            }
        }
    }
}

/// The model of an expression has the variant of the expression and the
/// models of its parts.
pub proof fn lemma_model_shape(x: Exp)
    ensures
        match x {
            Exp::Symbol(s) => x@ == ExpModel::Symbol(s@),
            Exp::Number(n) => x@ == ExpModel::Number(n),
            Exp::List(items) => x@ == ExpModel::List(exps_model(items)) && exps_model(items).len()
                == items@.len() && forall|i: int|
                0 <= i < items@.len() ==> #[trigger] exps_model(items)[i] == items@[i]@,
            Exp::Proc(b) => x@ == ExpModel::Proc(b),
            Exp::Lambda(params, body, env) => x@ == ExpModel::Lambda(
                texts(params@),
                Box::new(body@),
                Box::new(env@),
            ),
        },
{
}

/// `str::eq`: whether two string slices hold the same characters.
#[verifier::external_body]
pub(crate) fn same_text(a: &str, b: &str) -> (r: bool)
    ensures
        r == (a@ == b@),
{
    a == b
}

/// `Rc::clone`: another handle on the same environment.
#[verifier::external_body]
pub(crate) fn share(env: &Rc<Env>) -> (r: Rc<Env>)
    ensures
        r == env,
{
    env.clone()
}

/// An entry for `name` among the first `n` entries decides what the frame
/// holds for it; without one, the frame does not bind the name.
pub proof fn lemma_frame_lookup(data: Vec<(String, Exp)>, n: nat, name: Seq<char>)
    requires
        n <= data@.len(),
    ensures
        frame_model(data, n).dom().contains(name) <==> exists|i: int|
            0 <= i < n && #[trigger] data@[i].0@ == name,
        forall|i: int|
            0 <= i < n && #[trigger] data@[i].0@ == name && (forall|j: int|
                i < j < n ==> #[trigger] data@[j].0@ != name) ==> frame_model(data, n)[name]
                == exp_model(data@[i].1),
    decreases n,
{
    if n > 0 {
        lemma_frame_lookup(data, (n - 1) as nat, name);
        if data@[n - 1].0@ == name {
        } else {
            assert forall|i: int|
                0 <= i < n && #[trigger] data@[i].0@ == name && (forall|j: int|
                    i < j < n ==> #[trigger] data@[j].0@ != name) implies frame_model(data, n)[name]
                == exp_model(data@[i].1) by {
                assert(i < n - 1);
            }
        }
    }
}

/// A copy of the names.
pub fn copy_names(names: &Vec<String>) -> (r: Vec<String>)
    ensures
        texts(r@) == texts(names@),
{
    let mut r: Vec<String> = Vec::new();
    let mut i: usize = 0;
    while i < names.len()
        invariant
            i <= names.len(),
            r.len() == i,
            forall|j: int| 0 <= j < i ==> r@[j]@ == names@[j]@,
        decreases names.len() - i,
    {
        r.push(names[i].clone());
        i += 1;
    }
    assert(texts(r@) =~= texts(names@));
    r
}

impl Clone for Exp {
    /// A copy of the expression. A closure in it shares the environment
    /// that it captured with the closure that it is a copy of.
    fn clone(&self) -> (r: Self)
        ensures
            r@ == self@,
        decreases self,
    {
        match self {
            Exp::Symbol(s) => Exp::Symbol(s.clone()),
            Exp::Number(n) => Exp::Number(*n),
            Exp::List(items) => {
                let mut copy: Vec<Exp> = Vec::new();
                let mut i: usize = 0;
                while i < items.len()
                    invariant
                        *self == Exp::List(*items),
                        i <= items.len(),
                        copy.len() == i,
                        forall|j: int| 0 <= j < i ==> copy@[j]@ == items@[j]@,
                    decreases items.len() - i,
                {
                    proof {
                        vstd::std_specs::vec::axiom_vec_index_decreases(*items, i as int);
                        assert(self->List_0 == *items);
                    }
                    copy.push(items[i].clone());
                    i += 1;
                }
                assert(exps_model(copy) =~= exps_model(*items));
                Exp::List(copy)
            },
            Exp::Proc(b) => Exp::Proc(*b),
            Exp::Lambda(params, body, env) => {
                let inner: Exp = (**body).clone();
                Exp::Lambda(copy_names(params), Box::new(inner), share(env))
            },
        }
    }
}

/// The place of the last entry for `name`, which is the one that counts.
pub fn position(data: &Vec<(String, Exp)>, name: &str) -> (found: Option<usize>)
    ensures
        match found {
            Some(i) => {
                &&& i < data.len()
                &&& data@[i as int].0@ == name@
                &&& frame_model(*data, data@.len()).dom().contains(name@)
                &&& frame_model(*data, data@.len())[name@] == data@[i as int].1@
            },
            None => !frame_model(*data, data@.len()).dom().contains(name@),
        },
{
    let mut i: usize = data.len();
    while i > 0
        invariant
            i <= data.len(),
            forall|j: int| i <= j < data.len() ==> #[trigger] data@[j].0@ != name@,
        decreases i,
    {
        i -= 1;
        if same_text(data[i].0.as_str(), name) {
            proof {
                lemma_frame_lookup(*data, data@.len(), name@);
            }
            return Some(i);
        }
    }
    proof {
        lemma_frame_lookup(*data, data@.len(), name@);
    }
    None
}

impl Env {
    /// A frame without bindings and without an enclosing frame.
    pub fn new() -> (env: Env)
        ensures
            env@ == (EnvModel { data: Map::empty(), outer: None }),
    {
        let env = Env { data: Vec::new(), outer: None };
        assert(frame_model(env.data, 0) == Map::<Seq<char>, ExpModel>::empty());
        env
    }

    /// A frame without bindings, enclosed by `outer`.
    pub fn with_outer(outer: Rc<Env>) -> (env: Env)
        ensures
            env@ == (EnvModel { data: Map::empty(), outer: Some(Box::new(outer@)) }),
    {
        let env = Env { data: Vec::new(), outer: Some(outer) };
        assert(frame_model(env.data, 0) == Map::<Seq<char>, ExpModel>::empty());
        env
    }

    /// Looks `var` up in this frame, then in the enclosing frames, nearest
    /// first.
    pub fn find(&self, var: &str) -> (found: Option<Exp>)
        ensures
            match found {
                Some(value) => self@.lookup(var@) == Some(value@),
                None => self@.lookup(var@) is None,
            },
        decreases self,
    {
        match position(&self.data, var) {
            Some(i) => {
                return Some(self.data[i].1.clone());
            },
            None => {},
        }
        match &self.outer {
            Some(outer) => outer.find(var),
            None => None,
        }
    }

    /// Binds `var` to `val` in this frame, in place of any earlier binding
    /// of the name there. The enclosing frames are left as they are.
    pub fn set(&mut self, var: String, val: Exp)
        ensures
            final(self)@ == (EnvModel {
                data: old(self)@.data.insert(var@, val@),
                outer: old(self)@.outer,
            }),
    {
        let ghost before = self.data;
        self.data.push((var, val));
        proof {
            lemma_frame_prefix(before, self.data, before@.len());
            assert(frame_model(self.data, self.data@.len()) == frame_model(
                self.data,
                before@.len(),
            ).insert(var@, val@));
        }
    }
}

/// Two frames that agree on their first `n` entries make the same mapping
/// from them.
pub proof fn lemma_frame_prefix(a: Vec<(String, Exp)>, b: Vec<(String, Exp)>, n: nat)
    requires
        n <= a@.len(),
        n <= b@.len(),
        forall|i: int| 0 <= i < n ==> a@[i] == b@[i],
    ensures
        frame_model(a, n) == frame_model(b, n),
    decreases n,
{
    if n > 0 {
        lemma_frame_prefix(a, b, (n - 1) as nat);
    }
}

/// Two frames whose first `n` entries have the same names and equal
/// values make the same mapping from them.
pub proof fn lemma_frame_same(a: Vec<(String, Exp)>, b: Vec<(String, Exp)>, n: nat)
    requires
        n <= a@.len(),
        n <= b@.len(),
        forall|i: int| 0 <= i < n ==> a@[i].0@ == b@[i].0@ && a@[i].1@ == b@[i].1@,
    ensures
        frame_model(a, n) == frame_model(b, n),
    decreases n,
{
    if n > 0 {
        lemma_frame_same(a, b, (n - 1) as nat);
    }
}

impl Clone for Env {
    /// A frame of its own with the same bindings, enclosed by the same
    /// frame.
    fn clone(&self) -> (r: Self)
        ensures
            r@ == self@,
    {
        let mut data: Vec<(String, Exp)> = Vec::new();
        let mut i: usize = 0;
        while i < self.data.len()
            invariant
                i <= self.data.len(),
                data.len() == i,
                forall|j: int|
                    0 <= j < i ==> data@[j].0@ == self.data@[j].0@ && data@[j].1@
                        == self.data@[j].1@,
            decreases self.data.len() - i,
        {
            data.push((self.data[i].0.clone(), self.data[i].1.clone()));
            i += 1;
        }
        proof {
            lemma_frame_same(data, self.data, data@.len());
        }
        let outer = match &self.outer {
            Some(outer) => Some(share(outer)),
            None => None,
        };
        Env { data, outer }
    }
}

} // verus!
