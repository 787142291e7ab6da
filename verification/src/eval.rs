//! Evaluation, up to the arithmetic: expressions are checked against the
//! builtin table and the names bound so far, and become terms that hold no
//! name any more. What is left to a consumer is to compute a term's
//! number, which cannot fail.

use vstd::prelude::*;
use vstd::slice::slice_to_vec;
use crate::builtins::{
    lookup_constant, lookup_function, same_bytes, spec_constant, spec_function, BinaryFn, Builtin,
    Constant, UnaryFn,
};
use crate::bytes::texts;
use crate::model::ExpressionModel;
use crate::number::Number;
use crate::parser::{expression_models, lemma_fn_invoke_model, Expression};

verus! {

/// What a term denotes.
pub enum TermModel {
    /// The number that a literal writes.
    Literal(Seq<u8>),
    Constant(Constant),
    /// The value of the definition in the given slot.
    Variable(nat),
    Unary(UnaryFn, Box<TermModel>),
    Binary(BinaryFn, Box<TermModel>, Box<TermModel>),
    Add(Box<TermModel>, Box<TermModel>),
    Sub(Box<TermModel>, Box<TermModel>),
    Mul(Box<TermModel>, Box<TermModel>),
    Div(Box<TermModel>, Box<TermModel>),
}

impl TermModel {
    /// Whether every slot that the term reads is below `limit`.
    pub open spec fn scoped_below(self, limit: nat) -> bool
        decreases self,
    {
        match self {
            TermModel::Literal(_) => true,
            TermModel::Constant(_) => true,
            TermModel::Variable(slot) => slot < limit,
            TermModel::Unary(_, a) => a.scoped_below(limit),
            TermModel::Binary(_, a, b) => a.scoped_below(limit) && b.scoped_below(limit),
            TermModel::Add(a, b) => a.scoped_below(limit) && b.scoped_below(limit),
            TermModel::Sub(a, b) => a.scoped_below(limit) && b.scoped_below(limit),
            TermModel::Mul(a, b) => a.scoped_below(limit) && b.scoped_below(limit),
            TermModel::Div(a, b) => a.scoped_below(limit) && b.scoped_below(limit),
        }
    }
}

/// An expression whose names are resolved: its leaves are literals,
/// builtin constants and slots of definitions, its functions are builtin
/// and have the arguments they take.
#[derive(Debug, PartialEq)]
pub enum Term {
    Literal(Number),
    Constant(Constant),
    Variable(usize),
    Unary(UnaryFn, Box<Term>),
    Binary(BinaryFn, Box<Term>, Box<Term>),
    Add(Box<Term>, Box<Term>),
    Sub(Box<Term>, Box<Term>),
    Mul(Box<Term>, Box<Term>),
    Div(Box<Term>, Box<Term>),
}

/// What the term `t` denotes.
pub open spec fn term_model(t: Term) -> TermModel
    decreases t,
{
    match t {
        Term::Literal(n) => TermModel::Literal(n@),
        Term::Constant(c) => TermModel::Constant(c),
        Term::Variable(slot) => TermModel::Variable(slot as nat),
        Term::Unary(f, a) => TermModel::Unary(f, Box::new(term_model(*a))),
        Term::Binary(f, a, b) => TermModel::Binary(
            f,
            Box::new(term_model(*a)),
            Box::new(term_model(*b)),
        ),
        Term::Add(a, b) => TermModel::Add(Box::new(term_model(*a)), Box::new(term_model(*b))),
        Term::Sub(a, b) => TermModel::Sub(Box::new(term_model(*a)), Box::new(term_model(*b))),
        Term::Mul(a, b) => TermModel::Mul(Box::new(term_model(*a)), Box::new(term_model(*b))),
        Term::Div(a, b) => TermModel::Div(Box::new(term_model(*a)), Box::new(term_model(*b))),
    }
}

impl View for Term {
    type V = TermModel;

    open spec fn view(&self) -> TermModel {
        term_model(*self)
    }
}

/// Why an expression has no value.
pub enum EvalErrorModel {
    UnknownName(Seq<u8>),
    UnknownFunction(Seq<u8>),
    ArityMismatch { name: Seq<u8>, expected: nat, found: nat },
}

/// Why an expression has no value. The first fault in evaluation order
/// is reported, by the name it is about.
#[derive(Debug, PartialEq, Eq)]
pub enum EvalError {
    /// An identifier is neither a builtin constant nor bound.
    UnknownName(Vec<u8>),
    /// A call names no builtin function.
    UnknownFunction(Vec<u8>),
    /// A builtin function is called with more or fewer arguments than
    /// it takes.
    ArityMismatch { name: Vec<u8>, expected: usize, found: usize },
}

impl View for EvalError {
    type V = EvalErrorModel;

    open spec fn view(&self) -> EvalErrorModel {
        match *self {
            EvalError::UnknownName(name) => EvalErrorModel::UnknownName(name@),
            EvalError::UnknownFunction(name) => EvalErrorModel::UnknownFunction(name@),
            EvalError::ArityMismatch { name, expected, found } => EvalErrorModel::ArityMismatch {
                name: name@,
                expected: expected as nat,
                found: found as nat,
            },
        }
    }
}

/// The newest slot of `names` that holds `name`, if any.
pub open spec fn slot_of(names: Seq<Seq<u8>>, name: Seq<u8>) -> Option<nat>
    decreases names.len(),
{
    if names.len() == 0 {
        None
    } else if names.last() == name {
        Some((names.len() - 1) as nat)
    } else {
        slot_of(names.drop_last(), name)
    }
}

/// `slot_of` finds the last place where the name stands, and finds none
/// only where it stands nowhere.
pub proof fn lemma_slot_of(names: Seq<Seq<u8>>, name: Seq<u8>)
    ensures
        match slot_of(names, name) {
            Some(slot) => slot < names.len() && names[slot as int] == name && forall|k: int|
                slot < k < names.len() ==> names[k] != name,
            None => forall|k: int| 0 <= k < names.len() ==> names[k] != name,
        },
    decreases names.len(),
{
    if names.len() > 0 && names.last() != name {
        let rest = names.drop_last();
        lemma_slot_of(rest, name);
        assert forall|k: int| 0 <= k < rest.len() implies rest[k] == names[k] by {}
        match slot_of(rest, name) {
            Some(slot) => {
                assert forall|k: int| slot < k < names.len() implies names[k] != name by {
                    if k < rest.len() {
                        assert(rest[k] != name);
                    }
                }
            },
            None => {
                assert forall|k: int| 0 <= k < names.len() implies names[k] != name by {
                    if k < rest.len() {
                        assert(rest[k] != name);
                    }
                }
            },
        }
    }
}

/// What evaluating `e` comes to where the definitions so far bind
/// `names`, slot by slot.
///
/// An identifier is looked up among the builtin constants first, then
/// among the names, newest first. A call is looked up in the builtin
/// table, then its argument count is checked, then its arguments are
/// evaluated from left to right. Of a binary node the left operand comes
/// first. The first fault ends the evaluation.
pub open spec fn spec_resolve(e: ExpressionModel, names: Seq<Seq<u8>>) -> Result<
    TermModel,
    EvalErrorModel,
>
    decreases e,
{
    match e {
        ExpressionModel::Ident(name) => match spec_constant(name) {
            Some(c) => Ok(TermModel::Constant(c)),
            None => match slot_of(names, name) {
                Some(slot) => Ok(TermModel::Variable(slot)),
                None => Err(EvalErrorModel::UnknownName(name)),
            },
        },
        ExpressionModel::NumLiteral(text) => Ok(TermModel::Literal(text)),
        ExpressionModel::FnInvoke(name, args) => match spec_function(name) {
            None => Err(EvalErrorModel::UnknownFunction(name)),
            Some(f) => if args.len() != f.spec_arity() {
                Err(
                    EvalErrorModel::ArityMismatch {
                        name,
                        expected: f.spec_arity(),
                        found: args.len(),
                    },
                )
            } else {
                match f {
                    Builtin::Unary(op) => match spec_resolve(args[0], names) {
                        Ok(a) => Ok(TermModel::Unary(op, Box::new(a))),
                        Err(err) => Err(err),
                    },
                    Builtin::Binary(op) => spec_pair(
                        spec_resolve(args[0], names),
                        spec_resolve(args[1], names),
                        |a: TermModel, b: TermModel| TermModel::Binary(op, Box::new(a), Box::new(b)),
                    ),
                }
            },
        },
        ExpressionModel::Add(l, r) => spec_pair(
            spec_resolve(*l, names),
            spec_resolve(*r, names),
            |a: TermModel, b: TermModel| TermModel::Add(Box::new(a), Box::new(b)),
        ),
        ExpressionModel::Sub(l, r) => spec_pair(
            spec_resolve(*l, names),
            spec_resolve(*r, names),
            |a: TermModel, b: TermModel| TermModel::Sub(Box::new(a), Box::new(b)),
        ),
        ExpressionModel::Mul(l, r) => spec_pair(
            spec_resolve(*l, names),
            spec_resolve(*r, names),
            |a: TermModel, b: TermModel| TermModel::Mul(Box::new(a), Box::new(b)),
        ),
        ExpressionModel::Div(l, r) => spec_pair(
            spec_resolve(*l, names),
            spec_resolve(*r, names),
            |a: TermModel, b: TermModel| TermModel::Div(Box::new(a), Box::new(b)),
        ),
    }
}

/// Two results made one: the first fault, or what `join` makes of the
/// two terms.
pub open spec fn spec_pair(
    first: Result<TermModel, EvalErrorModel>,
    second: Result<TermModel, EvalErrorModel>,
    join: spec_fn(TermModel, TermModel) -> TermModel,
) -> Result<TermModel, EvalErrorModel> {
    match first {
        Err(err) => Err(err),
        Ok(a) => match second {
            Err(err) => Err(err),
            Ok(b) => Ok(join(a, b)),
        },
    }
}

/// A term reads only slots that exist when it is made.
pub proof fn lemma_resolve_scoped(e: ExpressionModel, names: Seq<Seq<u8>>)
    ensures
        spec_resolve(e, names) matches Ok(t) ==> t.scoped_below(names.len()),
    decreases e,
{
    match e {
        ExpressionModel::Ident(name) => {
            lemma_slot_of(names, name);
        },
        ExpressionModel::NumLiteral(_) => {},
        ExpressionModel::FnInvoke(name, args) => {
            match spec_function(name) {
                None => {},
                Some(f) => {
                    if args.len() == f.spec_arity() {
                        lemma_resolve_scoped(args[0], names);
                        if f is Binary {
                            lemma_resolve_scoped(args[1], names);
                        }
                    }
                },
            }
        },
        ExpressionModel::Add(l, r) => {
            lemma_resolve_scoped(*l, names);
            lemma_resolve_scoped(*r, names);
        },
        ExpressionModel::Sub(l, r) => {
            lemma_resolve_scoped(*l, names);
            lemma_resolve_scoped(*r, names);
        },
        ExpressionModel::Mul(l, r) => {
            lemma_resolve_scoped(*l, names);
            lemma_resolve_scoped(*r, names);
        },
        ExpressionModel::Div(l, r) => {
            lemma_resolve_scoped(*l, names);
            lemma_resolve_scoped(*r, names);
        },
    }
}

/// The terms of `v`, as what they denote.
pub open spec fn term_models(v: Seq<Term>) -> Seq<TermModel> {
    v.map_values(|t: Term| t@)
}

/// What an environment holds: the names that are bound and their
/// values, slot by slot.
pub struct Bindings {
    pub names: Seq<Seq<u8>>,
    pub values: Seq<TermModel>,
}

impl Bindings {
    /// No binding.
    pub open spec fn empty() -> Bindings {
        Bindings { names: Seq::empty(), values: Seq::empty() }
    }

    /// These bindings and one more, in the next slot.
    pub open spec fn bind(self, name: Seq<u8>, value: TermModel) -> Bindings {
        Bindings { names: self.names.push(name), values: self.values.push(value) }
    }
}

/// The definitions met so far, in the order they were met. A definition
/// takes the next slot and keeps it; a name that is defined again gets a
/// new slot, and from then on the name means the new one.
pub struct Environment {
    names: Vec<Vec<u8>>,
    values: Vec<Term>,
}

impl Environment {
    #[verifier::type_invariant]
    spec fn well_formed(self) -> bool {
        &&& self.names@.len() == self.values@.len()
        &&& forall|k: int|
            0 <= k < self.values@.len() ==> (#[trigger] self.values@[k])@.scoped_below(k as nat)
    }

    /// The names that are bound, slot by slot.
    pub closed spec fn names(&self) -> Seq<Seq<u8>> {
        texts(self.names@)
    }

    /// The values that the names are bound to, slot by slot.
    pub closed spec fn values(&self) -> Seq<TermModel> {
        term_models(self.values@)
    }

    /// What the environment holds.
    #[verifier::inline]
    pub open spec fn bindings(&self) -> Bindings {
        Bindings { names: self.names(), values: self.values() }
    }

    /// An environment that binds nothing.
    pub fn new() -> (env: Environment)
        ensures
            env.bindings() == Bindings::empty(),
    {
        let env = Environment { names: Vec::new(), values: Vec::new() };
        assert(env.names() =~= Seq::<Seq<u8>>::empty());
        assert(env.values() =~= Seq::<TermModel>::empty());
        env
    }

    /// How many definitions there are.
    pub fn len(&self) -> (n: usize)
        ensures
            n == self.names().len(),
            n == self.values().len(),
    {
        proof {
            use_type_invariant(self);
        }
        self.names.len()
    }

    /// The newest slot that binds `name`, if any.
    pub fn lookup(&self, name: &[u8]) -> (r: Option<usize>)
        ensures
            match r {
                Some(slot) => slot_of(self.names(), name@) == Some(slot as nat) && slot
                    < self.names().len(),
                None => slot_of(self.names(), name@) is None,
            },
    {
        let mut k: usize = self.names.len();
        assert(self.names().take(k as int) =~= self.names());
        while k > 0
            invariant
                k <= self.names@.len(),
                self.names().len() == self.names@.len(),
                slot_of(self.names(), name@) == slot_of(self.names().take(k as int), name@),
            decreases k,
        {
            k = k - 1;
            proof {
                let upto = self.names().take(k + 1);
                assert(upto.last() == self.names@[k as int]@);
                assert(upto.drop_last() =~= self.names().take(k as int));
            }
            if same_bytes(self.names[k].as_slice(), name) {
                return Some(k);
            }
        }
        None
    }

    /// The name that the slot `slot` binds.
    pub fn name(&self, slot: usize) -> (r: &[u8])
        requires
            slot < self.names().len(),
        ensures
            r@ == self.names()[slot as int],
    {
        self.names[slot].as_slice()
    }

    /// The value of the slot `slot`. It reads earlier slots only.
    pub fn value(&self, slot: usize) -> (r: &Term)
        requires
            slot < self.values().len(),
        ensures
            r@ == self.values()[slot as int],
            r@.scoped_below(slot as nat),
    {
        proof {
            use_type_invariant(self);
        }
        &self.values[slot]
    }

    /// Binds `name` to what `value` comes to in this environment, in a new
    /// slot, and gives the slot. Where `value` has a fault, nothing is
    /// bound.
    pub fn define(&mut self, name: &[u8], value: &Expression) -> (r: Result<usize, EvalError>)
        ensures
            match r {
                Ok(slot) => spec_resolve(value@, old(self).names()) matches Ok(term)
                    && slot == old(self).names().len()
                    && final(self).names() == old(self).names().push(name@)
                    && final(self).values() == old(self).values().push(term),
                Err(e) => spec_resolve(value@, old(self).names()) == Err::<
                    TermModel,
                    EvalErrorModel,
                >(e@) && final(self).names() == old(self).names() && final(self).values()
                    == old(self).values(),
            },
    {
        proof {
            use_type_invariant(&*self);
        }
        let term = match resolve(value, self) {
            Ok(term) => term,
            Err(e) => {
                return Err(e);
            },
        };
        let slot: usize = self.names.len();
        let owned = slice_to_vec(name);
        let mut taken = Environment::new();
        core::mem::swap(self, &mut taken);
        let Environment { mut names, mut values } = taken;
        proof {
            assert(texts(names@.push(owned)) =~= texts(names@).push(name@));
            assert(term_models(values@.push(term)) =~= term_models(values@).push(term@));
        }
        names.push(owned);
        values.push(term);
        *self = Environment { names, values };
        Ok(slot)
    }
}

fn unknown_name(name: &Vec<u8>) -> (r: Result<Term, EvalError>)
    ensures
        r matches Err(e) && e@ == EvalErrorModel::UnknownName(name@),
{
    Err(EvalError::UnknownName(slice_to_vec(name.as_slice())))
}

fn unknown_function(name: &Vec<u8>) -> (r: Result<Term, EvalError>)
    ensures
        r matches Err(e) && e@ == EvalErrorModel::UnknownFunction(name@),
{
    Err(EvalError::UnknownFunction(slice_to_vec(name.as_slice())))
}

fn arity_mismatch(name: &Vec<u8>, expected: usize, found: usize) -> (r: Result<Term, EvalError>)
    ensures
        r matches Err(e) && e@ == (EvalErrorModel::ArityMismatch {
            name: name@,
            expected: expected as nat,
            found: found as nat,
        }),
{
    Err(EvalError::ArityMismatch { name: slice_to_vec(name.as_slice()), expected, found })
}

/// Whether `r` is what evaluation comes to, `m`.
pub open spec fn resolved_as(r: Result<Term, EvalError>, m: Result<TermModel, EvalErrorModel>) -> bool {
    match r {
        Ok(t) => m == Ok::<TermModel, EvalErrorModel>(t@),
        Err(e) => m == Err::<TermModel, EvalErrorModel>(e@),
    }
}

/// Evaluates `expr` in `env`, up to the arithmetic: the term to compute,
/// or the first fault. The term reads only slots that `env` has.
pub fn resolve(expr: &Expression, env: &Environment) -> (r: Result<Term, EvalError>)
    ensures
        resolved_as(r, spec_resolve(expr@, env.names())),
        r matches Ok(t) ==> t@.scoped_below(env.names().len()),
    decreases expr,
{
    proof {
        lemma_resolve_scoped(expr@, env.names());
    }
    match expr {
        Expression::Ident(name) => {
            match lookup_constant(name.as_slice()) {
                Some(c) => Ok(Term::Constant(c)),
                None => match env.lookup(name.as_slice()) {
                    Some(slot) => Ok(Term::Variable(slot)),
                    None => unknown_name(name),
                },
            }
        },
        Expression::NumLiteral(n) => Ok(Term::Literal(n.duplicate())),
        Expression::FnInvoke(name, args) => {
            proof {
                lemma_fn_invoke_model(*name, *args);
            }
            let f = match lookup_function(name.as_slice()) {
                Some(f) => f,
                None => {
                    return unknown_function(name);
                },
            };
            if args.len() != f.arity() {
                return arity_mismatch(name, f.arity(), args.len());
            }
            assert(expression_models(args@)[0] == args@[0]@);
            let a = match resolve(&args[0], env) {
                Ok(a) => a,
                Err(e) => {
                    return Err(e);
                },
            };
            match f {
                Builtin::Unary(op) => Ok(Term::Unary(op, Box::new(a))),
                Builtin::Binary(op) => {
                    assert(expression_models(args@)[1] == args@[1]@);
                    match resolve(&args[1], env) {
                        Ok(b) => Ok(Term::Binary(op, Box::new(a), Box::new(b))),
                        Err(e) => Err(e),
                    }
                },
            }
        },
        Expression::Add(l, r) => {
            let a = match resolve(l, env) {
                Ok(a) => a,
                Err(e) => {
                    return Err(e);
                },
            };
            match resolve(r, env) {
                Ok(b) => Ok(Term::Add(Box::new(a), Box::new(b))),
                Err(e) => Err(e),
            }
        },
        Expression::Sub(l, r) => {
            let a = match resolve(l, env) {
                Ok(a) => a,
                Err(e) => {
                    return Err(e);
                },
            };
            match resolve(r, env) {
                Ok(b) => Ok(Term::Sub(Box::new(a), Box::new(b))),
                Err(e) => Err(e),
            }
        },
        Expression::Mul(l, r) => {
            let a = match resolve(l, env) {
                Ok(a) => a,
                Err(e) => {
                    return Err(e);
                },
            };
            match resolve(r, env) {
                Ok(b) => Ok(Term::Mul(Box::new(a), Box::new(b))),
                Err(e) => Err(e),
            }
        },
        Expression::Div(l, r) => {
            let a = match resolve(l, env) {
                Ok(a) => a,
                Err(e) => {
                    return Err(e);
                },
            };
            match resolve(r, env) {
                Ok(b) => Ok(Term::Div(Box::new(a), Box::new(b))),
                Err(e) => Err(e),
            }
        },
    }
}

/// A name is bound from its definition on: once `name` is defined, after
/// the definitions `before`, it has a value whatever definitions `later`
/// follow, and the value is that of this definition or of a later one of
/// the same name. Where no later definition has the name, it is this one.
pub proof fn lemma_definition_visible_later(
    before: Seq<Seq<u8>>,
    name: Seq<u8>,
    later: Seq<Seq<u8>>,
)
    requires
        spec_constant(name) is None,
    ensures
        spec_resolve(ExpressionModel::Ident(name), before.push(name) + later) matches Ok(
            TermModel::Variable(slot),
        ) && before.len() <= slot < before.len() + 1 + later.len() && ((forall|k: int|
            0 <= k < later.len() ==> later[k] != name) ==> slot == before.len()),
{
    let all = before.push(name) + later;
    lemma_slot_of(all, name);
    assert(all[before.len() as int] == name);
    match slot_of(all, name) {
        Some(slot) => {
            if slot > before.len() {
                assert(all[slot as int] == later[slot - before.len() - 1]);
            }
        },
        None => {},
    }
}

/// A name is not bound before its definition: where none of the
/// definitions so far has the name, and it is no builtin constant, an
/// expression that reads it has the fault `UnknownName`.
pub proof fn lemma_definition_not_visible_earlier(names: Seq<Seq<u8>>, name: Seq<u8>)
    requires
        spec_constant(name) is None,
        forall|k: int| 0 <= k < names.len() ==> names[k] != name,
    ensures
        spec_resolve(ExpressionModel::Ident(name), names) == Err::<TermModel, EvalErrorModel>(
            EvalErrorModel::UnknownName(name),
        ),
{
    lemma_slot_of(names, name);
}

} // verus!
