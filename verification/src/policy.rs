//! A policy wraps one expression. A constant policy can be answered
//! without assembling an environment; any other policy is evaluated and
//! must reduce to a boolean to produce a verdict.

use vstd::prelude::*;

verus! {

use crate::env::Env;
use crate::error::EvalError;
use crate::eval::eval;
use crate::eval::spec_eval;
use crate::expr::Expr;
use crate::expr::ExprS;
use crate::types::Action;

/// A persisted predicate over an environment: one expression.
#[derive(Debug)]
pub struct Policy {
    expression: Expr,
}

impl View for Policy {
    type V = ExprS;

    closed spec fn view(&self) -> ExprS {
        self.expression@
    }
}

impl Policy {
    /// Wraps an expression.
    pub fn new(e: Expr) -> (r: Policy)
        ensures
            r@ == e@,
    {
        Policy { expression: e }
    }

    /// The wrapped expression.
    pub fn expression(&self) -> (r: &Expr)
        ensures
            r@ == self@,
    {
        &self.expression
    }

    /// A copy with the same expression.
    pub fn dup(&self) -> (r: Policy)
        ensures
            r@ == self@,
    {
        Policy { expression: self.expression.deep_clone() }
    }

    /// The boolean this policy is, if it is exactly a boolean literal.
    ///
    /// A constant policy needs no environment and no attribute data.
    pub fn is_constant_policy(&self) -> (r: Option<bool>)
        ensures
            match r {
                Some(b) => self@ == ExprS::Bool(b),
                None => !(self@ is Bool),
            },
    {
        match &self.expression {
            Expr::Bool(b) => Some(*b),
            _ => None,
        }
    }

    /// Evaluates the wrapped expression under `env`.
    ///
    /// Returns `Ok(Some(b))` when the expression reduces to the boolean
    /// `b`, `Ok(None)` when it reduces to a value of another family, and
    /// the evaluation error otherwise.
    pub fn evaluate_with_environment(&self, env: &Env) -> (r: Result<Option<bool>, EvalError>)
        requires
            env.wf(),
        ensures
            match r {
                Ok(Some(b)) => spec_eval(self@, env@) == Result::<ExprS, crate::error::EvalErrorS>::Ok(
                    ExprS::Bool(b),
                ),
                Ok(None) => spec_eval(self@, env@) is Ok && !(spec_eval(self@, env@)->Ok_0 is Bool),
                Err(e) => spec_eval(self@, env@) == Result::<ExprS, crate::error::EvalErrorS>::Err(
                    e@,
                ),
            },
    {
        match eval(&self.expression, env) {
            Ok(Expr::Bool(b)) => Ok(Some(b)),
            Ok(_) => Ok(None),
            Err(e) => Err(e),
        }
    }
}

/// The policies of one resource, in ascending action order.
#[derive(Debug)]
pub struct PolicyList {
    policies: Vec<(Action, Policy)>,
}

impl View for PolicyList {
    type V = Seq<(Seq<char>, ExprS)>;

    closed spec fn view(&self) -> Seq<(Seq<char>, ExprS)> {
        Seq::new(self.policies@.len(), |i: int| (self.policies@[i].0@, self.policies@[i].1@))
    }
}

impl PolicyList {
    /// Wraps a list of (action, policy) pairs.
    pub fn new(ps: Vec<(Action, Policy)>) -> (r: PolicyList)
        ensures
            r@.len() == ps@.len(),
            forall|i: int|
                0 <= i < ps@.len() ==> r@[i] == (ps@[i].0@, ps@[i].1@),
    {
        PolicyList { policies: ps }
    }

    /// The wrapped pairs.
    pub fn policies(&self) -> (r: &Vec<(Action, Policy)>)
        ensures
            r@.len() == self@.len(),
            forall|i: int|
                0 <= i < r@.len() ==> self@[i] == (r@[i].0@, r@[i].1@),
    {
        &self.policies
    }
}

} // verus!
