//! The value / AST type of the policy expression language.
//!
//! A single tagged variant serves as source syntax and as runtime value:
//! scalars, identifiers, sequences, and operator applications. The ghost
//! model `ExprS` mirrors the executable `Expr` with mathematical payloads
//! (`Seq<char>`, `int`), and every contract in the crate speaks of it.

use vstd::prelude::*;

verus! {

/// Mathematical model of an expression: the view of `Expr`.
#[verifier::ext_equal]
pub enum ExprS {
    /// UTF-8 string literal.
    Str(Seq<char>),
    /// Signed 64-bit integer.
    Int(int),
    /// Boolean literal.
    Bool(bool),
    /// Dotted identifier; only meaningful before evaluation.
    Ident(Seq<char>),
    /// Ordered sequence of values.
    Sequence(Seq<ExprS>),
    /// Operator application: head expression and arguments.
    List(Box<ExprS>, Seq<ExprS>),
}

/// An expression of the policy language, used both as AST node and as
/// runtime value.
#[derive(Debug)]
pub enum Expr {
    /// UTF-8 string literal.
    Str(String),
    /// Signed 64-bit integer.
    Int(i64),
    /// Boolean literal.
    Bool(bool),
    /// Dotted identifier; the evaluator resolves it through the environment.
    Ident(String),
    /// Ordered sequence of values; mixed element types are allowed.
    Sequence(Vec<Expr>),
    /// Operator application: head position and arguments.
    List(Box<Expr>, Vec<Expr>),
}

impl Expr {
    /// The ghost model of this expression.
    pub open spec fn deep(self) -> ExprS
        decreases self,
    {
        match self {
            Expr::Str(s) => ExprS::Str(s@),
            Expr::Int(i) => ExprS::Int(i as int),
            Expr::Bool(b) => ExprS::Bool(b),
            Expr::Ident(s) => ExprS::Ident(s@),
            Expr::Sequence(items) => ExprS::Sequence(deep_seq(items@)),
            Expr::List(head, args) => ExprS::List(Box::new((*head).deep()), deep_seq(args@)),
        }
    }
}

impl View for Expr {
    type V = ExprS;

    open spec fn view(&self) -> ExprS {
        self.deep()
    }
}

/// The ghost models of a sequence of expressions, element by element.
pub open spec fn deep_seq(items: Seq<Expr>) -> Seq<ExprS>
    decreases items,
{
    if items.len() == 0 {
        Seq::empty()
    } else {
        seq![items[0].deep()] + deep_seq(items.drop_first())
    }
}

/// `deep_seq` maps `deep` over the sequence pointwise.
pub proof fn lemma_deep_seq(items: Seq<Expr>)
    ensures
        deep_seq(items).len() == items.len(),
        forall|i: int| 0 <= i < items.len() ==> deep_seq(items)[i] == items[i].deep(),
    decreases items.len(),
{
    if items.len() > 0 {
        lemma_deep_seq(items.drop_first());
    }
}

impl Expr {
    /// A structural deep copy whose model equals this expression's model.
    pub fn deep_clone(&self) -> (r: Expr)
        ensures
            r@ == self@,
        decreases *self,
    {
        match self {
            Expr::Str(s) => Expr::Str(s.clone()),
            Expr::Int(i) => Expr::Int(*i),
            Expr::Bool(b) => Expr::Bool(*b),
            Expr::Ident(s) => Expr::Ident(s.clone()),
            Expr::Sequence(items) => Expr::Sequence(deep_clone_vec(items)),
            Expr::List(head, args) => {
                let h = (**head).deep_clone();
                Expr::List(Box::new(h), deep_clone_vec(args))
            },
        }
    }
}

fn deep_clone_vec(items: &Vec<Expr>) -> (r: Vec<Expr>)
    ensures
        r@.len() == items@.len(),
        deep_seq(r@) == deep_seq(items@),
    decreases items@,
{
    let mut out: Vec<Expr> = Vec::new();
    let mut i: usize = 0;
    while i < items.len()
        invariant
            i <= items@.len(),
            out@.len() == i,
            forall|j: int| 0 <= j < i ==> out@[j].deep() == items@[j].deep(),
        decreases items@.len() - i,
    {
        let c = items[i].deep_clone();
        out.push(c);
        i = i + 1;
    }
    proof {
        lemma_deep_seq(out@);
        lemma_deep_seq(items@);
        assert(deep_seq(out@) =~= deep_seq(items@));
    }
    out
}

/// Structural equality of two expressions, decided recursively.
pub fn eq_expr(a: &Expr, b: &Expr) -> (r: bool)
    ensures
        r == (a@ == b@),
    decreases *a,
{
    match (a, b) {
        (Expr::Str(x), Expr::Str(y)) => *x == *y,
        (Expr::Int(x), Expr::Int(y)) => x == y,
        (Expr::Bool(x), Expr::Bool(y)) => x == y,
        (Expr::Ident(x), Expr::Ident(y)) => *x == *y,
        (Expr::Sequence(xs), Expr::Sequence(ys)) => eq_expr_vec(xs, ys),
        (Expr::List(xh, xs), Expr::List(yh, ys)) => {
            let he = eq_expr(xh, yh);
            he && eq_expr_vec(xs, ys)
        },
        _ => false,
    }
}

fn eq_expr_vec(xs: &Vec<Expr>, ys: &Vec<Expr>) -> (r: bool)
    ensures
        r == (deep_seq(xs@) == deep_seq(ys@)),
    decreases xs@,
{
    proof {
        lemma_deep_seq(xs@);
        lemma_deep_seq(ys@);
    }
    if xs.len() != ys.len() {
        proof {
            assert(deep_seq(xs@).len() != deep_seq(ys@).len());
        }
        return false;
    }
    let mut i: usize = 0;
    while i < xs.len()
        invariant
            xs@.len() == ys@.len(),
            i <= xs@.len(),
            deep_seq(xs@).len() == xs@.len(),
            deep_seq(ys@).len() == ys@.len(),
            forall|j: int| 0 <= j < i ==> deep_seq(xs@)[j] == deep_seq(ys@)[j],
            forall|j: int| 0 <= j < xs@.len() ==> deep_seq(xs@)[j] == xs@[j].deep(),
            forall|j: int| 0 <= j < ys@.len() ==> deep_seq(ys@)[j] == ys@[j].deep(),
        decreases xs@.len() - i,
    {
        if !eq_expr(&xs[i], &ys[i]) {
            proof {
                assert(deep_seq(xs@)[i as int] == xs@[i as int].deep());
                assert(deep_seq(ys@)[i as int] == ys@[i as int].deep());
            }
            return false;
        }
        i = i + 1;
    }
    proof {
        assert(deep_seq(xs@) =~= deep_seq(ys@));
    }
    true
}

} // verus!
