//! The tree-walking evaluator: a pure function from expression and
//! environment to value. Conjunction and disjunction short-circuit;
//! every other operator evaluates all its arguments left to right.
//!
//! `spec_eval` is the mathematical definition; `eval` computes it.

use vstd::prelude::*;

verus! {

use crate::env::Env;
use crate::error::EvalError;
use crate::error::EvalErrorS;
use crate::expr::deep_seq;
use crate::expr::eq_expr;
use crate::expr::lemma_deep_seq;
use crate::expr::Expr;
use crate::expr::ExprS;
use crate::strings::lex_lt;
use crate::strings::str_eq;
use crate::strings::chars_vec;
use crate::strings::cmp_chars;

/// The family name of a value, used in error reports.
pub open spec fn spec_type_name(e: ExprS) -> Seq<char> {
    match e {
        ExprS::Str(_) => "string"@,
        ExprS::Int(_) => "int"@,
        ExprS::Bool(_) => "bool"@,
        ExprS::Ident(_) => "ident"@,
        ExprS::Sequence(_) => "seq"@,
        ExprS::List(_, _) => "list"@,
    }
}

/// Division truncated toward zero, as 64-bit machine division rounds.
pub open spec fn trunc_div(a: int, b: int) -> int {
    if (a < 0) == (b < 0) {
        abs_of(a) / abs_of(b)
    } else {
        -(abs_of(a) / abs_of(b))
    }
}

/// The absolute value of an integer.
pub open spec fn abs_of(a: int) -> int {
    if a < 0 {
        -a
    } else {
        a
    }
}

/// The ghost result of evaluating `e` under `env`.
pub open spec fn spec_eval(e: ExprS, env: Map<Seq<char>, ExprS>) -> Result<ExprS, EvalErrorS>
    decreases e, 0int,
{
    match e {
        ExprS::Str(_) => Ok(e),
        ExprS::Int(_) => Ok(e),
        ExprS::Bool(_) => Ok(e),
        ExprS::Ident(n) => if env.contains_key(n) {
            Ok(env[n])
        } else {
            Err(EvalErrorS::Unbound(n))
        },
        ExprS::Sequence(items) => match spec_eval_seq(items, env) {
            Ok(vs) => Ok(ExprS::Sequence(vs)),
            Err(er) => Err(er),
        },
        ExprS::List(head, args) => match *head {
            ExprS::Ident(op) => spec_dispatch(op, args, env),
            _ => Err(EvalErrorS::MalformedHead),
        },
    }
}

/// Evaluates every element, left to right, stopping at the first error.
pub open spec fn spec_eval_seq(items: Seq<ExprS>, env: Map<Seq<char>, ExprS>) -> Result<
    Seq<ExprS>,
    EvalErrorS,
>
    decreases items, 0int,
{
    if items.len() == 0 {
        Ok(Seq::empty())
    } else {
        match spec_eval(items[0], env) {
            Ok(v) => match spec_eval_seq(items.drop_first(), env) {
                Ok(vs) => Ok(seq![v] + vs),
                Err(er) => Err(er),
            },
            Err(er) => Err(er),
        }
    }
}

/// An elementwise evaluation that succeeds keeps the element count.
pub proof fn lemma_spec_eval_seq_len(items: Seq<ExprS>, env: Map<Seq<char>, ExprS>)
    ensures
        spec_eval_seq(items, env) matches Ok(vs) ==> vs.len() == items.len(),
    decreases items.len(),
{
    if items.len() > 0 {
        lemma_spec_eval_seq_len(items.drop_first(), env);
    }
}

/// Short-circuit conjunction over unevaluated arguments.
pub open spec fn spec_eval_and(args: Seq<ExprS>, env: Map<Seq<char>, ExprS>) -> Result<
    ExprS,
    EvalErrorS,
>
    decreases args, 0int,
{
    if args.len() == 0 {
        Ok(ExprS::Bool(true))
    } else {
        match spec_eval(args[0], env) {
            Ok(ExprS::Bool(false)) => Ok(ExprS::Bool(false)),
            Ok(ExprS::Bool(true)) => spec_eval_and(args.drop_first(), env),
            Ok(v) => Err(EvalErrorS::TypeMismatch("and"@, "bool"@, spec_type_name(v))),
            Err(er) => Err(er),
        }
    }
}

/// Short-circuit disjunction over unevaluated arguments.
pub open spec fn spec_eval_or(args: Seq<ExprS>, env: Map<Seq<char>, ExprS>) -> Result<
    ExprS,
    EvalErrorS,
>
    decreases args, 0int,
{
    if args.len() == 0 {
        Ok(ExprS::Bool(false))
    } else {
        match spec_eval(args[0], env) {
            Ok(ExprS::Bool(true)) => Ok(ExprS::Bool(true)),
            Ok(ExprS::Bool(false)) => spec_eval_or(args.drop_first(), env),
            Ok(v) => Err(EvalErrorS::TypeMismatch("or"@, "bool"@, spec_type_name(v))),
            Err(er) => Err(er),
        }
    }
}

/// An ordering verdict for two evaluated operands, or a type mismatch.
pub open spec fn spec_compare(op: Seq<char>, a: ExprS, b: ExprS) -> Result<
    (bool, bool),
    EvalErrorS,
> {
    match (a, b) {
        (ExprS::Int(x), ExprS::Int(y)) => Ok(((x < y), (x == y))),
        (ExprS::Str(x), ExprS::Str(y)) => Ok((lex_lt(x, y), (x == y))),
        _ => Err(EvalErrorS::TypeMismatch(op, "int or string"@, spec_type_name(b))),
    }
}

/// Integer arithmetic on two evaluated operands: 64-bit, with overflow
/// and division-by-zero reported.
pub open spec fn spec_arith(op: Seq<char>, a: ExprS, b: ExprS) -> Result<ExprS, EvalErrorS> {
    match (a, b) {
        (ExprS::Int(x), ExprS::Int(y)) => {
            if op == "/"@ && y == 0 {
                Err(EvalErrorS::DivByZero)
            } else {
                let v = if op == "+"@ {
                    x + y
                } else if op == "-"@ {
                    x - y
                } else if op == "*"@ {
                    x * y
                } else {
                    trunc_div(x, y)
                };
                if v < i64::MIN || v > i64::MAX {
                    Err(EvalErrorS::Overflow)
                } else {
                    Ok(ExprS::Int(v))
                }
            }
        },
        _ => Err(EvalErrorS::TypeMismatch(op, "int"@, spec_type_name(b))),
    }
}

/// Whether a value equals some element of a sequence of values.
pub open spec fn spec_member(x: ExprS, items: Seq<ExprS>) -> bool {
    exists|i: int| 0 <= i < items.len() && items[i] == x
}

/// Applies the operator named `op` to unevaluated arguments `args`.
pub open spec fn spec_dispatch(
    op: Seq<char>,
    args: Seq<ExprS>,
    env: Map<Seq<char>, ExprS>,
) -> Result<ExprS, EvalErrorS>
    decreases args, 1int,
{
    if op == "and"@ {
        spec_eval_and(args, env)
    } else if op == "or"@ {
        spec_eval_or(args, env)
    } else if op == "not"@ {
        if args.len() != 1 {
            Err(EvalErrorS::Arity(op, 1, args.len() as int))
        } else {
            match spec_eval(args[0], env) {
                Ok(ExprS::Bool(b)) => Ok(ExprS::Bool(!b)),
                Ok(v) => Err(EvalErrorS::TypeMismatch(op, "bool"@, spec_type_name(v))),
                Err(er) => Err(er),
            }
        }
    } else if op == "="@ || op == "!="@ {
        if args.len() != 2 {
            Err(EvalErrorS::Arity(op, 2, args.len() as int))
        } else {
            match spec_eval_seq(args, env) {
                Ok(vs) => {
                    let same = vs[0] == vs[1];
                    Ok(ExprS::Bool(if op == "="@ { same } else { !same }))
                },
                Err(er) => Err(er),
            }
        }
    } else if op == "<"@ || op == "<="@ || op == ">"@ || op == ">="@ {
        if args.len() != 2 {
            Err(EvalErrorS::Arity(op, 2, args.len() as int))
        } else {
            match spec_eval_seq(args, env) {
                Ok(vs) => match spec_compare(op, vs[0], vs[1]) {
                    Ok((lt, eq)) => {
                        let r = if op == "<"@ {
                            lt
                        } else if op == "<="@ {
                            lt || eq
                        } else if op == ">"@ {
                            !lt && !eq
                        } else {
                            !lt
                        };
                        Ok(ExprS::Bool(r))
                    },
                    Err(er) => Err(er),
                },
                Err(er) => Err(er),
            }
        }
    } else if op == "+"@ || op == "-"@ || op == "*"@ || op == "/"@ {
        if args.len() != 2 {
            Err(EvalErrorS::Arity(op, 2, args.len() as int))
        } else {
            match spec_eval_seq(args, env) {
                Ok(vs) => spec_arith(op, vs[0], vs[1]),
                Err(er) => Err(er),
            }
        }
    } else if op == "if"@ {
        if args.len() != 3 {
            Err(EvalErrorS::Arity(op, 3, args.len() as int))
        } else {
            match spec_eval(args[0], env) {
                Ok(ExprS::Bool(true)) => spec_eval(args[1], env),
                Ok(ExprS::Bool(false)) => spec_eval(args[2], env),
                Ok(v) => Err(EvalErrorS::TypeMismatch(op, "bool"@, spec_type_name(v))),
                Err(er) => Err(er),
            }
        }
    } else if op == "member?"@ {
        if args.len() != 2 {
            Err(EvalErrorS::Arity(op, 2, args.len() as int))
        } else {
            match spec_eval_seq(args, env) {
                Ok(vs) => match vs[1] {
                    ExprS::Sequence(items) => Ok(ExprS::Bool(spec_member(vs[0], items))),
                    _ => Err(EvalErrorS::TypeMismatch(op, "seq"@, spec_type_name(vs[1]))),
                },
                Err(er) => Err(er),
            }
        }
    } else if op == "exists?"@ {
        if args.len() != 1 {
            Err(EvalErrorS::Arity(op, 1, args.len() as int))
        } else {
            match args[0] {
                ExprS::Ident(n) => Ok(ExprS::Bool(env.contains_key(n))),
                _ => Err(
                    EvalErrorS::TypeMismatch(op, "ident"@, spec_type_name(args[0])),
                ),
            }
        }
    } else if op == "list"@ {
        match spec_eval_seq(args, env) {
            Ok(vs) => Ok(ExprS::Sequence(vs)),
            Err(er) => Err(er),
        }
    } else {
        Err(EvalErrorS::UnknownOp(op))
    }
}

/// Short-circuit law: in a conjunction whose first argument evaluates
/// to `false`, the verdict is `false` no matter what the remaining
/// arguments are. They are never evaluated: an unbound identifier or any
/// other error among them raises nothing.
pub proof fn lemma_and_short_circuit(e1: ExprS, rest: Seq<ExprS>, env: Map<Seq<char>, ExprS>)
    requires
        spec_eval(e1, env) == Result::<ExprS, EvalErrorS>::Ok(ExprS::Bool(false)),
    ensures
        spec_eval(ExprS::List(Box::new(ExprS::Ident("and"@)), seq![e1] + rest), env)
            == Result::<ExprS, EvalErrorS>::Ok(ExprS::Bool(false)),
{
    let args = seq![e1] + rest;
    assert(args[0] == e1);
    assert(args.len() >= 1);
    assert(spec_dispatch("and"@, args, env) == spec_eval_and(args, env));
    assert(spec_eval_and(args, env) == Result::<ExprS, EvalErrorS>::Ok(ExprS::Bool(false)));
}

/// The ghost model of an evaluation outcome.
pub open spec fn result_model(r: Result<Expr, EvalError>) -> Result<ExprS, EvalErrorS> {
    match r {
        Ok(v) => Ok(v@),
        Err(e) => Err(e@),
    }
}

/// The family name of a value, for error reports.
fn family_of(e: &Expr) -> (r: String)
    ensures
        r@ == spec_type_name(e@),
{
    match e {
        Expr::Str(_) => String::from_str("string"),
        Expr::Int(_) => String::from_str("int"),
        Expr::Bool(_) => String::from_str("bool"),
        Expr::Ident(_) => String::from_str("ident"),
        Expr::Sequence(_) => String::from_str("seq"),
        Expr::List(_, _) => String::from_str("list"),
    }
}

/// Reduces `e` under `env`.
///
/// Scalars evaluate to themselves, identifiers resolve through the
/// environment, sequences reduce elementwise, and applications dispatch
/// on their operator. The result equals `spec_eval` exactly.
pub fn eval(e: &Expr, env: &Env) -> (r: Result<Expr, EvalError>)
    requires
        env.wf(),
    ensures
        result_model(r) == spec_eval(e@, env@),
    decreases *e, 0int,
{
    match e {
        Expr::Str(_) => Ok(e.deep_clone()),
        Expr::Int(i) => Ok(Expr::Int(*i)),
        Expr::Bool(b) => Ok(Expr::Bool(*b)),
        Expr::Ident(n) => match env.get(n.as_str()) {
            Some(v) => Ok(v),
            None => Err(EvalError::Unbound(n.clone())),
        },
        Expr::Sequence(items) => match eval_vec(items, env) {
            Ok(vs) => Ok(Expr::Sequence(vs)),
            Err(er) => Err(er),
        },
        Expr::List(head, args) => match &**head {
            Expr::Ident(op) => {
                proof {
                    assert(e@ == ExprS::List(Box::new((**head).deep()), deep_seq(args@)));
                    assert(spec_eval(e@, env@) == spec_dispatch(op@, deep_seq(args@), env@));
                }
                dispatch(op, args, env)
            },
            _ => {
                proof {
                    assert(e@ == ExprS::List(Box::new((**head).deep()), deep_seq(args@)));
                }
                Err(EvalError::MalformedHead)
            },
        },
    }
}

/// Evaluates every element of `items`, left to right.
fn eval_vec(items: &Vec<Expr>, env: &Env) -> (r: Result<Vec<Expr>, EvalError>)
    requires
        env.wf(),
    ensures
        match r {
            Ok(vs) => spec_eval_seq(deep_seq(items@), env@) == Result::<
                Seq<ExprS>,
                EvalErrorS,
            >::Ok(deep_seq(vs@)),
            Err(er) => spec_eval_seq(deep_seq(items@), env@) == Result::<
                Seq<ExprS>,
                EvalErrorS,
            >::Err(er@),
        },
    decreases items@, 0int,
{
    let mut out: Vec<Expr> = Vec::new();
    let mut i: usize = 0;
    proof {
        lemma_deep_seq(items@);
        assert(deep_seq(items@).skip(0) =~= deep_seq(items@));
        assert(deep_seq(Seq::<Expr>::empty()) + deep_seq(items@) =~= deep_seq(items@));
        assert(out@ =~= Seq::<Expr>::empty());
    }
    while i < items.len()
        invariant
            env.wf(),
            i <= items@.len(),
            out@.len() == i,
            deep_seq(items@).len() == items@.len(),
            forall|j: int| 0 <= j < items@.len() ==> deep_seq(items@)[j] == items@[j].deep(),
            spec_eval_seq(deep_seq(items@), env@) == match spec_eval_seq(
                deep_seq(items@).skip(i as int),
                env@,
            ) {
                Ok(vs) => Result::<Seq<ExprS>, EvalErrorS>::Ok(deep_seq(out@) + vs),
                Err(er) => Result::<Seq<ExprS>, EvalErrorS>::Err(er),
            },
        decreases items@.len() - i,
    {
        proof {
            lemma_deep_seq(out@);
        }
        let v = match eval(&items[i], env) {
            Ok(v) => v,
            Err(er) => {
                proof {
                    assert(deep_seq(items@).skip(i as int)[0] == items@[i as int].deep());
                }
                return Err(er);
            },
        };
        proof {
            assert(deep_seq(items@).skip(i as int)[0] == items@[i as int].deep());
            assert(deep_seq(items@).skip(i as int).drop_first() =~= deep_seq(items@).skip(
                i as int + 1,
            ));
        }
        let ghost old_out = out@;
        out.push(v);
        proof {
            lemma_deep_seq(out@);
            lemma_deep_seq(old_out);
            assert(out@.drop_last() =~= old_out);
            assert(deep_seq(out@) =~= deep_seq(old_out) + seq![v@]) by {
                assert(forall|j: int|
                    0 <= j < out@.len() ==> deep_seq(out@)[j] == out@[j].deep());
            }
            assert forall|vs: Seq<ExprS>| true implies (deep_seq(old_out) + (seq![v@] + vs))
                =~= (deep_seq(out@) + vs) by {}
        }
        i = i + 1;
    }
    proof {
        assert(deep_seq(items@).skip(i as int) =~= Seq::<ExprS>::empty());
        assert(deep_seq(out@) + Seq::<ExprS>::empty() =~= deep_seq(out@));
    }
    Ok(out)
}

/// Applies the operator named `op` to the unevaluated arguments.
fn dispatch(op: &String, args: &Vec<Expr>, env: &Env) -> (r: Result<Expr, EvalError>)
    requires
        env.wf(),
    ensures
        result_model(r) == spec_dispatch(op@, deep_seq(args@), env@),
    decreases args@, 1int,
{
    proof {
        lemma_deep_seq(args@);
    }
    let o = op.as_str();
    if str_eq(o, "and") {
        eval_and(args, env)
    } else if str_eq(o, "or") {
        eval_or(args, env)
    } else if str_eq(o, "not") {
        if args.len() != 1 {
            return Err(arity(op, 1, args.len()));
        }
        match eval(&args[0], env) {
            Ok(Expr::Bool(b)) => Ok(Expr::Bool(!b)),
            Ok(v) => Err(mismatch(op, "bool", &v)),
            Err(er) => Err(er),
        }
    } else if str_eq(o, "=") || str_eq(o, "!=") {
        if args.len() != 2 {
            return Err(arity(op, 2, args.len()));
        }
        match eval_vec(args, env) {
            Ok(vs) => {
                proof {
                    lemma_deep_seq(args@);
                    lemma_spec_eval_seq_len(deep_seq(args@), env@);
                    lemma_deep_seq(vs@);
                }
                let same = eq_expr(&vs[0], &vs[1]);
                let flag = if str_eq(o, "=") {
                    same
                } else {
                    !same
                };
                Ok(Expr::Bool(flag))
            },
            Err(er) => Err(er),
        }
    } else if str_eq(o, "<") || str_eq(o, "<=") || str_eq(o, ">") || str_eq(o, ">=") {
        if args.len() != 2 {
            return Err(arity(op, 2, args.len()));
        }
        match eval_vec(args, env) {
            Ok(vs) => {
                proof {
                    lemma_deep_seq(args@);
                    lemma_spec_eval_seq_len(deep_seq(args@), env@);
                    lemma_deep_seq(vs@);
                }
                let (lt, eq) = match (&vs[0], &vs[1]) {
                    (Expr::Int(x), Expr::Int(y)) => (*x < *y, *x == *y),
                    (Expr::Str(x), Expr::Str(y)) => {
                        let cx = chars_vec(x.as_str());
                        let cy = chars_vec(y.as_str());
                        let c = cmp_chars(&cx, &cy);
                        (c == -1, c == 0)
                    },
                    _ => {
                        return Err(mismatch(op, "int or string", &vs[1]));
                    },
                };
                let flag = if str_eq(o, "<") {
                    lt
                } else if str_eq(o, "<=") {
                    lt || eq
                } else if str_eq(o, ">") {
                    !lt && !eq
                } else {
                    !lt
                };
                Ok(Expr::Bool(flag))
            },
            Err(er) => Err(er),
        }
    } else if str_eq(o, "+") || str_eq(o, "-") || str_eq(o, "*") || str_eq(o, "/") {
        if args.len() != 2 {
            return Err(arity(op, 2, args.len()));
        }
        match eval_vec(args, env) {
            Ok(vs) => {
                proof {
                    lemma_deep_seq(args@);
                    lemma_spec_eval_seq_len(deep_seq(args@), env@);
                    lemma_deep_seq(vs@);
                }
                arith(op, &vs[0], &vs[1])
            },
            Err(er) => Err(er),
        }
    } else if str_eq(o, "if") {
        if args.len() != 3 {
            return Err(arity(op, 3, args.len()));
        }
        match eval(&args[0], env) {
            Ok(Expr::Bool(true)) => eval(&args[1], env),
            Ok(Expr::Bool(false)) => eval(&args[2], env),
            Ok(v) => Err(mismatch(op, "bool", &v)),
            Err(er) => Err(er),
        }
    } else if str_eq(o, "member?") {
        if args.len() != 2 {
            return Err(arity(op, 2, args.len()));
        }
        match eval_vec(args, env) {
            Ok(vs) => {
                proof {
                    lemma_deep_seq(args@);
                    lemma_spec_eval_seq_len(deep_seq(args@), env@);
                    lemma_deep_seq(vs@);
                }
                match &vs[1] {
                    Expr::Sequence(items) => {
                        let found = member_of(&vs[0], items);
                        Ok(Expr::Bool(found))
                    },
                    _ => Err(mismatch(op, "seq", &vs[1])),
                }
            },
            Err(er) => Err(er),
        }
    } else if str_eq(o, "exists?") {
        if args.len() != 1 {
            return Err(arity(op, 1, args.len()));
        }
        match &args[0] {
            Expr::Ident(n) => {
                let bound = env.contains(n.as_str());
                Ok(Expr::Bool(bound))
            },
            _ => Err(mismatch(op, "ident", &args[0])),
        }
    } else if str_eq(o, "list") {
        match eval_vec(args, env) {
            Ok(vs) => Ok(Expr::Sequence(vs)),
            Err(er) => Err(er),
        }
    } else {
        Err(EvalError::UnknownOp(op.clone()))
    }
}

/// Short-circuit conjunction: stops at the first `false` or error.
fn eval_and(args: &Vec<Expr>, env: &Env) -> (r: Result<Expr, EvalError>)
    requires
        env.wf(),
    ensures
        result_model(r) == spec_eval_and(deep_seq(args@), env@),
    decreases args@, 0int,
{
    proof {
        lemma_deep_seq(args@);
        assert(deep_seq(args@).skip(0) =~= deep_seq(args@));
    }
    let mut i: usize = 0;
    while i < args.len()
        invariant
            env.wf(),
            i <= args@.len(),
            deep_seq(args@).len() == args@.len(),
            forall|j: int| 0 <= j < args@.len() ==> deep_seq(args@)[j] == args@[j].deep(),
            spec_eval_and(deep_seq(args@), env@) == spec_eval_and(
                deep_seq(args@).skip(i as int),
                env@,
            ),
        decreases args@.len() - i,
    {
        proof {
            assert(deep_seq(args@).skip(i as int)[0] == args@[i as int].deep());
            assert(deep_seq(args@).skip(i as int).drop_first() =~= deep_seq(args@).skip(
                i as int + 1,
            ));
        }
        match eval(&args[i], env) {
            Ok(Expr::Bool(false)) => {
                return Ok(Expr::Bool(false));
            },
            Ok(Expr::Bool(true)) => {},
            Ok(v) => {
                return Err(mismatch(&String::from_str("and"), "bool", &v));
            },
            Err(er) => {
                return Err(er);
            },
        }
        i = i + 1;
    }
    proof {
        assert(deep_seq(args@).skip(i as int) =~= Seq::<ExprS>::empty());
    }
    Ok(Expr::Bool(true))
}

/// Short-circuit disjunction: stops at the first `true` or error.
fn eval_or(args: &Vec<Expr>, env: &Env) -> (r: Result<Expr, EvalError>)
    requires
        env.wf(),
    ensures
        result_model(r) == spec_eval_or(deep_seq(args@), env@),
    decreases args@, 0int,
{
    proof {
        lemma_deep_seq(args@);
        assert(deep_seq(args@).skip(0) =~= deep_seq(args@));
    }
    let mut i: usize = 0;
    while i < args.len()
        invariant
            env.wf(),
            i <= args@.len(),
            deep_seq(args@).len() == args@.len(),
            forall|j: int| 0 <= j < args@.len() ==> deep_seq(args@)[j] == args@[j].deep(),
            spec_eval_or(deep_seq(args@), env@) == spec_eval_or(
                deep_seq(args@).skip(i as int),
                env@,
            ),
        decreases args@.len() - i,
    {
        proof {
            assert(deep_seq(args@).skip(i as int)[0] == args@[i as int].deep());
            assert(deep_seq(args@).skip(i as int).drop_first() =~= deep_seq(args@).skip(
                i as int + 1,
            ));
        }
        match eval(&args[i], env) {
            Ok(Expr::Bool(true)) => {
                return Ok(Expr::Bool(true));
            },
            Ok(Expr::Bool(false)) => {},
            Ok(v) => {
                return Err(mismatch(&String::from_str("or"), "bool", &v));
            },
            Err(er) => {
                return Err(er);
            },
        }
        i = i + 1;
    }
    proof {
        assert(deep_seq(args@).skip(i as int) =~= Seq::<ExprS>::empty());
    }
    Ok(Expr::Bool(false))
}

/// Builds an arity error.
fn arity(op: &String, want: u64, got: usize) -> (r: EvalError)
    requires
        got <= u64::MAX,
    ensures
        r@ == EvalErrorS::Arity(op@, want as int, got as int),
{
    EvalError::Arity { op: op.clone(), want, got: got as u64 }
}

/// Builds a type-mismatch error against the evaluated value `v`.
fn mismatch(op: &String, want: &str, v: &Expr) -> (r: EvalError)
    ensures
        r@ == EvalErrorS::TypeMismatch(op@, want@, spec_type_name(v@)),
{
    EvalError::TypeMismatch { op: op.clone(), want: want.to_owned(), got: family_of(v) }
}

/// Whether `x` equals some element of `items`.
fn member_of(x: &Expr, items: &Vec<Expr>) -> (r: bool)
    ensures
        r == spec_member(x@, deep_seq(items@)),
{
    proof {
        lemma_deep_seq(items@);
    }
    let mut i: usize = 0;
    while i < items.len()
        invariant
            i <= items@.len(),
            deep_seq(items@).len() == items@.len(),
            forall|j: int| 0 <= j < items@.len() ==> deep_seq(items@)[j] == items@[j].deep(),
            forall|j: int| 0 <= j < i ==> deep_seq(items@)[j] != x@,
        decreases items@.len() - i,
    {
        if eq_expr(x, &items[i]) {
            proof {
                assert(deep_seq(items@)[i as int] == x@);
            }
            return true;
        }
        i = i + 1;
    }
    false
}

/// The four arithmetic operator names differ from one another.
proof fn lemma_ops_distinct()
    ensures
        "+"@ != "/"@,
        "-"@ != "/"@,
        "*"@ != "/"@,
        "+"@ != "-"@,
        "+"@ != "*"@,
        "-"@ != "*"@,
{
    broadcast use vstd::string::group_string_axioms;

    reveal_strlit("+");
    reveal_strlit("-");
    reveal_strlit("*");
    reveal_strlit("/");
    assert("+"@[0] == '+');
    assert("-"@[0] == '-');
    assert("*"@[0] == '*');
    assert("/"@[0] == '/');
}

/// 64-bit arithmetic on two evaluated operands.
fn arith(op: &String, a: &Expr, b: &Expr) -> (r: Result<Expr, EvalError>)
    requires
        op@ == "+"@ || op@ == "-"@ || op@ == "*"@ || op@ == "/"@,
    ensures
        result_model(r) == spec_arith(op@, a@, b@),
{
    proof {
        lemma_ops_distinct();
    }
    let (x, y) = match (a, b) {
        (Expr::Int(x), Expr::Int(y)) => (*x, *y),
        _ => {
            return Err(mismatch(op, "int", b));
        },
    };
    let o = op.as_str();
    if str_eq(o, "+") {
        match x.checked_add(y) {
            Some(v) => {
                proof {
                    assert(spec_arith(op@, a@, b@) == Result::<ExprS, EvalErrorS>::Ok(
                        ExprS::Int(v as int),
                    ));
                }
                Ok(Expr::Int(v))
            },
            None => Err(EvalError::Overflow),
        }
    } else if str_eq(o, "-") {
        match x.checked_sub(y) {
            Some(v) => {
                proof {
                    assert(spec_arith(op@, a@, b@) == Result::<ExprS, EvalErrorS>::Ok(
                        ExprS::Int(v as int),
                    ));
                }
                Ok(Expr::Int(v))
            },
            None => Err(EvalError::Overflow),
        }
    } else if str_eq(o, "*") {
        match x.checked_mul(y) {
            Some(v) => {
                proof {
                    assert(spec_arith(op@, a@, b@) == Result::<ExprS, EvalErrorS>::Ok(
                        ExprS::Int(v as int),
                    ));
                }
                Ok(Expr::Int(v))
            },
            None => Err(EvalError::Overflow),
        }
    } else {
        if y == 0 {
            return Err(EvalError::DivByZero);
        }
        match x.checked_div(y) {
            Some(v) => {
                proof {
                    assert(v as int == trunc_div(x as int, y as int));
                    assert(spec_arith(op@, a@, b@) == Result::<ExprS, EvalErrorS>::Ok(
                        ExprS::Int(v as int),
                    ));
                }
                Ok(Expr::Int(v))
            },
            None => Err(EvalError::Overflow),
        }
    }
}

} // verus!
