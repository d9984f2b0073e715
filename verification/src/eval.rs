//! The tree-walking evaluator: from an `Expression` and a variable
//! store to a `Value`, by the rules below.
//!
//! A parenthesized form is headed by an atom that names an operation.
//! Four special forms receive their sub-expressions unevaluated:
//! `cond`, `set`, `progn` and `while`; ten built-ins receive their
//! arguments evaluated left to right: `add`, `sub`, `mul`, `div`,
//! `list`, `head`, `tail`, `gt`, `lt` and `eq`.
//!
//! Arithmetic policy: `add`, `sub`, `mul` and `div` wrap around on
//! 32-bit overflow, and `div` reports division by zero as the error
//! `DivisionByZero`.
//!
//! The `while` form carries a step counter of `u64::MAX` iterations so
//! that every function here provably terminates; a loop that is still
//! running after that many iterations — centuries of machine time —
//! stops with the error `StepLimitExceeded`.

use crate::expression::Expression;
use crate::expression::ExpressionList;
use crate::expression::SExpr;
use crate::expression::elist_view;
use crate::expression::expr_view;
use crate::types::SVal;
use crate::types::Type;
use crate::types::TypeList;
use crate::types::tlist_view;
use crate::types::type_view;
use crate::util::List;
use std::rc::Rc;
use vstd::prelude::*;
use vstd::wrapping::i32_specs;

verus! {

/// What `eval` and `eval_with_context` report when no value can be
/// produced.
#[derive(Debug, Clone, PartialEq)]
pub enum EvalError {
    Unexpected,
    TypeMismatch,
    BadArrity,
    NotImplementation,
    NotFoundFunctionName,
    DoHeadForNil,
    UndefinedVariableReference,
    EvaluatingNonAtomHeadList,
    DividedByZero,
    StepLimitExceeded,
}

/// The variable store as mathematics: names to value shapes.
pub type SEnv = Map<Seq<u8>, SVal>;

/// An evaluation outcome: a value or an error, with the store as the
/// evaluation left it.
pub type SOutcome = (Result<SVal, EvalError>, SEnv);

/// The operations whose arguments stay unevaluated.
#[derive(Debug, Clone, PartialEq)]
pub enum SpecialForm {
    Cond,
    SetVar,
    Progn,
    WhileLoop,
}

/// The operations whose arguments are evaluated first.
#[derive(Debug, Clone, PartialEq)]
pub enum Builtin {
    Add,
    Sub,
    Mul,
    Div,
    ListOf,
    Head,
    Tail,
    Gt,
    Lt,
    Eq,
}

/// The special form a head atom names, if any: `cond`, `set`, `progn`
/// or `while`.
pub open spec fn special_form_of(name: Seq<u8>) -> Option<SpecialForm> {
    if name == seq![99u8, 111u8, 110u8, 100u8] {
        Some(SpecialForm::Cond)
    } else if name == seq![115u8, 101u8, 116u8] {
        Some(SpecialForm::SetVar)
    } else if name == seq![112u8, 114u8, 111u8, 103u8, 110u8] {
        Some(SpecialForm::Progn)
    } else if name == seq![119u8, 104u8, 105u8, 108u8, 101u8] {
        Some(SpecialForm::WhileLoop)
    } else {
        None
    }
}

/// The built-in a head atom names, if any: `add`, `sub`, `mul`, `div`,
/// `list`, `head`, `tail`, `gt`, `lt` or `eq`.
pub open spec fn builtin_of(name: Seq<u8>) -> Option<Builtin> {
    if name == seq![97u8, 100u8, 100u8] {
        Some(Builtin::Add)
    } else if name == seq![115u8, 117u8, 98u8] {
        Some(Builtin::Sub)
    } else if name == seq![109u8, 117u8, 108u8] {
        Some(Builtin::Mul)
    } else if name == seq![100u8, 105u8, 118u8] {
        Some(Builtin::Div)
    } else if name == seq![108u8, 105u8, 115u8, 116u8] {
        Some(Builtin::ListOf)
    } else if name == seq![104u8, 101u8, 97u8, 100u8] {
        Some(Builtin::Head)
    } else if name == seq![116u8, 97u8, 105u8, 108u8] {
        Some(Builtin::Tail)
    } else if name == seq![103u8, 116u8] {
        Some(Builtin::Gt)
    } else if name == seq![108u8, 116u8] {
        Some(Builtin::Lt)
    } else if name == seq![101u8, 113u8] {
        Some(Builtin::Eq)
    } else {
        None
    }
}

/// Strict byte-wise lexicographic order: a proper prefix comes first.
pub open spec fn lex_lt(a: Seq<u8>, b: Seq<u8>) -> bool
    decreases a.len(),
{
    if b.len() == 0 {
        false
    } else if a.len() == 0 {
        true
    } else if a[0] < b[0] {
        true
    } else if a[0] > b[0] {
        false
    } else {
        lex_lt(a.drop_first(), b.drop_first())
    }
}

/// Truncating signed division, magnitude quotient with the sign of the
/// operands; meaningful only for `b != 0`.
pub open spec fn trunc_div(a: i32, b: i32) -> int {
    let m = (vstd::math::abs(a as int) / vstd::math::abs(b as int)) as int;
    if (a < 0) != (b < 0) {
        -m
    } else {
        m
    }
}

/// Division with the wrapping policy: `i32::MIN / -1` wraps to
/// `i32::MIN`; meaningful only for `b != 0`.
pub open spec fn div_wrap(a: i32, b: i32) -> i32 {
    if a == i32::MIN && b == -1 {
        i32::MIN
    } else {
        trunc_div(a, b) as i32
    }
}

/// What `add`, `sub`, `mul` or `div` returns on evaluated arguments:
/// exactly two integers, combined with wrapping arithmetic.
pub open spec fn spec_arith(op: Builtin, vals: Seq<SVal>) -> Result<SVal, EvalError> {
    if vals.len() != 2 {
        Err(EvalError::BadArrity)
    } else {
        match vals[0] {
            SVal::Int(a) => match vals[1] {
                SVal::Int(b) => match op {
                    Builtin::Add => Ok(SVal::Int(i32_specs::wrapping_add(a, b))),
                    Builtin::Sub => Ok(SVal::Int(i32_specs::wrapping_sub(a, b))),
                    Builtin::Mul => Ok(SVal::Int(i32_specs::wrapping_mul(a, b))),
                    _ => if b == 0 {
                        Err(EvalError::DividedByZero)
                    } else {
                        Ok(SVal::Int(div_wrap(a, b)))
                    },
                },
                _ => Err(EvalError::TypeMismatch),
            },
            _ => Err(EvalError::TypeMismatch),
        }
    }
}

/// What `gt`, `lt` or `eq` returns on evaluated arguments: exactly two
/// integers or two atoms; `Int(1)` when the relation holds, `Int(0)`
/// when it does not.
pub open spec fn spec_compare(op: Builtin, vals: Seq<SVal>) -> Result<SVal, EvalError> {
    if vals.len() != 2 {
        Err(EvalError::BadArrity)
    } else {
        match vals[0] {
            SVal::Int(a) => match vals[1] {
                SVal::Int(b) => {
                    let holds = match op {
                        Builtin::Gt => a > b,
                        Builtin::Lt => a < b,
                        _ => a == b,
                    };
                    Ok(SVal::Int(if holds { 1 } else { 0 }))
                },
                _ => Err(EvalError::TypeMismatch),
            },
            SVal::Atom(a) => match vals[1] {
                SVal::Atom(b) => {
                    let holds = match op {
                        Builtin::Gt => lex_lt(b, a),
                        Builtin::Lt => lex_lt(a, b),
                        _ => a == b,
                    };
                    Ok(SVal::Int(if holds { 1 } else { 0 }))
                },
                _ => Err(EvalError::TypeMismatch),
            },
            _ => Err(EvalError::TypeMismatch),
        }
    }
}

/// What a built-in returns on its already evaluated arguments.
pub open spec fn apply_builtin(b: Builtin, vals: Seq<SVal>) -> Result<SVal, EvalError> {
    match b {
        Builtin::Add => spec_arith(b, vals),
        Builtin::Sub => spec_arith(b, vals),
        Builtin::Mul => spec_arith(b, vals),
        Builtin::Div => spec_arith(b, vals),
        Builtin::Gt => spec_compare(b, vals),
        Builtin::Lt => spec_compare(b, vals),
        Builtin::Eq => spec_compare(b, vals),
        Builtin::ListOf => Ok(SVal::List(vals)),
        Builtin::Head => if vals.len() != 1 {
            Err(EvalError::BadArrity)
        } else {
            match vals[0] {
                SVal::List(items) => if items.len() == 0 {
                    Err(EvalError::DoHeadForNil)
                } else {
                    Ok(items[0])
                },
                _ => Err(EvalError::TypeMismatch),
            }
        },
        Builtin::Tail => if vals.len() != 1 {
            Err(EvalError::BadArrity)
        } else {
            match vals[0] {
                SVal::List(items) => if items.len() == 0 {
                    Ok(SVal::List(items))
                } else {
                    Ok(SVal::List(items.drop_first()))
                },
                _ => Err(EvalError::TypeMismatch),
            }
        },
    }
}

/// One evaluation step tree, cut off at `fuel` loop iterations:
/// `None` means the cut-off was reached, never an error of the
/// language.  Dispatch: self-evaluating forms, variable lookup, then a
/// list headed by an atom that names a special form or a built-in.
pub open spec fn seval(fuel: nat, e: SExpr, env: SEnv) -> Option<SOutcome>
    decreases fuel, e, 2int,
{
    match e {
        SExpr::Int(i) => Some((Ok(SVal::Int(i)), env)),
        SExpr::Atom(a) => Some((Ok(SVal::Atom(a)), env)),
        SExpr::Var(v) => if env.contains_key(v) {
            Some((Ok(env[v]), env))
        } else {
            Some((Err(EvalError::UndefinedVariableReference), env))
        },
        SExpr::List(elems) => if elems.len() == 0 {
            Some((Err(EvalError::Unexpected), env))
        } else {
            match elems[0] {
                SExpr::Atom(name) => match special_form_of(name) {
                    Some(sf) => seval_special(fuel, sf, elems.drop_first(), env),
                    None => match builtin_of(name) {
                        Some(b) => match seval_args(fuel, elems.drop_first(), env) {
                            None => None,
                            Some((Ok(vals), env2)) => Some((apply_builtin(b, vals), env2)),
                            Some((Err(er), env2)) => Some((Err(er), env2)),
                        },
                        None => Some((Err(EvalError::NotFoundFunctionName), env)),
                    },
                },
                _ => Some((Err(EvalError::EvaluatingNonAtomHeadList), env)),
            }
        },
    }
}

/// A special form applied to its raw sub-expressions.
pub open spec fn seval_special(fuel: nat, sf: SpecialForm, args: Seq<SExpr>, env: SEnv) -> Option<
    SOutcome,
>
    decreases fuel, args, 1int,
{
    match sf {
        SpecialForm::Cond => if args.len() != 3 {
            Some((Err(EvalError::BadArrity), env))
        } else {
            match seval(fuel, args[0], env) {
                None => None,
                Some((Err(er), env2)) => Some((Err(er), env2)),
                Some((Ok(v), env2)) => match v {
                    SVal::Int(c) => if c == 0 {
                        seval(fuel, args[2], env2)
                    } else {
                        seval(fuel, args[1], env2)
                    },
                    _ => Some((Err(EvalError::TypeMismatch), env2)),
                },
            }
        },
        SpecialForm::SetVar => if args.len() != 2 {
            Some((Err(EvalError::BadArrity), env))
        } else {
            // the value is evaluated before the target is checked
            match seval(fuel, args[1], env) {
                None => None,
                Some((Err(er), env2)) => Some((Err(er), env2)),
                Some((Ok(v), env2)) => match args[0] {
                    SExpr::Var(name) => Some((Ok(v), env2.insert(name, v))),
                    _ => Some((Err(EvalError::TypeMismatch), env2)),
                },
            }
        },
        SpecialForm::Progn => if args.len() == 0 {
            Some((Err(EvalError::BadArrity), env))
        } else {
            match seval(fuel, args[0], env) {
                None => None,
                Some((Err(er), env2)) => Some((Err(er), env2)),
                Some((Ok(v), env2)) => if args.len() == 1 {
                    Some((Ok(v), env2))
                } else {
                    seval_special(fuel, SpecialForm::Progn, args.drop_first(), env2)
                },
            }
        },
        SpecialForm::WhileLoop => if args.len() != 2 {
            Some((Err(EvalError::BadArrity), env))
        } else {
            sloop(fuel, args, env)
        },
    }
}

/// The loop form: evaluate the condition; `0` ends the loop with
/// `Void`; any other integer runs the body and repeats, spending one
/// unit of fuel.
pub open spec fn sloop(fuel: nat, args: Seq<SExpr>, env: SEnv) -> Option<SOutcome>
    decreases fuel, args, 0int,
{
    if args.len() != 2 {
        // never reached: the loop form hands over exactly two arguments
        None
    } else {
        match seval(fuel, args[0], env) {
            None => None,
            Some((Err(er), env2)) => Some((Err(er), env2)),
            Some((Ok(v), env2)) => match v {
                SVal::Int(c) => if c == 0 {
                    Some((Ok(SVal::Void), env2))
                } else if fuel == 0 {
                    None
                } else {
                    match seval(fuel, args[1], env2) {
                        None => None,
                        Some((Err(er), env3)) => Some((Err(er), env3)),
                        Some((Ok(_), env3)) => sloop((fuel - 1) as nat, args, env3),
                    }
                },
                _ => Some((Err(EvalError::TypeMismatch), env2)),
            },
        }
    }
}

/// The arguments of a built-in, evaluated left to right; the first
/// error stops the walk.
pub open spec fn seval_args(fuel: nat, args: Seq<SExpr>, env: SEnv) -> Option<
    (Result<Seq<SVal>, EvalError>, SEnv),
>
    decreases fuel, args, 0int,
{
    if args.len() == 0 {
        Some((Ok(Seq::empty()), env))
    } else {
        match seval(fuel, args[0], env) {
            None => None,
            Some((Err(er), env2)) => Some((Err(er), env2)),
            Some((Ok(v), env2)) => match seval_args(fuel, args.drop_first(), env2) {
                None => None,
                Some((Err(er), env3)) => Some((Err(er), env3)),
                Some((Ok(vs), env3)) => Some((Ok(seq![v] + vs), env3)),
            },
        }
    }
}

/// The loop form's step allowance.
pub open spec fn step_limit() -> nat {
    u64::MAX as nat
}

/// More fuel never changes a finished outcome.
pub proof fn lemma_seval_mono(f1: nat, f2: nat, e: SExpr, env: SEnv)
    requires
        f1 <= f2,
        seval(f1, e, env) is Some,
    ensures
        seval(f2, e, env) == seval(f1, e, env),
    decreases f1, e, 2int,
{
    match e {
        SExpr::List(elems) => {
            if elems.len() > 0 {
                match elems[0] {
                    SExpr::Atom(name) => {
                        match special_form_of(name) {
                            Some(sf) => {
                                lemma_seval_special_mono(f1, f2, sf, elems.drop_first(), env);
                            },
                            None => {
                                match builtin_of(name) {
                                    Some(b) => {
                                        lemma_seval_args_mono(f1, f2, elems.drop_first(), env);
                                    },
                                    None => {},
                                }
                            },
                        }
                    },
                    _ => {},
                }
            }
        },
        _ => {},
    }
}

/// More fuel never changes a finished special form.
pub proof fn lemma_seval_special_mono(f1: nat, f2: nat, sf: SpecialForm, args: Seq<SExpr>, env: SEnv)
    requires
        f1 <= f2,
        seval_special(f1, sf, args, env) is Some,
    ensures
        seval_special(f2, sf, args, env) == seval_special(f1, sf, args, env),
    decreases f1, args, 1int,
{
    match sf {
        SpecialForm::Cond => {
            if args.len() == 3 {
                lemma_seval_mono(f1, f2, args[0], env);
                match seval(f1, args[0], env) {
                    Some((Ok(SVal::Int(c)), env2)) => {
                        if c == 0 {
                            lemma_seval_mono(f1, f2, args[2], env2);
                        } else {
                            lemma_seval_mono(f1, f2, args[1], env2);
                        }
                    },
                    _ => {},
                }
            }
        },
        SpecialForm::SetVar => {
            if args.len() == 2 {
                lemma_seval_mono(f1, f2, args[1], env);
            }
        },
        SpecialForm::Progn => {
            if args.len() > 0 {
                lemma_seval_mono(f1, f2, args[0], env);
                match seval(f1, args[0], env) {
                    Some((Ok(v), env2)) => {
                        if args.len() > 1 {
                            lemma_seval_special_mono(
                                f1,
                                f2,
                                SpecialForm::Progn,
                                args.drop_first(),
                                env2,
                            );
                        }
                    },
                    _ => {},
                }
            }
        },
        SpecialForm::WhileLoop => {
            if args.len() == 2 {
                lemma_sloop_mono(f1, f2, args, env);
            }
        },
    }
}

/// More fuel never changes a finished loop.
pub proof fn lemma_sloop_mono(f1: nat, f2: nat, args: Seq<SExpr>, env: SEnv)
    requires
        f1 <= f2,
        sloop(f1, args, env) is Some,
    ensures
        sloop(f2, args, env) == sloop(f1, args, env),
    decreases f1, args, 0int,
{
    if args.len() == 2 {
        lemma_seval_mono(f1, f2, args[0], env);
        match seval(f1, args[0], env) {
            Some((Ok(SVal::Int(c)), env2)) => {
                if c != 0 && f1 > 0 {
                    lemma_seval_mono(f1, f2, args[1], env2);
                    match seval(f1, args[1], env2) {
                        Some((Ok(v), env3)) => {
                            lemma_sloop_mono((f1 - 1) as nat, (f2 - 1) as nat, args, env3);
                        },
                        _ => {},
                    }
                }
            },
            _ => {},
        }
    }
}

/// More fuel never changes a finished argument walk.
pub proof fn lemma_seval_args_mono(f1: nat, f2: nat, args: Seq<SExpr>, env: SEnv)
    requires
        f1 <= f2,
        seval_args(f1, args, env) is Some,
    ensures
        seval_args(f2, args, env) == seval_args(f1, args, env),
    decreases f1, args, 0int,
{
    if args.len() > 0 {
        lemma_seval_mono(f1, f2, args[0], env);
        match seval(f1, args[0], env) {
            Some((Ok(v), env2)) => {
                lemma_seval_args_mono(f1, f2, args.drop_first(), env2);
            },
            _ => {},
        }
    }
}

/// Determinism: whenever two evaluations of the same expression
/// against the same store both finish, they agree on the value — or
/// the error — and on the store they leave behind.
pub proof fn lemma_eval_deterministic(f1: nat, f2: nat, e: SExpr, env: SEnv)
    requires
        seval(f1, e, env) is Some,
        seval(f2, e, env) is Some,
    ensures
        seval(f1, e, env) == seval(f2, e, env),
{
    if f1 <= f2 {
        lemma_seval_mono(f1, f2, e, env);
    } else {
        lemma_seval_mono(f2, f1, e, env);
    }
}

/// The language itself never raises `StepLimitExceeded`: that error
/// comes only from the loop form's step counter.  A caller that
/// receives it therefore knows the evaluation was cut off, not
/// finished.
pub proof fn lemma_seval_never_reports_step_limit(fuel: nat, e: SExpr, env: SEnv)
    ensures
        match seval(fuel, e, env) {
            Some((Err(er), _)) => er != EvalError::StepLimitExceeded,
            _ => true,
        },
    decreases fuel, e, 2int,
{
    match e {
        SExpr::List(elems) => {
            if elems.len() > 0 {
                match elems[0] {
                    SExpr::Atom(name) => {
                        match special_form_of(name) {
                            Some(sf) => {
                                lemma_seval_special_never_reports_step_limit(
                                    fuel,
                                    sf,
                                    elems.drop_first(),
                                    env,
                                );
                            },
                            None => {
                                match builtin_of(name) {
                                    Some(b) => {
                                        lemma_seval_args_never_reports_step_limit(
                                            fuel,
                                            elems.drop_first(),
                                            env,
                                        );
                                    },
                                    None => {},
                                }
                            },
                        }
                    },
                    _ => {},
                }
            }
        },
        _ => {},
    }
}

proof fn lemma_seval_special_never_reports_step_limit(
    fuel: nat,
    sf: SpecialForm,
    args: Seq<SExpr>,
    env: SEnv,
)
    ensures
        match seval_special(fuel, sf, args, env) {
            Some((Err(er), _)) => er != EvalError::StepLimitExceeded,
            _ => true,
        },
    decreases fuel, args, 1int,
{
    match sf {
        SpecialForm::Cond => {
            if args.len() == 3 {
                lemma_seval_never_reports_step_limit(fuel, args[0], env);
                match seval(fuel, args[0], env) {
                    Some((Ok(SVal::Int(c)), env2)) => {
                        if c == 0 {
                            lemma_seval_never_reports_step_limit(fuel, args[2], env2);
                        } else {
                            lemma_seval_never_reports_step_limit(fuel, args[1], env2);
                        }
                    },
                    _ => {},
                }
            }
        },
        SpecialForm::SetVar => {
            if args.len() == 2 {
                lemma_seval_never_reports_step_limit(fuel, args[1], env);
            }
        },
        SpecialForm::Progn => {
            if args.len() > 0 {
                lemma_seval_never_reports_step_limit(fuel, args[0], env);
                match seval(fuel, args[0], env) {
                    Some((Ok(v), env2)) => {
                        if args.len() > 1 {
                            lemma_seval_special_never_reports_step_limit(
                                fuel,
                                SpecialForm::Progn,
                                args.drop_first(),
                                env2,
                            );
                        }
                    },
                    _ => {},
                }
            }
        },
        SpecialForm::WhileLoop => {
            if args.len() == 2 {
                lemma_sloop_never_reports_step_limit(fuel, args, env);
            }
        },
    }
}

proof fn lemma_sloop_never_reports_step_limit(fuel: nat, args: Seq<SExpr>, env: SEnv)
    ensures
        match sloop(fuel, args, env) {
            Some((Err(er), _)) => er != EvalError::StepLimitExceeded,
            _ => true,
        },
    decreases fuel, args, 0int,
{
    if args.len() == 2 {
        lemma_seval_never_reports_step_limit(fuel, args[0], env);
        match seval(fuel, args[0], env) {
            Some((Ok(SVal::Int(c)), env2)) => {
                if c != 0 && fuel > 0 {
                    lemma_seval_never_reports_step_limit(fuel, args[1], env2);
                    match seval(fuel, args[1], env2) {
                        Some((Ok(v), env3)) => {
                            lemma_sloop_never_reports_step_limit((fuel - 1) as nat, args, env3);
                        },
                        _ => {},
                    }
                }
            },
            _ => {},
        }
    }
}

proof fn lemma_seval_args_never_reports_step_limit(fuel: nat, args: Seq<SExpr>, env: SEnv)
    ensures
        match seval_args(fuel, args, env) {
            Some((Err(er), _)) => er != EvalError::StepLimitExceeded,
            _ => true,
        },
    decreases fuel, args, 0int,
{
    if args.len() > 0 {
        lemma_seval_never_reports_step_limit(fuel, args[0], env);
        match seval(fuel, args[0], env) {
            Some((Ok(v), env2)) => {
                lemma_seval_args_never_reports_step_limit(fuel, args.drop_first(), env2);
            },
            _ => {},
        }
    }
}

// ---- the executable evaluator ----
/// The shape of an evaluation result.
pub open spec fn res_view(r: Result<Type, EvalError>) -> Result<SVal, EvalError> {
    match r {
        Ok(t) => Ok(type_view(t)),
        Err(e) => Err(e),
    }
}

/// The shape of an argument-evaluation result.
pub open spec fn args_res_view(r: Result<TypeList, EvalError>) -> Result<Seq<SVal>, EvalError> {
    match r {
        Ok(tl) => Ok(tlist_view(tl)),
        Err(e) => Err(e),
    }
}

/// The variable store of an evaluation session, written only by the
/// `set` form; a later binding of a name shadows an earlier one.
pub struct Context {
    vartable: Vec<(Rc<Vec<u8>>, Type)>,
}

/// The store as a map: each name goes to the value it was last bound
/// to.
spec fn env_view(entries: Seq<(Rc<Vec<u8>>, Type)>) -> SEnv
    decreases entries.len(),
{
    if entries.len() == 0 {
        Map::empty()
    } else {
        env_view(entries.drop_last()).insert(entries.last().0@, type_view(entries.last().1))
    }
}

impl View for Context {
    type V = SEnv;

    closed spec fn view(&self) -> SEnv {
        env_view(self.vartable@)
    }
}

/// A store without the name holds no binding for it.
proof fn lemma_env_view_absent(entries: Seq<(Rc<Vec<u8>>, Type)>, name: Seq<u8>)
    requires
        forall|j: int| 0 <= j < entries.len() ==> (#[trigger] entries[j]).0@ != name,
    ensures
        !env_view(entries).contains_key(name),
    decreases entries.len(),
{
    if entries.len() > 0 {
        lemma_env_view_absent(entries.drop_last(), name);
    }
}

/// The binding a lookup finds is the latest entry with that name.
proof fn lemma_env_view_found(entries: Seq<(Rc<Vec<u8>>, Type)>, name: Seq<u8>, k: int)
    requires
        0 <= k < entries.len(),
        entries[k].0@ == name,
        forall|j: int| k < j < entries.len() ==> (#[trigger] entries[j]).0@ != name,
    ensures
        env_view(entries).contains_key(name),
        env_view(entries)[name] == type_view(entries[k].1),
    decreases entries.len(),
{
    if k < entries.len() - 1 {
        assert(entries.drop_last()[k] == entries[k]);
        lemma_env_view_found(entries.drop_last(), name, k);
    }
}

impl Context {
    /// An empty store: no variable is bound.
    pub fn new() -> (r: Context)
        ensures
            r@ == Map::<Seq<u8>, SVal>::empty(),
    {
        Context { vartable: Vec::new() }
    }

    /// The value the name is bound to, or `None` when it is unbound.
    #[verifier::loop_isolation(false)]
    fn lookup(&self, name: &Rc<Vec<u8>>) -> (r: Option<Type>)
        ensures
            match r {
                Some(v) => self@.contains_key(name@) && v@ == self@[name@],
                None => !self@.contains_key(name@),
            },
    {
        let n = self.vartable.len();
        let mut k = n;
        while k > 0
            invariant
                k <= n,
                forall|j: int| k <= j < n ==> (#[trigger] self.vartable@[j]).0@ != name@,
            decreases k,
        {
            k = k - 1;
            if bytes_eq(&self.vartable[k].0, name) {
                proof {
                    lemma_env_view_found(self.vartable@, name@, k as int);
                }
                return Some(self.vartable[k].1.clone());
            }
        }
        proof {
            lemma_env_view_absent(self.vartable@, name@);
        }
        None
    }

    /// Bind the name to the value, shadowing any earlier binding.
    fn insert(&mut self, name: Rc<Vec<u8>>, val: Type)
        ensures
            final(self)@ == old(self)@.insert(name@, val@),
    {
        let ghost before = self.vartable@;
        self.vartable.push((name, val));
        proof {
            assert(self.vartable@.drop_last() =~= before);
        }
    }
}

/// Whether two byte strings hold the same bytes.
#[verifier::loop_isolation(false)]
fn bytes_eq(a: &Rc<Vec<u8>>, b: &Rc<Vec<u8>>) -> (r: bool)
    ensures
        r == (a@ == b@),
{
    if a.len() != b.len() {
        return false;
    }
    let n = a.len();
    let mut k: usize = 0;
    while k < n
        invariant
            k <= n,
            forall|j: int| 0 <= j < k ==> a@[j] == b@[j],
        decreases n - k,
    {
        if a[k] != b[k] {
            return false;
        }
        k = k + 1;
    }
    proof {
        assert(a@ =~= b@);
    }
    true
}

/// Whether `a` comes strictly before `b` in byte-wise lexicographic
/// order.
#[verifier::loop_isolation(false)]
fn bytes_lex_lt(a: &Rc<Vec<u8>>, b: &Rc<Vec<u8>>) -> (r: bool)
    ensures
        r == lex_lt(a@, b@),
{
    let mut k: usize = 0;
    proof {
        assert(a@.skip(0) =~= a@);
        assert(b@.skip(0) =~= b@);
    }
    while k < a.len() && k < b.len()
        invariant
            k <= a@.len(),
            k <= b@.len(),
            lex_lt(a@, b@) == lex_lt(a@.skip(k as int), b@.skip(k as int)),
        decreases a@.len() - k,
    {
        if a[k] < b[k] {
            proof {
                assert(a@.skip(k as int)[0] == a@[k as int]);
                assert(b@.skip(k as int)[0] == b@[k as int]);
            }
            return true;
        }
        if a[k] > b[k] {
            proof {
                assert(a@.skip(k as int)[0] == a@[k as int]);
                assert(b@.skip(k as int)[0] == b@[k as int]);
            }
            return false;
        }
        proof {
            assert(a@.skip(k as int)[0] == a@[k as int]);
            assert(b@.skip(k as int)[0] == b@[k as int]);
            assert(a@.skip(k as int).drop_first() =~= a@.skip(k + 1));
            assert(b@.skip(k as int).drop_first() =~= b@.skip(k + 1));
        }
        k = k + 1;
    }
    b.len() > k
}

/// The special form the head atom names, if any.
fn find_special(name: &Rc<Vec<u8>>) -> (r: Option<SpecialForm>)
    ensures
        r == special_form_of(name@),
{
    if name.len() == 4 && name[0] == 99 && name[1] == 111 && name[2] == 110 && name[3] == 100 {
        proof {
            assert(name@ =~= seq![99u8, 111u8, 110u8, 100u8]);
        }
        Some(SpecialForm::Cond)
    } else if name.len() == 3 && name[0] == 115 && name[1] == 101 && name[2] == 116 {
        proof {
            assert(name@ =~= seq![115u8, 101u8, 116u8]);
        }
        Some(SpecialForm::SetVar)
    } else if name.len() == 5 && name[0] == 112 && name[1] == 114 && name[2] == 111 && name[3]
        == 103 && name[4] == 110 {
        proof {
            assert(name@ =~= seq![112u8, 114u8, 111u8, 103u8, 110u8]);
        }
        Some(SpecialForm::Progn)
    } else if name.len() == 5 && name[0] == 119 && name[1] == 104 && name[2] == 105 && name[3]
        == 108 && name[4] == 101 {
        proof {
            assert(name@ =~= seq![119u8, 104u8, 105u8, 108u8, 101u8]);
        }
        Some(SpecialForm::WhileLoop)
    } else {
        None
    }
}

/// The built-in the head atom names, if any.
fn find_builtin(name: &Rc<Vec<u8>>) -> (r: Option<Builtin>)
    ensures
        r == builtin_of(name@),
{
    if name.len() == 3 && name[0] == 97 && name[1] == 100 && name[2] == 100 {
        proof {
            assert(name@ =~= seq![97u8, 100u8, 100u8]);
        }
        Some(Builtin::Add)
    } else if name.len() == 3 && name[0] == 115 && name[1] == 117 && name[2] == 98 {
        proof {
            assert(name@ =~= seq![115u8, 117u8, 98u8]);
        }
        Some(Builtin::Sub)
    } else if name.len() == 3 && name[0] == 109 && name[1] == 117 && name[2] == 108 {
        proof {
            assert(name@ =~= seq![109u8, 117u8, 108u8]);
        }
        Some(Builtin::Mul)
    } else if name.len() == 3 && name[0] == 100 && name[1] == 105 && name[2] == 118 {
        proof {
            assert(name@ =~= seq![100u8, 105u8, 118u8]);
        }
        Some(Builtin::Div)
    } else if name.len() == 4 && name[0] == 108 && name[1] == 105 && name[2] == 115 && name[3]
        == 116 {
        proof {
            assert(name@ =~= seq![108u8, 105u8, 115u8, 116u8]);
        }
        Some(Builtin::ListOf)
    } else if name.len() == 4 && name[0] == 104 && name[1] == 101 && name[2] == 97 && name[3]
        == 100 {
        proof {
            assert(name@ =~= seq![104u8, 101u8, 97u8, 100u8]);
        }
        Some(Builtin::Head)
    } else if name.len() == 4 && name[0] == 116 && name[1] == 97 && name[2] == 105 && name[3]
        == 108 {
        proof {
            assert(name@ =~= seq![116u8, 97u8, 105u8, 108u8]);
        }
        Some(Builtin::Tail)
    } else if name.len() == 2 && name[0] == 103 && name[1] == 116 {
        proof {
            assert(name@ =~= seq![103u8, 116u8]);
        }
        Some(Builtin::Gt)
    } else if name.len() == 2 && name[0] == 108 && name[1] == 116 {
        proof {
            assert(name@ =~= seq![108u8, 116u8]);
        }
        Some(Builtin::Lt)
    } else if name.len() == 2 && name[0] == 101 && name[1] == 113 {
        proof {
            assert(name@ =~= seq![101u8, 113u8]);
        }
        Some(Builtin::Eq)
    } else {
        None
    }
}

/// A value-preserving copy of a value list; the spine node is new, the
/// contents are shared.
fn clone_type_list(l: &TypeList) -> (r: TypeList)
    ensures
        r == *l,
{
    match l {
        List::Nil => List::Nil,
        List::Cons(h, t) => List::Cons(h.clone(), t.clone()),
    }
}

// ---- the built-ins, on already evaluated arguments ----
/// The one argument of a unary built-in, or `None` on any other count.
fn one_arg(l: &TypeList) -> (r: Option<&Type>)
    ensures
        match r {
            Some(a) => tlist_view(*l) == seq![type_view(*a)],
            None => tlist_view(*l).len() != 1,
        },
{
    match l {
        List::Nil => {
            proof {
                assert(tlist_view(*l) =~= Seq::<SVal>::empty());
            }
            None
        },
        List::Cons(a, t) => match &**t {
            List::Nil => {
                proof {
                    assert(tlist_view(**t) =~= Seq::<SVal>::empty());
                    assert(tlist_view(*l) =~= seq![type_view(*a)]);
                }
                Some(a)
            },
            List::Cons(_, _) => {
                proof {
                    assert(tlist_view(**t).len() >= 1);
                    assert(tlist_view(*l).len() >= 2);
                }
                None
            },
        },
    }
}

/// The two arguments of a binary built-in, or `None` on any other
/// count.
fn two_args(l: &TypeList) -> (r: Option<(&Type, &Type)>)
    ensures
        match r {
            Some(p) => tlist_view(*l) == seq![type_view(*p.0), type_view(*p.1)],
            None => tlist_view(*l).len() != 2,
        },
{
    match l {
        List::Nil => {
            proof {
                assert(tlist_view(*l) =~= Seq::<SVal>::empty());
            }
            None
        },
        List::Cons(a, t) => match &**t {
            List::Nil => {
                proof {
                    assert(tlist_view(**t) =~= Seq::<SVal>::empty());
                    assert(tlist_view(*l).len() == 1);
                }
                None
            },
            List::Cons(b, t2) => match &**t2 {
                List::Nil => {
                    proof {
                        assert(tlist_view(**t2) =~= Seq::<SVal>::empty());
                        assert(tlist_view(**t) =~= seq![type_view(*b)]);
                        assert(tlist_view(*l) =~= seq![type_view(*a), type_view(*b)]);
                    }
                    Some((a, b))
                },
                List::Cons(_, _) => {
                    proof {
                        assert(tlist_view(**t2).len() >= 1);
                        assert(tlist_view(**t).len() >= 2);
                        assert(tlist_view(*l).len() >= 3);
                    }
                    None
                },
            },
        },
    }
}

/// Collect the evaluated arguments, in order, into one list value.
fn list(l: &TypeList) -> (r: Result<Type, EvalError>)
    ensures
        res_view(r) == apply_builtin(Builtin::ListOf, tlist_view(*l)),
{
    Ok(Type::TypeList(Rc::new(clone_type_list(l))))
}

/// The first element of the one list argument.
fn head(l: &TypeList) -> (r: Result<Type, EvalError>)
    ensures
        res_view(r) == apply_builtin(Builtin::Head, tlist_view(*l)),
{
    let a = match one_arg(l) {
        Some(a) => a,
        None => {
            return Err(EvalError::BadArrity);
        },
    };
    match a {
        Type::TypeList(b) => match &**b {
            List::Cons(c, _) => {
                proof {
                    assert(tlist_view(**b)[0] == type_view(*c));
                }
                Ok(c.clone())
            },
            List::Nil => {
                proof {
                    assert(tlist_view(**b) =~= Seq::<SVal>::empty());
                }
                Err(EvalError::DoHeadForNil)
            },
        },
        _ => Err(EvalError::TypeMismatch),
    }
}

/// Everything after the first element of the one list argument.
fn tail(l: &TypeList) -> (r: Result<Type, EvalError>)
    ensures
        res_view(r) == apply_builtin(Builtin::Tail, tlist_view(*l)),
{
    let a = match one_arg(l) {
        Some(a) => a,
        None => {
            return Err(EvalError::BadArrity);
        },
    };
    match a {
        Type::TypeList(b) => match &**b {
            List::Cons(_, inner_tail) => {
                proof {
                    assert(tlist_view(**b).drop_first() =~= tlist_view(**inner_tail));
                }
                Ok(Type::TypeList(inner_tail.clone()))
            },
            List::Nil => {
                proof {
                    assert(tlist_view(**b) =~= Seq::<SVal>::empty());
                }
                Ok(Type::TypeList(b.clone()))
            },
        },
        _ => Err(EvalError::TypeMismatch),
    }
}

/// Which arithmetic operation `arith_op` performs.
enum ArithType {
    Add,
    Sub,
    Mul,
    Div,
}

/// The built-in an arithmetic selector stands for.
spec fn arith_builtin(tp: ArithType) -> Builtin {
    match tp {
        ArithType::Add => Builtin::Add,
        ArithType::Sub => Builtin::Sub,
        ArithType::Mul => Builtin::Mul,
        ArithType::Div => Builtin::Div,
    }
}

/// One wrapping arithmetic operation on exactly two integers.
fn arith_op(l: &TypeList, tp: ArithType) -> (r: Result<Type, EvalError>)
    ensures
        res_view(r) == spec_arith(arith_builtin(tp), tlist_view(*l)),
{
    let (a, b) = match two_args(l) {
        Some(p) => p,
        None => {
            return Err(EvalError::BadArrity);
        },
    };
    let aint = match a {
        Type::Int(num) => *num,
        _ => {
            return Err(EvalError::TypeMismatch);
        },
    };
    let bint = match b {
        Type::Int(num) => *num,
        _ => {
            return Err(EvalError::TypeMismatch);
        },
    };
    match tp {
        ArithType::Add => Ok(Type::Int(aint.wrapping_add(bint))),
        ArithType::Sub => Ok(Type::Int(aint.wrapping_sub(bint))),
        ArithType::Mul => Ok(Type::Int(aint.wrapping_mul(bint))),
        ArithType::Div => {
            if bint == 0 {
                return Err(EvalError::DividedByZero);
            }
            if aint == i32::MIN && bint == -1 {
                return Ok(Type::Int(i32::MIN));
            }
            let am: u32 = if aint >= 0 {
                aint as u32
            } else if aint == i32::MIN {
                0x8000_0000u32
            } else {
                (-aint) as u32
            };
            let bm: u32 = if bint >= 0 {
                bint as u32
            } else if bint == i32::MIN {
                0x8000_0000u32
            } else {
                (-bint) as u32
            };
            let q: u32 = am / bm;
            proof {
                vstd::arithmetic::div_mod::lemma_div_nonincreasing(am as int, bm as int);
                if bm >= 2 {
                    vstd::arithmetic::div_mod::lemma_div_is_ordered_by_denominator(
                        am as int,
                        2,
                        bm as int,
                    );
                }
            }
            if (aint < 0) != (bint < 0) {
                if q == 0x8000_0000u32 {
                    Ok(Type::Int(i32::MIN))
                } else {
                    Ok(Type::Int(-(q as i32)))
                }
            } else {
                Ok(Type::Int(q as i32))
            }
        },
    }
}

/// Wrapping addition of two integers.
fn add(l: &TypeList) -> (r: Result<Type, EvalError>)
    ensures
        res_view(r) == apply_builtin(Builtin::Add, tlist_view(*l)),
{
    arith_op(l, ArithType::Add)
}

/// Wrapping subtraction of two integers.
fn sub(l: &TypeList) -> (r: Result<Type, EvalError>)
    ensures
        res_view(r) == apply_builtin(Builtin::Sub, tlist_view(*l)),
{
    arith_op(l, ArithType::Sub)
}

/// Wrapping multiplication of two integers.
fn mul(l: &TypeList) -> (r: Result<Type, EvalError>)
    ensures
        res_view(r) == apply_builtin(Builtin::Mul, tlist_view(*l)),
{
    arith_op(l, ArithType::Mul)
}

/// Wrapping division of two integers; dividing by zero is an error.
fn div(l: &TypeList) -> (r: Result<Type, EvalError>)
    ensures
        res_view(r) == apply_builtin(Builtin::Div, tlist_view(*l)),
{
    arith_op(l, ArithType::Div)
}

/// Which comparison `compare` performs.
enum CompareType {
    Gt,
    Lt,
    Eq,
}

/// The built-in a comparison selector stands for.
spec fn compare_builtin(ct: CompareType) -> Builtin {
    match ct {
        CompareType::Gt => Builtin::Gt,
        CompareType::Lt => Builtin::Lt,
        CompareType::Eq => Builtin::Eq,
    }
}

/// One comparison of exactly two integers or two atoms: `Int(1)` when
/// the relation holds, `Int(0)` when it does not.
fn compare(l: &TypeList, ctype: CompareType) -> (r: Result<Type, EvalError>)
    ensures
        res_view(r) == spec_compare(compare_builtin(ctype), tlist_view(*l)),
{
    let (a, b) = match two_args(l) {
        Some(p) => p,
        None => {
            return Err(EvalError::BadArrity);
        },
    };
    match a {
        Type::Int(aint) => match b {
            Type::Int(bint) => {
                let holds = match ctype {
                    CompareType::Gt => *aint > *bint,
                    CompareType::Lt => *aint < *bint,
                    CompareType::Eq => *aint == *bint,
                };
                Ok(Type::Int(if holds { 1 } else { 0 }))
            },
            _ => Err(EvalError::TypeMismatch),
        },
        Type::Atom(aatom) => match b {
            Type::Atom(batom) => {
                let holds = match ctype {
                    CompareType::Gt => bytes_lex_lt(batom, aatom),
                    CompareType::Lt => bytes_lex_lt(aatom, batom),
                    CompareType::Eq => bytes_eq(aatom, batom),
                };
                Ok(Type::Int(if holds { 1 } else { 0 }))
            },
            _ => Err(EvalError::TypeMismatch),
        },
        _ => Err(EvalError::TypeMismatch),
    }
}

/// Strictly-greater comparison: two integers or two atoms.
fn gt(l: &TypeList) -> (r: Result<Type, EvalError>)
    ensures
        res_view(r) == apply_builtin(Builtin::Gt, tlist_view(*l)),
{
    compare(l, CompareType::Gt)
}

/// Strictly-less comparison: two integers or two atoms.
fn lt(l: &TypeList) -> (r: Result<Type, EvalError>)
    ensures
        res_view(r) == apply_builtin(Builtin::Lt, tlist_view(*l)),
{
    compare(l, CompareType::Lt)
}

/// Equality comparison: two integers or two atoms.
fn eq(l: &TypeList) -> (r: Result<Type, EvalError>)
    ensures
        res_view(r) == apply_builtin(Builtin::Eq, tlist_view(*l)),
{
    compare(l, CompareType::Eq)
}

// ---- the evaluator itself ----
/// A loop that is unfinished at some fuel is unfinished at any lower
/// fuel.
proof fn lemma_sloop_none_down(f1: nat, f2: nat, args: Seq<SExpr>, env: SEnv)
    requires
        f1 <= f2,
        sloop(f2, args, env) is None,
    ensures
        sloop(f1, args, env) is None,
{
    if sloop(f1, args, env) is Some {
        lemma_sloop_mono(f1, f2, args, env);
    }
}

/// The two raw arguments of a binary special form, or `None` on any
/// other count.
fn two_exprs(l: &ExpressionList) -> (r: Option<(&Expression, &Expression)>)
    ensures
        match r {
            Some(p) => elist_view(*l) == seq![expr_view(*p.0), expr_view(*p.1)] && decreases_to!(
                *l => *p.0) && decreases_to!(*l => *p.1),
            None => elist_view(*l).len() != 2,
        },
{
    match l {
        List::Nil => {
            proof {
                assert(elist_view(*l) =~= Seq::<SExpr>::empty());
            }
            None
        },
        List::Cons(a, t) => match &**t {
            List::Nil => {
                proof {
                    assert(elist_view(**t) =~= Seq::<SExpr>::empty());
                    assert(elist_view(*l).len() == 1);
                }
                None
            },
            List::Cons(b, t2) => match &**t2 {
                List::Nil => {
                    proof {
                        assert(elist_view(**t2) =~= Seq::<SExpr>::empty());
                        assert(elist_view(**t) =~= seq![expr_view(*b)]);
                        assert(elist_view(*l) =~= seq![expr_view(*a), expr_view(*b)]);
                        assert(decreases_to!(*l => **t));
                        assert(decreases_to!(**t => *b));
                    }
                    Some((a, b))
                },
                List::Cons(_, _) => {
                    proof {
                        assert(elist_view(**t2).len() >= 1);
                        assert(elist_view(**t).len() >= 2);
                        assert(elist_view(*l).len() >= 3);
                    }
                    None
                },
            },
        },
    }
}

/// The three raw arguments of a ternary special form, or `None` on any
/// other count.
fn three_exprs(l: &ExpressionList) -> (r: Option<(&Expression, &Expression, &Expression)>)
    ensures
        match r {
            Some(p) => elist_view(*l) == seq![expr_view(*p.0), expr_view(*p.1), expr_view(*p.2)]
                && decreases_to!(*l => *p.0) && decreases_to!(*l => *p.1) && decreases_to!(
                *l => *p.2),
            None => elist_view(*l).len() != 3,
        },
{
    match l {
        List::Nil => {
            proof {
                assert(elist_view(*l) =~= Seq::<SExpr>::empty());
            }
            None
        },
        List::Cons(a, t) => match &**t {
            List::Nil => {
                proof {
                    assert(elist_view(**t) =~= Seq::<SExpr>::empty());
                    assert(elist_view(*l).len() == 1);
                }
                None
            },
            List::Cons(b, t2) => match &**t2 {
                List::Nil => {
                    proof {
                        assert(elist_view(**t2) =~= Seq::<SExpr>::empty());
                        assert(elist_view(**t).len() == 1);
                        assert(elist_view(*l).len() == 2);
                    }
                    None
                },
                List::Cons(c, t3) => match &**t3 {
                    List::Nil => {
                        proof {
                            assert(elist_view(**t3) =~= Seq::<SExpr>::empty());
                            assert(elist_view(**t2) =~= seq![expr_view(*c)]);
                            assert(elist_view(**t) =~= seq![expr_view(*b), expr_view(*c)]);
                            assert(elist_view(*l) =~= seq![
                                expr_view(*a),
                                expr_view(*b),
                                expr_view(*c),
                            ]);
                            assert(decreases_to!(*l => **t));
                            assert(decreases_to!(**t => *b));
                            assert(decreases_to!(**t => **t2));
                            assert(decreases_to!(**t2 => *c));
                        }
                        Some((a, b, c))
                    },
                    List::Cons(_, _) => {
                        proof {
                            assert(elist_view(**t3).len() >= 1);
                            assert(elist_view(**t2).len() >= 2);
                            assert(elist_view(**t).len() >= 3);
                            assert(elist_view(*l).len() >= 4);
                        }
                        None
                    },
                },
            },
        },
    }
}

impl TypeList {
    /// Evaluate every expression of the list, left to right, in the
    /// given store; the first error stops the walk.
    fn try_from(l: &ExpressionList, context: &mut Context) -> (r: Result<TypeList, EvalError>)
        ensures
            (exists|fuel: nat| #[trigger] seval_args(fuel, elist_view(*l), old(context)@) == Some(
                (args_res_view(r), final(context)@),
            )) || (r matches Err(EvalError::StepLimitExceeded) && seval_args(
                step_limit(),
                elist_view(*l),
                old(context)@,
            ) is None),
        decreases *l,
    {
        let ghost args = elist_view(*l);
        match l {
            List::Nil => {
                proof {
                    assert(elist_view(*l) =~= Seq::<SExpr>::empty());
                    assert(tlist_view(List::<Type>::Nil) =~= Seq::<SVal>::empty());
                    assert(seval_args(0, args, context@) == Some(
                        (Ok::<Seq<SVal>, EvalError>(Seq::<SVal>::empty()), context@),
                    ));
                }
                Ok(List::Nil)
            },
            List::Cons(e, left) => {
                proof {
                    assert(args =~= seq![expr_view(*e)] + elist_view(**left));
                    assert(args.drop_first() =~= elist_view(**left));
                }
                let ghost env0 = context@;
                let r1 = eval_with_context(e, context);
                let v = match r1 {
                    Ok(v) => v,
                    Err(er) => {
                        proof {
                            if exists|fuel: nat|
                                #[trigger] seval(fuel, expr_view(*e), env0) == Some(
                                    (res_view(r1), context@),
                                ) {
                                let f1 = choose|f1: nat|
                                    seval(f1, expr_view(*e), env0) == Some((Err::<SVal, EvalError>(er), context@));
                                assert(seval_args(f1, args, env0) == Some(
                                    (Err::<Seq<SVal>, EvalError>(er), context@),
                                ));
                            } else {
                                assert(seval(step_limit(), expr_view(*e), env0) is None);
                                assert(seval_args(step_limit(), args, env0) is None);
                            }
                        }
                        return Err(er);
                    },
                };
                let ghost env1 = context@;
                let ghost f1 = choose|f1: nat|
                    seval(f1, expr_view(*e), env0) == Some((Ok::<SVal, EvalError>(v@), env1));
                let left_list: &ExpressionList = &**left;
                let r2 = Self::try_from(left_list, context);
                match r2 {
                    Ok(rest) => {
                        let ghost f2 = choose|f2: nat|
                            seval_args(f2, elist_view(**left), env1) == Some(
                                (Ok::<Seq<SVal>, EvalError>(tlist_view(rest)), context@),
                            );
                        let out = List::Cons(v, Rc::new(rest));
                        proof {
                            let fm = if f1 >= f2 {
                                f1
                            } else {
                                f2
                            };
                            lemma_seval_mono(f1, fm, expr_view(*e), env0);
                            lemma_seval_args_mono(f2, fm, elist_view(*left_list), env1);
                            assert(tlist_view(out) =~= seq![v@] + tlist_view(rest));
                            assert(seval_args(fm, args, env0) == Some(
                                (Ok::<Seq<SVal>, EvalError>(tlist_view(out)), context@),
                            ));
                        }
                        Ok(out)
                    },
                    Err(er) => {
                        proof {
                            if exists|fuel: nat|
                                #[trigger] seval_args(fuel, elist_view(**left), env1) == Some(
                                    (args_res_view(r2), context@),
                                ) {
                                let f2 = choose|f2: nat|
                                    seval_args(f2, elist_view(**left), env1) == Some(
                                        (Err::<Seq<SVal>, EvalError>(er), context@),
                                    );
                                let fm = if f1 >= f2 {
                                    f1
                                } else {
                                    f2
                                };
                                lemma_seval_mono(f1, fm, expr_view(*e), env0);
                                lemma_seval_args_mono(f2, fm, elist_view(*left_list), env1);
                                assert(seval_args(fm, args, env0) == Some(
                                    (Err::<Seq<SVal>, EvalError>(er), context@),
                                ));
                            } else {
                                assert(seval_args(step_limit(), elist_view(**left), env1) is None);
                                if seval(step_limit(), expr_view(*e), env0) is Some {
                                    lemma_eval_deterministic(
                                        step_limit(),
                                        f1,
                                        expr_view(*e),
                                        env0,
                                    );
                                }
                                assert(seval_args(step_limit(), args, env0) is None);
                            }
                        }
                        Err(er)
                    },
                }
            },
        }
    }
}

/// The `cond` form: evaluate the condition alone, then only the branch
/// it selects.
fn cond(l: &ExpressionList, context: &mut Context) -> (r: Result<Type, EvalError>)
    ensures
        (exists|fuel: nat| #[trigger] seval_special(
            fuel,
            SpecialForm::Cond,
            elist_view(*l),
            old(context)@,
        ) == Some((res_view(r), final(context)@))) || (r matches Err(EvalError::StepLimitExceeded)
            && seval_special(step_limit(), SpecialForm::Cond, elist_view(*l), old(context)@) is None),
    decreases *l,
{
    let ghost args = elist_view(*l);
    let (c_e, ok_e, ng_e) = match three_exprs(l) {
        Some(p) => p,
        None => {
            proof {
                assert(seval_special(0, SpecialForm::Cond, args, context@) == Some(
                    (Err::<SVal, EvalError>(EvalError::BadArrity), context@),
                ));
            }
            return Err(EvalError::BadArrity);
        },
    };
    let ghost env0 = context@;
    let r1 = eval_with_context(c_e, context);
    let v = match r1 {
        Ok(v) => v,
        Err(er) => {
            proof {
                if exists|fuel: nat|
                    #[trigger] seval(fuel, expr_view(*c_e), env0) == Some(
                        (res_view(r1), context@),
                    ) {
                    let f1 = choose|f1: nat|
                        seval(f1, expr_view(*c_e), env0) == Some((Err::<SVal, EvalError>(er), context@));
                    assert(seval_special(f1, SpecialForm::Cond, args, env0) == Some(
                        (Err::<SVal, EvalError>(er), context@),
                    ));
                } else {
                    assert(seval(step_limit(), expr_view(*c_e), env0) is None);
                    assert(seval_special(step_limit(), SpecialForm::Cond, args, env0) is None);
                }
            }
            return Err(er);
        },
    };
    let ghost env1 = context@;
    let ghost f1 = choose|f1: nat| seval(f1, expr_view(*c_e), env0) == Some((Ok::<SVal, EvalError>(v@), env1));
    let c = match v {
        Type::Int(c) => c,
        _ => {
            proof {
                assert(seval_special(f1, SpecialForm::Cond, args, env0) == Some(
                    (Err::<SVal, EvalError>(EvalError::TypeMismatch), env1),
                ));
            }
            return Err(EvalError::TypeMismatch);
        },
    };
    let branch = if c == 0 {
        ng_e
    } else {
        ok_e
    };
    let r2 = eval_with_context(branch, context);
    proof {
        if exists|fuel: nat|
            #[trigger] seval(fuel, expr_view(*branch), env1) == Some((res_view(r2), context@)) {
            let f2 = choose|f2: nat|
                seval(f2, expr_view(*branch), env1) == Some((res_view(r2), context@));
            let fm = if f1 >= f2 {
                f1
            } else {
                f2
            };
            lemma_seval_mono(f1, fm, expr_view(*c_e), env0);
            lemma_seval_mono(f2, fm, expr_view(*branch), env1);
            assert(seval_special(fm, SpecialForm::Cond, args, env0) == Some(
                (res_view(r2), context@),
            ));
        } else {
            assert(r2 matches Err(EvalError::StepLimitExceeded));
            assert(seval(step_limit(), expr_view(*branch), env1) is None);
            if seval(step_limit(), expr_view(*c_e), env0) is Some {
                lemma_eval_deterministic(step_limit(), f1, expr_view(*c_e), env0);
            }
            assert(seval_special(step_limit(), SpecialForm::Cond, args, env0) is None);
        }
    }
    r2
}

/// The `set` form: evaluate the value, then bind the variable named by
/// the first argument to it; the value is the result.
fn set(l: &ExpressionList, context: &mut Context) -> (r: Result<Type, EvalError>)
    ensures
        (exists|fuel: nat| #[trigger] seval_special(
            fuel,
            SpecialForm::SetVar,
            elist_view(*l),
            old(context)@,
        ) == Some((res_view(r), final(context)@))) || (r matches Err(EvalError::StepLimitExceeded)
            && seval_special(step_limit(), SpecialForm::SetVar, elist_view(*l), old(context)@)
            is None),
    decreases *l,
{
    let ghost args = elist_view(*l);
    let (var_e, val_e) = match two_exprs(l) {
        Some(p) => p,
        None => {
            proof {
                assert(seval_special(0, SpecialForm::SetVar, args, context@) == Some(
                    (Err::<SVal, EvalError>(EvalError::BadArrity), context@),
                ));
            }
            return Err(EvalError::BadArrity);
        },
    };
    let ghost env0 = context@;
    // the value is evaluated before the target is checked
    let r1 = eval_with_context(val_e, context);
    let val = match r1 {
        Ok(v) => v,
        Err(er) => {
            proof {
                if exists|fuel: nat|
                    #[trigger] seval(fuel, expr_view(*val_e), env0) == Some(
                        (res_view(r1), context@),
                    ) {
                    let f1 = choose|f1: nat|
                        seval(f1, expr_view(*val_e), env0) == Some((Err::<SVal, EvalError>(er), context@));
                    assert(seval_special(f1, SpecialForm::SetVar, args, env0) == Some(
                        (Err::<SVal, EvalError>(er), context@),
                    ));
                } else {
                    assert(seval(step_limit(), expr_view(*val_e), env0) is None);
                    assert(seval_special(step_limit(), SpecialForm::SetVar, args, env0) is None);
                }
            }
            return Err(er);
        },
    };
    let ghost env1 = context@;
    let ghost f1 = choose|f1: nat| seval(f1, expr_view(*val_e), env0) == Some((Ok::<SVal, EvalError>(val@), env1));
    match var_e {
        Expression::Var(varstr) => {
            context.insert(varstr.clone(), val.clone());
            proof {
                assert(seval_special(f1, SpecialForm::SetVar, args, env0) == Some(
                    (Ok::<SVal, EvalError>(val@), env1.insert(varstr@, val@)),
                ));
            }
            Ok(val)
        },
        _ => {
            proof {
                assert(seval_special(f1, SpecialForm::SetVar, args, env0) == Some(
                    (Err::<SVal, EvalError>(EvalError::TypeMismatch), env1),
                ));
            }
            Err(EvalError::TypeMismatch)
        },
    }
}

/// The `progn` form: evaluate each expression in order in the same
/// store; the result is the value of the last one.
fn progn(l: &ExpressionList, context: &mut Context) -> (r: Result<Type, EvalError>)
    ensures
        (exists|fuel: nat| #[trigger] seval_special(
            fuel,
            SpecialForm::Progn,
            elist_view(*l),
            old(context)@,
        ) == Some((res_view(r), final(context)@))) || (r matches Err(EvalError::StepLimitExceeded)
            && seval_special(step_limit(), SpecialForm::Progn, elist_view(*l), old(context)@)
            is None),
    decreases *l,
{
    let ghost args = elist_view(*l);
    match l {
        List::Nil => {
            proof {
                assert(elist_view(*l) =~= Seq::<SExpr>::empty());
                assert(seval_special(0, SpecialForm::Progn, args, context@) == Some(
                    (Err::<SVal, EvalError>(EvalError::BadArrity), context@),
                ));
            }
            Err(EvalError::BadArrity)
        },
        List::Cons(e1, t) => {
            proof {
                assert(args =~= seq![expr_view(*e1)] + elist_view(**t));
                assert(args.drop_first() =~= elist_view(**t));
            }
            let ghost env0 = context@;
            let r1 = eval_with_context(e1, context);
            let v = match r1 {
                Ok(v) => v,
                Err(er) => {
                    proof {
                        if exists|fuel: nat|
                            #[trigger] seval(fuel, expr_view(*e1), env0) == Some(
                                (res_view(r1), context@),
                            ) {
                            let f1 = choose|f1: nat|
                                seval(f1, expr_view(*e1), env0) == Some((Err::<SVal, EvalError>(er), context@));
                            assert(seval_special(f1, SpecialForm::Progn, args, env0) == Some(
                                (Err::<SVal, EvalError>(er), context@),
                            ));
                        } else {
                            assert(seval(step_limit(), expr_view(*e1), env0) is None);
                            assert(seval_special(step_limit(), SpecialForm::Progn, args, env0)
                                is None);
                        }
                    }
                    return Err(er);
                },
            };
            let ghost env1 = context@;
            let ghost f1 = choose|f1: nat|
                seval(f1, expr_view(*e1), env0) == Some((Ok::<SVal, EvalError>(v@), env1));
            match &**t {
                List::Nil => {
                    proof {
                        assert(seval_special(f1, SpecialForm::Progn, args, env0) == Some(
                            (Ok::<SVal, EvalError>(v@), env1),
                        ));
                    }
                    Ok(v)
                },
                List::Cons(_, _) => {
                    let rest_list: &ExpressionList = &**t;
                    let r2 = progn(rest_list, context);
                    proof {
                        assert(elist_view(**t).len() >= 1);
                        if exists|fuel: nat|
                            #[trigger] seval_special(
                                fuel,
                                SpecialForm::Progn,
                                elist_view(**t),
                                env1,
                            ) == Some((res_view(r2), context@)) {
                            let f2 = choose|f2: nat|
                                seval_special(f2, SpecialForm::Progn, elist_view(**t), env1)
                                    == Some((res_view(r2), context@));
                            let fm = if f1 >= f2 {
                                f1
                            } else {
                                f2
                            };
                            lemma_seval_mono(f1, fm, expr_view(*e1), env0);
                            lemma_seval_special_mono(
                                f2,
                                fm,
                                SpecialForm::Progn,
                                elist_view(*rest_list),
                                env1,
                            );
                            assert(seval_special(fm, SpecialForm::Progn, args, env0) == Some(
                                (res_view(r2), context@),
                            ));
                        } else {
                            assert(r2 matches Err(EvalError::StepLimitExceeded));
                            assert(seval_special(
                                step_limit(),
                                SpecialForm::Progn,
                                elist_view(**t),
                                env1,
                            ) is None);
                            if seval(step_limit(), expr_view(*e1), env0) is Some {
                                lemma_eval_deterministic(step_limit(), f1, expr_view(*e1), env0);
                            }
                            assert(seval_special(step_limit(), SpecialForm::Progn, args, env0)
                                is None);
                        }
                    }
                    r2
                },
            }
        },
    }
}

/// The `while` form: evaluate the condition; a zero ends the loop with
/// `Void`, any other integer runs the body and repeats.  A step
/// counter bounds the loop at `step_limit()` iterations.
#[verifier::loop_isolation(false)]
fn wloop(l: &ExpressionList, context: &mut Context) -> (r: Result<Type, EvalError>)
    ensures
        (exists|fuel: nat| #[trigger] seval_special(
            fuel,
            SpecialForm::WhileLoop,
            elist_view(*l),
            old(context)@,
        ) == Some((res_view(r), final(context)@))) || (r matches Err(EvalError::StepLimitExceeded)
            && seval_special(step_limit(), SpecialForm::WhileLoop, elist_view(*l), old(context)@)
            is None),
    decreases *l,
{
    let ghost args = elist_view(*l);
    let (c_e, b_e) = match two_exprs(l) {
        Some(p) => p,
        None => {
            proof {
                assert(seval_special(0, SpecialForm::WhileLoop, args, context@) == Some(
                    (Err::<SVal, EvalError>(EvalError::BadArrity), context@),
                ));
            }
            return Err(EvalError::BadArrity);
        },
    };
    let ghost env_start = context@;
    let mut budget: u64 = u64::MAX;
    loop
        invariant
            forall|g: nat|
                (#[trigger] sloop(g, args, context@)) is Some ==> exists|f: nat|
                    #[trigger] sloop(f, args, env_start) == sloop(g, args, context@),
            forall|g: nat|
                (#[trigger] sloop(g, args, context@)) is None ==> sloop(
                    g + (u64::MAX - budget) as nat,
                    args,
                    env_start,
                ) is None,
        decreases budget,
    {
        let ghost env_it = context@;
        let r1 = eval_with_context(c_e, context);
        let v = match r1 {
            Ok(v) => v,
            Err(er) => {
                proof {
                    if exists|fuel: nat|
                        #[trigger] seval(fuel, expr_view(*c_e), env_it) == Some(
                            (res_view(r1), context@),
                        ) {
                        let f1 = choose|f1: nat|
                            seval(f1, expr_view(*c_e), env_it) == Some((Err::<SVal, EvalError>(er), context@));
                        assert(sloop(f1, args, env_it) == Some((Err::<SVal, EvalError>(er), context@)));
                        let ff = choose|f: nat|
                            sloop(f, args, env_start) == sloop(f1, args, env_it);
                        assert(seval_special(ff, SpecialForm::WhileLoop, args, env_start) == Some(
                            (Err::<SVal, EvalError>(er), context@),
                        ));
                    } else {
                        assert(seval(step_limit(), expr_view(*c_e), env_it) is None);
                        assert(sloop(step_limit(), args, env_it) is None);
                        lemma_sloop_none_down(
                            step_limit(),
                            step_limit() + (u64::MAX - budget) as nat,
                            args,
                            env_start,
                        );
                        assert(seval_special(step_limit(), SpecialForm::WhileLoop, args, env_start)
                            is None);
                    }
                }
                return Err(er);
            },
        };
        let ghost env_mid = context@;
        let ghost f1 = choose|f1: nat|
            seval(f1, expr_view(*c_e), env_it) == Some((Ok::<SVal, EvalError>(v@), env_mid));
        let c = match v {
            Type::Int(c) => c,
            _ => {
                proof {
                    assert(sloop(f1, args, env_it) == Some((Err::<SVal, EvalError>(EvalError::TypeMismatch), env_mid)));
                    let ff = choose|f: nat| sloop(f, args, env_start) == sloop(f1, args, env_it);
                    assert(seval_special(ff, SpecialForm::WhileLoop, args, env_start) == Some(
                        (Err::<SVal, EvalError>(EvalError::TypeMismatch), env_mid),
                    ));
                }
                return Err(EvalError::TypeMismatch);
            },
        };
        if c == 0 {
            proof {
                assert(sloop(f1, args, env_it) == Some((Ok::<SVal, EvalError>(SVal::Void), env_mid)));
                let ff = choose|f: nat| sloop(f, args, env_start) == sloop(f1, args, env_it);
                assert(seval_special(ff, SpecialForm::WhileLoop, args, env_start) == Some(
                    (Ok::<SVal, EvalError>(SVal::Void), env_mid),
                ));
            }
            return Ok(Type::Void);
        }
        if budget == 0 {
            proof {
                if seval(0, expr_view(*c_e), env_it) is Some {
                    lemma_eval_deterministic(0, f1, expr_view(*c_e), env_it);
                }
                assert(sloop(0, args, env_it) is None);
                assert(sloop(0 + (u64::MAX - 0u64) as nat, args, env_start) is None);
                lemma_sloop_none_down(step_limit(), u64::MAX as nat, args, env_start);
                assert(seval_special(step_limit(), SpecialForm::WhileLoop, args, env_start)
                    is None);
            }
            return Err(EvalError::StepLimitExceeded);
        }
        let r2 = eval_with_context(b_e, context);
        match r2 {
            Ok(_) => {
                proof {
                    let f2 = choose|f2: nat|
                        seval(f2, expr_view(*b_e), env_mid) == Some((res_view(r2), context@));
                    let env_next = context@;
                    // the outcome from the new store is an outcome from the
                    // store the loop started with
                    assert forall|g: nat| (#[trigger] sloop(g, args, env_next)) is Some implies
                    exists|f: nat| #[trigger] sloop(f, args, env_start) == sloop(
                        g,
                        args,
                        env_next,
                    ) by {
                        let fbig = ((if f1 >= f2 {
                            f1
                        } else {
                            f2
                        }) + g + 1) as nat;
                        lemma_seval_mono(f1, fbig, expr_view(*c_e), env_it);
                        lemma_seval_mono(f2, fbig, expr_view(*b_e), env_mid);
                        lemma_sloop_mono(g, (fbig - 1) as nat, args, env_next);
                        assert(sloop(fbig, args, env_it) == sloop(g, args, env_next));
                        let ff = choose|f: nat|
                            sloop(f, args, env_start) == sloop(fbig, args, env_it);
                        assert(sloop(ff, args, env_start) == sloop(g, args, env_next));
                    }
                    // an unfinished run from the new store is an unfinished
                    // run from the store the loop started with
                    assert forall|g: nat| (#[trigger] sloop(g, args, env_next)) is None implies
                    sloop(g + (u64::MAX - (budget - 1)) as nat, args, env_start) is None by {
                        if seval((g + 1) as nat, expr_view(*c_e), env_it) is Some {
                            lemma_eval_deterministic((g + 1) as nat, f1, expr_view(*c_e), env_it);
                            if seval((g + 1) as nat, expr_view(*b_e), env_mid) is Some {
                                lemma_eval_deterministic(
                                    (g + 1) as nat,
                                    f2,
                                    expr_view(*b_e),
                                    env_mid,
                                );
                            }
                        }
                        assert(sloop((g + 1) as nat, args, env_it) is None);
                        assert(sloop((g + 1) + (u64::MAX - budget) as nat, args, env_start)
                            is None);
                    }
                }
                budget = budget - 1;
            },
            Err(er) => {
                proof {
                    if exists|fuel: nat|
                        #[trigger] seval(fuel, expr_view(*b_e), env_mid) == Some(
                            (res_view(r2), context@),
                        ) {
                        let f2 = choose|f2: nat|
                            seval(f2, expr_view(*b_e), env_mid) == Some((Err::<SVal, EvalError>(er), context@));
                        let fbig = ((if f1 >= f2 {
                            f1
                        } else {
                            f2
                        }) + 1) as nat;
                        lemma_seval_mono(f1, fbig, expr_view(*c_e), env_it);
                        lemma_seval_mono(f2, fbig, expr_view(*b_e), env_mid);
                        assert(sloop(fbig, args, env_it) == Some((Err::<SVal, EvalError>(er), context@)));
                        let ff = choose|f: nat|
                            sloop(f, args, env_start) == sloop(fbig, args, env_it);
                        assert(seval_special(ff, SpecialForm::WhileLoop, args, env_start) == Some(
                            (Err::<SVal, EvalError>(er), context@),
                        ));
                    } else {
                        assert(seval(step_limit(), expr_view(*b_e), env_mid) is None);
                        if seval(step_limit(), expr_view(*c_e), env_it) is Some {
                            lemma_eval_deterministic(step_limit(), f1, expr_view(*c_e), env_it);
                        }
                        assert(sloop(step_limit(), args, env_it) is None);
                        lemma_sloop_none_down(
                            step_limit(),
                            step_limit() + (u64::MAX - budget) as nat,
                            args,
                            env_start,
                        );
                        assert(seval_special(step_limit(), SpecialForm::WhileLoop, args, env_start)
                            is None);
                    }
                }
                return Err(er);
            },
        }
    }
}

/// Evaluate one expression against the given store, reading and
/// writing variables in it.
#[verifier::loop_isolation(false)]
pub fn eval_with_context(exp: &Expression, context: &mut Context) -> (r: Result<Type, EvalError>)
    ensures
        (exists|fuel: nat| #[trigger] seval(fuel, exp@, old(context)@) == Some(
            (res_view(r), final(context)@),
        )) || (r matches Err(EvalError::StepLimitExceeded) && seval(step_limit(), exp@, old(context)@)
            is None),
    decreases *exp,
{
    match exp {
        Expression::Int(i) => {
            proof {
                assert(seval(0, exp@, context@) == Some((Ok::<SVal, EvalError>(SVal::Int(*i)), context@)));
            }
            Ok(Type::Int(*i))
        },
        Expression::Atom(a) => {
            proof {
                assert(seval(0, exp@, context@) == Some((Ok::<SVal, EvalError>(SVal::Atom(a@)), context@)));
            }
            Ok(Type::Atom(a.clone()))
        },
        Expression::Var(var) => {
            match context.lookup(var) {
                Some(val) => {
                    proof {
                        assert(seval(0, exp@, context@) == Some((Ok::<SVal, EvalError>(val@), context@)));
                    }
                    Ok(val)
                },
                None => {
                    proof {
                        assert(seval(0, exp@, context@) == Some(
                            (Err::<SVal, EvalError>(EvalError::UndefinedVariableReference), context@),
                        ));
                    }
                    Err(EvalError::UndefinedVariableReference)
                },
            }
        },
        Expression::ExpressionList(clist) => {
            match &**clist {
                List::Nil => {
                    proof {
                        assert(elist_view(**clist) =~= Seq::<SExpr>::empty());
                        assert(seval(0, exp@, context@) == Some(
                            (Err::<SVal, EvalError>(EvalError::Unexpected), context@),
                        ));
                    }
                    Err(EvalError::Unexpected)
                },
                List::Cons(head_e, tail_rc) => {
                    let clist_ref: &ExpressionList = &**clist;
                    let ghost elems = elist_view(*clist_ref);
                    proof {
                        assert(elems =~= seq![expr_view(*head_e)] + elist_view(**tail_rc));
                        assert(elems.drop_first() =~= elist_view(**tail_rc));
                    }
                    match head_e {
                        Expression::Atom(fun_name) => {
                            let args_l: &ExpressionList = &**tail_rc;
                            let ghost env0 = context@;
                            proof {
                                assert(decreases_to!(*exp => **clist));
                                assert(decreases_to!(**clist => **tail_rc));
                            }
                            if let Some(sf) = find_special(fun_name) {
                                let r = match sf {
                                    SpecialForm::Cond => cond(args_l, context),
                                    SpecialForm::SetVar => set(args_l, context),
                                    SpecialForm::Progn => progn(args_l, context),
                                    SpecialForm::WhileLoop => wloop(args_l, context),
                                };
                                proof {
                                    if exists|fuel: nat|
                                        #[trigger] seval_special(
                                            fuel,
                                            sf,
                                            elist_view(*args_l),
                                            env0,
                                        ) == Some((res_view(r), context@)) {
                                        let f = choose|f: nat|
                                            seval_special(f, sf, elist_view(*args_l), env0)
                                                == Some((res_view(r), context@));
                                        assert(seval(f, exp@, env0) == Some(
                                            (res_view(r), context@),
                                        ));
                                    } else {
                                        assert(seval_special(
                                            step_limit(),
                                            sf,
                                            elist_view(*args_l),
                                            env0,
                                        ) is None);
                                        assert(seval(step_limit(), exp@, env0) is None);
                                    }
                                }
                                r
                            } else if let Some(b) = find_builtin(fun_name) {
                                let evaluated = match TypeList::try_from(args_l, context) {
                                    Ok(tl) => tl,
                                    Err(er) => {
                                        proof {
                                            if exists|fuel: nat|
                                                #[trigger] seval_args(
                                                    fuel,
                                                    elist_view(*args_l),
                                                    env0,
                                                ) == Some(
                                                    (Err::<Seq<SVal>, EvalError>(er), context@),
                                                ) {
                                                let f = choose|f: nat|
                                                    seval_args(f, elist_view(*args_l), env0)
                                                        == Some(
                                                        (Err::<Seq<SVal>, EvalError>(er), context@),
                                                    );
                                                assert(seval(f, exp@, env0) == Some(
                                                    (Err::<SVal, EvalError>(er), context@),
                                                ));
                                            } else {
                                                assert(seval_args(
                                                    step_limit(),
                                                    elist_view(*args_l),
                                                    env0,
                                                ) is None);
                                                assert(seval(step_limit(), exp@, env0) is None);
                                            }
                                        }
                                        return Err(er);
                                    },
                                };
                                let ghost f = choose|f: nat|
                                    seval_args(f, elist_view(*args_l), env0) == Some(
                                        (Ok::<Seq<SVal>, EvalError>(tlist_view(evaluated)), context@),
                                    );
                                let r = match b {
                                    Builtin::Add => crate::eval::add(&evaluated),
                                    Builtin::Sub => crate::eval::sub(&evaluated),
                                    Builtin::Mul => crate::eval::mul(&evaluated),
                                    Builtin::Div => div(&evaluated),
                                    Builtin::ListOf => list(&evaluated),
                                    Builtin::Head => head(&evaluated),
                                    Builtin::Tail => tail(&evaluated),
                                    Builtin::Gt => gt(&evaluated),
                                    Builtin::Lt => lt(&evaluated),
                                    Builtin::Eq => eq(&evaluated),
                                };
                                proof {
                                    assert(seval(f, exp@, env0) == Some((res_view(r), context@)));
                                }
                                r
                            } else {
                                proof {
                                    assert(seval(0, exp@, env0) == Some(
                                        (Err::<SVal, EvalError>(EvalError::NotFoundFunctionName), env0),
                                    ));
                                }
                                Err(EvalError::NotFoundFunctionName)
                            }
                        },
                        _ => {
                            proof {
                                assert(seval(0, exp@, context@) == Some(
                                    (Err::<SVal, EvalError>(EvalError::EvaluatingNonAtomHeadList), context@),
                                ));
                            }
                            Err(EvalError::EvaluatingNonAtomHeadList)
                        },
                    }
                },
            }
        },
    }
}

/// Evaluate one expression in a fresh, empty store.
pub fn eval(exp: &Expression) -> (r: Result<Type, EvalError>)
    ensures
        (exists|fuel: nat|
            (#[trigger] seval(fuel, exp@, Map::empty())) matches Some(p) && p.0 == res_view(r)) || (
        r matches Err(EvalError::StepLimitExceeded) && seval(step_limit(), exp@, Map::empty())
            is None),
{
    let mut context = Context::new();
    let r = eval_with_context(exp, &mut context);
    proof {
        if exists|fuel: nat|
            #[trigger] seval(fuel, exp@, Map::<Seq<u8>, SVal>::empty()) == Some(
                (res_view(r), context@),
            ) {
            let f = choose|f: nat|
                seval(f, exp@, Map::<Seq<u8>, SVal>::empty()) == Some((res_view(r), context@));
            assert(seval(f, exp@, Map::<Seq<u8>, SVal>::empty()) matches Some(p) && p.0 == res_view(
                r,
            ));
        }
    }
    r
}

} // verus!
