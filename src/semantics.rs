//! The meaning of evaluation, as spec functions over views: what a run gives and
//! how it leaves the scopes. Float arithmetic is the host's, so a run that reaches
//! it is left open here.
use vstd::prelude::*;
use crate::env::{SEnv, lookup_v};
use crate::expr::ExprV;
use crate::object::{Obj, Prim, is_truthy, quoted};
use crate::prim::{EvalError, float_refused, int_prim, is_comparison, is_number};

verus! {

/// How a run ends: with a value, on an unbound symbol, with another error, or
/// open, when it reached float arithmetic.
pub enum Out {
    Val(Obj),
    /// A float computed by the host: its kind is known, its bits are not.
    HostFloat,
    /// A boolean computed by the host from floats: its kind is known, its value is not.
    HostBool,
    Unbound(Seq<char>),
    Fail(EvalError),
    Open,
}

/// How a run ends when a step ends with `o` and the run needs that step's value:
/// an error ends it as is, a value only the host knows leaves it open.
pub open spec fn stop(o: Out) -> Out {
    match o {
        Out::Unbound(k) => Out::Unbound(k),
        Out::Fail(e) => Out::Fail(e),
        _ => Out::Open,
    }
}

/// A step's result that a later step may discard: a value, or a value of a kind
/// that only the host knows.
pub open spec fn is_result(o: Out) -> bool {
    o is Val || o is HostFloat || o is HostBool
}

/// Every item of `s` is a symbol.
pub open spec fn all_syms(s: Seq<ExprV>) -> bool {
    forall|i: int| 0 <= i < s.len() ==> (#[trigger] s[i]) is Sym
}

/// The names that a list of symbols spells.
pub open spec fn sym_names(s: Seq<ExprV>) -> Seq<Seq<char>> {
    s.map_values(|e: ExprV| e->Sym_0)
}

/// What a primitive gives on evaluated arguments.
pub open spec fn prim_out(p: Prim, a: Seq<Obj>) -> Out {
    if a.len() != 2 {
        Out::Fail(EvalError::ArityMismatch)
    } else if !(is_number(a[0]) && is_number(a[1])) {
        Out::Fail(EvalError::TypeMismatch)
    } else if a[0] is Int && a[1] is Int {
        match int_prim(p, a[0]->Int_0, a[1]->Int_0) {
            Ok(v) => Out::Val(v),
            Err(e) => Out::Fail(e),
        }
    } else if float_refused(p, a[1]) {
        Out::Fail(EvalError::DivisionByZero)
    } else if is_comparison(p) {
        Out::HostBool
    } else {
        Out::HostFloat
    }
}

/// Evaluating `e` in scope `env` of `st`, nesting at most `d` deep.
pub open spec fn ev(e: ExprV, st: Seq<SEnv>, env: nat, d: nat) -> (Seq<SEnv>, Out)
    decreases d, 0nat, 0nat,
{
    match e {
        ExprV::Int(n) => (st, Out::Val(Obj::Int(n))),
        ExprV::Flt(b) => (st, Out::Val(Obj::Flt(b))),
        ExprV::Sym(s) => if s == "#t"@ {
            (st, Out::Val(Obj::Bool(true)))
        } else if s == "#f"@ {
            (st, Out::Val(Obj::Bool(false)))
        } else {
            match lookup_v(st, env as int, s) {
                Some(v) => (st, Out::Val(v)),
                None => (st, Out::Unbound(s)),
            }
        },
        ExprV::List(items) => if items.len() == 0 {
            (st, Out::Val(Obj::Nil))
        } else if d == 0 {
            (st, Out::Fail(EvalError::DepthExceeded))
        } else {
            let dd = (d - 1) as nat;
            let n = items.len();
            if items[0] == ExprV::Sym("quote"@) {
                if n != 2 {
                    (st, Out::Fail(EvalError::BadSyntax))
                } else {
                    (st, Out::Val(quoted(items[1])))
                }
            } else if items[0] == ExprV::Sym("lambda"@) {
                if n == 3 && items[1] is List && all_syms(items[1]->List_0) {
                    (st, Out::Val(Obj::Closure(sym_names(items[1]->List_0), items[2], env)))
                } else {
                    (st, Out::Fail(EvalError::BadSyntax))
                }
            } else if items[0] == ExprV::Sym("if"@) {
                if n != 3 && n != 4 {
                    (st, Out::Fail(EvalError::BadSyntax))
                } else {
                    let (st1, c) = ev(items[1], st, env, dd);
                    match c {
                        Out::Val(cv) => if is_truthy(cv) {
                            ev(items[2], st1, env, dd)
                        } else if n == 4 {
                            ev(items[3], st1, env, dd)
                        } else {
                            (st1, Out::Val(Obj::Nil))
                        },
                        other => (st1, stop(other)),
                    }
                }
            } else if items[0] == ExprV::Sym("define"@) {
                if n != 3 || !(items[1] is Sym) {
                    (st, Out::Fail(EvalError::BadSyntax))
                } else {
                    let (st1, o) = ev(items[2], st, env, dd);
                    match o {
                        Out::Val(v) => (
                            st1.update(
                                env as int,
                                SEnv {
                                    parent: st1[env as int].parent,
                                    names: st1[env as int].names.push(items[1]->Sym_0),
                                    vals: st1[env as int].vals.push(v),
                                },
                            ),
                            Out::Val(v),
                        ),
                        other => (st1, stop(other)),
                    }
                }
            } else if items[0] == ExprV::Sym("begin"@) {
                ev_begin(items, 1, st, env, dd, Out::Val(Obj::Nil))
            } else {
                let (st1, f) = ev(items[0], st, env, dd);
                match f {
                    Out::Val(fv) => ev_args(items, 1, st1, env, dd, seq![], fv),
                    other => (st1, stop(other)),
                }
            }
        },
    }
}

/// The items of a `begin` from index `i` on, after a last value `last`.
pub open spec fn ev_begin(items: Seq<ExprV>, i: nat, st: Seq<SEnv>, env: nat, d: nat, last: Out) -> (
    Seq<SEnv>,
    Out,
)
    decreases d, 1nat, items.len() - i,
{
    if i >= items.len() {
        (st, last)
    } else {
        let (st1, o) = ev(items[i as int], st, env, d);
        match o {
            o2 => if is_result(o2) {
                ev_begin(items, i + 1, st1, env, d, o2)
            } else {
                (st1, o2)
            },
        }
    }
}

/// The arguments of an application from index `i` on, after arguments `acc`; then
/// the application of `f` to them all.
pub open spec fn ev_args(
    items: Seq<ExprV>,
    i: nat,
    st: Seq<SEnv>,
    env: nat,
    d: nat,
    acc: Seq<Obj>,
    f: Obj,
) -> (Seq<SEnv>, Out)
    decreases d, 1nat, items.len() - i,
{
    if i >= items.len() {
        ap(f, acc, st, d)
    } else {
        let (st1, o) = ev(items[i as int], st, env, d);
        match o {
            Out::Val(v) => ev_args(items, i + 1, st1, env, d, acc.push(v), f),
            other => (st1, stop(other)),
        }
    }
}

/// Applying `f` to `args`: a primitive directly, a closure by evaluating its body
/// in a new scope, child of the closure's own, that binds its parameters.
pub open spec fn ap(f: Obj, args: Seq<Obj>, st: Seq<SEnv>, d: nat) -> (Seq<SEnv>, Out)
    decreases d, 0nat, 0nat,
{
    match f {
        Obj::Prim(p) => (st, prim_out(p, args)),
        Obj::Closure(params, body, cenv) => if params.len() != args.len() {
            (st, Out::Fail(EvalError::ArityMismatch))
        } else if cenv >= st.len() {
            (st, Out::Fail(EvalError::NotCallable))
        } else if d == 0 {
            (st, Out::Fail(EvalError::DepthExceeded))
        } else {
            ev(
                body,
                st.push(SEnv { parent: Some(cenv as usize), names: params, vals: args }),
                st.len(),
                (d - 1) as nat,
            )
        },
        _ => (st, Out::Fail(EvalError::NotCallable)),
    }
}

/// Top-level expressions from index `i` on, each evaluated in the root scope with
/// nesting depth `d`, after a last value `last`; the first failure ends the run.
pub open spec fn ev_top(es: Seq<ExprV>, i: nat, st: Seq<SEnv>, d: nat, last: Out) -> (Seq<SEnv>, Out)
    decreases es.len() - i,
{
    if i >= es.len() {
        (st, last)
    } else {
        let (st1, o) = ev(es[i as int], st, 0, d);
        match o {
            o2 => if is_result(o2) {
                ev_top(es, i + 1, st1, d, o2)
            } else {
                (st1, o2)
            },
        }
    }
}

} // verus!
