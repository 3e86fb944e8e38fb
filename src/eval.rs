//! The tree-walking evaluator and its special forms.
use vstd::prelude::*;
use crate::env::{Env, SEnv, Scopes, lemma_lookup_view, lookup_v, store_view, assoc, lookup_from, objs_of};
use crate::expr::{Expr, ExprV, expr_views, lemma_list_view};
use crate::semantics::{Out, is_result, all_syms, ap, ev, ev_args, ev_begin, ev_top, sym_names};
use crate::object::{Obj, Object, Prim, is_truthy, names_of, quote, quoted, copy_expr};
use crate::prim::{EvalError, FloatArith, float_refused, apply_prim, is_number, int_prim, is_comparison, res_view};

verus! {

broadcast use vstd::std_specs::vec::group_vec_axioms, vstd::seq::group_seq_axioms;

/// How deeply `run` lets evaluation nest before it gives up.
pub const MAX_DEPTH: u64 = 400;

/// `e` is the symbol `k`.
pub open spec fn is_sym(e: Expr, k: Seq<char>) -> bool {
    e is Symbol && e->Symbol_0@ == k
}

/// `e` is a list whose head is the symbol `k`.
pub open spec fn is_form(e: Expr, k: Seq<char>) -> bool {
    e is List && e->List_0@.len() >= 1 && is_sym(e->List_0@[0], k)
}

/// A run's result and final scopes `st` are as `spec` says, unless `spec` is open.
pub open spec fn outcome_holds(spec: (Seq<SEnv>, Out), st: Seq<SEnv>, r: Result<Object, EvalError>) -> bool {
    match spec.1 {
        Out::Val(v) => st == spec.0 && res_view(r) == Ok::<Obj, EvalError>(v),
        Out::Unbound(k) => st == spec.0 && (r matches Err(EvalError::UnboundSymbol(s)) && s@ == k),
        Out::Fail(err) => st == spec.0 && r == Err::<Object, EvalError>(err),
        Out::HostFloat => st == spec.0 && (r matches Ok(o) && o is Float),
        Out::HostBool => st == spec.0 && (r matches Ok(o) && o is Boolean),
        Out::Open => true,
    }
}

/// `last` is what step result `o` says of it.
pub open spec fn last_holds(o: Out, last: Object) -> bool {
    match o {
        Out::Val(v) => last@ == v,
        Out::HostFloat => last is Float,
        Out::HostBool => last is Boolean,
        _ => true,
    }
}

/// A parameter list and its view agree on being all symbols and on their names.
proof fn lemma_params_view(p: Expr)
    requires
        p is List,
    ensures
        all_syms(p@->List_0) == all_symbols(p->List_0@),
        all_symbols(p->List_0@) ==> sym_names(p@->List_0) == symbol_names(p->List_0@),
{
    lemma_list_view(p);
    let v = p@->List_0;
    let x = p->List_0@;
    if all_symbols(x) {
        assert forall|i: int| 0 <= i < v.len() implies (#[trigger] v[i]) is Sym by {
            assert(v[i] == x[i]@);
        }
        assert(sym_names(v) =~= symbol_names(x)) by {
            assert forall|i: int| 0 <= i < v.len() implies sym_names(v)[i] == symbol_names(x)[i] by {
                assert(v[i] == x[i]@);
            }
        }
    } else {
        let i = choose|i: int| 0 <= i < x.len() && !(#[trigger] x[i] is Symbol);
        assert(v[i] == x[i]@);
    }
}

/// Scopes `new` still hold every scope of `old`, each with the same parent.
pub open spec fn keeps_scopes(old: Seq<Env>, new: Seq<Env>) -> bool {
    new.len() >= old.len() && forall|j: int| 0 <= j < old.len() ==> (#[trigger] new[j]).parent == old[j].parent
}

/// Every item of `s` is a symbol.
pub open spec fn all_symbols(s: Seq<Expr>) -> bool {
    forall|i: int| 0 <= i < s.len() ==> (#[trigger] s[i]) is Symbol
}

/// The names that a list of symbols spells.
pub open spec fn symbol_names(s: Seq<Expr>) -> Seq<Seq<char>> {
    s.map_values(|e: Expr| e->Symbol_0@)
}

/// What a primitive's application gives, as far as it is fixed: the arity and kind
/// errors, the exact integer result, and the kind of result a float operand gives.
pub open spec fn prim_outcome(p: Prim, a: Seq<Obj>, r: Result<Object, EvalError>) -> bool {
    &&& a.len() != 2 ==> r == Err::<Object, EvalError>(EvalError::ArityMismatch)
    &&& a.len() == 2 && !(is_number(a[0]) && is_number(a[1])) ==> r == Err::<Object, EvalError>(
        EvalError::TypeMismatch,
    )
    &&& a.len() == 2 && a[0] is Int && a[1] is Int ==> res_view(r) == int_prim(
        p,
        a[0]->Int_0,
        a[1]->Int_0,
    )
    &&& a.len() == 2 && is_number(a[0]) && is_number(a[1]) && (a[0] is Flt || a[1] is Flt)
        && float_refused(p, a[1]) ==> r == Err::<Object, EvalError>(EvalError::DivisionByZero)
    &&& a.len() == 2 && is_number(a[0]) && is_number(a[1]) && (a[0] is Flt || a[1] is Flt)
        && !float_refused(p, a[1]) ==> (
    r matches Ok(o) && if is_comparison(p) {
        o is Boolean
    } else {
        o is Float
    })
}

/// The literal words that evaluation tells apart are distinct.
proof fn lemma_words_distinct()
    ensures
        "#t"@ != "#f"@,
        "quote"@ != "lambda"@,
        "quote"@ != "if"@,
        "quote"@ != "define"@,
        "quote"@ != "begin"@,
        "lambda"@ != "if"@,
        "lambda"@ != "define"@,
        "lambda"@ != "begin"@,
        "if"@ != "define"@,
        "if"@ != "begin"@,
        "define"@ != "begin"@,
{
    reveal_strlit("#t");
    reveal_strlit("#f");
    reveal_strlit("quote");
    reveal_strlit("lambda");
    reveal_strlit("if");
    reveal_strlit("define");
    reveal_strlit("begin");
    assert("#t"@[1] != "#f"@[1]);
    assert("quote"@[0] != "lambda"@[0]);
    assert("quote"@[0] != "if"@[0]);
    assert("quote"@[0] != "define"@[0]);
    assert("quote"@[0] != "begin"@[0]);
    assert("lambda"@[0] != "if"@[0]);
    assert("lambda"@[0] != "define"@[0]);
    assert("lambda"@[0] != "begin"@[0]);
    assert("if"@[0] != "define"@[0]);
    assert("if"@[0] != "begin"@[0]);
    assert("define"@[0] != "begin"@[0]);
}

fn is_kw(s: &String, kw: &str) -> (r: bool)
    ensures
        r == (s@ == kw@),
{
    *s == kw.to_owned()
}

/// Which item of an `if` form of `n` items to evaluate once its condition gave
/// `cond`: the consequent when `cond` is true, else the alternative when there is one,
/// else none (the form then gives `Nil`). Only that one item is evaluated.
pub fn if_branch(cond: &Object, n: usize) -> (r: Option<usize>)
    requires
        n == 3 || n == 4,
    ensures
        is_truthy(cond@) ==> r == Some(2usize),
        !is_truthy(cond@) && n == 4 ==> r == Some(3usize),
        !is_truthy(cond@) && n == 3 ==> r is None,
{
    if cond.truthy() {
        Some(2)
    } else if n == 4 {
        Some(3)
    } else {
        None
    }
}

/// `(if #t a b)` is exactly `a`: the same result and the same scopes afterwards, so
/// nothing of `b` is evaluated; `(if #f a b)` is exactly `b`.
pub proof fn law_if_takes_one_branch(a: ExprV, b: ExprV, st: Seq<SEnv>, env: nat, d: nat)
    requires
        d > 0,
    ensures
        ev(ExprV::List(seq![ExprV::Sym("if"@), ExprV::Sym("#t"@), a, b]), st, env, d) == ev(
            a,
            st,
            env,
            (d - 1) as nat,
        ),
        ev(ExprV::List(seq![ExprV::Sym("if"@), ExprV::Sym("#f"@), a, b]), st, env, d) == ev(
            b,
            st,
            env,
            (d - 1) as nat,
        ),
{
    lemma_words_distinct();
    let t = seq![ExprV::Sym("if"@), ExprV::Sym("#t"@), a, b];
    let f = seq![ExprV::Sym("if"@), ExprV::Sym("#f"@), a, b];
    assert(t[0] != ExprV::Sym("quote"@));
    assert(t[0] != ExprV::Sym("lambda"@));
    assert(ev(t[1], st, env, (d - 1) as nat) == (st, Out::Val(Obj::Bool(true))));
    assert(ev(f[1], st, env, (d - 1) as nat) == (st, Out::Val(Obj::Bool(false))));
}

/// A closure called with the wrong number of arguments fails with `ArityMismatch`,
/// leaving the scopes as they were: no argument is dropped and none is made up.
pub proof fn law_closure_arity(
    params: Seq<Seq<char>>,
    body: ExprV,
    cenv: nat,
    args: Seq<Obj>,
    st: Seq<SEnv>,
    d: nat,
)
    requires
        params.len() != args.len(),
    ensures
        ap(Obj::Closure(params, body, cenv), args, st, d) == (st, Out::Fail(EvalError::ArityMismatch)),
{
}

proof fn lemma_lookup_v_prefix(st: Seq<SEnv>, st2: Seq<SEnv>, id: int, k: Seq<char>)
    requires
        0 <= id < st.len(),
        st.len() <= st2.len(),
        forall|j: int| 0 <= j < st.len() ==> st2[j] == st[j],
    ensures
        lookup_v(st2, id, k) == lookup_v(st, id, k),
    decreases id,
{
    match st[id].parent {
        Some(p) => if p < id {
            lemma_lookup_v_prefix(st, st2, p as int, k);
        },
        None => {},
    }
}

/// Scoping is lexical: in the scope where a closure's body runs, a name that is not
/// one of its parameters means what it means in the scope the closure was created
/// in, whatever scope called it, and however long ago that creating call returned.
pub proof fn law_free_names_resolve_in_captured_scope(
    st: Seq<SEnv>,
    cenv: usize,
    params: Seq<Seq<char>>,
    args: Seq<Obj>,
    k: Seq<char>,
)
    requires
        cenv < st.len(),
        params.len() == args.len(),
        !params.contains(k),
    ensures
        lookup_v(st.push(SEnv { parent: Some(cenv), names: params, vals: args }), st.len() as int, k)
            == lookup_v(st, cenv as int, k),
{
    let st2 = st.push(SEnv { parent: Some(cenv), names: params, vals: args });
    lemma_assoc_absent(params, args, k);
    lemma_lookup_v_prefix(st, st2, cenv as int, k);
}

proof fn lemma_assoc_absent(names: Seq<Seq<char>>, vals: Seq<Obj>, k: Seq<char>)
    requires
        !names.contains(k),
    ensures
        assoc(names, vals, k) is None,
    decreases names.len(),
{
    if names.len() > 0 && vals.len() > 0 {
        assert(names.last() == names[names.len() - 1]);
        assert(!names.drop_last().contains(k)) by {
            if names.drop_last().contains(k) {
                let j = choose|j: int| 0 <= j < names.drop_last().len() && names.drop_last()[j] == k;
                assert(names[j] == k);
            }
        }
        lemma_assoc_absent(names.drop_last(), vals.drop_last(), k);
    }
}

/// The root scope of a fresh interpreter: the seven primitives and nothing else.
pub open spec fn root_scope() -> SEnv {
    SEnv {
        parent: None,
        names: seq!["+"@, "-"@, "*"@, "/"@, "<"@, ">"@, "="@],
        vals: seq![
            Obj::Prim(Prim::Add),
            Obj::Prim(Prim::Sub),
            Obj::Prim(Prim::Mul),
            Obj::Prim(Prim::Div),
            Obj::Prim(Prim::Lt),
            Obj::Prim(Prim::Gt),
            Obj::Prim(Prim::NumEq),
        ],
    }
}

/// An interpreter: its scopes, the root (index 0) holding the primitives.
pub struct Interp {
    pub scopes: Scopes,
}

impl Interp {
    pub open spec fn wf(&self) -> bool {
        self.scopes.wf()
    }

    pub open spec fn n_scopes(&self) -> nat {
        self.scopes.envs@.len()
    }

    /// A fresh interpreter whose root scope binds `+ - * / < > =` to the primitives.
    pub fn new() -> (r: Interp)
        ensures
            r.wf(),
            r.n_scopes() == 1,
            r.scopes.envs@[0].parent is None,
            r.scopes.envs@[0].binding("+"@) == Some(Obj::Prim(Prim::Add)),
            r.scopes.envs@[0].binding("-"@) == Some(Obj::Prim(Prim::Sub)),
            r.scopes.envs@[0].binding("*"@) == Some(Obj::Prim(Prim::Mul)),
            r.scopes.envs@[0].binding("/"@) == Some(Obj::Prim(Prim::Div)),
            r.scopes.envs@[0].binding("<"@) == Some(Obj::Prim(Prim::Lt)),
            r.scopes.envs@[0].binding(">"@) == Some(Obj::Prim(Prim::Gt)),
            r.scopes.envs@[0].binding("="@) == Some(Obj::Prim(Prim::NumEq)),
            store_view(r.scopes.envs@) == seq![root_scope()],
    {
        let mut scopes = Scopes::new();
        proof {
            reveal_strlit("+");
            reveal_strlit("-");
            reveal_strlit("*");
            reveal_strlit("/");
            reveal_strlit("<");
            reveal_strlit(">");
            reveal_strlit("=");
            assert("+"@[0] != "-"@[0]);
            assert("+"@[0] != "*"@[0]);
            assert("+"@[0] != "/"@[0]);
            assert("+"@[0] != "<"@[0]);
            assert("+"@[0] != ">"@[0]);
            assert("+"@[0] != "="@[0]);
            assert("-"@[0] != "+"@[0]);
            assert("-"@[0] != "*"@[0]);
            assert("-"@[0] != "/"@[0]);
            assert("-"@[0] != "<"@[0]);
            assert("-"@[0] != ">"@[0]);
            assert("-"@[0] != "="@[0]);
        }
        assert(names_of(scopes.envs@[0].names@) =~= seq![]);
        assert(objs_of(scopes.envs@[0].values@) =~= seq![]);
        assert(store_view(scopes.envs@) =~= seq![SEnv { parent: None, names: seq![], vals: seq![] }]);
        scopes.define(0, "+", Object::Primitive(Prim::Add));
        assert(store_view(scopes.envs@)[0].names =~= seq!["+"@]);
        assert(store_view(scopes.envs@)[0].vals =~= seq![Obj::Prim(Prim::Add)]);
        scopes.define(0, "-", Object::Primitive(Prim::Sub));
        assert(store_view(scopes.envs@)[0].names =~= seq!["+"@, "-"@]);
        assert(store_view(scopes.envs@)[0].vals =~= seq![Obj::Prim(Prim::Add), Obj::Prim(Prim::Sub)]);
        scopes.define(0, "*", Object::Primitive(Prim::Mul));
        assert(store_view(scopes.envs@)[0].names =~= seq!["+"@, "-"@, "*"@]);
        assert(store_view(scopes.envs@)[0].vals =~= seq![Obj::Prim(Prim::Add), Obj::Prim(Prim::Sub), Obj::Prim(Prim::Mul)]);
        scopes.define(0, "/", Object::Primitive(Prim::Div));
        assert(store_view(scopes.envs@)[0].names =~= seq!["+"@, "-"@, "*"@, "/"@]);
        assert(store_view(scopes.envs@)[0].vals =~= seq![Obj::Prim(Prim::Add), Obj::Prim(Prim::Sub), Obj::Prim(Prim::Mul), Obj::Prim(Prim::Div)]);
        scopes.define(0, "<", Object::Primitive(Prim::Lt));
        assert(store_view(scopes.envs@)[0].names =~= seq!["+"@, "-"@, "*"@, "/"@, "<"@]);
        assert(store_view(scopes.envs@)[0].vals =~= seq![Obj::Prim(Prim::Add), Obj::Prim(Prim::Sub), Obj::Prim(Prim::Mul), Obj::Prim(Prim::Div), Obj::Prim(Prim::Lt)]);
        scopes.define(0, ">", Object::Primitive(Prim::Gt));
        assert(store_view(scopes.envs@)[0].names =~= seq!["+"@, "-"@, "*"@, "/"@, "<"@, ">"@]);
        assert(store_view(scopes.envs@)[0].vals =~= seq![Obj::Prim(Prim::Add), Obj::Prim(Prim::Sub), Obj::Prim(Prim::Mul), Obj::Prim(Prim::Div), Obj::Prim(Prim::Lt), Obj::Prim(Prim::Gt)]);
        scopes.define(0, "=", Object::Primitive(Prim::NumEq));
        assert(store_view(scopes.envs@)[0].names =~= seq!["+"@, "-"@, "*"@, "/"@, "<"@, ">"@, "="@]);
        assert(store_view(scopes.envs@)[0].vals =~= seq![Obj::Prim(Prim::Add), Obj::Prim(Prim::Sub), Obj::Prim(Prim::Mul), Obj::Prim(Prim::Div), Obj::Prim(Prim::Lt), Obj::Prim(Prim::Gt), Obj::Prim(Prim::NumEq)]);
        assert(store_view(scopes.envs@)[0].names =~= root_scope().names);
        assert(store_view(scopes.envs@)[0].vals =~= root_scope().vals);
        assert(store_view(scopes.envs@) =~= seq![root_scope()]);
        Interp { scopes }
    }
}

impl Interp {
    /// Makes the scope for a call of a closure created in scope `env`: a new child of
    /// `env` (not of the caller's scope) that binds each parameter to its argument.
    pub fn call_frame(&mut self, env: usize, params: &Vec<String>, args: &Vec<Object>) -> (frame: usize)
        requires
            old(self).wf(),
            env < old(self).n_scopes(),
            params@.len() == args@.len(),
        ensures
            final(self).wf(),
            frame == old(self).n_scopes(),
            final(self).n_scopes() == old(self).n_scopes() + 1,
            final(self).scopes.envs@.take(frame as int) == old(self).scopes.envs@,
            final(self).scopes.envs@[frame as int].parent == Some(env),
            forall|k: Seq<char>|
                #[trigger] final(self).scopes.envs@[frame as int].binding(k) == assoc(
                    names_of(params@),
                    objs_of(args@),
                    k,
                ),
            store_view(final(self).scopes.envs@) == store_view(old(self).scopes.envs@).push(
                SEnv { parent: Some(env), names: names_of(params@), vals: objs_of(args@) },
            ),
    {
        let frame = self.scopes.extend(env);
        let mut i: usize = 0;
        assert(names_of(params@).take(0) =~= seq![]);
        assert(objs_of(args@).take(0) =~= seq![]);
        while i < params.len()
            invariant
                self.wf(),
                0 <= i <= params@.len(),
                frame == old(self).n_scopes(),
                self.n_scopes() == old(self).n_scopes() + 1,
                self.scopes.envs@.take(frame as int) == old(self).scopes.envs@,
                self.scopes.envs@[frame as int].parent == Some(env),
                params@.len() == args@.len(),
                forall|k: Seq<char>|
                    #[trigger] self.scopes.envs@[frame as int].binding(k) == assoc(
                        names_of(params@).take(i as int),
                        objs_of(args@).take(i as int),
                        k,
                    ),
                store_view(self.scopes.envs@) == store_view(old(self).scopes.envs@).push(
                    SEnv {
                        parent: Some(env),
                        names: names_of(params@).take(i as int),
                        vals: objs_of(args@).take(i as int),
                    },
                ),
            decreases params@.len() - i,
        {
            let ghost before = self.scopes.envs@;
            let name = params[i].as_str();
            let val = args[i].copy();
            let ghost vv = val@;
            proof {
                assert(store_view(before)[frame as int] == before[frame as int]@);
                assert(before[frame as int]@.names == names_of(params@).take(i as int));
                assert(before[frame as int]@.vals == objs_of(args@).take(i as int));
            }
            self.scopes.define(frame, name, val);
            proof {
                assert(vv == objs_of(args@)[i as int]);
                assert(name@ == names_of(params@)[i as int]);
                assert(self.scopes.envs@.take(frame as int) =~= before.take(frame as int));
                let ns = names_of(params@).take(i + 1);
                let vs = objs_of(args@).take(i + 1);
                assert(ns.drop_last() =~= names_of(params@).take(i as int));
                assert(vs.drop_last() =~= objs_of(args@).take(i as int));
                assert(ns =~= names_of(params@).take(i as int).push(params@[i as int]@));
                assert(vs =~= objs_of(args@).take(i as int).push(args@[i as int]@));
                assert(store_view(self.scopes.envs@) =~= store_view(old(self).scopes.envs@).push(
                    SEnv { parent: Some(env), names: ns, vals: vs },
                ));
            }
            i += 1;
        }
        assert(names_of(params@).take(i as int) =~= names_of(params@));
        assert(objs_of(args@).take(i as int) =~= objs_of(args@));
        frame
    }

    /// Applies a procedure to evaluated arguments. A primitive works on them
    /// directly; a closure must take exactly as many parameters as there are
    /// arguments, binds them in a fresh child of the scope it was created in, and
    /// evaluates its body there.
    pub fn apply<F: FloatArith>(&mut self, f: &Object, args: &Vec<Object>, depth: u64, fl: &F) -> (r: Result<
        Object,
        EvalError,
    >)
        requires
            old(self).wf(),
        ensures
            final(self).wf(),
            final(self).n_scopes() >= old(self).n_scopes(),
            keeps_scopes(old(self).scopes.envs@, final(self).scopes.envs@),
            outcome_holds(
                ap(f@, objs_of(args@), store_view(old(self).scopes.envs@), depth as nat),
                store_view(final(self).scopes.envs@),
                r,
            ),
            f is Primitive ==> prim_outcome(f->Primitive_0, objs_of(args@), r),
            f is Closure && f->Closure_params@.len() != args@.len() ==> r == Err::<Object, EvalError>(
                EvalError::ArityMismatch,
            ),
            !(f is Primitive || f is Closure) ==> r == Err::<Object, EvalError>(EvalError::NotCallable),
            !(f is Closure) ==> final(self).scopes.envs@ == old(self).scopes.envs@,
        decreases depth,
    {
        match f {
            Object::Primitive(p) => apply_prim(*p, args, fl),
            Object::Closure { params, body, env } => {
                if params.len() != args.len() {
                    return Err(EvalError::ArityMismatch);
                }
                if *env >= self.scopes.len() {
                    return Err(EvalError::NotCallable);
                }
                if depth == 0 {
                    return Err(EvalError::DepthExceeded);
                }
                let frame = self.call_frame(*env, params, args);
                self.eval(body, frame, depth - 1, fl)
            },
            _ => Err(EvalError::NotCallable),
        }
    }

    /// Evaluates `e` in scope `env`, nesting at most `depth` deep.
    /// Numbers evaluate to themselves, `#t` and `#f` to booleans, any other symbol to
    /// its nearest binding, and `()` to `Nil`. A list headed by `quote`, `lambda`,
    /// `if`, `define` or `begin` is that special form; any other list is an
    /// application, its items evaluated left to right in `env`.
    pub fn eval<F: FloatArith>(&mut self, e: &Expr, env: usize, depth: u64, fl: &F) -> (r: Result<
        Object,
        EvalError,
    >)
        requires
            old(self).wf(),
            env < old(self).n_scopes(),
        ensures
            outcome_holds(
                ev(e@, store_view(old(self).scopes.envs@), env as nat, depth as nat),
                store_view(final(self).scopes.envs@),
                r,
            ),
            final(self).wf(),
            final(self).n_scopes() >= old(self).n_scopes(),
            keeps_scopes(old(self).scopes.envs@, final(self).scopes.envs@),
            e is Integer ==> res_view(r) == Ok::<Obj, EvalError>(Obj::Int(e->Integer_0)),
            e is Float ==> res_view(r) == Ok::<Obj, EvalError>(Obj::Flt(e->Float_0)),
            is_sym(*e, "#t"@) ==> res_view(r) == Ok::<Obj, EvalError>(Obj::Bool(true)),
            is_sym(*e, "#f"@) ==> res_view(r) == Ok::<Obj, EvalError>(Obj::Bool(false)),
            e is Symbol && e->Symbol_0@ != "#t"@ && e->Symbol_0@ != "#f"@ ==> res_view(r) == match lookup_from(
                old(self).scopes.envs@,
                env as int,
                e->Symbol_0@,
            ) {
                Some(v) => Ok(v),
                None => Err(EvalError::UnboundSymbol(e->Symbol_0)),
            },
            e is Integer || e is Float || e is Symbol ==> final(self).scopes.envs@ == old(
                self,
            ).scopes.envs@,
            e is List && e->List_0@.len() == 0 ==> res_view(r) == Ok::<Obj, EvalError>(Obj::Nil),
            e is List && e->List_0@.len() > 0 && depth == 0 ==> r == Err::<Object, EvalError>(
                EvalError::DepthExceeded,
            ),
            depth > 0 && is_form(*e, "quote"@) && e->List_0@.len() == 2 ==> res_view(r) == Ok::<
                Obj,
                EvalError,
            >(quoted(e->List_0@[1]@)),
            depth > 0 && is_form(*e, "lambda"@) && e->List_0@.len() == 3 && e->List_0@[1] is List
                && all_symbols(e->List_0@[1]->List_0@) ==> res_view(r) == Ok::<Obj, EvalError>(
                Obj::Closure(symbol_names(e->List_0@[1]->List_0@), e->List_0@[2]@, env as nat),
            ),
            depth > 0 && is_form(*e, "define"@) && e->List_0@.len() == 3 && e->List_0@[1] is Symbol
                ==> (r matches Ok(v) ==> final(self).scopes.envs@[env as int].binding(
                e->List_0@[1]->Symbol_0@,
            ) == Some(v@)),
            depth > 0 && is_form(*e, "quote"@) && e->List_0@.len() != 2 ==> r == Err::<
                Object,
                EvalError,
            >(EvalError::BadSyntax),
            depth > 0 && is_form(*e, "lambda"@) && !(e->List_0@.len() == 3 && e->List_0@[1] is List
                && all_symbols(e->List_0@[1]->List_0@)) ==> r == Err::<Object, EvalError>(
                EvalError::BadSyntax,
            ),
            depth > 0 && is_form(*e, "if"@) && e->List_0@.len() != 3 && e->List_0@.len() != 4 ==> r
                == Err::<Object, EvalError>(EvalError::BadSyntax),
            depth > 0 && is_form(*e, "define"@) && !(e->List_0@.len() == 3 && e->List_0@[1] is Symbol)
                ==> r == Err::<Object, EvalError>(EvalError::BadSyntax),
            depth > 0 && is_form(*e, "begin"@) && e->List_0@.len() == 1 ==> res_view(r) == Ok::<
                Obj,
                EvalError,
            >(Obj::Nil),
        decreases depth,
    {
        proof {
            lemma_words_distinct();
        }
        match e {
            Expr::Integer(n) => Ok(Object::Integer(*n)),
            Expr::Float(b) => Ok(Object::Float(*b)),
            Expr::Symbol(s) => {
                if is_kw(s, "#t") {
                    return Ok(Object::Boolean(true));
                }
                if is_kw(s, "#f") {
                    return Ok(Object::Boolean(false));
                }
                proof {
                    lemma_lookup_view(self.scopes.envs@, env as int, s@);
                }
                match self.scopes.lookup(env, s.as_str()) {
                    Some(v) => Ok(v),
                    None => Err(EvalError::UnboundSymbol(s.clone())),
                }
            },
            Expr::List(items) => {
                if items.len() == 0 {
                    return Ok(Object::Nil);
                }
                if depth == 0 {
                    return Err(EvalError::DepthExceeded);
                }
                let n = items.len();
                let ghost iv = e@->List_0;
                let ghost st0 = store_view(old(self).scopes.envs@);
                let ghost dd = (depth - 1) as nat;
                let ghost whole = ev(e@, st0, env as nat, depth as nat);
                proof {
                    lemma_list_view(*e);
                    if n >= 2 && items@[1] is List {
                        lemma_params_view(items@[1]);
                    }
                }
                if let Expr::Symbol(h) = &items[0] {
                    if is_kw(h, "quote") {
                        if n != 2 {
                            return Err(EvalError::BadSyntax);
                        }
                        return Ok(quote(&items[1]));
                    }
                    if is_kw(h, "lambda") {
                        return self.eval_lambda(items, env);
                    }
                    if is_kw(h, "if") {
                        if n != 3 && n != 4 {
                            return Err(EvalError::BadSyntax);
                        }
                        let c = self.eval(&items[1], env, depth - 1, fl);
                        match c {
                            Err(err) => {
                                return Err(err);
                            },
                            Ok(cv) => match if_branch(&cv, n) {
                                Some(b) => {
                                    return self.eval(&items[b], env, depth - 1, fl);
                                },
                                None => {
                                    return Ok(Object::Nil);
                                },
                            },
                        }
                    }
                    if is_kw(h, "define") {
                        if n != 3 {
                            return Err(EvalError::BadSyntax);
                        }
                        if let Expr::Symbol(name) = &items[1] {
                            let v = self.eval(&items[2], env, depth - 1, fl);
                            match v {
                                Err(err) => {
                                    return Err(err);
                                },
                                Ok(val) => {
                                    let out = val.copy();
                                    self.scopes.define(env, name.as_str(), val);
                                    return Ok(out);
                                },
                            }
                        }
                        return Err(EvalError::BadSyntax);
                    }
                    if is_kw(h, "begin") {
                        let mut last = Object::Nil;
                        let ghost mut lastv = Out::Val(Obj::Nil);
                        let mut i: usize = 1;
                        while i < n
                            invariant
                                self.wf(),
                                env < self.n_scopes(),
                                self.n_scopes() >= old(self).n_scopes(),
                                keeps_scopes(old(self).scopes.envs@, self.scopes.envs@),
                                n == items@.len(),
                                *e == Expr::List(*items),
                                !is_form(*e, "quote"@),
                                !is_form(*e, "lambda"@),
                                !is_form(*e, "if"@),
                                !is_form(*e, "define"@),
                                1 <= i <= n,
                                n == 1 ==> last@ == Obj::Nil,
                                depth > 0,
                                iv == e@->List_0,
                                iv.len() == n,
                                forall|j: int| 0 <= j < n ==> #[trigger] iv[j] == items@[j]@,
                                dd == depth - 1,
                                whole == ev(e@, st0, env as nat, depth as nat),
                        st0 == store_view(old(self).scopes.envs@),
                                st0 == store_view(old(self).scopes.envs@),
                                whole.1 is Open || whole == ev_begin(
                                    iv,
                                    i as nat,
                                    store_view(self.scopes.envs@),
                                    env as nat,
                                    dd,
                                    lastv,
                                ),
                                last_holds(lastv, last),
                                is_result(lastv) || lastv is Open,
                            decreases n - i,
                        {
                            let ghost cur = store_view(self.scopes.envs@);
                            proof {
                                assert(iv[i as int] == items@[i as int]@);
                            }
                            match self.eval(&items[i], env, depth - 1, fl) {
                                Err(err) => {
                                    proof {
                                        let sub = ev(iv[i as int], cur, env as nat, dd);
                                        assert(!is_result(sub.1));
                                        assert(ev_begin(iv, i as nat, cur, env as nat, dd, lastv) == sub);
                                    }
                                    return Err(err);
                                },
                                Ok(v) => {
                                    proof {
                                        lastv = ev(iv[i as int], cur, env as nat, dd).1;
                                    }
                                    last = v;
                                },
                            }
                            i += 1;
                        }
                        return Ok(last);
                    }
                }
                proof {
                    assert(iv[0] == items@[0]@);
                    assert(e@ == ExprV::List(iv));
                }
                let f = match self.eval(&items[0], env, depth - 1, fl) {
                    Err(err) => {
                        return Err(err);
                    },
                    Ok(f) => f,
                };
                let mut args: Vec<Object> = Vec::new();
                assert(objs_of(args@) =~= seq![]);
                let mut i: usize = 1;
                while i < n
                    invariant
                        self.wf(),
                        env < self.n_scopes(),
                        self.n_scopes() >= old(self).n_scopes(),
                        keeps_scopes(old(self).scopes.envs@, self.scopes.envs@),
                        n == items@.len(),
                        *e == Expr::List(*items),
                        !is_form(*e, "quote"@),
                        !is_form(*e, "lambda"@),
                        !is_form(*e, "if"@),
                        !is_form(*e, "define"@),
                        !is_form(*e, "begin"@),
                        depth > 0,
                        1 <= i <= n,
                        iv == e@->List_0,
                        iv.len() == n,
                        forall|j: int| 0 <= j < n ==> #[trigger] iv[j] == items@[j]@,
                        dd == depth - 1,
                        whole == ev(e@, st0, env as nat, depth as nat),
                        st0 == store_view(old(self).scopes.envs@),
                        whole.1 is Open || whole == ev_args(
                            iv,
                            i as nat,
                            store_view(self.scopes.envs@),
                            env as nat,
                            dd,
                            objs_of(args@),
                            f@,
                        ),
                    decreases n - i,
                {
                    let ghost cur = store_view(self.scopes.envs@);
                    let ghost acc = objs_of(args@);
                    proof {
                        assert(iv[i as int] == items@[i as int]@);
                    }
                    match self.eval(&items[i], env, depth - 1, fl) {
                        Err(err) => {
                            proof {
                                let sub = ev(iv[i as int], cur, env as nat, dd);
                                assert(!(sub.1 is Val));
                                assert(ev_args(iv, i as nat, cur, env as nat, dd, acc, f@) == sub);
                            }
                            return Err(err);
                        },
                        Ok(v) => {
                            let ghost vv = v@;
                            args.push(v);
                            proof {
                                assert(objs_of(args@) =~= acc.push(vv));
                            }
                        },
                    }
                    i += 1;
                }
                proof {
                    assert(whole.1 is Open || whole == ap(
                        f@,
                        objs_of(args@),
                        store_view(self.scopes.envs@),
                        dd,
                    ));
                }
                self.apply(&f, &args, depth - 1, fl)
            },
        }
    }

    /// `(lambda (params...) body)`: a closure over `env`; the body is not evaluated.
    fn eval_lambda(&self, items: &Vec<Expr>, env: usize) -> (r: Result<Object, EvalError>)
        requires
            items@.len() >= 1,
        ensures
            items@.len() == 3 && items@[1] is List && all_symbols(items@[1]->List_0@) ==> res_view(r)
                == Ok::<Obj, EvalError>(
                Obj::Closure(symbol_names(items@[1]->List_0@), items@[2]@, env as nat),
            ),
            !(items@.len() == 3 && items@[1] is List && all_symbols(items@[1]->List_0@)) ==> r
                == Err::<Object, EvalError>(EvalError::BadSyntax),
    {
        if items.len() != 3 {
            return Err(EvalError::BadSyntax);
        }
        let ps = match &items[1] {
            Expr::List(ps) => ps,
            _ => {
                return Err(EvalError::BadSyntax);
            },
        };
        let mut params: Vec<String> = Vec::new();
        let mut i: usize = 0;
        while i < ps.len()
            invariant
                0 <= i <= ps@.len(),
                items@[1] == Expr::List(*ps),
                forall|j: int| 0 <= j < i ==> (#[trigger] ps@[j]) is Symbol,
                params@.len() == i,
                forall|j: int| 0 <= j < i ==> (#[trigger] params@[j])@ == ps@[j]->Symbol_0@,
            decreases ps@.len() - i,
        {
            match &ps[i] {
                Expr::Symbol(p) => {
                    params.push(p.clone());
                },
                _ => {
                    return Err(EvalError::BadSyntax);
                },
            }
            i += 1;
        }
        assert(names_of(params@) =~= symbol_names(ps@));
        Ok(Object::Closure { params, body: copy_expr(&items[2]), env })
    }

    /// Evaluates top-level expressions in order in the root scope, stopping at the
    /// first failure; gives the value of the last one, or `Nil` when there is none.
    pub fn run<F: FloatArith>(&mut self, exprs: &Vec<Expr>, fl: &F) -> (r: Result<Object, EvalError>)
        requires
            old(self).wf(),
        ensures
            final(self).wf(),
            final(self).n_scopes() >= old(self).n_scopes(),
            keeps_scopes(old(self).scopes.envs@, final(self).scopes.envs@),
            exprs@.len() == 0 ==> res_view(r) == Ok::<Obj, EvalError>(Obj::Nil),
            outcome_holds(
                ev_top(expr_views(exprs@), 0, store_view(old(self).scopes.envs@), MAX_DEPTH as nat, Out::Val(Obj::Nil)),
                store_view(final(self).scopes.envs@),
                r,
            ),
    {
        let ghost es = expr_views(exprs@);
        let ghost whole = ev_top(es, 0, store_view(old(self).scopes.envs@), MAX_DEPTH as nat, Out::Val(Obj::Nil));
        let mut last = Object::Nil;
        let ghost mut lastv = Out::Val(Obj::Nil);
        let mut i: usize = 0;
        while i < exprs.len()
            invariant
                self.wf(),
                self.n_scopes() >= old(self).n_scopes(),
                keeps_scopes(old(self).scopes.envs@, self.scopes.envs@),
                exprs@.len() == 0 ==> last@ == Obj::Nil,
                0 <= i <= exprs@.len(),
                es == expr_views(exprs@),
                whole == ev_top(es, 0, store_view(old(self).scopes.envs@), MAX_DEPTH as nat, Out::Val(Obj::Nil)),
                whole.1 is Open || whole == ev_top(
                    es,
                    i as nat,
                    store_view(self.scopes.envs@),
                    MAX_DEPTH as nat,
                    lastv,
                ),
                last_holds(lastv, last),
                is_result(lastv) || lastv is Open,
            decreases exprs@.len() - i,
        {
            let ghost cur = store_view(self.scopes.envs@);
            proof {
                assert(es[i as int] == exprs@[i as int]@);
            }
            match self.eval(&exprs[i], 0, MAX_DEPTH, fl) {
                Err(err) => {
                    proof {
                        let sub = ev(es[i as int], cur, 0, MAX_DEPTH as nat);
                        assert(!is_result(sub.1));
                        assert(ev_top(es, i as nat, cur, MAX_DEPTH as nat, lastv) == sub);
                    }
                    return Err(err);
                },
                Ok(v) => {
                    proof {
                        lastv = ev(es[i as int], cur, 0, MAX_DEPTH as nat).1;
                    }
                    last = v;
                },
            }
            i += 1;
        }
        Ok(last)
    }
}

} // verus!
