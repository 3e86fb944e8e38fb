//! Runtime values.
use vstd::prelude::*;
use crate::expr::{Expr, ExprV, lemma_list_view};

verus! {

broadcast use vstd::std_specs::vec::group_vec_axioms, vstd::seq::group_seq_axioms;

/// A built-in operation, identified by its name in the root scope.
#[derive(Debug, PartialEq, Eq, Clone, Copy, Structural)]
pub enum Prim {
    Add,
    Sub,
    Mul,
    Div,
    Lt,
    Gt,
    NumEq,
}

/// A runtime value. A float is carried as its IEEE-754 bit pattern; a closure names
/// the scope it was created in by that scope's index among the interpreter's scopes.
#[derive(Debug, PartialEq)]
pub enum Object {
    Integer(i64),
    Float(u64),
    Symbol(String),
    Boolean(bool),
    Nil,
    List(Vec<Object>),
    Primitive(Prim),
    Closure { params: Vec<String>, body: Expr, env: usize },
}

/// The mathematical view of an object.
pub enum Obj {
    Int(i64),
    Flt(u64),
    Sym(Seq<char>),
    Bool(bool),
    Nil,
    List(Seq<Obj>),
    Prim(Prim),
    Closure(Seq<Seq<char>>, ExprV, nat),
}

pub open spec fn names_of(v: Seq<String>) -> Seq<Seq<char>> {
    v.map_values(|s: String| s@)
}

/// The view of an object, item by item.
pub open spec fn obj_view(o: Object) -> Obj
    decreases o,
{
    match o {
        Object::Integer(n) => Obj::Int(n),
        Object::Float(b) => Obj::Flt(b),
        Object::Symbol(s) => Obj::Sym(s@),
        Object::Boolean(b) => Obj::Bool(b),
        Object::Nil => Obj::Nil,
        Object::List(items) => Obj::List(
            Seq::new(
                items@.len(),
                |i: int|
                    if 0 <= i < items@.len() {
                        obj_view(items@[i])
                    } else {
                        Obj::Nil
                    },
            ),
        ),
        Object::Primitive(p) => Obj::Prim(p),
        Object::Closure { params, body, env } => Obj::Closure(names_of(params@), body@, env as nat),
    }
}

impl View for Object {
    type V = Obj;

    open spec fn view(&self) -> Obj {
        obj_view(*self)
    }
}

proof fn lemma_obj_list_view(o: Object)
    requires
        o is List,
    ensures
        o@ is List,
        o@->List_0.len() == o->List_0@.len(),
        forall|i: int|
            0 <= i < o->List_0@.len() ==> o@->List_0[i] == (#[trigger] o->List_0@[i])@
                && decreases_to!(o => o->List_0@[i]),
{
    let items = o->List_0;
    assert forall|i: int| 0 <= i < items@.len() implies decreases_to!(o => #[trigger] items@[i]) by {
        assert(decreases_to!(o => items));
        assert(decreases_to!(items => items@));
        assert(decreases_to!(items@ => items@[i]));
    }
}

/// Only `#f` and `Nil` are false; every other value, `0` included, is true.
pub open spec fn is_truthy(o: Obj) -> bool {
    !(o is Nil) && o != Obj::Bool(false)
}

/// The object that quoting an expression yields: the same tree, unevaluated.
pub open spec fn quoted(e: ExprV) -> Obj
    decreases e,
{
    match e {
        ExprV::Int(n) => Obj::Int(n),
        ExprV::Flt(b) => Obj::Flt(b),
        ExprV::Sym(s) => Obj::Sym(s),
        ExprV::List(items) => Obj::List(
            Seq::new(
                items.len(),
                |i: int|
                    if 0 <= i < items.len() {
                        quoted(items[i])
                    } else {
                        Obj::Nil
                    },
            ),
        ),
    }
}

impl Object {
    /// Whether the object counts as true in a condition.
    pub fn truthy(&self) -> (r: bool)
        ensures
            r == is_truthy(self@),
    {
        match self {
            Object::Nil => false,
            Object::Boolean(b) => *b,
            _ => true,
        }
    }

    /// An independent copy; a closure's copy shares the same scope.
    pub fn copy(&self) -> (r: Object)
        ensures
            r@ == self@,
        decreases self,
    {
        match self {
            Object::Integer(n) => Object::Integer(*n),
            Object::Float(b) => Object::Float(*b),
            Object::Symbol(s) => Object::Symbol(s.clone()),
            Object::Boolean(b) => Object::Boolean(*b),
            Object::Nil => Object::Nil,
            Object::List(items) => {
                let mut out: Vec<Object> = Vec::new();
                let mut i: usize = 0;
                while i < items.len()
                    invariant
                        0 <= i <= items@.len(),
                        *self == Object::List(*items),
                        out@.len() == i,
                        forall|j: int| 0 <= j < i ==> (#[trigger] out@[j])@ == items@[j]@,
                    decreases items@.len() - i,
                {
                    proof {
                        lemma_obj_list_view(*self);
                    }
                    out.push(items[i].copy());
                    i += 1;
                }
                let r = Object::List(out);
                assert(r@ == self@) by {
                    lemma_obj_list_view(*self);
                    lemma_obj_list_view(r);
                    let a = r@->List_0;
                    let b = self@->List_0;
                    assert(a.len() == b.len());
                    assert forall|j: int| 0 <= j < a.len() implies a[j] == b[j] by {
                        assert(a[j] == out@[j]@);
                        assert(b[j] == items@[j]@);
                    }
                    assert(a =~= b);
                }
                r
            },
            Object::Primitive(p) => Object::Primitive(*p),
            Object::Closure { params, body, env } => Object::Closure {
                params: copy_names(params),
                body: copy_expr(body),
                env: *env,
            },
        }
    }
}

/// A copy of a list of names.
pub fn copy_names(v: &Vec<String>) -> (r: Vec<String>)
    ensures
        names_of(r@) == names_of(v@),
{
    let mut out: Vec<String> = Vec::new();
    let mut i: usize = 0;
    while i < v.len()
        invariant
            0 <= i <= v@.len(),
            out@.len() == i,
            forall|j: int| 0 <= j < i ==> (#[trigger] out@[j])@ == v@[j]@,
        decreases v@.len() - i,
    {
        out.push(v[i].clone());
        i += 1;
    }
    assert(names_of(out@) =~= names_of(v@));
    out
}

/// A copy of an expression tree.
pub fn copy_expr(e: &Expr) -> (r: Expr)
    ensures
        r@ == e@,
    decreases e,
{
    match e {
        Expr::Integer(n) => Expr::Integer(*n),
        Expr::Float(b) => Expr::Float(*b),
        Expr::Symbol(s) => Expr::Symbol(s.clone()),
        Expr::List(items) => {
            let mut out: Vec<Expr> = Vec::new();
            let mut i: usize = 0;
            while i < items.len()
                invariant
                    0 <= i <= items@.len(),
                    *e == Expr::List(*items),
                    out@.len() == i,
                    forall|j: int| 0 <= j < i ==> (#[trigger] out@[j])@ == items@[j]@,
                decreases items@.len() - i,
            {
                proof {
                    lemma_list_view(*e);
                }
                out.push(copy_expr(&items[i]));
                i += 1;
            }
            let r = Expr::List(out);
            assert(r@ == e@) by {
                lemma_list_view(*e);
                lemma_list_view(r);
                let a = r@->List_0;
                let b = e@->List_0;
                assert(a.len() == b.len());
                assert forall|j: int| 0 <= j < a.len() implies a[j] == b[j] by {
                    assert(a[j] == out@[j]@);
                    assert(b[j] == items@[j]@);
                }
                assert(a =~= b);
            }
            r
        },
    }
}

/// The expression as data: symbols stay symbols and lists become lists.
pub fn quote(e: &Expr) -> (r: Object)
    ensures
        r@ == quoted(e@),
    decreases e,
{
    match e {
        Expr::Integer(n) => Object::Integer(*n),
        Expr::Float(b) => Object::Float(*b),
        Expr::Symbol(s) => Object::Symbol(s.clone()),
        Expr::List(items) => {
            let mut out: Vec<Object> = Vec::new();
            let mut i: usize = 0;
            while i < items.len()
                invariant
                    0 <= i <= items@.len(),
                    *e == Expr::List(*items),
                    out@.len() == i,
                    forall|j: int| 0 <= j < i ==> (#[trigger] out@[j])@ == quoted(items@[j]@),
                decreases items@.len() - i,
            {
                proof {
                    lemma_list_view(*e);
                }
                out.push(quote(&items[i]));
                i += 1;
            }
            let r = Object::List(out);
            assert(r@ == quoted(e@)) by {
                lemma_list_view(*e);
                lemma_obj_list_view(r);
                let c = e@->List_0;
                let a = r@->List_0;
                let b = quoted(e@)->List_0;
                assert(a.len() == b.len());
                assert forall|j: int| 0 <= j < a.len() implies a[j] == b[j] by {
                    assert(c[j] == items@[j]@);
                    assert(a[j] == out@[j]@);
                    assert(b[j] == quoted(c[j]));
                }
                assert(a =~= b);
            }
            r
        },
    }
}

} // verus!
