//! Scopes and the chain of scopes that lexical lookup walks.
use vstd::prelude::*;
use crate::object::{Obj, Object, names_of};

verus! {

broadcast use vstd::std_specs::vec::group_vec_axioms, vstd::seq::group_seq_axioms;

/// The views of a sequence of objects.
pub open spec fn objs_of(v: Seq<Object>) -> Seq<Obj> {
    v.map_values(|o: Object| o@)
}

/// The view of an optional object.
pub open spec fn opt_view(o: Option<Object>) -> Option<Obj> {
    match o {
        Some(v) => Some(v@),
        None => None,
    }
}

/// The value bound to `k` by a list of bindings; a later binding shadows an earlier one.
pub open spec fn assoc(names: Seq<Seq<char>>, vals: Seq<Obj>, k: Seq<char>) -> Option<Obj>
    decreases names.len(),
{
    if names.len() == 0 || vals.len() == 0 {
        None
    } else if names.last() == k {
        Some(vals.last())
    } else {
        assoc(names.drop_last(), vals.drop_last(), k)
    }
}

/// The mathematical view of a scope: its parent and its bindings in order.
pub struct SEnv {
    pub parent: Option<usize>,
    pub names: Seq<Seq<char>>,
    pub vals: Seq<Obj>,
}

/// The views of a sequence of scopes.
pub open spec fn store_view(s: Seq<Env>) -> Seq<SEnv> {
    s.map_values(|e: Env| e@)
}

/// What `k` means from scope `id` of viewed scopes: the nearest binding up the chain.
pub open spec fn lookup_v(st: Seq<SEnv>, id: int, k: Seq<char>) -> Option<Obj>
    decreases id,
{
    if !(0 <= id < st.len()) {
        None
    } else {
        match assoc(st[id].names, st[id].vals, k) {
            Some(v) => Some(v),
            None => match st[id].parent {
                Some(p) => if p < id {
                    lookup_v(st, p as int, k)
                } else {
                    None
                },
                None => None,
            },
        }
    }
}

/// One scope: its own bindings and, but for the root, the index of its parent scope.
#[derive(Debug)]
pub struct Env {
    pub parent: Option<usize>,
    pub names: Vec<String>,
    pub values: Vec<Object>,
}

impl View for Env {
    type V = SEnv;

    open spec fn view(&self) -> SEnv {
        SEnv { parent: self.parent, names: names_of(self.names@), vals: objs_of(self.values@) }
    }
}

impl Env {
    /// Names and values pair up.
    pub open spec fn wf(&self) -> bool {
        self.names@.len() == self.values@.len()
    }

    /// What this scope itself binds `k` to.
    pub open spec fn binding(&self, k: Seq<char>) -> Option<Obj> {
        assoc(names_of(self.names@), objs_of(self.values@), k)
    }

    /// The scope binds nothing.
    pub open spec fn is_empty(&self) -> bool {
        self.names@.len() == 0 && self.values@.len() == 0
    }

    /// A root scope: no parent, no bindings.
    pub fn new() -> (r: Env)
        ensures
            r.wf(),
            r.is_empty(),
            r.parent is None,
            forall|k: Seq<char>| r.binding(k) is None,
    {
        Env { parent: None, names: Vec::new(), values: Vec::new() }
    }

    /// A child scope of the scope at index `parent`, with no bindings of its own.
    pub fn extend(parent: usize) -> (r: Env)
        ensures
            r.wf(),
            r.is_empty(),
            r.parent == Some(parent),
            forall|k: Seq<char>| r.binding(k) is None,
    {
        Env { parent: Some(parent), names: Vec::new(), values: Vec::new() }
    }

    /// Binds `name` to `val` in this scope, replacing what this scope bound it to.
    pub fn set(&mut self, name: &str, val: Object)
        requires
            old(self).wf(),
        ensures
            final(self).wf(),
            final(self).parent == old(self).parent,
            final(self).binding(name@) == Some(val@),
            forall|k: Seq<char>| k != name@ ==> final(self).binding(k) == old(self).binding(k),
            final(self)@ == (SEnv {
                parent: old(self).parent,
                names: old(self)@.names.push(name@),
                vals: old(self)@.vals.push(val@),
            }),
    {
        let ghost n0 = names_of(self.names@);
        let ghost v0 = objs_of(self.values@);
        let ghost vv = val@;
        self.names.push(name.to_owned());
        self.values.push(val);
        proof {
            let n1 = names_of(self.names@);
            let v1 = objs_of(self.values@);
            assert(n1 =~= n0.push(name@));
            assert(v1 =~= v0.push(vv));
            assert(n1.drop_last() =~= n0);
            assert(v1.drop_last() =~= v0);
        }
    }

    /// What this scope itself binds `name` to, if anything.
    pub fn get_local(&self, name: &str) -> (r: Option<Object>)
        requires
            self.wf(),
        ensures
            opt_view(r) == self.binding(name@),
    {
        let key = name.to_owned();
        let ghost ns = names_of(self.names@);
        let ghost vs = objs_of(self.values@);
        let mut i: usize = self.names.len();
        assert(ns.take(i as int) =~= ns);
        assert(vs.take(i as int) =~= vs);
        while i > 0
            invariant
                0 <= i <= self.names@.len(),
                self.wf(),
                key@ == name@,
                ns == names_of(self.names@),
                vs == objs_of(self.values@),
                self.binding(name@) == assoc(ns.take(i as int), vs.take(i as int), name@),
            decreases i,
        {
            let ghost nt = ns.take(i as int);
            let ghost vt = vs.take(i as int);
            assert(nt.drop_last() =~= ns.take(i - 1));
            assert(vt.drop_last() =~= vs.take(i - 1));
            if self.names[i - 1] == key {
                return Some(self.values[i - 1].copy());
            }
            i -= 1;
        }
        assert(ns.take(0) =~= Seq::<Seq<char>>::empty());
        None
    }

    /// What `name` means from this scope: its own binding, else the nearest one up
    /// the chain of parents in `scopes`.
    pub fn get(&self, scopes: &Scopes, name: &str) -> (r: Option<Object>)
        requires
            self.wf(),
            scopes.wf(),
        ensures
            opt_view(r) == match self.binding(name@) {
                Some(v) => Some(v),
                None => match self.parent {
                    Some(p) => lookup_from(scopes.envs@, p as int, name@),
                    None => None,
                },
            },
    {
        match self.get_local(name) {
            Some(v) => Some(v),
            None => match self.parent {
                Some(p) => scopes.lookup(p, name),
                None => None,
            },
        }
    }
}

/// What `k` means from scope `id`: the nearest binding on the way up to the root.
pub open spec fn lookup_from(s: Seq<Env>, id: int, k: Seq<char>) -> Option<Obj>
    decreases id,
{
    if !(0 <= id < s.len()) {
        None
    } else {
        match s[id].binding(k) {
            Some(v) => Some(v),
            None => match s[id].parent {
                Some(p) => if p < id {
                    lookup_from(s, p as int, k)
                } else {
                    None
                },
                None => None,
            },
        }
    }
}

/// Every scope of the interpreter, by index; index 0 is the root.
#[derive(Debug)]
pub struct Scopes {
    pub envs: Vec<Env>,
}

/// Scopes `s` are well formed: each pairs names with values, and each parent was
/// made before its child.
pub open spec fn scopes_wf(s: Seq<Env>) -> bool {
    &&& s.len() >= 1
    &&& forall|i: int| 0 <= i < s.len() ==> (#[trigger] s[i]).wf()
    &&& forall|i: int| 0 <= i < s.len() && (#[trigger] s[i]).parent is Some ==> s[i].parent->0 < i
}

impl Scopes {
    pub open spec fn wf(&self) -> bool {
        scopes_wf(self.envs@)
    }

    /// Just the root scope, empty.
    pub fn new() -> (r: Scopes)
        ensures
            r.wf(),
            r.envs@.len() == 1,
            r.envs@[0].parent is None,
            r.envs@[0].is_empty(),
    {
        let mut envs: Vec<Env> = Vec::new();
        envs.push(Env::new());
        Scopes { envs }
    }

    /// The number of scopes.
    pub fn len(&self) -> (r: usize)
        ensures
            r == self.envs@.len(),
    {
        self.envs.len()
    }

    /// Adds an empty child scope of `parent` and returns its index.
    pub fn extend(&mut self, parent: usize) -> (id: usize)
        requires
            old(self).wf(),
            parent < old(self).envs@.len(),
        ensures
            final(self).wf(),
            id == old(self).envs@.len(),
            final(self).envs@.len() == old(self).envs@.len() + 1,
            final(self).envs@.take(id as int) == old(self).envs@,
            final(self).envs@[id as int].parent == Some(parent),
            final(self).envs@[id as int].is_empty(),
            store_view(final(self).envs@) == store_view(old(self).envs@).push(
                SEnv { parent: Some(parent), names: seq![], vals: seq![] },
            ),
    {
        let id = self.envs.len();
        self.envs.push(Env::extend(parent));
        assert(self.envs@.take(id as int) =~= old(self).envs@);
        assert(names_of(self.envs@[id as int].names@) =~= seq![]);
        assert(objs_of(self.envs@[id as int].values@) =~= seq![]);
        assert(store_view(self.envs@) =~= store_view(old(self).envs@).push(
            SEnv { parent: Some(parent), names: seq![], vals: seq![] },
        ));
        id
    }

    /// Binds `name` to `val` in scope `id` itself, never in one of its parents.
    pub fn define(&mut self, id: usize, name: &str, val: Object)
        requires
            old(self).wf(),
            id < old(self).envs@.len(),
        ensures
            final(self).wf(),
            final(self).envs@.len() == old(self).envs@.len(),
            forall|j: int| 0 <= j < old(self).envs@.len() && j != id ==> final(self).envs@[j] == old(self).envs@[j],
            final(self).envs@[id as int].parent == old(self).envs@[id as int].parent,
            final(self).envs@[id as int].binding(name@) == Some(val@),
            forall|k: Seq<char>| k != name@ ==> final(self).envs@[id as int].binding(k) == old(self).envs@[id as int].binding(k),
            store_view(final(self).envs@) == store_view(old(self).envs@).update(
                id as int,
                SEnv {
                    parent: old(self).envs@[id as int].parent,
                    names: old(self).envs@[id as int]@.names.push(name@),
                    vals: old(self).envs@[id as int]@.vals.push(val@),
                },
            ),
    {
        let ghost vv = val@;
        self.envs[id].set(name, val);
        assert(store_view(self.envs@) =~= store_view(old(self).envs@).update(
            id as int,
            SEnv {
                parent: old(self).envs@[id as int].parent,
                names: old(self).envs@[id as int]@.names.push(name@),
                vals: old(self).envs@[id as int]@.vals.push(vv),
            },
        ));
    }

    /// What `name` means from scope `id`: the nearest binding up the chain.
    pub fn lookup(&self, id: usize, name: &str) -> (r: Option<Object>)
        requires
            self.wf(),
        ensures
            opt_view(r) == lookup_from(self.envs@, id as int, name@),
    {
        let mut cur: usize = id;
        while cur < self.envs.len()
            invariant
                self.wf(),
                lookup_from(self.envs@, id as int, name@) == lookup_from(self.envs@, cur as int, name@),
            decreases cur,
        {
            match self.envs[cur].get_local(name) {
                Some(v) => {
                    return Some(v);
                },
                None => match self.envs[cur].parent {
                    Some(p) => {
                        cur = p;
                    },
                    None => {
                        return None;
                    },
                },
            }
        }
        None
    }
}


/// What a name means from scope `id` depends only on scopes `0..=id`.
proof fn lemma_lookup_reads_prefix(s0: Seq<Env>, s1: Seq<Env>, id: int, k: Seq<char>)
    requires
        0 <= id < s0.len(),
        id < s1.len(),
        forall|j: int| 0 <= j <= id ==> s0[j] == s1[j],
    ensures
        lookup_from(s1, id, k) == lookup_from(s0, id, k),
    decreases id,
{
    match s0[id].binding(k) {
        Some(_) => {},
        None => match s0[id].parent {
            Some(p) => if p < id {
                lemma_lookup_reads_prefix(s0, s1, p as int, k);
            },
            None => {},
        },
    }
}

/// A name bound in a scope is seen, with that value, from every child of that scope
/// that does not bind it itself.
pub proof fn law_child_sees_parent_binding(s: Seq<Env>, root: usize, child: int, k: Seq<char>, v: Obj)
    requires
        scopes_wf(s),
        0 <= root < s.len(),
        0 <= child < s.len(),
        s[child].parent == Some(root),
        s[child].binding(k) is None,
        s[root as int].binding(k) == Some(v),
    ensures
        lookup_from(s, child, k) == Some(v),
{
    assert(s[child].parent->0 < child);
    assert(lookup_from(s, root as int, k) == Some(v));
}

/// Binding a name in a scope made after scope `root` leaves what every name means
/// from `root` as it was.
pub proof fn law_later_define_keeps_earlier(s0: Seq<Env>, s1: Seq<Env>, root: int, child: int)
    requires
        scopes_wf(s0),
        0 <= root < child < s0.len(),
        s1.len() == s0.len(),
        forall|j: int| 0 <= j < s0.len() && j != child ==> s1[j] == s0[j],
    ensures
        forall|k: Seq<char>| #[trigger] lookup_from(s1, root, k) == lookup_from(s0, root, k),
{
    assert forall|k: Seq<char>| #[trigger] lookup_from(s1, root, k) == lookup_from(s0, root, k) by {
        lemma_lookup_reads_prefix(s0, s1, root, k);
    }
}

/// Lookup through scopes and through their views agree.
pub proof fn lemma_lookup_view(s: Seq<Env>, id: int, k: Seq<char>)
    ensures
        lookup_from(s, id, k) == lookup_v(store_view(s), id, k),
    decreases id,
{
    if 0 <= id < s.len() {
        match s[id].parent {
            Some(p) => if p < id {
                lemma_lookup_view(s, p as int, k);
            },
            None => {},
        }
    }
}

} // verus!
