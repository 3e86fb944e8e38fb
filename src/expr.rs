//! Expressions (S-expressions) and the parser that builds them from tokens.
use vstd::prelude::*;
use crate::token::{Tok, Token, toks_of};

verus! {

broadcast use vstd::std_specs::vec::group_vec_axioms, vstd::seq::group_seq_axioms;

/// An expression: an atom, or a list of expressions (code and data alike).
/// The literals `#t` and `#f` are symbols here; the evaluator reads them as booleans.
#[derive(Debug, PartialEq)]
pub enum Expr {
    Integer(i64),
    Float(u64),
    Symbol(String),
    List(Vec<Expr>),
}

/// The mathematical view of an expression.
pub enum ExprV {
    Int(i64),
    Flt(u64),
    Sym(Seq<char>),
    List(Seq<ExprV>),
}

/// The view of an expression, item by item.
pub open spec fn expr_view(e: Expr) -> ExprV
    decreases e,
{
    match e {
        Expr::Integer(n) => ExprV::Int(n),
        Expr::Float(b) => ExprV::Flt(b),
        Expr::Symbol(s) => ExprV::Sym(s@),
        Expr::List(items) => ExprV::List(
            Seq::new(
                items@.len(),
                |i: int|
                    if 0 <= i < items@.len() {
                        expr_view(items@[i])
                    } else {
                        ExprV::Int(0)
                    },
            ),
        ),
    }
}

impl View for Expr {
    type V = ExprV;

    open spec fn view(&self) -> ExprV {
        expr_view(*self)
    }
}

/// The view of a list is the list of the views of its items, each of which is
/// smaller than the list.
pub proof fn lemma_list_view(e: Expr)
    requires
        e is List,
    ensures
        e@ is List,
        e@->List_0.len() == e->List_0@.len(),
        forall|i: int|
            0 <= i < e->List_0@.len() ==> e@->List_0[i] == (#[trigger] e->List_0@[i])@
                && decreases_to!(e => e->List_0@[i]),
{
    let items = e->List_0;
    assert(e@->List_0.len() == items@.len());
    assert forall|i: int| 0 <= i < items@.len() implies decreases_to!(e => #[trigger] items@[i]) by {
        assert(decreases_to!(e => items));
        assert(decreases_to!(items => items@));
        assert(decreases_to!(items@ => items@[i]));
    }
}

/// Why a token sequence is not a sequence of expressions.
#[derive(Debug, PartialEq, Eq, Clone, Copy, Structural)]
pub enum ParseError {
    /// The input ended inside an open list.
    UnexpectedEof,
    /// A closing parenthesis came with no open list to close.
    UnexpectedCloseParen,
}

/// The tokens that write an expression.
pub open spec fn expr_toks(e: Expr) -> Seq<Tok>
    decreases e,
{
    match e {
        Expr::Integer(n) => seq![Tok::Int(n)],
        Expr::Float(b) => seq![Tok::Flt(b)],
        Expr::Symbol(s) => seq![Tok::Sym(s@)],
        Expr::List(items) => seq![Tok::Open] + seq_toks(items@) + seq![Tok::Close],
    }
}

/// The tokens that write a sequence of expressions, one after the other.
pub open spec fn seq_toks(s: Seq<Expr>) -> Seq<Tok>
    decreases s,
{
    if s.len() == 0 {
        seq![]
    } else {
        seq_toks(s.drop_last()) + expr_toks(s.last())
    }
}

/// How a token changes the nesting depth.
pub open spec fn tok_delta(t: Tok) -> int {
    match t {
        Tok::Open => 1,
        Tok::Close => -1,
        _ => 0,
    }
}

/// Opening minus closing parentheses in `t`.
pub open spec fn depth(t: Seq<Tok>) -> int
    decreases t.len(),
{
    if t.len() == 0 {
        0
    } else {
        depth(t.drop_last()) + tok_delta(t.last())
    }
}

/// Some prefix of `t` closes more lists than it opened.
pub open spec fn dips(t: Seq<Tok>) -> bool {
    exists|k: int| 0 <= k <= t.len() && #[trigger] depth(t.take(k)) < 0
}

/// Every parenthesis of `t` is matched.
pub open spec fn balanced(t: Seq<Tok>) -> bool {
    !dips(t) && depth(t) == 0
}

/// The tokens written by the open lists of a parse in progress: the finished items of
/// the outermost level, then for each open list its `(` and its finished items.
pub open spec fn frames_toks(st: Seq<Seq<Expr>>) -> Seq<Tok>
    decreases st.len(),
{
    if st.len() == 0 {
        seq![]
    } else if st.len() == 1 {
        seq_toks(st[0])
    } else {
        frames_toks(st.drop_last()) + seq![Tok::Open] + seq_toks(st.last())
    }
}

pub open spec fn frames_of(st: Seq<Vec<Expr>>) -> Seq<Seq<Expr>> {
    st.map_values(|v: Vec<Expr>| v@)
}

proof fn lemma_seq_toks_push(s: Seq<Expr>, e: Expr)
    ensures
        seq_toks(s.push(e)) == seq_toks(s) + expr_toks(e),
{
    assert(s.push(e).drop_last() =~= s);
}

/// Copies the text of a symbol token.
fn copy_string(s: &String) -> (r: String)
    ensures
        r@ == s@,
{
    s.clone()
}

/// The expression that an atom token stands for.
fn atom_of(t: &Token) -> (r: Expr)
    requires
        !(t is LParen),
        !(t is RParen),
    ensures
        expr_toks(r) == seq![t@],
{
    match t {
        Token::Symbol(s) => Expr::Symbol(copy_string(s)),
        Token::Integer(n) => Expr::Integer(*n),
        Token::Float(b) => Expr::Float(*b),
        _ => Expr::Integer(0),
    }
}

/// Parses a whole token sequence into its top-level expressions, in order.
/// The result writes back exactly the given tokens; it fails with
/// `UnexpectedCloseParen` when some `)` has no open list to close, and otherwise
/// with `UnexpectedEof` when a list is still open at the end.
pub fn parse(tokens: &Vec<Token>) -> (r: Result<Vec<Expr>, ParseError>)
    ensures
        r is Ok <==> balanced(toks_of(tokens@)),
        r == Err::<Vec<Expr>, ParseError>(ParseError::UnexpectedCloseParen) <==> dips(
            toks_of(tokens@),
        ),
        r == Err::<Vec<Expr>, ParseError>(ParseError::UnexpectedEof) <==> (!dips(
            toks_of(tokens@),
        ) && depth(toks_of(tokens@)) != 0),
        r matches Ok(es) ==> seq_toks(es@) == toks_of(tokens@),
{
    let ghost tv = toks_of(tokens@);
    let mut stack: Vec<Vec<Expr>> = Vec::new();
    stack.push(Vec::new());
    let mut i: usize = 0;
    proof {
        assert(tv.take(0) =~= seq![]);
        assert(frames_of(stack@) =~= seq![seq![]]);
        assert(seq_toks(seq![]) =~= seq![]);
    }
    while i < tokens.len()
        invariant
            0 <= i <= tokens.len(),
            tv == toks_of(tokens@),
            stack@.len() >= 1,
            stack@.len() == depth(tv.take(i as int)) + 1,
            forall|k: int| 0 <= k <= i ==> #[trigger] depth(tv.take(k)) >= 0,
            frames_toks(frames_of(stack@)) == tv.take(i as int),
        decreases tokens.len() - i,
    {
        let ghost old_frames = frames_of(stack@);
        assert(tv.take(i + 1).drop_last() =~= tv.take(i as int));
        assert(tv.take(i + 1) =~= tv.take(i as int) + seq![tv[i as int]]);
        match &tokens[i] {
            Token::LParen => {
                stack.push(Vec::new());
                proof {
                    let nf = frames_of(stack@);
                    assert(nf.drop_last() =~= old_frames);
                    assert(nf.last() =~= seq![]);
                    assert(seq_toks(seq![]) =~= seq![]);
                    assert(frames_toks(nf) =~= tv.take(i + 1));
                }
            },
            Token::RParen => {
                if stack.len() == 1 {
                    proof {
                        assert(depth(tv.take(i + 1)) < 0);
                    }
                    return Err(ParseError::UnexpectedCloseParen);
                }
                let items = stack.pop().unwrap();
                let mut top = stack.pop().unwrap();
                let ghost prev = top@;
                let e = Expr::List(items);
                top.push(e);
                stack.push(top);
                proof {
                    lemma_seq_toks_push(prev, e);
                    let nf = frames_of(stack@);
                    assert(old_frames.drop_last().drop_last() =~= nf.drop_last());
                    assert(nf.last() =~= prev.push(e));
                    assert(old_frames.last() == items@);
                    assert(old_frames.drop_last().last() == prev);
                    assert(tv[i as int] == Tok::Close);
                    assert(expr_toks(e) == seq![Tok::Open] + seq_toks(items@) + seq![Tok::Close]);
                    assert(frames_toks(old_frames) == frames_toks(old_frames.drop_last())
                        + seq![Tok::Open] + seq_toks(items@));
                    if nf.len() == 1 {
                        assert(frames_toks(old_frames.drop_last()) == seq_toks(prev));
                        assert(frames_toks(nf) =~= tv.take(i + 1));
                    } else {
                        let d = nf.drop_last();
                        assert(old_frames.drop_last().drop_last() =~= d);
                        assert(frames_toks(old_frames.drop_last()) == frames_toks(d) + seq![Tok::Open]
                            + seq_toks(prev));
                        assert(frames_toks(nf) == frames_toks(d) + seq![Tok::Open] + seq_toks(prev.push(e)));
                        assert(frames_toks(nf) =~= tv.take(i + 1));
                    }
                }
            },
            t => {
                let e = atom_of(t);
                let mut top = stack.pop().unwrap();
                let ghost prev = top@;
                top.push(e);
                stack.push(top);
                proof {
                    lemma_seq_toks_push(prev, e);
                    let nf = frames_of(stack@);
                    assert(old_frames.drop_last() =~= nf.drop_last());
                    assert(nf.last() =~= prev.push(e));
                    assert(frames_toks(nf) =~= tv.take(i + 1));
                }
            },
        }
        i += 1;
    }
    assert(tv.take(i as int) =~= tv);
    if stack.len() != 1 {
        proof {
            assert forall|k: int| 0 <= k <= tv.len() implies depth(#[trigger] tv.take(k)) >= 0 by {
                assert(depth(tv.take(k)) >= 0);
            }
        }
        return Err(ParseError::UnexpectedEof);
    }
    let es = stack.pop().unwrap();
    Ok(es)
}


/// Every prefix of `t` has opened at least as many lists as it closed.
pub open spec fn never_below_zero(t: Seq<Tok>) -> bool {
    forall|k: int| 0 <= k <= t.len() ==> #[trigger] depth(t.take(k)) >= 0
}

proof fn lemma_depth_concat(a: Seq<Tok>, b: Seq<Tok>)
    ensures
        depth(a + b) == depth(a) + depth(b),
    decreases b.len(),
{
    if b.len() == 0 {
        assert(a + b =~= a);
    } else {
        lemma_depth_concat(a, b.drop_last());
        assert((a + b).drop_last() =~= a + b.drop_last());
    }
}

proof fn lemma_never_below_concat(a: Seq<Tok>, b: Seq<Tok>)
    requires
        never_below_zero(a),
        never_below_zero(b),
    ensures
        never_below_zero(a + b),
        depth(a + b) == depth(a) + depth(b),
{
    lemma_depth_concat(a, b);
    assert(a.take(a.len() as int) =~= a);
    assert(depth(a.take(a.len() as int)) >= 0);
    assert forall|k: int| 0 <= k <= (a + b).len() implies #[trigger] depth((a + b).take(k)) >= 0 by {
        if k <= a.len() {
            assert((a + b).take(k) =~= a.take(k));
        } else {
            assert((a + b).take(k) =~= a + b.take(k - a.len()));
            lemma_depth_concat(a, b.take(k - a.len()));
        }
    }
}

proof fn lemma_expr_balanced(e: Expr)
    ensures
        never_below_zero(expr_toks(e)),
        depth(expr_toks(e)) == 0,
    decreases e,
{
    let t = expr_toks(e);
    match e {
        Expr::List(items) => {
            assert(decreases_to!(e => items));
            assert(decreases_to!(items => items@));
            lemma_seq_balanced(items@);
            let s = seq_toks(items@);
            let open = seq![Tok::Open];
            assert(open.take(0) =~= seq![]);
            assert(open.take(1) =~= open);
            assert(open.take(1).drop_last() =~= seq![]);
            assert(depth(seq![]) == 0);
            assert forall|k: int| 0 <= k <= open.len() implies #[trigger] depth(open.take(k)) >= 0 by {
                if k == 0 {
                    assert(open.take(k) =~= seq![]);
                } else {
                    assert(open.take(k) =~= open);
                    assert(depth(open) == 1);
                }
            }
            lemma_never_below_concat(open, s);
            let p = open + s;
            assert(depth(open) == 1) by {
                assert(open.drop_last() =~= seq![]);
            }
            assert(t =~= p + seq![Tok::Close]);
            assert(t.drop_last() =~= p);
            assert forall|k: int| 0 <= k <= t.len() implies #[trigger] depth(t.take(k)) >= 0 by {
                if k <= p.len() {
                    assert(t.take(k) =~= p.take(k));
                } else {
                    assert(t.take(k) =~= t);
                }
            }
            assert(depth(t) == depth(p) - 1);
            assert(depth(p) == 1);
            assert(never_below_zero(t));
            assert(depth(t) == 0);
        },
        _ => {
            assert(t.take(0) =~= seq![]);
            assert(t.len() == 1);
            assert(t.take(1) =~= t);
            assert(t.drop_last() =~= seq![]);
            assert(tok_delta(t.last()) == 0);
            assert(depth(t.drop_last()) == 0);
            assert(depth(t) == depth(t.drop_last()) + tok_delta(t.last()));
            assert(depth(t) == 0);
            assert(never_below_zero(t));
        },
    }
}

proof fn lemma_seq_balanced(s: Seq<Expr>)
    ensures
        never_below_zero(seq_toks(s)),
        depth(seq_toks(s)) == 0,
    decreases s,
{
    if s.len() == 0 {
        assert(seq_toks(s).take(0) =~= seq![]);
    } else {
        lemma_seq_balanced(s.drop_last());
        lemma_expr_balanced(s.last());
        lemma_never_below_concat(seq_toks(s.drop_last()), expr_toks(s.last()));
    }
}

/// Writing any expressions out as tokens gives a balanced sequence: so `parse`
/// succeeds on it, and what it gives writes back to the very same tokens.
pub proof fn law_written_tokens_balanced(es: Seq<Expr>)
    ensures
        balanced(seq_toks(es)),
{
    lemma_seq_balanced(es);
}


/// The views of a sequence of expressions.
pub open spec fn expr_views(s: Seq<Expr>) -> Seq<ExprV> {
    s.map_values(|e: Expr| e@)
}

proof fn lemma_expr_toks_nonempty(e: Expr)
    ensures
        expr_toks(e).len() >= 1,
        e is List ==> expr_toks(e).len() >= 2,
        !(e is List) ==> expr_toks(e).len() == 1,
{
}

/// A suffix of a written sequence has opened no more lists than it closed.
proof fn lemma_suffix_depth(s: Seq<Expr>, j: int)
    requires
        0 <= j <= seq_toks(s).len(),
    ensures
        depth(seq_toks(s).skip(j)) <= 0,
{
    let t = seq_toks(s);
    lemma_seq_balanced(s);
    assert(t =~= t.take(j) + t.skip(j));
    lemma_depth_concat(t.take(j), t.skip(j));
}

/// Every proper, nonempty suffix of a written expression closes more lists than it
/// opens, while the whole has depth zero.
proof fn lemma_proper_suffix_dips(e: Expr, k: int)
    requires
        1 <= k < expr_toks(e).len(),
    ensures
        depth(expr_toks(e).skip(k)) < 0,
{
    let t = expr_toks(e);
    if let Expr::List(items) = e {
        let st = seq_toks(items@);
        assert(t == seq![Tok::Open] + st + seq![Tok::Close]);
        let suf = t.skip(k);
        assert(suf =~= st.skip(k - 1) + seq![Tok::Close]);
        lemma_suffix_depth(items@, k - 1);
        lemma_depth_concat(st.skip(k - 1), seq![Tok::Close]);
        let c = seq![Tok::Close];
        assert(c.drop_last() =~= seq![]);
        assert(depth(c.drop_last()) == 0);
        assert(c.last() == Tok::Close);
        assert(depth(c) == -1);
    }
}

/// When two written sequences of expressions end the same token sequence, their
/// last expressions are written with the same tokens.
proof fn lemma_same_last(pre1: Seq<Expr>, x1: Expr, pre2: Seq<Expr>, x2: Expr)
    requires
        seq_toks(pre1) + expr_toks(x1) == seq_toks(pre2) + expr_toks(x2),
    ensures
        expr_toks(x1) == expr_toks(x2),
        seq_toks(pre1) == seq_toks(pre2),
{
    let t = seq_toks(pre1) + expr_toks(x1);
    let e1 = expr_toks(x1);
    let e2 = expr_toks(x2);
    lemma_expr_balanced(x1);
    lemma_expr_balanced(x2);
    lemma_expr_toks_nonempty(x1);
    lemma_expr_toks_nonempty(x2);
    if e1.len() < e2.len() {
        let k = e2.len() - e1.len();
        assert(e2.skip(k) =~= t.skip(t.len() - e1.len()));
        assert(e1 =~= t.skip(t.len() - e1.len()));
        lemma_proper_suffix_dips(x2, k);
    } else if e2.len() < e1.len() {
        let k = e1.len() - e2.len();
        assert(e1.skip(k) =~= t.skip(t.len() - e2.len()));
        assert(e2 =~= t.skip(t.len() - e2.len()));
        lemma_proper_suffix_dips(x1, k);
    }
    assert(e1 =~= t.skip(t.len() - e1.len()));
    assert(e2 =~= t.skip(t.len() - e2.len()));
    assert(seq_toks(pre1) =~= t.take(t.len() - e1.len()));
    assert(seq_toks(pre2) =~= t.take(t.len() - e2.len()));
}

proof fn lemma_seq_injective(s1: Seq<Expr>, s2: Seq<Expr>)
    requires
        seq_toks(s1) == seq_toks(s2),
    ensures
        expr_views(s1) == expr_views(s2),
    decreases seq_toks(s1).len(), s1.len(),
{
    if s1.len() == 0 || s2.len() == 0 {
        if s1.len() > 0 {
            lemma_expr_toks_nonempty(s1.last());
        }
        if s2.len() > 0 {
            lemma_expr_toks_nonempty(s2.last());
        }
        assert(expr_views(s1) =~= expr_views(s2));
    } else {
        let pre1 = s1.drop_last();
        let pre2 = s2.drop_last();
        lemma_same_last(pre1, s1.last(), pre2, s2.last());
        lemma_expr_toks_nonempty(s1.last());
        lemma_seq_injective(pre1, pre2);
        lemma_expr_injective(s1.last(), s2.last());
        assert(expr_views(s1) =~= expr_views(pre1).push(s1.last()@));
        assert(expr_views(s2) =~= expr_views(pre2).push(s2.last()@));
    }
}

proof fn lemma_expr_injective(x1: Expr, x2: Expr)
    requires
        expr_toks(x1) == expr_toks(x2),
    ensures
        x1@ == x2@,
    decreases expr_toks(x1).len(), 0nat,
{
    lemma_expr_toks_nonempty(x1);
    lemma_expr_toks_nonempty(x2);
    if let Expr::List(i1) = x1 {
        if let Expr::List(i2) = x2 {
            let t1 = expr_toks(x1);
            assert(seq_toks(i1@) =~= t1.subrange(1, t1.len() - 1));
            assert(seq_toks(i2@) =~= t1.subrange(1, t1.len() - 1));
            lemma_seq_injective(i1@, i2@);
            lemma_list_view(x1);
            lemma_list_view(x2);
            let v1 = x1@->List_0;
            let v2 = x2@->List_0;
            assert(expr_views(i1@).len() == i1@.len());
            assert(expr_views(i2@).len() == i2@.len());
            assert(v1.len() == v2.len());
            assert forall|i: int| 0 <= i < v1.len() implies v1[i] == v2[i] by {
                assert(expr_views(i1@)[i] == i1@[i]@);
                assert(expr_views(i2@)[i] == i2@[i]@);
            }
            assert(v1 =~= v2);
        } else {
            assert(expr_toks(x1)[0] == Tok::Open);
        }
    } else if let Expr::List(_) = x2 {
        assert(expr_toks(x2)[0] == Tok::Open);
    } else {
        assert(expr_toks(x1)[0] == expr_toks(x2)[0]);
    }
}

/// Writing expressions out as tokens loses nothing: two sequences of expressions
/// written with the same tokens are the same trees. With `parse`'s contract this
/// makes writing out and parsing back the identity.
pub proof fn law_written_tokens_determine_trees(es1: Seq<Expr>, es2: Seq<Expr>)
    requires
        seq_toks(es1) == seq_toks(es2),
    ensures
        expr_views(es1) == expr_views(es2),
{
    lemma_seq_injective(es1, es2);
}

} // verus!
