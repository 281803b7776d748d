//! What the compiled automata mean: the language of a regular expression,
//! walks through an automaton, and the proof that Thompson's construction
//! accepts exactly the language of the expression.

use vstd::prelude::*;
use crate::regex::Ast;
use crate::regex::StateV;
use crate::regex::TransV;
use crate::regex::sp_leaf;
use crate::regex::sp_compile;
use crate::regex::sp_compile_seq;
use crate::regex::add_state;
use crate::regex::add_trans;
use crate::regex::trans_matches;

verus! {

// ─── The language of an expression ──────────────────────────────────────

/// The edge label of a one-char expression.
pub open spec fn leaf_label(a: Ast) -> Option<TransV> {
    match a {
        Ast::Char(c) => Some(TransV::Char(c)),
        Ast::Wildcard => Some(TransV::Wildcard),
        Ast::Digit => Some(TransV::Digit),
        Ast::Alphanumeric => Some(TransV::Alphanumeric),
        Ast::Whitespace => Some(TransV::Whitespace),
        Ast::NonDigit => Some(TransV::NonDigit),
        Ast::NonAlphanumeric => Some(TransV::NonAlphanumeric),
        Ast::NonWhitespace => Some(TransV::NonWhitespace),
        Ast::Class(cs, rs, neg) => Some(TransV::Class(cs, rs, neg)),
        _ => None,
    }
}

/// Whether the expression `a` matches the whole of `w`.
pub open spec fn lang(a: Ast, w: Seq<char>) -> bool
    decreases a, w.len(), 1nat,
{
    match a {
        Ast::Concat(es) => seq_lang(es, 0, w),
        Ast::Alternate(x, y) => lang(*x, w) || lang(*y, w),
        Ast::ZeroOrMore(x) => star_lang(*x, w),
        Ast::OneOrMore(x) => exists|k: int| 0 <= k <= w.len() && lang(*x, w.take(k)) && star_lang(*x, w.skip(k)),
        Ast::ZeroOrOne(x) => w.len() == 0 || lang(*x, w),
        _ => match leaf_label(a) {
            Some(t) => w.len() == 1 && trans_matches(t, w[0]),
            None => false,
        },
    }
}

/// Whether the expressions `es[i..]`, one after another, match `w`.
pub open spec fn seq_lang(es: Seq<Ast>, i: int, w: Seq<char>) -> bool
    decreases es, es.len() - i, 0nat,
{
    if i < 0 || i >= es.len() {
        w.len() == 0
    } else {
        exists|k: int| 0 <= k <= w.len() && lang(es[i], w.take(k)) && seq_lang(es, i + 1, w.skip(k))
    }
}

/// Whether `w` is made of pieces that `x` matches.
pub open spec fn star_lang(x: Ast, w: Seq<char>) -> bool
    decreases x, w.len(), 2nat,
{
    w.len() == 0 || exists|k: int| 1 <= k <= w.len() && lang(x, w.take(k)) && star_lang(x, w.skip(k))
}

// ─── Walks through an automaton ─────────────────────────────────────────

/// The edge `k` of state `x`.
pub open spec fn edge(st: Seq<StateV>, x: usize, k: int) -> (TransV, usize) {
    st[x as int].1[k]
}

/// Following the edges `es` (by their index in each state's list) from
/// `p` reads `w` and ends in `q`: an epsilon edge reads nothing, any other
/// edge reads one char that it can take.
pub open spec fn walk(st: Seq<StateV>, p: usize, es: Seq<int>, w: Seq<char>, q: usize) -> bool
    decreases es.len(),
{
    if es.len() == 0 {
        p == q && w.len() == 0
    } else {
        &&& p < st.len()
        &&& 0 <= es[0] < st[p as int].1.len()
        &&& if edge(st, p, es[0]).0 is Epsilon {
            walk(st, edge(st, p, es[0]).1, es.drop_first(), w, q)
        } else {
            &&& w.len() > 0
            &&& trans_matches(edge(st, p, es[0]).0, w[0])
            &&& walk(st, edge(st, p, es[0]).1, es.drop_first(), w.drop_first(), q)
        }
    }
}

/// The states a walk leaves from, in order.
pub open spec fn sources(st: Seq<StateV>, p: usize, es: Seq<int>) -> Seq<usize>
    decreases es.len(),
{
    if es.len() == 0 {
        Seq::empty()
    } else {
        seq![p] + sources(st, edge(st, p, es[0]).1, es.drop_first())
    }
}

proof fn lemma_sources_len(st: Seq<StateV>, p: usize, es: Seq<int>)
    ensures
        sources(st, p, es).len() == es.len(),
    decreases es.len(),
{
    if es.len() > 0 {
        lemma_sources_len(st, edge(st, p, es[0]).1, es.drop_first());
    }
}

/// `big` keeps the states of `st` and every edge of each, in order, and
/// may add states and edges after them.
pub open spec fn extends(st: Seq<StateV>, big: Seq<StateV>) -> bool {
    &&& big.len() >= st.len()
    &&& forall|x: int| #![trigger st[x]] 0 <= x < st.len() ==> big[x].1.len() >= st[x].1.len()
    &&& forall|x: int, k: int|
        #![trigger st[x].1[k]]
        0 <= x < st.len() && 0 <= k < st[x].1.len() ==> big[x].1[k] == st[x].1[k]
}

pub(crate) proof fn lemma_walk_concat(
    st: Seq<StateV>,
    p: usize,
    es1: Seq<int>,
    w1: Seq<char>,
    m: usize,
    es2: Seq<int>,
    w2: Seq<char>,
    q: usize,
)
    requires
        walk(st, p, es1, w1, m),
        walk(st, m, es2, w2, q),
    ensures
        walk(st, p, es1 + es2, w1 + w2, q),
    decreases es1.len(),
{
    if es1.len() == 0 {
        assert(es1 + es2 =~= es2);
        assert(w1 + w2 =~= w2);
    } else {
        let e = edge(st, p, es1[0]);
        assert((es1 + es2).drop_first() =~= es1.drop_first() + es2);
        assert((es1 + es2)[0] == es1[0]);
        if e.0 is Epsilon {
            lemma_walk_concat(st, e.1, es1.drop_first(), w1, m, es2, w2, q);
        } else {
            lemma_walk_concat(st, e.1, es1.drop_first(), w1.drop_first(), m, es2, w2, q);
            assert((w1 + w2).drop_first() =~= w1.drop_first() + w2);
            assert((w1 + w2)[0] == w1[0]);
        }
    }
}

/// A walk in `st` is a walk in any automaton that extends it.
proof fn lemma_walk_extends(st: Seq<StateV>, big: Seq<StateV>, p: usize, es: Seq<int>, w: Seq<char>, q: usize)
    requires
        walk(st, p, es, w, q),
        extends(st, big),
    ensures
        walk(big, p, es, w, q),
    decreases es.len(),
{
    if es.len() > 0 {
        assert(big[p as int].1[es[0]] == st[p as int].1[es[0]]);
        let e = edge(st, p, es[0]);
        if e.0 is Epsilon {
            lemma_walk_extends(st, big, e.1, es.drop_first(), w, q);
        } else {
            lemma_walk_extends(st, big, e.1, es.drop_first(), w.drop_first(), q);
        }
    }
}

/// A walk in `big` that only leaves from states where `big` and `st`
/// agree is a walk in `st`.
proof fn lemma_walk_restrict(st: Seq<StateV>, big: Seq<StateV>, p: usize, es: Seq<int>, w: Seq<char>, q: usize)
    requires
        walk(big, p, es, w, q),
        forall|j: int|
            0 <= j < es.len() ==> (#[trigger] sources(big, p, es)[j]) < st.len() && big[sources(big, p, es)[j] as int]
                == st[sources(big, p, es)[j] as int],
    ensures
        walk(st, p, es, w, q),
        sources(st, p, es) == sources(big, p, es),
    decreases es.len(),
{
    if es.len() > 0 {
        let src = sources(big, p, es);
        assert(src[0] == p);
        assert(big[p as int] == st[p as int]);
        let e = edge(big, p, es[0]);
        let rest = sources(big, e.1, es.drop_first());
        lemma_sources_len(big, p, es);
        lemma_sources_len(big, e.1, es.drop_first());
        assert(src =~= seq![p] + rest);
        assert forall|j: int| 0 <= j < es.drop_first().len() implies (#[trigger] rest[j]) < st.len() && big[rest[j] as int]
            == st[rest[j] as int] by {
            assert(rest[j] == src[j + 1]);
        }
        if e.0 is Epsilon {
            lemma_walk_restrict(st, big, e.1, es.drop_first(), w, q);
        } else {
            lemma_walk_restrict(st, big, e.1, es.drop_first(), w.drop_first(), q);
        }
    }
}

/// Every edge out of the states `lo..hi` other than `g` stays in `lo..hi`.
pub open spec fn closed_range(st: Seq<StateV>, lo: int, hi: int, g: usize) -> bool {
    &&& hi <= st.len()
    &&& forall|x: int, k: int|
        #![trigger st[x].1[k]]
        lo <= x < hi && x != g && 0 <= k < st[x].1.len() ==> lo <= st[x].1[k].1 < hi
}

/// A walk that starts in a closed range and ends outside it, or at `g`,
/// first arrives at `g` after leaving only from states of the range other
/// than `g`: it splits there.
proof fn lemma_first_arrival(
    st: Seq<StateV>,
    p: usize,
    es: Seq<int>,
    w: Seq<char>,
    q: usize,
    lo: int,
    hi: int,
    g: usize,
) -> (r: (int, int))
    requires
        walk(st, p, es, w, q),
        lo <= p < hi,
        lo <= g < hi,
        !(lo <= q < hi) || q == g,
        closed_range(st, lo, hi, g),
    ensures
        0 <= r.0 <= es.len(),
        0 <= r.1 <= w.len(),
        walk(st, p, es.take(r.0), w.take(r.1), g),
        walk(st, g, es.skip(r.0), w.skip(r.1), q),
        forall|j: int|
            0 <= j < r.0 ==> lo <= #[trigger] sources(st, p, es.take(r.0))[j] < hi && sources(st, p, es.take(r.0))[j]
                != g,
    decreases es.len(),
{
    if p == g {
        assert(es.take(0) =~= Seq::<int>::empty());
        assert(w.take(0) =~= Seq::<char>::empty());
        assert(es.skip(0) =~= es);
        assert(w.skip(0) =~= w);
        (0, 0)
    } else {
        assert(es.len() > 0);
        let e = edge(st, p, es[0]);
        assert(st[p as int].1[es[0]] == e);
        assert(lo <= e.1 < hi);
        let rest = es.drop_first();
        let wr = if e.0 is Epsilon {
            w
        } else {
            w.drop_first()
        };
        let r = lemma_first_arrival(st, e.1, rest, wr, q, lo, hi, g);
        let d: int = if e.0 is Epsilon {
            0
        } else {
            1
        };
        let j = r.0 + 1;
        let n = r.1 + d;
        assert(es.take(j).drop_first() =~= rest.take(r.0));
        assert(es.take(j)[0] == es[0]);
        assert(es.skip(j) =~= rest.skip(r.0));
        if d == 1 {
            assert(w.take(n).drop_first() =~= wr.take(r.1));
            assert(w.take(n)[0] == w[0]);
            assert(w.skip(n) =~= wr.skip(r.1));
        } else {
            assert(w.take(n) =~= wr.take(r.1));
            assert(w.skip(n) =~= wr.skip(r.1));
        }
        let sp = sources(st, p, es.take(j));
        let sr = sources(st, e.1, rest.take(r.0));
        lemma_sources_len(st, e.1, rest.take(r.0));
        assert(sp =~= seq![p] + sr);
        assert forall|i: int| 0 <= i < j implies lo <= #[trigger] sp[i] < hi && sp[i] != g by {
            if i > 0 {
                assert(sp[i] == sr[i - 1]);
            }
        }
        (j, n)
    }
}

// ─── Fragments ──────────────────────────────────────────────────────────

/// `st1` is `st0` with a fragment added: new states only, with start `s`
/// and accepting state `f`; the old states are unchanged, the edges of the
/// new states other than `f` stay among them, and `f` has no edges.
pub open spec fn fragment(st0: Seq<StateV>, st1: Seq<StateV>, s: int, f: int) -> bool {
    &&& st1.len() >= st0.len() + 2
    &&& st0.len() <= s < st1.len()
    &&& st0.len() <= f < st1.len()
    &&& s != f
    &&& forall|x: int| #![trigger st1[x]] 0 <= x < st0.len() ==> st1[x] == st0[x]
    &&& closed_range(st1, st0.len() as int, st1.len() as int, f as usize)
    &&& st1[f].1.len() == 0
}

/// The walks of `st` from `s` to `f` read exactly the words `a` matches.
pub open spec fn accepts_exactly(a: Ast, st: Seq<StateV>, s: int, f: int) -> bool {
    &&& forall|es: Seq<int>, w: Seq<char>| #[trigger] walk(st, s as usize, es, w, f as usize) ==> lang(a, w)
    &&& forall|w: Seq<char>| #[trigger] lang(a, w) ==> exists|es: Seq<int>| #[trigger] walk(st, s as usize, es, w, f as usize)
}

/// What one edge labelled `t` reads.
pub open spec fn one_edge_reads(t: TransV, w: Seq<char>) -> bool {
    if t is Epsilon {
        w.len() == 0
    } else {
        w.len() == 1 && trans_matches(t, w[0])
    }
}

/// A state without edges ends every walk from it.
proof fn lemma_walk_stuck(st: Seq<StateV>, q: usize, es: Seq<int>, w: Seq<char>, r: usize)
    requires
        walk(st, q, es, w, r),
        q < st.len(),
        st[q as int].1.len() == 0,
    ensures
        es.len() == 0,
        w.len() == 0,
        r == q,
{
}

/// The fragment of a one-edge expression.
proof fn lemma_leaf(a: Ast, st0: Seq<StateV>, t: TransV)
    requires
        st0.len() + 2 <= usize::MAX,
        forall|w: Seq<char>| #[trigger] lang(a, w) == one_edge_reads(t, w),
    ensures
        fragment(st0, sp_leaf(st0, t).0, sp_leaf(st0, t).1, sp_leaf(st0, t).2),
        accepts_exactly(a, sp_leaf(st0, t).0, sp_leaf(st0, t).1, sp_leaf(st0, t).2),
{
    let c = sp_leaf(st0, t);
    let st1 = c.0;
    let l = st0.len() as int;
    assert(st1.len() == l + 2);
    assert(st1[l].1 =~= seq![(t, (l + 1) as usize)]);
    assert(st1[l + 1].1 =~= Seq::<(TransV, usize)>::empty());
    assert forall|x: int| #![trigger st1[x]] 0 <= x < st0.len() implies st1[x] == st0[x] by {}
    assert forall|es: Seq<int>, w: Seq<char>| #[trigger] walk(st1, l as usize, es, w, (l + 1) as usize) implies lang(a, w) by {
        assert(es.len() > 0);
        assert(es[0] == 0);
        if t is Epsilon {
            lemma_walk_stuck(st1, (l + 1) as usize, es.drop_first(), w, (l + 1) as usize);
        } else {
            lemma_walk_stuck(st1, (l + 1) as usize, es.drop_first(), w.drop_first(), (l + 1) as usize);
        }
    }
    assert forall|w: Seq<char>| #[trigger] lang(a, w) implies exists|es: Seq<int>| #[trigger] walk(st1, l as usize, es, w, (l + 1) as usize) by {
        let es = seq![0int];
        assert(es.drop_first() =~= Seq::<int>::empty());
        assert(edge(st1, l as usize, 0) == (t, (l + 1) as usize));
        if !(t is Epsilon) {
            assert(w.drop_first() =~= Seq::<char>::empty());
            assert(walk(st1, (l + 1) as usize, es.drop_first(), w.drop_first(), (l + 1) as usize));
        } else {
            assert(walk(st1, (l + 1) as usize, es.drop_first(), w, (l + 1) as usize));
        }
        assert(walk(st1, l as usize, es, w, (l + 1) as usize));
    }
}

/// An epsilon edge is a walk that reads nothing.
pub(crate) proof fn lemma_eps_step(st: Seq<StateV>, p: usize, k: int, q: usize)
    requires
        p < st.len(),
        0 <= k < st[p as int].1.len(),
        st[p as int].1[k] == (TransV::Epsilon, q),
    ensures
        walk(st, p, seq![k], Seq::empty(), q),
{
    assert(seq![k].drop_first() =~= Seq::<int>::empty());
    assert(walk(st, q, seq![k].drop_first(), Seq::<char>::empty(), q));
}

/// An epsilon edge, then a walk, then an epsilon edge.
proof fn lemma_eps_walk_eps(
    st: Seq<StateV>,
    p: usize,
    k1: int,
    m: usize,
    es: Seq<int>,
    w: Seq<char>,
    n: usize,
    k2: int,
    q: usize,
)
    requires
        p < st.len(),
        0 <= k1 < st[p as int].1.len(),
        st[p as int].1[k1] == (TransV::Epsilon, m),
        walk(st, m, es, w, n),
        n < st.len(),
        0 <= k2 < st[n as int].1.len(),
        st[n as int].1[k2] == (TransV::Epsilon, q),
    ensures
        walk(st, p, seq![k1] + es + seq![k2], w, q),
{
    lemma_eps_step(st, p, k1, m);
    lemma_eps_step(st, n, k2, q);
    lemma_walk_concat(st, p, seq![k1], Seq::empty(), m, es, w, n);
    lemma_walk_concat(st, p, seq![k1] + es, Seq::<char>::empty() + w, n, seq![k2], Seq::empty(), q);
    assert(Seq::<char>::empty() + w + Seq::<char>::empty() =~= w);
}

/// A walk that leaves `p` by its epsilon edge `k` continues from the edge's
/// target.
proof fn lemma_walk_eps_first(st: Seq<StateV>, p: usize, es: Seq<int>, w: Seq<char>, r: usize)
    requires
        walk(st, p, es, w, r),
        es.len() > 0,
        edge(st, p, es[0]).0 is Epsilon,
    ensures
        walk(st, edge(st, p, es[0]).1, es.drop_first(), w, r),
{
}

/// Walking from a subfragment's start to the fragment's end through the
/// subfragment's accepting state `g`, whose one edge leads to `f`, which
/// has none: the word is one the subfragment's walks read.
proof fn lemma_through_sub(
    st: Seq<StateV>,
    sub: Seq<StateV>,
    a: Ast,
    sx: usize,
    es: Seq<int>,
    w: Seq<char>,
    f: usize,
    lo: int,
    hi: int,
    g: usize,
)
    requires
        walk(st, sx, es, w, f),
        lo <= sx < hi,
        lo <= g < hi,
        !(lo <= f < hi),
        hi <= sub.len(),
        hi <= st.len(),
        f < st.len(),
        closed_range(sub, lo, hi, g),
        forall|z: int| #![trigger st[z]] lo <= z < hi && z != g ==> st[z] == sub[z],
        st[g as int].1 == seq![(TransV::Epsilon, f)],
        st[f as int].1.len() == 0,
        accepts_exactly(a, sub, sx as int, g as int),
    ensures
        lang(a, w),
{
    assert(closed_range(st, lo, hi, g)) by {
        assert forall|x: int, k: int|
            #![trigger st[x].1[k]]
            lo <= x < hi && x != g && 0 <= k < st[x].1.len() implies lo <= st[x].1[k].1 < hi by {
            assert(st[x] == sub[x]);
            assert(sub[x].1[k] == st[x].1[k]);
        }
    }
    let r = lemma_first_arrival(st, sx, es, w, f, lo, hi, g);
    let pre = es.take(r.0);
    let w1 = w.take(r.1);
    lemma_sources_len(st, sx, pre);
    assert forall|j: int| 0 <= j < pre.len() implies (#[trigger] sources(st, sx, pre)[j]) < sub.len() && st[sources(
        st,
        sx,
        pre,
    )[j] as int] == sub[sources(st, sx, pre)[j] as int] by {
        let z = sources(st, sx, pre)[j] as int;
        assert(st[z] == sub[z]);
    }
    lemma_walk_restrict(sub, st, sx, pre, w1, g);
    assert(walk(sub, (sx as int) as usize, pre, w1, (g as int) as usize));
    assert(lang(a, w1));
    let post = es.skip(r.0);
    let w2 = w.skip(r.1);
    assert(post.len() > 0);
    assert(post[0] == 0);
    assert(edge(st, g, post[0]) == (TransV::Epsilon, f));
    lemma_walk_eps_first(st, g, post, w2, f);
    lemma_walk_stuck(st, f, post.drop_first(), w2, f);
    assert(w.take(r.1) =~= w);
}

/// A walk of a subfragment, as part of the fragment.
proof fn lemma_sub_walk(
    st: Seq<StateV>,
    sub: Seq<StateV>,
    a: Ast,
    sx: usize,
    g: usize,
    w: Seq<char>,
) -> (es: Seq<int>)
    requires
        accepts_exactly(a, sub, sx as int, g as int),
        lang(a, w),
        extends(sub, st),
    ensures
        walk(st, sx, es, w, g),
{
    assert(exists|es: Seq<int>| #[trigger] walk(sub, (sx as int) as usize, es, w, (g as int) as usize));
    let es = choose|es: Seq<int>| #[trigger] walk(sub, sx, es, w, g);
    lemma_walk_extends(sub, st, sx, es, w, g);
    es
}

/// Thompson's construction for `x|y` is right, given that it is for `x`
/// and `y`.
proof fn lemma_alternate(x: Box<Ast>, y: Box<Ast>, st0: Seq<StateV>)
    requires
        ({
            let base = add_state(add_state(st0));
            let fx = sp_compile(*x, base);
            let fy = sp_compile(*y, fx.0);
            &&& fragment(base, fx.0, fx.1, fx.2)
            &&& accepts_exactly(*x, fx.0, fx.1, fx.2)
            &&& fragment(fx.0, fy.0, fy.1, fy.2)
            &&& accepts_exactly(*y, fy.0, fy.1, fy.2)
            &&& fy.0.len() <= usize::MAX
        }),
    ensures
        fragment(
            st0,
            sp_compile(Ast::Alternate(x, y), st0).0,
            sp_compile(Ast::Alternate(x, y), st0).1,
            sp_compile(Ast::Alternate(x, y), st0).2,
        ),
        accepts_exactly(
            Ast::Alternate(x, y),
            sp_compile(Ast::Alternate(x, y), st0).0,
            sp_compile(Ast::Alternate(x, y), st0).1,
            sp_compile(Ast::Alternate(x, y), st0).2,
        ),
{
    let a = Ast::Alternate(x, y);
    let l = st0.len() as int;
    let base = add_state(add_state(st0));
    let fx = sp_compile(*x, base);
    let fy = sp_compile(*y, fx.0);
    let xs = fx.0;
    let ys = fy.0;
    let sx = fx.1;
    let gx = fx.2;
    let sy = fy.1;
    let gy = fy.2;
    let t1 = add_trans(ys, l, TransV::Epsilon, sx);
    let t2 = add_trans(t1, l, TransV::Epsilon, sy);
    let t3 = add_trans(t2, gx, TransV::Epsilon, l + 1);
    let st1 = add_trans(t3, gy, TransV::Epsilon, l + 1);
    assert(sp_compile(a, st0) == (st1, l, l + 1));
    assert(base.len() == l + 2);
    assert(base[l].1.len() == 0 && base[l + 1].1.len() == 0);
    assert(xs[l] == base[l] && xs[l + 1] == base[l + 1]);
    assert(ys[l] == xs[l] && ys[l + 1] == xs[l + 1] && ys[gx] == xs[gx]);
    assert(st1.len() == ys.len());
    assert(st1[l].1 =~= seq![(TransV::Epsilon, sx as usize), (TransV::Epsilon, sy as usize)]);
    assert(st1[l + 1].1 =~= Seq::<(TransV, usize)>::empty());
    assert(st1[gx].1 =~= seq![(TransV::Epsilon, (l + 1) as usize)]);
    assert(st1[gy].1 =~= seq![(TransV::Epsilon, (l + 1) as usize)]);
    assert forall|z: int| #![trigger st1[z]] l + 2 <= z < xs.len() && z != gx implies st1[z] == xs[z] by {
        assert(ys[z] == xs[z]);
    }
    assert forall|z: int| #![trigger st1[z]] xs.len() <= z < ys.len() && z != gy implies st1[z] == ys[z] by {}
    assert forall|z: int| #![trigger st1[z]] 0 <= z < l implies st1[z] == st0[z] by {
        assert(ys[z] == xs[z] && xs[z] == base[z]);
    }
    assert(fragment(st0, st1, l, l + 1)) by {
        assert forall|z: int, k: int|
            #![trigger st1[z].1[k]]
            l <= z < st1.len() && z != l + 1 && 0 <= k < st1[z].1.len() implies l <= st1[z].1[k].1 < st1.len() by {
            if z == l {
            } else if z == gx || z == gy {
            } else if z < xs.len() {
                assert(st1[z] == xs[z]);
                assert(xs[z].1[k] == st1[z].1[k]);
            } else {
                assert(st1[z] == ys[z]);
                assert(ys[z].1[k] == st1[z].1[k]);
            }
        }
    }
    assert forall|es: Seq<int>, w: Seq<char>| #[trigger] walk(st1, l as usize, es, w, (l + 1) as usize) implies lang(
        a,
        w,
    ) by {
        assert(es.len() > 0);
        let e = edge(st1, l as usize, es[0]);
        lemma_walk_eps_first(st1, l as usize, es, w, (l + 1) as usize);
        if es[0] == 0 {
            assert(e.1 == sx as usize);
            assert forall|z: int| #![trigger st1[z]] l + 2 <= z < xs.len() && z != gx implies st1[z] == xs[z] by {}
            lemma_through_sub(
                st1,
                xs,
                *x,
                sx as usize,
                es.drop_first(),
                w,
                (l + 1) as usize,
                l + 2,
                xs.len() as int,
                gx as usize,
            );
        } else {
            assert(e.1 == sy as usize);
            lemma_through_sub(
                st1,
                ys,
                *y,
                sy as usize,
                es.drop_first(),
                w,
                (l + 1) as usize,
                xs.len() as int,
                ys.len() as int,
                gy as usize,
            );
        }
    }
    assert forall|w: Seq<char>| #[trigger] lang(a, w) implies exists|es: Seq<int>|
        #[trigger] walk(st1, l as usize, es, w, (l + 1) as usize) by {
        assert(extends(xs, st1)) by {
            assert forall|z: int, k: int|
                #![trigger xs[z].1[k]]
                0 <= z < xs.len() && 0 <= k < xs[z].1.len() implies st1[z].1[k] == xs[z].1[k] by {
                if z != l && z != gx && z != l + 1 {
                    if z < l {
                        assert(st1[z] == st0[z] && xs[z] == base[z]);
                    } else {
                        assert(st1[z] == xs[z]);
                    }
                }
            }
            assert forall|z: int| #![trigger xs[z]] 0 <= z < xs.len() implies st1[z].1.len() >= xs[z].1.len() by {
                if z != l && z != gx && z != l + 1 {
                    if z < l {
                        assert(st1[z] == st0[z] && xs[z] == base[z]);
                    } else {
                        assert(st1[z] == xs[z]);
                    }
                }
            }
        }
        assert(extends(ys, st1)) by {
            assert forall|z: int, k: int|
                #![trigger ys[z].1[k]]
                0 <= z < ys.len() && 0 <= k < ys[z].1.len() implies st1[z].1[k] == ys[z].1[k] by {
                if z != l && z != gx && z != gy && z != l + 1 {
                    if z < l {
                        assert(st1[z] == st0[z] && ys[z] == xs[z] && xs[z] == base[z]);
                    } else if z < xs.len() {
                        assert(st1[z] == xs[z] && ys[z] == xs[z]);
                    } else {
                        assert(st1[z] == ys[z]);
                    }
                }
            }
            assert forall|z: int| #![trigger ys[z]] 0 <= z < ys.len() implies st1[z].1.len() >= ys[z].1.len() by {
                if z != l && z != gx && z != gy && z != l + 1 {
                    if z < l {
                        assert(st1[z] == st0[z] && ys[z] == xs[z] && xs[z] == base[z]);
                    } else if z < xs.len() {
                        assert(st1[z] == xs[z] && ys[z] == xs[z]);
                    } else {
                        assert(st1[z] == ys[z]);
                    }
                }
            }
        }
        if lang(*x, w) {
            let es = lemma_sub_walk(st1, xs, *x, sx as usize, gx as usize, w);
            lemma_eps_walk_eps(st1, l as usize, 0, sx as usize, es, w, gx as usize, 0, (l + 1) as usize);
        } else {
            let es = lemma_sub_walk(st1, ys, *y, sy as usize, gy as usize, w);
            lemma_eps_walk_eps(st1, l as usize, 1, sy as usize, es, w, gy as usize, 0, (l + 1) as usize);
        }
    }
}

/// A walk from a subfragment's start that ends outside the subfragment
/// first reaches the subfragment's accepting state `g` after reading a word
/// of the subexpression; it goes on from `g` with fewer edges.
proof fn lemma_split_sub(
    st: Seq<StateV>,
    sub: Seq<StateV>,
    a: Ast,
    sx: usize,
    es: Seq<int>,
    w: Seq<char>,
    f: usize,
    lo: int,
    hi: int,
    g: usize,
) -> (r: (int, int))
    requires
        walk(st, sx, es, w, f),
        lo <= sx < hi,
        lo <= g < hi,
        sx != g,
        !(lo <= f < hi),
        hi <= sub.len(),
        hi <= st.len(),
        closed_range(sub, lo, hi, g),
        forall|z: int| #![trigger st[z]] lo <= z < hi && z != g ==> st[z] == sub[z],
        accepts_exactly(a, sub, sx as int, g as int),
    ensures
        1 <= r.0 <= es.len(),
        0 <= r.1 <= w.len(),
        lang(a, w.take(r.1)),
        walk(st, g, es.skip(r.0), w.skip(r.1), f),
{
    assert(closed_range(st, lo, hi, g)) by {
        assert forall|x: int, k: int|
            #![trigger st[x].1[k]]
            lo <= x < hi && x != g && 0 <= k < st[x].1.len() implies lo <= st[x].1[k].1 < hi by {
            assert(st[x] == sub[x]);
            assert(sub[x].1[k] == st[x].1[k]);
        }
    }
    let r = lemma_first_arrival(st, sx, es, w, f, lo, hi, g);
    let pre = es.take(r.0);
    let w1 = w.take(r.1);
    lemma_sources_len(st, sx, pre);
    assert forall|j: int| 0 <= j < pre.len() implies (#[trigger] sources(st, sx, pre)[j]) < sub.len() && st[sources(
        st,
        sx,
        pre,
    )[j] as int] == sub[sources(st, sx, pre)[j] as int] by {
        let z = sources(st, sx, pre)[j] as int;
        assert(st[z] == sub[z]);
    }
    lemma_walk_restrict(sub, st, sx, pre, w1, g);
    assert(walk(sub, (sx as int) as usize, pre, w1, (g as int) as usize));
    if r.0 == 0 {
        assert(pre =~= Seq::<int>::empty());
    }
    r
}

/// A word of `x` followed by a sequence of words of `x` is a sequence of
/// words of `x`.
proof fn lemma_star_cons(x: Ast, w1: Seq<char>, w2: Seq<char>)
    requires
        lang(x, w1),
        star_lang(x, w2),
    ensures
        star_lang(x, w1 + w2),
{
    let w = w1 + w2;
    if w1.len() == 0 {
        assert(w =~= w2);
    } else {
        let k = w1.len() as int;
        assert(w.take(k) =~= w1);
        assert(w.skip(k) =~= w2);
    }
}

/// The loop of a star: the state `g` may go back to the start `sx` of the
/// subfragment or on to `f`.
pub open spec fn loop_setting(
    st: Seq<StateV>,
    sub: Seq<StateV>,
    x: Ast,
    sx: usize,
    g: usize,
    f: usize,
    lo: int,
    hi: int,
) -> bool {
    &&& accepts_exactly(x, sub, sx as int, g as int)
    &&& lo <= sx < hi
    &&& lo <= g < hi
    &&& sx != g
    &&& !(lo <= f < hi)
    &&& hi <= sub.len()
    &&& hi <= st.len()
    &&& f < st.len()
    &&& closed_range(sub, lo, hi, g)
    &&& forall|z: int| #![trigger st[z]] lo <= z < hi && z != g ==> st[z] == sub[z]
    &&& st[g as int].1 == seq![(TransV::Epsilon, sx), (TransV::Epsilon, f)]
    &&& st[f as int].1.len() == 0
    &&& extends(sub, st)
}

/// In a loop, every walk from `g` to `f` reads a sequence of words of `x`.
proof fn lemma_loop_sound(
    st: Seq<StateV>,
    sub: Seq<StateV>,
    x: Ast,
    sx: usize,
    g: usize,
    f: usize,
    lo: int,
    hi: int,
    es: Seq<int>,
    w: Seq<char>,
)
    requires
        loop_setting(st, sub, x, sx, g, f, lo, hi),
        walk(st, g, es, w, f),
    ensures
        star_lang(x, w),
    decreases es.len(),
{
    assert(es.len() > 0);
    lemma_walk_eps_first(st, g, es, w, f);
    if es[0] == 1 {
        lemma_walk_stuck(st, f, es.drop_first(), w, f);
    } else {
        let rest = es.drop_first();
        let r = lemma_split_sub(st, sub, x, sx, rest, w, f, lo, hi, g);
        lemma_loop_sound(st, sub, x, sx, g, f, lo, hi, rest.skip(r.0), w.skip(r.1));
        lemma_star_cons(x, w.take(r.1), w.skip(r.1));
        assert(w.take(r.1) + w.skip(r.1) =~= w);
    }
}

/// In a loop, every sequence of words of `x` is read by a walk from `g` to
/// `f`.
proof fn lemma_loop_complete(
    st: Seq<StateV>,
    sub: Seq<StateV>,
    x: Ast,
    sx: usize,
    g: usize,
    f: usize,
    lo: int,
    hi: int,
    w: Seq<char>,
) -> (es: Seq<int>)
    requires
        loop_setting(st, sub, x, sx, g, f, lo, hi),
        star_lang(x, w),
    ensures
        walk(st, g, es, w, f),
    decreases w.len(),
{
    if w.len() == 0 {
        lemma_eps_step(st, g, 1, f);
        assert(w =~= Seq::<char>::empty());
        seq![1int]
    } else {
        let k = choose|k: int| 1 <= k <= w.len() && lang(x, w.take(k)) && star_lang(x, w.skip(k));
        let es1 = lemma_sub_walk(st, sub, x, sx, g, w.take(k));
        let es2 = lemma_loop_complete(st, sub, x, sx, g, f, lo, hi, w.skip(k));
        lemma_eps_step(st, g, 0, sx);
        lemma_walk_concat(st, g, seq![0int], Seq::empty(), sx, es1, w.take(k), g);
        lemma_walk_concat(st, g, seq![0int] + es1, Seq::<char>::empty() + w.take(k), g, es2, w.skip(k), f);
        assert(Seq::<char>::empty() + w.take(k) + w.skip(k) =~= w);
        seq![0int] + es1 + es2
    }
}

/// Thompson's construction for `x*` is right, given that it is for `x`.
proof fn lemma_star(x: Box<Ast>, st0: Seq<StateV>)
    requires
        ({
            let base = add_state(add_state(st0));
            let fx = sp_compile(*x, base);
            &&& fragment(base, fx.0, fx.1, fx.2)
            &&& accepts_exactly(*x, fx.0, fx.1, fx.2)
            &&& fx.0.len() <= usize::MAX
        }),
    ensures
        fragment(st0, sp_compile(Ast::ZeroOrMore(x), st0).0, sp_compile(Ast::ZeroOrMore(x), st0).1, sp_compile(Ast::ZeroOrMore(x), st0).2),
        accepts_exactly(
            Ast::ZeroOrMore(x),
            sp_compile(Ast::ZeroOrMore(x), st0).0,
            sp_compile(Ast::ZeroOrMore(x), st0).1,
            sp_compile(Ast::ZeroOrMore(x), st0).2,
        ),
{
    let a = Ast::ZeroOrMore(x);
    let l = st0.len() as int;
    let base = add_state(add_state(st0));
    let fx = sp_compile(*x, base);
    let xs = fx.0;
    let sx = fx.1;
    let gx = fx.2;
    let t1 = add_trans(xs, l, TransV::Epsilon, sx);
    let t2 = add_trans(t1, l, TransV::Epsilon, l + 1);
    let t3 = add_trans(t2, gx, TransV::Epsilon, sx);
    let st1 = add_trans(t3, gx, TransV::Epsilon, l + 1);
    assert(sp_compile(a, st0) == (st1, l, l + 1));
    assert(base.len() == l + 2);
    assert(base[l].1.len() == 0 && base[l + 1].1.len() == 0);
    assert(xs[l] == base[l] && xs[l + 1] == base[l + 1]);
    assert(st1.len() == xs.len());
    assert(st1[l].1 =~= seq![(TransV::Epsilon, sx as usize), (TransV::Epsilon, (l + 1) as usize)]);
    assert(st1[l + 1].1 =~= Seq::<(TransV, usize)>::empty());
    assert(st1[gx].1 =~= seq![(TransV::Epsilon, sx as usize), (TransV::Epsilon, (l + 1) as usize)]);
    assert forall|z: int| #![trigger st1[z]] l + 2 <= z < xs.len() && z != gx implies st1[z] == xs[z] by {}
    assert forall|z: int| #![trigger st1[z]] 0 <= z < l implies st1[z] == st0[z] by {
        assert(xs[z] == base[z]);
    }
    assert(fragment(st0, st1, l, l + 1)) by {
        assert forall|z: int, k: int|
            #![trigger st1[z].1[k]]
            l <= z < st1.len() && z != l + 1 && 0 <= k < st1[z].1.len() implies l <= st1[z].1[k].1 < st1.len() by {
            if z != l && z != gx {
                assert(st1[z] == xs[z]);
                assert(xs[z].1[k] == st1[z].1[k]);
            }
        }
    }
    assert(extends(xs, st1)) by {
        assert forall|z: int, k: int|
            #![trigger xs[z].1[k]]
            0 <= z < xs.len() && 0 <= k < xs[z].1.len() implies st1[z].1[k] == xs[z].1[k] by {
            if z != l && z != gx && z != l + 1 {
                if z < l {
                    assert(st1[z] == st0[z] && xs[z] == base[z]);
                } else {
                    assert(st1[z] == xs[z]);
                }
            }
        }
        assert forall|z: int| #![trigger xs[z]] 0 <= z < xs.len() implies st1[z].1.len() >= xs[z].1.len() by {
            if z != l && z != gx && z != l + 1 {
                if z < l {
                    assert(st1[z] == st0[z] && xs[z] == base[z]);
                } else {
                    assert(st1[z] == xs[z]);
                }
            }
        }
    }
    let lo = l + 2;
    let hi = xs.len() as int;
    let f = (l + 1) as usize;
    assert forall|es: Seq<int>, w: Seq<char>| #[trigger] walk(st1, l as usize, es, w, (l + 1) as usize) implies lang(
        a,
        w,
    ) by {
        assert(es.len() > 0);
        lemma_walk_eps_first(st1, l as usize, es, w, f);
        if es[0] == 0 {
            let rest = es.drop_first();
            assert(loop_setting(st1, xs, *x, sx as usize, gx as usize, f, lo, hi));
            let r = lemma_split_sub(st1, xs, *x, sx as usize, rest, w, f, lo, hi, gx as usize);
            lemma_loop_sound(st1, xs, *x, sx as usize, gx as usize, f, lo, hi, rest.skip(r.0), w.skip(r.1));
            lemma_star_cons(*x, w.take(r.1), w.skip(r.1));
            assert(w.take(r.1) + w.skip(r.1) =~= w);
            assert(star_lang(*x, w));
        } else {
            lemma_walk_stuck(st1, f, es.drop_first(), w, f);
            assert(star_lang(*x, w));
        }
    }
    assert forall|w: Seq<char>| #[trigger] lang(a, w) implies exists|es: Seq<int>|
        #[trigger] walk(st1, l as usize, es, w, (l + 1) as usize) by {
        if w.len() == 0 {
            lemma_eps_step(st1, l as usize, 1, f);
            assert(w =~= Seq::<char>::empty());
        } else {
            assert(loop_setting(st1, xs, *x, sx as usize, gx as usize, f, lo, hi));
            assert(star_lang(*x, w));
            let k = choose|k: int| 1 <= k <= w.len() && lang(*x, w.take(k)) && star_lang(*x, w.skip(k));
            let es1 = lemma_sub_walk(st1, xs, *x, sx as usize, gx as usize, w.take(k));
            let es2 = lemma_loop_complete(st1, xs, *x, sx as usize, gx as usize, f, lo, hi, w.skip(k));
            lemma_eps_step(st1, l as usize, 0, sx as usize);
            lemma_walk_concat(st1, l as usize, seq![0int], Seq::empty(), sx as usize, es1, w.take(k), gx as usize);
            lemma_walk_concat(st1, l as usize, seq![0int] + es1, Seq::<char>::empty() + w.take(k), gx as usize, es2, w.skip(k), f);
            assert(Seq::<char>::empty() + w.take(k) + w.skip(k) =~= w);
        }
    }
}

/// Thompson's construction for `x+` is right, given that it is for `x`.
proof fn lemma_plus(x: Box<Ast>, st0: Seq<StateV>)
    requires
        ({
            let base = add_state(add_state(st0));
            let fx = sp_compile(*x, base);
            &&& fragment(base, fx.0, fx.1, fx.2)
            &&& accepts_exactly(*x, fx.0, fx.1, fx.2)
            &&& fx.0.len() <= usize::MAX
        }),
    ensures
        fragment(st0, sp_compile(Ast::OneOrMore(x), st0).0, sp_compile(Ast::OneOrMore(x), st0).1, sp_compile(Ast::OneOrMore(x), st0).2),
        accepts_exactly(
            Ast::OneOrMore(x),
            sp_compile(Ast::OneOrMore(x), st0).0,
            sp_compile(Ast::OneOrMore(x), st0).1,
            sp_compile(Ast::OneOrMore(x), st0).2,
        ),
{
    let a = Ast::OneOrMore(x);
    let l = st0.len() as int;
    let base = add_state(add_state(st0));
    let fx = sp_compile(*x, base);
    let xs = fx.0;
    let sx = fx.1;
    let gx = fx.2;
    let t1 = add_trans(xs, l, TransV::Epsilon, sx);
    let t2 = add_trans(t1, gx, TransV::Epsilon, sx);
    let st1 = add_trans(t2, gx, TransV::Epsilon, l + 1);
    assert(sp_compile(a, st0) == (st1, l, l + 1));
    assert(base.len() == l + 2);
    assert(base[l].1.len() == 0 && base[l + 1].1.len() == 0);
    assert(xs[l] == base[l] && xs[l + 1] == base[l + 1]);
    assert(st1.len() == xs.len());
    assert(st1[l].1 =~= seq![(TransV::Epsilon, sx as usize)]);
    assert(st1[l + 1].1 =~= Seq::<(TransV, usize)>::empty());
    assert(st1[gx].1 =~= seq![(TransV::Epsilon, sx as usize), (TransV::Epsilon, (l + 1) as usize)]);
    assert forall|z: int| #![trigger st1[z]] l + 2 <= z < xs.len() && z != gx implies st1[z] == xs[z] by {}
    assert forall|z: int| #![trigger st1[z]] 0 <= z < l implies st1[z] == st0[z] by {
        assert(xs[z] == base[z]);
    }
    assert(fragment(st0, st1, l, l + 1)) by {
        assert forall|z: int, k: int|
            #![trigger st1[z].1[k]]
            l <= z < st1.len() && z != l + 1 && 0 <= k < st1[z].1.len() implies l <= st1[z].1[k].1 < st1.len() by {
            if z != l && z != gx {
                assert(st1[z] == xs[z]);
                assert(xs[z].1[k] == st1[z].1[k]);
            }
        }
    }
    assert(extends(xs, st1)) by {
        assert forall|z: int, k: int|
            #![trigger xs[z].1[k]]
            0 <= z < xs.len() && 0 <= k < xs[z].1.len() implies st1[z].1[k] == xs[z].1[k] by {
            if z != l && z != gx && z != l + 1 {
                if z < l {
                    assert(st1[z] == st0[z] && xs[z] == base[z]);
                } else {
                    assert(st1[z] == xs[z]);
                }
            }
        }
        assert forall|z: int| #![trigger xs[z]] 0 <= z < xs.len() implies st1[z].1.len() >= xs[z].1.len() by {
            if z != l && z != gx && z != l + 1 {
                if z < l {
                    assert(st1[z] == st0[z] && xs[z] == base[z]);
                } else {
                    assert(st1[z] == xs[z]);
                }
            }
        }
    }
    let lo = l + 2;
    let hi = xs.len() as int;
    let f = (l + 1) as usize;
    assert forall|es: Seq<int>, w: Seq<char>| #[trigger] walk(st1, l as usize, es, w, (l + 1) as usize) implies lang(
        a,
        w,
    ) by {
        assert(es.len() > 0);
        lemma_walk_eps_first(st1, l as usize, es, w, f);
        let rest = es.drop_first();
        assert(loop_setting(st1, xs, *x, sx as usize, gx as usize, f, lo, hi));
        let r = lemma_split_sub(st1, xs, *x, sx as usize, rest, w, f, lo, hi, gx as usize);
        lemma_loop_sound(st1, xs, *x, sx as usize, gx as usize, f, lo, hi, rest.skip(r.0), w.skip(r.1));
        assert(lang(*x, w.take(r.1)) && star_lang(*x, w.skip(r.1)));
    }
    assert forall|w: Seq<char>| #[trigger] lang(a, w) implies exists|es: Seq<int>|
        #[trigger] walk(st1, l as usize, es, w, (l + 1) as usize) by {
        assert(loop_setting(st1, xs, *x, sx as usize, gx as usize, f, lo, hi));
        let k = choose|k: int| 0 <= k <= w.len() && lang(*x, w.take(k)) && star_lang(*x, w.skip(k));
        let es1 = lemma_sub_walk(st1, xs, *x, sx as usize, gx as usize, w.take(k));
        let es2 = lemma_loop_complete(st1, xs, *x, sx as usize, gx as usize, f, lo, hi, w.skip(k));
        lemma_eps_step(st1, l as usize, 0, sx as usize);
        lemma_walk_concat(st1, l as usize, seq![0int], Seq::empty(), sx as usize, es1, w.take(k), gx as usize);
        lemma_walk_concat(st1, l as usize, seq![0int] + es1, Seq::<char>::empty() + w.take(k), gx as usize, es2, w.skip(k), f);
        assert(Seq::<char>::empty() + w.take(k) + w.skip(k) =~= w);
    }
}

/// Thompson's construction for `x?` is right, given that it is for `x`.
proof fn lemma_optional(x: Box<Ast>, st0: Seq<StateV>)
    requires
        ({
            let base = add_state(add_state(st0));
            let fx = sp_compile(*x, base);
            &&& fragment(base, fx.0, fx.1, fx.2)
            &&& accepts_exactly(*x, fx.0, fx.1, fx.2)
            &&& fx.0.len() <= usize::MAX
        }),
    ensures
        fragment(st0, sp_compile(Ast::ZeroOrOne(x), st0).0, sp_compile(Ast::ZeroOrOne(x), st0).1, sp_compile(Ast::ZeroOrOne(x), st0).2),
        accepts_exactly(
            Ast::ZeroOrOne(x),
            sp_compile(Ast::ZeroOrOne(x), st0).0,
            sp_compile(Ast::ZeroOrOne(x), st0).1,
            sp_compile(Ast::ZeroOrOne(x), st0).2,
        ),
{
    let a = Ast::ZeroOrOne(x);
    let l = st0.len() as int;
    let base = add_state(add_state(st0));
    let fx = sp_compile(*x, base);
    let xs = fx.0;
    let sx = fx.1;
    let gx = fx.2;
    let t1 = add_trans(xs, l, TransV::Epsilon, sx);
    let t2 = add_trans(t1, l, TransV::Epsilon, l + 1);
    let st1 = add_trans(t2, gx, TransV::Epsilon, l + 1);
    assert(sp_compile(a, st0) == (st1, l, l + 1));
    assert(base.len() == l + 2);
    assert(base[l].1.len() == 0 && base[l + 1].1.len() == 0);
    assert(xs[l] == base[l] && xs[l + 1] == base[l + 1]);
    assert(st1.len() == xs.len());
    assert(st1[l].1 =~= seq![(TransV::Epsilon, sx as usize), (TransV::Epsilon, (l + 1) as usize)]);
    assert(st1[l + 1].1 =~= Seq::<(TransV, usize)>::empty());
    assert(st1[gx].1 =~= seq![(TransV::Epsilon, (l + 1) as usize)]);
    assert forall|z: int| #![trigger st1[z]] l + 2 <= z < xs.len() && z != gx implies st1[z] == xs[z] by {}
    assert forall|z: int| #![trigger st1[z]] 0 <= z < l implies st1[z] == st0[z] by {
        assert(xs[z] == base[z]);
    }
    assert(fragment(st0, st1, l, l + 1)) by {
        assert forall|z: int, k: int|
            #![trigger st1[z].1[k]]
            l <= z < st1.len() && z != l + 1 && 0 <= k < st1[z].1.len() implies l <= st1[z].1[k].1 < st1.len() by {
            if z != l && z != gx {
                assert(st1[z] == xs[z]);
                assert(xs[z].1[k] == st1[z].1[k]);
            }
        }
    }
    assert(extends(xs, st1)) by {
        assert forall|z: int, k: int|
            #![trigger xs[z].1[k]]
            0 <= z < xs.len() && 0 <= k < xs[z].1.len() implies st1[z].1[k] == xs[z].1[k] by {
            if z != l && z != gx && z != l + 1 {
                if z < l {
                    assert(st1[z] == st0[z] && xs[z] == base[z]);
                } else {
                    assert(st1[z] == xs[z]);
                }
            }
        }
        assert forall|z: int| #![trigger xs[z]] 0 <= z < xs.len() implies st1[z].1.len() >= xs[z].1.len() by {
            if z != l && z != gx && z != l + 1 {
                if z < l {
                    assert(st1[z] == st0[z] && xs[z] == base[z]);
                } else {
                    assert(st1[z] == xs[z]);
                }
            }
        }
    }
    let lo = l + 2;
    let hi = xs.len() as int;
    let f = (l + 1) as usize;
    assert forall|es: Seq<int>, w: Seq<char>| #[trigger] walk(st1, l as usize, es, w, (l + 1) as usize) implies lang(
        a,
        w,
    ) by {
        assert(es.len() > 0);
        lemma_walk_eps_first(st1, l as usize, es, w, f);
        if es[0] == 0 {
            lemma_through_sub(st1, xs, *x, sx as usize, es.drop_first(), w, f, lo, hi, gx as usize);
        } else {
            lemma_walk_stuck(st1, f, es.drop_first(), w, f);
        }
    }
    assert forall|w: Seq<char>| #[trigger] lang(a, w) implies exists|es: Seq<int>|
        #[trigger] walk(st1, l as usize, es, w, (l + 1) as usize) by {
        if w.len() == 0 {
            lemma_eps_step(st1, l as usize, 1, f);
            assert(w =~= Seq::<char>::empty());
        } else {
            let es = lemma_sub_walk(st1, xs, *x, sx as usize, gx as usize, w);
            lemma_eps_walk_eps(st1, l as usize, 0, sx as usize, es, w, gx as usize, 0, f);
        }
    }
}

/// Compiling never shrinks the automaton.
proof fn lemma_compile_len(a: Ast, st: Seq<StateV>)
    ensures
        sp_compile(a, st).0.len() >= st.len() + 2,
    decreases a, 0nat,
{
    match a {
        Ast::Concat(es) => {
            if es.len() > 0 {
                lemma_compile_len(es[0], st);
                let first = sp_compile(es[0], st);
                lemma_seq_len(es, 1, first.0, first.2);
            }
        },
        Ast::Alternate(x, y) => {
            let base = add_state(add_state(st));
            lemma_compile_len(*x, base);
            lemma_compile_len(*y, sp_compile(*x, base).0);
        },
        Ast::ZeroOrMore(x) => {
            lemma_compile_len(*x, add_state(add_state(st)));
        },
        Ast::OneOrMore(x) => {
            lemma_compile_len(*x, add_state(add_state(st)));
        },
        Ast::ZeroOrOne(x) => {
            lemma_compile_len(*x, add_state(add_state(st)));
        },
        _ => {},
    }
}

proof fn lemma_seq_len(es: Seq<Ast>, i: int, st: Seq<StateV>, acc: int)
    ensures
        sp_compile_seq(es, i, st, acc).0.len() >= st.len(),
    decreases es, es.len() - i,
{
    if 0 <= i < es.len() {
        lemma_compile_len(es[i], st);
        let f = sp_compile(es[i], st);
        lemma_seq_len(es, i + 1, add_trans(f.0, acc, TransV::Epsilon, f.1), f.2);
    }
}

/// What compiling `es[i..]` after the accepting state `acc` of `st` gives:
/// `acc` gets one epsilon edge into the new states (none when nothing is
/// left), the other old states are unchanged, the new states other than
/// the final accepting state `r.1` keep their edges among themselves,
/// `r.1` has no edges, and the walks from `acc` to `r.1` read exactly the
/// words of `es[i..]` one after another.
pub open spec fn seq_chain(st: Seq<StateV>, r: (Seq<StateV>, int), es: Seq<Ast>, i: int, acc: int) -> bool {
    let big = r.0;
    let fin = r.1;
    &&& big.len() >= st.len()
    &&& forall|z: int| #![trigger big[z]] 0 <= z < st.len() && z != acc ==> big[z] == st[z]
    &&& (i >= es.len() ==> big == st && fin == acc)
    &&& (i < es.len() ==> {
        &&& st.len() <= fin < big.len()
        &&& big[acc].1.len() == 1
        &&& big[acc].1[0].0 is Epsilon
        &&& st.len() <= big[acc].1[0].1 < big.len()
    })
    &&& closed_range(big, st.len() as int, big.len() as int, fin as usize)
    &&& big[fin].1.len() == 0
    &&& forall|es2: Seq<int>, w: Seq<char>| #[trigger] walk(big, acc as usize, es2, w, fin as usize) ==> seq_lang(es, i, w)
    &&& forall|w: Seq<char>| #[trigger] seq_lang(es, i, w) ==> exists|es2: Seq<int>|
        #[trigger] walk(big, acc as usize, es2, w, fin as usize)
}

/// Thompson's construction is right for every expression: the automaton
/// it adds is a fragment whose walks from its start to its accepting state
/// read exactly the words the expression matches.
pub proof fn lemma_thompson(a: Ast, st0: Seq<StateV>)
    requires
        sp_compile(a, st0).0.len() <= usize::MAX,
    ensures
        fragment(st0, sp_compile(a, st0).0, sp_compile(a, st0).1, sp_compile(a, st0).2),
        accepts_exactly(a, sp_compile(a, st0).0, sp_compile(a, st0).1, sp_compile(a, st0).2),
    decreases a, 0nat,
{
    match a {
        Ast::Concat(es) => {
            if es.len() == 0 {
                assert forall|w: Seq<char>| #[trigger] lang(a, w) == one_edge_reads(TransV::Epsilon, w) by {
                    assert(lang(a, w) == seq_lang(es, 0, w));
                    assert(seq_lang(es, 0, w) == (w.len() == 0));
                }
                lemma_leaf(a, st0, TransV::Epsilon);
            } else {
                let first = sp_compile(es[0], st0);
                lemma_seq_len(es, 1, first.0, first.2);
                lemma_thompson(es[0], st0);
                lemma_seq(es, 1, first.0, first.2);
                lemma_concat_parts(es, st0);
            }
        },
        Ast::Alternate(x, y) => {
            let base = add_state(add_state(st0));
            let fx = sp_compile(*x, base);
            lemma_compile_len(*y, fx.0);
            lemma_thompson(*y, fx.0);
            lemma_thompson(*x, base);
            lemma_alternate(x, y, st0);
        },
        Ast::ZeroOrMore(x) => {
            lemma_thompson(*x, add_state(add_state(st0)));
            lemma_star(x, st0);
        },
        Ast::OneOrMore(x) => {
            lemma_thompson(*x, add_state(add_state(st0)));
            lemma_plus(x, st0);
        },
        Ast::ZeroOrOne(x) => {
            lemma_thompson(*x, add_state(add_state(st0)));
            lemma_optional(x, st0);
        },
        _ => {
            let t = leaf_label(a).unwrap();
            assert forall|w: Seq<char>| #[trigger] lang(a, w) == one_edge_reads(t, w) by {}
            lemma_leaf(a, st0, t);
        },
    }
}

/// Compiling `es[i..]` after `acc` chains the fragments of the expressions.
proof fn lemma_seq(es: Seq<Ast>, i: int, st: Seq<StateV>, acc: int)
    requires
        0 <= i <= es.len(),
        0 <= acc < st.len(),
        st[acc].1.len() == 0,
        sp_compile_seq(es, i, st, acc).0.len() <= usize::MAX,
    ensures
        seq_chain(st, sp_compile_seq(es, i, st, acc), es, i, acc),
    decreases es, es.len() - i,
{
    let r = sp_compile_seq(es, i, st, acc);
    if i == es.len() {
        assert(r == (st, acc));
        assert forall|es2: Seq<int>, w: Seq<char>| #[trigger] walk(st, acc as usize, es2, w, acc as usize) implies seq_lang(
            es,
            i,
            w,
        ) by {
            lemma_walk_stuck(st, acc as usize, es2, w, acc as usize);
        }
        assert forall|w: Seq<char>| #[trigger] seq_lang(es, i, w) implies exists|es2: Seq<int>|
            #[trigger] walk(st, acc as usize, es2, w, acc as usize) by {
            assert(w =~= Seq::<char>::empty());
            assert(walk(st, acc as usize, Seq::<int>::empty(), w, acc as usize));
        }
    } else {
        let f = sp_compile(es[i], st);
        let si = f.0;
        let s_i = f.1;
        let g_i = f.2;
        let sip = add_trans(si, acc, TransV::Epsilon, s_i);
        assert(r == sp_compile_seq(es, i + 1, sip, g_i));
        lemma_seq_len(es, i + 1, sip, g_i);
        lemma_thompson(es[i], st);
        assert(si[acc] == st[acc]);
        assert(sip[acc].1 =~= seq![(TransV::Epsilon, s_i as usize)]);
        assert(sip[g_i] == si[g_i]);
        lemma_seq(es, i + 1, sip, g_i);
        let big = r.0;
        let fin = r.1;
        let lo = st.len() as int;
        let hi = si.len() as int;
        assert forall|z: int| #![trigger big[z]] lo <= z < hi && z != g_i implies big[z] == si[z] by {
            assert(big[z] == sip[z]);
        }
        assert forall|z: int| #![trigger big[z]] 0 <= z < st.len() && z != acc implies big[z] == st[z] by {
            assert(big[z] == sip[z]);
            assert(si[z] == st[z]);
        }
        assert(big[acc] == sip[acc]);
        assert(closed_range(big, lo, hi, g_i as usize)) by {
            assert forall|x: int, k: int|
                #![trigger big[x].1[k]]
                lo <= x < hi && x != g_i && 0 <= k < big[x].1.len() implies lo <= big[x].1[k].1 < hi by {
                assert(big[x] == si[x]);
                assert(si[x].1[k] == big[x].1[k]);
            }
        }
        assert(closed_range(big, lo, big.len() as int, fin as usize)) by {
            assert forall|x: int, k: int|
                #![trigger big[x].1[k]]
                lo <= x < big.len() && x != fin && 0 <= k < big[x].1.len() implies lo <= big[x].1[k].1 < big.len() by {
                if x < hi && x != g_i {
                    assert(big[x] == si[x]);
                    assert(si[x].1[k] == big[x].1[k]);
                } else if x == g_i {
                    assert(i + 1 < es.len());
                } else {
                }
            }
        }
        assert forall|es2: Seq<int>, w: Seq<char>| #[trigger] walk(big, acc as usize, es2, w, fin as usize) implies seq_lang(
            es,
            i,
            w,
        ) by {
            assert(es2.len() > 0);
            assert(es2[0] == 0);
            lemma_walk_eps_first(big, acc as usize, es2, w, fin as usize);
            let rest = es2.drop_first();
            let q = lemma_first_arrival(big, s_i as usize, rest, w, fin as usize, lo, hi, g_i as usize);
            let pre = rest.take(q.0);
            let w1 = w.take(q.1);
            lemma_sources_len(big, s_i as usize, pre);
            assert forall|j: int| 0 <= j < pre.len() implies (#[trigger] sources(big, s_i as usize, pre)[j]) < si.len()
                && big[sources(big, s_i as usize, pre)[j] as int] == si[sources(big, s_i as usize, pre)[j] as int] by {
                let z = sources(big, s_i as usize, pre)[j] as int;
                assert(big[z] == si[z]);
            }
            lemma_walk_restrict(si, big, s_i as usize, pre, w1, g_i as usize);
            assert(walk(si, (s_i as int) as usize, pre, w1, (g_i as int) as usize));
            assert(lang(es[i], w1));
            assert(walk(big, (g_i as int) as usize, rest.skip(q.0), w.skip(q.1), fin as usize));
            assert(seq_lang(es, i + 1, w.skip(q.1)));
            assert(w.take(q.1) == w1);
        }
        assert forall|w: Seq<char>| #[trigger] seq_lang(es, i, w) implies exists|es2: Seq<int>|
            #[trigger] walk(big, acc as usize, es2, w, fin as usize) by {
            let k = choose|k: int| 0 <= k <= w.len() && lang(es[i], w.take(k)) && seq_lang(es, i + 1, w.skip(k));
            assert(extends(si, big)) by {
                assert forall|z: int, j: int|
                    #![trigger si[z].1[j]]
                    0 <= z < si.len() && 0 <= j < si[z].1.len() implies big[z].1[j] == si[z].1[j] by {
                    if z != acc && z != g_i {
                        assert(big[z] == sip[z]);
                    }
                }
                assert forall|z: int| #![trigger si[z]] 0 <= z < si.len() implies big[z].1.len() >= si[z].1.len() by {
                    if z != acc && z != g_i {
                        assert(big[z] == sip[z]);
                    }
                }
            }
            let es1 = lemma_sub_walk(big, si, es[i], s_i as usize, g_i as usize, w.take(k));
            assert(exists|e2: Seq<int>| #[trigger] walk(big, (g_i as int) as usize, e2, w.skip(k), fin as usize));
            let es3 = choose|e2: Seq<int>| #[trigger] walk(big, g_i as usize, e2, w.skip(k), fin as usize);
            lemma_eps_step(big, acc as usize, 0, s_i as usize);
            lemma_walk_concat(big, acc as usize, seq![0int], Seq::empty(), s_i as usize, es1, w.take(k), g_i as usize);
            lemma_walk_concat(
                big,
                acc as usize,
                seq![0int] + es1,
                Seq::<char>::empty() + w.take(k),
                g_i as usize,
                es3,
                w.skip(k),
                fin as usize,
            );
            assert(Seq::<char>::empty() + w.take(k) + w.skip(k) =~= w);
        }
    }
}

/// A concatenation's fragment: the first expression's fragment chained with
/// the rest.
proof fn lemma_concat_parts(es: Seq<Ast>, st0: Seq<StateV>)
    requires
        es.len() > 0,
        ({
            let first = sp_compile(es[0], st0);
            &&& fragment(st0, first.0, first.1, first.2)
            &&& accepts_exactly(es[0], first.0, first.1, first.2)
            &&& seq_chain(first.0, sp_compile_seq(es, 1, first.0, first.2), es, 1, first.2)
            &&& sp_compile_seq(es, 1, first.0, first.2).0.len() <= usize::MAX
        }),
    ensures
        fragment(
            st0,
            sp_compile(Ast::Concat(es), st0).0,
            sp_compile(Ast::Concat(es), st0).1,
            sp_compile(Ast::Concat(es), st0).2,
        ),
        accepts_exactly(
            Ast::Concat(es),
            sp_compile(Ast::Concat(es), st0).0,
            sp_compile(Ast::Concat(es), st0).1,
            sp_compile(Ast::Concat(es), st0).2,
        ),
{
    let a = Ast::Concat(es);
    let first = sp_compile(es[0], st0);
    let s0 = first.0;
    let b0 = first.1;
    let f0 = first.2;
    let r = sp_compile_seq(es, 1, s0, f0);
    let big = r.0;
    let fin = r.1;
    assert(sp_compile(a, st0) == (big, b0, fin));
    let lo = st0.len() as int;
    let hi = s0.len() as int;
    assert(fin == f0 || hi <= fin);
    assert forall|z: int| #![trigger big[z]] lo <= z < hi && z != f0 implies big[z] == s0[z] by {
        assert(0 <= z < s0.len() && z != f0);
    }
    assert forall|z: int| #![trigger big[z]] 0 <= z < lo implies big[z] == st0[z] by {
        assert(s0[z] == st0[z]);
    }
    assert(closed_range(big, lo, hi, f0 as usize)) by {
        assert forall|x: int, k: int|
            #![trigger big[x].1[k]]
            lo <= x < hi && x != f0 && 0 <= k < big[x].1.len() implies lo <= big[x].1[k].1 < hi by {
            assert(big[x] == s0[x]);
            assert(s0[x].1[k] == big[x].1[k]);
        }
    }
    assert(fragment(st0, big, b0, fin)) by {
        assert forall|x: int, k: int|
            #![trigger big[x].1[k]]
            lo <= x < big.len() && x != fin && 0 <= k < big[x].1.len() implies lo <= big[x].1[k].1 < big.len() by {
            if x < hi && x != f0 {
                assert(big[x] == s0[x]);
                assert(s0[x].1[k] == big[x].1[k]);
            }
        }
    }
    assert forall|es2: Seq<int>, w: Seq<char>| #[trigger] walk(big, b0 as usize, es2, w, fin as usize) implies lang(a, w) by {
        let q = lemma_first_arrival(big, b0 as usize, es2, w, fin as usize, lo, hi, f0 as usize);
        let pre = es2.take(q.0);
        let w1 = w.take(q.1);
        lemma_sources_len(big, b0 as usize, pre);
        assert forall|j: int| 0 <= j < pre.len() implies (#[trigger] sources(big, b0 as usize, pre)[j]) < s0.len()
            && big[sources(big, b0 as usize, pre)[j] as int] == s0[sources(big, b0 as usize, pre)[j] as int] by {
            let z = sources(big, b0 as usize, pre)[j] as int;
            assert(big[z] == s0[z]);
        }
        lemma_walk_restrict(s0, big, b0 as usize, pre, w1, f0 as usize);
        assert(walk(s0, (b0 as int) as usize, pre, w1, (f0 as int) as usize));
        assert(lang(es[0], w1));
        assert(walk(big, (f0 as int) as usize, es2.skip(q.0), w.skip(q.1), fin as usize));
        assert(seq_lang(es, 1, w.skip(q.1)));
        assert(w.take(q.1) == w1);
        assert(seq_lang(es, 0, w));
    }
    assert forall|w: Seq<char>| #[trigger] lang(a, w) implies exists|es2: Seq<int>|
        #[trigger] walk(big, b0 as usize, es2, w, fin as usize) by {
        assert(seq_lang(es, 0, w));
        let k = choose|k: int| 0 <= k <= w.len() && lang(es[0], w.take(k)) && seq_lang(es, 1, w.skip(k));
        assert(extends(s0, big)) by {
            assert forall|z: int, j: int|
                #![trigger s0[z].1[j]]
                0 <= z < s0.len() && 0 <= j < s0[z].1.len() implies big[z].1[j] == s0[z].1[j] by {
                if z != f0 {
                    if z < lo {
                        assert(big[z] == st0[z] && s0[z] == st0[z]);
                    } else {
                        assert(big[z] == s0[z]);
                    }
                }
            }
            assert forall|z: int| #![trigger s0[z]] 0 <= z < s0.len() implies big[z].1.len() >= s0[z].1.len() by {
                if z != f0 {
                    if z < lo {
                        assert(big[z] == st0[z] && s0[z] == st0[z]);
                    } else {
                        assert(big[z] == s0[z]);
                    }
                }
            }
        }
        let es1 = lemma_sub_walk(big, s0, es[0], b0 as usize, f0 as usize, w.take(k));
        assert(exists|e2: Seq<int>| #[trigger] walk(big, (f0 as int) as usize, e2, w.skip(k), fin as usize));
        let es3 = choose|e2: Seq<int>| #[trigger] walk(big, f0 as usize, e2, w.skip(k), fin as usize);
        lemma_walk_concat(big, b0 as usize, es1, w.take(k), f0 as usize, es3, w.skip(k), fin as usize);
        assert(w.take(k) + w.skip(k) =~= w);
    }
}


// ─── State ids ──────────────────────────────────────────────────────────

/// Every state's id is its index.
pub open spec fn ids_are_indices(st: Seq<StateV>) -> bool {
    forall|k: int| 0 <= k < st.len() ==> #[trigger] st[k].0 == k
}

proof fn lemma_add_state_ids(st: Seq<StateV>)
    requires
        ids_are_indices(st),
        st.len() < usize::MAX,
    ensures
        ids_are_indices(add_state(st)),
{
    assert forall|k: int| 0 <= k < add_state(st).len() implies #[trigger] add_state(st)[k].0 == k by {
        if k < st.len() {
            assert(add_state(st)[k] == st[k]);
        }
    }
}

proof fn lemma_add_trans_ids(st: Seq<StateV>, from: int, t: TransV, to: int)
    requires
        ids_are_indices(st),
    ensures
        ids_are_indices(add_trans(st, from, t, to)),
        add_trans(st, from, t, to).len() == st.len(),
{
    let r = add_trans(st, from, t, to);
    assert forall|k: int| 0 <= k < r.len() implies #[trigger] r[k].0 == k by {
        assert(r[k].0 == st[k].0);
    }
}

proof fn lemma_compile_ids_rec(a: Ast, st: Seq<StateV>)
    requires
        ids_are_indices(st),
        sp_compile(a, st).0.len() <= usize::MAX,
    ensures
        ids_are_indices(sp_compile(a, st).0),
    decreases a, 0nat,
{
    match a {
        Ast::Concat(es) => {
            if es.len() == 0 {
                lemma_add_state_ids(st);
                lemma_add_state_ids(add_state(st));
                lemma_add_trans_ids(add_state(add_state(st)), st.len() as int, TransV::Epsilon, st.len() as int + 1);
            } else {
                let first = sp_compile(es[0], st);
                lemma_seq_len(es, 1, first.0, first.2);
                lemma_compile_ids_rec(es[0], st);
                lemma_seq_ids(es, 1, first.0, first.2);
            }
        },
        Ast::Alternate(x, y) => {
            let s = st.len() as int;
            let base = add_state(add_state(st));
            let fx = sp_compile(*x, base);
            let fy = sp_compile(*y, fx.0);
            lemma_compile_len(*x, base);
            lemma_compile_len(*y, fx.0);
            let t1 = add_trans(fy.0, s, TransV::Epsilon, fx.1);
            let t2 = add_trans(t1, s, TransV::Epsilon, fy.1);
            let t3 = add_trans(t2, fx.2, TransV::Epsilon, s + 1);
            lemma_add_state_ids(st);
            lemma_add_state_ids(add_state(st));
            lemma_compile_ids_rec(*x, base);
            lemma_compile_ids_rec(*y, fx.0);
            lemma_add_trans_ids(fy.0, s, TransV::Epsilon, fx.1);
            lemma_add_trans_ids(t1, s, TransV::Epsilon, fy.1);
            lemma_add_trans_ids(t2, fx.2, TransV::Epsilon, s + 1);
            lemma_add_trans_ids(t3, fy.2, TransV::Epsilon, s + 1);
        },
        Ast::ZeroOrMore(x) => {
            lemma_loop_ids(*x, st, 0);
        },
        Ast::OneOrMore(x) => {
            lemma_loop_ids(*x, st, 1);
        },
        Ast::ZeroOrOne(x) => {
            lemma_loop_ids(*x, st, 2);
        },
        _ => {
            let t = leaf_label(a).unwrap();
            lemma_add_state_ids(st);
            lemma_add_state_ids(add_state(st));
            lemma_add_trans_ids(add_state(add_state(st)), st.len() as int, t, st.len() as int + 1);
        },
    }
}

/// The repetition cases: two new states, the subexpression, and epsilon
/// edges.
proof fn lemma_loop_ids(x: Ast, st: Seq<StateV>, which: int)
    requires
        ids_are_indices(st),
        ({
            let a = if which == 0 {
                Ast::ZeroOrMore(Box::new(x))
            } else if which == 1 {
                Ast::OneOrMore(Box::new(x))
            } else {
                Ast::ZeroOrOne(Box::new(x))
            };
            sp_compile(a, st).0.len() <= usize::MAX
        }),
    ensures
        ({
            let a = if which == 0 {
                Ast::ZeroOrMore(Box::new(x))
            } else if which == 1 {
                Ast::OneOrMore(Box::new(x))
            } else {
                Ast::ZeroOrOne(Box::new(x))
            };
            ids_are_indices(sp_compile(a, st).0)
        }),
    decreases x, 1nat,
{
    let s = st.len() as int;
    let base = add_state(add_state(st));
    let fx = sp_compile(x, base);
    lemma_compile_len(x, base);
    lemma_add_state_ids(st);
    lemma_add_state_ids(add_state(st));
    lemma_compile_ids_rec(x, base);
    let t1 = add_trans(fx.0, s, TransV::Epsilon, fx.1);
    lemma_add_trans_ids(fx.0, s, TransV::Epsilon, fx.1);
    if which == 0 {
        let t2 = add_trans(t1, s, TransV::Epsilon, s + 1);
        let t3 = add_trans(t2, fx.2, TransV::Epsilon, fx.1);
        lemma_add_trans_ids(t1, s, TransV::Epsilon, s + 1);
        lemma_add_trans_ids(t2, fx.2, TransV::Epsilon, fx.1);
        lemma_add_trans_ids(t3, fx.2, TransV::Epsilon, s + 1);
    } else if which == 1 {
        let t2 = add_trans(t1, fx.2, TransV::Epsilon, fx.1);
        lemma_add_trans_ids(t1, fx.2, TransV::Epsilon, fx.1);
        lemma_add_trans_ids(t2, fx.2, TransV::Epsilon, s + 1);
    } else {
        let t2 = add_trans(t1, s, TransV::Epsilon, s + 1);
        lemma_add_trans_ids(t1, s, TransV::Epsilon, s + 1);
        lemma_add_trans_ids(t2, fx.2, TransV::Epsilon, s + 1);
    }
}

proof fn lemma_seq_ids(es: Seq<Ast>, i: int, st: Seq<StateV>, acc: int)
    requires
        ids_are_indices(st),
        sp_compile_seq(es, i, st, acc).0.len() <= usize::MAX,
    ensures
        ids_are_indices(sp_compile_seq(es, i, st, acc).0),
    decreases es, es.len() - i,
{
    if 0 <= i < es.len() {
        let f = sp_compile(es[i], st);
        let next = add_trans(f.0, acc, TransV::Epsilon, f.1);
        lemma_seq_len(es, i + 1, next, f.2);
        lemma_compile_len(es[i], st);
        lemma_compile_ids_rec(es[i], st);
        lemma_add_trans_ids(f.0, acc, TransV::Epsilon, f.1);
        lemma_seq_ids(es, i + 1, next, f.2);
    }
}

/// Compiling onto states whose ids are their indices leaves those states
/// untouched, adds at least two states, and gives every new state its own
/// index as id; the start and accepting states are new and distinct, the
/// accepting state has no edges, and every edge of a new state leads to a
/// new state.
pub proof fn lemma_compile_ids(a: Ast, st: Seq<StateV>)
    requires
        ids_are_indices(st),
        sp_compile(a, st).0.len() <= usize::MAX,
    ensures
        ids_are_indices(sp_compile(a, st).0),
        sp_compile(a, st).0.len() >= st.len() + 2,
        forall|k: int| 0 <= k < st.len() ==> #[trigger] sp_compile(a, st).0[k] == st[k],
        st.len() <= sp_compile(a, st).1 < sp_compile(a, st).0.len(),
        st.len() <= sp_compile(a, st).2 < sp_compile(a, st).0.len(),
        sp_compile(a, st).1 != sp_compile(a, st).2,
        sp_compile(a, st).0[sp_compile(a, st).2].1.len() == 0,
        forall|x: int, k: int|
            #![trigger sp_compile(a, st).0[x].1[k]]
            st.len() <= x < sp_compile(a, st).0.len() && 0 <= k < sp_compile(a, st).0[x].1.len() ==> st.len()
                <= sp_compile(a, st).0[x].1[k].1 < sp_compile(a, st).0.len(),
{
    lemma_compile_ids_rec(a, st);
    lemma_thompson(a, st);
    let c = sp_compile(a, st);
    assert forall|x: int, k: int|
        #![trigger c.0[x].1[k]]
        st.len() <= x < c.0.len() && 0 <= k < c.0[x].1.len() implies st.len() <= c.0[x].1[k].1 < c.0.len() by {
        assert(x != (c.2 as usize) as int);
    }
}

} // verus!
