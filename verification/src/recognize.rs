//! What the NFA simulation computes: the states active after reading a
//! span are the ends of the walks that read it, so the compiled automaton
//! of an expression is active in its accepting state after a span exactly
//! when the expression matches the span.

use vstd::prelude::*;
use crate::regex::Ast;
use crate::regex::StateV;
use crate::regex::TransV;
use crate::regex::sp_compile;
use crate::regex::trans_matches;
use crate::regex::eps_edge;
use crate::regex::eps_path;
use crate::regex::closure;
use crate::regex::direct;
use crate::regex::run;
use crate::regex::last_accept;
use crate::regex::matches_upto;
use crate::thompson::walk;
use crate::thompson::edge;
use crate::thompson::lang;
use crate::thompson::lemma_walk_concat;
use crate::thompson::lemma_eps_step;
use crate::thompson::lemma_thompson;

verus! {

/// A walk that reads nothing follows epsilon edges only: its states form
/// an epsilon path.
proof fn lemma_eps_walk_path(st: Seq<StateV>, p: usize, es: Seq<int>, q: usize) -> (path: Seq<usize>)
    requires
        walk(st, p, es, Seq::empty(), q),
    ensures
        path.len() > 0,
        path[0] == p,
        path.last() == q,
        forall|i: int| 0 <= i < path.len() - 1 ==> #[trigger] eps_edge(st, path[i], path[i + 1]),
    decreases es.len(),
{
    if es.len() == 0 {
        seq![p]
    } else {
        let e = edge(st, p, es[0]);
        assert(e.0 is Epsilon);
        let rest = lemma_eps_walk_path(st, e.1, es.drop_first(), q);
        assert(st[p as int].1[es[0]] == (TransV::Epsilon, e.1));
        assert(eps_edge(st, p, e.1));
        let path = seq![p] + rest;
        assert forall|i: int| 0 <= i < path.len() - 1 implies #[trigger] eps_edge(st, path[i], path[i + 1]) by {
            if i > 0 {
                assert(path[i] == rest[i - 1]);
                assert(path[i + 1] == rest[i]);
                assert(eps_edge(st, rest[i - 1], rest[(i - 1) + 1]));
            } else {
                assert(path[1] == rest[0]);
            }
        }
        path
    }
}

/// An epsilon path is a walk that reads nothing.
proof fn lemma_path_eps_walk(st: Seq<StateV>, path: Seq<usize>) -> (es: Seq<int>)
    requires
        path.len() > 0,
        forall|i: int| 0 <= i < path.len() - 1 ==> #[trigger] eps_edge(st, path[i], path[i + 1]),
    ensures
        walk(st, path[0], es, Seq::empty(), path.last()),
    decreases path.len(),
{
    if path.len() == 1 {
        Seq::empty()
    } else {
        let rest = path.drop_first();
        assert forall|i: int| 0 <= i < rest.len() - 1 implies #[trigger] eps_edge(st, rest[i], rest[i + 1]) by {
            assert(eps_edge(st, path[i + 1], path[(i + 1) + 1]));
        }
        let es2 = lemma_path_eps_walk(st, rest);
        assert(eps_edge(st, path[0], path[0int + 1]));
        let k = choose|k: int|
            0 <= k < st[path[0] as int].1.len() && st[path[0] as int].1[k] == (TransV::Epsilon, path[1]);
        lemma_eps_step(st, path[0], k, path[1]);
        lemma_walk_concat(st, path[0], seq![k], Seq::empty(), path[1], es2, Seq::empty(), rest.last());
        assert(Seq::<char>::empty() + Seq::<char>::empty() =~= Seq::<char>::empty());
        seq![k] + es2
    }
}

/// An edge that reads `c`.
proof fn lemma_char_step(st: Seq<StateV>, p: usize, k: int, c: char)
    requires
        p < st.len(),
        0 <= k < st[p as int].1.len(),
        trans_matches(st[p as int].1[k].0, c),
    ensures
        walk(st, p, seq![k], seq![c], st[p as int].1[k].1),
{
    let t = st[p as int].1[k].1;
    assert(!(st[p as int].1[k].0 is Epsilon));
    assert(seq![k][0] == k && seq![c][0] == c);
    assert(seq![k].drop_first() =~= Seq::<int>::empty());
    assert(seq![c].drop_first() =~= Seq::<char>::empty());
    assert(walk(st, t, Seq::<int>::empty(), Seq::<char>::empty(), t));
    assert(edge(st, p, k) == st[p as int].1[k]);
}

/// A walk that reads `w` and then `c` takes a last edge that reads `c`,
/// after which it follows epsilon edges only.
proof fn lemma_split_last(st: Seq<StateV>, p: usize, es: Seq<int>, w: Seq<char>, c: char, q: usize) -> (r: (
    Seq<int>,
    usize,
    int,
    Seq<int>,
))
    requires
        walk(st, p, es, w.push(c), q),
    ensures
        walk(st, p, r.0, w, r.1),
        r.1 < st.len(),
        0 <= r.2 < st[r.1 as int].1.len(),
        trans_matches(st[r.1 as int].1[r.2].0, c),
        walk(st, st[r.1 as int].1[r.2].1, r.3, Seq::empty(), q),
    decreases es.len(),
{
    let e = edge(st, p, es[0]);
    if e.0 is Epsilon {
        let r = lemma_split_last(st, e.1, es.drop_first(), w, c, q);
        lemma_eps_step(st, p, es[0], e.1);
        lemma_walk_concat(st, p, seq![es[0]], Seq::empty(), e.1, r.0, w, r.1);
        assert(Seq::<char>::empty() + w =~= w);
        (seq![es[0]] + r.0, r.1, r.2, r.3)
    } else if w.len() == 0 {
        assert(w.push(c)[0] == c);
        assert(w.push(c).drop_first() =~= Seq::<char>::empty());
        assert(walk(st, p, Seq::<int>::empty(), w, p));
        (Seq::empty(), p, es[0], es.drop_first())
    } else {
        assert(w.push(c).drop_first() =~= w.drop_first().push(c));
        assert(w.push(c)[0] == w[0]);
        let r = lemma_split_last(st, e.1, es.drop_first(), w.drop_first(), c, q);
        lemma_char_step(st, p, es[0], w[0]);
        lemma_walk_concat(st, p, seq![es[0]], seq![w[0]], e.1, r.0, w.drop_first(), r.1);
        assert(seq![w[0]] + w.drop_first() =~= w);
        (seq![es[0]] + r.0, r.1, r.2, r.3)
    }
}

/// The states active after reading `cs[i..k]` from `start` are the ends of
/// the walks from `start` that read it.
pub proof fn lemma_run_walks(st: Seq<StateV>, start: usize, cs: Seq<char>, i: int, k: int, q: usize)
    requires
        0 <= i <= k <= cs.len(),
    ensures
        run(st, start, cs, i, k).contains(q) <==> exists|es: Seq<int>| #[trigger] walk(st, start, es, cs.subrange(i, k), q),
    decreases k - i,
{
    if k == i {
        assert(cs.subrange(i, k) =~= Seq::<char>::empty());
        if run(st, start, cs, i, k).contains(q) {
            let path = choose|p: Seq<usize>| eps_path(st, set![start], p) && p.last() == q;
            let es = lemma_path_eps_walk(st, path);
            assert(walk(st, start, es, cs.subrange(i, k), q));
        }
        if exists|es: Seq<int>| #[trigger] walk(st, start, es, cs.subrange(i, k), q) {
            let es = choose|es: Seq<int>| #[trigger] walk(st, start, es, cs.subrange(i, k), q);
            let path = lemma_eps_walk_path(st, start, es, q);
            assert(eps_path(st, set![start], path));
        }
    } else {
        let prev = run(st, start, cs, i, k - 1);
        let c = cs[k - 1];
        let d = direct(st, prev, c);
        assert(cs.subrange(i, k) =~= cs.subrange(i, k - 1).push(c));
        if run(st, start, cs, i, k).contains(q) {
            let path = choose|p: Seq<usize>| eps_path(st, d, p) && p.last() == q;
            let t = path[0];
            let (y, kk) = choose|y: usize, kk: int|
                prev.contains(y) && y < st.len() && 0 <= kk < st[y as int].1.len() && st[y as int].1[kk].1 == t
                    && trans_matches(st[y as int].1[kk].0, c);
            lemma_run_walks(st, start, cs, i, k - 1, y);
            let es1 = choose|es: Seq<int>| #[trigger] walk(st, start, es, cs.subrange(i, k - 1), y);
            lemma_char_step(st, y, kk, c);
            let es2 = lemma_path_eps_walk(st, path);
            lemma_walk_concat(st, start, es1, cs.subrange(i, k - 1), y, seq![kk], seq![c], t);
            lemma_walk_concat(st, start, es1 + seq![kk], cs.subrange(i, k - 1) + seq![c], t, es2, Seq::empty(), q);
            assert(cs.subrange(i, k - 1) + seq![c] + Seq::<char>::empty() =~= cs.subrange(i, k));
            assert(walk(st, start, es1 + seq![kk] + es2, cs.subrange(i, k), q));
        }
        if exists|es: Seq<int>| #[trigger] walk(st, start, es, cs.subrange(i, k), q) {
            let es = choose|es: Seq<int>| #[trigger] walk(st, start, es, cs.subrange(i, k), q);
            let r = lemma_split_last(st, start, es, cs.subrange(i, k - 1), c, q);
            lemma_run_walks(st, start, cs, i, k - 1, r.1);
            assert(prev.contains(r.1));
            let t = st[r.1 as int].1[r.2].1;
            assert(d.contains(t));
            let path = lemma_eps_walk_path(st, t, r.3, q);
            assert(eps_path(st, d, path));
        }
    }
}

/// The automaton compiled from `a` is active in its accepting state after
/// reading `cs[i..k]` from its start exactly when `a` matches `cs[i..k]`.
pub proof fn lemma_run_language(a: Ast, cs: Seq<char>, i: int, k: int)
    requires
        0 <= i <= k <= cs.len(),
        sp_compile(a, Seq::empty()).0.len() <= usize::MAX,
    ensures
        run(
            sp_compile(a, Seq::empty()).0,
            sp_compile(a, Seq::empty()).1 as usize,
            cs,
            i,
            k,
        ).contains(sp_compile(a, Seq::empty()).2 as usize) <==> lang(a, cs.subrange(i, k)),
{
    let c = sp_compile(a, Seq::empty());
    lemma_thompson(a, Seq::empty());
    lemma_run_walks(c.0, c.1 as usize, cs, i, k, c.2 as usize);
}


/// What the matcher answers from position `i`: the end `e <= hi` of the
/// longest span `cs[i..e]` that `a` matches, or nothing when none does.
pub proof fn lemma_last_accept_longest(a: Ast, cs: Seq<char>, i: int, hi: int)
    requires
        0 <= i,
        hi <= cs.len(),
        sp_compile(a, Seq::empty()).0.len() <= usize::MAX,
    ensures
        ({
            let c = sp_compile(a, Seq::empty());
            match last_accept(c.0, c.1 as usize, c.2 as usize, cs, i, hi) {
                Some(e) => {
                    &&& i <= e <= hi
                    &&& lang(a, cs.subrange(i, e))
                    &&& forall|e2: int| e < e2 <= hi ==> !lang(a, #[trigger] cs.subrange(i, e2))
                },
                None => forall|e2: int| i <= e2 <= hi ==> !lang(a, #[trigger] cs.subrange(i, e2)),
            }
        }),
    decreases hi - i + 1,
{
    let c = sp_compile(a, Seq::empty());
    if hi >= i {
        lemma_run_language(a, cs, i, hi);
        if !run(c.0, c.1 as usize, cs, i, hi).contains(c.2 as usize) {
            lemma_last_accept_longest(a, cs, i, hi - 1);
        }
    }
}

/// The matches of an expression's automaton in `cs`, for the start
/// positions before `n`: each reported span is one the expression matches
/// and the longest from its start, and every start from which the
/// expression matches some span is reported.
pub proof fn lemma_matches_longest(a: Ast, cs: Seq<char>, n: int)
    requires
        0 <= n <= cs.len(),
        cs.len() <= usize::MAX,
        sp_compile(a, Seq::empty()).0.len() <= usize::MAX,
    ensures
        ({
            let c = sp_compile(a, Seq::empty());
            let m = matches_upto(c.0, c.1 as usize, c.2 as usize, cs, n);
            &&& forall|q: int|
                0 <= q < m.len() ==> {
                    &&& lang(a, cs.subrange((#[trigger] m[q]).0 as int, m[q].1 as int))
                    &&& forall|e2: int|
                        m[q].1 < e2 <= cs.len() ==> !lang(a, #[trigger] cs.subrange(m[q].0 as int, e2))
                }
            &&& forall|s: int, e: int|
                0 <= s <= e <= cs.len() && s < n && lang(a, #[trigger] cs.subrange(s, e)) ==> exists|q: int|
                    0 <= q < m.len() && (#[trigger] m[q]).0 == s
        }),
    decreases n,
{
    let c = sp_compile(a, Seq::empty());
    let m = matches_upto(c.0, c.1 as usize, c.2 as usize, cs, n);
    if n > 0 {
        lemma_matches_longest(a, cs, n - 1);
        lemma_last_accept_longest(a, cs, n - 1, cs.len() as int);
        let rest = matches_upto(c.0, c.1 as usize, c.2 as usize, cs, n - 1);
        assert forall|q: int| 0 <= q < m.len() implies {
            &&& lang(a, cs.subrange((#[trigger] m[q]).0 as int, m[q].1 as int))
            &&& forall|e2: int| m[q].1 < e2 <= cs.len() ==> !lang(a, #[trigger] cs.subrange(m[q].0 as int, e2))
        } by {
            if q < rest.len() {
                assert(m[q] == rest[q]);
            }
        }
        assert forall|s: int, e: int|
            0 <= s <= e <= cs.len() && s < n && lang(a, #[trigger] cs.subrange(s, e)) implies exists|q: int|
            0 <= q < m.len() && (#[trigger] m[q]).0 == s by {
            if s < n - 1 {
                let q = choose|q: int| 0 <= q < rest.len() && (#[trigger] rest[q]).0 == s;
                assert(m[q] == rest[q]);
            } else {
                assert(m[m.len() - 1].0 == s);
            }
        }
    }
}

} // verus!
