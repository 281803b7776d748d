//! What a fuzzy term pattern matches: the pattern that `levenshtein_regex`
//! makes of a term of plain chars parses, and matches a word exactly when
//! the word fits one of the term's one-edit variants, a `.` in a variant
//! standing for any char but a line feed.

use vstd::prelude::*;
use crate::regex::Ast;
use crate::regex::spec_parse;
use crate::regex::sp_regex;
use crate::regex::sp_alts;
use crate::regex::sp_term;
use crate::regex::sp_factors;
use crate::regex::sp_factor;
use crate::regex::sp_base;
use crate::regex::sp_quant;
use crate::regex::edit_variants;
use crate::regex::deletions;
use crate::regex::substitutions;
use crate::regex::insertions;
use crate::regex::transpositions;
use crate::regex::swap_adjacent;
use crate::order::strictly_sorted_chars;
use crate::text::join_with;
use crate::thompson::lang;
use crate::thompson::seq_lang;

verus! {

/// A char that the parser reads as itself or, for `.`, as the wildcard.
pub open spec fn pattern_char(c: char) -> bool {
    !(c == '\\' || c == '[' || c == '(' || c == ')' || c == '*' || c == '+' || c == '?' || c == '{' || c == '}'
        || c == ']' || c == '|')
}

/// A char that the parser reads as itself.
pub open spec fn plain_char(c: char) -> bool {
    pattern_char(c) && c != '.'
}

/// Nonempty, and made of pattern chars.
pub open spec fn piece_ok(p: Seq<char>) -> bool {
    p.len() > 0 && forall|i: int| 0 <= i < p.len() ==> pattern_char(#[trigger] p[i])
}

/// The expression of one pattern char.
pub open spec fn atom(c: char) -> Ast {
    if c == '.' {
        Ast::Wildcard
    } else {
        Ast::Char(c)
    }
}

pub open spec fn atoms(p: Seq<char>) -> Seq<Ast> {
    p.map_values(|c: char| atom(c))
}

/// The expression of a run of pattern chars.
pub open spec fn term_ast(p: Seq<char>) -> Ast {
    if p.len() == 1 {
        atom(p[0])
    } else {
        Ast::Concat(atoms(p))
    }
}

/// `left`, then each of `qs` as a further alternative.
pub open spec fn alt_fold(left: Ast, qs: Seq<Seq<char>>) -> Ast
    decreases qs.len(),
{
    if qs.len() == 0 {
        left
    } else {
        alt_fold(Ast::Alternate(Box::new(left), Box::new(term_ast(qs[0]))), qs.drop_first())
    }
}

/// `w` fits the variant `v`: as long, with the same char wherever `v` has
/// no `.`, and no line feed where it has one.
pub open spec fn fits(v: Seq<char>, w: Seq<char>) -> bool {
    &&& v.len() == w.len()
    &&& forall|i: int|
        0 <= i < v.len() ==> if v[i] == '.' {
            w[i] != '\n'
        } else {
            w[i] == v[i]
        }
}

// ─── Parsing ────────────────────────────────────────────────────────────

proof fn lemma_parse_piece(s: Seq<char>, pos: int, p: Seq<char>, acc: Seq<Ast>)
    requires
        0 <= pos,
        pos + p.len() <= s.len(),
        s.subrange(pos, pos + p.len()) == p,
        forall|i: int| 0 <= i < p.len() ==> pattern_char(#[trigger] p[i]),
        pos + p.len() == s.len() || s[pos + p.len()] == '|',
    ensures
        sp_factors(s, pos, acc) == Ok::<(Seq<Ast>, int), Seq<char>>((acc + atoms(p), pos + p.len())),
    decreases p.len(),
{
    if p.len() == 0 {
        assert(acc + atoms(p) =~= acc);
    } else {
        let c = p[0];
        assert(s[pos] == s.subrange(pos, pos + p.len())[0]);
        assert(pattern_char(p[0]));
        let q = p.drop_first();
        assert(s.subrange(pos + 1, pos + 1 + q.len()) =~= q) by {
            assert forall|j: int| 0 <= j < q.len() implies s.subrange(pos + 1, pos + 1 + q.len())[j] == q[j] by {
                assert(s.subrange(pos, pos + p.len())[j + 1] == p[j + 1]);
            }
        }
        assert forall|i: int| 0 <= i < q.len() implies pattern_char(#[trigger] q[i]) by {
            assert(q[i] == p[i + 1]);
        }
        if q.len() > 0 {
            assert(s[pos + 1] == s.subrange(pos + 1, pos + 1 + q.len())[0]);
            assert(pattern_char(q[0]));
        }
        assert(sp_base(s, pos) == Ok::<(Ast, int), Seq<char>>((atom(c), pos + 1)));
        assert(sp_quant(s, pos + 1, atom(c)) == Ok::<(Ast, int), Seq<char>>((atom(c), pos + 1)));
        assert(sp_factor(s, pos) == Ok::<(Ast, int), Seq<char>>((atom(c), pos + 1)));
        lemma_parse_piece(s, pos + 1, q, acc.push(atom(c)));
        assert(acc.push(atom(c)) + atoms(q) =~= acc + atoms(p));
    }
}

proof fn lemma_parse_term(s: Seq<char>, pos: int, p: Seq<char>)
    requires
        0 <= pos,
        pos + p.len() <= s.len(),
        s.subrange(pos, pos + p.len()) == p,
        piece_ok(p),
        pos + p.len() == s.len() || s[pos + p.len()] == '|',
    ensures
        sp_term(s, pos) == Ok::<(Ast, int), Seq<char>>((term_ast(p), pos + p.len())),
{
    lemma_parse_piece(s, pos, p, Seq::empty());
    assert(Seq::<Ast>::empty() + atoms(p) =~= atoms(p));
}

/// A join of two or more parts is the first part, the separator, and the
/// join of the rest.
proof fn lemma_join_front(qs: Seq<Seq<char>>, sep: Seq<char>)
    requires
        qs.len() >= 2,
    ensures
        join_with(qs, sep) == qs[0] + sep + join_with(qs.drop_first(), sep),
    decreases qs.len(),
{
    if qs.len() == 2 {
        assert(qs.drop_last().len() == 1);
        assert(qs.drop_first().len() == 1);
        assert(join_with(qs.drop_first(), sep) == qs[1]);
        assert(join_with(qs.drop_last(), sep) == qs[0]);
    } else {
        lemma_join_front(qs.drop_last(), sep);
        assert(qs.drop_last().drop_first() =~= qs.drop_first().drop_last());
        assert(qs.drop_first().last() == qs.last());
        assert(qs.drop_last()[0] == qs[0]);
        assert(join_with(qs, sep) == join_with(qs.drop_last(), sep) + sep + qs.last());
        assert(join_with(qs.drop_first(), sep) == join_with(qs.drop_first().drop_last(), sep) + sep + qs.last());
        assert(qs[0] + sep + join_with(qs.drop_last().drop_first(), sep) + sep + qs.last() =~= qs[0] + sep + (join_with(
            qs.drop_last().drop_first(),
            sep,
        ) + sep + qs.last()));
    }
}

/// The text from `pos` on: nothing when `qs` is empty, otherwise `|` and
/// the join of `qs`.
pub open spec fn alts_text(qs: Seq<Seq<char>>) -> Seq<char> {
    if qs.len() == 0 {
        Seq::empty()
    } else {
        seq!['|'] + join_with(qs, seq!['|'])
    }
}

proof fn lemma_parse_alts(s: Seq<char>, pos: int, left: Ast, qs: Seq<Seq<char>>)
    requires
        0 <= pos <= s.len(),
        s.skip(pos) == alts_text(qs),
        forall|j: int| 0 <= j < qs.len() ==> piece_ok(#[trigger] qs[j]),
    ensures
        sp_alts(s, pos, left) == Ok::<(Ast, int), Seq<char>>((alt_fold(left, qs), s.len() as int)),
    decreases qs.len(),
{
    if qs.len() == 0 {
        assert(s.skip(pos).len() == 0);
    } else {
        let t = s.skip(pos);
        let q0 = qs[0];
        let rest = qs.drop_first();
        assert(piece_ok(qs[0]));
        assert forall|j: int| 0 <= j < rest.len() implies piece_ok(#[trigger] rest[j]) by {
            assert(rest[j] == qs[j + 1]);
        }
        let tail = alts_text(rest);
        assert(join_with(qs, seq!['|']) == q0 + tail) by {
            if qs.len() == 1 {
                assert(q0 + tail =~= q0);
            } else {
                lemma_join_front(qs, seq!['|']);
                assert(q0 + seq!['|'] + join_with(rest, seq!['|']) =~= q0 + tail);
            }
        }
        assert(t =~= seq!['|'] + q0 + tail);
        assert(s[pos] == t[0]);
        let e = pos + 1 + q0.len();
        assert(s.subrange(pos + 1, e) =~= q0) by {
            assert forall|j: int| 0 <= j < q0.len() implies s.subrange(pos + 1, e)[j] == q0[j] by {
                assert(t[1 + j] == q0[j]);
                assert(s[pos + (1 + j)] == t[1 + j]);
            }
        }
        assert(s.skip(e) =~= tail) by {
            assert forall|j: int| 0 <= j < tail.len() implies s.skip(e)[j] == tail[j] by {
                assert(t[1 + q0.len() + j] == tail[j]);
                assert(s[pos + (1 + q0.len() + j)] == t[1 + q0.len() + j]);
            }
        }
        if rest.len() > 0 {
            assert(s[e] == s.skip(e)[0]);
        }
        lemma_parse_term(s, pos + 1, q0);
        lemma_parse_alts(s, e, Ast::Alternate(Box::new(left), Box::new(term_ast(q0))), rest);
    }
}

// ─── Languages ──────────────────────────────────────────────────────────

proof fn lemma_atoms_lang(p: Seq<char>, i: int, w: Seq<char>)
    requires
        0 <= i <= p.len(),
    ensures
        seq_lang(atoms(p), i, w) <==> fits(p.skip(i), w),
    decreases p.len() - i,
{
    let es = atoms(p);
    if i == p.len() {
        assert(p.skip(i).len() == 0);
    } else {
        let c = p[i];
        assert(es[i] == atom(c));
        lemma_atoms_lang(p, i + 1, w.skip(1));
        let ps = p.skip(i);
        assert(p.skip(i + 1) =~= ps.drop_first());
        if seq_lang(es, i, w) {
            let k = choose|k: int| 0 <= k <= w.len() && lang(es[i], w.take(k)) && seq_lang(es, i + 1, w.skip(k));
            assert(w.take(k).len() == 1);
            assert(k == 1);
            assert(w.take(1)[0] == w[0]);
            assert forall|j: int| 0 <= j < ps.len() implies (if ps[j] == '.' {
                w[j] != '\n'
            } else {
                w[j] == ps[j]
            }) by {
                if j > 0 {
                    assert(ps[j] == ps.drop_first()[j - 1]);
                    assert(w[j] == w.skip(1)[j - 1]);
                }
            }
        }
        if fits(ps, w) {
            assert(ps[0] == c);
            assert(w.len() >= 1);
            assert(w.take(1)[0] == w[0]);
            assert(lang(es[i], w.take(1)));
            assert forall|j: int| 0 <= j < ps.drop_first().len() implies (if ps.drop_first()[j] == '.' {
                w.skip(1)[j] != '\n'
            } else {
                w.skip(1)[j] == ps.drop_first()[j]
            }) by {
                assert(ps.drop_first()[j] == ps[j + 1]);
                assert(w.skip(1)[j] == w[j + 1]);
            }
            assert(seq_lang(es, i + 1, w.skip(1)));
        }
    }
}

proof fn lemma_term_lang(p: Seq<char>, w: Seq<char>)
    requires
        piece_ok(p),
    ensures
        lang(term_ast(p), w) <==> fits(p, w),
{
    if p.len() == 1 {
        if fits(p, w) {
            assert(w.len() == 1);
        }
    } else {
        lemma_atoms_lang(p, 0, w);
        assert(p.skip(0) =~= p);
    }
}

proof fn lemma_alt_fold_lang(left: Ast, qs: Seq<Seq<char>>, w: Seq<char>)
    requires
        forall|j: int| 0 <= j < qs.len() ==> piece_ok(#[trigger] qs[j]),
    ensures
        lang(alt_fold(left, qs), w) <==> (lang(left, w) || exists|j: int| 0 <= j < qs.len() && fits(#[trigger] qs[j], w)),
    decreases qs.len(),
{
    if qs.len() > 0 {
        let rest = qs.drop_first();
        assert forall|j: int| 0 <= j < rest.len() implies piece_ok(#[trigger] rest[j]) by {
            assert(rest[j] == qs[j + 1]);
        }
        let l2 = Ast::Alternate(Box::new(left), Box::new(term_ast(qs[0])));
        lemma_alt_fold_lang(l2, rest, w);
        assert(piece_ok(qs[0]));
        lemma_term_lang(qs[0], w);
        if exists|j: int| 0 <= j < rest.len() && fits(#[trigger] rest[j], w) {
            let j = choose|j: int| 0 <= j < rest.len() && fits(#[trigger] rest[j], w);
            assert(qs[j + 1] == rest[j]);
        }
        if exists|j: int| 0 <= j < qs.len() && fits(#[trigger] qs[j], w) {
            let j = choose|j: int| 0 <= j < qs.len() && fits(#[trigger] qs[j], w);
            if j > 0 {
                assert(rest[j - 1] == qs[j]);
            }
        }
    }
}

// ─── Variants ───────────────────────────────────────────────────────────

/// Every one-edit variant of a term of plain chars is nonempty and made of
/// pattern chars.
proof fn lemma_variant_ok(t: Seq<char>, v: Seq<char>)
    requires
        t.len() > 0,
        forall|i: int| 0 <= i < t.len() ==> plain_char(#[trigger] t[i]),
        edit_variants(t).contains(v),
    ensures
        piece_ok(v),
{
    let n = t.len() as int;
    if v == t {
    } else if deletions(t, n).contains(v) {
        let i = choose|i: int| 0 <= i < n && v == t.remove(i) && v.len() > 0;
        assert forall|j: int| 0 <= j < v.len() implies pattern_char(#[trigger] v[j]) by {
            if j < i {
                assert(v[j] == t[j]);
            } else {
                assert(v[j] == t[j + 1]);
            }
        }
    } else if substitutions(t, n).contains(v) {
        let i = choose|i: int| 0 <= i < n && v == t.update(i, '.');
        assert forall|j: int| 0 <= j < v.len() implies pattern_char(#[trigger] v[j]) by {
            if j != i {
                assert(v[j] == t[j]);
            }
        }
    } else if insertions(t, n + 1).contains(v) {
        let i = choose|i: int| 0 <= i < n + 1 && v == t.insert(i, '.');
        assert forall|j: int| 0 <= j < v.len() implies pattern_char(#[trigger] v[j]) by {
            if j < i {
                assert(v[j] == t[j]);
            } else if j > i {
                assert(v[j] == t[j - 1]);
            }
        }
    } else {
        assert(transpositions(t, n - 1).contains(v));
        let i = choose|i: int| 0 <= i < n - 1 && v == swap_adjacent(t, i);
        assert forall|j: int| 0 <= j < v.len() implies pattern_char(#[trigger] v[j]) by {
            if j != i && j != i + 1 {
                assert(v[j] == t[j]);
            }
        }
    }
}

/// The fuzzy pattern of a term: for a term of plain chars (none of the
/// pattern syntax `\ [ ] ( ) * + ? { } |` nor `.`), the pattern that
/// `levenshtein_regex` gives parses, and matches a whole word exactly when
/// the word fits one of the term's one-edit variants: the term itself, a
/// deletion that leaves something, a substitution or insertion of any
/// char but a line feed, or a swap of two neighbouring chars.
pub proof fn lemma_fuzzy_pattern(term: Seq<char>, pattern: Seq<char>, w: Seq<char>)
    requires
        term.len() > 0,
        forall|i: int| 0 <= i < term.len() ==> plain_char(#[trigger] term[i]),
        exists|ps: Seq<Seq<char>>|
            strictly_sorted_chars(ps) && #[trigger] ps.to_set() == edit_variants(term) && pattern == join_with(
                ps,
                seq!['|'],
            ),
    ensures
        spec_parse(pattern) is Ok,
        spec_parse(pattern) matches Ok(a) && (lang(a, w) <==> exists|v: Seq<char>|
            #[trigger] edit_variants(term).contains(v) && fits(v, w)),
{
    let ps = choose|ps: Seq<Seq<char>>|
        strictly_sorted_chars(ps) && #[trigger] ps.to_set() == edit_variants(term) && pattern == join_with(
            ps,
            seq!['|'],
        );
    assert(edit_variants(term).contains(term));
    assert(ps.to_set().contains(term));
    assert(ps.len() > 0);
    assert forall|j: int| 0 <= j < ps.len() implies piece_ok(#[trigger] ps[j]) by {
        assert(ps.to_set().contains(ps[j]));
        lemma_variant_ok(term, ps[j]);
    }
    let p0 = ps[0];
    let rest = ps.drop_first();
    assert forall|j: int| 0 <= j < rest.len() implies piece_ok(#[trigger] rest[j]) by {
        assert(rest[j] == ps[j + 1]);
    }
    let s = pattern;
    assert(s == p0 + alts_text(rest)) by {
        if ps.len() == 1 {
            assert(p0 + alts_text(rest) =~= p0);
        } else {
            lemma_join_front(ps, seq!['|']);
            assert(p0 + seq!['|'] + join_with(rest, seq!['|']) =~= p0 + alts_text(rest));
        }
    }
    assert(s.subrange(0, p0.len() as int) =~= p0);
    assert(s.skip(p0.len() as int) =~= alts_text(rest));
    if rest.len() > 0 {
        assert(s[p0.len() as int] == alts_text(rest)[0]);
    }
    lemma_parse_term(s, 0, p0);
    lemma_parse_alts(s, p0.len() as int, term_ast(p0), rest);
    let a = alt_fold(term_ast(p0), rest);
    assert(sp_regex(s, 0) == Ok::<(Ast, int), Seq<char>>((a, s.len() as int)));
    assert(spec_parse(s) == Ok::<Ast, Seq<char>>(a));
    lemma_alt_fold_lang(term_ast(p0), rest, w);
    lemma_term_lang(p0, w);
    if lang(a, w) {
        let j: int = if fits(p0, w) {
            0
        } else {
            let j2 = choose|j: int| 0 <= j < rest.len() && fits(#[trigger] rest[j], w);
            assert(rest[j2] == ps[j2 + 1]);
            j2 + 1
        };
        assert(ps.to_set().contains(ps[j]));
        assert(edit_variants(term).contains(ps[j]) && fits(ps[j], w));
    }
    if exists|v: Seq<char>| #[trigger] edit_variants(term).contains(v) && fits(v, w) {
        let v = choose|v: Seq<char>| #[trigger] edit_variants(term).contains(v) && fits(v, w);
        assert(ps.to_set().contains(v));
        let j = choose|j: int| 0 <= j < ps.len() && ps[j] == v;
        if j > 0 {
            assert(rest[j - 1] == ps[j]);
        }
    }
}

} // verus!
