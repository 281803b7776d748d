//! Markdown sectioning for the BM25 search front end, and the search
//! variants that the scorer offers.

use vstd::prelude::*;
use crate::analyzer::SpanV;
use crate::analyzer::spec_analyze;
use crate::analyzer::tokenize;
use crate::order::lemma_lex_asymmetric;
use crate::order::lemma_lex_irreflexive;
use crate::order::lex_lt;
use crate::order::search_sorted;
use crate::order::strictly_sorted;
use crate::text::chars_of;
use crate::text::join_with;
use crate::text::line_bounds;
use crate::text::push_joined;
use crate::text::split_lines;
use crate::text::lines_from;
use crate::text::string_from_chars;
use crate::text::trim;
use crate::text::trim_start;
use crate::text::trim_end;
use crate::text::leading_ws;
use crate::text::unicode_whitespace;
use crate::text::trim_range;

verus! {

/// A section of a Markdown document: its title, its body, the line it
/// starts on (counting from 1), and the file it came from, where known.
#[derive(Debug, Clone)]
pub struct Section {
    pub title: String,
    pub body: String,
    pub line_number: usize,
    pub filename: Option<String>,
}

/// A section as values: title, body, starting line and file name.
pub type SectionV = (Seq<char>, Seq<char>, nat, Option<Seq<char>>);

pub open spec fn section_view(s: Section) -> SectionV {
    (
        s.title@,
        s.body@,
        s.line_number as nat,
        match s.filename {
            Some(f) => Some(f@),
            None => None,
        },
    )
}

pub open spec fn sections_view(v: Seq<Section>) -> Seq<SectionV> {
    v.map_values(|s: Section| section_view(s))
}

/// The BM25 scoring variants.
#[derive(Clone, Copy, Debug, PartialEq, Eq, Structural)]
pub enum SearchVariant {
    Classic,
    Plus,
    L,
}

/// The title of the text before the first header.
pub open spec fn intro_title() -> Seq<char> {
    seq!['I', 'n', 't', 'r', 'o', 'd', 'u', 'c', 't', 'i', 'o', 'n']
}

/// The number of leading `#` chars of `t`.
pub open spec fn leading_hashes(t: Seq<char>) -> nat
    decreases t.len(),
{
    if t.len() > 0 && t[0] == '#' {
        1 + leading_hashes(t.drop_first())
    } else {
        0
    }
}

/// The header text of a line: the line trimmed, starting with `#`, with its
/// leading `#`s and the whitespace around the rest taken off, when that rest
/// is not empty.
pub open spec fn md_header(line: Seq<char>) -> Option<Seq<char>> {
    let t = trim(line);
    if t.len() > 0 && t[0] == '#' {
        let h = trim(t.skip(leading_hashes(t) as int));
        if h.len() > 0 {
            Some(h)
        } else {
            None
        }
    } else {
        None
    }
}

/// `k` hash signs.
pub open spec fn hashes(k: nat) -> Seq<char> {
    Seq::new(k, |i: int| '#')
}

proof fn lemma_leading_ws_prefix(w: Seq<char>, x: Seq<char>)
    requires
        forall|i: int| 0 <= i < w.len() ==> unicode_whitespace(#[trigger] w[i]),
        x.len() == 0 || !unicode_whitespace(x[0]),
    ensures
        leading_ws(w + x) == w.len(),
    decreases w.len(),
{
    if w.len() == 0 {
        assert(w + x =~= x);
    } else {
        let w2 = w.drop_first();
        assert forall|i: int| 0 <= i < w2.len() implies unicode_whitespace(#[trigger] w2[i]) by {
            assert(w2[i] == w[i + 1]);
        }
        lemma_leading_ws_prefix(w2, x);
        assert((w + x).drop_first() =~= w2 + x);
        assert((w + x)[0] == w[0]);
        assert(unicode_whitespace(w[0]));
    }
}

proof fn lemma_leading_hashes(k: nat, r: Seq<char>)
    requires
        r.len() == 0 || r[0] != '#',
    ensures
        leading_hashes(hashes(k) + r) == k,
    decreases k,
{
    if k == 0 {
        assert(hashes(k) + r =~= r);
    } else {
        lemma_leading_hashes((k - 1) as nat, r);
        assert((hashes(k) + r).drop_first() =~= hashes((k - 1) as nat) + r);
        assert((hashes(k) + r)[0] == '#');
    }
}

/// The title of a header line is the line without its leading `#`s and the
/// whitespace after them: for `k >= 1` hash signs, whitespace `w` and a
/// text `x` that neither starts nor ends with whitespace (and, when `w` is
/// empty, does not start with `#`), the header of the line is `x`, all of
/// it (`#Setup` and `##  Setup` both give `Setup`).
pub proof fn lemma_header_title(k: nat, w: Seq<char>, x: Seq<char>)
    requires
        k >= 1,
        forall|i: int| 0 <= i < w.len() ==> unicode_whitespace(#[trigger] w[i]),
        x.len() > 0,
        !unicode_whitespace(x[0]),
        !unicode_whitespace(x.last()),
        w.len() > 0 || x[0] != '#',
    ensures
        md_header(hashes(k) + w + x) == Some(x),
{
    let line = hashes(k) + w + x;
    let r = w + x;
    assert(line =~= hashes(k) + r);
    assert(line[0] == '#');
    assert(line.last() == x.last());
    assert(leading_ws(line) == 0);
    assert(line.skip(0) =~= line);
    assert(trim_start(line) == line);
    assert(trim_end(line) == line);
    assert(trim(line) == line);
    assert(r[0] != '#') by {
        if w.len() > 0 {
            assert(r[0] == w[0]);
            assert(unicode_whitespace(w[0]));
        } else {
            assert(r[0] == x[0]);
        }
    }
    lemma_leading_hashes(k, r);
    assert(line.skip(k as int) =~= r);
    lemma_leading_ws_prefix(w, x);
    assert(r.skip(w.len() as int) =~= x);
    assert(trim_start(r) == x);
    assert(trim_end(x) == x);
    assert(trim(r) == x);
}

proof fn lemma_one_line(l: Seq<char>, i: int)
    requires
        0 <= i <= l.len(),
        l.len() > 0,
        forall|q: int| 0 <= q < l.len() ==> #[trigger] l[q] != '\n',
    ensures
        lines_from(l, 0, i) == seq![l],
    decreases l.len() - i,
{
    if i < l.len() {
        lemma_one_line(l, i + 1);
    } else {
        assert(l.subrange(0, l.len() as int) =~= l);
    }
}

/// A document of one header line is the empty introduction and one
/// section titled by the header, from line 1: `#Setup` gives the sections
/// `Introduction` and `Setup`.
pub proof fn lemma_header_line_sections(k: nat, w: Seq<char>, x: Seq<char>)
    requires
        k >= 1,
        forall|i: int| 0 <= i < w.len() ==> unicode_whitespace(#[trigger] w[i]) && w[i] != '\n',
        x.len() > 0,
        !unicode_whitespace(x[0]),
        !unicode_whitespace(x.last()),
        w.len() > 0 || x[0] != '#',
        forall|i: int| 0 <= i < x.len() ==> #[trigger] x[i] != '\n',
    ensures
        md_sections(hashes(k) + w + x) == seq![
            (intro_title(), Seq::<char>::empty(), 1nat, None::<Seq<char>>),
            (x, Seq::<char>::empty(), 1nat, None::<Seq<char>>),
        ],
{
    let line = hashes(k) + w + x;
    lemma_header_title(k, w, x);
    assert forall|q: int| 0 <= q < line.len() implies #[trigger] line[q] != '\n' by {
        if q < k {
            assert(line[q] == '#');
        } else if q < k + w.len() {
            assert(line[q] == w[q - k]);
        } else {
            assert(line[q] == x[q - k - w.len()]);
        }
    }
    lemma_one_line(line, 0);
    let ls = split_lines(line);
    assert(ls == seq![line]);
    let a0 = md_fold(ls, 0);
    let a1 = md_fold(ls, 1);
    assert(md_header(ls[0]) == Some(x));
    let e = Seq::<char>::empty();
    assert(join_with(Seq::<Seq<char>>::empty(), seq!['\n']) == e);
    assert(a1 == (seq![(intro_title(), e, 1nat, None::<Seq<char>>)], x, Seq::<Seq<char>>::empty(), 1nat));
    let done = a1.0.push((a1.1, join_with(a1.2, seq!['\n']), a1.3, None::<Seq<char>>));
    assert(done =~= seq![(intro_title(), e, 1nat, None::<Seq<char>>), (x, e, 1nat, None::<Seq<char>>)]);
    let it = intro_title();
    assert(!unicode_whitespace(it[0]));
    assert(leading_ws(it) == 0);
    assert(it.skip(0) =~= it);
    assert(trim(it) == it);
    assert(leading_ws(x) == 0);
    assert(x.skip(0) =~= x);
    assert(trim(x) == x);
    assert(section_kept(done[0]));
    assert(section_kept(done[1]));
    assert(done.drop_last() =~= seq![done[0]]);
    let one = seq![done[0]];
    assert(one.drop_last() =~= Seq::<SectionV>::empty());
    assert(one.last() == done[0]);
    assert(kept_sections(one.drop_last()) == Seq::<SectionV>::empty());
    assert(kept_sections(one) == Seq::<SectionV>::empty().push(done[0]));
    assert(kept_sections(one) =~= one);
    assert(done.drop_last() == one);
    assert(kept_sections(done) =~= done);
}

/// The sectioner's state after `k` lines: the finished sections, and the
/// title, body lines and starting line of the open section.
pub open spec fn md_fold(ls: Seq<Seq<char>>, k: int) -> (Seq<SectionV>, Seq<char>, Seq<Seq<char>>, nat)
    decreases k,
{
    if k <= 0 {
        (Seq::empty(), intro_title(), Seq::empty(), 1)
    } else {
        let a = md_fold(ls, k - 1);
        match md_header(ls[k - 1]) {
            Some(h) => (a.0.push((a.1, join_with(a.2, seq!['\n']), a.3, None)), h, Seq::empty(), k as nat),
            None => (a.0, a.1, a.2.push(ls[k - 1]), a.3),
        }
    }
}

/// A section is kept unless both its title and its body are blank.
pub open spec fn section_kept(s: SectionV) -> bool {
    trim(s.0).len() > 0 || trim(s.1).len() > 0
}

/// The sections of `ss` that are kept, in order.
pub open spec fn kept_sections(ss: Seq<SectionV>) -> Seq<SectionV>
    decreases ss.len(),
{
    if ss.len() == 0 {
        Seq::empty()
    } else if section_kept(ss.last()) {
        kept_sections(ss.drop_last()).push(ss.last())
    } else {
        kept_sections(ss.drop_last())
    }
}

/// The sections of a Markdown text: a new section starts at every header
/// line, the text before the first header is the section "Introduction",
/// each body is its lines joined with line feeds, and sections whose title
/// and body are both blank are dropped.
pub open spec fn md_sections(content: Seq<char>) -> Seq<SectionV> {
    let ls = split_lines(content);
    let a = md_fold(ls, ls.len() as int);
    kept_sections(a.0.push((a.1, join_with(a.2, seq!['\n']), a.3, None)))
}

/// Whether the chars of `cs` are all whitespace.
fn is_blank(cs: &Vec<char>) -> (r: bool)
    ensures
        r == (trim(cs@).len() == 0),
{
    let t = trim_range(cs.as_slice(), 0, cs.len());
    proof {
        assert(cs@.subrange(0, cs@.len() as int) =~= cs@);
    }
    t.len() == 0
}

/// The header text of the line `cs[lo..hi]`, when it is a header line.
fn header_of(cs: &Vec<char>, lo: usize, hi: usize) -> (r: Option<Vec<char>>)
    requires
        lo <= hi <= cs@.len(),
    ensures
        match r {
            Some(h) => md_header(cs@.subrange(lo as int, hi as int)) == Some(h@),
            None => md_header(cs@.subrange(lo as int, hi as int)) is None,
        },
{
    let t = trim_range(cs.as_slice(), lo, hi);
    if t.len() == 0 || t[0] != '#' {
        return None;
    }
    let mut h: usize = 0;
    proof {
        assert(t@.skip(0) =~= t@);
    }
    while h < t.len() && t[h] == '#'
        invariant
            h <= t@.len(),
            t@.len() > 0,
            leading_hashes(t@) == h + leading_hashes(t@.skip(h as int)),
        decreases t@.len() - h,
    {
        proof {
            assert(t@.skip(h as int).drop_first() =~= t@.skip(h + 1));
        }
        h = h + 1;
    }
    proof {
        if h < t@.len() {
            assert(t@.skip(h as int)[0] == t@[h as int]);
        }
        assert(leading_hashes(t@.skip(h as int)) == 0);
    }
    let rest = trim_range(t.as_slice(), h, t.len());
    proof {
        assert(t@.subrange(h as int, t@.len() as int) =~= t@.skip(h as int));
    }
    if rest.len() == 0 {
        None
    } else {
        Some(rest)
    }
}

/// A section with the given title, body and line, from no file.
fn make_section(title: &Vec<char>, body: String, line: usize) -> (r: Section)
    ensures
        section_view(r) == (title@, body@, line as nat, None::<Seq<char>>),
{
    Section { title: string_from_chars(title.as_slice()), body, line_number: line, filename: None }
}

/// Appends `s` to `out` unless its title and body are both blank.
fn push_kept(out: &mut Vec<Section>, s: Section)
    ensures
        sections_view(final(out)@) == if section_kept(section_view(s)) {
            sections_view(old(out)@).push(section_view(s))
        } else {
            sections_view(old(out)@)
        },
{
    let tb = chars_of(s.title.as_str());
    let bb = chars_of(s.body.as_str());
    if !is_blank(&tb) || !is_blank(&bb) {
        let ghost before = out@;
        out.push(s);
        proof {
            assert(sections_view(out@) =~= sections_view(before).push(section_view(s)));
        }
    }
}

/// Cuts a Markdown text into sections at its header lines (`#` to
/// `######` and beyond): each section has the header's text as its title,
/// the lines up to the next header as its body, and the number of its
/// header line; the text before the first header is the section
/// "Introduction" starting at line 1. Sections whose title and body are
/// both blank are left out.
pub fn parse_markdown(content: &str) -> (r: Vec<Section>)
    ensures
        sections_view(r@) == md_sections(content@),
{
    let cs = chars_of(content);
    let lines = line_bounds(cs.as_slice());
    let ghost ls = split_lines(cs@);
    let intro = "Introduction";
    proof {
        reveal_strlit("Introduction");
    }
    let mut title: Vec<char> = chars_of(intro);
    let mut body = String::new();
    let mut body_count: usize = 0;
    let mut start_line: usize = 1;
    let mut out: Vec<Section> = Vec::new();
    let nl = "\n";
    proof {
        reveal_strlit("\n");
        assert(title@ =~= intro_title());
    }
    for k in 0..lines.len()
        invariant
            cs@ == content@,
            ls == split_lines(cs@),
            lines@.len() == ls.len(),
            forall|q: int|
                0 <= q < lines@.len() ==> (#[trigger] lines@[q]).0 <= lines@[q].1 <= cs@.len()
                    && cs@.subrange(lines@[q].0 as int, lines@[q].1 as int) == ls[q],
            nl@ == seq!['\n'],
            sections_view(out@) == kept_sections(md_fold(ls, k as int).0),
            title@ == md_fold(ls, k as int).1,
            body@ == join_with(md_fold(ls, k as int).2, seq!['\n']),
            body_count == md_fold(ls, k as int).2.len(),
            start_line == md_fold(ls, k as int).3,
            1 <= start_line <= k + 1,
            body_count <= k,
    {
        let lo = lines[k].0;
        let hi = lines[k].1;
        let ghost prev = md_fold(ls, k as int);
        match header_of(&cs, lo, hi) {
            Some(h) => {
                let finished = make_section(&title, body, start_line);
                push_kept(&mut out, finished);
                proof {
                    let done = prev.0.push((prev.1, join_with(prev.2, seq!['\n']), prev.3, None));
                    assert(done.drop_last() =~= prev.0);
                }
                title = h;
                body = String::new();
                body_count = 0;
                start_line = k + 1;
            },
            None => {
                let ghost pb = body@;
                push_joined(&mut body, &cs.as_slice()[lo..hi], nl, body_count == 0);
                proof {
                    let line = ls[k as int];
                    assert(cs@.subrange(lo as int, hi as int) == line);
                    let nb = prev.2.push(line);
                    assert(nb.drop_last() =~= prev.2);
                    if body_count == 0 {
                        assert(Seq::<char>::empty() + line =~= line);
                    }
                }
                body_count = body_count + 1;
            },
        }
    }
    let last = make_section(&title, body, start_line);
    push_kept(&mut out, last);
    proof {
        let a = md_fold(ls, ls.len() as int);
        let done = a.0.push((a.1, join_with(a.2, seq!['\n']), a.3, None));
        assert(done.drop_last() =~= a.0);
    }
    out
}

// ─── Term statistics ────────────────────────────────────────────────────

/// The token bytes of a text, in order.
pub open spec fn token_bytes(s: Seq<char>) -> Seq<Seq<u8>> {
    spec_analyze(s).map_values(|t: SpanV| t.0)
}

/// How often `t` occurs in `ts`.
pub open spec fn occurrences(ts: Seq<Seq<u8>>, t: Seq<u8>) -> nat
    decreases ts.len(),
{
    if ts.len() == 0 {
        0
    } else {
        occurrences(ts.drop_last(), t) + if ts.last() == t {
            1nat
        } else {
            0nat
        }
    }
}

/// Distinct terms, in increasing order, each with how often it occurs
/// (at least once).
pub struct TermCounts {
    pub(crate) terms: Vec<Vec<u8>>,
    pub(crate) counts: Vec<usize>,
}

/// Byte strings as values.
pub open spec fn bytes_view(v: Seq<Vec<u8>>) -> Seq<Seq<u8>> {
    v.map_values(|x: Vec<u8>| x@)
}

/// The terms of `tc`.
pub closed spec fn terms_view(tc: &TermCounts) -> Seq<Seq<u8>> {
    bytes_view(tc.terms@)
}

/// The counts of `tc`, in the order of its terms.
pub closed spec fn counts_view(tc: &TermCounts) -> Seq<usize> {
    tc.counts@
}

/// One count per term, the terms strictly increasing, every count
/// positive.
pub open spec fn counts_wf(terms: Seq<Seq<u8>>, counts: Seq<usize>) -> bool {
    &&& terms.len() == counts.len()
    &&& strictly_sorted(terms)
    &&& forall|k: int| 0 <= k < counts.len() ==> #[trigger] counts[k] > 0
}

/// `tc` counts the terms `ts`: it lists each term of `ts` once, in order,
/// with the number of times it occurs, and no other term.
pub open spec fn counts_terms(tc: &TermCounts, ts: Seq<Seq<u8>>) -> bool {
    &&& counts_wf(terms_view(tc), counts_view(tc))
    &&& forall|k: int| 0 <= k < counts_view(tc).len() ==> #[trigger] counts_view(tc)[k] == occurrences(ts, terms_view(tc)[k])
    &&& forall|t: Seq<u8>| occurrences(ts, t) > 0 ==> #[trigger] terms_view(tc).contains(t)
}

proof fn lemma_occurrences_bound(ts: Seq<Seq<u8>>, t: Seq<u8>)
    ensures
        occurrences(ts, t) <= ts.len(),
    decreases ts.len(),
{
    if ts.len() > 0 {
        lemma_occurrences_bound(ts.drop_last(), t);
    }
}

proof fn lemma_occurrences_absent(ts: Seq<Seq<u8>>, t: Seq<u8>)
    requires
        !ts.contains(t),
    ensures
        occurrences(ts, t) == 0,
    decreases ts.len(),
{
    if ts.len() > 0 {
        assert(!ts.drop_last().contains(t)) by {
            if ts.drop_last().contains(t) {
                let q = choose|q: int| 0 <= q < ts.drop_last().len() && ts.drop_last()[q] == t;
                assert(ts[q] == t);
            }
        }
        lemma_occurrences_absent(ts.drop_last(), t);
        assert(ts[ts.len() - 1] == ts.last());
    }
}

proof fn lemma_occurrences_push(ts: Seq<Seq<u8>>, x: Seq<u8>, t: Seq<u8>)
    ensures
        occurrences(ts.push(x), t) == occurrences(ts, t) + if x == t {
            1nat
        } else {
            0nat
        },
{
    assert(ts.push(x).drop_last() =~= ts);
}

proof fn lemma_sorted_distinct(vs: Seq<Seq<u8>>, a: int, b: int)
    requires
        strictly_sorted(vs),
        0 <= a < vs.len(),
        0 <= b < vs.len(),
        a != b,
    ensures
        vs[a] != vs[b],
{
    if a < b {
        lemma_lex_asymmetric(vs[a], vs[b]);
    } else {
        lemma_lex_asymmetric(vs[b], vs[a]);
    }
}

impl TermCounts {
    #[verifier::type_invariant]
    spec fn wf(self) -> bool {
        counts_wf(bytes_view(self.terms@), self.counts@)
    }

    /// No terms counted yet.
    pub fn new() -> (r: TermCounts)
        ensures
            counts_terms(&r, Seq::empty()),
    {
        proof {
            assert(bytes_view(Seq::<Vec<u8>>::empty()) =~= Seq::<Seq<u8>>::empty());
        }
        let r = TermCounts { terms: Vec::new(), counts: Vec::new() };
        r
    }

    /// The terms, in increasing byte order.
    pub fn terms(&self) -> (r: &Vec<Vec<u8>>)
        ensures
            bytes_view(r@) == terms_view(self),
    {
        &self.terms
    }

    /// How often each term occurs, in the order of the terms.
    pub fn counts(&self) -> (r: &Vec<usize>)
        ensures
            r@ == counts_view(self),
    {
        &self.counts
    }

    /// Counts one more occurrence of `key`.
    fn add(&mut self, key: &Vec<u8>, Ghost(ts): Ghost<Seq<Seq<u8>>>)
        requires
            counts_terms(old(self), ts),
            occurrences(ts, key@) < usize::MAX,
        ensures
            counts_terms(final(self), ts.push(key@)),
    {
        let mut tc = TermCounts::new();
        std::mem::swap(self, &mut tc);
        let TermCounts { terms: mut terms, counts: mut counts } = tc;
        let ghost old_vs = bytes_view(terms@);
        let ghost old_cs = counts@;
        let ghost nts = ts.push(key@);
        proof {
            assert forall|t: Seq<u8>| #![trigger occurrences(nts, t)] true implies occurrences(nts, t) == occurrences(ts, t) + if key@ == t {
                1nat
            } else {
                0nat
            } by {
                lemma_occurrences_push(ts, key@, t);
            }
        }
        match search_sorted(&terms, key.as_slice()) {
            Ok(k) => {
                proof {
                    assert(old_vs[k as int] == key@);
                    assert(counts@[k as int] == occurrences(ts, key@));
                }
                let c = counts[k];
                counts.set(k, c + 1);
                proof {
                    assert(bytes_view(terms@) == old_vs);
                    assert forall|j: int| 0 <= j < counts@.len() implies #[trigger] counts@[j] > 0 by {
                        if j != k {
                            assert(counts@[j] == old_cs[j]);
                        }
                    }
                    assert forall|j: int| 0 <= j < counts@.len() implies #[trigger] counts@[j] == occurrences(
                        nts,
                        bytes_view(terms@)[j],
                    ) by {
                        if j != k {
                            lemma_sorted_distinct(old_vs, j, k as int);
                        }
                    }
                    assert forall|t: Seq<u8>| occurrences(nts, t) > 0 implies #[trigger] bytes_view(terms@).contains(t) by {
                        if t == key@ {
                            assert(bytes_view(terms@)[k as int] == t);
                        } else {
                            assert(occurrences(ts, t) > 0);
                        }
                    }
                }
            },
            Err(k) => {
                proof {
                    if occurrences(ts, key@) > 0 {
                        assert(old_vs.contains(key@));
                        let q = choose|q: int| 0 <= q < old_vs.len() && old_vs[q] == key@;
                        if q < k {
                            assert(lex_lt(old_vs[q], key@));
                        } else {
                            assert(lex_lt(key@, old_vs[q]));
                        }
                        lemma_lex_irreflexive(key@);
                    }
                }
                terms.insert(k, key.clone());
                counts.insert(k, 1);
                proof {
                    let new_vs = bytes_view(terms@);
                    assert forall|j: int| 0 <= j < counts@.len() implies #[trigger] counts@[j] > 0 by {
                        if j < k {
                            assert(counts@[j] == old_cs[j]);
                        } else if j > k {
                            assert(counts@[j] == old_cs[j - 1]);
                        }
                    }
                    assert(new_vs =~= old_vs.insert(k as int, key@));
                    assert forall|a: int, b: int| 0 <= a < b < new_vs.len() implies lex_lt(
                        #[trigger] new_vs[a],
                        #[trigger] new_vs[b],
                    ) by {
                        if b < k {
                            assert(new_vs[a] == old_vs[a] && new_vs[b] == old_vs[b]);
                        } else if b == k {
                            assert(new_vs[a] == old_vs[a]);
                        } else if a == k {
                            assert(new_vs[b] == old_vs[b - 1]);
                        } else if a > k {
                            assert(new_vs[a] == old_vs[a - 1] && new_vs[b] == old_vs[b - 1]);
                        } else {
                            assert(new_vs[a] == old_vs[a] && new_vs[b] == old_vs[b - 1]);
                        }
                    }
                    assert forall|j: int| 0 <= j < counts@.len() implies #[trigger] counts@[j] == occurrences(
                        nts,
                        new_vs[j],
                    ) by {
                        if j < k {
                            assert(new_vs[j] == old_vs[j]);
                            assert(lex_lt(old_vs[j], key@));
                            lemma_lex_irreflexive(key@);
                        } else if j > k {
                            assert(new_vs[j] == old_vs[j - 1]);
                            assert(lex_lt(key@, old_vs[j - 1]));
                            lemma_lex_irreflexive(key@);
                        }
                    }
                    assert forall|t: Seq<u8>| occurrences(nts, t) > 0 implies #[trigger] new_vs.contains(t) by {
                        if t == key@ {
                            assert(new_vs[k as int] == t);
                        } else {
                            assert(occurrences(ts, t) > 0);
                            assert(old_vs.contains(t));
                            let q = choose|q: int| 0 <= q < old_vs.len() && old_vs[q] == t;
                            if q < k {
                                assert(new_vs[q] == t);
                            } else {
                                assert(new_vs[q + 1] == t);
                            }
                        }
                    }
                }
            },
        }
        *self = TermCounts { terms, counts };
    }
}

/// The term frequencies of a text: each distinct token, in byte order,
/// with the number of times it occurs, and the number of tokens.
pub fn term_frequencies(text: &str) -> (r: TermCounts)
    ensures
        counts_terms(&r, token_bytes(text@)),
{
    let toks = tokenize(text);
    let ghost all = token_bytes(text@);
    let mut tc = TermCounts::new();
    proof {
        assert(all.take(0) =~= Seq::<Seq<u8>>::empty());
    }
    for i in 0..toks.len()
        invariant
            toks@.len() == spec_analyze(text@).len(),
            all == token_bytes(text@),
            all.len() == toks@.len(),
            forall|q: int| 0 <= q < toks@.len() ==> (#[trigger] toks@[q]).bytes@ == all[q],
            counts_terms(&tc, all.take(i as int)),
    {
        proof {
            assert(toks@[i as int].bytes@ == spec_analyze(text@)[i as int].0);
            lemma_occurrences_bound(all.take(i as int), toks@[i as int].bytes@);
            assert(all.take(i + 1) =~= all.take(i as int).push(all[i as int]));
        }
        tc.add(&toks[i].bytes, Ghost(all.take(i as int)));
    }
    proof {
        assert(all.take(toks@.len() as int) =~= all);
    }
    tc
}

/// The number of term lists of `ds` that hold `t`.
pub open spec fn docs_with(ds: Seq<Seq<Seq<u8>>>, t: Seq<u8>) -> nat
    decreases ds.len(),
{
    if ds.len() == 0 {
        0
    } else {
        docs_with(ds.drop_last(), t) + if ds.last().contains(t) {
            1nat
        } else {
            0nat
        }
    }
}

/// All the term lists of `ds`, one after another.
pub open spec fn all_terms(ds: Seq<Seq<Seq<u8>>>) -> Seq<Seq<u8>>
    decreases ds.len(),
{
    if ds.len() == 0 {
        Seq::empty()
    } else {
        all_terms(ds.drop_last()) + ds.last()
    }
}

proof fn lemma_occurrences_concat(a: Seq<Seq<u8>>, b: Seq<Seq<u8>>, t: Seq<u8>)
    ensures
        occurrences(a + b, t) == occurrences(a, t) + occurrences(b, t),
    decreases b.len(),
{
    if b.len() == 0 {
        assert(a + b =~= a);
    } else {
        lemma_occurrences_concat(a, b.drop_last(), t);
        assert((a + b).drop_last() =~= a + b.drop_last());
    }
}

proof fn lemma_occurrences_distinct(d: Seq<Seq<u8>>, t: Seq<u8>)
    requires
        strictly_sorted(d),
    ensures
        occurrences(d, t) == if d.contains(t) {
            1nat
        } else {
            0nat
        },
    decreases d.len(),
{
    if d.len() > 0 {
        let p = d.drop_last();
        assert(strictly_sorted(p)) by {
            assert forall|a: int, b: int| 0 <= a < b < p.len() implies lex_lt(#[trigger] p[a], #[trigger] p[b]) by {
                assert(p[a] == d[a] && p[b] == d[b]);
            }
        }
        lemma_occurrences_distinct(p, t);
        if d.last() == t && p.contains(t) {
            let q = choose|q: int| 0 <= q < p.len() && p[q] == t;
            lemma_sorted_distinct(d, q, d.len() - 1);
        }
        if d.contains(t) && d.last() != t {
            let q = choose|q: int| 0 <= q < d.len() && d[q] == t;
            assert(p[q] == t);
        }
        if p.contains(t) {
            let q = choose|q: int| 0 <= q < p.len() && p[q] == t;
            assert(d[q] == t);
        }
    }
}

proof fn lemma_all_terms_docs_with(ds: Seq<Seq<Seq<u8>>>, t: Seq<u8>)
    requires
        forall|k: int| 0 <= k < ds.len() ==> strictly_sorted(#[trigger] ds[k]),
    ensures
        occurrences(all_terms(ds), t) == docs_with(ds, t),
        docs_with(ds, t) <= ds.len(),
    decreases ds.len(),
{
    if ds.len() > 0 {
        let p = ds.drop_last();
        assert forall|k: int| 0 <= k < p.len() implies strictly_sorted(#[trigger] p[k]) by {
            assert(p[k] == ds[k]);
        }
        lemma_all_terms_docs_with(p, t);
        lemma_occurrences_concat(all_terms(p), ds.last(), t);
        assert(ds[ds.len() - 1] == ds.last());
        lemma_occurrences_distinct(ds.last(), t);
    }
}

/// The term lists of the documents.
pub open spec fn doc_terms(docs: Seq<TermCounts>) -> Seq<Seq<Seq<u8>>> {
    docs.map_values(|d: TermCounts| terms_view(&d))
}

/// The document frequencies of a corpus: each term of any document, in
/// byte order, with the number of documents whose term list holds it.
pub fn document_frequencies(docs: &Vec<TermCounts>) -> (r: TermCounts)
    ensures
        counts_wf(terms_view(&r), counts_view(&r)),
        forall|k: int|
            0 <= k < counts_view(&r).len() ==> #[trigger] counts_view(&r)[k] == docs_with(doc_terms(docs@), terms_view(&r)[k]),
        forall|t: Seq<u8>| docs_with(doc_terms(docs@), t) > 0 ==> #[trigger] terms_view(&r).contains(t),
{
    let ghost ds = doc_terms(docs@);
    let mut df = TermCounts::new();
    proof {
        assert(ds.take(0) =~= Seq::<Seq<Seq<u8>>>::empty());
    }
    for i in 0..docs.len()
        invariant
            ds == doc_terms(docs@),
            forall|k: int| 0 <= k < i ==> strictly_sorted(terms_view(&#[trigger] docs@[k])),
            counts_terms(&df, all_terms(ds.take(i as int))),
    {
        let d = &docs[i];
        let ghost before = all_terms(ds.take(i as int));
        proof {
            use_type_invariant(d);
            assert(terms_view(d) == bytes_view(d.terms@));
            assert(ds[i as int] == terms_view(d));
            assert(ds.take(i + 1).drop_last() =~= ds.take(i as int));
            assert(ds.take(i + 1).last() == ds[i as int]);
            assert forall|k: int| 0 <= k < ds.take(i + 1).len() implies strictly_sorted(#[trigger] ds.take(i + 1)[k]) by {
                assert(ds.take(i + 1)[k] == terms_view(&docs@[k]));
            }
            assert(terms_view(d).take(0) =~= Seq::<Seq<u8>>::empty());
            assert(before + terms_view(d).take(0) =~= before);
        }
        for j in 0..d.terms.len()
            invariant
                ds == doc_terms(docs@),
                i < docs.len(),
                d == &docs@[i as int],
                forall|k: int| 0 <= k <= i ==> strictly_sorted(terms_view(&#[trigger] docs@[k])),
                before == all_terms(ds.take(i as int)),
                strictly_sorted(terms_view(d)),
                forall|k: int| 0 <= k < ds.take(i + 1).len() ==> strictly_sorted(#[trigger] ds.take(i + 1)[k]),
                all_terms(ds.take(i + 1)) == before + terms_view(d),
                counts_terms(&df, before + terms_view(d).take(j as int)),
        {
            let ghost cur = before + terms_view(d).take(j as int);
            let ghost key = terms_view(d)[j as int];
            proof {
                assert(d.terms@[j as int]@ == key);
                lemma_occurrences_concat(before, terms_view(d).take(j as int), key);
                assert forall|k: int| 0 <= k < ds.take(i as int).len() implies strictly_sorted(
                    #[trigger] ds.take(i as int)[k],
                ) by {
                    assert(ds.take(i as int)[k] == ds.take(i + 1)[k]);
                }
                lemma_all_terms_docs_with(ds.take(i as int), key);
                assert(!terms_view(d).take(j as int).contains(key)) by {
                    if terms_view(d).take(j as int).contains(key) {
                        let q = choose|q: int| 0 <= q < j && terms_view(d).take(j as int)[q] == key;
                        lemma_sorted_distinct(terms_view(d), q, j as int);
                    }
                }
                lemma_occurrences_absent(terms_view(d).take(j as int), key);
                assert(ds.take(i as int).len() == i);
                assert(cur + seq![key] =~= before + terms_view(d).take(j + 1));
                assert(cur.push(key) =~= cur + seq![key]);
            }
            df.add(&d.terms[j], Ghost(cur));
        }
        proof {
            assert(terms_view(d).take(terms_view(d).len() as int) =~= terms_view(d));
        }
    }
    proof {
        assert(ds.take(docs@.len() as int) =~= ds);
        assert forall|t: Seq<u8>| #![trigger docs_with(ds, t)] true implies occurrences(all_terms(ds), t) == docs_with(ds, t) by {
            lemma_all_terms_docs_with(ds, t);
        }
    }
    df
}

} // verus!
