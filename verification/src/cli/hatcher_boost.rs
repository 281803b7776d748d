//! The hybrid search front end's computations: the query's URL encoding,
//! the cutting of large sections into parts a remote store accepts, and
//! the checks that decide whether a cached session may be reused.

use vstd::prelude::*;
use vstd::utf8::encode_utf8;
use crate::bm25::Section;
use crate::bm25::SectionV;
use crate::bm25::section_view;
use crate::bm25::sections_view;
use crate::bm25::md_sections;
use crate::bm25::parse_markdown;
use crate::text::chars_of;
use crate::text::char_width;
use crate::text::decimal;
use crate::text::decimal_string;
use crate::text::lemma_byte_offset_step;
use crate::text::lemma_encode_utf8_concat;
use crate::text::push_char;
use crate::text::push_chars;
use crate::text::push_str;
use crate::text::string_from_chars;
use crate::text::trim;
use crate::text::trim_range;
use crate::text::split_bounds;
use crate::text::split_on;
use crate::text::utf8_width;

verus! {

// ─── Percent encoding ───────────────────────────────────────────────────

/// The upper-case hexadecimal digit of `n` (below 16).
pub open spec fn hex_upper(n: u8) -> char {
    if n < 10 {
        (n + 48) as char
    } else {
        (n + 55) as char
    }
}

/// Bytes that stand for themselves in a query string.
pub open spec fn unreserved(b: u8) -> bool {
    (97 <= b <= 122) || (65 <= b <= 90) || (48 <= b <= 57) || b == 45 || b == 95 || b == 46 || b == 126
}

/// The encoding of one byte: itself when unreserved, `+` for a space, and
/// `%` with two upper-case hex digits otherwise.
pub open spec fn encode_byte(b: u8) -> Seq<char> {
    if unreserved(b) {
        seq![b as char]
    } else if b == 32 {
        seq!['+']
    } else {
        seq!['%', hex_upper(b / 16), hex_upper(b % 16)]
    }
}

/// The encodings of the bytes `bs`, one after the other.
pub open spec fn encode_bytes(bs: Seq<u8>) -> Seq<char>
    decreases bs.len(),
{
    if bs.len() == 0 {
        Seq::empty()
    } else {
        encode_bytes(bs.drop_last()) + encode_byte(bs.last())
    }
}

/// A char that may stand in an encoded query: an unreserved ASCII char,
/// `+`, `%` or an upper-case hex digit.
pub open spec fn query_safe(c: char) -> bool {
    ('a' <= c <= 'z') || ('A' <= c <= 'Z') || ('0' <= c <= '9') || c == '-' || c == '_' || c == '.' || c
        == '~' || c == '+' || c == '%'
}

/// An encoded query holds only unreserved ASCII chars, `+` and `%` with
/// upper-case hex digits, so it can stand in a URL as it is.
pub proof fn lemma_encoded_query_safe(bs: Seq<u8>)
    ensures
        forall|i: int| 0 <= i < encode_bytes(bs).len() ==> query_safe(#[trigger] encode_bytes(bs)[i]),
    decreases bs.len(),
{
    if bs.len() > 0 {
        lemma_encoded_query_safe(bs.drop_last());
        let a = encode_bytes(bs.drop_last());
        let b = encode_byte(bs.last());
        let x = bs.last();
        assert(x / 16 < 16 && x % 16 < 16);
        assert forall|j: int| 0 <= j < b.len() implies query_safe(#[trigger] b[j]) by {}
        assert forall|i: int| 0 <= i < encode_bytes(bs).len() implies query_safe(#[trigger] encode_bytes(bs)[i]) by {
            if i < a.len() {
                assert(encode_bytes(bs)[i] == a[i]);
            } else {
                assert(encode_bytes(bs)[i] == b[i - a.len()]);
            }
        }
    }
}

fn hex_upper_char(n: u8) -> (r: char)
    requires
        n < 16,
    ensures
        r == hex_upper(n),
{
    if n < 10 {
        (n + 48) as char
    } else {
        (n + 55) as char
    }
}

/// The text `s` encoded for a URL query: each byte of its UTF-8 form as
/// [`encode_byte`] says.
pub fn percent_encode(s: &str) -> (r: String)
    ensures
        r@ == encode_bytes(encode_utf8(s@)),
{
    let bytes = s.as_bytes();
    let mut encoded = String::new();
    for i in 0..bytes.len()
        invariant
            bytes@ == encode_utf8(s@),
            encoded@ == encode_bytes(bytes@.take(i as int)),
    {
        let b = bytes[i];
        proof {
            assert(bytes@.take(i + 1).drop_last() =~= bytes@.take(i as int));
        }
        let ghost before = encoded@;
        if (97 <= b && b <= 122) || (65 <= b && b <= 90) || (48 <= b && b <= 57) || b == 45 || b == 95 || b
            == 46 || b == 126 {
            push_char(&mut encoded, b as char);
        } else if b == 32 {
            push_char(&mut encoded, '+');
        } else {
            push_char(&mut encoded, '%');
            push_char(&mut encoded, hex_upper_char(b / 16));
            push_char(&mut encoded, hex_upper_char(b % 16));
        }
        proof {
            assert(encoded@ =~= before + encode_byte(b));
        }
    }
    proof {
        assert(bytes@.take(bytes@.len() as int) =~= bytes@);
    }
    encoded
}

// ─── Cutting large sections into parts ──────────────────────────────────

/// The most UTF-8 bytes a section body may have before it is cut into
/// parts, and the size that a part is kept under where it can be.
pub const CHUNK_LIMIT: usize = 25000;

/// The length of `s` in UTF-8 bytes.
pub open spec fn blen(s: Seq<char>) -> nat {
    encode_utf8(s).len()
}

/// A byte count, with every count above the limit taken as one above it.
pub open spec fn capped(n: nat) -> nat {
    if n > CHUNK_LIMIT {
        (CHUNK_LIMIT + 1) as nat
    } else {
        n
    }
}

/// The parts finished so far and the part being filled.
pub type ChunkState = (Seq<Seq<char>>, Seq<char>);

/// Finishes the part being filled, if it holds anything.
pub open spec fn flush(st: ChunkState) -> ChunkState {
    if st.1.len() > 0 {
        (st.0.push(st.1), Seq::empty())
    } else {
        st
    }
}

/// Adds one line of an oversized paragraph: the part is finished first
/// when the line would take it over the limit, and lines are joined with a
/// line feed.
pub open spec fn add_line(st: ChunkState, line: Seq<char>) -> ChunkState {
    let st1 = if blen(st.1) + blen(line) > CHUNK_LIMIT {
        flush(st)
    } else {
        st
    };
    (st1.0, if st1.1.len() > 0 {
        st1.1.push('\n') + line
    } else {
        line
    })
}

pub open spec fn add_lines(st: ChunkState, ls: Seq<Seq<char>>) -> ChunkState
    decreases ls.len(),
{
    if ls.len() == 0 {
        st
    } else {
        add_line(add_lines(st, ls.drop_last()), ls.last())
    }
}

/// Adds one paragraph: when it would take the part over the limit, the part
/// is finished and the paragraph starts the next one, line by line if the
/// paragraph is itself over the limit; otherwise it joins the part after a
/// blank line.
pub open spec fn add_para(st: ChunkState, para: Seq<char>) -> ChunkState {
    if blen(st.1) + blen(para) > CHUNK_LIMIT {
        let st1 = flush(st);
        if blen(para) > CHUNK_LIMIT {
            add_lines(st1, split_on(para, seq!['\n']))
        } else {
            (st1.0, st1.1 + para)
        }
    } else {
        (st.0, if st.1.len() > 0 {
            st.1 + seq!['\n', '\n'] + para
        } else {
            para
        })
    }
}

pub open spec fn add_paras(st: ChunkState, ps: Seq<Seq<char>>) -> ChunkState
    decreases ps.len(),
{
    if ps.len() == 0 {
        st
    } else {
        add_para(add_paras(st, ps.drop_last()), ps.last())
    }
}

/// The part bodies of a section body: its paragraphs (cut at blank lines)
/// gathered into parts.
pub open spec fn chunk_bodies(b: Seq<char>) -> Seq<Seq<char>> {
    flush(add_paras((Seq::empty(), Seq::empty()), split_on(b, seq!['\n', '\n']))).0
}

/// The title of part `k` of a section titled `t`: `t [Part k]`.
pub open spec fn part_title(t: Seq<char>, k: nat) -> Seq<char> {
    t + seq![' ', '[', 'P', 'a', 'r', 't', ' '] + decimal(k) + seq![']']
}

/// The parts of section `s` with the bodies `bs`, numbered from 1.
pub open spec fn parts_view(s: SectionV, bs: Seq<Seq<char>>) -> Seq<SectionV> {
    Seq::new(bs.len(), |k: int| (part_title(s.0, (k + 1) as nat), bs[k], s.2, s.3))
}

/// A section as it is sent: unchanged when its body is within the limit,
/// else cut into numbered parts that keep its line and file.
pub open spec fn chunk_one(s: SectionV) -> Seq<SectionV> {
    if blen(s.1) <= CHUNK_LIMIT {
        seq![s]
    } else {
        parts_view(s, chunk_bodies(s.1))
    }
}

pub open spec fn chunk_all(ss: Seq<SectionV>) -> Seq<SectionV>
    decreases ss.len(),
{
    if ss.len() == 0 {
        Seq::empty()
    } else {
        chunk_all(ss.drop_last()) + chunk_one(ss.last())
    }
}

/// No finished part is empty.
pub open spec fn parts_nonempty(st: ChunkState) -> bool {
    forall|k: int| 0 <= k < st.0.len() ==> (#[trigger] st.0[k]).len() > 0
}

proof fn lemma_flush_nonempty(st: ChunkState)
    requires
        parts_nonempty(st),
    ensures
        parts_nonempty(flush(st)),
{
    if st.1.len() > 0 {
        let f = flush(st);
        assert forall|k: int| 0 <= k < f.0.len() implies (#[trigger] f.0[k]).len() > 0 by {
            if k < st.0.len() {
                assert(f.0[k] == st.0[k]);
            }
        }
    }
}

proof fn lemma_add_lines_nonempty(st: ChunkState, ls: Seq<Seq<char>>)
    requires
        parts_nonempty(st),
    ensures
        parts_nonempty(add_lines(st, ls)),
    decreases ls.len(),
{
    if ls.len() > 0 {
        lemma_add_lines_nonempty(st, ls.drop_last());
        lemma_flush_nonempty(add_lines(st, ls.drop_last()));
    }
}

proof fn lemma_add_paras_nonempty(st: ChunkState, ps: Seq<Seq<char>>)
    requires
        parts_nonempty(st),
    ensures
        parts_nonempty(add_paras(st, ps)),
    decreases ps.len(),
{
    if ps.len() > 0 {
        lemma_add_paras_nonempty(st, ps.drop_last());
        let prev = add_paras(st, ps.drop_last());
        lemma_flush_nonempty(prev);
        lemma_add_lines_nonempty(flush(prev), split_on(ps.last(), seq!['\n']));
    }
}

/// Cutting a section never makes an empty part: every part body has at
/// least one char.
pub proof fn lemma_chunk_parts_nonempty(b: Seq<char>)
    ensures
        forall|k: int| 0 <= k < chunk_bodies(b).len() ==> (#[trigger] chunk_bodies(b)[k]).len() > 0,
{
    let init: ChunkState = (Seq::empty(), Seq::empty());
    let st = add_paras(init, split_on(b, seq!['\n', '\n']));
    lemma_add_paras_nonempty(init, split_on(b, seq!['\n', '\n']));
    lemma_flush_nonempty(st);
}

proof fn lemma_blen_concat(a: Seq<char>, b: Seq<char>)
    ensures
        blen(a + b) == blen(a) + blen(b),
{
    lemma_encode_utf8_concat(a, b);
}

proof fn lemma_blen_newlines()
    ensures
        blen(seq!['\n']) == 1,
        blen(seq!['\n', '\n']) == 2,
        blen(Seq::<char>::empty()) == 0,
{
    crate::text::lemma_encode_char_len('\n');
    assert(seq!['\n', '\n'] =~= seq!['\n'] + seq!['\n']);
    lemma_blen_concat(seq!['\n'], seq!['\n']);
}

/// The UTF-8 length of `cs[lo..hi]`, capped one above the limit.
fn capped_blen(cs: &Vec<char>, lo: usize, hi: usize) -> (r: usize)
    requires
        lo <= hi <= cs@.len(),
    ensures
        r == capped(blen(cs@.subrange(lo as int, hi as int))),
{
    let ghost s = cs@.subrange(lo as int, hi as int);
    let mut acc: usize = 0;
    proof {
        assert(s.take(0) =~= Seq::<char>::empty());
        lemma_blen_newlines();
    }
    for k in lo..hi
        invariant
            lo <= hi <= cs@.len(),
            s == cs@.subrange(lo as int, hi as int),
            acc == capped(blen(s.take(k - lo))),
    {
        let w = char_width(cs[k]);
        proof {
            lemma_byte_offset_step(s, k - lo);
            assert(s[k - lo] == cs@[k as int]);
        }
        if acc + w > CHUNK_LIMIT {
            acc = CHUNK_LIMIT + 1;
        } else {
            acc = acc + w;
        }
    }
    proof {
        assert(s.take(hi - lo) =~= s);
    }
    acc
}

/// A copy of an optional file name.
fn copy_name(f: &Option<String>) -> (r: Option<String>)
    ensures
        match r {
            Some(x) => f.is_some() && x@ == f.unwrap()@,
            None => f.is_none(),
        },
{
    match f {
        Some(x) => Some(x.clone()),
        None => None,
    }
}

/// A copy of a section.
fn copy_section(sec: &Section) -> (r: Section)
    ensures
        section_view(r) == section_view(*sec),
{
    Section {
        title: sec.title.clone(),
        body: sec.body.clone(),
        line_number: sec.line_number,
        filename: copy_name(&sec.filename),
    }
}

/// The title `t [Part k]`.
fn part_title_string(t: &String, k: usize) -> (r: String)
    ensures
        r@ == part_title(t@, k as nat),
{
    let mut r = t.clone();
    push_str(&mut r, " [Part ");
    let d = decimal_string(k);
    push_str(&mut r, d.as_str());
    push_char(&mut r, ']');
    proof {
        reveal_strlit(" [Part ");
        assert(r@ =~= part_title(t@, k as nat));
    }
    r
}

/// The parts of one section being gathered: the part being filled, its
/// capped byte length, and the finished parts.
struct Chunker {
    cur: Vec<char>,
    cur_cap: usize,
    parts: Vec<Section>,
    bodies: Ghost<Seq<Seq<char>>>,
}

impl Chunker {
    spec fn state(&self) -> ChunkState {
        (self.bodies@, self.cur@)
    }

    spec fn wf(&self, s: SectionV) -> bool {
        &&& self.cur_cap == capped(blen(self.cur@))
        &&& sections_view(self.parts@) == parts_view(s, self.bodies@)
    }

    /// Twice the parts finished, plus two while a part is being filled;
    /// each part takes at least one char and one separator of the body,
    /// which keeps the part numbers in range.
    spec fn measure(&self) -> int {
        2 * self.bodies@.len() + if self.cur@.len() > 0 {
            2int
        } else {
            0int
        }
    }

    fn flush(&mut self, sec: &Section)
        requires
            old(self).wf(section_view(*sec)),
            old(self).measure() <= usize::MAX + 1,
        ensures
            final(self).wf(section_view(*sec)),
            final(self).state() == flush(old(self).state()),
            final(self).measure() == old(self).measure(),
    {
        if self.cur.len() > 0 {
            proof {
                assert(sections_view(self.parts@).len() == self.parts@.len());
            }
            let k = self.parts.len() + 1;
            let body = string_from_chars(self.cur.as_slice());
            let part = Section {
                title: part_title_string(&sec.title, k),
                body,
                line_number: sec.line_number,
                filename: copy_name(&sec.filename),
            };
            let ghost before = self.parts@;
            let ghost bs = self.bodies@;
            self.parts.push(part);
            self.bodies = Ghost(bs.push(self.cur@));
            self.cur = Vec::new();
            self.cur_cap = 0;
            proof {
                lemma_blen_newlines();
                let sv = section_view(*sec);
                assert(section_view(part) == (part_title(sv.0, (bs.len() + 1) as nat), old(self).cur@, sv.2, sv.3));
                assert forall|q: int| 0 <= q < self.parts@.len() implies #[trigger] sections_view(self.parts@)[q]
                    == parts_view(sv, self.bodies@)[q] by {
                    if q < before.len() {
                        assert(sections_view(before)[q] == parts_view(sv, bs)[q]);
                    }
                }
                assert(sections_view(self.parts@) =~= parts_view(sv, self.bodies@));
            }
        }
    }

    /// Appends `b[lo..hi]` to the part being filled, after one line feed
    /// (two when `two`) unless the part is empty.
    fn extend(&mut self, sec: &Section, b: &Vec<char>, lo: usize, hi: usize, w: usize, two: bool)
        requires
            old(self).wf(section_view(*sec)),
            lo <= hi <= b@.len(),
            w == capped(blen(b@.subrange(lo as int, hi as int))),
        ensures
            final(self).wf(section_view(*sec)),
            final(self).bodies@ == old(self).bodies@,
            final(self).cur@ == if old(self).cur@.len() > 0 {
                old(self).cur@ + (if two {
                    seq!['\n', '\n']
                } else {
                    seq!['\n']
                }) + b@.subrange(lo as int, hi as int)
            } else {
                b@.subrange(lo as int, hi as int)
            },
            final(self).measure() == old(self).measure() + if old(self).cur@.len() == 0 && hi > lo {
                2int
            } else {
                0int
            },
    {
        let ghost line = b@.subrange(lo as int, hi as int);
        let ghost c1 = self.cur@;
        let ghost nls = if two {
            seq!['\n', '\n']
        } else {
            seq!['\n']
        };
        let had = self.cur.len() > 0;
        if had {
            self.cur.push('\n');
            if two {
                self.cur.push('\n');
            }
        }
        let ghost c2 = self.cur@;
        let ghost p0 = self.parts@;
        let ghost b0 = self.bodies@;
        let cc = self.cur_cap;
        proof {
            assert(cc <= CHUNK_LIMIT + 1);
        }
        for k in lo..hi
            invariant
                lo <= hi <= b@.len(),
                self.cur@ == c2 + b@.subrange(lo as int, k as int),
                self.parts@ == p0,
                self.bodies@ == b0,
                self.cur_cap == cc,
        {
            self.cur.push(b[k]);
            proof {
                assert(b@.subrange(lo as int, k + 1) =~= b@.subrange(lo as int, k as int).push(b@[k as int]));
            }
        }
        let gap: usize = if two {
            2
        } else {
            1
        };
        proof {
            lemma_blen_newlines();
            lemma_blen_concat(c2, line);
            if had {
                assert(c2 =~= c1 + nls);
                lemma_blen_concat(c1, nls);
            } else {
                assert(c2 + line =~= line);
            }
            assert(self.cur@ == c2 + line);
            if hi > lo {
                assert(self.cur@.len() > 0);
            }
        }
        self.cur_cap = if !had {
            w
        } else if cc + w + gap > CHUNK_LIMIT {
            CHUNK_LIMIT + 1
        } else {
            cc + w + gap
        };
    }

    /// Adds the line `b[lo..hi]`.
    fn add_line(&mut self, sec: &Section, b: &Vec<char>, lo: usize, hi: usize)
        requires
            old(self).wf(section_view(*sec)),
            lo <= hi <= b@.len(),
            old(self).measure() <= lo + 1,
        ensures
            final(self).wf(section_view(*sec)),
            final(self).state() == add_line(old(self).state(), b@.subrange(lo as int, hi as int)),
            final(self).measure() <= hi + 2,
    {
        let ghost line = b@.subrange(lo as int, hi as int);
        let w = capped_blen(b, lo, hi);
        let ghost st0 = self.state();
        let over = self.cur_cap + w > CHUNK_LIMIT;
        if over {
            self.flush(sec);
        }
        self.extend(sec, b, lo, hi, w, false);
    }

    /// Adds the paragraph `b[lo..hi]`.
    fn add_para(&mut self, sec: &Section, b: &Vec<char>, lo: usize, hi: usize)
        requires
            old(self).wf(section_view(*sec)),
            lo <= hi <= b@.len(),
            old(self).measure() <= lo + 1,
        ensures
            final(self).wf(section_view(*sec)),
            final(self).state() == add_para(old(self).state(), b@.subrange(lo as int, hi as int)),
            final(self).measure() <= hi + 2,
    {
        let ghost para = b@.subrange(lo as int, hi as int);
        let ghost st0 = self.state();
        let w = capped_blen(b, lo, hi);
        if self.cur_cap + w > CHUNK_LIMIT {
            self.flush(sec);
            let ghost st1 = self.state();
            if w > CHUNK_LIMIT {
                let nl: Vec<char> = vec!['\n'];
                let lines = split_bounds(b, lo, hi, &nl);
                let ghost ls = split_on(para, seq!['\n']);
                proof {
                    assert(nl@ =~= seq!['\n']);
                    assert(ls.take(0) =~= Seq::<Seq<char>>::empty());
                }
                for j in 0..lines.len()
                    invariant
                        self.wf(section_view(*sec)),
                        lo <= hi <= b@.len(),
                        para == b@.subrange(lo as int, hi as int),
                        nl@ == seq!['\n'],
                        ls == split_on(para, seq!['\n']),
                        lines@.len() == ls.len(),
                        lines@.len() > 0,
                        lines@[0].0 == lo,
                        lines@.last().1 == hi,
                        forall|q: int|
                            0 <= q < lines@.len() ==> lo <= (#[trigger] lines@[q]).0 <= lines@[q].1 <= hi
                                && b@.subrange(lines@[q].0 as int, lines@[q].1 as int) == ls[q],
                        forall|q: int| 0 <= q < lines@.len() - 1 ==> (#[trigger] lines@[q + 1]).0 == lines@[q].1 + 1,
                        self.state() == add_lines(st1, ls.take(j as int)),
                        j == 0 ==> self.measure() <= lo + 1,
                        j > 0 ==> self.measure() <= lines@[j - 1].1 + 2,
                {
                    proof {
                        if j > 0 {
                            let q: int = j - 1;
                            assert(lines@[q + 1].0 == lines@[q].1 + 1);
                        }
                        assert(ls.take(j + 1).drop_last() =~= ls.take(j as int));
                    }
                    self.add_line(sec, b, lines[j].0, lines[j].1);
                }
                proof {
                    assert(ls.take(ls.len() as int) =~= ls);
                }
            } else {
                self.extend(sec, b, lo, hi, w, false);
                proof {
                    assert(st1.1.len() == 0);
                }
            }
        } else {
            self.extend(sec, b, lo, hi, w, true);
        }
    }
}

/// Appends to `out` the section `sec` as it is sent (see [`chunk_one`]).
fn chunk_section(sec: &Section, out: &mut Vec<Section>)
    ensures
        sections_view(final(out)@) == sections_view(old(out)@) + chunk_one(section_view(*sec)),
{
    let b = chars_of(sec.body.as_str());
    let n = b.len();
    let total = capped_blen(&b, 0, n);
    proof {
        assert(b@.subrange(0, n as int) =~= b@);
    }
    if total <= CHUNK_LIMIT {
        let ghost before = out@;
        out.push(copy_section(sec));
        proof {
            assert(sections_view(out@) =~= sections_view(before) + chunk_one(section_view(*sec)));
        }
        return;
    }
    let dd: Vec<char> = vec!['\n', '\n'];
    let paras = split_bounds(&b, 0, n, &dd);
    let ghost ps = split_on(b@, seq!['\n', '\n']);
    let mut ch = Chunker { cur: Vec::new(), cur_cap: 0, parts: Vec::new(), bodies: Ghost(Seq::empty()) };
    let ghost init: ChunkState = (Seq::empty(), Seq::empty());
    proof {
        assert(dd@ =~= seq!['\n', '\n']);
        assert(ps.take(0) =~= Seq::<Seq<char>>::empty());
        lemma_blen_newlines();
        assert(ch.cur@ =~= Seq::<char>::empty());
        assert(ch.state() =~= init);
        assert(sections_view(ch.parts@) =~= parts_view(section_view(*sec), ch.bodies@));
    }
    for k in 0..paras.len()
        invariant
            ch.wf(section_view(*sec)),
            n == b@.len(),
            b@ == sec.body@,
            dd@ == seq!['\n', '\n'],
            ps == split_on(b@, seq!['\n', '\n']),
            paras@.len() == ps.len(),
            paras@.len() > 0,
            paras@[0].0 == 0,
            paras@.last().1 == n,
            forall|q: int|
                0 <= q < paras@.len() ==> 0 <= (#[trigger] paras@[q]).0 <= paras@[q].1 <= n && b@.subrange(
                    paras@[q].0 as int,
                    paras@[q].1 as int,
                ) == ps[q],
            forall|q: int| 0 <= q < paras@.len() - 1 ==> (#[trigger] paras@[q + 1]).0 == paras@[q].1 + 2,
            ch.state() == add_paras(init, ps.take(k as int)),
            k == 0 ==> ch.measure() <= 1,
            k > 0 ==> ch.measure() <= paras@[k - 1].1 + 2,
    {
        proof {
            if k > 0 {
                let q: int = k - 1;
                assert(paras@[q + 1].0 == paras@[q].1 + 2);
            }
            assert(ps.take(k + 1).drop_last() =~= ps.take(k as int));
        }
        ch.add_para(sec, &b, paras[k].0, paras[k].1);
    }
    proof {
        assert(ps.take(ps.len() as int) =~= ps);
        assert(ch.measure() <= n + 2);
        assert(ch.measure() % 2 == 0);
    }
    ch.flush(sec);
    let ghost before = out@;
    let ghost mine = ch.parts@;
    out.append(&mut ch.parts);
    proof {
        assert(out@ == before + mine);
        assert(sections_view(out@) =~= sections_view(before) + sections_view(mine));
    }
}

/// The sections as they are sent to the remote store: those whose body is
/// over [`CHUNK_LIMIT`] UTF-8 bytes are cut into numbered parts (see
/// [`chunk_one`]), the others are kept as they are, in order.
pub fn chunk_large_sections(sections: Vec<Section>) -> (r: Vec<Section>)
    ensures
        sections_view(r@) == chunk_all(sections_view(sections@)),
{
    let mut out: Vec<Section> = Vec::new();
    proof {
        assert(sections_view(out@) =~= chunk_all(sections_view(sections@).take(0)));
    }
    for i in 0..sections.len()
        invariant
            sections_view(out@) == chunk_all(sections_view(sections@).take(i as int)),
    {
        chunk_section(&sections[i], &mut out);
        proof {
            let sv = sections_view(sections@);
            assert(sv.take(i + 1).drop_last() =~= sv.take(i as int));
            assert(sv.take(i + 1).last() == section_view(sections@[i as int]));
        }
    }
    proof {
        assert(sections_view(sections@).take(sections@.len() as int) =~= sections_view(sections@));
    }
    out
}

// ─── Corpus files ───────────────────────────────────────────────────────

/// A file name as a value.
pub open spec fn name_view(f: Option<String>) -> Option<Seq<char>> {
    match f {
        Some(x) => Some(x@),
        None => None,
    }
}

/// The sections `ss`, each recording the file name `name`.
pub open spec fn with_file(ss: Seq<SectionV>, name: Option<Seq<char>>) -> Seq<SectionV> {
    ss.map_values(|s: SectionV| (s.0, s.1, s.2, name))
}

/// The sections of one file of the corpus, each recording `filename`: a
/// plain-text file is one section, titled `title`, from line 1; any other
/// file is read as Markdown.
pub fn file_sections(title: &str, content: &str, plain_text: bool, filename: Option<String>) -> (r: Vec<Section>)
    ensures
        sections_view(r@) == if plain_text {
            seq![(title@, content@, 1nat, name_view(filename))]
        } else {
            with_file(md_sections(content@), name_view(filename))
        },
{
    let mut out: Vec<Section> = Vec::new();
    if plain_text {
        out.push(Section { title: title.to_owned(), body: content.to_owned(), line_number: 1, filename });
        proof {
            assert(sections_view(out@) =~= seq![(title@, content@, 1nat, name_view(filename))]);
        }
        return out;
    }
    let parsed = parse_markdown(content);
    let ghost pv = sections_view(parsed@);
    for i in 0..parsed.len()
        invariant
            pv == sections_view(parsed@),
            pv == md_sections(content@),
            sections_view(out@) == with_file(pv.take(i as int), name_view(filename)),
    {
        let sec = &parsed[i];
        let named = copy_name(&filename);
        let part = Section { title: sec.title.clone(), body: sec.body.clone(), line_number: sec.line_number, filename: named };
        let ghost before = sections_view(out@);
        proof {
            assert(pv[i as int] == section_view(parsed@[i as int]));
            assert(section_view(part) == (pv[i as int].0, pv[i as int].1, pv[i as int].2, name_view(filename)));
        }
        out.push(part);
        proof {
            assert(sections_view(out@) =~= before.push(section_view(part)));
            assert(pv.take(i + 1) =~= pv.take(i as int).push(pv[i as int]));
            assert(sections_view(out@) =~= with_file(pv.take(i + 1), name_view(filename)));
        }
    }
    proof {
        assert(pv.take(parsed@.len() as int) =~= pv);
    }
    out
}

// ─── Cached sessions ────────────────────────────────────────────────────

/// How long a remote session is reused, in seconds (seven days).
pub const SESSION_TTL_SECS: u64 = 604800;

/// A remote session remembered for a corpus: the corpus path, its
/// modification time and size when the session was made, the session id,
/// and when it was made (seconds since the Unix epoch).
#[derive(Debug, Clone)]
pub struct SessionCache {
    pub corpus_path: String,
    pub corpus_mtime: u64,
    pub corpus_size: u64,
    pub session_id: String,
    pub created_at: u64,
}

/// Whether two texts are the same.
fn same_text(a: &str, b: &str) -> (r: bool)
    ensures
        r == (a@ == b@),
{
    let x = chars_of(a);
    let y = chars_of(b);
    if x.len() != y.len() {
        return false;
    }
    let mut i: usize = 0;
    while i < x.len()
        invariant
            x@ == a@,
            y@ == b@,
            x@.len() == y@.len(),
            i <= x@.len(),
            forall|k: int| 0 <= k < i ==> x@[k] == y@[k],
        decreases x@.len() - i,
    {
        if x[i] != y[i] {
            proof {
                assert(x@[i as int] != y@[i as int]);
            }
            return false;
        }
        i = i + 1;
    }
    proof {
        assert(x@ =~= y@);
    }
    true
}

/// Whether a cache was made for this corpus: the same path, size and
/// modification time.
pub fn corpus_matches(
    cached_path: &str,
    cached_size: u64,
    cached_mtime: u64,
    path: &str,
    size: u64,
    mtime: u64,
) -> (r: bool)
    ensures
        r == (cached_path@ == path@ && cached_size == size && cached_mtime == mtime),
{
    same_text(cached_path, path) && cached_size == size && cached_mtime == mtime
}

/// The session of `cache`, when it was made for this corpus (same path,
/// size and modification time) and is at most [`SESSION_TTL_SECS`] old at
/// the time `now`; a cache from the future is not used.
pub fn cached_session_id(cache: &SessionCache, corpus_path: &str, size: u64, mtime: u64, now: u64) -> (r:
    Option<String>)
    ensures
        r is Some <==> (cache.corpus_path@ == corpus_path@ && cache.corpus_size == size && cache.corpus_mtime
            == mtime && cache.created_at <= now && now - cache.created_at <= SESSION_TTL_SECS),
        r matches Some(id) ==> id@ == cache.session_id@,
{
    if !corpus_matches(cache.corpus_path.as_str(), cache.corpus_size, cache.corpus_mtime, corpus_path, size, mtime) {
        return None;
    }
    if now < cache.created_at || now - cache.created_at > SESSION_TTL_SECS {
        return None;
    }
    Some(cache.session_id.clone())
}

// ─── Reading the remote store's answers ─────────────────────────────────

/// The value of the decimal digits `d`.
pub open spec fn digits_value(d: Seq<char>) -> nat
    decreases d.len(),
{
    if d.len() == 0 {
        0
    } else {
        digits_value(d.drop_last()) * 10 + ((d.last() as u32) - 48) as nat
    }
}

pub open spec fn all_digits(d: Seq<char>) -> bool {
    forall|i: int| 0 <= i < d.len() ==> '0' <= #[trigger] d[i] <= '9'
}

/// What `str::parse::<usize>` gives: an optional `+`, then at least one
/// decimal digit and nothing else, of a value that fits.
pub open spec fn parsed_index(s: Seq<char>) -> Option<nat> {
    let d = if s.len() > 0 && s[0] == '+' {
        s.skip(1)
    } else {
        s
    };
    if d.len() > 0 && all_digits(d) && digits_value(d) <= usize::MAX {
        Some(digits_value(d))
    } else {
        None
    }
}

proof fn lemma_digits_value_grows(d: Seq<char>, k: int)
    requires
        0 <= k <= d.len(),
        all_digits(d),
    ensures
        digits_value(d.take(k)) <= digits_value(d),
    decreases d.len() - k,
{
    if k < d.len() {
        lemma_digits_value_grows(d, k + 1);
        assert(d.take(k + 1).drop_last() =~= d.take(k));
    } else {
        assert(d.take(k) =~= d);
    }
}

/// The section index that the remote store gives as a chunk's source
/// (`str::parse::<usize>`).
pub fn parse_index(s: &str) -> (r: Option<usize>)
    ensures
        match r {
            Some(v) => parsed_index(s@) == Some(v as nat),
            None => parsed_index(s@) is None,
        },
{
    let cs = chars_of(s);
    let start: usize = if cs.len() > 0 && cs[0] == '+' {
        1
    } else {
        0
    };
    let ghost d = if s@.len() > 0 && s@[0] == '+' {
        s@.skip(1)
    } else {
        s@
    };
    proof {
        assert(d =~= cs@.skip(start as int));
    }
    if start == cs.len() {
        return None;
    }
    let mut v: usize = 0;
    let mut i = start;
    proof {
        assert(d.take(0) =~= Seq::<char>::empty());
    }
    while i < cs.len()
        invariant
            start <= i <= cs@.len(),
            cs@ == s@,
            d == (if s@.len() > 0 && s@[0] == '+' {
                s@.skip(1)
            } else {
                s@
            }),
            d.len() > 0,
            d == cs@.skip(start as int),
            all_digits(d.take(i - start)),
            v == digits_value(d.take(i - start)),
        decreases cs@.len() - i,
    {
        let c = cs[i];
        proof {
            assert(d.take(i - start + 1).drop_last() =~= d.take(i - start));
            assert(d[i - start] == c);
        }
        if c < '0' || c > '9' {
            proof {
                assert(!('0' <= d[i - start] <= '9'));
                assert(!all_digits(d));
            }
            return None;
        }
        let digit = ((c as u32) - 48) as usize;
        proof {
            assert(digits_value(d.take(i - start + 1)) == v * 10 + digit);
            assert(all_digits(d.take(i - start + 1)));
        }
        match v.checked_mul(10) {
            Some(m) => match m.checked_add(digit) {
                Some(nv) => {
                    v = nv;
                },
                None => {
                    proof {
                        if all_digits(d) {
                            lemma_digits_value_grows(d, i - start + 1);
                        }
                    }
                    return None;
                },
            },
            None => {
                proof {
                    if all_digits(d) {
                        lemma_digits_value_grows(d, i - start + 1);
                    }
                }
                return None;
            },
        }
        i = i + 1;
    }
    proof {
        assert(d.take(i - start) =~= d);
    }
    Some(v)
}

// ─── The interactive prompt ─────────────────────────────────────────────

// ─── The semantic half of a query ───────────────────────────────────────

/// Where the semantic results of a query come from.
#[derive(Debug, Clone, Copy, PartialEq, Eq, Structural)]
pub enum SemanticSource {
    /// The local cache holds them: no request is made.
    Cache,
    /// No remote session yet: ingest the corpus into a new one, then ask it.
    IngestThenAsk,
    /// Ask the remote session.
    Ask,
}

/// How the remote store answered a search.
#[derive(Debug, Clone, Copy, PartialEq, Eq, Structural)]
pub enum SearchReply {
    /// Results that parsed.
    Results,
    /// A reply whose body did not parse.
    Unreadable,
    /// HTTP 404: the session is gone.
    NotFound,
    /// Any other failure.
    Failed,
}

/// What to do with a reply.
#[derive(Debug, Clone, Copy, PartialEq, Eq, Structural)]
pub enum ReplyAction {
    /// Keep the results in the cache, save it, and rank with them.
    CacheAndUse,
    /// Rank without semantic results.
    UseNone,
    /// Forget the session (its cache file and id) and report failure, so
    /// that the query is tried again on a new session.
    DropSessionAndRetry,
}

/// Where a query's semantic results come from: the cache when it holds
/// the query's key, otherwise the remote session, made first when there
/// is none.
pub fn semantic_source(cached: bool, has_session: bool) -> (r: SemanticSource)
    ensures
        r == (if cached {
            SemanticSource::Cache
        } else if has_session {
            SemanticSource::Ask
        } else {
            SemanticSource::IngestThenAsk
        }),
{
    if cached {
        SemanticSource::Cache
    } else if has_session {
        SemanticSource::Ask
    } else {
        SemanticSource::IngestThenAsk
    }
}

/// What a reply of the remote store leads to: results are cached and used,
/// a vanished session (404) is dropped and the query retried, and any
/// other failure leaves the query without semantic results.
pub fn reply_action(reply: SearchReply) -> (r: ReplyAction)
    ensures
        r == match reply {
            SearchReply::Results => ReplyAction::CacheAndUse,
            SearchReply::NotFound => ReplyAction::DropSessionAndRetry,
            _ => ReplyAction::UseNone,
        },
{
    match reply {
        SearchReply::Results => ReplyAction::CacheAndUse,
        SearchReply::NotFound => ReplyAction::DropSessionAndRetry,
        SearchReply::Unreadable => ReplyAction::UseNone,
        SearchReply::Failed => ReplyAction::UseNone,
    }
}

/// What a line typed at the prompt asks for.
#[derive(Debug)]
pub enum PromptInput {
    /// A blank line: ask again.
    Blank,
    /// `exit` or `quit`.
    Quit,
    /// A query: the line trimmed.
    Query(String),
}

pub open spec fn exit_word() -> Seq<char> {
    seq!['e', 'x', 'i', 't']
}

pub open spec fn quit_word() -> Seq<char> {
    seq!['q', 'u', 'i', 't']
}

/// Reads a line typed at the prompt: blank, a word that ends the session,
/// or a query (the line trimmed).
pub fn read_prompt(line: &str) -> (r: PromptInput)
    ensures
        match r {
            PromptInput::Blank => trim(line@).len() == 0,
            PromptInput::Quit => trim(line@) == exit_word() || trim(line@) == quit_word(),
            PromptInput::Query(q) => q@ == trim(line@) && trim(line@).len() > 0 && trim(line@) != exit_word()
                && trim(line@) != quit_word(),
        },
{
    let cs = chars_of(line);
    let t = trim_range(cs.as_slice(), 0, cs.len());
    let exit = "exit";
    let quit = "quit";
    proof {
        assert(cs@.subrange(0, cs@.len() as int) =~= cs@);
        reveal_strlit("exit");
        reveal_strlit("quit");
        assert(exit@ =~= exit_word());
        assert(quit@ =~= quit_word());
    }
    if t.len() == 0 {
        return PromptInput::Blank;
    }
    let q = string_from_chars(t.as_slice());
    if same_text(q.as_str(), exit) || same_text(q.as_str(), quit) {
        PromptInput::Quit
    } else {
        PromptInput::Query(q)
    }
}

// ─── The semantic query cache ───────────────────────────────────────────

/// The lowercase of a text by Unicode's rules (`str::to_lowercase`).
pub uninterp spec fn unicode_lowercase(s: Seq<char>) -> Seq<char>;

/// `str::to_lowercase`.
#[verifier::external_body]
fn lowercase(s: &str) -> (r: String)
    ensures
        r@ == unicode_lowercase(s@),
{
    s.to_lowercase()
}

/// The key under which a query's semantic results are cached: the query
/// trimmed and lower-cased.
pub fn query_cache_key(query: &str) -> (r: String)
    ensures
        r@ == unicode_lowercase(trim(query@)),
{
    let cs = chars_of(query);
    let t = trim_range(cs.as_slice(), 0, cs.len());
    proof {
        assert(cs@.subrange(0, cs@.len() as int) =~= cs@);
    }
    let ts = string_from_chars(t.as_slice());
    lowercase(ts.as_str())
}

} // verus!
