//! Reading dictionaries: CSV lines, tab-separated dictionaries, CSV files
//! with an optional `action` column, file stems as kinds, and record ids.

use vstd::prelude::*;
use crate::tagger::Entry;
use crate::text::chars_of;
use crate::text::decimal;
use crate::text::decimal_string;
use crate::text::line_bounds;
use crate::text::push_char;
use crate::text::split_from;
use crate::text::split_lines;
use crate::text::split_on;
use crate::text::string_from_chars;
use crate::text::trim;
use crate::text::trim_range;

verus! {

/// `s` without its trailing carriage returns.
pub open spec fn trim_cr(s: Seq<char>) -> Seq<char>
    decreases s.len(),
{
    if s.len() > 0 && s.last() == '\r' {
        trim_cr(s.drop_last())
    } else {
        s
    }
}

/// The CSV parser from position `i` on, inside quotes or not, with the
/// field read so far and the fields finished before it.
pub open spec fn csv_run(
    s: Seq<char>,
    i: int,
    in_quotes: bool,
    cur: Seq<char>,
    out: Seq<Seq<char>>,
) -> Seq<Seq<char>>
    decreases s.len() - i,
{
    if i >= s.len() || i < 0 {
        out.push(cur)
    } else {
        let c = s[i];
        if in_quotes {
            if c == '"' {
                if i + 1 < s.len() && s[i + 1] == '"' {
                    csv_run(s, i + 2, true, cur.push('"'), out)
                } else {
                    csv_run(s, i + 1, false, cur, out)
                }
            } else {
                csv_run(s, i + 1, true, cur.push(c), out)
            }
        } else if c == '"' && cur.len() == 0 {
            csv_run(s, i + 1, true, cur, out)
        } else if c == ',' {
            csv_run(s, i + 1, false, Seq::empty(), out.push(cur))
        } else {
            csv_run(s, i + 1, false, cur.push(c), out)
        }
    }
}

/// The fields of a CSV line: trailing carriage returns are dropped; commas
/// separate fields; a quote opening a field starts a quoted part, in which
/// commas are plain and `""` stands for one quote.
pub open spec fn spec_csv_fields(line: Seq<char>) -> Seq<Seq<char>> {
    csv_run(trim_cr(line), 0, false, Seq::empty(), Seq::empty())
}

proof fn lemma_trim_cr_prefix(s: Seq<char>) -> (k: int)
    ensures
        0 <= k <= s.len(),
        trim_cr(s) == s.take(k),
    decreases s.len(),
{
    if s.len() > 0 && s.last() == '\r' {
        let k = lemma_trim_cr_prefix(s.drop_last());
        assert(s.drop_last().take(k) =~= s.take(k));
        k
    } else {
        assert(s.take(s.len() as int) =~= s);
        s.len() as int
    }
}

proof fn lemma_csv_run_plain(s: Seq<char>, start: int, i: int, out: Seq<Seq<char>>)
    requires
        0 <= start <= i <= s.len(),
        forall|q: int| 0 <= q < s.len() ==> s[q] != '"',
        forall|q: int| start <= q < i ==> s[q] != ',',
    ensures
        csv_run(s, i, false, s.subrange(start, i), out) == out + split_from(s, seq![','], start, i),
    decreases s.len() - i,
{
    if i < s.len() {
        assert(s.subrange(i, i + 1) == seq![','] <==> s[i] == ',') by {
            if s[i] == ',' {
                assert(s.subrange(i, i + 1) =~= seq![',']);
            }
            if s.subrange(i, i + 1) == seq![','] {
                assert(s.subrange(i, i + 1)[0] == s[i]);
            }
        }
        if s[i] == ',' {
            lemma_csv_run_plain(s, i + 1, i + 1, out.push(s.subrange(start, i)));
            assert(s.subrange(i + 1, i + 1) =~= Seq::<char>::empty());
            assert(out.push(s.subrange(start, i)) + split_from(s, seq![','], i + 1, i + 1) =~= out + (seq![
                s.subrange(start, i),
            ] + split_from(s, seq![','], i + 1, i + 1)));
        } else {
            assert(s.subrange(start, i).push(s[i]) =~= s.subrange(start, i + 1));
            lemma_csv_run_plain(s, start, i + 1, out);
        }
    } else {
        assert(out.push(s.subrange(start, i)) =~= out + seq![s.subrange(start, s.len() as int)]);
    }
}

/// A CSV line without quotes has as fields the pieces between its commas
/// (after trailing carriage returns are dropped).
pub proof fn lemma_csv_plain_fields(line: Seq<char>)
    requires
        forall|q: int| 0 <= q < line.len() ==> line[q] != '"',
    ensures
        spec_csv_fields(line) == split_on(trim_cr(line), seq![',']),
{
    let k = lemma_trim_cr_prefix(line);
    let s = trim_cr(line);
    assert forall|q: int| 0 <= q < s.len() implies s[q] != '"' by {
        assert(s[q] == line[q]);
    }
    assert(s.subrange(0, 0) =~= Seq::<char>::empty());
    lemma_csv_run_plain(s, 0, 0, Seq::empty());
    assert(Seq::<Seq<char>>::empty() + split_from(s, seq![','], 0, 0) =~= split_from(s, seq![','], 0, 0));
}

/// A field's text with every quote doubled.
pub open spec fn csv_escape(f: Seq<char>) -> Seq<char>
    decreases f.len(),
{
    if f.len() == 0 {
        Seq::empty()
    } else {
        (if f[0] == '"' {
            seq!['"', '"']
        } else {
            seq![f[0]]
        }) + csv_escape(f.drop_first())
    }
}

/// A field in quotes, its quotes doubled.
pub open spec fn csv_quoted(f: Seq<char>) -> Seq<char> {
    seq!['"'] + csv_escape(f) + seq!['"']
}

/// The fields, each quoted, joined with commas.
pub open spec fn csv_quoted_line(fs: Seq<Seq<char>>) -> Seq<char>
    decreases fs.len(),
{
    if fs.len() <= 1 {
        if fs.len() == 1 {
            csv_quoted(fs[0])
        } else {
            Seq::empty()
        }
    } else {
        csv_quoted(fs[0]) + seq![','] + csv_quoted_line(fs.drop_first())
    }
}

/// Reading the escaped text of `f` inside quotes, up to its closing quote
/// followed by a comma or the end, adds `f` to the field.
proof fn lemma_csv_read_quoted(s: Seq<char>, i: int, f: Seq<char>, cur: Seq<char>, out: Seq<Seq<char>>)
    requires
        0 <= i,
        i + csv_escape(f).len() < s.len(),
        forall|q: int| 0 <= q < csv_escape(f).len() ==> s[i + q] == #[trigger] csv_escape(f)[q],
        s[i + csv_escape(f).len()] == '"',
        i + csv_escape(f).len() + 1 == s.len() || s[i + csv_escape(f).len() + 1] == ',',
    ensures
        csv_run(s, i, true, cur, out) == csv_run(s, i + csv_escape(f).len() + 1, false, cur + f, out),
    decreases f.len(),
{
    if f.len() == 0 {
        assert(cur + f =~= cur);
    } else {
        let g = f.drop_first();
        let h: Seq<char> = if f[0] == '"' {
            seq!['"', '"']
        } else {
            seq![f[0]]
        };
        let e = csv_escape(f);
        assert(e == h + csv_escape(g));
        assert forall|q: int| 0 <= q < csv_escape(g).len() implies s[(i + h.len()) + q] == #[trigger] csv_escape(
            g,
        )[q] by {
            assert(e[h.len() + q] == csv_escape(g)[q]);
            assert(s[i + (h.len() + q)] == e[h.len() + q]);
        }
        assert(s[i] == e[0]);
        if f[0] == '"' {
            assert(s[i + 1] == e[1]);
            lemma_csv_read_quoted(s, i + 2, g, cur.push('"'), out);
        } else {
            lemma_csv_read_quoted(s, i + 1, g, cur.push(f[0]), out);
        }
        assert(cur.push(f[0]) + g =~= cur + f);
    }
}

/// Reading quoted fields from the start of the `k`th one.
proof fn lemma_csv_read_fields(s: Seq<char>, i: int, fs: Seq<Seq<char>>, out: Seq<Seq<char>>)
    requires
        0 <= i <= s.len(),
        fs.len() >= 1,
        s.skip(i) == csv_quoted_line(fs),
    ensures
        csv_run(s, i, false, Seq::empty(), out) == out + fs,
    decreases fs.len(),
{
    let f = fs[0];
    let e = csv_escape(f);
    let n: int = e.len() as int;
    let t = s.skip(i);
    let qf = csv_quoted(f);
    assert(qf.len() == n + 2);
    assert(t.len() >= n + 2 && t.take(n + 2) =~= qf) by {
        if fs.len() > 1 {
            assert(t == qf + seq![','] + csv_quoted_line(fs.drop_first()));
        } else {
            assert(t == qf);
        }
    }
    assert(t.len() == s.len() - i);
    assert(t[0] == qf[0]);
    assert(s[i] == '"');
    assert forall|q: int| 0 <= q < n implies s[(i + 1) + q] == #[trigger] e[q] by {
        assert(t[1 + q] == qf[1 + q]);
        assert(s[i + (1 + q)] == t[1 + q]);
    }
    assert(t[n + 1] == qf[n + 1]);
    assert(s[i + 1 + n] == '"');
    if fs.len() == 1 {
        assert(t.len() == n + 2);
        lemma_csv_read_quoted(s, i + 1, f, Seq::empty(), out);
        assert(Seq::<char>::empty() + f =~= f);
        assert(out.push(f) =~= out + fs);
    } else {
        let rest = fs.drop_first();
        assert(t == qf + seq![','] + csv_quoted_line(rest));
        assert(t[n + 2] == ',');
        assert(s[i + n + 2] == ',');
        lemma_csv_read_quoted(s, i + 1, f, Seq::empty(), out);
        assert(Seq::<char>::empty() + f =~= f);
        assert(s.skip(i + n + 3) =~= csv_quoted_line(rest)) by {
            assert(t.skip(n + 3) =~= csv_quoted_line(rest));
        }
        lemma_csv_read_fields(s, i + n + 3, rest, out.push(f));
        assert(out.push(f) + rest =~= out + fs);
    }
}

/// Quoting every field, doubling its quotes, and joining them with commas
/// is undone by the parser: the fields come back exactly, commas and
/// quotes inside them included.
pub proof fn lemma_csv_quoted_round_trip(fs: Seq<Seq<char>>)
    requires
        fs.len() >= 1,
    ensures
        spec_csv_fields(csv_quoted_line(fs)) == fs,
{
    let line = csv_quoted_line(fs);
    let f = fs[0];
    assert(line.len() > 0 && line.last() == '"') by {
        if fs.len() == 1 {
            assert(line == csv_quoted(f));
        } else {
            lemma_csv_line_ends_quote(fs);
        }
    }
    assert(trim_cr(line) == line);
    assert(line.skip(0) =~= line);
    lemma_csv_read_fields(line, 0, fs, Seq::empty());
    assert(Seq::<Seq<char>>::empty() + fs =~= fs);
}

proof fn lemma_csv_line_ends_quote(fs: Seq<Seq<char>>)
    requires
        fs.len() >= 1,
    ensures
        csv_quoted_line(fs).len() > 0,
        csv_quoted_line(fs).last() == '"',
    decreases fs.len(),
{
    if fs.len() > 1 {
        lemma_csv_line_ends_quote(fs.drop_first());
    }
}

/// How many chars of `cs[..n]` remain once trailing carriage returns go.
fn trimmed_cr_len(cs: &Vec<char>) -> (n: usize)
    ensures
        n <= cs@.len(),
        cs@.take(n as int) == trim_cr(cs@),
{
    let mut n = cs.len();
    proof {
        assert(cs@.take(n as int) =~= cs@);
    }
    while n > 0 && cs[n - 1] == '\r'
        invariant
            n <= cs@.len(),
            trim_cr(cs@) == trim_cr(cs@.take(n as int)),
        decreases n,
    {
        proof {
            assert(cs@.take(n as int).drop_last() =~= cs@.take(n - 1));
        }
        n = n - 1;
    }
    proof {
        if n > 0 {
            assert(cs@.take(n as int).last() == cs@[n - 1]);
        }
    }
    n
}

/// Splits a CSV line into its fields (quoted fields, embedded commas and
/// `""` escapes supported).
pub fn parse_csv_line(line: &str) -> (r: Vec<String>)
    ensures
        r@.map_values(|f: String| f@) == spec_csv_fields(line@),
{
    let all = chars_of(line);
    let n = trimmed_cr_len(&all);
    let ghost s = all@.take(n as int);
    let mut out: Vec<String> = Vec::new();
    let mut cur = String::new();
    let mut in_quotes = false;
    let mut i: usize = 0;
    assert(out@.map_values(|f: String| f@) =~= Seq::<Seq<char>>::empty());
    while i < n
        invariant
            n <= all@.len(),
            s == all@.take(n as int),
            s == trim_cr(line@),
            i <= n + 1,
            csv_run(s, i as int, in_quotes, cur@, out@.map_values(|f: String| f@)) == spec_csv_fields(
                line@,
            ),
        decreases n + 1 - i,
    {
        let c = all[i];
        let ghost ov = out@.map_values(|f: String| f@);
        if in_quotes {
            if c == '"' {
                if i + 1 < n && all[i + 1] == '"' {
                    push_char(&mut cur, '"');
                    i = i + 2;
                } else {
                    in_quotes = false;
                    i = i + 1;
                }
            } else {
                push_char(&mut cur, c);
                i = i + 1;
            }
        } else if c == '"' && cur.as_str().is_empty() {
            in_quotes = true;
            i = i + 1;
        } else if c == ',' {
            let done = cur;
            out.push(done);
            cur = String::new();
            proof {
                assert(out@.map_values(|f: String| f@) =~= ov.push(done@));
            }
            i = i + 1;
        } else {
            push_char(&mut cur, c);
            i = i + 1;
        }
    }
    let ghost ov = out@.map_values(|f: String| f@);
    let last = cur;
    out.push(last);
    proof {
        assert(out@.map_values(|f: String| f@) =~= ov.push(last@));
    }
    out
}

/// An entry as phrase, kind, id and output override.
pub type EntryV = (Seq<char>, Seq<char>, Seq<char>, Option<Seq<char>>);

pub open spec fn entry_view(e: Entry) -> EntryV {
    (
        e.phrase@,
        e.kind@,
        e.id@,
        match e.output {
            Some(o) => Some(o@),
            None => None,
        },
    )
}

/// The index of the first tab in `s`, if any.
pub open spec fn first_tab(s: Seq<char>) -> Option<int>
    decreases s.len(),
{
    if s.len() == 0 {
        None
    } else {
        match first_tab(s.drop_last()) {
            Some(i) => Some(i),
            None => if s.last() == '\t' {
                Some(s.len() - 1)
            } else {
                None
            },
        }
    }
}

/// The entry of line number `k` (counting from zero) of a tab-separated
/// dictionary, if the line holds one: the trimmed line, unless empty or a
/// `#` comment, is `phrase<TAB>id` (the id trimmed) or a bare phrase whose
/// id is its line number counting from one.
pub open spec fn tsv_line_entry(kind: Seq<char>, line: Seq<char>, k: int) -> Option<EntryV> {
    let t = trim(line);
    if t.len() == 0 || t[0] == '#' {
        None
    } else {
        match first_tab(t) {
            Some(p) => Some((t.take(p), kind, trim(t.skip(p + 1)), None)),
            None => Some((t, kind, decimal((k + 1) as nat), None)),
        }
    }
}

/// The entries of the first `n` lines.
pub open spec fn tsv_entries_upto(kind: Seq<char>, lines: Seq<Seq<char>>, n: int) -> Seq<EntryV>
    decreases n,
{
    if n <= 0 || n > lines.len() {
        Seq::empty()
    } else {
        let rest = tsv_entries_upto(kind, lines, n - 1);
        match tsv_line_entry(kind, lines[n - 1], n - 1) {
            Some(e) => rest.push(e),
            None => rest,
        }
    }
}

/// The entries of a tab-separated dictionary whose entries are of `kind`.
pub open spec fn spec_tsv_entries(kind: Seq<char>, text: Seq<char>) -> Seq<EntryV> {
    tsv_entries_upto(kind, split_lines(text), split_lines(text).len() as int)
}

/// The index of the first tab in `cs`, if any.
fn find_tab(cs: &Vec<char>) -> (r: Option<usize>)
    ensures
        match r {
            Some(i) => first_tab(cs@) == Some(i as int) && i < cs@.len(),
            None => first_tab(cs@) is None,
        },
{
    let mut i: usize = 0;
    while i < cs.len()
        invariant
            i <= cs@.len(),
            first_tab(cs@.take(i as int)) is None,
        decreases cs@.len() - i,
    {
        proof {
            assert(cs@.take(i + 1).drop_last() =~= cs@.take(i as int));
        }
        if cs[i] == '\t' {
            proof {
                lemma_first_tab_prefix(cs@, i + 1);
            }
            return Some(i);
        }
        i = i + 1;
    }
    assert(cs@.take(i as int) =~= cs@);
    None
}

/// A tab found in a prefix is the first tab of the whole.
proof fn lemma_first_tab_prefix(s: Seq<char>, n: int)
    requires
        0 <= n <= s.len(),
        first_tab(s.take(n)) is Some,
    ensures
        first_tab(s) == first_tab(s.take(n)),
    decreases s.len() - n,
{
    if n < s.len() {
        assert(s.take(n + 1).drop_last() =~= s.take(n));
        lemma_first_tab_prefix(s, n + 1);
    } else {
        assert(s.take(n) =~= s);
    }
}

/// The entries of a tab-separated dictionary: one per line that is not
/// blank or a `#` comment, `phrase<TAB>id` or a bare phrase numbered by its
/// line; every entry has the given kind.
pub fn tsv_entries(kind: &str, text: &str) -> (r: Vec<Entry>)
    ensures
        r@.map_values(|e: Entry| entry_view(e)) == spec_tsv_entries(kind@, text@),
{
    let chars = chars_of(text);
    let lines = line_bounds(chars.as_slice());
    let ghost ls = split_lines(text@);
    let mut out: Vec<Entry> = Vec::new();
    assert(out@.map_values(|e: Entry| entry_view(e)) =~= Seq::<EntryV>::empty());
    for k in 0..lines.len()
        invariant
            chars@ == text@,
            ls == split_lines(text@),
            lines@.len() == ls.len(),
            forall|q: int|
                0 <= q < lines@.len() ==> (#[trigger] lines@[q]).0 <= lines@[q].1 <= chars@.len()
                    && chars@.subrange(lines@[q].0 as int, lines@[q].1 as int) == ls[q],
            out@.map_values(|e: Entry| entry_view(e)) == tsv_entries_upto(kind@, ls, k as int),
    {
        let (lo, hi) = lines[k];
        let t = trim_range(chars.as_slice(), lo, hi);
        let ghost prev = out@;
        proof {
            assert(ls[k as int] == chars@.subrange(lo as int, hi as int));
        }
        if t.len() == 0 || t[0] == '#' {
        } else {
            let e = match find_tab(&t) {
                Some(p) => {
                    let phrase = string_from_range_vec(&t, 0, p);
                    let id_chars = trim_range(t.as_slice(), p + 1, t.len());
                    proof {
                        assert(t@.subrange(0, p as int) =~= t@.take(p as int));
                        assert(t@.subrange(p + 1, t@.len() as int) =~= t@.skip(p + 1));
                    }
                    let kind_s = kind.to_owned();
                    Entry { phrase, kind: kind_s, id: string_from_chars(id_chars.as_slice()), output: None }
                },
                None => {
                    let phrase = string_from_chars(t.as_slice());
                    let kind_s = kind.to_owned();
                    Entry { phrase, kind: kind_s, id: decimal_string(k + 1), output: None }
                },
            };
            out.push(e);
            proof {
                assert(out@.map_values(|e: Entry| entry_view(e)) =~= prev.map_values(
                    |e: Entry| entry_view(e),
                ).push(entry_view(e)));
            }
        }
    }
    out
}

/// A `String` of the chars of `v` from `lo` up to `hi`.
fn string_from_range_vec(v: &Vec<char>, lo: usize, hi: usize) -> (r: String)
    requires
        lo <= hi <= v@.len(),
    ensures
        r@ == v@.subrange(lo as int, hi as int),
{
    crate::text::string_from_range(v.as_slice(), lo, hi)
}

/// The lowercase of an ASCII letter; other chars unchanged.
pub open spec fn ascii_lower(c: char) -> char {
    if 'A' <= c && c <= 'Z' {
        ((c as u32) + 32) as char
    } else {
        c
    }
}

/// Whether `s` is `action`, ignoring ASCII case.
pub open spec fn is_action(s: Seq<char>) -> bool {
    s.len() == 6 && ascii_lower(s[0]) == 'a' && ascii_lower(s[1]) == 'c' && ascii_lower(s[2]) == 't'
        && ascii_lower(s[3]) == 'i' && ascii_lower(s[4]) == 'o' && ascii_lower(s[5]) == 'n'
}

/// The first header index, below `n`, whose trimmed name is `action`.
pub open spec fn action_col_upto(header: Seq<Seq<char>>, n: int) -> Option<int>
    decreases n,
{
    if n <= 0 || n > header.len() {
        None
    } else {
        match action_col_upto(header, n - 1) {
            Some(i) => Some(i),
            None => if is_action(trim(header[n - 1])) {
                Some(n - 1)
            } else {
                None
            },
        }
    }
}

/// The column named `action` (trimmed, ASCII case ignored), if any.
pub open spec fn action_col(header: Seq<Seq<char>>) -> Option<int> {
    action_col_upto(header, header.len() as int)
}

/// A text in ASCII lower case.
pub open spec fn ascii_lowered(s: Seq<char>) -> Seq<char> {
    s.map_values(|c: char| ascii_lower(c))
}

/// A header cell names the action column exactly when its trimmed text is
/// `action` up to ASCII case (`Action`, `ACTION`, ` action `, ...).
pub proof fn lemma_is_action_any_case(s: Seq<char>)
    ensures
        is_action(s) <==> ascii_lowered(s) == seq!['a', 'c', 't', 'i', 'o', 'n'],
{
    let l = ascii_lowered(s);
    let w = seq!['a', 'c', 't', 'i', 'o', 'n'];
    if is_action(s) {
        assert(l =~= w);
    }
    assert(l.len() == s.len());
    if l == w {
        assert(s.len() == 6);
        assert(l[0] == ascii_lower(s[0]) && l[1] == ascii_lower(s[1]) && l[2] == ascii_lower(s[2]));
        assert(l[3] == ascii_lower(s[3]) && l[4] == ascii_lower(s[4]) && l[5] == ascii_lower(s[5]));
        assert(l[0] == w[0] && l[1] == w[1] && l[2] == w[2] && l[3] == w[3] && l[4] == w[4] && l[5] == w[5]);
    }
}

proof fn lemma_action_col_upto(header: Seq<Seq<char>>, n: int)
    requires
        0 <= n <= header.len(),
    ensures
        match action_col_upto(header, n) {
            Some(c) => 0 <= c < n && ascii_lowered(trim(header[c])) == seq!['a', 'c', 't', 'i', 'o', 'n']
                && forall|k: int| 0 <= k < c ==> ascii_lowered(trim(#[trigger] header[k])) != seq![
                    'a',
                    'c',
                    't',
                    'i',
                    'o',
                    'n',
                ],
            None => forall|k: int| 0 <= k < n ==> ascii_lowered(trim(#[trigger] header[k])) != seq![
                'a',
                'c',
                't',
                'i',
                'o',
                'n',
            ],
        },
    decreases n,
{
    if n > 0 {
        lemma_action_col_upto(header, n - 1);
        lemma_is_action_any_case(trim(header[n - 1]));
        if action_col_upto(header, n - 1) is None {
            assert forall|k: int| 0 <= k < n - 1 implies ascii_lowered(trim(#[trigger] header[k])) != seq![
                'a',
                'c',
                't',
                'i',
                'o',
                'n',
            ] by {}
        }
    }
}

/// The action column is the first header cell whose trimmed text is
/// `action` up to ASCII case; there is none when no cell is.
pub proof fn lemma_action_col_first(header: Seq<Seq<char>>)
    ensures
        match action_col(header) {
            Some(c) => 0 <= c < header.len() && ascii_lowered(trim(header[c])) == seq!['a', 'c', 't', 'i', 'o', 'n']
                && forall|k: int| 0 <= k < c ==> ascii_lowered(trim(#[trigger] header[k])) != seq![
                    'a',
                    'c',
                    't',
                    'i',
                    'o',
                    'n',
                ],
            None => forall|k: int| 0 <= k < header.len() ==> ascii_lowered(trim(#[trigger] header[k])) != seq![
                'a',
                'c',
                't',
                'i',
                'o',
                'n',
            ],
        },
{
    lemma_action_col_upto(header, header.len() as int);
}

/// A CSV data row as its phrase and output override.
pub type RowV = (Seq<char>, Option<Seq<char>>);

/// The record of a data row, if it has one: the trimmed first cell is the
/// phrase (no record when empty); the trimmed cell of the `action` column,
/// when there is one and it is not empty, is the output override.
pub open spec fn csv_row(line: Seq<char>, col: Option<int>) -> Option<RowV> {
    let cells = spec_csv_fields(line);
    let phrase = trim(cells[0]);
    if phrase.len() == 0 {
        None
    } else {
        let out = match col {
            Some(c) => if 0 <= c < cells.len() && trim(cells[c]).len() > 0 {
                Some(trim(cells[c]))
            } else {
                None
            },
            None => None,
        };
        Some((phrase, out))
    }
}

/// The records of the data lines `1..n`.
pub open spec fn csv_rows_upto(lines: Seq<Seq<char>>, col: Option<int>, n: int) -> Seq<RowV>
    decreases n,
{
    if n <= 1 || n > lines.len() {
        Seq::empty()
    } else {
        let rest = csv_rows_upto(lines, col, n - 1);
        match csv_row(lines[n - 1], col) {
            Some(r) => rest.push(r),
            None => rest,
        }
    }
}

/// The records of a CSV file: its first line is the header, every other
/// line a data row.
pub open spec fn spec_csv_records(text: Seq<char>) -> Seq<RowV> {
    let lines = split_lines(text);
    if lines.len() == 0 {
        Seq::empty()
    } else {
        csv_rows_upto(lines, action_col(spec_csv_fields(lines[0])), lines.len() as int)
    }
}

/// One data row of a CSV dictionary.
pub struct CsvRecord {
    pub phrase: String,
    pub output: Option<String>,
}

pub open spec fn record_row_view(r: CsvRecord) -> RowV {
    (
        r.phrase@,
        match r.output {
            Some(o) => Some(o@),
            None => None,
        },
    )
}

/// The lowercase of an ASCII letter.
/// `char::to_ascii_lowercase`.
pub fn lower_char(c: char) -> (r: char)
    ensures
        r == ascii_lower(c),
{
    if 'A' <= c && c <= 'Z' {
        ((c as u32) + 32) as u8 as char
    } else {
        c
    }
}

/// Whether the trimmed `s` is `action`, ignoring ASCII case.
fn is_action_cell(s: &String) -> (r: bool)
    ensures
        r == is_action(trim(s@)),
{
    let cs = chars_of(s.as_str());
    let t = trim_range(cs.as_slice(), 0, cs.len());
    assert(cs@.subrange(0, cs@.len() as int) =~= cs@);
    t.len() == 6 && lower_char(t[0]) == 'a' && lower_char(t[1]) == 'c' && lower_char(t[2]) == 't'
        && lower_char(t[3]) == 'i' && lower_char(t[4]) == 'o' && lower_char(t[5]) == 'n'
}

/// The trimmed chars of `s`.
fn trimmed(s: &String) -> (r: Vec<char>)
    ensures
        r@ == trim(s@),
{
    let cs = chars_of(s.as_str());
    assert(cs@.subrange(0, cs@.len() as int) =~= cs@);
    trim_range(cs.as_slice(), 0, cs.len())
}

/// The records of a CSV dictionary: the first line is the header, whose
/// `action` column (if any) gives each row's output override; each other
/// line with a non-empty first cell gives a record whose phrase is that
/// cell, trimmed.
pub fn csv_records(text: &str) -> (r: Vec<CsvRecord>)
    ensures
        r@.map_values(|x: CsvRecord| record_row_view(x)) == spec_csv_records(text@),
{
    let chars = chars_of(text);
    let lines = line_bounds(chars.as_slice());
    let ghost ls = split_lines(text@);
    let mut out: Vec<CsvRecord> = Vec::new();
    assert(out@.map_values(|x: CsvRecord| record_row_view(x)) =~= Seq::<RowV>::empty());
    if lines.len() == 0 {
        return out;
    }
    let (h0, h1) = lines[0];
    let header = parse_csv_line_chars(&chars, h0, h1);
    proof {
        assert(chars@.subrange(h0 as int, h1 as int) == ls[0]);
    }
    let ghost hv = spec_csv_fields(ls[0]);
    let mut col: Option<usize> = None;
    let mut h: usize = 0;
    while h < header.len()
        invariant
            header@.map_values(|f: String| f@) == hv,
            h <= header@.len(),
            match col {
                Some(c) => action_col_upto(hv, h as int) == Some(c as int),
                None => action_col_upto(hv, h as int) is None,
            },
            col is Some ==> action_col(hv) == action_col_upto(hv, h as int),
        decreases header@.len() - h,
    {
        if col.is_none() {
            if is_action_cell(&header[h]) {
                col = Some(h);
            }
        }
        proof {
            assert(hv[h as int] == header@[h as int]@);
            if action_col_upto(hv, h as int + 1) is Some {
                lemma_action_col_stable(hv, h as int + 1);
            }
        }
        h = h + 1;
    }
    proof {
        assert(action_col(hv) == action_col_upto(hv, h as int));
    }
    for k in 1..lines.len()
        invariant
            chars@ == text@,
            ls == split_lines(text@),
            lines@.len() == ls.len(),
            lines@.len() > 0,
            hv == spec_csv_fields(ls[0]),
            match col {
                Some(c) => action_col(hv) == Some(c as int),
                None => action_col(hv) is None,
            },
            forall|q: int|
                0 <= q < lines@.len() ==> (#[trigger] lines@[q]).0 <= lines@[q].1 <= chars@.len()
                    && chars@.subrange(lines@[q].0 as int, lines@[q].1 as int) == ls[q],
            out@.map_values(|x: CsvRecord| record_row_view(x)) == csv_rows_upto(
                ls,
                action_col(hv),
                k as int,
            ),
    {
        let (lo, hi) = lines[k];
        let cells = parse_csv_line_chars(&chars, lo, hi);
        let ghost cv = spec_csv_fields(ls[k as int]);
        proof {
            assert(chars@.subrange(lo as int, hi as int) == ls[k as int]);
            lemma_csv_fields_nonempty(ls[k as int]);
        }
        let phrase = trimmed(&cells[0]);
        proof {
            assert(cv[0] == cells@[0]@);
        }
        let ghost prev = out@;
        if phrase.len() > 0 {
            let output = match col {
                Some(c) => {
                    if c < cells.len() {
                        let o = trimmed(&cells[c]);
                        proof {
                            assert(cv[c as int] == cells@[c as int]@);
                        }
                        if o.len() > 0 {
                            Some(string_from_chars(o.as_slice()))
                        } else {
                            None
                        }
                    } else {
                        None
                    }
                },
                None => None,
            };
            let rec = CsvRecord { phrase: string_from_chars(phrase.as_slice()), output };
            out.push(rec);
            proof {
                assert(out@.map_values(|x: CsvRecord| record_row_view(x)) =~= prev.map_values(
                    |x: CsvRecord| record_row_view(x),
                ).push(record_row_view(rec)));
            }
        }
    }
    out
}

/// Once found, the `action` column stays the first one.
proof fn lemma_action_col_stable(h: Seq<Seq<char>>, n: int)
    requires
        0 <= n <= h.len(),
        action_col_upto(h, n) is Some,
    ensures
        action_col(h) == action_col_upto(h, n),
    decreases h.len() - n,
{
    if n < h.len() {
        lemma_action_col_stable(h, n + 1);
    }
}

/// A CSV line always has at least one field.
proof fn lemma_csv_fields_nonempty(line: Seq<char>)
    ensures
        spec_csv_fields(line).len() >= 1,
{
    lemma_csv_run_len(trim_cr(line), 0, false, Seq::empty(), Seq::empty());
}

proof fn lemma_csv_run_len(s: Seq<char>, i: int, q: bool, cur: Seq<char>, out: Seq<Seq<char>>)
    ensures
        csv_run(s, i, q, cur, out).len() >= out.len() + 1,
    decreases s.len() - i,
{
    if i >= s.len() || i < 0 {
    } else {
        let c = s[i];
        if q {
            if c == '"' {
                if i + 1 < s.len() && s[i + 1] == '"' {
                    lemma_csv_run_len(s, i + 2, true, cur.push('"'), out);
                } else {
                    lemma_csv_run_len(s, i + 1, false, cur, out);
                }
            } else {
                lemma_csv_run_len(s, i + 1, true, cur.push(c), out);
            }
        } else if c == '"' && cur.len() == 0 {
            lemma_csv_run_len(s, i + 1, true, cur, out);
        } else if c == ',' {
            lemma_csv_run_len(s, i + 1, false, Seq::empty(), out.push(cur));
        } else {
            lemma_csv_run_len(s, i + 1, false, cur.push(c), out);
        }
    }
}

/// The fields of the CSV line `cs[lo..hi]`.
fn parse_csv_line_chars(cs: &Vec<char>, lo: usize, hi: usize) -> (r: Vec<String>)
    requires
        lo <= hi <= cs@.len(),
    ensures
        r@.map_values(|f: String| f@) == spec_csv_fields(cs@.subrange(lo as int, hi as int)),
{
    let line = string_from_range_vec(cs, lo, hi);
    parse_csv_line(line.as_str())
}

/// The index of the last `c` in `s`, or -1.
pub open spec fn last_index_of(s: Seq<char>, c: char) -> int
    decreases s.len(),
{
    if s.len() == 0 {
        -1
    } else if s.last() == c {
        s.len() - 1
    } else {
        last_index_of(s.drop_last(), c)
    }
}

/// The last component of a `/`-separated path when it names a file or
/// directory: trailing slashes and `.` components are skipped; a path that
/// ends in `..`, or has no such component, has none.
pub open spec fn file_name_of(s: Seq<char>) -> Option<Seq<char>>
    decreases s.len(),
{
    if s.len() == 0 {
        None
    } else if s.last() == '/' {
        file_name_of(s.drop_last())
    } else {
        let k = last_index_of(s, '/');
        let seg = s.skip(k + 1);
        if seg == seq!['.'] {
            proof {
                lemma_last_index_range(s, '/');
            }
            file_name_of(s.take(k + 1))
        } else if seg == seq!['.', '.'] {
            None
        } else {
            Some(seg)
        }
    }
}

/// A file name without its extension: the part before the last `.`,
/// unless there is no `.` or the only one starts the name.
pub open spec fn stem_of(name: Seq<char>) -> Seq<char> {
    let d = last_index_of(name, '.');
    if d <= 0 {
        name
    } else {
        name.take(d)
    }
}

/// The stem of a path's file name, or `default` when it has none
/// (`Path::file_stem` on `/`-separated paths).
pub open spec fn spec_file_stem(path: Seq<char>) -> Seq<char> {
    match file_name_of(path) {
        Some(n) => stem_of(n),
        None => seq!['d', 'e', 'f', 'a', 'u', 'l', 't'],
    }
}

/// `last_index_of` gives the last position of `c` in `s`, or -1 when `c`
/// does not occur.
pub proof fn lemma_last_index_range(s: Seq<char>, c: char)
    ensures
        -1 <= last_index_of(s, c) < s.len(),
        last_index_of(s, c) >= 0 ==> s[last_index_of(s, c)] == c,
        forall|q: int| last_index_of(s, c) < q < s.len() ==> s[q] != c,
    decreases s.len(),
{
    if s.len() > 0 {
        lemma_last_index_range(s.drop_last(), c);
        assert forall|q: int| last_index_of(s, c) < q < s.len() implies s[q] != c by {
            if s.last() != c && q < s.len() - 1 {
                assert(s.drop_last()[q] == s[q]);
            }
        }
    }
}

/// The index of the last `c` in `cs[..end]`, or `None`.
fn last_index(cs: &Vec<char>, end: usize, c: char) -> (r: Option<usize>)
    requires
        end <= cs@.len(),
    ensures
        match r {
            Some(k) => last_index_of(cs@.take(end as int), c) == k as int && k < end,
            None => last_index_of(cs@.take(end as int), c) == -1,
        },
{
    let mut k = end;
    while k > 0
        invariant
            k <= end <= cs@.len(),
            last_index_of(cs@.take(end as int), c) == last_index_of(cs@.take(k as int), c),
        decreases k,
    {
        proof {
            assert(cs@.take(k as int).drop_last() =~= cs@.take(k - 1));
            assert(cs@.take(k as int).last() == cs@[k - 1]);
        }
        if cs[k - 1] == c {
            return Some(k - 1);
        }
        k = k - 1;
    }
    None
}

/// The bounds of the file name of the `/`-separated path `cs`.
fn file_name_bounds(cs: &Vec<char>) -> (r: Option<(usize, usize)>)
    ensures
        match r {
            Some((lo, hi)) => lo <= hi <= cs@.len() && file_name_of(cs@) == Some(
                cs@.subrange(lo as int, hi as int),
            ),
            None => file_name_of(cs@) is None,
        },
{
    let mut end = cs.len();
    proof {
        assert(cs@.take(end as int) =~= cs@);
    }
    while end > 0
        invariant
            end <= cs@.len(),
            file_name_of(cs@) == file_name_of(cs@.take(end as int)),
        decreases end,
    {
        let ghost s = cs@.take(end as int);
        proof {
            assert(s.drop_last() =~= cs@.take(end - 1));
            assert(s.last() == cs@[end - 1]);
        }
        if cs[end - 1] == '/' {
            end = end - 1;
        } else {
            let start = match last_index(cs, end, '/') {
                Some(k) => k + 1,
                None => 0,
            };
            proof {
                lemma_last_index_range(s, '/');
                assert(s.skip(start as int) =~= cs@.subrange(start as int, end as int));
                assert(s.take(start as int) =~= cs@.take(start as int));
            }
            if end - start == 1 && cs[start] == '.' {
                assert(cs@.subrange(start as int, end as int) =~= seq!['.']);
                end = start;
            } else if end - start == 2 && cs[start] == '.' && cs[start + 1] == '.' {
                assert(cs@.subrange(start as int, end as int) =~= seq!['.', '.']);
                return None;
            } else {
                proof {
                    let seg = cs@.subrange(start as int, end as int);
                    if seg =~= seq!['.'] {
                        assert(seg.len() == 1 && seg[0] == cs@[start as int]);
                    }
                    if seg =~= seq!['.', '.'] {
                        assert(seg.len() == 2 && seg[0] == cs@[start as int] && seg[1] == cs@[start + 1]);
                    }
                }
                return Some((start, end));
            }
        }
    }
    None
}

/// The extension of a file name: the part after the last `.`, unless
/// there is no `.` or the only one starts the name (`Path::extension`).
pub open spec fn extension_of(name: Seq<char>) -> Option<Seq<char>> {
    let d = last_index_of(name, '.');
    if d <= 0 {
        None
    } else {
        Some(name.skip(d + 1))
    }
}

/// Whether a file name has the extension `csv`, in any ASCII case.
pub open spec fn is_csv_name(name: Seq<char>) -> bool {
    extension_of(name) matches Some(e) && e.map_values(|c: char| ascii_lower(c)) == seq!['c', 's', 'v']
}

/// Whether the file name `name` has the extension `csv`, in any ASCII
/// case: the files a data directory loads.
pub fn is_csv_file_name(name: &str) -> (r: bool)
    ensures
        r == is_csv_name(name@),
{
    let cs = chars_of(name);
    proof {
        assert(cs@.take(cs@.len() as int) =~= cs@);
    }
    match last_index(&cs, cs.len(), '.') {
        None => false,
        Some(d) => {
            if d == 0 {
                return false;
            }
            let n = cs.len();
            let ghost e = cs@.skip(d + 1);
            let ghost low = e.map_values(|c: char| ascii_lower(c));
            if n - d - 1 != 3 {
                proof {
                    assert(low.len() != 3);
                    assert(low != seq!['c', 's', 'v']);
                }
                return false;
            }
            let r = lower_char(cs[d + 1]) == 'c' && lower_char(cs[d + 2]) == 's' && lower_char(cs[d + 3]) == 'v';
            proof {
                assert(low[0] == ascii_lower(cs@[d + 1]));
                assert(low[1] == ascii_lower(cs@[d + 2]));
                assert(low[2] == ascii_lower(cs@[d + 3]));
                if r {
                    assert(low =~= seq!['c', 's', 'v']);
                } else {
                    assert(low != seq!['c', 's', 'v']) by {
                        if low == seq!['c', 's', 'v'] {
                            assert(low[0] == 'c' && low[1] == 's' && low[2] == 'v');
                        }
                    }
                }
            }
            r
        },
    }
}

/// The key by which a data directory's files are ordered: the file name in
/// ASCII lower case.
pub fn name_order_key(name: &str) -> (r: String)
    ensures
        r@ == name@.map_values(|c: char| ascii_lower(c)),
{
    let cs = chars_of(name);
    let mut r = String::new();
    for i in 0..cs.len()
        invariant
            r@ == cs@.take(i as int).map_values(|c: char| ascii_lower(c)),
            cs@ == name@,
    {
        push_char(&mut r, lower_char(cs[i]));
        proof {
            assert(cs@.take(i + 1).map_values(|c: char| ascii_lower(c)) =~= cs@.take(i as int).map_values(
                |c: char| ascii_lower(c),
            ).push(ascii_lower(cs@[i as int])));
        }
    }
    proof {
        assert(cs@.take(cs@.len() as int) =~= cs@);
    }
    r
}

/// The stem of the file name of a `/`-separated path, `default` when the
/// path names no file (`Path::file_stem`).
pub fn file_stem(path: &str) -> (r: String)
    ensures
        r@ == spec_file_stem(path@),
{
    let cs = chars_of(path);
    match file_name_bounds(&cs) {
        None => {
            let r = "default".to_owned();
            proof {
                reveal_strlit("default");
                assert(r@ =~= seq!['d', 'e', 'f', 'a', 'u', 'l', 't']);
            }
            r
        },
        Some((lo, hi)) => {
            let name = string_from_range_vec(&cs, lo, hi);
            let ncs = chars_of(name.as_str());
            proof {
                lemma_last_index_range(ncs@, '.');
                assert(ncs@.take(ncs@.len() as int) =~= ncs@);
            }
            match last_index(&ncs, ncs.len(), '.') {
                Some(d) => {
                    if d > 0 {
                        string_from_range_vec(&ncs, 0, d)
                    } else {
                        name
                    }
                },
                None => name,
            }
        },
    }
}

/// The lowercase hexadecimal digit of `n` (below 16).
pub open spec fn hex_digit(n: u8) -> char {
    if n < 10 {
        (n + 48) as char
    } else {
        (n + 87) as char
    }
}

/// The bytes of a version 4 UUID: the version nibble of byte 6 set to 4,
/// the variant bits of byte 8 set to `10`.
pub open spec fn uuid_v4_bytes(b: Seq<u8>) -> Seq<u8> {
    b.update(6, (b[6] & 0x0F) | 0x40).update(8, (b[8] & 0x3F) | 0x80)
}

/// The text of the first `n` bytes of a UUID: two lowercase hex digits per
/// byte, with a `-` before bytes 4, 6, 8 and 10.
pub open spec fn uuid_text_upto(b: Seq<u8>, n: int) -> Seq<char>
    decreases n,
{
    if n <= 0 {
        Seq::empty()
    } else {
        let k = n - 1;
        let sep: Seq<char> = if k == 4 || k == 6 || k == 8 || k == 10 {
            seq!['-']
        } else {
            Seq::empty()
        };
        uuid_text_upto(b, k) + sep + seq![hex_digit(b[k] >> 4), hex_digit(b[k] & 0x0F)]
    }
}

/// The RFC 4122 text of a version 4 UUID made from 16 random bytes.
pub open spec fn spec_uuid_v4(b: Seq<u8>) -> Seq<char> {
    uuid_text_upto(uuid_v4_bytes(b), 16)
}

/// The number of separators before byte `n` of a UUID.
pub open spec fn uuid_seps(n: int) -> int {
    (if n > 4 { 1int } else { 0int }) + (if n > 6 { 1int } else { 0int }) + (if n > 8 { 1int } else { 0int }) + (
    if n > 10 { 1int } else { 0int })
}

proof fn lemma_uuid_text_len(b: Seq<u8>, n: int)
    requires
        0 <= n <= b.len(),
    ensures
        uuid_text_upto(b, n).len() == 2 * n + uuid_seps(n),
    decreases n,
{
    if n > 0 {
        lemma_uuid_text_len(b, n - 1);
    }
}

proof fn lemma_uuid_text_prefix(b: Seq<u8>, m: int, n: int)
    requires
        0 <= m <= n <= b.len(),
    ensures
        forall|i: int| 0 <= i < uuid_text_upto(b, m).len() ==> uuid_text_upto(b, n)[i] == #[trigger] uuid_text_upto(b, m)[i],
    decreases n,
{
    if m < n {
        lemma_uuid_text_prefix(b, m, n - 1);
        lemma_uuid_text_len(b, m);
        lemma_uuid_text_len(b, n - 1);
    }
}

/// The last two chars of the text of the first `k + 1` bytes are the hex
/// digits of byte `k`, and a separator stands before byte 4, 6, 8 or 10.
proof fn lemma_uuid_byte_chars(b: Seq<u8>, k: int)
    requires
        0 <= k < b.len(),
        b.len() == 16,
    ensures
        spec_uuid_text_at(b, 2 * k + uuid_seps(k + 1)) == hex_digit(b[k] >> 4),
        spec_uuid_text_at(b, 2 * k + uuid_seps(k + 1) + 1) == hex_digit(b[k] & 0x0F),
        (k == 4 || k == 6 || k == 8 || k == 10) ==> spec_uuid_text_at(b, 2 * k + uuid_seps(k + 1) - 1) == '-',
{
    lemma_uuid_text_len(b, k);
    lemma_uuid_text_len(b, k + 1);
    lemma_uuid_text_prefix(b, k + 1, 16);
    let t = uuid_text_upto(b, k + 1);
    let p = uuid_text_upto(b, k);
    let sep: Seq<char> = if k == 4 || k == 6 || k == 8 || k == 10 {
        seq!['-']
    } else {
        Seq::empty()
    };
    assert(t == p + sep + seq![hex_digit(b[k] >> 4), hex_digit(b[k] & 0x0F)]);
    let i = 2 * k + uuid_seps(k + 1);
    assert(p.len() + sep.len() == i);
    assert(t[i] == hex_digit(b[k] >> 4));
    assert(t[i + 1] == hex_digit(b[k] & 0x0F));
    if k == 4 || k == 6 || k == 8 || k == 10 {
        assert(t[i - 1] == '-');
    }
}

/// The char at position `i` of the UUID text of the bytes `b`.
pub open spec fn spec_uuid_text_at(b: Seq<u8>, i: int) -> char {
    uuid_text_upto(b, 16)[i]
}

/// A version 4 UUID text has 36 chars, dashes at 8, 13, 18 and 23, the
/// version digit `4` at 14 and a variant digit `8`, `9`, `a` or `b` at 19.
pub proof fn lemma_uuid_v4_shape(b: Seq<u8>)
    requires
        b.len() == 16,
    ensures
        spec_uuid_v4(b).len() == 36,
        spec_uuid_v4(b)[8] == '-',
        spec_uuid_v4(b)[13] == '-',
        spec_uuid_v4(b)[18] == '-',
        spec_uuid_v4(b)[23] == '-',
        spec_uuid_v4(b)[14] == '4',
        spec_uuid_v4(b)[19] == '8' || spec_uuid_v4(b)[19] == '9' || spec_uuid_v4(b)[19] == 'a'
            || spec_uuid_v4(b)[19] == 'b',
{
    let u = uuid_v4_bytes(b);
    lemma_uuid_text_len(u, 16);
    lemma_uuid_byte_chars(u, 4);
    lemma_uuid_byte_chars(u, 6);
    lemma_uuid_byte_chars(u, 8);
    lemma_uuid_byte_chars(u, 10);
    let x6 = b[6];
    let x8 = b[8];
    assert((((x6 & 0x0F) | 0x40) >> 4) == 4) by (bit_vector);
    assert(8 <= (((x8 & 0x3F) | 0x80) >> 4) <= 11) by (bit_vector);
    assert(u[6] == (x6 & 0x0F) | 0x40);
    assert(u[8] == (x8 & 0x3F) | 0x80);
}

fn hex_char(n: u8) -> (r: char)
    requires
        n < 16,
    ensures
        r == hex_digit(n),
{
    if n < 10 {
        (n + 48) as char
    } else {
        (n + 87) as char
    }
}

/// `n` with its low `i` bytes dropped.
pub open spec fn drop_bytes(n: nat, i: nat) -> nat
    decreases i,
{
    if i == 0 {
        n
    } else {
        drop_bytes(n, (i - 1) as nat) / 256
    }
}

/// The 16 bytes of `n`, least significant first (`u128::to_le_bytes`):
/// the bytes an id is made of when the clock stands in for randomness.
pub fn le_bytes_u128(n: u128) -> (r: Vec<u8>)
    ensures
        r@.len() == 16,
        forall|i: int| 0 <= i < 16 ==> #[trigger] r@[i] == drop_bytes(n as nat, i as nat) % 256,
{
    let mut r: Vec<u8> = Vec::new();
    let mut m: u128 = n;
    for i in 0..16usize
        invariant
            r@.len() == i,
            m == drop_bytes(n as nat, i as nat),
            forall|q: int| 0 <= q < i ==> #[trigger] r@[q] == drop_bytes(n as nat, q as nat) % 256,
    {
        r.push((m % 256) as u8);
        m = m / 256;
    }
    r
}

/// The text of a version 4 UUID built from 16 random bytes (the version
/// and variant bits are set here), as `xxxxxxxx-xxxx-4xxx-yxxx-xxxxxxxxxxxx`.
pub fn format_uuid_v4(bytes: &[u8]) -> (r: String)
    requires
        bytes@.len() == 16,
    ensures
        r@ == spec_uuid_v4(bytes@),
{
    let mut b: Vec<u8> = Vec::new();
    for k in 0..bytes.len()
        invariant
            b@ == bytes@.take(k as int),
    {
        b.push(bytes[k]);
        assert(bytes@.take(k + 1) =~= bytes@.take(k as int).push(bytes@[k as int]));
    }
    assert(bytes@.take(16) =~= bytes@);
    let b6 = (b[6] & 0x0F) | 0x40;
    b.set(6, b6);
    let b8 = (b[8] & 0x3F) | 0x80;
    b.set(8, b8);
    let ghost ub = uuid_v4_bytes(bytes@);
    assert(b@ =~= ub);
    let mut out = String::new();
    for k in 0..16
        invariant
            b@ == ub,
            ub.len() == 16,
            out@ == uuid_text_upto(ub, k as int),
    {
        if k == 4 || k == 6 || k == 8 || k == 10 {
            push_char(&mut out, '-');
        }
        let x = b[k];
        let hi = x >> 4;
        let lo = x & 0x0F;
        assert(hi < 16 && lo < 16) by (bit_vector)
            requires
                hi == x >> 4,
                lo == x & 0x0F,
        ;
        push_char(&mut out, hex_char(hi));
        push_char(&mut out, hex_char(lo));
        proof {
            if k == 4 || k == 6 || k == 8 || k == 10 {
                assert(out@ =~= uuid_text_upto(ub, k as int) + seq!['-'] + seq![
                    hex_digit(hi),
                    hex_digit(lo),
                ]);
            } else {
                assert(out@ =~= uuid_text_upto(ub, k as int) + Seq::<char>::empty() + seq![
                    hex_digit(hi),
                    hex_digit(lo),
                ]);
            }
        }
    }
    out
}

} // verus!
