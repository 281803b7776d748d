//! String helpers used across the crate: chars of a `str`, building a
//! `String` char by char, UTF-8 widths and decimal formatting.

use vstd::prelude::*;
use vstd::utf8::encode_utf8;
use vstd::utf8::encode_scalar;
use vstd::utf8::char_is_scalar;

verus! {

/// The number of bytes that `c` takes in UTF-8.
pub open spec fn utf8_width(c: char) -> nat {
    if (c as u32) < 0x80 {
        1
    } else if (c as u32) < 0x800 {
        2
    } else if (c as u32) < 0x10000 {
        3
    } else {
        4
    }
}

/// The byte offset, in the UTF-8 encoding of `s`, of the char at index `k`.
pub open spec fn byte_offset(s: Seq<char>, k: int) -> nat {
    encode_utf8(s.take(k)).len()
}

/// UTF-8 encoding distributes over concatenation.
pub proof fn lemma_encode_utf8_concat(a: Seq<char>, b: Seq<char>)
    ensures
        encode_utf8(a + b) == encode_utf8(a) + encode_utf8(b),
    decreases a.len(),
{
    if a.len() == 0 {
        assert(a + b =~= b);
    } else {
        lemma_encode_utf8_concat(a.drop_first(), b);
        assert((a + b).drop_first() =~= a.drop_first() + b);
        assert(encode_utf8(a + b) =~= encode_scalar(a[0] as u32) + encode_utf8(a.drop_first() + b));
    }
}

/// The UTF-8 encoding of one char has `utf8_width` bytes.
pub proof fn lemma_encode_char_len(c: char)
    ensures
        encode_utf8(seq![c]).len() == utf8_width(c),
{
    char_is_scalar(c);
    assert(seq![c].drop_first() =~= Seq::<char>::empty());
    assert(encode_utf8(seq![c]) =~= encode_scalar(c as u32) + encode_utf8(Seq::<char>::empty()));
}

/// Byte offsets grow by the width of each char.
pub proof fn lemma_byte_offset_step(s: Seq<char>, k: int)
    requires
        0 <= k < s.len(),
    ensures
        byte_offset(s, k + 1) == byte_offset(s, k) + utf8_width(s[k]),
        byte_offset(s, k) <= byte_offset(s, s.len() as int),
{
    assert(s.take(k + 1) =~= s.take(k) + seq![s[k]]);
    lemma_encode_utf8_concat(s.take(k), seq![s[k]]);
    lemma_encode_char_len(s[k]);
    assert(s.take(s.len() as int) =~= s.take(k) + s.skip(k));
    lemma_encode_utf8_concat(s.take(k), s.skip(k));
}

/// Byte offsets never decrease along the text.
pub proof fn lemma_byte_offset_mono(s: Seq<char>, a: int, b: int)
    requires
        0 <= a <= b <= s.len(),
    ensures
        byte_offset(s, a) <= byte_offset(s, b),
{
    assert(s.take(b) =~= s.take(a) + s.subrange(a, b));
    lemma_encode_utf8_concat(s.take(a), s.subrange(a, b));
}

/// Byte width of a char in UTF-8, as `char::len_utf8` computes it.
pub fn char_width(c: char) -> (w: usize)
    ensures
        w == utf8_width(c),
        1 <= w <= 4,
{
    let u = c as u32;
    if u < 0x80 {
        1
    } else if u < 0x800 {
        2
    } else if u < 0x10000 {
        3
    } else {
        4
    }
}

/// The chars of `s`, in order.
pub fn chars_of(s: &str) -> (v: Vec<char>)
    ensures
        v@ == s@,
{
    let mut v: Vec<char> = Vec::new();
    for c in it: s.chars()
        invariant
            it.seq() == s@,
            v@ == s@.take(it.index() as int),
    {
        v.push(c);
    }
    assert(v@ == s@.take(s@.len() as int));
    v
}

/// Appends `c` to `s` (`String::push`).
#[verifier::external_body]
pub(crate) fn push_char(s: &mut String, c: char)
    ensures
        final(s)@ == old(s)@.push(c),
{
    s.push(c);
}

/// Appends every char of `cs` to `s`.
pub fn push_chars(s: &mut String, cs: &[char])
    ensures
        final(s)@ == old(s)@ + cs@,
{
    let ghost start = s@;
    for i in 0..cs.len()
        invariant
            s@ == start + cs@.take(i as int),
    {
        push_char(s, cs[i]);
        assert(cs@.take(i + 1) =~= cs@.take(i as int).push(cs@[i as int]));
    }
    assert(cs@.take(cs@.len() as int) =~= cs@);
}

/// Appends every char of `t` to `s`.
pub fn push_str(s: &mut String, t: &str)
    ensures
        final(s)@ == old(s)@ + t@,
{
    let cs = chars_of(t);
    push_chars(s, cs.as_slice());
}

/// A `String` holding exactly the chars of `cs`.
pub fn string_from_chars(cs: &[char]) -> (r: String)
    ensures
        r@ == cs@,
{
    let mut r = String::new();
    push_chars(&mut r, cs);
    assert(Seq::<char>::empty() + cs@ =~= cs@);
    r
}

/// A `String` holding the chars of `cs` from index `lo` up to `hi`.
pub fn string_from_range(cs: &[char], lo: usize, hi: usize) -> (r: String)
    requires
        lo <= hi <= cs@.len(),
    ensures
        r@ == cs@.subrange(lo as int, hi as int),
{
    let mut r = String::new();
    for i in lo..hi
        invariant
            lo <= hi <= cs@.len(),
            r@ == cs@.subrange(lo as int, i as int),
    {
        push_char(&mut r, cs[i]);
        assert(cs@.subrange(lo as int, i + 1) =~= cs@.subrange(lo as int, i as int).push(cs@[i as int]));
    }
    r
}

/// The char of a decimal digit.
pub open spec fn digit_char(d: nat) -> char {
    ((d % 10) + 48) as char
}

/// The decimal representation of `n`, without leading zeros ("0" for zero).
pub open spec fn decimal(n: nat) -> Seq<char>
    decreases n,
{
    if n < 10 {
        seq![digit_char(n)]
    } else {
        decimal(n / 10).push(digit_char(n % 10))
    }
}

/// The decimal representation of `n`.
pub fn decimal_string(n: usize) -> (r: String)
    ensures
        r@ == decimal(n as nat),
    decreases n,
{
    if n < 10 {
        let mut r = String::new();
        push_char(&mut r, ((n as u8) + 48) as char);
        assert(r@ =~= decimal(n as nat));
        r
    } else {
        let mut r = decimal_string(n / 10);
        push_char(&mut r, (((n % 10) as u8) + 48) as char);
        r
    }
}

/// The decimal representation of the 64-bit `n`.
pub fn decimal_string_u64(n: u64) -> (r: String)
    ensures
        r@ == decimal(n as nat),
    decreases n,
{
    if n < 10 {
        let mut r = String::new();
        push_char(&mut r, ((n as u8) + 48) as char);
        assert(r@ =~= decimal(n as nat));
        r
    } else {
        let mut r = decimal_string_u64(n / 10);
        push_char(&mut r, (((n % 10) as u8) + 48) as char);
        r
    }
}

/// Whether a char has the Unicode `White_Space` property, which
/// `char::is_whitespace` tests: tab, line feed, vertical tab, form feed,
/// carriage return, space, next line, no-break space, ogham space mark,
/// the spaces U+2000 to U+200A, line and paragraph separator, narrow
/// no-break space, medium mathematical space and ideographic space.
pub open spec fn unicode_whitespace(c: char) -> bool {
    let u = c as u32;
    ||| 0x9 <= u <= 0xD
    ||| u == 0x20
    ||| u == 0x85
    ||| u == 0xA0
    ||| u == 0x1680
    ||| 0x2000 <= u <= 0x200A
    ||| u == 0x2028
    ||| u == 0x2029
    ||| u == 0x202F
    ||| u == 0x205F
    ||| u == 0x3000
}

/// Whether a char beyond ASCII is alphabetic or numeric in Unicode
/// (`char::is_alphanumeric`).
pub uninterp spec fn alphanumeric_beyond_ascii(c: char) -> bool;

/// Whether a char is alphabetic or numeric in Unicode
/// (`char::is_alphanumeric`): in ASCII, exactly the letters and digits.
pub open spec fn unicode_alphanumeric(c: char) -> bool {
    if (c as u32) < 0x80 {
        ('a' <= c && c <= 'z') || ('A' <= c && c <= 'Z') || ('0' <= c && c <= '9')
    } else {
        alphanumeric_beyond_ascii(c)
    }
}

/// Whether `c` has the Unicode `White_Space` property (`char::is_whitespace`).
pub(crate) fn char_is_whitespace(c: char) -> (r: bool)
    ensures
        r == unicode_whitespace(c),
{
    let u = c as u32;
    (0x9 <= u && u <= 0xD) || u == 0x20 || u == 0x85 || u == 0xA0 || u == 0x1680 || (0x2000 <= u && u <= 0x200A)
        || u == 0x2028 || u == 0x2029 || u == 0x202F || u == 0x205F || u == 0x3000
}

/// `char::is_alphanumeric`: alphabetic or numeric in Unicode; in ASCII
/// exactly the letters and digits are.
#[verifier::external_body]
pub(crate) fn char_is_alphanumeric(c: char) -> (r: bool)
    ensures
        r == unicode_alphanumeric(c),
        (c as u32) >= 0x80 ==> r == alphanumeric_beyond_ascii(c),
{
    c.is_alphanumeric()
}

/// The number of leading whitespace chars of `s`.
pub open spec fn leading_ws(s: Seq<char>) -> nat
    decreases s.len(),
{
    if s.len() > 0 && unicode_whitespace(s[0]) {
        1 + leading_ws(s.drop_first())
    } else {
        0
    }
}

/// `s` without leading whitespace (`str::trim_start`).
pub open spec fn trim_start(s: Seq<char>) -> Seq<char> {
    s.skip(leading_ws(s) as int)
}

/// `s` without trailing whitespace (`str::trim_end`).
pub open spec fn trim_end(s: Seq<char>) -> Seq<char>
    decreases s.len(),
{
    if s.len() > 0 && unicode_whitespace(s.last()) {
        trim_end(s.drop_last())
    } else {
        s
    }
}

/// `s` without leading or trailing whitespace (`str::trim`).
pub open spec fn trim(s: Seq<char>) -> Seq<char> {
    trim_end(trim_start(s))
}

/// The chars of `cs[lo..hi]` without leading or trailing whitespace.
pub fn trim_range(cs: &[char], lo: usize, hi: usize) -> (r: Vec<char>)
    requires
        lo <= hi <= cs@.len(),
    ensures
        r@ == trim(cs@.subrange(lo as int, hi as int)),
{
    let ghost s = cs@.subrange(lo as int, hi as int);
    let mut a = lo;
    while a < hi && char_is_whitespace(cs[a])
        invariant
            lo <= a <= hi <= cs@.len(),
            s == cs@.subrange(lo as int, hi as int),
            leading_ws(s) == (a - lo) + leading_ws(cs@.subrange(a as int, hi as int)),
        decreases hi - a,
    {
        proof {
            assert(cs@.subrange(a as int, hi as int).drop_first() =~= cs@.subrange(a + 1, hi as int));
        }
        a = a + 1;
    }
    proof {
        if a < hi {
            assert(cs@.subrange(a as int, hi as int)[0] == cs@[a as int]);
        }
        assert(s.skip(leading_ws(s) as int) =~= cs@.subrange(a as int, hi as int));
    }
    let mut b = hi;
    while b > a && char_is_whitespace(cs[b - 1])
        invariant
            lo <= a <= b <= hi <= cs@.len(),
            trim(s) == trim_end(cs@.subrange(a as int, b as int)),
        decreases b - a,
    {
        proof {
            assert(cs@.subrange(a as int, b as int).drop_last() =~= cs@.subrange(a as int, b - 1));
        }
        b = b - 1;
    }
    proof {
        if b > a {
            assert(cs@.subrange(a as int, b as int).last() == cs@[b - 1]);
        }
    }
    let mut r: Vec<char> = Vec::new();
    for k in a..b
        invariant
            a <= b <= cs@.len(),
            r@ == cs@.subrange(a as int, k as int),
    {
        r.push(cs[k]);
        assert(cs@.subrange(a as int, k + 1) =~= cs@.subrange(a as int, k as int).push(cs@[k as int]));
    }
    r
}

/// `s` cut at every line feed; a carriage return just before a line feed
/// is dropped with it, and a last empty line is not a line (`str::lines`).
pub open spec fn split_lines(s: Seq<char>) -> Seq<Seq<char>>
    decreases s.len(),
{
    if s.len() == 0 {
        Seq::empty()
    } else {
        lines_from(s, 0, 0)
    }
}

/// Lines of `s` from position `i`, the current line starting at `start`.
pub open spec fn lines_from(s: Seq<char>, start: int, i: int) -> Seq<Seq<char>>
    decreases s.len() - i,
{
    if i >= s.len() || i < start || start < 0 {
        if start < s.len() && 0 <= start {
            seq![s.subrange(start, s.len() as int)]
        } else {
            Seq::empty()
        }
    } else if s[i] == '\n' {
        seq![strip_cr(s.subrange(start, i))] + lines_from(s, i + 1, i + 1)
    } else {
        lines_from(s, start, i + 1)
    }
}

/// A line without the carriage return that ended it.
pub open spec fn strip_cr(l: Seq<char>) -> Seq<char> {
    if l.len() > 0 && l.last() == '\r' {
        l.drop_last()
    } else {
        l
    }
}

/// The lines of `cs`, as `(start, end)` index pairs, each without its line
/// ending.
pub fn line_bounds(cs: &[char]) -> (r: Vec<(usize, usize)>)
    ensures
        r@.len() == split_lines(cs@).len(),
        forall|k: int|
            0 <= k < r@.len() ==> (#[trigger] r@[k]).0 <= r@[k].1 <= cs@.len() && cs@.subrange(
                r@[k].0 as int,
                r@[k].1 as int,
            ) == split_lines(cs@)[k],
{
    let n = cs.len();
    let mut out: Vec<(usize, usize)> = Vec::new();
    if n == 0 {
        return out;
    }
    let ghost full = lines_from(cs@, 0, 0);
    let mut start: usize = 0;
    let mut i: usize = 0;
    while i < n
        invariant
            n == cs@.len(),
            0 <= start <= i <= n,
            full == lines_from(cs@, 0, 0),
            full == out@.map_values(|p: (usize, usize)| cs@.subrange(p.0 as int, p.1 as int))
                + lines_from(cs@, start as int, i as int),
            forall|k: int| 0 <= k < out@.len() ==> (#[trigger] out@[k]).0 <= out@[k].1 <= n,
        decreases n - i,
    {
        if cs[i] == '\n' {
            let mut e = i;
            if e > start && cs[e - 1] == '\r' {
                e = e - 1;
            }
            proof {
                let l = cs@.subrange(start as int, i as int);
                if i > start && cs@[i - 1] == '\r' {
                    assert(l.last() == '\r');
                    assert(strip_cr(l) =~= cs@.subrange(start as int, e as int));
                } else {
                    assert(strip_cr(l) =~= cs@.subrange(start as int, e as int));
                }
                let ghost prev = out@;
                assert(lines_from(cs@, start as int, i as int) == seq![strip_cr(l)] + lines_from(
                    cs@,
                    i + 1,
                    i + 1,
                ));
            }
            let ghost prev = out@;
            out.push((start, e));
            proof {
                let f = |p: (usize, usize)| cs@.subrange(p.0 as int, p.1 as int);
                assert(out@.map_values(f) =~= prev.map_values(f).push(cs@.subrange(start as int, e as int)));
                assert(prev.map_values(f) + (seq![cs@.subrange(start as int, e as int)] + lines_from(
                    cs@,
                    i + 1,
                    i + 1,
                )) =~= out@.map_values(f) + lines_from(cs@, i + 1, i + 1));
            }
            start = i + 1;
        }
        i = i + 1;
    }
    if start < n {
        let ghost prev = out@;
        out.push((start, n));
        proof {
            let f = |p: (usize, usize)| cs@.subrange(p.0 as int, p.1 as int);
            assert(out@.map_values(f) =~= prev.map_values(f) + seq![cs@.subrange(start as int, n as int)]);
        }
    } else {
        proof {
            let f = |p: (usize, usize)| cs@.subrange(p.0 as int, p.1 as int);
            assert(out@.map_values(f) =~= out@.map_values(f) + lines_from(cs@, start as int, i as int));
        }
    }
    proof {
        let f = |p: (usize, usize)| cs@.subrange(p.0 as int, p.1 as int);
        assert forall|k: int| 0 <= k < out@.len() implies (#[trigger] out@[k]).0 <= out@[k].1
            <= cs@.len() && cs@.subrange(out@[k].0 as int, out@[k].1 as int) == split_lines(
            cs@,
        )[k] by {
            assert(out@.map_values(f)[k] == f(out@[k]));
        }
    }
    out
}

/// The pieces `ps` joined with `sep` between neighbours.
pub open spec fn join_with(ps: Seq<Seq<char>>, sep: Seq<char>) -> Seq<char>
    decreases ps.len(),
{
    if ps.len() == 0 {
        Seq::empty()
    } else if ps.len() == 1 {
        ps[0]
    } else {
        join_with(ps.drop_last(), sep) + sep + ps.last()
    }
}

/// Appends `cs` to `s`, after `sep` unless `first`: one step of a join.
pub fn push_joined(s: &mut String, cs: &[char], sep: &str, first: bool)
    ensures
        final(s)@ == if first {
            old(s)@ + cs@
        } else {
            old(s)@ + sep@ + cs@
        },
{
    if !first {
        push_str(s, sep);
    }
    push_chars(s, cs);
    proof {
        if !first {
            assert(old(s)@ + sep@ + cs@ =~= (old(s)@ + sep@) + cs@);
        }
    }
}

/// The pieces of `s` between the occurrences of the non-empty `sep`, taken
/// from the left without overlap (`str::split`), from position `i` on, the
/// current piece starting at `start`.
pub open spec fn split_from(s: Seq<char>, sep: Seq<char>, start: int, i: int) -> Seq<Seq<char>>
    decreases s.len() - i,
{
    if sep.len() == 0 || i < start || start < 0 || i + sep.len() > s.len() {
        seq![s.subrange(start, s.len() as int)]
    } else if s.subrange(i, i + sep.len()) == sep {
        seq![s.subrange(start, i)] + split_from(s, sep, i + sep.len(), i + sep.len())
    } else {
        split_from(s, sep, start, i + 1)
    }
}

/// The pieces of `s` between the occurrences of `sep` (`str::split`).
pub open spec fn split_on(s: Seq<char>, sep: Seq<char>) -> Seq<Seq<char>> {
    split_from(s, sep, 0, 0)
}

/// Whether `cs[at..]` starts with `sep`.
fn occurs_at(cs: &Vec<char>, at: usize, sep: &Vec<char>) -> (r: bool)
    requires
        at + sep@.len() <= cs@.len(),
    ensures
        r == (cs@.subrange(at as int, at + sep@.len()) == sep@),
{
    let mut q: usize = 0;
    while q < sep.len()
        invariant
            at + sep.len() <= cs.len(),
            q <= sep@.len(),
            forall|k: int| 0 <= k < q ==> cs@[at + k] == sep@[k],
        decreases sep@.len() - q,
    {
        if cs[at + q] != sep[q] {
            proof {
                assert(cs@.subrange(at as int, at + sep@.len())[q as int] != sep@[q as int]);
            }
            return false;
        }
        q = q + 1;
    }
    proof {
        assert(cs@.subrange(at as int, at + sep@.len()) =~= sep@);
    }
    true
}

/// The pieces of `cs[lo..hi]` between the occurrences of the non-empty
/// `sep`, as `(start, end)` index pairs into `cs`: the first starts at
/// `lo`, the last ends at `hi`, and each next one starts just after the
/// separator that ends the one before.
pub fn split_bounds(cs: &Vec<char>, lo: usize, hi: usize, sep: &Vec<char>) -> (r: Vec<(usize, usize)>)
    requires
        lo <= hi <= cs@.len(),
        sep@.len() > 0,
    ensures
        r@.len() == split_on(cs@.subrange(lo as int, hi as int), sep@).len(),
        r@.len() > 0,
        r@[0].0 == lo,
        r@.last().1 == hi,
        forall|k: int|
            0 <= k < r@.len() ==> lo <= (#[trigger] r@[k]).0 <= r@[k].1 <= hi && cs@.subrange(
                r@[k].0 as int,
                r@[k].1 as int,
            ) == split_on(cs@.subrange(lo as int, hi as int), sep@)[k],
        forall|k: int| 0 <= k < r@.len() - 1 ==> (#[trigger] r@[k + 1]).0 == r@[k].1 + sep@.len(),
{
    let ghost s = cs@.subrange(lo as int, hi as int);
    let ghost m = sep@.len();
    let ghost full = split_on(s, sep@);
    let mut out: Vec<(usize, usize)> = Vec::new();
    let mut start = lo;
    let mut i = lo;
    while i <= hi && hi - i >= sep.len()
        invariant
            lo <= start <= i <= hi <= cs@.len(),
            s == cs@.subrange(lo as int, hi as int),
            m == sep@.len(),
            m > 0,
            full == split_on(s, sep@),
            full == out@.map_values(|p: (usize, usize)| cs@.subrange(p.0 as int, p.1 as int)) + split_from(
                s,
                sep@,
                start - lo,
                i - lo,
            ),
            forall|k: int| 0 <= k < out@.len() ==> lo <= (#[trigger] out@[k]).0 <= out@[k].1 <= hi,
            out@.len() > 0 ==> out@[0].0 == lo,
            out@.len() == 0 ==> start == lo,
            out@.len() > 0 ==> start == out@.last().1 + m,
            forall|k: int| 0 <= k < out@.len() - 1 ==> (#[trigger] out@[k + 1]).0 == out@[k].1 + m,
        decreases hi - i,
    {
        let hit = occurs_at(cs, i, sep);
        proof {
            assert(s.subrange(i - lo, i - lo + m) =~= cs@.subrange(i as int, i + m));
            assert(s.subrange(start - lo, i - lo) =~= cs@.subrange(start as int, i as int));
        }
        if hit {
            let ghost prev = out@;
            out.push((start, i));
            proof {
                let g = |p: (usize, usize)| cs@.subrange(p.0 as int, p.1 as int);
                assert(out@.map_values(g) =~= prev.map_values(g).push(cs@.subrange(start as int, i as int)));
                assert(prev.map_values(g) + (seq![cs@.subrange(start as int, i as int)] + split_from(
                    s,
                    sep@,
                    i - lo + m,
                    i - lo + m,
                )) =~= out@.map_values(g) + split_from(s, sep@, i - lo + m, i - lo + m));
            }
            start = i + sep.len();
            i = start;
        } else {
            i = i + 1;
        }
    }
    let ghost prev = out@;
    proof {
        assert(s.subrange(start - lo, s.len() as int) =~= cs@.subrange(start as int, hi as int));
        assert(split_from(s, sep@, start - lo, i - lo) == seq![cs@.subrange(start as int, hi as int)]);
    }
    out.push((start, hi));
    proof {
        let g = |p: (usize, usize)| cs@.subrange(p.0 as int, p.1 as int);
        assert(out@.map_values(g) =~= prev.map_values(g).push(cs@.subrange(start as int, hi as int)));
        assert(full =~= out@.map_values(g));
        assert forall|k: int| 0 <= k < out@.len() implies lo <= (#[trigger] out@[k]).0 <= out@[k].1 <= hi
            && cs@.subrange(out@[k].0 as int, out@[k].1 as int) == full[k] by {
            assert(out@.map_values(g)[k] == g(out@[k]));
        }
    }
    out
}

} // verus!
