//! The crawler's computations: the file-name slug of a crawled URL, the
//! crawl timestamp, and the token line of a `.env` file.

use vstd::prelude::*;
use crate::dict::ascii_lower;
use crate::dict::lower_char;
use crate::text::chars_of;
use crate::text::char_is_alphanumeric;
use crate::text::decimal;
use crate::text::decimal_string_u64;
use crate::text::line_bounds;
use crate::text::push_str;
use crate::text::split_lines;
use crate::text::string_from_chars;
use crate::text::trim;
use crate::text::trim_range;
use crate::text::unicode_alphanumeric;

verus! {

/// `s` with every leading repetition of the non-empty prefix `p` removed
/// (`str::trim_start_matches`).
pub open spec fn strip_all(s: Seq<char>, p: Seq<char>) -> Seq<char>
    decreases s.len(),
{
    if p.len() > 0 && p.len() <= s.len() && s.take(p.len() as int) == p {
        strip_all(s.skip(p.len() as int), p)
    } else {
        s
    }
}

/// What a char of the URL becomes in the slug: letters and digits in
/// ASCII lower case, URL punctuation an underscore, anything else nothing.
pub open spec fn slug_char(c: char) -> Option<char> {
    if unicode_alphanumeric(c) {
        Some(ascii_lower(c))
    } else if c == '/' || c == '?' || c == '&' || c == '=' || c == '-' || c == '_' || c == '.' {
        Some('_')
    } else {
        None
    }
}

/// The slug chars of `s`, in order.
pub open spec fn slug_raw(s: Seq<char>) -> Seq<char>
    decreases s.len(),
{
    if s.len() == 0 {
        Seq::empty()
    } else {
        match slug_char(s.last()) {
            Some(d) => slug_raw(s.drop_last()).push(d),
            None => slug_raw(s.drop_last()),
        }
    }
}

/// `s` with every run of underscores shortened to one.
pub open spec fn collapse_underscores(s: Seq<char>) -> Seq<char>
    decreases s.len(),
{
    if s.len() == 0 {
        Seq::empty()
    } else {
        let r = collapse_underscores(s.drop_last());
        if s.last() == '_' && r.len() > 0 && r.last() == '_' {
            r
        } else {
            r.push(s.last())
        }
    }
}

/// `s` without leading underscores.
pub open spec fn trim_start_underscores(s: Seq<char>) -> Seq<char>
    decreases s.len(),
{
    if s.len() > 0 && s[0] == '_' {
        trim_start_underscores(s.drop_first())
    } else {
        s
    }
}

/// `s` without trailing underscores.
pub open spec fn trim_end_underscores(s: Seq<char>) -> Seq<char>
    decreases s.len(),
{
    if s.len() > 0 && s.last() == '_' {
        trim_end_underscores(s.drop_last())
    } else {
        s
    }
}

pub open spec fn https_prefix() -> Seq<char> {
    seq!['h', 't', 't', 'p', 's', ':', '/', '/']
}

pub open spec fn http_prefix() -> Seq<char> {
    seq!['h', 't', 't', 'p', ':', '/', '/']
}

pub open spec fn www_prefix() -> Seq<char> {
    seq!['w', 'w', 'w', '.']
}

pub open spec fn index_slug() -> Seq<char> {
    seq!['i', 'n', 'd', 'e', 'x']
}

/// The file-name slug of a URL: the scheme and `www.` taken off, letters
/// and digits lower-cased, URL punctuation turned into single underscores
/// (none at either end), other chars dropped; `index` when nothing is left.
pub open spec fn safe_slug(url: Seq<char>) -> Seq<char> {
    let stripped = strip_all(strip_all(strip_all(url, https_prefix()), http_prefix()), www_prefix());
    let t = trim_end_underscores(trim_start_underscores(collapse_underscores(slug_raw(stripped))));
    if t.len() == 0 {
        index_slug()
    } else {
        t
    }
}

/// No two neighbouring chars of `s` are both underscores.
pub open spec fn no_double_underscore(s: Seq<char>) -> bool {
    forall|i: int| 0 <= i < s.len() - 1 ==> !(#[trigger] s[i] == '_' && s[i + 1] == '_')
}

proof fn lemma_collapse_single(s: Seq<char>)
    ensures
        no_double_underscore(collapse_underscores(s)),
    decreases s.len(),
{
    if s.len() > 0 {
        lemma_collapse_single(s.drop_last());
    }
}

proof fn lemma_trim_start_suffix(s: Seq<char>) -> (j: int)
    ensures
        0 <= j <= s.len(),
        trim_start_underscores(s) == s.skip(j),
        trim_start_underscores(s).len() > 0 ==> trim_start_underscores(s)[0] != '_',
    decreases s.len(),
{
    if s.len() > 0 && s[0] == '_' {
        let j = lemma_trim_start_suffix(s.drop_first());
        assert(s.drop_first().skip(j) =~= s.skip(j + 1));
        j + 1
    } else {
        assert(s.skip(0) =~= s);
        0
    }
}

proof fn lemma_trim_end_prefix(s: Seq<char>) -> (j: int)
    ensures
        0 <= j <= s.len(),
        trim_end_underscores(s) == s.take(j),
        trim_end_underscores(s).len() > 0 ==> trim_end_underscores(s).last() != '_',
    decreases s.len(),
{
    if s.len() > 0 && s.last() == '_' {
        let j = lemma_trim_end_prefix(s.drop_last());
        assert(s.drop_last().take(j) =~= s.take(j));
        j
    } else {
        assert(s.take(s.len() as int) =~= s);
        s.len() as int
    }
}

/// A slug is never empty, neither starts nor ends with an underscore, and
/// never has two underscores in a row.
pub proof fn lemma_safe_slug_clean(url: Seq<char>)
    ensures
        safe_slug(url).len() > 0,
        safe_slug(url)[0] != '_',
        safe_slug(url).last() != '_',
        no_double_underscore(safe_slug(url)),
{
    let stripped = strip_all(strip_all(strip_all(url, https_prefix()), http_prefix()), www_prefix());
    let c = collapse_underscores(slug_raw(stripped));
    lemma_collapse_single(slug_raw(stripped));
    let a = trim_start_underscores(c);
    let j = lemma_trim_start_suffix(c);
    let k = lemma_trim_end_prefix(a);
    let t = trim_end_underscores(a);
    if t.len() > 0 {
        assert(t[0] == a[0]);
        assert forall|i: int| 0 <= i < t.len() - 1 implies !(#[trigger] t[i] == '_' && t[i + 1] == '_') by {
            assert(t[i] == c[i + j]);
            assert(t[i + 1] == c[i + 1 + j]);
        }
    } else {
        assert(index_slug()[0] == 'i');
        assert(index_slug().last() == 'x');
    }
}

/// A char a slug may hold: an underscore, an ASCII lowercase letter or
/// digit, or an alphanumeric char that is not an ASCII uppercase letter.
pub open spec fn slug_class(d: char) -> bool {
    ||| d == '_'
    ||| ('a' <= d && d <= 'z')
    ||| ('0' <= d && d <= '9')
    ||| (unicode_alphanumeric(d) && !('A' <= d && d <= 'Z'))
}

proof fn lemma_slug_raw_class(s: Seq<char>)
    ensures
        forall|i: int| 0 <= i < slug_raw(s).len() ==> slug_class(#[trigger] slug_raw(s)[i]),
    decreases s.len(),
{
    if s.len() > 0 {
        lemma_slug_raw_class(s.drop_last());
        let c = s.last();
        let prev = slug_raw(s.drop_last());
        match slug_char(c) {
            Some(d) => {
                if unicode_alphanumeric(c) {
                    if 'A' <= c && c <= 'Z' {
                        assert('a' <= ascii_lower(c) && ascii_lower(c) <= 'z');
                    } else {
                        assert(ascii_lower(c) == c);
                    }
                }
                assert(slug_class(d));
                assert(slug_raw(s) == prev.push(d));
                assert forall|i: int| 0 <= i < slug_raw(s).len() implies slug_class(#[trigger] slug_raw(s)[i]) by {
                    if i < prev.len() {
                        assert(slug_raw(s)[i] == prev[i]);
                    }
                }
            },
            None => {
                assert(slug_raw(s) == prev);
            },
        }
    }
}

proof fn lemma_collapse_class(s: Seq<char>)
    requires
        forall|i: int| 0 <= i < s.len() ==> slug_class(#[trigger] s[i]),
    ensures
        forall|i: int| 0 <= i < collapse_underscores(s).len() ==> slug_class(#[trigger] collapse_underscores(s)[i]),
    decreases s.len(),
{
    if s.len() > 0 {
        assert forall|i: int| 0 <= i < s.drop_last().len() implies slug_class(#[trigger] s.drop_last()[i]) by {
            assert(s.drop_last()[i] == s[i]);
        }
        lemma_collapse_class(s.drop_last());
        let r = collapse_underscores(s.drop_last());
        assert(slug_class(s[s.len() - 1]));
        assert forall|i: int| 0 <= i < collapse_underscores(s).len() implies slug_class(
            #[trigger] collapse_underscores(s)[i],
        ) by {
            if i < r.len() {
                assert(collapse_underscores(s)[i] == r[i]);
            } else {
                assert(collapse_underscores(s)[i] == s.last());
            }
        }
    }
}

/// Every char of a slug is an underscore, an ASCII lowercase letter or
/// digit, or an alphanumeric char that is not an ASCII uppercase letter.
pub proof fn lemma_safe_slug_chars(url: Seq<char>)
    ensures
        forall|i: int| 0 <= i < safe_slug(url).len() ==> slug_class(#[trigger] safe_slug(url)[i]),
{
    let stripped = strip_all(strip_all(strip_all(url, https_prefix()), http_prefix()), www_prefix());
    lemma_slug_raw_class(stripped);
    let c = collapse_underscores(slug_raw(stripped));
    lemma_collapse_class(slug_raw(stripped));
    let a = trim_start_underscores(c);
    let j = lemma_trim_start_suffix(c);
    let k = lemma_trim_end_prefix(a);
    let t = trim_end_underscores(a);
    if t.len() > 0 {
        assert forall|i: int| 0 <= i < t.len() implies slug_class(#[trigger] t[i]) by {
            assert(t[i] == c[i + j]);
        }
    } else {
        assert forall|i: int| 0 <= i < index_slug().len() implies slug_class(#[trigger] index_slug()[i]) by {
            assert('a' <= index_slug()[i] && index_slug()[i] <= 'z');
        }
    }
}

proof fn lemma_slug_raw_id(s: Seq<char>)
    requires
        forall|i: int| 0 <= i < s.len() ==> slug_class(#[trigger] s[i]),
    ensures
        slug_raw(s) == s,
    decreases s.len(),
{
    if s.len() > 0 {
        let d = s.drop_last();
        assert forall|i: int| 0 <= i < d.len() implies slug_class(#[trigger] d[i]) by {
            assert(d[i] == s[i]);
        }
        lemma_slug_raw_id(d);
        let c = s.last();
        assert(slug_class(s[s.len() - 1]));
        assert(slug_char(c) == Some(c));
        assert(d.push(c) =~= s);
    }
}

proof fn lemma_collapse_id(s: Seq<char>)
    requires
        no_double_underscore(s),
    ensures
        collapse_underscores(s) == s,
    decreases s.len(),
{
    if s.len() > 0 {
        let d = s.drop_last();
        assert forall|i: int| 0 <= i < d.len() - 1 implies !(#[trigger] d[i] == '_' && d[i + 1] == '_') by {
            assert(d[i] == s[i] && d[i + 1] == s[i + 1]);
        }
        lemma_collapse_id(d);
        if s.last() == '_' && d.len() > 0 {
            assert(!(s[s.len() - 2] == '_' && s[(s.len() - 2) + 1] == '_'));
            assert(d.last() == s[s.len() - 2]);
        }
        assert(d.push(s.last()) =~= s);
    }
}

/// A prefix that holds a char no slug holds is never stripped from a slug.
proof fn lemma_strip_none(t: Seq<char>, p: Seq<char>, i: int)
    requires
        forall|j: int| 0 <= j < t.len() ==> slug_class(#[trigger] t[j]),
        0 <= i < p.len(),
        !slug_class(p[i]),
    ensures
        strip_all(t, p) == t,
{
    if p.len() <= t.len() && t.take(p.len() as int) == p {
        assert(t.take(p.len() as int)[i] == t[i]);
        assert(slug_class(t[i]));
    }
}

/// Slugging a slug gives it back.
pub proof fn lemma_safe_slug_idempotent(url: Seq<char>)
    ensures
        safe_slug(safe_slug(url)) == safe_slug(url),
{
    let t = safe_slug(url);
    lemma_safe_slug_clean(url);
    lemma_safe_slug_chars(url);
    assert(!slug_class(https_prefix()[5]));
    lemma_strip_none(t, https_prefix(), 5);
    assert(!slug_class(http_prefix()[4]));
    lemma_strip_none(t, http_prefix(), 4);
    assert(!slug_class(www_prefix()[3]));
    lemma_strip_none(t, www_prefix(), 3);
    lemma_slug_raw_id(t);
    lemma_collapse_id(t);
    assert(trim_start_underscores(t) == t);
    assert(trim_end_underscores(t) == t);
}

/// Whether `cs[from..]` starts with `p`.
fn starts_at(cs: &Vec<char>, from: usize, p: &Vec<char>) -> (r: bool)
    requires
        from <= cs@.len(),
    ensures
        r == (p@.len() <= cs@.len() - from && cs@.skip(from as int).take(p@.len() as int) == p@),
{
    if p.len() > cs.len() - from {
        return false;
    }
    let mut i: usize = 0;
    while i < p.len()
        invariant
            from <= cs.len(),
            p.len() <= cs.len() - from,
            i <= p@.len(),
            forall|k: int| 0 <= k < i ==> cs@[from + k] == p@[k],
        decreases p@.len() - i,
    {
        if cs[from + i] != p[i] {
            proof {
                assert(cs@.skip(from as int).take(p@.len() as int)[i as int] != p@[i as int]);
            }
            return false;
        }
        i = i + 1;
    }
    proof {
        assert(cs@.skip(from as int).take(p@.len() as int) =~= p@);
    }
    true
}

/// The position in `cs` after every repetition of the non-empty `p` from
/// `from` on.
fn skip_all(cs: &Vec<char>, from: usize, p: &Vec<char>) -> (r: usize)
    requires
        from <= cs@.len(),
        p@.len() > 0,
    ensures
        from <= r <= cs@.len(),
        cs@.skip(r as int) == strip_all(cs@.skip(from as int), p@),
{
    let mut i = from;
    loop
        invariant
            from <= i <= cs.len(),
            p@.len() > 0,
            strip_all(cs@.skip(i as int), p@) == strip_all(cs@.skip(from as int), p@),
        decreases cs@.len() - i,
    {
        if !starts_at(cs, i, p) {
            return i;
        }
        proof {
            assert(cs@.skip(i as int).skip(p@.len() as int) =~= cs@.skip(i + p@.len()));
        }
        i = i + p.len();
    }
}

/// The file-name slug of a crawled URL (see [`safe_slug`]).
pub fn make_safe_slug(url: &str) -> (r: String)
    ensures
        r@ == safe_slug(url@),
{
    let cs = chars_of(url);
    let https = chars_of("https://");
    let http = chars_of("http://");
    let www = chars_of("www.");
    proof {
        reveal_strlit("https://");
        reveal_strlit("http://");
        reveal_strlit("www.");
        assert(https@ =~= https_prefix());
        assert(http@ =~= http_prefix());
        assert(www@ =~= www_prefix());
        assert(cs@.skip(0) =~= cs@);
    }
    let a = skip_all(&cs, 0, &https);
    let b = skip_all(&cs, a, &http);
    let c = skip_all(&cs, b, &www);
    let ghost stripped = cs@.skip(c as int);
    let mut slug: Vec<char> = Vec::new();
    for k in c..cs.len()
        invariant
            c <= cs@.len(),
            stripped == cs@.skip(c as int),
            slug@ == slug_raw(cs@.subrange(c as int, k as int)),
    {
        let ch = cs[k];
        proof {
            assert(cs@.subrange(c as int, k + 1).drop_last() =~= cs@.subrange(c as int, k as int));
        }
        if char_is_alphanumeric(ch) {
            slug.push(lower_char(ch));
        } else if ch == '/' || ch == '?' || ch == '&' || ch == '=' || ch == '-' || ch == '_' || ch == '.' {
            slug.push('_');
        }
    }
    proof {
        assert(cs@.subrange(c as int, cs@.len() as int) =~= stripped);
    }
    let mut cleaned: Vec<char> = Vec::new();
    let mut last_was_underscore = false;
    for k in 0..slug.len()
        invariant
            cleaned@ == collapse_underscores(slug@.take(k as int)),
            last_was_underscore == (cleaned@.len() > 0 && cleaned@.last() == '_'),
    {
        let ch = slug[k];
        proof {
            assert(slug@.take(k + 1).drop_last() =~= slug@.take(k as int));
        }
        if ch == '_' {
            if !last_was_underscore {
                cleaned.push('_');
                last_was_underscore = true;
            }
        } else {
            cleaned.push(ch);
            last_was_underscore = false;
        }
    }
    proof {
        assert(slug@.take(slug@.len() as int) =~= slug@);
    }
    let mut lo: usize = 0;
    proof {
        assert(cleaned@.skip(0) =~= cleaned@);
    }
    while lo < cleaned.len() && cleaned[lo] == '_'
        invariant
            lo <= cleaned@.len(),
            trim_start_underscores(cleaned@) == trim_start_underscores(cleaned@.skip(lo as int)),
        decreases cleaned@.len() - lo,
    {
        proof {
            assert(cleaned@.skip(lo as int).drop_first() =~= cleaned@.skip(lo + 1));
        }
        lo = lo + 1;
    }
    proof {
        if lo < cleaned@.len() {
            assert(cleaned@.skip(lo as int)[0] == cleaned@[lo as int]);
        }
        assert(cleaned@.subrange(lo as int, cleaned@.len() as int) =~= cleaned@.skip(lo as int));
    }
    let mut hi: usize = cleaned.len();
    while hi > lo && cleaned[hi - 1] == '_'
        invariant
            lo <= hi <= cleaned@.len(),
            trim_end_underscores(trim_start_underscores(cleaned@)) == trim_end_underscores(
                cleaned@.subrange(lo as int, hi as int),
            ),
        decreases hi - lo,
    {
        proof {
            assert(cleaned@.subrange(lo as int, hi as int).drop_last() =~= cleaned@.subrange(lo as int, hi - 1));
        }
        hi = hi - 1;
    }
    proof {
        if hi > lo {
            assert(cleaned@.subrange(lo as int, hi as int).last() == cleaned@[hi - 1]);
        }
    }
    if hi == lo {
        let mut r = String::new();
        push_str(&mut r, "index");
        proof {
            reveal_strlit("index");
            assert(r@ =~= index_slug());
        }
        r
    } else {
        string_from_chars(&cleaned.as_slice()[lo..hi])
    }
}

/// The timestamp line of a crawled page: the seconds since the Unix epoch,
/// or "Unknown time" when the clock is before the epoch.
pub open spec fn timestamp_text(secs: Option<u64>) -> Seq<char> {
    match secs {
        Some(s) => seq!['U', 'n', 'i', 'x', ' ', 'E', 'p', 'o', 'c', 'h', ' ', 'S', 'e', 'c', 's', ' ']
            + decimal(s as nat),
        None => seq!['U', 'n', 'k', 'n', 'o', 'w', 'n', ' ', 't', 'i', 'm', 'e'],
    }
}

#[verifier::external_type_specification]
#[verifier::external_body]
pub struct ExSystemTime(std::time::SystemTime);

/// The whole seconds of a duration (`Duration::as_secs`).
pub uninterp spec fn whole_seconds(d: std::time::Duration) -> u64;

/// `SystemTime::now`: the system clock's reading, which can be anything.
#[verifier::external_body]
fn clock_now() -> (r: std::time::SystemTime) {
    std::time::SystemTime::now()
}

/// `SystemTime::duration_since(UNIX_EPOCH)`: the time since the Unix epoch,
/// `None` for a reading before it. Nothing is stated of the result, which
/// depends on the clock.
#[verifier::external_body]
fn since_epoch(t: &std::time::SystemTime) -> (r: Option<std::time::Duration>) {
    t.duration_since(std::time::UNIX_EPOCH).ok()
}

/// `Duration::as_secs`: the whole seconds of `d`.
#[verifier::external_body]
fn duration_seconds(d: &std::time::Duration) -> (r: u64)
    ensures
        r == whole_seconds(*d),
{
    d.as_secs()
}

/// Whole seconds since the Unix epoch by the system clock, `None` when the
/// clock is before the epoch.
fn unix_seconds() -> (r: Option<u64>) {
    let now = clock_now();
    match since_epoch(&now) {
        Some(d) => Some(duration_seconds(&d)),
        None => None,
    }
}

/// The timestamp line for a clock reading (see [`timestamp_text`]).
pub fn format_timestamp(secs: Option<u64>) -> (r: String)
    ensures
        r@ == timestamp_text(secs),
{
    match secs {
        Some(s) => {
            let mut r = String::new();
            push_str(&mut r, "Unix Epoch Secs ");
            let d = decimal_string_u64(s);
            push_str(&mut r, d.as_str());
            proof {
                reveal_strlit("Unix Epoch Secs ");
                assert(r@ =~= timestamp_text(secs));
            }
            r
        },
        None => {
            let mut r = String::new();
            push_str(&mut r, "Unknown time");
            proof {
                reveal_strlit("Unknown time");
                assert(r@ =~= timestamp_text(secs));
            }
            r
        },
    }
}

/// The timestamp line for the present moment.
pub fn chrono_timestamp() -> (r: String)
    ensures
        exists|secs: Option<u64>| r@ == timestamp_text(secs),
{
    let secs = unix_seconds();
    format_timestamp(secs)
}

pub open spec fn token_key() -> Seq<char> {
    seq!['N', 'U', 'T', 'S', '_', 'S', 'E', 'R', 'V', 'I', 'C', 'E', 'S', '_', 'T', 'O', 'K', 'E', 'N', '=']
}

/// The token of the first of the lines `ls[i..]` that, trimmed, starts
/// with `NUTS_SERVICES_TOKEN=`: what follows the `=`, trimmed.
pub open spec fn token_from(ls: Seq<Seq<char>>, i: int) -> Option<Seq<char>>
    decreases ls.len() - i,
{
    if i < 0 || i >= ls.len() {
        None
    } else {
        let t = trim(ls[i]);
        if t.len() >= token_key().len() && t.take(token_key().len() as int) == token_key() {
            Some(trim(t.skip(token_key().len() as int)))
        } else {
            token_from(ls, i + 1)
        }
    }
}

/// The token set in the text of a `.env` file: the value of its first
/// `NUTS_SERVICES_TOKEN=` line, trimmed; `None` when there is no such line.
pub fn token_from_env_file(content: &str) -> (r: Option<String>)
    ensures
        match r {
            Some(t) => token_from(split_lines(content@), 0) == Some(t@),
            None => token_from(split_lines(content@), 0) is None,
        },
{
    let cs = chars_of(content);
    let lines = line_bounds(cs.as_slice());
    let key = chars_of("NUTS_SERVICES_TOKEN=");
    proof {
        reveal_strlit("NUTS_SERVICES_TOKEN=");
        assert(key@ =~= token_key());
    }
    let ghost ls = split_lines(cs@);
    let mut k: usize = 0;
    while k < lines.len()
        invariant
            cs@ == content@,
            ls == split_lines(cs@),
            key@ == token_key(),
            lines@.len() == ls.len(),
            forall|q: int|
                0 <= q < lines@.len() ==> (#[trigger] lines@[q]).0 <= lines@[q].1 <= cs@.len()
                    && cs@.subrange(lines@[q].0 as int, lines@[q].1 as int) == ls[q],
            k <= lines@.len(),
            token_from(ls, 0) == token_from(ls, k as int),
        decreases lines@.len() - k,
    {
        let t = trim_range(cs.as_slice(), lines[k].0, lines[k].1);
        proof {
            assert(t@ == trim(ls[k as int]));
            assert(t@.skip(0) =~= t@);
        }
        if starts_at(&t, 0, &key) {
            let v = trim_range(t.as_slice(), key.len(), t.len());
            proof {
                assert(t@.subrange(key@.len() as int, t@.len() as int) =~= t@.skip(key@.len() as int));
            }
            return Some(string_from_chars(v.as_slice()));
        }
        k = k + 1;
    }
    None
}

/// The page text that the crawl service returned: its Markdown, else its
/// plain Markdown, else its raw content.
pub fn page_markdown(markdown: Option<String>, plain: Option<String>, content: Option<String>) -> (r: Option<
    String,
>)
    ensures
        r == match markdown {
            Some(m) => Some(m),
            None => match plain {
                Some(p) => Some(p),
                None => content,
            },
        },
{
    match markdown {
        Some(m) => Some(m),
        None => match plain {
            Some(p) => Some(p),
            None => content,
        },
    }
}

pub open spec fn default_page_title() -> Seq<char> {
    seq!['C', 'r', 'a', 'w', 'l', 'e', 'd', ' ', 'D', 'o', 'c', 'u', 'm', 'e', 'n', 't']
}

/// The Markdown file saved for a crawled page: a header with the title, the
/// source URL and the crawl time, a rule, then the page.
pub open spec fn saved_page(title: Seq<char>, url: Seq<char>, stamp: Seq<char>, content: Seq<char>) -> Seq<char> {
    seq!['#', ' '] + title + seq!['\n', '\n', '*', ' ', ' ', ' ', '*', '*', 'S', 'o', 'u', 'r', 'c', 'e', ' ', 'U', 'R', 'L', '*', '*', ':', ' ']
        + url + seq!['\n', '*', ' ', ' ', ' ', '*', '*', 'C', 'r', 'a', 'w', 'l', ' ', 'T', 'i', 'm', 'e', 's', 't', 'a', 'm', 'p', '*', '*', ':', ' ']
        + stamp + seq!['\n', '\n', '-', '-', '-', '\n', '\n'] + content
}

/// The text of the file saved for a crawled page (see [`saved_page`]); the
/// title is "Crawled Document" when the service gave none.
pub fn saved_page_text(title: Option<String>, url: &str, stamp: &str, content: &str) -> (r: String)
    ensures
        r@ == saved_page(
            match title {
                Some(t) => t@,
                None => default_page_title(),
            },
            url@,
            stamp@,
            content@,
        ),
{
    let t = match title {
        Some(t) => t,
        None => {
            let mut d = String::new();
            push_str(&mut d, "Crawled Document");
            proof {
                reveal_strlit("Crawled Document");
                assert(d@ =~= default_page_title());
            }
            d
        },
    };
    let mut r = String::new();
    push_str(&mut r, "# ");
    push_str(&mut r, t.as_str());
    push_str(&mut r, "\n\n*   **Source URL**: ");
    push_str(&mut r, url);
    push_str(&mut r, "\n*   **Crawl Timestamp**: ");
    push_str(&mut r, stamp);
    push_str(&mut r, "\n\n---\n\n");
    push_str(&mut r, content);
    proof {
        reveal_strlit("# ");
        reveal_strlit("\n\n*   **Source URL**: ");
        reveal_strlit("\n*   **Crawl Timestamp**: ");
        reveal_strlit("\n\n---\n\n");
        assert(r@ =~= saved_page(t@, url@, stamp@, content@));
    }
    r
}

} // verus!
