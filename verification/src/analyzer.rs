//! The analyzer chain: hyphen stripping, Latin folding to ASCII,
//! lowercasing and tokenisation on non-alphanumeric boundaries, with every
//! token keeping the byte span of the input it came from.

use vstd::prelude::*;
use crate::text::byte_offset;
use crate::text::lemma_encode_utf8_concat;
use crate::text::char_width;
use crate::text::chars_of;
use crate::text::push_char;
use crate::text::lemma_byte_offset_step;
use crate::text::lemma_byte_offset_mono;

verus! {

/// Token separator inside dictionary keys (U+001E, the record separator).
pub const SEP: u8 = 0x1E;

/// Hyphen and dash characters that the analyzer drops.
pub open spec fn spec_is_hyphen(c: char) -> bool {
    let u = c as u32;
    u == 0x2D || u == 0x2010 || u == 0x2011 || u == 0x2012 || u == 0x2013 || u == 0x2014
        || u == 0x2212
}

/// ASCII letters and digits.
pub open spec fn spec_ascii_alnum(c: char) -> bool {
    ('a' <= c && c <= 'z') || ('A' <= c && c <= 'Z') || ('0' <= c && c <= '9')
}

/// ASCII letters and digits, as bytes.
pub open spec fn spec_alnum_byte(b: u8) -> bool {
    (97 <= b && b <= 122) || (65 <= b && b <= 90) || (48 <= b && b <= 57)
}

/// The lowercase byte of an ASCII letter or digit.
pub open spec fn spec_lower_byte(c: char) -> u8 {
    if 'A' <= c && c <= 'Z' {
        ((c as u32) + 32) as u8
    } else {
        (c as u32) as u8
    }
}

/// The uppercase char of an ASCII char.
pub open spec fn spec_upper_char(c: char) -> char {
    if 'a' <= c && c <= 'z' {
        ((c as u32) - 32) as char
    } else {
        c
    }
}

/// The Latin-1 / Latin Extended letters folded to lowercase ASCII, and
/// what they fold to.
pub open spec fn spec_fold_latin(c: char) -> Option<Seq<u8>> {
    let u = c as u32;
    if (0xC0 <= u && u <= 0xC5) || (0xE0 <= u && u <= 0xE5) {
        Some(seq![97u8])
    } else if u == 0xC6 || u == 0xE6 {
        Some(seq![97u8, 101u8])
    } else if u == 0xC7 || u == 0xE7 {
        Some(seq![99u8])
    } else if (0xC8 <= u && u <= 0xCB) || (0xE8 <= u && u <= 0xEB) {
        Some(seq![101u8])
    } else if (0xCC <= u && u <= 0xCF) || (0xEC <= u && u <= 0xEF) {
        Some(seq![105u8])
    } else if u == 0xD0 || u == 0xF0 {
        Some(seq![100u8])
    } else if u == 0xD1 || u == 0xF1 {
        Some(seq![110u8])
    } else if (0xD2 <= u && u <= 0xD6) || u == 0xD8 || (0xF2 <= u && u <= 0xF6) || u == 0xF8 {
        Some(seq![111u8])
    } else if u == 0x152 || u == 0x153 {
        Some(seq![111u8, 101u8])
    } else if (0xD9 <= u && u <= 0xDC) || (0xF9 <= u && u <= 0xFC) {
        Some(seq![117u8])
    } else if u == 0xDD || u == 0xFD || u == 0xFF {
        Some(seq![121u8])
    } else if u == 0xDE || u == 0xFE {
        Some(seq![116u8, 104u8])
    } else if u == 0xDF {
        Some(seq![115u8, 115u8])
    } else {
        None
    }
}

/// The bytes one input char contributes to the folded stream: nothing for
/// a hyphen, its lowercase for an ASCII letter or digit, its fold for a
/// folded Latin letter, and a space (a token separator) for anything else.
pub open spec fn spec_fold_char(c: char) -> Seq<u8> {
    if spec_is_hyphen(c) {
        Seq::empty()
    } else if spec_ascii_alnum(c) {
        seq![spec_lower_byte(c)]
    } else {
        match spec_fold_latin(c) {
            Some(bs) => bs,
            None => seq![32u8],
        }
    }
}

/// The folded stream of `s`: each byte paired with the index of the input
/// char it came from.
pub open spec fn spec_fold_units(s: Seq<char>) -> Seq<(u8, int)>
    decreases s.len(),
{
    if s.len() == 0 {
        Seq::empty()
    } else {
        let k = s.len() - 1;
        spec_fold_units(s.drop_last()) + spec_fold_char(s.last()).map_values(|b: u8| (b, k))
    }
}

/// The folded bytes of `s`.
pub open spec fn spec_fold_bytes(s: Seq<char>) -> Seq<u8>
    decreases s.len(),
{
    if s.len() == 0 {
        Seq::empty()
    } else {
        spec_fold_bytes(s.drop_last()) + spec_fold_char(s.last())
    }
}

/// A token under construction or finished: its bytes, and the indices of
/// the first and last input chars it covers.
pub type SpanV = (Seq<u8>, int, int);

/// One step of the tokenizer: an alphanumeric byte extends the open token
/// (or opens one); any other byte closes the open token.
pub open spec fn spec_tok_step(
    st: (Seq<SpanV>, Option<SpanV>),
    u: (u8, int),
) -> (Seq<SpanV>, Option<SpanV>) {
    if spec_alnum_byte(u.0) {
        match st.1 {
            Some(t) => (st.0, Some((t.0.push(u.0), t.1, u.1))),
            None => (st.0, Some((seq![u.0], u.1, u.1))),
        }
    } else {
        match st.1 {
            Some(t) => (st.0.push(t), None),
            None => (st.0, None),
        }
    }
}

/// Tokenizer state after a prefix of the folded stream.
pub open spec fn spec_tok_state(us: Seq<(u8, int)>) -> (Seq<SpanV>, Option<SpanV>)
    decreases us.len(),
{
    if us.len() == 0 {
        (Seq::empty(), None)
    } else {
        spec_tok_step(spec_tok_state(us.drop_last()), us.last())
    }
}

/// The tokens of a folded stream: maximal runs of alphanumeric bytes.
pub open spec fn spec_tokens_of(us: Seq<(u8, int)>) -> Seq<SpanV> {
    let st = spec_tok_state(us);
    match st.1 {
        Some(t) => st.0.push(t),
        None => st.0,
    }
}

/// The tokens of a text.
pub open spec fn spec_analyze(s: Seq<char>) -> Seq<SpanV> {
    spec_tokens_of(spec_fold_units(s))
}

/// Token bytes joined with `SEP`.
pub open spec fn spec_join(ts: Seq<Seq<u8>>) -> Seq<u8>
    decreases ts.len(),
{
    if ts.len() == 0 {
        Seq::empty()
    } else if ts.len() == 1 {
        ts[0]
    } else {
        spec_join(ts.drop_last()).push(SEP) + ts.last()
    }
}

/// The dictionary key of a text: its token bytes joined with `SEP`.
pub open spec fn spec_key(s: Seq<char>) -> Seq<u8> {
    spec_join(spec_analyze(s).map_values(|t: SpanV| t.0))
}

/// What `derive_output` makes of one char: the uppercase of an ASCII
/// letter or digit, the uppercase of a Latin fold, nothing otherwise.
pub open spec fn spec_output_char(c: char) -> Seq<char> {
    if spec_ascii_alnum(c) {
        seq![spec_upper_char(c)]
    } else {
        match spec_fold_latin(c) {
            Some(bs) => bs.map_values(|b: u8| spec_upper_char(b as char)),
            None => Seq::empty(),
        }
    }
}

/// The canonical output token of a phrase.
pub open spec fn spec_derive_output(s: Seq<char>) -> Seq<char>
    decreases s.len(),
{
    if s.len() == 0 {
        Seq::empty()
    } else {
        spec_derive_output(s.drop_last()) + spec_output_char(s.last())
    }
}

// ─── What a key depends on ──────────────────────────────────────────────

/// One step of the tokenizer on bytes alone.
pub open spec fn tok_bytes_step(st: (Seq<Seq<u8>>, Option<Seq<u8>>), b: u8) -> (Seq<Seq<u8>>, Option<Seq<u8>>) {
    if spec_alnum_byte(b) {
        match st.1 {
            Some(t) => (st.0, Some(t.push(b))),
            None => (st.0, Some(seq![b])),
        }
    } else {
        match st.1 {
            Some(t) => (st.0.push(t), None),
            None => (st.0, None),
        }
    }
}

pub open spec fn tok_bytes_state(bs: Seq<u8>) -> (Seq<Seq<u8>>, Option<Seq<u8>>)
    decreases bs.len(),
{
    if bs.len() == 0 {
        (Seq::empty(), None)
    } else {
        tok_bytes_step(tok_bytes_state(bs.drop_last()), bs.last())
    }
}

/// The maximal runs of alphanumeric bytes of `bs`.
pub open spec fn tokens_of_bytes(bs: Seq<u8>) -> Seq<Seq<u8>> {
    let st = tok_bytes_state(bs);
    match st.1 {
        Some(t) => st.0.push(t),
        None => st.0,
    }
}

/// `s` without its hyphens and dashes.
pub open spec fn without_hyphens(s: Seq<char>) -> Seq<char>
    decreases s.len(),
{
    if s.len() == 0 {
        Seq::empty()
    } else if spec_is_hyphen(s.last()) {
        without_hyphens(s.drop_last())
    } else {
        without_hyphens(s.drop_last()).push(s.last())
    }
}

/// The lowercase of an ASCII letter; other chars unchanged.
pub open spec fn lower_ascii(c: char) -> char {
    if 'A' <= c && c <= 'Z' {
        ((c as u32) + 32) as char
    } else {
        c
    }
}

proof fn lemma_tok_state_bytes(us: Seq<(u8, int)>)
    ensures
        spec_tok_state(us).0.map_values(|t: SpanV| t.0) == tok_bytes_state(us.map_values(|u: (u8, int)| u.0)).0,
        spec_tok_state(us).1 is Some <==> tok_bytes_state(us.map_values(|u: (u8, int)| u.0)).1 is Some,
        spec_tok_state(us).1 matches Some(t) ==> tok_bytes_state(us.map_values(|u: (u8, int)| u.0)).1 == Some(
            t.0,
        ),
    decreases us.len(),
{
    if us.len() > 0 {
        let f = |u: (u8, int)| u.0;
        lemma_tok_state_bytes(us.drop_last());
        assert(us.drop_last().map_values(f) =~= us.map_values(f).drop_last());
        let prev = spec_tok_state(us.drop_last());
        let g = |t: SpanV| t.0;
        if let Some(t) = prev.1 {
            assert(prev.0.push(t).map_values(g) =~= prev.0.map_values(g).push(t.0));
        }
    }
}

proof fn lemma_fold_units_bytes(s: Seq<char>)
    ensures
        spec_fold_units(s).map_values(|u: (u8, int)| u.0) == spec_fold_bytes(s),
    decreases s.len(),
{
    if s.len() > 0 {
        lemma_fold_units_bytes(s.drop_last());
        let k = s.len() - 1;
        let f = |u: (u8, int)| u.0;
        let a = spec_fold_units(s.drop_last());
        let b = spec_fold_char(s.last()).map_values(|b: u8| (b, k));
        assert((a + b).map_values(f) =~= a.map_values(f) + spec_fold_char(s.last()));
    }
}

/// The key of a text is the joined runs of alphanumeric bytes of its
/// folded form.
pub proof fn lemma_key_of_folded(s: Seq<char>)
    ensures
        spec_key(s) == spec_join(tokens_of_bytes(spec_fold_bytes(s))),
{
    let us = spec_fold_units(s);
    lemma_tok_state_bytes(us);
    lemma_fold_units_bytes(s);
    let st = spec_tok_state(us);
    let g = |t: SpanV| t.0;
    if let Some(t) = st.1 {
        assert(st.0.push(t).map_values(g) =~= st.0.map_values(g).push(t.0));
    }
    assert(spec_analyze(s).map_values(g) =~= tokens_of_bytes(spec_fold_bytes(s)));
}

/// Two texts that fold to the same bytes have the same key, so they match
/// the same dictionary phrases.
pub proof fn lemma_key_depends_on_folded(s: Seq<char>, t: Seq<char>)
    requires
        spec_fold_bytes(s) == spec_fold_bytes(t),
    ensures
        spec_key(s) == spec_key(t),
{
    lemma_key_of_folded(s);
    lemma_key_of_folded(t);
}

proof fn lemma_fold_bytes_without_hyphens(s: Seq<char>)
    ensures
        spec_fold_bytes(without_hyphens(s)) == spec_fold_bytes(s),
    decreases s.len(),
{
    if s.len() > 0 {
        lemma_fold_bytes_without_hyphens(s.drop_last());
        if spec_is_hyphen(s.last()) {
            assert(spec_fold_bytes(s) =~= spec_fold_bytes(s.drop_last()));
        } else {
            let w = without_hyphens(s.drop_last()).push(s.last());
            assert(w.drop_last() =~= without_hyphens(s.drop_last()));
        }
    }
}

/// Hyphens and dashes are invisible to matching: `sw-lucene` has the key
/// of `swlucene`.
pub proof fn lemma_key_ignores_hyphens(s: Seq<char>)
    ensures
        spec_key(s) == spec_key(without_hyphens(s)),
{
    lemma_fold_bytes_without_hyphens(s);
    lemma_key_depends_on_folded(s, without_hyphens(s));
}

proof fn lemma_fold_bytes_lower(s: Seq<char>)
    ensures
        spec_fold_bytes(s.map_values(|c: char| lower_ascii(c))) == spec_fold_bytes(s),
    decreases s.len(),
{
    if s.len() > 0 {
        let f = |c: char| lower_ascii(c);
        lemma_fold_bytes_lower(s.drop_last());
        assert(s.map_values(f).drop_last() =~= s.drop_last().map_values(f));
        let c = s.last();
        assert(spec_fold_char(lower_ascii(c)) == spec_fold_char(c));
    }
}

/// Matching ignores ASCII case: a text has the key of its lowercase.
pub proof fn lemma_key_ignores_ascii_case(s: Seq<char>)
    ensures
        spec_key(s) == spec_key(s.map_values(|c: char| lower_ascii(c))),
{
    lemma_fold_bytes_lower(s);
    lemma_key_depends_on_folded(s, s.map_values(|c: char| lower_ascii(c)));
}

proof fn lemma_fold_bytes_update(s: Seq<char>, i: int, c: char)
    requires
        0 <= i < s.len(),
        spec_fold_char(c) == spec_fold_char(s[i]),
    ensures
        spec_fold_bytes(s.update(i, c)) == spec_fold_bytes(s),
    decreases s.len(),
{
    let u = s.update(i, c);
    if i == s.len() - 1 {
        assert(u.drop_last() =~= s.drop_last());
    } else {
        lemma_fold_bytes_update(s.drop_last(), i, c);
        assert(u.drop_last() =~= s.drop_last().update(i, c));
    }
}

/// A char may be replaced by any char that folds the same way without
/// changing the key: `Zürich` has the key of `Zurich`, and `Æ` that of
/// `æ`.
pub proof fn lemma_key_folds_alike(s: Seq<char>, i: int, c: char)
    requires
        0 <= i < s.len(),
        spec_fold_char(c) == spec_fold_char(s[i]),
    ensures
        spec_key(s.update(i, c)) == spec_key(s),
{
    lemma_fold_bytes_update(s, i, c);
    lemma_key_depends_on_folded(s.update(i, c), s);
}

/// A Latin letter that folds to a single ASCII letter matches that letter:
/// replacing it by the letter keeps the key.
pub proof fn lemma_key_latin_to_ascii(s: Seq<char>, i: int)
    requires
        0 <= i < s.len(),
        spec_fold_latin(s[i]) matches Some(bs) && bs.len() == 1,
        !spec_is_hyphen(s[i]),
        !spec_ascii_alnum(s[i]),
    ensures
        spec_key(s.update(i, (spec_fold_latin(s[i]).unwrap()[0] as u32) as char)) == spec_key(s),
{
    let b = spec_fold_latin(s[i]).unwrap()[0];
    let c = (b as u32) as char;
    assert(spec_fold_char(c) =~= spec_fold_char(s[i]));
    lemma_key_folds_alike(s, i, c);
}

/// Latin folding is blind to case: each Latin-1 capital letter (U+00C0 to
/// U+00DE but `×`) folds to the same ASCII bytes as its small letter (the
/// code point 0x20 above), and so does `Œ` as `œ`; and every Latin-1 letter
/// (U+00C0 to U+00FF but `×` and `÷`) folds to something, one or two ASCII
/// small letters.
pub proof fn lemma_fold_latin_case_blind(c: char)
    ensures
        ({
            let u = c as u32;
            0xC0 <= u <= 0xDE && u != 0xD7 ==> spec_fold_latin(c) == spec_fold_latin(((u + 0x20) as u32) as char)
        }),
        (c as u32) == 0x152 ==> spec_fold_latin(c) == spec_fold_latin(0x153u32 as char),
        ({
            let u = c as u32;
            0xC0 <= u <= 0xFF && u != 0xD7 && u != 0xF7 ==> (spec_fold_latin(c) matches Some(bs) && 1 <= bs.len()
                <= 2 && forall|k: int| 0 <= k < bs.len() ==> 97 <= #[trigger] bs[k] <= 122)
        }),
{
    let u = c as u32;
    if 0xC0 <= u <= 0xDE && u != 0xD7 {
        let d = ((u + 0x20) as u32) as char;
        assert((d as u32) == u + 0x20) by {
            assert(0xE0 <= u + 0x20 <= 0xFE);
        }
    }
    if (c as u32) == 0x152 {
        assert((0x153u32 as char) as u32 == 0x153);
    }
}

/// The key of a text does not depend on the case of its Latin-1 letters:
/// replacing a capital by its small letter keeps the key (`Français` has
/// the key of `FRANÇAIS`).
pub proof fn lemma_key_latin_case(s: Seq<char>, i: int)
    requires
        0 <= i < s.len(),
        0xC0 <= (s[i] as u32) <= 0xDE,
        (s[i] as u32) != 0xD7,
    ensures
        spec_key(s.update(i, ((s[i] as u32 + 0x20) as u32) as char)) == spec_key(s),
{
    let c = s[i];
    let d = ((c as u32 + 0x20) as u32) as char;
    lemma_fold_latin_case_blind(c);
    assert((d as u32) == (c as u32) + 0x20) by {
        assert(0xE0 <= (c as u32) + 0x20 <= 0xFE);
    }
    assert(!spec_is_hyphen(d) && !spec_is_hyphen(c));
    assert(!spec_ascii_alnum(d) && !spec_ascii_alnum(c));
    assert(spec_fold_char(d) == spec_fold_char(c));
    lemma_key_folds_alike(s, i, d);
}

/// An ASCII uppercase letter or digit.
pub open spec fn upper_alnum(c: char) -> bool {
    ('A' <= c && c <= 'Z') || ('0' <= c && c <= '9')
}

/// A text of ASCII uppercase letters and digits is its own output token.
proof fn lemma_output_of_upper_alnum(t: Seq<char>)
    requires
        forall|i: int| 0 <= i < t.len() ==> upper_alnum(#[trigger] t[i]),
    ensures
        spec_derive_output(t) == t,
    decreases t.len(),
{
    if t.len() > 0 {
        lemma_output_of_upper_alnum(t.drop_last());
        let c = t.last();
        assert(upper_alnum(t[t.len() - 1]));
        assert(spec_output_char(c) == seq![c]);
        assert(t.drop_last() + seq![c] =~= t);
    }
}

/// Deriving the output token again changes nothing: an output token is
/// its own output token.
pub proof fn lemma_derive_output_idempotent(s: Seq<char>)
    ensures
        spec_derive_output(spec_derive_output(s)) == spec_derive_output(s),
{
    lemma_output_upper_alnum(s);
    lemma_output_of_upper_alnum(spec_derive_output(s));
}

/// An output token holds only ASCII uppercase letters and digits.
pub proof fn lemma_output_upper_alnum(s: Seq<char>)
    ensures
        forall|i: int| 0 <= i < spec_derive_output(s).len() ==> upper_alnum(#[trigger] spec_derive_output(s)[i]),
    decreases s.len(),
{
    if s.len() > 0 {
        lemma_output_upper_alnum(s.drop_last());
        let a = spec_derive_output(s.drop_last());
        let b = spec_output_char(s.last());
        assert forall|j: int| 0 <= j < b.len() implies upper_alnum(#[trigger] b[j]) by {
            let c = s.last();
            if !spec_ascii_alnum(c) {
                let bs = spec_fold_latin(c).unwrap();
                assert(forall|k: int| 0 <= k < bs.len() ==> 97 <= #[trigger] bs[k] <= 122);
            }
        }
        assert forall|i: int| 0 <= i < spec_derive_output(s).len() implies upper_alnum(
            #[trigger] spec_derive_output(s)[i],
        ) by {
            if i >= a.len() {
                assert(spec_derive_output(s)[i] == b[i - a.len()]);
            } else {
                assert(spec_derive_output(s)[i] == a[i]);
            }
        }
    }
}

// ─── Output tokens and keys ─────────────────────────────────────────────

/// The alphanumeric bytes of `bs`, in order.
pub open spec fn alnum_only(bs: Seq<u8>) -> Seq<u8>
    decreases bs.len(),
{
    if bs.len() == 0 {
        Seq::empty()
    } else if spec_alnum_byte(bs.last()) {
        alnum_only(bs.drop_last()).push(bs.last())
    } else {
        alnum_only(bs.drop_last())
    }
}

/// Bytes read as ASCII chars, in upper case.
pub open spec fn upper_bytes(bs: Seq<u8>) -> Seq<char> {
    bs.map_values(|b: u8| spec_upper_char(b as char))
}

/// The byte strings of `ts`, one after another.
pub open spec fn flatten_bytes(ts: Seq<Seq<u8>>) -> Seq<u8>
    decreases ts.len(),
{
    if ts.len() == 0 {
        Seq::empty()
    } else {
        flatten_bytes(ts.drop_last()) + ts.last()
    }
}

proof fn lemma_alnum_only_concat(a: Seq<u8>, b: Seq<u8>)
    ensures
        alnum_only(a + b) == alnum_only(a) + alnum_only(b),
    decreases b.len(),
{
    if b.len() == 0 {
        assert(a + b =~= a);
    } else {
        lemma_alnum_only_concat(a, b.drop_last());
        assert((a + b).drop_last() =~= a + b.drop_last());
    }
}

proof fn lemma_derive_output_folded(s: Seq<char>)
    ensures
        spec_derive_output(s) == upper_bytes(alnum_only(spec_fold_bytes(s))),
    decreases s.len(),
{
    if s.len() > 0 {
        lemma_derive_output_folded(s.drop_last());
        let c = s.last();
        let f = spec_fold_char(c);
        lemma_alnum_only_concat(spec_fold_bytes(s.drop_last()), f);
        let pre = alnum_only(spec_fold_bytes(s.drop_last()));
        assert(upper_bytes(pre + alnum_only(f)) =~= upper_bytes(pre) + upper_bytes(alnum_only(f)));
        if spec_is_hyphen(c) {
            assert(alnum_only(f) =~= Seq::<u8>::empty());
            assert(spec_output_char(c) =~= Seq::<char>::empty());
        } else if spec_ascii_alnum(c) {
            assert(f == seq![spec_lower_byte(c)]);
            assert(spec_alnum_byte(spec_lower_byte(c)));
            assert(forall|k: int| 0 <= k < f.len() ==> #[trigger] f[k] == spec_lower_byte(c));
            lemma_alnum_only_all(f);
            assert(spec_upper_char(spec_lower_byte(c) as char) == spec_upper_char(c));
            assert(upper_bytes(f) =~= spec_output_char(c));
        } else {
            match spec_fold_latin(c) {
                Some(bs) => {
                    assert(forall|k: int| 0 <= k < bs.len() ==> 97 <= #[trigger] bs[k] <= 122);
                    lemma_alnum_only_all(bs);
                    assert(upper_bytes(bs) =~= spec_output_char(c));
                },
                None => {
                    assert(f == seq![32u8]);
                    assert(f.drop_last() =~= Seq::<u8>::empty());
                    assert(!spec_alnum_byte(32u8));
                    assert(alnum_only(Seq::<u8>::empty()) == Seq::<u8>::empty());
                    assert(alnum_only(f) == alnum_only(f.drop_last()));
                    assert(alnum_only(f) =~= Seq::<u8>::empty());
                    assert(spec_output_char(c) =~= Seq::<char>::empty());
                },
            }
        }
        assert(spec_derive_output(s) =~= upper_bytes(alnum_only(spec_fold_bytes(s))));
    }
}

proof fn lemma_alnum_only_all(bs: Seq<u8>)
    requires
        forall|k: int| 0 <= k < bs.len() ==> spec_alnum_byte(#[trigger] bs[k]),
    ensures
        alnum_only(bs) == bs,
    decreases bs.len(),
{
    if bs.len() > 0 {
        lemma_alnum_only_all(bs.drop_last());
        assert(bs[bs.len() - 1] == bs.last());
        assert(bs.drop_last().push(bs.last()) =~= bs);
    }
}

/// Runs of alphanumeric bytes hold only alphanumeric bytes, and together
/// they are all the alphanumeric bytes.
proof fn lemma_tok_bytes_flatten(bs: Seq<u8>)
    ensures
        flatten_bytes(tok_bytes_state(bs).0) + (match tok_bytes_state(bs).1 {
            Some(t) => t,
            None => Seq::<u8>::empty(),
        }) == alnum_only(bs),
        forall|a: int, k: int|
            0 <= a < tok_bytes_state(bs).0.len() && 0 <= k < tok_bytes_state(bs).0[a].len() ==> spec_alnum_byte(
                #[trigger] tok_bytes_state(bs).0[a][k],
            ),
        tok_bytes_state(bs).1 matches Some(t) ==> forall|k: int| 0 <= k < t.len() ==> spec_alnum_byte(#[trigger] t[k]),
    decreases bs.len(),
{
    if bs.len() > 0 {
        let d = bs.drop_last();
        lemma_tok_bytes_flatten(d);
        let st = tok_bytes_state(d);
        let b = bs.last();
        match st.1 {
            Some(t) => {
                if spec_alnum_byte(b) {
                    assert(flatten_bytes(st.0) + t.push(b) =~= (flatten_bytes(st.0) + t).push(b));
                } else {
                    let f = st.0.push(t);
                    assert(f.drop_last() =~= st.0);
                    assert(flatten_bytes(f) + Seq::<u8>::empty() =~= flatten_bytes(st.0) + t);
                    assert forall|a: int, k: int| 0 <= a < f.len() && 0 <= k < f[a].len() implies spec_alnum_byte(
                        #[trigger] f[a][k],
                    ) by {
                        if a < st.0.len() {
                            assert(f[a] == st.0[a]);
                        }
                    }
                }
            },
            None => {
                if spec_alnum_byte(b) {
                    assert(flatten_bytes(st.0) + seq![b] =~= (flatten_bytes(st.0) + Seq::<u8>::empty()).push(b));
                }
            },
        }
    }
}

proof fn lemma_join_without_separators(ts: Seq<Seq<u8>>)
    requires
        forall|a: int, k: int| 0 <= a < ts.len() && 0 <= k < ts[a].len() ==> spec_alnum_byte(#[trigger] ts[a][k]),
    ensures
        alnum_only(spec_join(ts)) == flatten_bytes(ts),
    decreases ts.len(),
{
    if ts.len() > 0 {
        let d = ts.drop_last();
        assert forall|a: int, k: int| 0 <= a < d.len() && 0 <= k < d[a].len() implies spec_alnum_byte(
            #[trigger] d[a][k],
        ) by {
            assert(d[a] == ts[a]);
        }
        lemma_join_without_separators(d);
        let l = ts.last();
        assert forall|k: int| 0 <= k < l.len() implies spec_alnum_byte(#[trigger] l[k]) by {
            assert(ts[ts.len() - 1] == l);
            assert(spec_alnum_byte(ts[ts.len() - 1][k]));
        }
        lemma_alnum_only_all(l);
        if ts.len() == 1 {
            assert(flatten_bytes(ts) =~= Seq::<u8>::empty() + ts[0]);
        } else {
            lemma_alnum_only_concat(spec_join(d).push(SEP), l);
            assert(spec_join(d).push(SEP).drop_last() =~= spec_join(d));
            assert(!spec_alnum_byte(SEP));
            assert(alnum_only(spec_join(d).push(SEP)) == alnum_only(spec_join(d)));
        }
    }
}

/// The output token derived from a phrase is its dictionary key with the
/// separators left out, in upper case: `New York` has the key `new␞york`
/// and the output `NEWYORK`.
pub proof fn lemma_output_is_key_upper(s: Seq<char>)
    ensures
        spec_derive_output(s) == upper_bytes(alnum_only(spec_key(s))),
{
    let bs = spec_fold_bytes(s);
    lemma_derive_output_folded(s);
    lemma_key_of_folded(s);
    lemma_tok_bytes_flatten(bs);
    let st = tok_bytes_state(bs);
    let ts = tokens_of_bytes(bs);
    match st.1 {
        Some(t) => {
            assert(ts.drop_last() =~= st.0);
            assert forall|a: int, k: int| 0 <= a < ts.len() && 0 <= k < ts[a].len() implies spec_alnum_byte(
                #[trigger] ts[a][k],
            ) by {
                if a < st.0.len() {
                    assert(ts[a] == st.0[a]);
                }
            }
        },
        None => {
            assert(flatten_bytes(st.0) + Seq::<u8>::empty() =~= flatten_bytes(st.0));
        },
    }
    lemma_join_without_separators(ts);
}

// ─── Token order ────────────────────────────────────────────────────────

/// The folded units of a text: char indices never decrease, lie in the
/// text, and the bytes of one char are all alphanumeric or all not.
pub open spec fn units_ok(us: Seq<(u8, int)>, n: int) -> bool {
    &&& forall|p: int, q: int| 0 <= p < q < us.len() ==> (#[trigger] us[p]).1 <= (#[trigger] us[q]).1
    &&& forall|p: int, q: int|
        0 <= p < us.len() && 0 <= q < us.len() && (#[trigger] us[p]).1 == (#[trigger] us[q]).1
            ==> spec_alnum_byte(us[p].0) == spec_alnum_byte(us[q].0)
    &&& forall|p: int| 0 <= p < us.len() ==> 0 <= (#[trigger] us[p]).1 < n
}

/// Tokens lie in a text of `n` chars, each over a nonempty range of chars,
/// one after the other without sharing a char.
pub open spec fn tokens_ordered(ts: Seq<SpanV>, n: int) -> bool {
    &&& forall|a: int| 0 <= a < ts.len() ==> 0 <= (#[trigger] ts[a]).1 <= ts[a].2 < n
    &&& forall|a: int, b: int| 0 <= a < b < ts.len() ==> (#[trigger] ts[a]).2 < (#[trigger] ts[b]).1
}

proof fn lemma_fold_units_ok(s: Seq<char>)
    ensures
        units_ok(spec_fold_units(s), s.len() as int),
    decreases s.len(),
{
    if s.len() > 0 {
        let d = s.drop_last();
        lemma_fold_units_ok(d);
        let k = s.len() - 1;
        let a = spec_fold_units(d);
        let c = s.last();
        let bs = spec_fold_char(c);
        let blk = bs.map_values(|b: u8| (b, k));
        let us = spec_fold_units(s);
        assert(us == a + blk);
        if !spec_is_hyphen(c) && !spec_ascii_alnum(c) && spec_fold_latin(c) is Some {
            assert(forall|j: int| 0 <= j < bs.len() ==> 97 <= #[trigger] bs[j] <= 122);
        }
        assert forall|j: int| 0 <= j < bs.len() implies spec_alnum_byte(#[trigger] bs[j]) == spec_alnum_byte(
            bs[0],
        ) by {}
        assert forall|p: int| 0 <= p < us.len() implies 0 <= (#[trigger] us[p]).1 < s.len() by {
            if p >= a.len() {
                assert(us[p] == blk[p - a.len()]);
            } else {
                assert(us[p] == a[p]);
            }
        }
        assert forall|p: int, q: int| 0 <= p < q < us.len() implies (#[trigger] us[p]).1 <= (#[trigger] us[q]).1 by {
            if q >= a.len() {
                assert(us[q] == blk[q - a.len()]);
                if p < a.len() {
                    assert(us[p] == a[p]);
                } else {
                    assert(us[p] == blk[p - a.len()]);
                }
            } else {
                assert(us[p] == a[p] && us[q] == a[q]);
            }
        }
        assert forall|p: int, q: int|
            0 <= p < us.len() && 0 <= q < us.len() && (#[trigger] us[p]).1 == (#[trigger] us[q]).1 implies spec_alnum_byte(
            us[p].0,
        ) == spec_alnum_byte(us[q].0) by {
            if p < a.len() {
                assert(us[p] == a[p]);
            } else {
                assert(us[p] == blk[p - a.len()]);
            }
            if q < a.len() {
                assert(us[q] == a[q]);
            } else {
                assert(us[q] == blk[q - a.len()]);
            }
        }
    }
}

/// The tokenizer's state keeps its tokens in order; an open token ends at
/// the last unit read, and when none is open the finished ones end before
/// it.
proof fn lemma_tok_state_ordered(us: Seq<(u8, int)>, n: int)
    requires
        units_ok(us, n),
    ensures
        tokens_ordered(spec_tok_state(us).0, n),
        spec_tok_state(us).1 matches Some(t) ==> us.len() > 0 && 0 <= t.1 <= t.2 && t.2 == us.last().1
            && spec_alnum_byte(us.last().0) && forall|a: int|
            0 <= a < spec_tok_state(us).0.len() ==> (#[trigger] spec_tok_state(us).0[a]).2 < t.1,
        spec_tok_state(us).1 is None && us.len() > 0 && !spec_alnum_byte(us.last().0) ==> forall|a: int|
            0 <= a < spec_tok_state(us).0.len() ==> (#[trigger] spec_tok_state(us).0[a]).2 < us.last().1,
    decreases us.len(),
{
    if us.len() > 0 {
        let d = us.drop_last();
        assert(units_ok(d, n)) by {
            assert forall|p: int, q: int| 0 <= p < q < d.len() implies (#[trigger] d[p]).1 <= (#[trigger] d[q]).1 by {
                assert(d[p] == us[p] && d[q] == us[q]);
            }
            assert forall|p: int, q: int|
                0 <= p < d.len() && 0 <= q < d.len() && (#[trigger] d[p]).1 == (#[trigger] d[q]).1 implies spec_alnum_byte(
                d[p].0,
            ) == spec_alnum_byte(d[q].0) by {
                assert(d[p] == us[p] && d[q] == us[q]);
            }
            assert forall|p: int| 0 <= p < d.len() implies 0 <= (#[trigger] d[p]).1 < n by {
                assert(d[p] == us[p]);
            }
        }
        lemma_tok_state_ordered(d, n);
        let u = us.last();
        let prev = spec_tok_state(d);
        assert(0 <= us[us.len() - 1].1 < n);
        if d.len() > 0 {
            assert(us[d.len() - 1] == d.last());
            assert(d.last().1 <= u.1);
            assert(d.last().1 == u.1 ==> spec_alnum_byte(d.last().0) == spec_alnum_byte(u.0));
        }
        if spec_alnum_byte(u.0) {
            if prev.1 is None && d.len() > 0 {
                assert forall|a: int| 0 <= a < prev.0.len() implies (#[trigger] prev.0[a]).2 < u.1 by {}
            }
        } else {
            match prev.1 {
                Some(t) => {
                    let f = prev.0.push(t);
                    assert(t.2 < u.1);
                    assert forall|a: int, b: int| 0 <= a < b < f.len() implies (#[trigger] f[a]).2 < (#[trigger] f[b]).1 by {
                        if b == f.len() - 1 {
                            assert(f[b] == t);
                            assert(f[a] == prev.0[a]);
                        } else {
                            assert(f[a] == prev.0[a] && f[b] == prev.0[b]);
                        }
                    }
                    assert forall|a: int| 0 <= a < f.len() implies 0 <= (#[trigger] f[a]).1 <= f[a].2 < n by {
                        if a < prev.0.len() {
                            assert(f[a] == prev.0[a]);
                        }
                    }
                    assert forall|a: int| 0 <= a < f.len() implies (#[trigger] f[a]).2 < u.1 by {
                        if a < prev.0.len() {
                            assert(f[a] == prev.0[a]);
                        }
                    }
                },
                None => {},
            }
        }
    }
}

/// The tokens of a text lie in it, in order, never two on the same char.
pub proof fn lemma_tokens_ordered(s: Seq<char>)
    ensures
        tokens_ordered(spec_analyze(s), s.len() as int),
{
    let us = spec_fold_units(s);
    let n = s.len() as int;
    lemma_fold_units_ok(s);
    lemma_tok_state_ordered(us, n);
    let st = spec_tok_state(us);
    if let Some(t) = st.1 {
        let f = st.0.push(t);
        assert forall|a: int, b: int| 0 <= a < b < f.len() implies (#[trigger] f[a]).2 < (#[trigger] f[b]).1 by {
            if b == f.len() - 1 {
                assert(f[a] == st.0[a]);
            } else {
                assert(f[a] == st.0[a] && f[b] == st.0[b]);
            }
        }
        assert forall|a: int| 0 <= a < f.len() implies 0 <= (#[trigger] f[a]).1 <= f[a].2 < n by {
            if a < st.0.len() {
                assert(f[a] == st.0[a]);
            } else {
                assert(us[us.len() - 1].1 < n);
            }
        }
    }
}

// ─── A token on its own ─────────────────────────────────────────────────

/// Units with their char indices moved by `d`.
pub open spec fn shift_units(us: Seq<(u8, int)>, d: int) -> Seq<(u8, int)> {
    us.map_values(|u: (u8, int)| (u.0, u.1 + d))
}

proof fn lemma_fold_units_concat(x: Seq<char>, y: Seq<char>)
    ensures
        spec_fold_units(x + y) == spec_fold_units(x) + shift_units(spec_fold_units(y), x.len() as int),
    decreases y.len(),
{
    if y.len() == 0 {
        assert(x + y =~= x);
        assert(shift_units(spec_fold_units(y), x.len() as int) =~= Seq::<(u8, int)>::empty());
        assert(spec_fold_units(x) + Seq::<(u8, int)>::empty() =~= spec_fold_units(x));
    } else {
        let y2 = y.drop_last();
        let c = y.last();
        assert((x + y).drop_last() =~= x + y2);
        assert((x + y).last() == c);
        lemma_fold_units_concat(x, y2);
        let k = y.len() - 1;
        let blk = spec_fold_char(c).map_values(|b: u8| (b, k));
        let blk2 = spec_fold_char(c).map_values(|b: u8| (b, x.len() + k));
        assert(spec_fold_units(y) == spec_fold_units(y2) + blk);
        assert(shift_units(spec_fold_units(y2) + blk, x.len() as int) =~= shift_units(spec_fold_units(y2), x.len() as int)
            + blk2);
        assert(spec_fold_units(x + y) == spec_fold_units(x + y2) + blk2);
        assert(spec_fold_units(x) + shift_units(spec_fold_units(y2), x.len() as int) + blk2 =~= spec_fold_units(x)
            + (shift_units(spec_fold_units(y2), x.len() as int) + blk2));
    }
}

/// The bytes of a stretch of units.
pub open spec fn unit_bytes(us: Seq<(u8, int)>) -> Seq<u8> {
    us.map_values(|u: (u8, int)| u.0)
}

/// `t` is the run of alphanumeric units `us[p..q]`, with nothing
/// alphanumeric just before it.
pub open spec fn run_at(us: Seq<(u8, int)>, p: int, q: int, t: SpanV) -> bool {
    &&& 0 <= p < q <= us.len()
    &&& forall|j: int| p <= j < q ==> spec_alnum_byte(#[trigger] us[j].0)
    &&& t.0 == unit_bytes(us.subrange(p, q))
    &&& t.1 == us[p].1
    &&& t.2 == us[q - 1].1
    &&& (p == 0 || !spec_alnum_byte(us[p - 1].0))
}

proof fn lemma_run_at_extend(us: Seq<(u8, int)>, v: (u8, int), p: int, q: int, t: SpanV)
    requires
        run_at(us, p, q, t),
    ensures
        run_at(us.push(v), p, q, t),
{
    let u2 = us.push(v);
    assert(u2.subrange(p, q) =~= us.subrange(p, q));
    assert forall|j: int| p <= j < q implies spec_alnum_byte(#[trigger] u2[j].0) by {
        assert(u2[j] == us[j]);
    }
    if p > 0 {
        assert(u2[p - 1] == us[p - 1]);
    }
    assert(u2[p] == us[p]);
    assert(u2[q - 1] == us[q - 1]);
}

/// The tokenizer's state as runs: every closed token is a maximal run of
/// alphanumeric units, and the open one is the run that ends the units.
proof fn lemma_tok_state_runs(us: Seq<(u8, int)>) -> (r: (Seq<(int, int)>, int))
    ensures
        r.0.len() == spec_tok_state(us).0.len(),
        forall|k: int|
            0 <= k < r.0.len() ==> run_at(us, (#[trigger] r.0[k]).0, r.0[k].1, spec_tok_state(us).0[k]) && r.0[k].1
                < us.len() && !spec_alnum_byte(us[r.0[k].1].0),
        spec_tok_state(us).1 matches Some(t) ==> run_at(us, r.1, us.len() as int, t),
        spec_tok_state(us).1 is None ==> us.len() == 0 || !spec_alnum_byte(us.last().0),
    decreases us.len(),
{
    if us.len() == 0 {
        (Seq::empty(), 0)
    } else {
        let pre = us.drop_last();
        let v = us.last();
        let prev = lemma_tok_state_runs(pre);
        let st = spec_tok_state(pre);
        assert(us == pre.push(v));
        assert forall|k: int| 0 <= k < prev.0.len() implies run_at(us, (#[trigger] prev.0[k]).0, prev.0[k].1, st.0[k])
            && prev.0[k].1 < us.len() && !spec_alnum_byte(us[prev.0[k].1].0) by {
            lemma_run_at_extend(pre, v, prev.0[k].0, prev.0[k].1, st.0[k]);
            assert(us[prev.0[k].1] == pre[prev.0[k].1]);
        }
        let n = us.len() as int;
        if spec_alnum_byte(v.0) {
            match st.1 {
                Some(t) => {
                    let p = prev.1;
                    let t2 = (t.0.push(v.0), t.1, v.1);
                    assert(run_at(us, p, n, t2)) by {
                        lemma_run_at_extend(pre, v, p, n - 1, t);
                        assert(us.subrange(p, n) =~= us.subrange(p, n - 1).push(v));
                        assert(unit_bytes(us.subrange(p, n)) =~= unit_bytes(us.subrange(p, n - 1)).push(v.0));
                        assert(us[p] == pre[p]);
                    }
                    (prev.0, p)
                },
                None => {
                    let t2 = (seq![v.0], v.1, v.1);
                    assert(run_at(us, n - 1, n, t2)) by {
                        assert(unit_bytes(us.subrange(n - 1, n)) =~= seq![v.0]);
                        if n - 1 > 0 {
                            assert(us[n - 2] == pre.last());
                        }
                    }
                    (prev.0, n - 1)
                },
            }
        } else {
            match st.1 {
                Some(t) => {
                    let r0 = prev.0.push((prev.1, n - 1));
                    assert forall|k: int| 0 <= k < r0.len() implies run_at(
                        us,
                        (#[trigger] r0[k]).0,
                        r0[k].1,
                        spec_tok_state(us).0[k],
                    ) && r0[k].1 < us.len() && !spec_alnum_byte(us[r0[k].1].0) by {
                        if k < prev.0.len() {
                            assert(r0[k] == prev.0[k]);
                            assert(spec_tok_state(us).0[k] == st.0[k]);
                        } else {
                            lemma_run_at_extend(pre, v, prev.1, n - 1, t);
                            assert(spec_tok_state(us).0[k] == t);
                        }
                    }
                    (r0, 0)
                },
                None => {
                    (prev.0, 0)
                },
            }
        }
    }
}

/// Units that are all alphanumeric make one token.
proof fn lemma_tokens_all_alnum(vs: Seq<(u8, int)>)
    requires
        vs.len() > 0,
        forall|j: int| 0 <= j < vs.len() ==> spec_alnum_byte(#[trigger] vs[j].0),
    ensures
        spec_tok_state(vs) == (Seq::<SpanV>::empty(), Some((unit_bytes(vs), vs[0].1, vs.last().1))),
        spec_tokens_of(vs) == seq![(unit_bytes(vs), vs[0].1, vs.last().1)],
    decreases vs.len(),
{
    if vs.len() > 1 {
        let pre = vs.drop_last();
        assert forall|j: int| 0 <= j < pre.len() implies spec_alnum_byte(#[trigger] pre[j].0) by {
            assert(pre[j] == vs[j]);
        }
        lemma_tokens_all_alnum(pre);
        assert(unit_bytes(vs) =~= unit_bytes(pre).push(vs.last().0));
        assert(vs.last() == vs[vs.len() - 1]);
        assert(pre[0] == vs[0]);
        assert(spec_alnum_byte(vs.last().0));
        assert(spec_tok_state(vs) == spec_tok_step(spec_tok_state(pre), vs.last()));
    } else {
        assert(vs.drop_last() =~= Seq::<(u8, int)>::empty());
        assert(spec_tok_state(vs.drop_last()) == (Seq::<SpanV>::empty(), None::<SpanV>));
        assert(unit_bytes(vs) =~= seq![vs[0].0]);
        assert(vs.last() == vs[0]);
        assert(spec_alnum_byte(vs.last().0));
        assert(spec_tok_state(vs) == spec_tok_step(spec_tok_state(vs.drop_last()), vs.last()));
    }
    assert(spec_alnum_byte(vs[vs.len() - 1].0));
}

/// No folded byte is an ASCII uppercase letter.
proof fn lemma_fold_units_no_upper(s: Seq<char>)
    ensures
        forall|j: int| 0 <= j < spec_fold_units(s).len() ==> !(65 <= #[trigger] spec_fold_units(s)[j].0 <= 90),
    decreases s.len(),
{
    if s.len() > 0 {
        let d = s.drop_last();
        lemma_fold_units_no_upper(d);
        let c = s.last();
        let k = s.len() - 1;
        let bs = spec_fold_char(c);
        let blk = bs.map_values(|b: u8| (b, k));
        let a = spec_fold_units(d);
        if !spec_is_hyphen(c) && !spec_ascii_alnum(c) && spec_fold_latin(c) is Some {
            assert(forall|j: int| 0 <= j < bs.len() ==> 97 <= #[trigger] bs[j] <= 122);
        }
        assert forall|j: int| 0 <= j < spec_fold_units(s).len() implies !(65 <= #[trigger] spec_fold_units(s)[j].0
            <= 90) by {
            if j < a.len() {
                assert(spec_fold_units(s)[j] == a[j]);
            } else {
                assert(spec_fold_units(s)[j] == blk[j - a.len()]);
            }
        }
    }
}

/// The units of the chars before `a` are the units at the front whose
/// char index is below `a`.
proof fn lemma_units_prefix(s: Seq<char>, a: int)
    requires
        0 <= a <= s.len(),
    ensures
        spec_fold_units(s.take(a)).len() <= spec_fold_units(s).len(),
        spec_fold_units(s).take(spec_fold_units(s.take(a)).len() as int) == spec_fold_units(s.take(a)),
        forall|j: int|
            0 <= j < spec_fold_units(s).len() ==> (j < spec_fold_units(s.take(a)).len() <==> (
            #[trigger] spec_fold_units(s)[j]).1 < a),
{
    let x = s.take(a);
    let y = s.skip(a);
    assert(x + y =~= s);
    lemma_fold_units_concat(x, y);
    lemma_fold_units_ok(x);
    lemma_fold_units_ok(y);
    let us = spec_fold_units(s);
    let ux = spec_fold_units(x);
    let uy = shift_units(spec_fold_units(y), a);
    let l = ux.len() as int;
    assert(us.take(l) =~= ux);
    assert forall|j: int| 0 <= j < us.len() implies (j < l <==> (#[trigger] us[j]).1 < a) by {
        if j < l {
            assert(us[j] == ux[j]);
        } else {
            assert(us[j] == uy[j - l]);
            assert(spec_fold_units(y)[j - l].1 >= 0);
        }
    }
}

/// Each token is a maximal run of alphanumeric units.
proof fn lemma_token_run(s: Seq<char>, k: int) -> (r: (int, int))
    requires
        0 <= k < spec_analyze(s).len(),
    ensures
        run_at(spec_fold_units(s), r.0, r.1, spec_analyze(s)[k]),
        r.1 == spec_fold_units(s).len() || !spec_alnum_byte(spec_fold_units(s)[r.1].0),
{
    let us = spec_fold_units(s);
    let st = spec_tok_state(us);
    let runs = lemma_tok_state_runs(us);
    let t = spec_analyze(s)[k];
    if k < st.0.len() {
        assert(t == st.0[k]);
        runs.0[k]
    } else {
        assert(st.1 is Some && t == st.1.unwrap());
        (runs.1, us.len() as int)
    }
}

/// A token tokenized on its own: the chars of any token of a text make,
/// by themselves, exactly one token, with the same bytes, over all of
/// them; and a token's bytes are ASCII lowercase letters and digits, at
/// least one.
pub proof fn lemma_token_alone(s: Seq<char>, k: int)
    requires
        0 <= k < spec_analyze(s).len(),
    ensures
        ({
            let t = spec_analyze(s)[k];
            &&& t.0.len() > 0
            &&& forall|j: int| 0 <= j < t.0.len() ==> (97 <= #[trigger] t.0[j] <= 122 || 48 <= t.0[j] <= 57)
            &&& 0 <= t.1 <= t.2 < s.len()
            &&& spec_analyze(s.subrange(t.1, t.2 + 1)) == seq![(t.0, 0int, t.2 - t.1)]
            &&& byte_offset(s.subrange(t.1, t.2 + 1), 0) == 0
            &&& byte_offset(s.subrange(t.1, t.2 + 1), t.2 - t.1 + 1) == byte_offset(s, t.2 + 1) - byte_offset(s, t.1)
        }),
{
    let us = spec_fold_units(s);
    let n = s.len() as int;
    let (p, q) = lemma_token_run(s, k);
    let t = spec_analyze(s)[k];
    lemma_fold_units_ok(s);
    lemma_fold_units_no_upper(s);
    let a = t.1;
    let b = t.2;
    assert(us[p].1 <= us[q - 1].1);
    assert(0 <= a <= b < n);
    lemma_units_prefix(s, a);
    lemma_units_prefix(s, b + 1);
    let ux = spec_fold_units(s.take(a));
    let ut = spec_fold_units(s.take(b + 1));
    let l1 = ux.len() as int;
    let l2 = ut.len() as int;
    if p > 0 {
        assert(us[p - 1].1 <= us[p].1);
        if us[p - 1].1 == a {
            assert(spec_alnum_byte(us[p - 1].0) == spec_alnum_byte(us[p].0));
        }
    }
    assert(p == l1);
    if q < us.len() {
        assert(us[q - 1].1 <= us[q].1);
        if us[q].1 == b {
            assert(spec_alnum_byte(us[q - 1].0) == spec_alnum_byte(us[q].0));
        }
    }
    assert(q == l2);
    let m = s.subrange(a, b + 1);
    assert(s.take(a) + m =~= s.take(b + 1));
    assert(m.take(0) =~= Seq::<char>::empty());
    assert(m.take(b - a + 1) =~= m);
    lemma_encode_utf8_concat(s.take(a), m);
    lemma_fold_units_concat(s.take(a), m);
    let um = spec_fold_units(m);
    let sm = shift_units(um, a);
    assert(ut == ux + sm);
    assert forall|j: int| 0 <= j < um.len() implies um[j].0 == #[trigger] us[p + j].0 && um[j].1 + a == us[p + j].1 by {
        assert(sm[j] == ut[l1 + j]);
        assert(ut[l1 + j] == us[l1 + j]);
    }
    assert(um.len() == q - p);
    assert forall|j: int| 0 <= j < um.len() implies spec_alnum_byte(#[trigger] um[j].0) by {
        assert(um[j].0 == us[p + j].0);
    }
    lemma_tokens_all_alnum(um);
    assert(unit_bytes(um) =~= unit_bytes(us.subrange(p, q))) by {
        assert forall|j: int| 0 <= j < um.len() implies #[trigger] unit_bytes(um)[j] == unit_bytes(
            us.subrange(p, q),
        )[j] by {
            assert(um[j].0 == us[p + j].0);
        }
    }
    assert(um[0].1 == 0) by {
        assert(0 < um.len());
        assert(sm[0] == ut[l1 + 0]);
        assert(ut[l1 + 0] == us[l1 + 0]);
        assert(um[0].1 + a == us[p + 0].1);
        assert(us[p].1 == a);
    }
    assert(um.last().1 == b - a) by {
        assert(um[um.len() - 1].1 + a == us[p + (um.len() - 1)].1);
    }
    assert forall|j: int| 0 <= j < t.0.len() implies (97 <= #[trigger] t.0[j] <= 122 || 48 <= t.0[j] <= 57) by {
        assert(t.0[j] == us[p + j].0);
        assert(spec_alnum_byte(us[p + j].0));
    }
}

/// One folded byte with the char index and byte span of its source char.
#[derive(Clone, Copy)]
pub struct Folded {
    pub ch: u8,
    pub src_start: usize,
    pub src_end: usize,
    pub char_index: usize,
}

/// A token with its bytes, its byte span and its span of char indices
/// (`first` and `last` inclusive).
pub struct Span {
    pub bytes: Vec<u8>,
    pub start: usize,
    pub end: usize,
    pub first: usize,
    pub last: usize,
}

/// A token: folded lowercase ASCII bytes and the byte span of the input it
/// covers.
#[derive(Debug, Clone)]
pub struct Token {
    pub bytes: Vec<u8>,
    pub start: usize,
    pub end: usize,
}

/// Whether `c` is a hyphen or dash that the analyzer drops.
pub fn is_hyphen(c: char) -> (r: bool)
    ensures
        r == spec_is_hyphen(c),
{
    let u = c as u32;
    u == 0x2D || u == 0x2010 || u == 0x2011 || u == 0x2012 || u == 0x2013 || u == 0x2014
        || u == 0x2212
}

/// Whether `c` is an ASCII letter or digit.
pub fn is_ascii_alnum(c: char) -> (r: bool)
    ensures
        r == spec_ascii_alnum(c),
{
    ('a' <= c && c <= 'z') || ('A' <= c && c <= 'Z') || ('0' <= c && c <= '9')
}

/// Whether `b` is an ASCII letter or digit.
pub fn is_alnum_byte(b: u8) -> (r: bool)
    ensures
        r == spec_alnum_byte(b),
{
    (97 <= b && b <= 122) || (65 <= b && b <= 90) || (48 <= b && b <= 57)
}

/// The uppercase of an ASCII char (`char::to_ascii_uppercase` on ASCII).
pub fn upper_char(c: char) -> (r: char)
    ensures
        r == spec_upper_char(c),
{
    if 'a' <= c && c <= 'z' {
        ((c as u32) - 32) as u8 as char
    } else {
        c
    }
}

/// Folds one Latin letter to its lowercase ASCII bytes; `None` for chars
/// outside the fold table.
pub fn fold_latin(c: char) -> (r: Option<Vec<u8>>)
    ensures
        match r {
            Some(v) => spec_fold_latin(c) == Some(v@),
            None => spec_fold_latin(c) is None,
        },
{
    let u = c as u32;
    if (0xC0 <= u && u <= 0xC5) || (0xE0 <= u && u <= 0xE5) {
        Some(vec![97u8])
    } else if u == 0xC6 || u == 0xE6 {
        Some(vec![97u8, 101u8])
    } else if u == 0xC7 || u == 0xE7 {
        Some(vec![99u8])
    } else if (0xC8 <= u && u <= 0xCB) || (0xE8 <= u && u <= 0xEB) {
        Some(vec![101u8])
    } else if (0xCC <= u && u <= 0xCF) || (0xEC <= u && u <= 0xEF) {
        Some(vec![105u8])
    } else if u == 0xD0 || u == 0xF0 {
        Some(vec![100u8])
    } else if u == 0xD1 || u == 0xF1 {
        Some(vec![110u8])
    } else if (0xD2 <= u && u <= 0xD6) || u == 0xD8 || (0xF2 <= u && u <= 0xF6) || u == 0xF8 {
        Some(vec![111u8])
    } else if u == 0x152 || u == 0x153 {
        Some(vec![111u8, 101u8])
    } else if (0xD9 <= u && u <= 0xDC) || (0xF9 <= u && u <= 0xFC) {
        Some(vec![117u8])
    } else if u == 0xDD || u == 0xFD || u == 0xFF {
        Some(vec![121u8])
    } else if u == 0xDE || u == 0xFE {
        Some(vec![116u8, 104u8])
    } else if u == 0xDF {
        Some(vec![115u8, 115u8])
    } else {
        None
    }
}

/// The bytes that one input char contributes to the folded stream.
pub fn fold_char(c: char) -> (r: Vec<u8>)
    ensures
        r@ == spec_fold_char(c),
{
    if is_hyphen(c) {
        Vec::new()
    } else if is_ascii_alnum(c) {
        let b: u8 = if 'A' <= c && c <= 'Z' {
            ((c as u32) + 32) as u8
        } else {
            (c as u32) as u8
        };
        vec![b]
    } else {
        match fold_latin(c) {
            Some(v) => v,
            None => vec![32u8],
        }
    }
}

/// The abstract view of a token under construction.
pub open spec fn span_view(sp: &Span) -> SpanV {
    (sp.bytes@, sp.first as int, sp.last as int)
}

/// A span's byte offsets agree with its char indices in `s`.
pub open spec fn span_offsets_ok(sp: &Span, s: Seq<char>) -> bool {
    &&& sp.start == byte_offset(s, sp.first as int)
    &&& sp.end == byte_offset(s, sp.last as int + 1)
    &&& sp.first <= sp.last < s.len()
}

/// The folded stream's char indices are in range and never decrease.
pub proof fn lemma_fold_units_indices(s: Seq<char>)
    ensures
        forall|i: int|
            0 <= i < spec_fold_units(s).len() ==> 0 <= #[trigger] spec_fold_units(s)[i].1 < s.len(),
        forall|i: int, j: int|
            0 <= i <= j < spec_fold_units(s).len() ==> spec_fold_units(s)[i].1
                <= spec_fold_units(s)[j].1,
    decreases s.len(),
{
    if s.len() > 0 {
        let p = s.drop_last();
        lemma_fold_units_indices(p);
        let k = s.len() - 1;
        let a = spec_fold_units(p);
        let b = spec_fold_char(s.last()).map_values(|x: u8| (x, k));
        assert(spec_fold_units(s) == a + b);
        assert forall|i: int| 0 <= i < spec_fold_units(s).len() implies 0
            <= #[trigger] spec_fold_units(s)[i].1 < s.len() by {
            if i >= a.len() {
                assert(spec_fold_units(s)[i] == b[i - a.len()]);
            } else {
                assert(spec_fold_units(s)[i] == a[i]);
            }
        }
        assert forall|i: int, j: int| 0 <= i <= j < spec_fold_units(s).len() implies spec_fold_units(
            s,
        )[i].1 <= spec_fold_units(s)[j].1 by {
            if j >= a.len() {
                assert(spec_fold_units(s)[j] == b[j - a.len()]);
                if i >= a.len() {
                    assert(spec_fold_units(s)[i] == b[i - a.len()]);
                } else {
                    assert(spec_fold_units(s)[i] == a[i]);
                }
            } else {
                assert(spec_fold_units(s)[i] == a[i]);
                assert(spec_fold_units(s)[j] == a[j]);
            }
        }
    }
}

/// Folding a prefix one char longer appends that char's bytes.
proof fn lemma_fold_units_take(s: Seq<char>, k: int)
    requires
        0 <= k < s.len(),
    ensures
        spec_fold_units(s.take(k + 1)) == spec_fold_units(s.take(k)) + spec_fold_char(s[k]).map_values(
            |b: u8| (b, k),
        ),
{
    assert(s.take(k + 1).drop_last() =~= s.take(k));
}

/// The analyzer's folded stream of `text`, one entry per output byte, each
/// with the byte span and index of the input char it came from.
pub fn fold_text(text: &str) -> (r: Vec<Folded>)
    ensures
        r@.len() == spec_fold_units(text@).len(),
        forall|i: int|
            #![trigger r@[i]]
            0 <= i < r@.len() ==> {
                &&& r@[i].ch == spec_fold_units(text@)[i].0
                &&& r@[i].char_index == spec_fold_units(text@)[i].1
                &&& r@[i].src_start == byte_offset(text@, spec_fold_units(text@)[i].1)
                &&& r@[i].src_end == byte_offset(text@, spec_fold_units(text@)[i].1 + 1)
            },
{
    let chars = chars_of(text);
    let total = text.as_bytes().len();
    proof {
        assert(chars@.take(chars@.len() as int) =~= chars@);
    }
    let mut out: Vec<Folded> = Vec::new();
    let mut offset: usize = 0;
    for k in 0..chars.len()
        invariant
            chars@ == text@,
            total == byte_offset(text@, text@.len() as int),
            offset == byte_offset(text@, k as int),
            out@.len() == spec_fold_units(text@.take(k as int)).len(),
            forall|i: int|
                #![trigger out@[i]]
                0 <= i < out@.len() ==> {
                    &&& out@[i].ch == spec_fold_units(text@.take(k as int))[i].0
                    &&& out@[i].char_index == spec_fold_units(text@.take(k as int))[i].1
                    &&& out@[i].src_start == byte_offset(
                        text@,
                        spec_fold_units(text@.take(k as int))[i].1,
                    )
                    &&& out@[i].src_end == byte_offset(
                        text@,
                        spec_fold_units(text@.take(k as int))[i].1 + 1,
                    )
                },
    {
        let c = chars[k];
        let w = char_width(c);
        proof {
            lemma_byte_offset_step(text@, k as int);
            lemma_byte_offset_mono(text@, k + 1, text@.len() as int);
            lemma_fold_units_take(text@, k as int);
        }
        let end = offset + w;
        let bytes = fold_char(c);
        let ghost before = out@;
        let ghost units = spec_fold_units(text@.take(k as int));
        let ghost added = spec_fold_char(c).map_values(|b: u8| (b, k as int));
        for j in 0..bytes.len()
            invariant
                bytes@ == spec_fold_char(c),
                added == spec_fold_char(c).map_values(|b: u8| (b, k as int)),
                out@.len() == before.len() + j,
                before.len() == units.len(),
                forall|i: int| #![trigger out@[i]] 0 <= i < before.len() ==> out@[i] == before[i],
                forall|i: int|
                    #![trigger out@[i]]
                    before.len() <= i < out@.len() ==> {
                        &&& out@[i].ch == added[i - before.len()].0
                        &&& out@[i].char_index == k
                        &&& out@[i].src_start == offset
                        &&& out@[i].src_end == end
                    },
        {
            out.push(Folded { ch: bytes[j], src_start: offset, src_end: end, char_index: k });
        }
        proof {
            let nu = spec_fold_units(text@.take(k + 1));
            assert(nu == units + added);
            assert forall|i: int| #![trigger out@[i]] 0 <= i < out@.len() implies {
                &&& out@[i].ch == nu[i].0
                &&& out@[i].char_index == nu[i].1
                &&& out@[i].src_start == byte_offset(text@, nu[i].1)
                &&& out@[i].src_end == byte_offset(text@, nu[i].1 + 1)
            } by {
                if i >= before.len() {
                    assert(nu[i] == added[i - before.len()]);
                } else {
                    assert(nu[i] == units[i]);
                }
            }
        }
        offset = end;
    }
    proof {
        assert(text@.take(text@.len() as int) =~= text@);
    }
    out
}

/// The tokens of `text`, each with its folded bytes, its byte span and its
/// span of char indices.
pub fn tokenize_spans(text: &str) -> (r: Vec<Span>)
    ensures
        r@.len() == spec_analyze(text@).len(),
        forall|i: int|
            #![trigger r@[i]]
            0 <= i < r@.len() ==> span_view(&r@[i]) == spec_analyze(text@)[i] && span_offsets_ok(
                &r@[i],
                text@,
            ),
        forall|a: int, b: int|
            0 <= a < b < r@.len() ==> (#[trigger] r@[a]).last <= (#[trigger] r@[b]).first,
{
    let folded = fold_text(text);
    let ghost units = spec_fold_units(text@);
    proof {
        lemma_fold_units_indices(text@);
        assert(units.take(units.len() as int) =~= units);
    }
    let mut toks: Vec<Span> = Vec::new();
    let mut has_cur = false;
    let mut cur_bytes: Vec<u8> = Vec::new();
    let mut cur_first: usize = 0;
    let mut cur_last: usize = 0;
    let mut cur_start: usize = 0;
    let mut cur_end: usize = 0;
    for i in 0..folded.len()
        invariant
            units == spec_fold_units(text@),
            folded@.len() == units.len(),
            forall|q: int|
                #![trigger folded@[q]]
                0 <= q < folded@.len() ==> {
                    &&& folded@[q].ch == units[q].0
                    &&& folded@[q].char_index == units[q].1
                    &&& folded@[q].src_start == byte_offset(text@, units[q].1)
                    &&& folded@[q].src_end == byte_offset(text@, units[q].1 + 1)
                },
            forall|q: int| 0 <= q < units.len() ==> 0 <= #[trigger] units[q].1 < text@.len(),
            forall|p: int, q: int| 0 <= p <= q < units.len() ==> units[p].1 <= units[q].1,
            toks@.len() == spec_tok_state(units.take(i as int)).0.len(),
            forall|q: int|
                #![trigger toks@[q]]
                0 <= q < toks@.len() ==> span_view(&toks@[q]) == spec_tok_state(
                    units.take(i as int),
                ).0[q] && span_offsets_ok(&toks@[q], text@),
            has_cur <==> spec_tok_state(units.take(i as int)).1 is Some,
            has_cur ==> spec_tok_state(units.take(i as int)).1 == Some(
                (cur_bytes@, cur_first as int, cur_last as int),
            ),
            has_cur ==> cur_start == byte_offset(text@, cur_first as int) && cur_end == byte_offset(
                text@,
                cur_last as int + 1,
            ) && cur_first <= cur_last < text@.len(),
            has_cur && i > 0 ==> cur_last == units[i - 1].1,
            forall|a: int, b: int|
                0 <= a < b < toks@.len() ==> (#[trigger] toks@[a]).last <= (#[trigger] toks@[b]).first,
            toks@.len() > 0 ==> i > 0 && forall|a: int|
                0 <= a < toks@.len() ==> (#[trigger] toks@[a]).last <= units[i - 1].1,
            has_cur ==> i > 0 && cur_first <= cur_last && forall|a: int|
                0 <= a < toks@.len() ==> (#[trigger] toks@[a]).last <= cur_first,
    {
        let f = folded[i];
        proof {
            assert(units.take(i + 1).drop_last() =~= units.take(i as int));
            assert(units.take(i + 1).last() == units[i as int]);
        }
        if is_alnum_byte(f.ch) {
            if has_cur {
                cur_bytes.push(f.ch);
                cur_last = f.char_index;
                cur_end = f.src_end;
            } else {
                has_cur = true;
                cur_bytes = vec![f.ch];
                cur_first = f.char_index;
                cur_last = f.char_index;
                cur_start = f.src_start;
                cur_end = f.src_end;
            }
        } else if has_cur {
            let sp = Span {
                bytes: cur_bytes,
                start: cur_start,
                end: cur_end,
                first: cur_first,
                last: cur_last,
            };
            toks.push(sp);
            has_cur = false;
            cur_bytes = Vec::new();
        }
    }
    if has_cur {
        let sp = Span {
            bytes: cur_bytes,
            start: cur_start,
            end: cur_end,
            first: cur_first,
            last: cur_last,
        };
        toks.push(sp);
    }
    toks
}

/// Splits `text` into tokens: after dropping hyphens, folding Latin letters
/// to ASCII and lowercasing, a token is a maximal run of ASCII letters and
/// digits. Each token keeps the byte span of the input it covers.
pub fn tokenize(text: &str) -> (r: Vec<Token>)
    ensures
        r@.len() == spec_analyze(text@).len(),
        forall|i: int|
            #![trigger r@[i]]
            0 <= i < r@.len() ==> {
                &&& r@[i].bytes@ == spec_analyze(text@)[i].0
                &&& r@[i].start == byte_offset(text@, spec_analyze(text@)[i].1)
                &&& r@[i].end == byte_offset(text@, spec_analyze(text@)[i].2 + 1)
            },
{
    let spans = tokenize_spans(text);
    let mut out: Vec<Token> = Vec::new();
    for i in 0..spans.len()
        invariant
            spans@.len() == spec_analyze(text@).len(),
            forall|q: int|
                #![trigger spans@[q]]
                0 <= q < spans@.len() ==> span_view(&spans@[q]) == spec_analyze(text@)[q]
                    && span_offsets_ok(&spans@[q], text@),
            out@.len() == i,
            forall|q: int|
                #![trigger out@[q]]
                0 <= q < i ==> {
                    &&& out@[q].bytes@ == spec_analyze(text@)[q].0
                    &&& out@[q].start == byte_offset(text@, spec_analyze(text@)[q].1)
                    &&& out@[q].end == byte_offset(text@, spec_analyze(text@)[q].2 + 1)
                },
    {
        let sp = &spans[i];
        let bytes = copy_bytes(&sp.bytes);
        out.push(Token { bytes, start: sp.start, end: sp.end });
    }
    out
}

/// A copy of a byte vector.
pub fn copy_bytes(v: &Vec<u8>) -> (r: Vec<u8>)
    ensures
        r@ == v@,
{
    let mut r: Vec<u8> = Vec::new();
    for i in 0..v.len()
        invariant
            r@ == v@.take(i as int),
    {
        r.push(v[i]);
        assert(v@.take(i + 1) =~= v@.take(i as int).push(v@[i as int]));
    }
    assert(v@.take(v@.len() as int) =~= v@);
    r
}

/// The dictionary key of `s`: its folded tokens joined with `SEP` (0x1E).
pub fn normalize_key(s: &str) -> (r: Vec<u8>)
    ensures
        r@ == spec_key(s@),
{
    let toks = tokenize_spans(s);
    let ghost ts = spec_analyze(s@).map_values(|t: SpanV| t.0);
    let mut out: Vec<u8> = Vec::new();
    for i in 0..toks.len()
        invariant
            ts == spec_analyze(s@).map_values(|t: SpanV| t.0),
            toks@.len() == ts.len(),
            forall|q: int|
                #![trigger toks@[q]]
                0 <= q < toks@.len() ==> span_view(&toks@[q]) == spec_analyze(s@)[q],
            out@ == spec_join(ts.take(i as int)),
    {
        proof {
            assert(ts.take(i + 1).drop_last() =~= ts.take(i as int));
            assert(ts.take(i + 1).last() == toks@[i as int].bytes@);
        }
        if i > 0 {
            out.push(SEP);
        } else {
            assert(out@ =~= Seq::<u8>::empty());
        }
        let bs = &toks[i].bytes;
        let ghost before = out@;
        for j in 0..bs.len()
            invariant
                out@ == before + bs@.take(j as int),
        {
            out.push(bs[j]);
            assert(bs@.take(j + 1) =~= bs@.take(j as int).push(bs@[j as int]));
        }
        assert(bs@.take(bs@.len() as int) =~= bs@);
        proof {
            if i == 0 {
                assert(ts.take(1).len() == 1);
                assert(out@ =~= ts.take(1)[0]);
            }
        }
    }
    assert(ts.take(ts.len() as int) =~= ts);
    out
}

/// The canonical output token of a phrase: every ASCII letter or digit
/// uppercased, every folded Latin letter replaced by its uppercase ASCII
/// fold, everything else dropped (so "Zürich" gives "ZURICH").
pub fn derive_output(phrase: &str) -> (r: String)
    ensures
        r@ == spec_derive_output(phrase@),
{
    let chars = chars_of(phrase);
    let mut out = String::new();
    for k in 0..chars.len()
        invariant
            chars@ == phrase@,
            out@ == spec_derive_output(phrase@.take(k as int)),
    {
        let c = chars[k];
        proof {
            assert(phrase@.take(k + 1).drop_last() =~= phrase@.take(k as int));
        }
        if is_ascii_alnum(c) {
            push_char(&mut out, upper_char(c));
            assert(out@ =~= spec_derive_output(phrase@.take(k + 1)));
        } else {
            match fold_latin(c) {
                Some(bs) => {
                    let ghost before = out@;
                    let ghost mapped = spec_fold_latin(c)->0.map_values(
                        |b: u8| spec_upper_char(b as char),
                    );
                    for j in 0..bs.len()
                        invariant
                            bs@ == spec_fold_latin(c)->0,
                            mapped == bs@.map_values(|b: u8| spec_upper_char(b as char)),
                            out@ == before + mapped.take(j as int),
                    {
                        push_char(&mut out, upper_char(bs[j] as char));
                        assert(mapped.take(j + 1) =~= mapped.take(j as int).push(mapped[j as int]));
                    }
                    assert(mapped.take(bs@.len() as int) =~= mapped);
                    assert(out@ =~= spec_derive_output(phrase@.take(k + 1)));
                },
                None => {
                    assert(out@ =~= spec_derive_output(phrase@.take(k + 1)));
                },
            }
        }
    }
    assert(phrase@.take(phrase@.len() as int) =~= phrase@);
    out
}

} // verus!
