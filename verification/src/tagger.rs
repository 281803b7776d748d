//! The dictionary tagger: entries are analyzed into keys, keys are compiled
//! into a transducer, and tagging walks the transducer over the tokens of
//! a text, emitting the records of every key found.

use vstd::prelude::*;
use tantivy_fst::raw::Fst;
use tantivy_fst::raw::Node;
use crate::analyzer::SEP;
use crate::analyzer::Span;
use crate::analyzer::SpanV;
use crate::analyzer::derive_output;
use crate::analyzer::normalize_key;
use crate::analyzer::span_offsets_ok;
use crate::analyzer::span_view;
use crate::analyzer::spec_analyze;
use crate::analyzer::spec_derive_output;
use crate::analyzer::spec_join;
use crate::analyzer::spec_key;
use crate::analyzer::tokenize_spans;
use crate::fst::builder_entries;
use crate::fst::builder_insert;
use crate::fst::builder_into_inner;
use crate::fst::builder_memory;
use crate::fst::entries_map;
use crate::fst::fst_from_bytes;
use crate::fst::fst_image;
use crate::fst::fst_is_empty;
use crate::fst::fst_key_count;
use crate::fst::fst_len;
use crate::fst::fst_map;
use crate::fst::fst_root;
use crate::fst::fst_data;
use crate::fst::reached_from_root;
use crate::fst::written_by_builder;
use crate::fst::keys_increasing;
use crate::fst::node_final_output;
use crate::fst::node_is_final;
use crate::fst::node_suffixes;
use crate::fst::step;
use crate::order::insert_sorted;
use crate::order::lemma_lex_asymmetric;
use crate::order::lex_lt;
use crate::order::search_sorted;
use crate::order::strictly_sorted;
use crate::order::strictly_sorted_chars;
use crate::order::insert_sorted_chars;
use crate::text::byte_offset;
use crate::text::lemma_byte_offset_mono;
use crate::text::lemma_byte_offset_step;
use crate::text::lemma_encode_utf8_concat;
use crate::analyzer::lemma_tokens_ordered;
use crate::analyzer::tokens_ordered;
use vstd::utf8::encode_utf8;
use crate::text::chars_of;
use crate::text::string_from_range;
use crate::text::string_from_chars;

verus! {

/// One dictionary entry: the phrase, the kind it belongs to, an opaque
/// record id, and an optional canonical output token (derived from the
/// phrase when absent).
#[derive(Debug, Clone)]
pub struct Entry {
    pub phrase: String,
    pub kind: String,
    pub id: String,
    pub output: Option<String>,
}

impl Entry {
    /// An entry with no output override.
    pub fn new(phrase: &str, kind: &str, id: &str) -> (r: Entry)
        ensures
            r.phrase@ == phrase@,
            r.kind@ == kind@,
            r.id@ == id@,
            r.output is None,
    {
        Entry { phrase: phrase.to_owned(), kind: kind.to_owned(), id: id.to_owned(), output: None }
    }

    /// The same entry with `output` as its canonical output token.
    pub fn with_output(self, output: &str) -> (r: Entry)
        ensures
            r.phrase == self.phrase,
            r.kind == self.kind,
            r.id == self.id,
            r.output matches Some(o) && o@ == output@,
    {
        let mut e = self;
        e.output = Some(output.to_owned());
        e
    }
}

/// A tag emitted by the tagger.
#[derive(Debug, Clone, PartialEq, Eq)]
pub struct Tag {
    /// Byte offset of the first matched character in the input.
    pub start: usize,
    /// Byte offset one past the last matched character in the input.
    pub end: usize,
    /// The matched span, verbatim from the input.
    pub surface: String,
    /// The record id.
    pub id: String,
    /// The record kind.
    pub kind: String,
    /// The canonical output token of the record.
    pub output: String,
}

/// What to do when several dictionary phrases match at the same position.
#[derive(Debug, Clone, Copy, PartialEq, Eq, Structural)]
pub enum OverlapPolicy {
    /// Every match at every position.
    All,
    /// The longest match at a position; shorter matches inside it are
    /// skipped.
    LongestOnly,
}

/// A record stored under a key.
pub struct MetaRecord {
    pub kind: String,
    pub id: String,
    pub output: String,
}

/// A record as its kind, id and output.
pub type RecordV = (Seq<char>, Seq<char>, Seq<char>);

pub open spec fn record_view(r: MetaRecord) -> RecordV {
    (r.kind@, r.id@, r.output@)
}

pub open spec fn group_view(g: Vec<MetaRecord>) -> Seq<RecordV> {
    g@.map_values(|r: MetaRecord| record_view(r))
}

/// The output token an entry carries: its override, or the one derived
/// from its phrase.
pub open spec fn entry_output(e: Entry) -> Seq<char> {
    match e.output {
        Some(o) => o@,
        None => spec_derive_output(e.phrase@),
    }
}

/// The keyed records of a list of entries, in order; entries whose phrase
/// has no token are dropped.
pub open spec fn prepared(es: Seq<Entry>) -> Seq<(Seq<u8>, RecordV)>
    decreases es.len(),
{
    if es.len() == 0 {
        Seq::empty()
    } else {
        let e = es.last();
        let rest = prepared(es.drop_last());
        if spec_key(e.phrase@).len() == 0 {
            rest
        } else {
            rest.push((spec_key(e.phrase@), (e.kind@, e.id@, entry_output(e))))
        }
    }
}

/// Appends `r` unless an equal record is there already.
pub open spec fn dedup_push(g: Seq<RecordV>, r: RecordV) -> Seq<RecordV> {
    if g.contains(r) {
        g
    } else {
        g.push(r)
    }
}

/// The records stored under `key`: those of the keyed records with that
/// key, in order, with exact duplicates dropped.
pub open spec fn group_of(ps: Seq<(Seq<u8>, RecordV)>, key: Seq<u8>) -> Seq<RecordV>
    decreases ps.len(),
{
    if ps.len() == 0 {
        Seq::empty()
    } else {
        let g = group_of(ps.drop_last(), key);
        if ps.last().0 == key {
            dedup_push(g, ps.last().1)
        } else {
            g
        }
    }
}

/// Every key paired with its position.
pub open spec fn indexed(keys: Seq<Seq<u8>>) -> Seq<(Seq<u8>, u64)> {
    Seq::new(keys.len(), |i: int| (keys[i], i as u64))
}

/// Total number of records over all groups.
pub open spec fn total_len(gs: Seq<Seq<RecordV>>) -> nat
    decreases gs.len(),
{
    if gs.len() == 0 {
        0
    } else {
        total_len(gs.drop_last()) + gs.last().len()
    }
}

/// A compiled text tagger backed by a transducer.
pub struct Tagger {
    fst: Fst<Vec<u8>>,
    /// The records stored under each key; the transducer maps a key to its
    /// position here.
    groups: Vec<Vec<MetaRecord>>,
    /// The keys, in increasing order.
    keys: Ghost<Seq<Seq<u8>>>,
}

impl Tagger {
    #[verifier::type_invariant]
    spec fn inv(self) -> bool {
        &&& strictly_sorted(self.keys@)
        &&& written_by_builder(fst_data(self.fst))
        &&& fst_map(self.fst) == entries_map(indexed(self.keys@))
        &&& fst_key_count(self.fst) == self.keys@.len()
        &&& self.groups@.len() == self.keys@.len()
        &&& self.keys@.len() <= u64::MAX
        &&& total_len(self.groups_view()) <= usize::MAX
    }

    /// The keys of the dictionary, in increasing order.
    pub closed spec fn keys_view(self) -> Seq<Seq<u8>> {
        self.keys@
    }

    /// The records stored under each key.
    pub closed spec fn groups_view(self) -> Seq<Seq<RecordV>> {
        self.groups@.map_values(|g: Vec<MetaRecord>| group_view(g))
    }
}

/// Why a tagger could not be built.
#[derive(Debug)]
pub enum TaggerError {
    /// The transducer library refused to build or open the index.
    Index,
}

/// The keyed map of a strictly sorted key list: each key maps to its
/// position.
pub proof fn lemma_indexed_map(keys: Seq<Seq<u8>>)
    requires
        strictly_sorted(keys),
        keys.len() <= u64::MAX,
    ensures
        keys_increasing(indexed(keys)),
        forall|x: Seq<u8>| #[trigger] entries_map(indexed(keys)).dom().contains(x) <==> keys.contains(x),
        forall|i: int| 0 <= i < keys.len() ==> #[trigger] entries_map(indexed(keys))[keys[i]] == i,
{
    let es = indexed(keys);
    assert forall|i: int, j: int| 0 <= i < j < es.len() implies crate::order::lex_lt(
        #[trigger] es[i].0,
        #[trigger] es[j].0,
    ) by {
        assert(es[i].0 == keys[i] && es[j].0 == keys[j]);
    }
    assert forall|x: Seq<u8>| #[trigger] entries_map(es).dom().contains(x) <==> keys.contains(x) by {
        if keys.contains(x) {
            let i = choose|i: int| 0 <= i < keys.len() && keys[i] == x;
            assert(es[i].0 == x);
        }
        if entries_map(es).dom().contains(x) {
            let i = choose|i: int| 0 <= i < es.len() && es[i].0 == x;
            assert(keys[i] == x);
        }
    }
    assert forall|i: int| 0 <= i < keys.len() implies #[trigger] entries_map(es)[keys[i]] == i by {
        assert(es[i].0 == keys[i]);
        assert(entries_map(es).dom().contains(keys[i]));
        let q = choose|q: int| 0 <= q < es.len() && es[q].0 == keys[i];
        if q != i {
            if q < i {
                lemma_lex_asymmetric(keys[q], keys[i]);
            } else {
                lemma_lex_asymmetric(keys[i], keys[q]);
            }
        }
    }
}

/// Replacing one group changes the total by the difference in lengths.
proof fn lemma_total_len_update(gs: Seq<Seq<RecordV>>, k: int, g: Seq<RecordV>)
    requires
        0 <= k < gs.len(),
    ensures
        total_len(gs.update(k, g)) == total_len(gs) - gs[k].len() + g.len(),
    decreases gs.len(),
{
    let u = gs.update(k, g);
    if k == gs.len() - 1 {
        assert(u.drop_last() =~= gs.drop_last());
    } else {
        lemma_total_len_update(gs.drop_last(), k, g);
        assert(u.drop_last() =~= gs.drop_last().update(k, g));
    }
}

/// A run of empty groups has no records.
proof fn lemma_total_len_empty(gs: Seq<Seq<RecordV>>)
    requires
        forall|k: int| 0 <= k < gs.len() ==> (#[trigger] gs[k]).len() == 0,
    ensures
        total_len(gs) == 0,
    decreases gs.len(),
{
    if gs.len() > 0 {
        lemma_total_len_empty(gs.drop_last());
    }
}

/// Whether `g` holds a record equal to `r`.
fn group_contains(g: &Vec<MetaRecord>, r: &MetaRecord) -> (b: bool)
    ensures
        b == group_view(*g).contains(record_view(*r)),
{
    let ghost gv = group_view(*g);
    for i in 0..g.len()
        invariant
            gv == group_view(*g),
            forall|q: int| 0 <= q < i ==> gv[q] != record_view(*r),
    {
        if g[i].id == r.id && g[i].kind == r.kind && g[i].output == r.output {
            assert(gv[i as int] == record_view(*r));
            return true;
        }
    }
    false
}

impl Tagger {
    /// Builds a tagger from a list of entries. Each entry's phrase is
    /// analyzed into a key; entries whose phrase has no token are dropped.
    /// The keys are held in increasing order, and under each key the
    /// records of the entries with that key, in the order given, with
    /// exact duplicates (same kind, id and output) kept once. Building
    /// always succeeds.
    pub fn build(entries: Vec<Entry>) -> (r: Result<Tagger, TaggerError>)
        ensures
            r is Ok,
            r matches Ok(t) ==> {
                &&& strictly_sorted(t.keys_view())
                &&& t.keys_view().to_set() == prepared(entries@).map_values(
                    |p: (Seq<u8>, RecordV)| p.0,
                ).to_set()
                &&& t.groups_view().len() == t.keys_view().len()
                &&& forall|k: int|
                    0 <= k < t.keys_view().len() ==> #[trigger] t.groups_view()[k] == group_of(
                        prepared(entries@),
                        t.keys_view()[k],
                    )
            },
    {
        // Key and record of every entry whose phrase has a token.
        let mut pkeys: Vec<Vec<u8>> = Vec::new();
        let mut precs: Vec<MetaRecord> = Vec::new();
        for i in 0..entries.len()
            invariant
                pkeys@.len() == precs@.len(),
                pkeys@.len() == prepared(entries@.take(i as int)).len(),
                forall|q: int|
                    0 <= q < pkeys@.len() ==> (#[trigger] pkeys@[q])@ == prepared(
                        entries@.take(i as int),
                    )[q].0 && record_view(precs@[q]) == prepared(entries@.take(i as int))[q].1,
        {
            let e = &entries[i];
            proof {
                assert(entries@.take(i + 1).drop_last() =~= entries@.take(i as int));
                assert(entries@.take(i + 1).last() == entries@[i as int]);
            }
            let key = normalize_key(e.phrase.as_str());
            if key.len() > 0 {
                let output = match &e.output {
                    Some(o) => o.clone(),
                    None => derive_output(e.phrase.as_str()),
                };
                pkeys.push(key);
                precs.push(MetaRecord { kind: e.kind.clone(), id: e.id.clone(), output });
            }
        }
        let ghost ps = prepared(entries@);
        proof {
            assert(entries@.take(entries@.len() as int) =~= entries@);
        }
        // The distinct keys, in increasing order.
        let mut keys: Vec<Vec<u8>> = Vec::new();
        for i in 0..pkeys.len()
            invariant
                ps == prepared(entries@),
                pkeys@.len() == ps.len(),
                forall|q: int| 0 <= q < pkeys@.len() ==> (#[trigger] pkeys@[q])@ == ps[q].0,
                strictly_sorted(keys@.map_values(|x: Vec<u8>| x@)),
                keys@.map_values(|x: Vec<u8>| x@).to_set() == ps.take(i as int).map_values(
                    |p: (Seq<u8>, RecordV)| p.0,
                ).to_set(),
        {
            let k = crate::analyzer::copy_bytes(&pkeys[i]);
            insert_sorted(&mut keys, k);
            proof {
                let a = ps.take(i + 1).map_values(|p: (Seq<u8>, RecordV)| p.0);
                let b = ps.take(i as int).map_values(|p: (Seq<u8>, RecordV)| p.0);
                assert(a =~= b.push(ps[i as int].0));
                assert(a.to_set() =~= b.to_set().insert(ps[i as int].0)) by {
                    b.lemma_push_to_set_commute(ps[i as int].0);
                }
            }
        }
        let ghost kv = keys@.map_values(|x: Vec<u8>| x@);
        proof {
            assert(ps.take(ps.len() as int) =~= ps);
        }
        assert(keys@.len() <= u64::MAX);
        // The records under each key.
        let mut groups: Vec<Vec<MetaRecord>> = Vec::new();
        for k in 0..keys.len()
            invariant
                groups@.len() == k,
                forall|q: int| 0 <= q < k ==> (#[trigger] groups@[q])@.len() == 0,
        {
            groups.push(Vec::new());
        }
        proof {
            lemma_total_len_empty(groups@.map_values(|g: Vec<MetaRecord>| group_view(g)));
        }
        let mut precs = precs;
        let np = pkeys.len();
        let mut i: usize = 0;
        assert forall|q: int| 0 <= q < precs@.len() implies record_view(#[trigger] precs@[q])
            == ps[i + q].1 by {
            assert((pkeys@[q])@ == ps[q].0);
        }
        while precs.len() > 0
            invariant
                ps == prepared(entries@),
                kv == keys@.map_values(|x: Vec<u8>| x@),
                strictly_sorted(kv),
                kv.to_set() == ps.map_values(|p: (Seq<u8>, RecordV)| p.0).to_set(),
                pkeys@.len() == ps.len(),
                forall|q: int| 0 <= q < pkeys@.len() ==> (#[trigger] pkeys@[q])@ == ps[q].0,
                i + precs@.len() == ps.len(),
                np == pkeys@.len(),
                forall|q: int|
                    0 <= q < precs@.len() ==> record_view(#[trigger] precs@[q]) == ps[i + q].1,
                groups@.len() == keys@.len(),
                forall|q: int|
                    0 <= q < groups@.len() ==> group_view(#[trigger] groups@[q]) == group_of(
                        ps.take(i as int),
                        kv[q],
                    ),
                total_len(groups@.map_values(|g: Vec<MetaRecord>| group_view(g))) <= i,
            decreases precs@.len(),
        {
            let ghost before = precs@;
            let rec = precs.remove(0);
            proof {
                assert(record_view(rec) == ps[i as int].1);
                assert forall|q: int| 0 <= q < precs@.len() implies record_view(
                    #[trigger] precs@[q],
                ) == ps[i + 1 + q].1 by {
                    assert(precs@[q] == before[q + 1]);
                }
                assert(ps.take(i + 1).drop_last() =~= ps.take(i as int));
                assert(ps.take(i + 1).last() == ps[i as int]);
                assert(ps.map_values(|p: (Seq<u8>, RecordV)| p.0)[i as int] == ps[i as int].0);
                assert(ps.map_values(|p: (Seq<u8>, RecordV)| p.0).to_set().contains(ps[i as int].0));
            }
            let idx = match search_sorted(&keys, pkeys[i].as_slice()) {
                Ok(idx) => idx,
                Err(pos) => {
                    proof {
                        let x = ps[i as int].0;
                        assert(kv.to_set().contains(x));
                        let q = choose|q: int| 0 <= q < kv.len() && kv[q] == x;
                        assert(kv[q] == keys@[q]@);
                        crate::order::lemma_lex_irreflexive(x);
                        assert(false);
                    }
                    return Err(TaggerError::Index);
                },
            };
            let ghost gvs = groups@.map_values(|g: Vec<MetaRecord>| group_view(g));
            proof {
                assert(kv[idx as int] == keys@[idx as int]@);
            }
            if !group_contains(&groups[idx], &rec) {
                let ghost old_g = group_view(groups@[idx as int]);
                let mut g: Vec<MetaRecord> = Vec::new();
                std::mem::swap(&mut g, &mut groups[idx]);
                g.push(rec);
                groups.set(idx, g);
                proof {
                    assert(group_view(groups@[idx as int]) =~= old_g.push(ps[i as int].1));
                    assert(groups@.map_values(|g: Vec<MetaRecord>| group_view(g)) =~= gvs.update(
                        idx as int,
                        old_g.push(ps[i as int].1),
                    ));
                    lemma_total_len_update(gvs, idx as int, old_g.push(ps[i as int].1));
                }
            }
            proof {
                assert forall|q: int| 0 <= q < groups@.len() implies group_view(
                    #[trigger] groups@[q],
                ) == group_of(ps.take(i + 1), kv[q]) by {
                    if q != idx {
                        if kv[q] == kv[idx as int] {
                            if q < idx {
                                lemma_lex_asymmetric(kv[q], kv[idx as int]);
                            } else {
                                lemma_lex_asymmetric(kv[idx as int], kv[q]);
                            }
                        }
                    }
                }
            }
            assert(i < np);
            i = i + 1;
        }
        proof {
            assert(ps.take(i as int) =~= ps);
        }
        // The transducer: each key mapped to its position.
        let mut builder = builder_memory();
        for k in 0..keys.len()
            invariant
                kv == keys@.map_values(|x: Vec<u8>| x@),
                keys@.len() <= u64::MAX,
                builder_entries(builder) == indexed(kv).take(k as int),
                strictly_sorted(kv),
        {
            proof {
                assert forall|q: int| 0 <= q < builder_entries(builder).len() implies lex_lt(
                    #[trigger] builder_entries(builder)[q].0,
                    keys@[k as int]@,
                ) by {
                    assert(builder_entries(builder)[q] == indexed(kv)[q]);
                    assert(kv[k as int] == keys@[k as int]@);
                }
            }
            match builder_insert(&mut builder, keys[k].as_slice(), k as u64) {
                Ok(()) => {},
                Err(_) => {
                    proof {
                        assert(false);
                    }
                    return Err(TaggerError::Index);
                },
            }
            assert(indexed(kv).take(k + 1) =~= indexed(kv).take(k as int).push((kv[k as int], k as u64)));
        }
        proof {
            assert(indexed(kv).take(kv.len() as int) =~= indexed(kv));
            lemma_indexed_map(kv);
        }
        let bytes = match builder_into_inner(builder) {
            Ok(b) => b,
            Err(_) => {
                return Err(TaggerError::Index);
            },
        };
        proof {
            assert(keys_increasing(indexed(kv)));
            assert(fst_image(indexed(kv)) == bytes@);
            assert(written_by_builder(bytes@));
        }
        let ghost data = bytes@;
        let fst = match fst_from_bytes(bytes) {
            Ok(f) => f,
            Err(_) => {
                return Err(TaggerError::Index);
            },
        };
        assert(fst_data(fst) == data);
        Ok(Tagger { fst, groups, keys: Ghost(kv) })
    }
}

/// A tag as start, end, surface, id, kind and output.
pub type TagV = (int, int, Seq<char>, Seq<char>, Seq<char>, Seq<char>);

pub open spec fn tag_view(t: Tag) -> TagV {
    (t.start as int, t.end as int, t.surface@, t.id@, t.kind@, t.output@)
}

/// The key of the tokens `i..=j`: their bytes joined with `SEP`.
pub open spec fn span_key(toks: Seq<SpanV>, i: int, j: int) -> Seq<u8> {
    spec_join(toks.subrange(i, j + 1).map_values(|t: SpanV| t.0))
}

/// The ends `j` in `i..hi`, in increasing order, whose span `i..=j` is a
/// dictionary key.
pub open spec fn match_ends(keys: Seq<Seq<u8>>, toks: Seq<SpanV>, i: int, hi: int) -> Seq<int>
    decreases hi - i,
{
    if hi <= i {
        Seq::empty()
    } else {
        let e = match_ends(keys, toks, i, hi - 1);
        if keys.contains(span_key(toks, i, hi - 1)) {
            e.push(hi - 1)
        } else {
            e
        }
    }
}

/// The position of a key in the key list.
pub open spec fn key_index(keys: Seq<Seq<u8>>, k: Seq<u8>) -> int {
    choose|q: int| 0 <= q < keys.len() && keys[q] == k
}

/// The tags for the tokens `i..=j` of `s`: one per record stored under
/// their key, at their span.
pub open spec fn emit_span(
    keys: Seq<Seq<u8>>,
    groups: Seq<Seq<RecordV>>,
    s: Seq<char>,
    toks: Seq<SpanV>,
    i: int,
    j: int,
) -> Seq<TagV> {
    groups[key_index(keys, span_key(toks, i, j))].map_values(
        |r: RecordV|
            (
                byte_offset(s, toks[i].1) as int,
                byte_offset(s, toks[j].2 + 1) as int,
                s.subrange(toks[i].1, toks[j].2 + 1),
                r.1,
                r.0,
                r.2,
            ),
    )
}

/// The tags of every span starting at token `i` and ending at one of `ends`.
pub open spec fn emit_ends(
    keys: Seq<Seq<u8>>,
    groups: Seq<Seq<RecordV>>,
    s: Seq<char>,
    toks: Seq<SpanV>,
    i: int,
    ends: Seq<int>,
) -> Seq<TagV>
    decreases ends.len(),
{
    if ends.len() == 0 {
        Seq::empty()
    } else {
        emit_ends(keys, groups, s, toks, i, ends.drop_last()) + emit_span(
            keys,
            groups,
            s,
            toks,
            i,
            ends.last(),
        )
    }
}

/// Longest-match tagging from token `i` on: at each position the longest
/// key wins and tagging resumes after it; a position with no key moves on
/// by one token.
pub open spec fn tags_longest(
    keys: Seq<Seq<u8>>,
    groups: Seq<Seq<RecordV>>,
    s: Seq<char>,
    toks: Seq<SpanV>,
    i: int,
) -> Seq<TagV>
    decreases toks.len() - i,
{
    if i >= toks.len() || i < 0 {
        Seq::empty()
    } else {
        let e = match_ends(keys, toks, i, toks.len() as int);
        if e.len() > 0 && i <= e.last() < toks.len() {
            emit_span(keys, groups, s, toks, i, e.last()) + tags_longest(
                keys,
                groups,
                s,
                toks,
                e.last() + 1,
            )
        } else {
            tags_longest(keys, groups, s, toks, i + 1)
        }
    }
}

/// All-matches tagging from token `i` on: every key at every position,
/// shorter spans first.
pub open spec fn tags_all(
    keys: Seq<Seq<u8>>,
    groups: Seq<Seq<RecordV>>,
    s: Seq<char>,
    toks: Seq<SpanV>,
    i: int,
) -> Seq<TagV>
    decreases toks.len() - i,
{
    if i >= toks.len() || i < 0 {
        Seq::empty()
    } else {
        emit_ends(keys, groups, s, toks, i, match_ends(keys, toks, i, toks.len() as int))
            + tags_all(keys, groups, s, toks, i + 1)
    }
}

/// The tags of `s` under a dictionary with the given keys and groups.
pub open spec fn spec_tags(
    keys: Seq<Seq<u8>>,
    groups: Seq<Seq<RecordV>>,
    s: Seq<char>,
    policy: OverlapPolicy,
) -> Seq<TagV> {
    match policy {
        OverlapPolicy::All => tags_all(keys, groups, s, spec_analyze(s), 0),
        OverlapPolicy::LongestOnly => tags_longest(keys, groups, s, spec_analyze(s), 0),
    }
}

pub open spec fn is_prefix(a: Seq<u8>, b: Seq<u8>) -> bool {
    a.len() <= b.len() && b.take(a.len() as int) == a
}

/// A span key one token longer is the shorter key, `SEP`, and the token.
proof fn lemma_span_key_extend(toks: Seq<SpanV>, i: int, j: int)
    requires
        0 <= i <= j,
        j + 1 < toks.len(),
    ensures
        span_key(toks, i, j + 1) == span_key(toks, i, j).push(SEP) + toks[j + 1].0,
{
    let a = toks.subrange(i, j + 2).map_values(|t: SpanV| t.0);
    let b = toks.subrange(i, j + 1).map_values(|t: SpanV| t.0);
    assert(a.drop_last() =~= b);
    assert(a.last() == toks[j + 1].0);
}

/// The key of one token is its bytes.
proof fn lemma_span_key_single(toks: Seq<SpanV>, i: int)
    requires
        0 <= i < toks.len(),
    ensures
        span_key(toks, i, i) == toks[i].0,
{
    let a = toks.subrange(i, i + 1).map_values(|t: SpanV| t.0);
    assert(a.len() == 1);
    assert(a[0] == toks[i].0);
}

/// A span key is a prefix of the keys of every longer span from the same
/// token.
proof fn lemma_span_key_prefix(toks: Seq<SpanV>, i: int, j: int, j2: int)
    requires
        0 <= i <= j <= j2 < toks.len(),
    ensures
        is_prefix(span_key(toks, i, j), span_key(toks, i, j2)),
    decreases j2 - j,
{
    if j2 > j {
        lemma_span_key_prefix(toks, i, j, j2 - 1);
        lemma_span_key_extend(toks, i, j2 - 1);
        let a = span_key(toks, i, j);
        let b = span_key(toks, i, j2 - 1);
        let c = span_key(toks, i, j2);
        assert(c == b.push(SEP) + toks[j2].0);
        assert forall|k: int| 0 <= k < a.len() implies c[k] == a[k] by {
            assert(b.take(a.len() as int)[k] == a[k]);
            assert(c[k] == b[k]);
        }
        assert(c.take(a.len() as int) =~= a);
    } else {
        assert(span_key(toks, i, j).take(span_key(toks, i, j).len() as int) =~= span_key(toks, i, j));
    }
}

/// When nothing extends `d` to a key, no span from `i` whose key has `d`
/// as a prefix is a key.
proof fn lemma_dead_prefix(keys: Seq<Seq<u8>>, toks: Seq<SpanV>, i: int, j: int, d: Seq<u8>)
    requires
        0 <= i <= j < toks.len(),
        is_prefix(d, span_key(toks, i, j)),
        forall|s: Seq<u8>| #![trigger keys.contains(d + s)] !keys.contains(d + s),
    ensures
        forall|j2: int| j <= j2 < toks.len() ==> !keys.contains(#[trigger] span_key(toks, i, j2)),
{
    assert forall|j2: int| j <= j2 < toks.len() implies !keys.contains(
        #[trigger] span_key(toks, i, j2),
    ) by {
        lemma_span_key_prefix(toks, i, j, j2);
        let k = span_key(toks, i, j2);
        let rest = k.skip(d.len() as int);
        assert(d + rest =~= k);
        assert(!keys.contains(d + rest));
    }
}

/// Ends past a point where no span is a key add nothing.
proof fn lemma_match_ends_dead(keys: Seq<Seq<u8>>, toks: Seq<SpanV>, i: int, j: int, hi: int)
    requires
        i <= j <= hi,
        forall|j2: int| j <= j2 < hi ==> !keys.contains(#[trigger] span_key(toks, i, j2)),
    ensures
        match_ends(keys, toks, i, hi) == match_ends(keys, toks, i, j),
    decreases hi - j,
{
    if hi > j {
        lemma_match_ends_dead(keys, toks, i, j, hi - 1);
    }
}

/// The ends found are in `i..hi` and increasing.
proof fn lemma_match_ends_range(keys: Seq<Seq<u8>>, toks: Seq<SpanV>, i: int, hi: int)
    ensures
        forall|q: int|
            0 <= q < match_ends(keys, toks, i, hi).len() ==> i <= #[trigger] match_ends(
                keys,
                toks,
                i,
                hi,
            )[q] < hi,
    decreases hi - i,
{
    if hi > i {
        lemma_match_ends_range(keys, toks, i, hi - 1);
        let e = match_ends(keys, toks, i, hi - 1);
        assert forall|q: int|
            0 <= q < match_ends(keys, toks, i, hi).len() implies i <= #[trigger] match_ends(
            keys,
            toks,
            i,
            hi,
        )[q] < hi by {
            if q < e.len() {
                assert(match_ends(keys, toks, i, hi)[q] == e[q]);
            }
        }
    }
}

/// In a strictly sorted key list a key's position is the one it is at.
proof fn lemma_key_index(keys: Seq<Seq<u8>>, q: int)
    requires
        strictly_sorted(keys),
        0 <= q < keys.len(),
    ensures
        key_index(keys, keys[q]) == q,
{
    let p = key_index(keys, keys[q]);
    assert(0 <= p < keys.len() && keys[p] == keys[q]);
    if p < q {
        lemma_lex_asymmetric(keys[p], keys[q]);
    } else if q < p {
        lemma_lex_asymmetric(keys[q], keys[p]);
    }
}

impl Tagger {
    /// The ends `j`, in increasing order, of the spans from token `i`
    /// whose key is in the dictionary, each with the position of that key.
    /// The transducer is walked one byte at a time, with `SEP` between
    /// tokens, and the walk stops where no key continues.
    fn ends_from(&self, toks: &Vec<Span>, i: usize, Ghost(tv): Ghost<Seq<SpanV>>) -> (r: Vec<(usize, usize)>)
        requires
            i < toks@.len(),
            tv.len() == toks@.len(),
            forall|q: int| 0 <= q < toks@.len() ==> span_view(&#[trigger] toks@[q]) == tv[q],
        ensures
            r@.len() == match_ends(self.keys_view(), tv, i as int, tv.len() as int).len(),
            forall|q: int|
                0 <= q < r@.len() ==> (#[trigger] r@[q]).0 == match_ends(
                    self.keys_view(),
                    tv,
                    i as int,
                    tv.len() as int,
                )[q] && r@[q].1 < self.keys_view().len() && self.keys_view()[r@[q].1 as int]
                    == span_key(tv, i as int, r@[q].0 as int),
    {
        proof {
            use_type_invariant(self);
            lemma_indexed_map(self.keys@);
        }
        let ghost keys = self.keys@;
        let ghost m = fst_map(self.fst);
        let n = toks.len();
        let ng = self.groups.len();
        let mut found: Vec<(usize, usize)> = Vec::new();
        let mut node: Node = fst_root(&self.fst);
        let mut output: u64 = 0;
        let ghost mut p: Seq<u8> = Seq::empty();
        let mut j: usize = i;
        while j < n
            invariant
                written_by_builder(fst_data(self.fst)),
                reached_from_root(self.fst, node),
                i <= j <= n,
                n == toks@.len(),
                tv.len() == n,
                forall|q: int| 0 <= q < toks@.len() ==> span_view(&#[trigger] toks@[q]) == tv[q],
                keys == self.keys@,
                self.groups@.len() == keys.len(),
                ng == keys.len(),
                m == fst_map(self.fst),
                m == entries_map(indexed(keys)),
                strictly_sorted(keys),
                forall|x: Seq<u8>| #[trigger] m.dom().contains(x) <==> keys.contains(x),
                forall|q: int| 0 <= q < keys.len() ==> #[trigger] m[keys[q]] == q,
                j == i ==> p == Seq::<u8>::empty(),
                j > i ==> p == span_key(tv, i as int, j - 1),
                forall|x: Seq<u8>|
                    #![trigger node_suffixes(node).dom().contains(x)]
                    node_suffixes(node).dom().contains(x) <==> m.dom().contains(p + x),
                forall|x: Seq<u8>|
                    #![trigger node_suffixes(node)[x]]
                    node_suffixes(node).dom().contains(x) ==> output + node_suffixes(node)[x] == m[p
                        + x],
                found@.len() == match_ends(keys, tv, i as int, j as int).len(),
                forall|q: int|
                    0 <= q < found@.len() ==> (#[trigger] found@[q]).0 == match_ends(
                        keys,
                        tv,
                        i as int,
                        j as int,
                    )[q] && found@[q].1 < keys.len() && keys[found@[q].1 as int] == span_key(
                        tv,
                        i as int,
                        found@[q].0 as int,
                    ),
            decreases n - j,
        {
            let ghost pj = p;
            if j > i {
                proof {
                    assert forall|x: Seq<u8>|
                        #![trigger node_suffixes(node)[x]]
                        node_suffixes(node).dom().contains(x) implies output + node_suffixes(
                            node,
                        )[x] <= u64::MAX by {
                        assert(output + node_suffixes(node)[x] == m[p + x]);
                    }
                }
                match step(&self.fst, &node, SEP, output) {
                    Some((n2, o2)) => {
                        proof {
                            assert forall|x: Seq<u8>|
                                #![trigger node_suffixes(n2).dom().contains(x)]
                                node_suffixes(n2).dom().contains(x) <==> m.dom().contains(
                                    p.push(SEP) + x,
                                ) by {
                                assert(seq![SEP] + x =~= seq![SEP] + x);
                                assert(p + (seq![SEP] + x) =~= p.push(SEP) + x);
                                assert(node_suffixes(node).dom().contains(seq![SEP] + x)
                                    <==> m.dom().contains(p + (seq![SEP] + x)));
                            }
                            assert forall|x: Seq<u8>|
                                #![trigger node_suffixes(n2)[x]]
                                node_suffixes(n2).dom().contains(x) implies o2 + node_suffixes(
                                    n2,
                                )[x] == m[p.push(SEP) + x] by {
                                assert(p + (seq![SEP] + x) =~= p.push(SEP) + x);
                                assert(node_suffixes(node).dom().contains(seq![SEP] + x));
                                assert(output + node_suffixes(node)[seq![SEP] + x] == m[p + (
                                seq![SEP] + x)]);
                            }
                        }
                        node = n2;
                        output = o2;
                        proof {
                            p = p.push(SEP);
                        }
                    },
                    None => {
                        proof {
                            lemma_span_key_extend(tv, i as int, j - 1);
                            let d = p.push(SEP);
                            assert forall|x: Seq<u8>| #![trigger keys.contains(d + x)] !keys.contains(
                                d + x,
                            ) by {
                                assert(p + (seq![SEP] + x) =~= d + x);
                                assert(!node_suffixes(node).dom().contains(seq![SEP] + x));
                                assert(!m.dom().contains(d + x));
                            }
                            let k = span_key(tv, i as int, j as int);
                            assert(k.take(d.len() as int) =~= d);
                            lemma_dead_prefix(keys, tv, i as int, j as int, d);
                            lemma_match_ends_dead(keys, tv, i as int, j as int, n as int);
                        }
                        return found;
                    },
                }
            }
            let ghost p1 = p;
            let bs = &toks[j].bytes;
            proof {
                if j > i {
                    lemma_span_key_extend(tv, i as int, j - 1);
                } else {
                    lemma_span_key_single(tv, i as int);
                }
                assert(span_key(tv, i as int, j as int) == p1 + tv[j as int].0);
                assert(bs@ == tv[j as int].0);
            }
            let mut b: usize = 0;
            while b < bs.len()
                invariant
                    written_by_builder(fst_data(self.fst)),
                    reached_from_root(self.fst, node),
                    b <= bs@.len(),
                    p == p1 + bs@.take(b as int),
                    span_key(tv, i as int, j as int) == p1 + bs@,
                    i <= j < n,
                    n == toks@.len(),
                    tv.len() == n,
                    keys == self.keys@,
                    m == fst_map(self.fst),
                    strictly_sorted(keys),
                    forall|x: Seq<u8>| #[trigger] m.dom().contains(x) <==> keys.contains(x),
                    forall|q: int| 0 <= q < keys.len() ==> #[trigger] m[keys[q]] == q,
                    forall|x: Seq<u8>|
                        #![trigger node_suffixes(node).dom().contains(x)]
                        node_suffixes(node).dom().contains(x) <==> m.dom().contains(p + x),
                    forall|x: Seq<u8>|
                        #![trigger node_suffixes(node)[x]]
                        node_suffixes(node).dom().contains(x) ==> output + node_suffixes(node)[x]
                            == m[p + x],
                    found@.len() == match_ends(keys, tv, i as int, j as int).len(),
                    forall|q: int|
                        0 <= q < found@.len() ==> (#[trigger] found@[q]).0 == match_ends(
                            keys,
                            tv,
                            i as int,
                            j as int,
                        )[q] && found@[q].1 < keys.len() && keys[found@[q].1 as int] == span_key(
                            tv,
                            i as int,
                            found@[q].0 as int,
                        ),
                decreases bs@.len() - b,
            {
                let byte = bs[b];
                proof {
                    assert forall|x: Seq<u8>|
                        #![trigger node_suffixes(node)[x]]
                        node_suffixes(node).dom().contains(x) implies output + node_suffixes(
                            node,
                        )[x] <= u64::MAX by {
                        assert(output + node_suffixes(node)[x] == m[p + x]);
                    }
                    assert(bs@.take(b + 1) =~= bs@.take(b as int).push(byte));
                }
                match step(&self.fst, &node, byte, output) {
                    Some((n2, o2)) => {
                        proof {
                            assert forall|x: Seq<u8>|
                                #![trigger node_suffixes(n2).dom().contains(x)]
                                node_suffixes(n2).dom().contains(x) <==> m.dom().contains(
                                    p.push(byte) + x,
                                ) by {
                                assert(p + (seq![byte] + x) =~= p.push(byte) + x);
                                assert(node_suffixes(node).dom().contains(seq![byte] + x)
                                    <==> m.dom().contains(p + (seq![byte] + x)));
                            }
                            assert forall|x: Seq<u8>|
                                #![trigger node_suffixes(n2)[x]]
                                node_suffixes(n2).dom().contains(x) implies o2 + node_suffixes(
                                    n2,
                                )[x] == m[p.push(byte) + x] by {
                                assert(p + (seq![byte] + x) =~= p.push(byte) + x);
                                assert(node_suffixes(node).dom().contains(seq![byte] + x));
                                assert(output + node_suffixes(node)[seq![byte] + x] == m[p + (
                                seq![byte] + x)]);
                            }
                        }
                        node = n2;
                        output = o2;
                        proof {
                            p = p.push(byte);
                        }
                    },
                    None => {
                        proof {
                            let d = p.push(byte);
                            assert forall|x: Seq<u8>| #![trigger keys.contains(d + x)] !keys.contains(
                                d + x,
                            ) by {
                                assert(p + (seq![byte] + x) =~= d + x);
                                assert(!node_suffixes(node).dom().contains(seq![byte] + x));
                                assert(!m.dom().contains(d + x));
                            }
                            let k = span_key(tv, i as int, j as int);
                            assert(d =~= p1 + bs@.take(b + 1));
                            assert(k.take(d.len() as int) =~= d);
                            lemma_dead_prefix(keys, tv, i as int, j as int, d);
                            lemma_match_ends_dead(keys, tv, i as int, j as int, n as int);
                        }
                        return found;
                    },
                }
                b = b + 1;
            }
            proof {
                assert(bs@.take(bs@.len() as int) =~= bs@);
                assert(p == span_key(tv, i as int, j as int));
                assert(p + Seq::<u8>::empty() =~= p);
            }
            if node_is_final(&node) {
                let fo = node_final_output(&node);
                let idx = output + fo;
                proof {
                    assert(node_suffixes(node).dom().contains(Seq::<u8>::empty()));
                    assert(m.dom().contains(p));
                    assert(keys.contains(p));
                    let q = choose|q: int| 0 <= q < keys.len() && keys[q] == p;
                    assert(m[keys[q]] == q);
                    assert(idx == q);
                    assert(q < ng);
                }
                found.push((j, idx as usize));
                assert(keys[idx as int] == span_key(tv, i as int, j as int));
                assert(found@[found@.len() - 1] == (j, idx as usize));
            }
            proof {
                let e = match_ends(keys, tv, i as int, j as int);
                assert(node_suffixes(node).dom().contains(Seq::<u8>::empty()) <==> keys.contains(
                    span_key(tv, i as int, j as int),
                ));
                assert(match_ends(keys, tv, i as int, j + 1) == if keys.contains(
                    span_key(tv, i as int, j as int),
                ) {
                    e.push(j as int)
                } else {
                    e
                });
                assert forall|q: int| 0 <= q < found@.len() implies (#[trigger] found@[q]).0
                    == match_ends(keys, tv, i as int, j + 1)[q] && found@[q].1 < keys.len()
                    && keys[found@[q].1 as int] == span_key(tv, i as int, found@[q].0 as int) by {
                    if q < e.len() {
                        assert(match_ends(keys, tv, i as int, j + 1)[q] == e[q]);
                    } else {
                        assert(q == e.len());
                        assert(found@[q].0 == j);
                    }
                }
            }
            j = j + 1;
        }
        found
    }

    /// Appends one tag per record stored under the key at `idx`, for the
    /// span of tokens `i..=j` of the text whose chars are `chars`.
    fn emit(
        &self,
        out: &mut Vec<Tag>,
        toks: &Vec<Span>,
        chars: &Vec<char>,
        i: usize,
        j: usize,
        idx: usize,
        Ghost(tv): Ghost<Seq<SpanV>>,
    )
        requires
            i <= j < toks@.len(),
            toks_ok(toks@, tv, chars@),
            idx < self.keys_view().len(),
            self.keys_view()[idx as int] == span_key(tv, i as int, j as int),
        ensures
            tags_view(final(out)@) == tags_view(old(out)@) + emit_span(
                self.keys_view(),
                self.groups_view(),
                chars@,
                tv,
                i as int,
                j as int,
            ),
    {
        proof {
            use_type_invariant(self);
            lemma_key_index(self.keys@, idx as int);
            reveal(toks_ok);
        }
        let ti = &toks[i];
        let tj = &toks[j];
        let start = ti.start;
        let end = tj.end;
        let nc = chars.len();
        proof {
            assert(span_view(&toks@[i as int]) == tv[i as int]);
            assert(span_view(&toks@[j as int]) == tv[j as int]);
            assert(span_offsets_ok(&toks@[i as int], chars@));
            assert(span_offsets_ok(&toks@[j as int], chars@));
            if i < j {
                assert(toks@[i as int].last <= toks@[j as int].first);
            }
        }
        let surface = string_from_range(chars.as_slice(), ti.first, tj.last + 1);
        let g = &self.groups[idx];
        let ghost gv = group_view(*g);
        let ghost before = tags_view(out@);
        let ghost all = emit_span(self.keys@, self.groups_view(), chars@, tv, i as int, j as int);
        assert(self.groups_view()[idx as int] == gv);
        for k in 0..g.len()
            invariant
                gv == group_view(*g),
                all.len() == gv.len(),
                all == gv.map_values(
                    |r: RecordV|
                        (
                            start as int,
                            end as int,
                            surface@,
                            r.1,
                            r.0,
                            r.2,
                        ),
                ),
                tags_view(out@) == before + all.take(k as int),
        {
            let r = &g[k];
            let t = Tag {
                start,
                end,
                surface: surface.clone(),
                id: r.id.clone(),
                kind: r.kind.clone(),
                output: r.output.clone(),
            };
            let ghost prev = out@;
            out.push(t);
            assert(tags_view(out@) =~= tags_view(prev).push(tag_view(t)));
            assert(all.take(k + 1) =~= all.take(k as int).push(all[k as int]));
        }
        assert(all.take(g@.len() as int) =~= all);
    }

    fn tag_longest(&self, text: &str) -> (r: Vec<Tag>)
        ensures
            tags_view(r@) == spec_tags(
                self.keys_view(),
                self.groups_view(),
                text@,
                OverlapPolicy::LongestOnly,
            ),
    {
        let chars = chars_of(text);
        let toks = tokenize_spans(text);
        let ghost tv = spec_analyze(text@);
        proof {
            reveal(toks_ok);
        }
        let ghost keys = self.keys_view();
        let ghost groups = self.groups_view();
        let mut out: Vec<Tag> = Vec::new();
        let mut skip_until: usize = 0;
        let n = toks.len();
        for i in 0..n
            invariant
                n == toks@.len(),
                chars@ == text@,
                tv == spec_analyze(text@),
                keys == self.keys_view(),
                groups == self.groups_view(),
                tv.len() == toks@.len(),
                toks_ok(toks@, tv, text@),
                skip_until <= n,
                tags_view(out@) + tags_longest(
                    keys,
                    groups,
                    text@,
                    tv,
                    if i < skip_until {
                        skip_until as int
                    } else {
                        i as int
                    },
                ) == tags_longest(keys, groups, text@, tv, 0),
        {
            if i >= skip_until {
            proof {
                reveal(toks_ok);
            }
            let ends = self.ends_from(&toks, i, Ghost(tv));
            let ghost e = match_ends(keys, tv, i as int, tv.len() as int);
            proof {
                lemma_match_ends_range(keys, tv, i as int, tv.len() as int);
            }
            if ends.len() > 0 {
                let (j, idx) = ends[ends.len() - 1];
                let ghost before = tags_view(out@);
                proof {
                    assert(e.last() == j);
                    assert(i <= j < n);
                }
                self.emit(&mut out, &toks, &chars, i, j, idx, Ghost(tv));
                proof {
                    let em = emit_span(keys, groups, text@, tv, i as int, j as int);
                    assert(tags_longest(keys, groups, text@, tv, i as int) == em + tags_longest(
                        keys,
                        groups,
                        text@,
                        tv,
                        j + 1,
                    ));
                    assert(before + em + tags_longest(keys, groups, text@, tv, j + 1) =~= before + (em
                        + tags_longest(keys, groups, text@, tv, j + 1)));
                }
                skip_until = j + 1;
            } else {
                assert(tags_longest(keys, groups, text@, tv, i as int) == tags_longest(
                    keys,
                    groups,
                    text@,
                    tv,
                    i + 1,
                ));
            }
            }
        }
        proof {
            assert(tags_longest(keys, groups, text@, tv, n as int) == Seq::<TagV>::empty());
            assert(tags_view(out@) + Seq::<TagV>::empty() =~= tags_view(out@));
        }
        out
    }

    fn tag_all(&self, text: &str) -> (r: Vec<Tag>)
        ensures
            tags_view(r@) == spec_tags(self.keys_view(), self.groups_view(), text@, OverlapPolicy::All),
    {
        let chars = chars_of(text);
        let toks = tokenize_spans(text);
        let ghost tv = spec_analyze(text@);
        proof {
            reveal(toks_ok);
        }
        let ghost keys = self.keys_view();
        let ghost groups = self.groups_view();
        let mut out: Vec<Tag> = Vec::new();
        let n = toks.len();
        for i in 0..n
            invariant
                n == toks@.len(),
                chars@ == text@,
                tv == spec_analyze(text@),
                keys == self.keys_view(),
                groups == self.groups_view(),
                tv.len() == toks@.len(),
                toks_ok(toks@, tv, text@),
                tags_view(out@) + tags_all(keys, groups, text@, tv, i as int) == tags_all(
                    keys,
                    groups,
                    text@,
                    tv,
                    0,
                ),
        {
            proof {
                reveal(toks_ok);
            }
            let ends = self.ends_from(&toks, i, Ghost(tv));
            let ghost e = match_ends(keys, tv, i as int, tv.len() as int);
            proof {
                lemma_match_ends_range(keys, tv, i as int, tv.len() as int);
            }
            let ghost before = tags_view(out@);
            for q in 0..ends.len()
                invariant
                    n == toks@.len(),
                    i < n,
                    chars@ == text@,
                    keys == self.keys_view(),
                    groups == self.groups_view(),
                    tv.len() == toks@.len(),
                    toks_ok(toks@, tv, text@),
                    ends@.len() == e.len(),
                    forall|q: int| 0 <= q < e.len() ==> i <= #[trigger] e[q] < n,
                    forall|q: int|
                        0 <= q < ends@.len() ==> (#[trigger] ends@[q]).0 == e[q] && ends@[q].1
                            < keys.len() && keys[ends@[q].1 as int] == span_key(
                            tv,
                            i as int,
                            ends@[q].0 as int,
                        ),
                    tags_view(out@) == before + emit_ends(keys, groups, text@, tv, i as int, e.take(q as int)),
            {
                let (j, idx) = ends[q];
                proof {
                    assert(e[q as int] == j);
                }
                self.emit(&mut out, &toks, &chars, i, j, idx, Ghost(tv));
                proof {
                    assert(e.take(q + 1).drop_last() =~= e.take(q as int));
                    assert(e.take(q + 1).last() == j);
                }
            }
            proof {
                assert(e.take(e.len() as int) =~= e);
                let em = emit_ends(keys, groups, text@, tv, i as int, e);
                assert(tags_all(keys, groups, text@, tv, i as int) == em + tags_all(
                    keys,
                    groups,
                    text@,
                    tv,
                    i + 1,
                ));
                assert(before + em + tags_all(keys, groups, text@, tv, i + 1) =~= before + (em
                    + tags_all(keys, groups, text@, tv, i + 1)));
            }
        }
        proof {
            assert(tags_all(keys, groups, text@, tv, n as int) == Seq::<TagV>::empty());
            assert(tags_view(out@) + Seq::<TagV>::empty() =~= tags_view(out@));
        }
        out
    }

    /// Tags `text` with the default policy: the longest match per start
    /// position.
    pub fn tag(&self, text: &str) -> (r: Vec<Tag>)
        ensures
            tags_view(r@) == spec_tags(
                self.keys_view(),
                self.groups_view(),
                text@,
                OverlapPolicy::LongestOnly,
            ),
    {
        self.tag_longest(text)
    }

    /// Tags `text` with an explicit overlap policy. The text is analyzed
    /// into tokens; from each token, spans of consecutive tokens whose key
    /// is in the dictionary are found; each yields one tag per record
    /// stored under the key, with the span's byte offsets and its text.
    pub fn tag_with(&self, text: &str, policy: OverlapPolicy) -> (r: Vec<Tag>)
        ensures
            tags_view(r@) == spec_tags(self.keys_view(), self.groups_view(), text@, policy),
    {
        match policy {
            OverlapPolicy::All => self.tag_all(text),
            OverlapPolicy::LongestOnly => self.tag_longest(text),
        }
    }
}

// ─── What the tags promise ──────────────────────────────────────────────

/// A tag's offsets lie in the UTF-8 form of `s`, and its surface is exactly
/// the text between them.
pub open spec fn tag_in_text(s: Seq<char>, t: TagV) -> bool {
    &&& 0 <= t.0 <= t.1 <= encode_utf8(s).len()
    &&& encode_utf8(s).subrange(t.0, t.1) == encode_utf8(t.2)
}

proof fn lemma_span_bytes(s: Seq<char>, f: int, l: int)
    requires
        0 <= f <= l < s.len(),
    ensures
        tag_in_text(
            s,
            (byte_offset(s, f) as int, byte_offset(s, l + 1) as int, s.subrange(f, l + 1), Seq::empty(), Seq::empty(), Seq::empty()),
        ),
{
    let a = s.take(f);
    let m = s.subrange(f, l + 1);
    let z = s.skip(l + 1);
    assert(s.take(l + 1) =~= a + m);
    assert(s =~= (a + m) + z);
    lemma_encode_utf8_concat(a, m);
    lemma_encode_utf8_concat(a + m, z);
    let ea = encode_utf8(a);
    let em = encode_utf8(m);
    let ez = encode_utf8(z);
    assert(encode_utf8(s) == (ea + em) + ez);
    assert(encode_utf8(s).subrange(ea.len() as int, (ea.len() + em.len()) as int) =~= em);
}

proof fn lemma_emit_span_in_text(
    keys: Seq<Seq<u8>>,
    groups: Seq<Seq<RecordV>>,
    s: Seq<char>,
    toks: Seq<SpanV>,
    i: int,
    j: int,
)
    requires
        tokens_ordered(toks, s.len() as int),
        0 <= i <= j < toks.len(),
    ensures
        forall|q: int|
            0 <= q < emit_span(keys, groups, s, toks, i, j).len() ==> tag_in_text(
                s,
                #[trigger] emit_span(keys, groups, s, toks, i, j)[q],
            ),
        forall|q: int|
            0 <= q < emit_span(keys, groups, s, toks, i, j).len() ==> (#[trigger] emit_span(
                keys,
                groups,
                s,
                toks,
                i,
                j,
            )[q]).0 == byte_offset(s, toks[i].1) && emit_span(keys, groups, s, toks, i, j)[q].1 == byte_offset(
                s,
                toks[j].2 + 1,
            ),
{
    if i < j {
        assert(toks[i].2 < toks[j].1);
    }
    lemma_span_bytes(s, toks[i].1, toks[j].2);
}

proof fn lemma_emit_ends_in_text(
    keys: Seq<Seq<u8>>,
    groups: Seq<Seq<RecordV>>,
    s: Seq<char>,
    toks: Seq<SpanV>,
    i: int,
    ends: Seq<int>,
)
    requires
        tokens_ordered(toks, s.len() as int),
        0 <= i,
        forall|q: int| 0 <= q < ends.len() ==> i <= #[trigger] ends[q] < toks.len(),
    ensures
        forall|q: int|
            0 <= q < emit_ends(keys, groups, s, toks, i, ends).len() ==> tag_in_text(
                s,
                #[trigger] emit_ends(keys, groups, s, toks, i, ends)[q],
            ),
    decreases ends.len(),
{
    if ends.len() > 0 {
        let d = ends.drop_last();
        assert forall|q: int| 0 <= q < d.len() implies i <= #[trigger] d[q] < toks.len() by {
            assert(d[q] == ends[q]);
        }
        lemma_emit_ends_in_text(keys, groups, s, toks, i, d);
        assert(ends[ends.len() - 1] == ends.last());
        lemma_emit_span_in_text(keys, groups, s, toks, i, ends.last());
        let a = emit_ends(keys, groups, s, toks, i, d);
        let b = emit_span(keys, groups, s, toks, i, ends.last());
        assert forall|q: int| 0 <= q < (a + b).len() implies tag_in_text(s, #[trigger] (a + b)[q]) by {
            if q < a.len() {
                assert((a + b)[q] == a[q]);
            } else {
                assert((a + b)[q] == b[q - a.len()]);
            }
        }
    }
}

proof fn lemma_tags_all_in_text(
    keys: Seq<Seq<u8>>,
    groups: Seq<Seq<RecordV>>,
    s: Seq<char>,
    toks: Seq<SpanV>,
    i: int,
)
    requires
        tokens_ordered(toks, s.len() as int),
    ensures
        forall|q: int|
            0 <= q < tags_all(keys, groups, s, toks, i).len() ==> tag_in_text(
                s,
                #[trigger] tags_all(keys, groups, s, toks, i)[q],
            ),
    decreases toks.len() - i,
{
    if 0 <= i < toks.len() {
        let ends = match_ends(keys, toks, i, toks.len() as int);
        lemma_match_ends_range(keys, toks, i, toks.len() as int);
        lemma_emit_ends_in_text(keys, groups, s, toks, i, ends);
        lemma_tags_all_in_text(keys, groups, s, toks, i + 1);
        let a = emit_ends(keys, groups, s, toks, i, ends);
        let b = tags_all(keys, groups, s, toks, i + 1);
        assert forall|q: int| 0 <= q < (a + b).len() implies tag_in_text(s, #[trigger] (a + b)[q]) by {
            if q < a.len() {
                assert((a + b)[q] == a[q]);
            } else {
                assert((a + b)[q] == b[q - a.len()]);
            }
        }
    }
}

/// The tags of the longest-match walk from token `i`: each lies in the
/// text, none starts before token `i`, and any two either share their span
/// or the first ends before the second starts.
proof fn lemma_tags_longest_from(
    keys: Seq<Seq<u8>>,
    groups: Seq<Seq<RecordV>>,
    s: Seq<char>,
    toks: Seq<SpanV>,
    i: int,
)
    requires
        tokens_ordered(toks, s.len() as int),
        0 <= i,
    ensures
        forall|q: int|
            0 <= q < tags_longest(keys, groups, s, toks, i).len() ==> tag_in_text(
                s,
                #[trigger] tags_longest(keys, groups, s, toks, i)[q],
            ),
        i < toks.len() ==> forall|q: int|
            0 <= q < tags_longest(keys, groups, s, toks, i).len() ==> (#[trigger] tags_longest(
                keys,
                groups,
                s,
                toks,
                i,
            )[q]).0 >= byte_offset(s, toks[i].1),
        forall|a: int, b: int|
            0 <= a < b < tags_longest(keys, groups, s, toks, i).len() ==> ((#[trigger] tags_longest(
                keys,
                groups,
                s,
                toks,
                i,
            )[a]).0 == (#[trigger] tags_longest(keys, groups, s, toks, i)[b]).0 && tags_longest(
                keys,
                groups,
                s,
                toks,
                i,
            )[a].1 == tags_longest(keys, groups, s, toks, i)[b].1) || tags_longest(keys, groups, s, toks, i)[a].1
                <= tags_longest(keys, groups, s, toks, i)[b].0,
    decreases toks.len() - i,
{
    if i < toks.len() {
        let e = match_ends(keys, toks, i, toks.len() as int);
        let ts = tags_longest(keys, groups, s, toks, i);
        if e.len() > 0 && i <= e.last() < toks.len() {
            let j = e.last();
            lemma_emit_span_in_text(keys, groups, s, toks, i, j);
            lemma_tags_longest_from(keys, groups, s, toks, j + 1);
            let a = emit_span(keys, groups, s, toks, i, j);
            let r = tags_longest(keys, groups, s, toks, j + 1);
            assert(ts == a + r);
            let end = byte_offset(s, toks[j].2 + 1);
            if j + 1 < toks.len() {
                assert(toks[j].2 < toks[j + 1].1);
                lemma_byte_offset_mono(s, toks[j].2 + 1, toks[j + 1].1);
            }
            lemma_byte_offset_mono(s, toks[i].1, toks[j].2 + 1);
            assert forall|q: int| 0 <= q < ts.len() implies tag_in_text(s, #[trigger] ts[q]) by {
                if q < a.len() {
                    assert(ts[q] == a[q]);
                } else {
                    assert(ts[q] == r[q - a.len()]);
                }
            }
            assert forall|q: int| 0 <= q < ts.len() implies (#[trigger] ts[q]).0 >= byte_offset(s, toks[i].1) by {
                if q < a.len() {
                    assert(ts[q] == a[q]);
                } else {
                    assert(ts[q] == r[q - a.len()]);
                }
            }
            assert forall|x: int, y: int| 0 <= x < y < ts.len() implies ((#[trigger] ts[x]).0 == (
            #[trigger] ts[y]).0 && ts[x].1 == ts[y].1) || ts[x].1 <= ts[y].0 by {
                if y < a.len() {
                    assert(ts[x] == a[x] && ts[y] == a[y]);
                } else if x < a.len() {
                    assert(ts[x] == a[x] && ts[y] == r[y - a.len()]);
                } else {
                    assert(ts[x] == r[x - a.len()] && ts[y] == r[y - a.len()]);
                }
            }
        } else {
            lemma_tags_longest_from(keys, groups, s, toks, i + 1);
            let r = tags_longest(keys, groups, s, toks, i + 1);
            assert(ts == r);
            if i + 1 < toks.len() {
                assert(toks[i].2 < toks[i + 1].1);
                lemma_byte_offset_mono(s, toks[i].1, toks[i + 1].1);
            } else {
                assert(r.len() == 0);
            }
        }
    }
}

/// Every tag, under either policy, lies in the text, and its surface is
/// exactly the text between its start and end offsets.
pub proof fn lemma_tags_in_text(keys: Seq<Seq<u8>>, groups: Seq<Seq<RecordV>>, s: Seq<char>, policy: OverlapPolicy)
    ensures
        forall|q: int|
            0 <= q < spec_tags(keys, groups, s, policy).len() ==> tag_in_text(
                s,
                #[trigger] spec_tags(keys, groups, s, policy)[q],
            ),
{
    lemma_tokens_ordered(s);
    match policy {
        OverlapPolicy::All => lemma_tags_all_in_text(keys, groups, s, spec_analyze(s), 0),
        OverlapPolicy::LongestOnly => lemma_tags_longest_from(keys, groups, s, spec_analyze(s), 0),
    }
}

/// The longest match wins: of the tags that `tag` gives, any two either
/// share their span (two records stored under one key) or the first ends
/// before the second starts, so overlapping shorter matches never appear.
pub proof fn lemma_longest_tags_disjoint(keys: Seq<Seq<u8>>, groups: Seq<Seq<RecordV>>, s: Seq<char>)
    ensures
        forall|a: int, b: int|
            0 <= a < b < spec_tags(keys, groups, s, OverlapPolicy::LongestOnly).len() ==> ((#[trigger] spec_tags(
                keys,
                groups,
                s,
                OverlapPolicy::LongestOnly,
            )[a]).0 == (#[trigger] spec_tags(keys, groups, s, OverlapPolicy::LongestOnly)[b]).0 && spec_tags(
                keys,
                groups,
                s,
                OverlapPolicy::LongestOnly,
            )[a].1 == spec_tags(keys, groups, s, OverlapPolicy::LongestOnly)[b].1) || spec_tags(
                keys,
                groups,
                s,
                OverlapPolicy::LongestOnly,
            )[a].1 <= spec_tags(keys, groups, s, OverlapPolicy::LongestOnly)[b].0,
{
    lemma_tokens_ordered(s);
    lemma_tags_longest_from(keys, groups, s, spec_analyze(s), 0);
}

/// The record that a tag carries: its kind, id and output.
pub open spec fn tag_record(t: TagV) -> RecordV {
    (t.4, t.3, t.5)
}

/// The record `r` is stored under one of the keys.
pub open spec fn stored(keys: Seq<Seq<u8>>, groups: Seq<Seq<RecordV>>, r: RecordV) -> bool {
    exists|k: int| 0 <= k < keys.len() && #[trigger] groups[k].contains(r)
}

/// Each tag carries a record stored under one of the keys.
pub open spec fn tags_from_groups(keys: Seq<Seq<u8>>, groups: Seq<Seq<RecordV>>, ts: Seq<TagV>) -> bool {
    forall|q: int| 0 <= q < ts.len() ==> stored(keys, groups, tag_record(#[trigger] ts[q]))
}

proof fn lemma_match_ends_keys(keys: Seq<Seq<u8>>, toks: Seq<SpanV>, i: int, hi: int)
    ensures
        forall|q: int|
            0 <= q < match_ends(keys, toks, i, hi).len() ==> keys.contains(
                span_key(toks, i, #[trigger] match_ends(keys, toks, i, hi)[q]),
            ),
    decreases hi - i,
{
    if hi > i {
        lemma_match_ends_keys(keys, toks, i, hi - 1);
        let e = match_ends(keys, toks, i, hi - 1);
        assert forall|q: int| 0 <= q < match_ends(keys, toks, i, hi).len() implies keys.contains(
            span_key(toks, i, #[trigger] match_ends(keys, toks, i, hi)[q]),
        ) by {
            if q < e.len() {
                assert(match_ends(keys, toks, i, hi)[q] == e[q]);
            }
        }
    }
}

proof fn lemma_emit_span_from_groups(
    keys: Seq<Seq<u8>>,
    groups: Seq<Seq<RecordV>>,
    s: Seq<char>,
    toks: Seq<SpanV>,
    i: int,
    j: int,
)
    requires
        keys.contains(span_key(toks, i, j)),
    ensures
        tags_from_groups(keys, groups, emit_span(keys, groups, s, toks, i, j)),
{
    let k = key_index(keys, span_key(toks, i, j));
    let ts = emit_span(keys, groups, s, toks, i, j);
    assert forall|q: int| 0 <= q < ts.len() implies stored(keys, groups, tag_record(#[trigger] ts[q])) by {
        assert(tag_record(ts[q]) == groups[k][q]);
        assert(groups[k].contains(tag_record(ts[q])));
    }
}

proof fn lemma_from_groups_concat(keys: Seq<Seq<u8>>, groups: Seq<Seq<RecordV>>, a: Seq<TagV>, b: Seq<TagV>)
    requires
        tags_from_groups(keys, groups, a),
        tags_from_groups(keys, groups, b),
    ensures
        tags_from_groups(keys, groups, a + b),
{
    assert forall|q: int| 0 <= q < (a + b).len() implies stored(keys, groups, tag_record(#[trigger] (a + b)[q])) by {
        if q < a.len() {
            assert((a + b)[q] == a[q]);
        } else {
            assert((a + b)[q] == b[q - a.len()]);
        }
    }
}

proof fn lemma_emit_ends_from_groups(
    keys: Seq<Seq<u8>>,
    groups: Seq<Seq<RecordV>>,
    s: Seq<char>,
    toks: Seq<SpanV>,
    i: int,
    ends: Seq<int>,
)
    requires
        forall|q: int| 0 <= q < ends.len() ==> keys.contains(span_key(toks, i, #[trigger] ends[q])),
    ensures
        tags_from_groups(keys, groups, emit_ends(keys, groups, s, toks, i, ends)),
    decreases ends.len(),
{
    if ends.len() > 0 {
        let d = ends.drop_last();
        assert forall|q: int| 0 <= q < d.len() implies keys.contains(span_key(toks, i, #[trigger] d[q])) by {
            assert(d[q] == ends[q]);
        }
        lemma_emit_ends_from_groups(keys, groups, s, toks, i, d);
        assert(ends[ends.len() - 1] == ends.last());
        lemma_emit_span_from_groups(keys, groups, s, toks, i, ends.last());
        lemma_from_groups_concat(
            keys,
            groups,
            emit_ends(keys, groups, s, toks, i, d),
            emit_span(keys, groups, s, toks, i, ends.last()),
        );
    }
}

proof fn lemma_tags_all_from_groups(
    keys: Seq<Seq<u8>>,
    groups: Seq<Seq<RecordV>>,
    s: Seq<char>,
    toks: Seq<SpanV>,
    i: int,
)
    ensures
        tags_from_groups(keys, groups, tags_all(keys, groups, s, toks, i)),
    decreases toks.len() - i,
{
    if 0 <= i < toks.len() {
        let ends = match_ends(keys, toks, i, toks.len() as int);
        lemma_match_ends_keys(keys, toks, i, toks.len() as int);
        lemma_emit_ends_from_groups(keys, groups, s, toks, i, ends);
        lemma_tags_all_from_groups(keys, groups, s, toks, i + 1);
        lemma_from_groups_concat(
            keys,
            groups,
            emit_ends(keys, groups, s, toks, i, ends),
            tags_all(keys, groups, s, toks, i + 1),
        );
    }
}

proof fn lemma_tags_longest_from_groups(
    keys: Seq<Seq<u8>>,
    groups: Seq<Seq<RecordV>>,
    s: Seq<char>,
    toks: Seq<SpanV>,
    i: int,
)
    ensures
        tags_from_groups(keys, groups, tags_longest(keys, groups, s, toks, i)),
    decreases toks.len() - i,
{
    if 0 <= i < toks.len() {
        let e = match_ends(keys, toks, i, toks.len() as int);
        if e.len() > 0 && i <= e.last() < toks.len() {
            lemma_match_ends_keys(keys, toks, i, toks.len() as int);
            assert(e[e.len() - 1] == e.last());
            lemma_emit_span_from_groups(keys, groups, s, toks, i, e.last());
            lemma_tags_longest_from_groups(keys, groups, s, toks, e.last() + 1);
            lemma_from_groups_concat(
                keys,
                groups,
                emit_span(keys, groups, s, toks, i, e.last()),
                tags_longest(keys, groups, s, toks, e.last() + 1),
            );
        } else {
            lemma_tags_longest_from_groups(keys, groups, s, toks, i + 1);
        }
    }
}

/// The record of an entry: its kind, id and output.
pub open spec fn entry_record(e: Entry) -> RecordV {
    (e.kind@, e.id@, entry_output(e))
}

proof fn lemma_group_of_from(ps: Seq<(Seq<u8>, RecordV)>, key: Seq<u8>, r: RecordV)
    requires
        group_of(ps, key).contains(r),
    ensures
        exists|p: int| 0 <= p < ps.len() && #[trigger] ps[p] == (key, r),
    decreases ps.len(),
{
    if ps.len() > 0 {
        let g = group_of(ps.drop_last(), key);
        if g.contains(r) {
            lemma_group_of_from(ps.drop_last(), key, r);
            let p = choose|p: int| 0 <= p < ps.drop_last().len() && #[trigger] ps.drop_last()[p] == (key, r);
            assert(ps[p] == (key, r));
        } else {
            assert(ps[ps.len() - 1] == (key, r));
        }
    }
}

proof fn lemma_prepared_from(es: Seq<Entry>, p: int)
    requires
        0 <= p < prepared(es).len(),
    ensures
        exists|i: int|
            0 <= i < es.len() && prepared(es)[p] == (spec_key((#[trigger] es[i]).phrase@), entry_record(es[i])),
    decreases es.len(),
{
    let rest = prepared(es.drop_last());
    if p < rest.len() {
        lemma_prepared_from(es.drop_last(), p);
        let i = choose|i: int|
            0 <= i < es.drop_last().len() && rest[p] == (spec_key((#[trigger] es.drop_last()[i]).phrase@), entry_record(
                es.drop_last()[i],
            ));
        assert(es[i] == es.drop_last()[i]);
        assert(prepared(es)[p] == rest[p]);
    } else {
        assert(es[es.len() - 1] == es.last());
    }
}

/// What a tag gives back of a build: with the keys and groups that `build`
/// makes of `es`, every tag, under either policy, carries the kind, id and
/// output of an entry of `es` whose phrase's key is a dictionary key.
pub proof fn lemma_tags_from_entries(
    es: Seq<Entry>,
    keys: Seq<Seq<u8>>,
    groups: Seq<Seq<RecordV>>,
    s: Seq<char>,
    policy: OverlapPolicy,
)
    requires
        groups.len() == keys.len(),
        forall|k: int| 0 <= k < keys.len() ==> #[trigger] groups[k] == group_of(prepared(es), keys[k]),
    ensures
        forall|q: int|
            0 <= q < spec_tags(keys, groups, s, policy).len() ==> exists|i: int|
                0 <= i < es.len() && entry_record(#[trigger] es[i]) == tag_record(
                    #[trigger] spec_tags(keys, groups, s, policy)[q],
                ) && keys.contains(spec_key(es[i].phrase@)),
{
    let ts = spec_tags(keys, groups, s, policy);
    match policy {
        OverlapPolicy::All => lemma_tags_all_from_groups(keys, groups, s, spec_analyze(s), 0),
        OverlapPolicy::LongestOnly => lemma_tags_longest_from_groups(keys, groups, s, spec_analyze(s), 0),
    }
    assert forall|q: int| 0 <= q < ts.len() implies exists|i: int|
        0 <= i < es.len() && entry_record(#[trigger] es[i]) == tag_record(#[trigger] ts[q]) && keys.contains(
            spec_key(es[i].phrase@),
        ) by {
        assert(stored(keys, groups, tag_record(ts[q])));
        let k = choose|k: int| 0 <= k < keys.len() && #[trigger] groups[k].contains(tag_record(ts[q]));
        lemma_group_of_from(prepared(es), keys[k], tag_record(ts[q]));
        let p = choose|p: int| 0 <= p < prepared(es).len() && #[trigger] prepared(es)[p] == (keys[k], tag_record(ts[q]));
        lemma_prepared_from(es, p);
        let i = choose|i: int|
            0 <= i < es.len() && prepared(es)[p] == (spec_key((#[trigger] es[i]).phrase@), entry_record(es[i]));
        assert(keys[k] == spec_key(es[i].phrase@));
    }
}

/// Records stored under a key are never repeated: entries that agree in
/// key, kind, id and output collapse to one record.
pub proof fn lemma_group_no_duplicates(ps: Seq<(Seq<u8>, RecordV)>, key: Seq<u8>)
    ensures
        group_of(ps, key).no_duplicates(),
    decreases ps.len(),
{
    if ps.len() > 0 {
        lemma_group_no_duplicates(ps.drop_last(), key);
        let g = group_of(ps.drop_last(), key);
        if ps.last().0 == key && !g.contains(ps.last().1) {
            let h = g.push(ps.last().1);
            assert forall|a: int, b: int| 0 <= a < b < h.len() implies h[a] != h[b] by {
                if b == g.len() {
                    assert(h[a] == g[a]);
                } else {
                    assert(h[a] == g[a] && h[b] == g[b]);
                }
            }
        }
    }
}

/// Every record of an entry is stored under its key: the group of an
/// entry's key holds the entry's record.
pub proof fn lemma_group_holds_entry(ps: Seq<(Seq<u8>, RecordV)>, p: int)
    requires
        0 <= p < ps.len(),
    ensures
        group_of(ps, ps[p].0).contains(ps[p].1),
    decreases ps.len(),
{
    let g = group_of(ps.drop_last(), ps[p].0);
    if p < ps.len() - 1 {
        lemma_group_holds_entry(ps.drop_last(), p);
        assert(ps.drop_last()[p] == ps[p]);
        if ps.last().0 == ps[p].0 && !g.contains(ps.last().1) {
            let w = choose|w: int| 0 <= w < g.len() && g[w] == ps[p].1;
            assert(g.push(ps.last().1)[w] == ps[p].1);
        }
    } else {
        if !g.contains(ps[p].1) {
            assert(g.push(ps[p].1)[g.len() as int] == ps[p].1);
        }
    }
}

proof fn lemma_prepared_has(es: Seq<Entry>, i: int)
    requires
        0 <= i < es.len(),
        spec_key(es[i].phrase@).len() > 0,
    ensures
        exists|p: int|
            0 <= p < prepared(es).len() && #[trigger] prepared(es)[p] == (spec_key(es[i].phrase@), entry_record(es[i])),
    decreases es.len(),
{
    let rest = prepared(es.drop_last());
    if i < es.len() - 1 {
        lemma_prepared_has(es.drop_last(), i);
        assert(es.drop_last()[i] == es[i]);
        let p = choose|p: int|
            0 <= p < rest.len() && #[trigger] rest[p] == (spec_key(es.drop_last()[i].phrase@), entry_record(
                es.drop_last()[i],
            ));
        assert(prepared(es)[p] == rest[p]);
    } else {
        assert(es.last() == es[i]);
        assert(prepared(es)[rest.len() as int] == (spec_key(es[i].phrase@), entry_record(es[i])));
    }
}

proof fn lemma_match_ends_has(keys: Seq<Seq<u8>>, toks: Seq<SpanV>, i: int, j: int, hi: int)
    requires
        i <= j < hi,
        keys.contains(span_key(toks, i, j)),
    ensures
        match_ends(keys, toks, i, hi).contains(j),
    decreases hi - i,
{
    let e = match_ends(keys, toks, i, hi - 1);
    if j < hi - 1 {
        lemma_match_ends_has(keys, toks, i, j, hi - 1);
        let q = choose|q: int| 0 <= q < e.len() && e[q] == j;
        if keys.contains(span_key(toks, i, hi - 1)) {
            assert(e.push(hi - 1)[q] == j);
        }
    } else {
        assert(e.push(hi - 1)[e.len() as int] == j);
    }
}

proof fn lemma_emit_ends_has(
    keys: Seq<Seq<u8>>,
    groups: Seq<Seq<RecordV>>,
    s: Seq<char>,
    toks: Seq<SpanV>,
    i: int,
    ends: Seq<int>,
    j: int,
    t: TagV,
)
    requires
        ends.contains(j),
        emit_span(keys, groups, s, toks, i, j).contains(t),
    ensures
        emit_ends(keys, groups, s, toks, i, ends).contains(t),
    decreases ends.len(),
{
    let d = ends.drop_last();
    let a = emit_ends(keys, groups, s, toks, i, d);
    let b = emit_span(keys, groups, s, toks, i, ends.last());
    if ends.last() == j {
        let q = choose|q: int| 0 <= q < b.len() && b[q] == t;
        assert((a + b)[a.len() + q] == t);
    } else {
        let q = choose|q: int| 0 <= q < ends.len() && ends[q] == j;
        assert(q != ends.len() - 1);
        assert(d[q] == j);
        lemma_emit_ends_has(keys, groups, s, toks, i, d, j, t);
        let w = choose|w: int| 0 <= w < a.len() && a[w] == t;
        assert((a + b)[w] == t);
    }
}

proof fn lemma_tags_all_has(
    keys: Seq<Seq<u8>>,
    groups: Seq<Seq<RecordV>>,
    s: Seq<char>,
    toks: Seq<SpanV>,
    i0: int,
    i: int,
    t: TagV,
)
    requires
        0 <= i0 <= i < toks.len(),
        emit_ends(keys, groups, s, toks, i, match_ends(keys, toks, i, toks.len() as int)).contains(t),
    ensures
        tags_all(keys, groups, s, toks, i0).contains(t),
    decreases i - i0,
{
    let a = emit_ends(keys, groups, s, toks, i0, match_ends(keys, toks, i0, toks.len() as int));
    let b = tags_all(keys, groups, s, toks, i0 + 1);
    if i == i0 {
        let q = choose|q: int| 0 <= q < a.len() && a[q] == t;
        assert((a + b)[q] == t);
    } else {
        lemma_tags_all_has(keys, groups, s, toks, i0 + 1, i, t);
        let q = choose|q: int| 0 <= q < b.len() && b[q] == t;
        assert((a + b)[a.len() + q] == t);
    }
}

/// What a tag gives back of a build, the other way round: with the keys
/// and groups that `build` makes of `es`, wherever the tokens `i..=j` of
/// the text have the key of an entry's phrase, tagging with every match
/// reports that entry's kind, id and output at exactly that span.
pub proof fn lemma_all_tags_complete(
    es: Seq<Entry>,
    keys: Seq<Seq<u8>>,
    groups: Seq<Seq<RecordV>>,
    s: Seq<char>,
    e: int,
    i: int,
    j: int,
)
    requires
        groups.len() == keys.len(),
        keys.to_set() == prepared(es).map_values(|p: (Seq<u8>, RecordV)| p.0).to_set(),
        forall|k: int| 0 <= k < keys.len() ==> #[trigger] groups[k] == group_of(prepared(es), keys[k]),
        0 <= e < es.len(),
        spec_key(es[e].phrase@).len() > 0,
        0 <= i <= j < spec_analyze(s).len(),
        span_key(spec_analyze(s), i, j) == spec_key(es[e].phrase@),
    ensures
        spec_tags(keys, groups, s, OverlapPolicy::All).contains(
            (
                byte_offset(s, spec_analyze(s)[i].1) as int,
                byte_offset(s, spec_analyze(s)[j].2 + 1) as int,
                s.subrange(spec_analyze(s)[i].1, spec_analyze(s)[j].2 + 1),
                es[e].id@,
                es[e].kind@,
                entry_output(es[e]),
            ),
        ),
{
    let toks = spec_analyze(s);
    let key = spec_key(es[e].phrase@);
    let rec = entry_record(es[e]);
    let ps = prepared(es);
    lemma_prepared_has(es, e);
    let p = choose|p: int| 0 <= p < ps.len() && #[trigger] ps[p] == (key, rec);
    let pk = ps.map_values(|x: (Seq<u8>, RecordV)| x.0);
    assert(pk[p] == key);
    assert(pk.to_set().contains(key));
    assert(keys.to_set().contains(key));
    assert(keys.contains(key));
    let k = key_index(keys, key);
    assert(keys[k] == key);
    lemma_group_holds_entry(ps, p);
    assert(groups[k].contains(rec));
    let m = choose|m: int| 0 <= m < groups[k].len() && groups[k][m] == rec;
    let sp = emit_span(keys, groups, s, toks, i, j);
    let t = (
        byte_offset(s, toks[i].1) as int,
        byte_offset(s, toks[j].2 + 1) as int,
        s.subrange(toks[i].1, toks[j].2 + 1),
        es[e].id@,
        es[e].kind@,
        entry_output(es[e]),
    );
    assert(sp[m] == t);
    assert(sp.contains(t));
    lemma_match_ends_has(keys, toks, i, j, toks.len() as int);
    lemma_emit_ends_has(keys, groups, s, toks, i, match_ends(keys, toks, i, toks.len() as int), j, t);
    lemma_tags_all_has(keys, groups, s, toks, 0, i, t);
}

proof fn lemma_longest_within_all(
    keys: Seq<Seq<u8>>,
    groups: Seq<Seq<RecordV>>,
    s: Seq<char>,
    toks: Seq<SpanV>,
    i: int,
    t: TagV,
)
    requires
        0 <= i,
        tags_longest(keys, groups, s, toks, i).contains(t),
    ensures
        tags_all(keys, groups, s, toks, i).contains(t),
    decreases toks.len() - i,
{
    if i < toks.len() {
        let e = match_ends(keys, toks, i, toks.len() as int);
        if e.len() > 0 && i <= e.last() < toks.len() {
            let j = e.last();
            let a = emit_span(keys, groups, s, toks, i, j);
            let r = tags_longest(keys, groups, s, toks, j + 1);
            let q = choose|q: int| 0 <= q < (a + r).len() && (a + r)[q] == t;
            if q < a.len() {
                assert(a[q] == t);
                assert(e[e.len() - 1] == j);
                lemma_emit_ends_has(keys, groups, s, toks, i, e, j, t);
                lemma_tags_all_has(keys, groups, s, toks, i, i, t);
            } else {
                assert(r[q - a.len()] == t);
                lemma_longest_within_all(keys, groups, s, toks, j + 1, t);
                lemma_tags_all_suffix(keys, groups, s, toks, i, j + 1, t);
            }
        } else {
            lemma_longest_within_all(keys, groups, s, toks, i + 1, t);
            lemma_tags_all_suffix(keys, groups, s, toks, i, i + 1, t);
        }
    }
}

proof fn lemma_tags_all_suffix(
    keys: Seq<Seq<u8>>,
    groups: Seq<Seq<RecordV>>,
    s: Seq<char>,
    toks: Seq<SpanV>,
    i0: int,
    i: int,
    t: TagV,
)
    requires
        0 <= i0 <= i,
        tags_all(keys, groups, s, toks, i).contains(t),
    ensures
        tags_all(keys, groups, s, toks, i0).contains(t),
    decreases i - i0,
{
    if i0 < i {
        lemma_tags_all_suffix(keys, groups, s, toks, i0 + 1, i, t);
        if i0 < toks.len() {
            let a = emit_ends(keys, groups, s, toks, i0, match_ends(keys, toks, i0, toks.len() as int));
            let b = tags_all(keys, groups, s, toks, i0 + 1);
            let q = choose|q: int| 0 <= q < b.len() && b[q] == t;
            assert((a + b)[a.len() + q] == t);
        }
    }
}

/// Every tag of the longest-match policy is also a tag of the every-match
/// policy: choosing the longest only leaves matches out.
pub proof fn lemma_longest_tags_among_all(keys: Seq<Seq<u8>>, groups: Seq<Seq<RecordV>>, s: Seq<char>, t: TagV)
    requires
        spec_tags(keys, groups, s, OverlapPolicy::LongestOnly).contains(t),
    ensures
        spec_tags(keys, groups, s, OverlapPolicy::All).contains(t),
{
    lemma_longest_within_all(keys, groups, s, spec_analyze(s), 0, t);
}

// ─── Longest match against every match ──────────────────────────────────

proof fn lemma_byte_offset_strict(s: Seq<char>, x: int, y: int)
    requires
        0 <= x < y <= s.len(),
    ensures
        byte_offset(s, x) < byte_offset(s, y),
{
    lemma_byte_offset_step(s, x);
    lemma_byte_offset_mono(s, x + 1, y);
}

/// The tags of one span all sit at that span.
proof fn lemma_emit_span_at(
    keys: Seq<Seq<u8>>,
    groups: Seq<Seq<RecordV>>,
    s: Seq<char>,
    toks: Seq<SpanV>,
    i: int,
    j: int,
    t: TagV,
)
    requires
        emit_span(keys, groups, s, toks, i, j).contains(t),
    ensures
        t.0 == byte_offset(s, toks[i].1) as int,
        t.1 == byte_offset(s, toks[j].2 + 1) as int,
{
    let ts = emit_span(keys, groups, s, toks, i, j);
    let q = choose|q: int| 0 <= q < ts.len() && ts[q] == t;
    assert(ts[q] == t);
}

proof fn lemma_emit_ends_origin(
    keys: Seq<Seq<u8>>,
    groups: Seq<Seq<RecordV>>,
    s: Seq<char>,
    toks: Seq<SpanV>,
    i: int,
    ends: Seq<int>,
    t: TagV,
) -> (q: int)
    requires
        emit_ends(keys, groups, s, toks, i, ends).contains(t),
    ensures
        0 <= q < ends.len(),
        emit_span(keys, groups, s, toks, i, ends[q]).contains(t),
    decreases ends.len(),
{
    let a = emit_ends(keys, groups, s, toks, i, ends.drop_last());
    let b = emit_span(keys, groups, s, toks, i, ends.last());
    let ts = a + b;
    let p = choose|p: int| 0 <= p < ts.len() && ts[p] == t;
    if p < a.len() {
        assert(a[p] == t);
        let q = lemma_emit_ends_origin(keys, groups, s, toks, i, ends.drop_last(), t);
        assert(ends.drop_last()[q] == ends[q]);
        q
    } else {
        assert(b[p - a.len()] == t);
        ends.len() - 1
    }
}

/// Every tag of every-match tagging comes from a span whose key is in the
/// dictionary.
proof fn lemma_tags_all_origin(
    keys: Seq<Seq<u8>>,
    groups: Seq<Seq<RecordV>>,
    s: Seq<char>,
    toks: Seq<SpanV>,
    i: int,
    t: TagV,
) -> (r: (int, int))
    requires
        0 <= i,
        tags_all(keys, groups, s, toks, i).contains(t),
    ensures
        i <= r.0 < toks.len(),
        0 <= r.1 < match_ends(keys, toks, r.0, toks.len() as int).len(),
        emit_span(keys, groups, s, toks, r.0, match_ends(keys, toks, r.0, toks.len() as int)[r.1]).contains(t),
    decreases toks.len() - i,
{
    let ends = match_ends(keys, toks, i, toks.len() as int);
    let a = emit_ends(keys, groups, s, toks, i, ends);
    let b = tags_all(keys, groups, s, toks, i + 1);
    let ts = a + b;
    let p = choose|p: int| 0 <= p < ts.len() && ts[p] == t;
    if p < a.len() {
        assert(a[p] == t);
        let q = lemma_emit_ends_origin(keys, groups, s, toks, i, ends, t);
        (i, q)
    } else {
        assert(b[p - a.len()] == t);
        lemma_tags_all_origin(keys, groups, s, toks, i + 1, t)
    }
}

/// Every tag of longest-match tagging comes from the longest dictionary
/// span at its start.
proof fn lemma_tags_longest_origin(
    keys: Seq<Seq<u8>>,
    groups: Seq<Seq<RecordV>>,
    s: Seq<char>,
    toks: Seq<SpanV>,
    i: int,
    u: TagV,
) -> (r: int)
    requires
        0 <= i,
        tags_longest(keys, groups, s, toks, i).contains(u),
    ensures
        i <= r < toks.len(),
        match_ends(keys, toks, r, toks.len() as int).len() > 0,
        emit_span(keys, groups, s, toks, r, match_ends(keys, toks, r, toks.len() as int).last()).contains(u),
    decreases toks.len() - i,
{
    let e = match_ends(keys, toks, i, toks.len() as int);
    if e.len() > 0 && i <= e.last() < toks.len() {
        let j = e.last();
        let a = emit_span(keys, groups, s, toks, i, j);
        let b = tags_longest(keys, groups, s, toks, j + 1);
        let ts = a + b;
        let p = choose|p: int| 0 <= p < ts.len() && ts[p] == u;
        if p < a.len() {
            assert(a[p] == u);
            i
        } else {
            assert(b[p - a.len()] == u);
            lemma_tags_longest_origin(keys, groups, s, toks, j + 1, u)
        }
    } else {
        lemma_tags_longest_origin(keys, groups, s, toks, i + 1, u)
    }
}

proof fn lemma_match_ends_last(keys: Seq<Seq<u8>>, toks: Seq<SpanV>, i: int, hi: int)
    ensures
        forall|q: int|
            0 <= q < match_ends(keys, toks, i, hi).len() ==> #[trigger] match_ends(keys, toks, i, hi)[q] <= match_ends(
                keys,
                toks,
                i,
                hi,
            ).last(),
    decreases hi - i,
{
    if hi > i {
        lemma_match_ends_last(keys, toks, i, hi - 1);
        lemma_match_ends_range(keys, toks, i, hi - 1);
        let e = match_ends(keys, toks, i, hi - 1);
        let f = match_ends(keys, toks, i, hi);
        assert forall|q: int| 0 <= q < f.len() implies #[trigger] f[q] <= f.last() by {
            if f.len() > e.len() {
                if q < e.len() {
                    assert(f[q] == e[q]);
                }
            } else {
                assert(f == e);
            }
        }
    }
}

/// Longest-match tagging from `i0` covers every token `p >= i0` at which a
/// dictionary key starts.
proof fn lemma_longest_covers(
    keys: Seq<Seq<u8>>,
    groups: Seq<Seq<RecordV>>,
    s: Seq<char>,
    toks: Seq<SpanV>,
    i0: int,
    p: int,
)
    requires
        0 <= i0 <= p < toks.len(),
        match_ends(keys, toks, p, toks.len() as int).len() > 0,
        groups.len() == keys.len(),
        forall|k: int| 0 <= k < groups.len() ==> #[trigger] groups[k].len() > 0,
        tokens_ordered(toks, s.len() as int),
    ensures
        exists|u: TagV|
            #[trigger] tags_longest(keys, groups, s, toks, i0).contains(u) && u.0 <= byte_offset(s, toks[p].1)
                < u.1,
    decreases toks.len() - i0,
{
    let e = match_ends(keys, toks, i0, toks.len() as int);
    lemma_match_ends_range(keys, toks, i0, toks.len() as int);
    lemma_match_ends_keys(keys, toks, i0, toks.len() as int);
    if e.len() > 0 {
        let j = e.last();
        assert(e[e.len() - 1] == j);
        assert(i0 <= j < toks.len());
        let a = emit_span(keys, groups, s, toks, i0, j);
        let b = tags_longest(keys, groups, s, toks, j + 1);
        assert(tags_longest(keys, groups, s, toks, i0) == a + b);
        if p <= j {
            let k = key_index(keys, span_key(toks, i0, j));
            assert(keys.contains(span_key(toks, i0, j)));
            assert(0 <= k < keys.len());
            assert(groups[k].len() > 0);
            assert(a.len() > 0);
            let u = a[0];
            assert((a + b)[0] == u);
            assert(a.contains(u));
            lemma_emit_span_at(keys, groups, s, toks, i0, j, u);
            // token order: toks[i0].1 <= toks[p].1 <= toks[p].2 < toks[j].2 + 1
            if i0 < p {
                assert(toks[i0].2 < toks[p].1);
            }
            if p < j {
                assert(toks[p].2 < toks[j].1);
            }
            assert(toks[i0].1 <= toks[p].1);
            assert(toks[p].1 < toks[j].2 + 1);
            lemma_byte_offset_mono(s, toks[i0].1, toks[p].1);
            lemma_byte_offset_strict(s, toks[p].1, toks[j].2 + 1);
            assert(tags_longest(keys, groups, s, toks, i0).contains(u));
        } else {
            lemma_longest_covers(keys, groups, s, toks, j + 1, p);
            let u = choose|u: TagV|
                #[trigger] tags_longest(keys, groups, s, toks, j + 1).contains(u) && u.0 <= byte_offset(
                    s,
                    toks[p].1,
                ) < u.1;
            let q = choose|q: int| 0 <= q < b.len() && b[q] == u;
            assert((a + b)[a.len() + q] == u);
            assert(tags_longest(keys, groups, s, toks, i0).contains(u));
        }
    } else {
        assert(i0 != p);
        lemma_longest_covers(keys, groups, s, toks, i0 + 1, p);
        assert(tags_longest(keys, groups, s, toks, i0) == tags_longest(keys, groups, s, toks, i0 + 1));
        let u = choose|u: TagV|
            #[trigger] tags_longest(keys, groups, s, toks, i0 + 1).contains(u) && u.0 <= byte_offset(s, toks[p].1)
                < u.1;
        assert(tags_longest(keys, groups, s, toks, i0).contains(u));
    }
}

/// A built dictionary stores at least one record under every key, so the
/// laws on tagging that need it hold of every tagger `build` makes.
pub proof fn lemma_built_groups_nonempty(es: Seq<Entry>, keys: Seq<Seq<u8>>, groups: Seq<Seq<RecordV>>)
    requires
        groups.len() == keys.len(),
        keys.to_set() == prepared(es).map_values(|p: (Seq<u8>, RecordV)| p.0).to_set(),
        forall|k: int| 0 <= k < keys.len() ==> #[trigger] groups[k] == group_of(prepared(es), keys[k]),
    ensures
        forall|k: int| 0 <= k < groups.len() ==> #[trigger] groups[k].len() > 0,
{
    let ps = prepared(es);
    let ks = ps.map_values(|p: (Seq<u8>, RecordV)| p.0);
    assert forall|k: int| 0 <= k < groups.len() implies #[trigger] groups[k].len() > 0 by {
        assert(keys.to_set().contains(keys[k]));
        assert(ks.to_set().contains(keys[k]));
        let p = choose|p: int| 0 <= p < ks.len() && ks[p] == keys[k];
        assert(ps[p].0 == keys[k]);
        lemma_group_holds_entry(ps, p);
    }
}

/// Longest-match tagging misses nothing it could take: where every key of
/// the dictionary has a record, every span that every-match tagging
/// reports starts inside a span that longest-match tagging reports. So a
/// key that starts right after a longest match, or anywhere no longest
/// match covers, is tagged (in `Apache Lucene Zurich`, `Zurich` as well as
/// `Apache Lucene`).
pub proof fn lemma_longest_tags_cover(keys: Seq<Seq<u8>>, groups: Seq<Seq<RecordV>>, s: Seq<char>, t: TagV)
    requires
        groups.len() == keys.len(),
        forall|k: int| 0 <= k < groups.len() ==> #[trigger] groups[k].len() > 0,
        spec_tags(keys, groups, s, OverlapPolicy::All).contains(t),
    ensures
        exists|u: TagV| #[trigger] spec_tags(keys, groups, s, OverlapPolicy::LongestOnly).contains(u) && u.0 <= t.0 < u.1,
{
    let toks = spec_analyze(s);
    lemma_tokens_ordered(s);
    let r = lemma_tags_all_origin(keys, groups, s, toks, 0, t);
    let p = r.0;
    lemma_emit_span_at(keys, groups, s, toks, p, match_ends(keys, toks, p, toks.len() as int)[r.1], t);
    lemma_longest_covers(keys, groups, s, toks, 0, p);
    let u = choose|u: TagV|
        #[trigger] tags_longest(keys, groups, s, toks, 0).contains(u) && u.0 <= byte_offset(s, toks[p].1) < u.1;
    assert(spec_tags(keys, groups, s, OverlapPolicy::LongestOnly) == tags_longest(keys, groups, s, toks, 0));
    assert(spec_tags(keys, groups, s, OverlapPolicy::LongestOnly).contains(u));
}

/// The longest match wins at each start: no span that every-match tagging
/// reports starts where a longest-match tag starts and ends after it.
pub proof fn lemma_longest_tags_maximal(
    keys: Seq<Seq<u8>>,
    groups: Seq<Seq<RecordV>>,
    s: Seq<char>,
    u: TagV,
    t: TagV,
)
    requires
        spec_tags(keys, groups, s, OverlapPolicy::LongestOnly).contains(u),
        spec_tags(keys, groups, s, OverlapPolicy::All).contains(t),
        t.0 == u.0,
    ensures
        t.1 <= u.1,
{
    let toks = spec_analyze(s);
    lemma_tokens_ordered(s);
    let i = lemma_tags_longest_origin(keys, groups, s, toks, 0, u);
    let e = match_ends(keys, toks, i, toks.len() as int);
    let j = e.last();
    lemma_match_ends_range(keys, toks, i, toks.len() as int);
    assert(e[e.len() - 1] == j);
    lemma_emit_span_at(keys, groups, s, toks, i, j, u);
    let r = lemma_tags_all_origin(keys, groups, s, toks, 0, t);
    let p = r.0;
    let f = match_ends(keys, toks, p, toks.len() as int);
    let j2 = f[r.1];
    lemma_match_ends_range(keys, toks, p, toks.len() as int);
    lemma_emit_span_at(keys, groups, s, toks, p, j2, t);
    if p < i {
        assert(toks[p].1 <= toks[p].2 < toks[i].1);
        lemma_byte_offset_strict(s, toks[p].1, toks[i].1);
    } else if i < p {
        assert(toks[i].1 <= toks[i].2 < toks[p].1);
        lemma_byte_offset_strict(s, toks[i].1, toks[p].1);
    }
    assert(p == i);
    lemma_match_ends_last(keys, toks, i, toks.len() as int);
    assert(j2 <= j);
    if j2 < j {
        assert(toks[j2].2 < toks[j].1 <= toks[j].2);
    }
    lemma_byte_offset_mono(s, toks[j2].2 + 1, toks[j].2 + 1);
}

/// Every kind of every record, group after group.
pub open spec fn all_kinds(gs: Seq<Seq<RecordV>>) -> Seq<Seq<char>>
    decreases gs.len(),
{
    if gs.len() == 0 {
        Seq::empty()
    } else {
        all_kinds(gs.drop_last()) + gs.last().map_values(|r: RecordV| r.0)
    }
}

impl Tagger {
    /// The number of distinct keys.
    pub fn len(&self) -> (r: usize)
        ensures
            r == self.keys_view().len(),
    {
        proof {
            use_type_invariant(self);
        }
        fst_len(&self.fst)
    }

    /// Whether the dictionary has no key.
    pub fn is_empty(&self) -> (r: bool)
        ensures
            r == (self.keys_view().len() == 0),
    {
        proof {
            use_type_invariant(self);
        }
        fst_is_empty(&self.fst)
    }

    /// The number of records, synonyms stored under one key counted
    /// separately.
    pub fn record_count(&self) -> (r: usize)
        ensures
            r == total_len(self.groups_view()),
    {
        proof {
            use_type_invariant(self);
        }
        let ghost gv = self.groups_view();
        let mut total: usize = 0;
        for k in 0..self.groups.len()
            invariant
                gv == self.groups_view(),
                gv.len() == self.groups@.len(),
                total_len(gv) <= usize::MAX,
                total == total_len(gv.take(k as int)),
        {
            proof {
                assert(gv.take(k + 1).drop_last() =~= gv.take(k as int));
                lemma_total_len_prefix(gv, k + 1);
                assert(gv[k as int] == group_view(self.groups@[k as int]));
            }
            total = total + self.groups[k].len();
        }
        assert(gv.take(gv.len() as int) =~= gv);
        total
    }

    /// The distinct kinds of the records, in increasing order.
    pub fn kinds(&self) -> (r: Vec<String>)
        ensures
            strictly_sorted_chars(r@.map_values(|s: String| s@)),
            r@.map_values(|s: String| s@).to_set() == all_kinds(self.groups_view()).to_set(),
    {
        let ghost gv = self.groups_view();
        let mut ks: Vec<Vec<char>> = Vec::new();
        for k in 0..self.groups.len()
            invariant
                gv == self.groups_view(),
                gv.len() == self.groups@.len(),
                strictly_sorted_chars(ks@.map_values(|x: Vec<char>| x@)),
                ks@.map_values(|x: Vec<char>| x@).to_set() == all_kinds(gv.take(k as int)).to_set(),
        {
            let g = &self.groups[k];
            let ghost gk = group_view(*g);
            let ghost base = all_kinds(gv.take(k as int));
            proof {
                assert(gv[k as int] == gk);
                assert(gv.take(k + 1).drop_last() =~= gv.take(k as int));
            }
            for q in 0..g.len()
                invariant
                    gk == group_view(*g),
                    strictly_sorted_chars(ks@.map_values(|x: Vec<char>| x@)),
                    ks@.map_values(|x: Vec<char>| x@).to_set() == (base + gk.take(q as int).map_values(
                        |r: RecordV| r.0,
                    )).to_set(),
            {
                let kind = chars_of(g[q].kind.as_str());
                let ghost kv = kind@;
                insert_sorted_chars(&mut ks, kind);
                proof {
                    let a = base + gk.take(q as int).map_values(|r: RecordV| r.0);
                    let b = base + gk.take(q + 1).map_values(|r: RecordV| r.0);
                    assert(b =~= a.push(kv));
                    a.lemma_push_to_set_commute(kv);
                }
            }
            proof {
                assert(gk.take(gk.len() as int) =~= gk);
            }
        }
        proof {
            assert(gv.take(gv.len() as int) =~= gv);
        }
        let mut out: Vec<String> = Vec::new();
        for q in 0..ks.len()
            invariant
                out@.map_values(|s: String| s@) == ks@.map_values(|x: Vec<char>| x@).take(q as int),
        {
            let st = string_from_chars(ks[q].as_slice());
            let ghost prev = out@;
            out.push(st);
            proof {
                assert(st@ == ks@[q as int]@);
                assert(out@.map_values(|s: String| s@) =~= prev.map_values(|s: String| s@).push(
                    st@,
                ));
                assert(out@.map_values(|s: String| s@) =~= ks@.map_values(|x: Vec<char>| x@).take(
                    q + 1,
                ));
            }
        }
        proof {
            assert(ks@.map_values(|x: Vec<char>| x@).take(ks@.len() as int) =~= ks@.map_values(
                |x: Vec<char>| x@,
            ));
        }
        out
    }
}

/// The records of a prefix of the groups are no more than those of all.
proof fn lemma_total_len_prefix(gs: Seq<Seq<RecordV>>, k: int)
    requires
        0 <= k <= gs.len(),
    ensures
        total_len(gs.take(k)) <= total_len(gs),
    decreases gs.len(),
{
    if k < gs.len() {
        lemma_total_len_prefix(gs.drop_last(), k);
        assert(gs.drop_last().take(k) =~= gs.take(k));
    } else {
        assert(gs.take(k) =~= gs);
    }
}

/// The spans of a text's tokens, with their views, offsets and order.
#[verifier::opaque]
pub open spec fn toks_ok(toks: Seq<Span>, tv: Seq<SpanV>, s: Seq<char>) -> bool {
    &&& tv.len() == toks.len()
    &&& forall|q: int|
        0 <= q < toks.len() ==> span_view(&#[trigger] toks[q]) == tv[q] && span_offsets_ok(
            &toks[q],
            s,
        )
    &&& forall|a: int, b: int|
        0 <= a < b < toks.len() ==> (#[trigger] toks[a]).last <= (#[trigger] toks[b]).first
}

/// The views of a list of tags.
pub open spec fn tags_view(v: Seq<Tag>) -> Seq<TagV> {
    v.map_values(|t: Tag| tag_view(t))
}

} // verus!
