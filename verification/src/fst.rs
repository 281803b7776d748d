//! The finite-state transducer of the `tantivy-fst` crate, as the tagger
//! uses it: a map builder fed with strictly increasing keys, the compiled
//! transducer, and a walk over its nodes one byte at a time.
//!
//! Everything here is trusted: each item states what the crate's source
//! shows of the call it makes.

use vstd::prelude::*;
use tantivy_fst::raw::Fst;
use tantivy_fst::raw::Node;
use tantivy_fst::raw::Output;
use tantivy_fst::MapBuilder;
use crate::order::lex_lt;

verus! {

#[verifier::external_type_specification]
#[verifier::external_body]
#[verifier::reject_recursive_types(Data)]
pub struct ExFst<Data>(Fst<Data>);

#[verifier::external_type_specification]
#[verifier::external_body]
pub struct ExNode<'f>(Node<'f>);

#[verifier::external_type_specification]
#[verifier::external_body]
#[verifier::reject_recursive_types(W)]
pub struct ExMapBuilder<W>(MapBuilder<W>);

#[verifier::external_type_specification]
#[verifier::external_body]
pub struct ExFstError(tantivy_fst::Error);

/// The key-value pairs inserted into a map builder so far, in order.
pub uninterp spec fn builder_entries(b: MapBuilder<Vec<u8>>) -> Seq<(Seq<u8>, u64)>;

/// The bytes that a map builder writes for the given inserted pairs.
pub uninterp spec fn fst_image(entries: Seq<(Seq<u8>, u64)>) -> Seq<u8>;

/// The key-value map that a transducer holds.
pub uninterp spec fn fst_map(f: Fst<Vec<u8>>) -> Map<Seq<u8>, u64>;

/// The key count recorded in a transducer.
pub uninterp spec fn fst_key_count(f: Fst<Vec<u8>>) -> nat;

/// What a node of a transducer accepts: each byte string that leads from
/// the node to a final state, with the output gathered on the way
/// (transition outputs plus the final output).
pub uninterp spec fn node_suffixes(n: Node) -> Map<Seq<u8>, u64>;

/// The bytes a transducer reads (what `Fst::to_vec` copies out).
pub uninterp spec fn fst_data(f: Fst<Vec<u8>>) -> Seq<u8>;

/// Whether `n` is the root of `f` or a node that the transitions of `f`
/// lead to from the root.
pub uninterp spec fn reached_from_root(f: Fst<Vec<u8>>, n: Node) -> bool;

/// Bytes that a map builder wrote for pairs with strictly increasing keys:
/// every node address in them lies within them.
pub open spec fn written_by_builder(data: Seq<u8>) -> bool {
    exists|es: Seq<(Seq<u8>, u64)>| #[trigger] fst_image(es) == data && keys_increasing(es)
}

/// Keys in strictly increasing order, the order a map builder requires.
pub open spec fn keys_increasing(es: Seq<(Seq<u8>, u64)>) -> bool {
    forall|i: int, j: int| 0 <= i < j < es.len() ==> lex_lt(#[trigger] es[i].0, #[trigger] es[j].0)
}

/// The map that a sequence of pairs with distinct keys describes.
pub open spec fn entries_map(es: Seq<(Seq<u8>, u64)>) -> Map<Seq<u8>, u64> {
    Map::new(
        |k: Seq<u8>| exists|i: int| 0 <= i < es.len() && es[i].0 == k,
        |k: Seq<u8>| es[choose|i: int| 0 <= i < es.len() && es[i].0 == k].1,
    )
}

/// `MapBuilder::memory`: a builder that writes to memory, with nothing
/// inserted yet.
#[verifier::external_body]
pub(crate) fn builder_memory() -> (b: MapBuilder<Vec<u8>>)
    ensures
        builder_entries(b) == Seq::<(Seq<u8>, u64)>::empty(),
{
    MapBuilder::memory()
}

/// `MapBuilder::insert`: when it succeeds, the pair has been appended to
/// the inserted ones. It fails only on a key that is not greater than the
/// previous one (`check_last_key`) or when writing fails; a builder made by
/// `MapBuilder::memory` writes to a `Vec<u8>`, whose writes the crate itself
/// treats as infallible (`Builder::memory` unwraps them), so a key greater
/// than every inserted one is always taken. The builder is not used after a
/// failure.
#[verifier::external_body]
pub(crate) fn builder_insert(b: &mut MapBuilder<Vec<u8>>, key: &[u8], val: u64) -> (r: Result<(), tantivy_fst::Error>)
    ensures
        r is Ok ==> builder_entries(*final(b)) == builder_entries(*old(b)).push((key@, val)),
        (forall|i: int|
            0 <= i < builder_entries(*old(b)).len() ==> lex_lt(#[trigger] builder_entries(*old(b))[i].0, key@))
            ==> r is Ok,
{
    b.insert(key, val)
}

/// `MapBuilder::into_inner`: finishes the transducer and gives the bytes
/// written for the inserted pairs. It only writes to the `Vec<u8>` and
/// flushes it, which does not fail, so it succeeds.
#[verifier::external_body]
pub(crate) fn builder_into_inner(b: MapBuilder<Vec<u8>>) -> (r: Result<Vec<u8>, tantivy_fst::Error>)
    ensures
        r is Ok,
        r matches Ok(bytes) ==> bytes@ == fst_image(builder_entries(b)),
{
    b.into_inner()
}

/// `Fst::new`: opens a transducer over `bytes`, which it keeps as they are.
/// When the bytes are what a map builder wrote for pairs with increasing
/// keys, it opens them (they are at least 32 bytes with the builder's
/// version, and the one layout check fails only for an empty root address
/// with more than 32 bytes, which a builder never writes), and the
/// transducer holds exactly those pairs and records their number. (The
/// crate leaves it unsaid which other byte strings open, and what they
/// hold.)
#[verifier::external_body]
pub(crate) fn fst_from_bytes(bytes: Vec<u8>) -> (r: Result<Fst<Vec<u8>>, tantivy_fst::Error>)
    ensures
        r matches Ok(f) ==> fst_data(f) == bytes@,
        r matches Ok(f) ==> forall|es: Seq<(Seq<u8>, u64)>|
            #![trigger fst_image(es)]
            bytes@ == fst_image(es) && keys_increasing(es) ==> fst_map(f) == entries_map(es)
                && fst_key_count(f) == es.len(),
        written_by_builder(bytes@) ==> r is Ok,
{
    Fst::new(bytes)
}

/// `Fst::len`: the key count recorded in the transducer.
#[verifier::external_body]
pub(crate) fn fst_len(f: &Fst<Vec<u8>>) -> (r: usize)
    ensures
        r == fst_key_count(*f),
{
    f.len()
}

/// `Fst::is_empty`: whether the recorded key count is zero.
#[verifier::external_body]
pub(crate) fn fst_is_empty(f: &Fst<Vec<u8>>) -> (r: bool)
    ensures
        r == (fst_key_count(*f) == 0),
{
    f.is_empty()
}

/// `Fst::root`: the root node, which accepts exactly the keys, with their
/// values. Reading it slices the bytes at the root address, which lies
/// within bytes a map builder wrote.
#[verifier::external_body]
pub(crate) fn fst_root<'f>(f: &'f Fst<Vec<u8>>) -> (n: Node<'f>)
    requires
        written_by_builder(fst_data(*f)),
    ensures
        node_suffixes(n) == fst_map(*f),
        reached_from_root(*f, n),
{
    f.root()
}

/// Follows the transition for byte `b` out of `node` (`Node::find_input`,
/// `Node::transition`, `Fst::node`, `Output::cat`): `None` when the node
/// has no transition on `b`, so that no accepted suffix starts with `b`;
/// otherwise the target node, which accepts the suffixes that follow `b`,
/// and `output` plus the transition's output, which with the target's
/// outputs adds up to what `output` and the node's outputs gave. The node
/// must be one of `f`'s, reached from its root, and `f`'s bytes written by
/// a map builder, so that the target address lies within them.
#[verifier::external_body]
pub(crate) fn step<'f>(f: &'f Fst<Vec<u8>>, node: &Node<'f>, b: u8, output: u64) -> (r: Option<(Node<'f>, u64)>)
    requires
        written_by_builder(fst_data(*f)),
        reached_from_root(*f, *node),
        forall|s: Seq<u8>|
            #![trigger node_suffixes(*node)[s]]
            node_suffixes(*node).dom().contains(s) ==> output + node_suffixes(*node)[s] <= u64::MAX,
    ensures
        r matches Some((n2, o2)) ==> reached_from_root(*f, n2),
        r is None ==> forall|s: Seq<u8>|
            #![trigger node_suffixes(*node).dom().contains(seq![b] + s)]
            !node_suffixes(*node).dom().contains(seq![b] + s),
        r matches Some((n2, o2)) ==> forall|s: Seq<u8>|
            #![trigger node_suffixes(n2).dom().contains(s)]
            #![trigger node_suffixes(*node).dom().contains(seq![b] + s)]
            (node_suffixes(n2).dom().contains(s) <==> node_suffixes(*node).dom().contains(
                seq![b] + s,
            )) && (node_suffixes(n2).dom().contains(s) ==> o2 + node_suffixes(n2)[s] == output
                + node_suffixes(*node)[seq![b] + s]),
{
    let idx = node.find_input(b)?;
    let t = node.transition(idx);
    Some((f.node(t.addr), Output::new(output).cat(t.out).value()))
}

/// `Node::is_final`: whether the node accepts the empty suffix.
#[verifier::external_body]
pub(crate) fn node_is_final(n: &Node) -> (r: bool)
    ensures
        r == node_suffixes(*n).dom().contains(Seq::<u8>::empty()),
{
    n.is_final()
}

/// `Node::final_output`: for a final node, the output of the empty suffix.
#[verifier::external_body]
pub(crate) fn node_final_output(n: &Node) -> (r: u64)
    ensures
        node_suffixes(*n).dom().contains(Seq::<u8>::empty()) ==> r == node_suffixes(
            *n,
        )[Seq::<u8>::empty()],
{
    n.final_output().value()
}

} // verus!
