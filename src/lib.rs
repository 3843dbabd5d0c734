//! Conversion between graph alignments, their binary framing and the
//! tab-separated text format.
use crate::convert::{
    all_indices, clean_path, gam_convertible, has_mappings, record_of_alignment, steps_follow,
};
use crate::gaf::GafRecord;
use crate::gam::{alignment_of_record, gaf_convertible, step_node_id};
use crate::graph::Graph;
use crate::text::lemma_int_text_value;
use crate::vg::{Alignment, Path};
use vstd::prelude::*;

pub mod convert;
pub mod framing;
pub mod gaf;
pub mod gam;
pub mod gamp;
pub mod graph;
pub mod roundtrip;
pub mod text;
pub mod vg;

verus! {

/// What can go wrong while converting between the two alignment models.
#[derive(Debug, Clone, Copy, PartialEq, Eq, Structural)]
pub enum ConversionError {
    /// A number (a node id, a tag value) is malformed.
    ParseInt,
    /// A mapping has no position.
    MissingPosition,
    /// The graph has no node of a given id.
    NodeNotFound,
    /// The operations run past the path, or an offset past its node.
    PathMismatch,
    /// A length does not fit its field.
    Overflow,
    /// The read holds a character that has no complement.
    InvalidBase,
    /// The cigar tags cannot be read.
    InvalidCigar,
    /// A tag whose reconstruction is not supported (`bq`).
    UnsupportedTag,
    /// A quality byte too large to shift into a printable character.
    InvalidQuality,
}

/// Converts each alignment to a text record, in order; the first that
/// fails fails the whole batch.
pub fn convert_gam_to_gaf(value: &[Alignment], graph: &Graph) -> (r: Result<
    Vec<GafRecord>,
    ConversionError,
>)
    ensures
        r matches Ok(v) ==> v@.len() == value@.len() && forall|i: int|
            0 <= i < v@.len() ==> record_of_alignment(value@[i], *graph, #[trigger] v@[i]),
        (forall|i: int| 0 <= i < value@.len() ==> gam_convertible(#[trigger] value@[i], *graph))
            ==> r is Ok,
        r is Err ==> exists|i: int|
            0 <= i < value@.len() && !gam_convertible(#[trigger] value@[i], *graph),
{
    let mut out: Vec<GafRecord> = Vec::new();
    let mut i: usize = 0;
    while i < value.len()
        invariant
            i <= value@.len(),
            out@.len() == i,
            forall|j: int| 0 <= j < i ==> record_of_alignment(value@[j], *graph, #[trigger] out@[j]),
        decreases value@.len() - i,
    {
        let rec = GafRecord::convert_from_gam(&value[i], graph)?;
        out.push(rec);
        i = i + 1;
    }
    Ok(out)
}

/// Converts each text record to a graph alignment, in order; the first
/// that fails fails the whole batch.
pub fn convert_gaf_to_gam(value: &[GafRecord], graph: &Graph) -> (r: Result<
    Vec<Alignment>,
    ConversionError,
>)
    ensures
        r matches Ok(v) ==> v@.len() == value@.len() && forall|i: int|
            0 <= i < v@.len() ==> alignment_of_record(value@[i], #[trigger] v@[i]),
        (forall|i: int| 0 <= i < value@.len() ==> gaf_convertible(#[trigger] value@[i], *graph))
            ==> r is Ok,
        r is Err ==> exists|i: int|
            0 <= i < value@.len() && !gaf_convertible(#[trigger] value@[i], *graph),
{
    let mut out: Vec<Alignment> = Vec::new();
    let mut i: usize = 0;
    while i < value.len()
        invariant
            i <= value@.len(),
            out@.len() == i,
            forall|j: int| 0 <= j < i ==> alignment_of_record(value@[j], #[trigger] out@[j]),
        decreases value@.len() - i,
    {
        let a = Alignment::convert_from_gaf(&value[i], graph)?;
        out.push(a);
        i = i + 1;
    }
    Ok(out)
}

/// Mapping `j` of `b` sits on the node of mapping `idx[j]` of `a`, with the
/// same orientation, and `idx` increases.
pub open spec fn visits_in_order(b: Path, a: Path, idx: Seq<int>) -> bool {
    &&& idx.len() == b.mapping@.len()
    &&& forall|j1: int, j2: int| 0 <= j1 < j2 < idx.len() ==> #[trigger] idx[j1] < #[trigger] idx[j2]
    &&& forall|j: int|
        0 <= j < idx.len() ==> {
            &&& 0 <= #[trigger] idx[j] < a.mapping@.len()
            &&& b.mapping@[j].position matches Some(q) && a.mapping@[idx[j]].position matches Some(
                p,
            ) && q.node_id == p.node_id && q.is_reverse == p.is_reverse
        }
}

/// Converting an alignment to a text record and back keeps the nodes its
/// path visits, with their orientations, in order: the mappings that come
/// back stand on the nodes of mappings of `a` at increasing positions
/// (repeated visits of one node are merged into one step).
pub proof fn lemma_path_round_trip(a: Alignment, graph: Graph, rec: GafRecord, b: Alignment)
    requires
        has_mappings(a),
        record_of_alignment(a, graph, rec),
        alignment_of_record(rec, b),
    ensures
        b.path is Some,
        exists|idx: Seq<int>| visits_in_order(b.path->Some_0, a.path->Some_0, idx),
{
    let p = a.path->Some_0;
    let idx = choose|idx: Seq<int>| steps_follow(rec.path@, p, idx);
    let bp = b.path->Some_0;
    assert forall|j: int| 0 <= j < idx.len() implies {
        &&& 0 <= #[trigger] idx[j] < p.mapping@.len()
        &&& bp.mapping@[j].position matches Some(q) && p.mapping@[idx[j]].position matches Some(
            pp,
        ) && q.node_id == pp.node_id && q.is_reverse == pp.is_reverse
    } by {
        let pp = p.mapping@[idx[j]].position->Some_0;
        lemma_int_text_value(pp.node_id);
        assert(step_node_id(rec, j) == Some(pp.node_id));
        let m = bp.mapping@[j];
        assert(m.position matches Some(q) && Some(q.node_id) == step_node_id(rec, j));
    }
    assert(visits_in_order(bp, p, idx));
}

/// On a clean path (every mapping a step of its own, see `clean_path`),
/// converting an alignment to a text record and back gives the very same
/// sequence of nodes and orientations.
pub proof fn lemma_clean_path_round_trip(a: Alignment, graph: Graph, rec: GafRecord, b: Alignment)
    requires
        has_mappings(a),
        clean_path(a.path->Some_0, graph),
        record_of_alignment(a, graph, rec),
        alignment_of_record(rec, b),
    ensures
        b.path is Some,
        b.path->Some_0.mapping@.len() == a.path->Some_0.mapping@.len(),
        forall|j: int|
            0 <= j < b.path->Some_0.mapping@.len() ==> {
                let q = (#[trigger] b.path->Some_0.mapping@[j]).position->Some_0;
                let p = a.path->Some_0.mapping@[j].position->Some_0;
                &&& b.path->Some_0.mapping@[j].position is Some
                &&& q.node_id == p.node_id
                &&& q.is_reverse == p.is_reverse
            },
{
    let p = a.path->Some_0;
    let idx = all_indices(p.mapping@.len());
    assert(steps_follow(rec.path@, p, idx));
    let bp = b.path->Some_0;
    assert forall|j: int| 0 <= j < bp.mapping@.len() implies {
        let q = (#[trigger] bp.mapping@[j]).position->Some_0;
        let pp = p.mapping@[j].position->Some_0;
        &&& bp.mapping@[j].position is Some
        &&& q.node_id == pp.node_id
        &&& q.is_reverse == pp.is_reverse
    } by {
        assert(idx[j] == j);
        let pp = p.mapping@[j].position->Some_0;
        lemma_int_text_value(pp.node_id);
        assert(step_node_id(rec, j) == Some(pp.node_id));
    }
}

} // verus!
