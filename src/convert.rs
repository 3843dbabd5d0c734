//! From a graph alignment to a text record: the path walked mapping by
//! mapping, the edits written as a cs string.
use crate::gaf::{keys_unique, star, tag_value, GafRecord, GafStep, OptField};
use crate::graph::{GFAExt, Graph};
use crate::text::{chars_of, int_text, nat_text, push_chars, push_int, push_nat};
use crate::vg::{Alignment, Annotation, AnnotationValue, Edit, Mapping, Path};
use crate::ConversionError;
use vstd::prelude::*;

verus! {

/// What the walk along a path gives.
struct Walk {
    cs: String,
    steps: Vec<GafStep>,
    path_length: i64,
    path_start: i64,
    path_end: i64,
    matches: i64,
    total_to_len: i64,
}

/// Step `j` of `steps` stands for mapping `idx[j]` of `path`, and `idx`
/// increases: the steps follow the mappings in order, some skipped.
pub open spec fn steps_follow(steps: Seq<GafStep>, path: Path, idx: Seq<int>) -> bool {
    &&& idx.len() == steps.len()
    &&& forall|j: int|
        0 <= j < idx.len() ==> {
            &&& 0 <= #[trigger] idx[j] < path.mapping@.len()
            &&& (path.mapping@[idx[j]].position matches Some(p) && steps[j].name@ == int_text(
                p.node_id as int,
            ) && steps[j].is_reverse == p.is_reverse)
            &&& !steps[j].is_stable
            &&& !steps[j].is_interval
            &&& steps[j].start is None
            &&& steps[j].end is None
        }
    &&& forall|j1: int, j2: int| 0 <= j1 < j2 < idx.len() ==> #[trigger] idx[j1] < #[trigger] idx[j2]
}

proof fn lemma_steps_follow_push(
    steps: Seq<GafStep>,
    path: Path,
    graph: Graph,
    idx: Seq<int>,
    i: int,
    step: GafStep,
)
    requires
        steps_follow(steps, path, idx),
        forall|j: int| 0 <= j < idx.len() ==> #[trigger] idx[j] < i,
        0 <= i < path.mapping@.len(),
        path.mapping@[i].position matches Some(p) && step.name@ == int_text(p.node_id as int)
            && step.is_reverse == p.is_reverse,
        !step.is_stable,
        !step.is_interval,
        step.start is None,
        step.end is None,
    ensures
        steps_follow(steps.push(step), path, idx.push(i)),
        steps_length(path, graph, idx.push(i)) == steps_length(path, graph, idx) + node_length_of(
            graph,
            path.mapping@[i],
        ),
{
    assert(idx.push(i).drop_last() =~= idx);
    let idx2 = idx.push(i);
    let steps2 = steps.push(step);
    assert forall|j: int| 0 <= j < idx2.len() implies {
        &&& 0 <= #[trigger] idx2[j] < path.mapping@.len()
        &&& (path.mapping@[idx2[j]].position matches Some(p) && steps2[j].name@ == int_text(
            p.node_id as int,
        ) && steps2[j].is_reverse == p.is_reverse)
        &&& !steps2[j].is_stable
        &&& !steps2[j].is_interval
        &&& steps2[j].start is None
        &&& steps2[j].end is None
    } by {
        if j < idx.len() {
            assert(idx2[j] == idx[j]);
            assert(steps2[j] == steps[j]);
        }
    }
}

/// The graph bases of the match edits of `es`.
pub open spec fn edit_matches(es: Seq<Edit>) -> int
    decreases es.len(),
{
    if es.len() == 0 {
        0
    } else {
        edit_matches(es.drop_last()) + if es.last().spec_is_match() {
            es.last().from_length as int
        } else {
            0
        }
    }
}

/// The read bases of the edits of `es`.
pub open spec fn edit_read_length(es: Seq<Edit>) -> int
    decreases es.len(),
{
    if es.len() == 0 {
        0
    } else {
        edit_read_length(es.drop_last()) + es.last().to_length
    }
}

/// The graph bases of the match edits of all mappings of `ms`.
pub open spec fn path_matches(ms: Seq<Mapping>) -> int
    decreases ms.len(),
{
    if ms.len() == 0 {
        0
    } else {
        path_matches(ms.drop_last()) + edit_matches(ms.last().edit@)
    }
}

/// The read bases of the edits of all mappings of `ms`.
pub open spec fn path_read_length(ms: Seq<Mapping>) -> int
    decreases ms.len(),
{
    if ms.len() == 0 {
        0
    } else {
        path_read_length(ms.drop_last()) + edit_read_length(ms.last().edit@)
    }
}

/// The graph bases that the edits of `es` consume.
pub open spec fn edits_from(es: Seq<Edit>) -> int
    decreases es.len(),
{
    if es.len() == 0 {
        0
    } else {
        edits_from(es.drop_last()) + es.last().from_length
    }
}

/// The edits `es`, applied from offset `start` on a node of `len` bases:
/// no length below zero, none runs past the node, and a substitution
/// carries a literal base for each graph base.
pub open spec fn edits_fit(es: Seq<Edit>, start: int, len: int) -> bool
    decreases es.len(),
{
    if es.len() == 0 {
        0 <= start <= len
    } else {
        &&& edits_fit(es.drop_last(), start, len)
        &&& es.last().from_length >= 0
        &&& es.last().to_length >= 0
        &&& start + edits_from(es) <= len
        &&& (es.last().spec_is_sub() ==> es.last().from_length <= es.last().sequence@.len())
    }
}

proof fn lemma_edits_fit_prefix(es: Seq<Edit>, start: int, len: int, k: int)
    requires
        edits_fit(es, start, len),
        0 <= k <= es.len(),
    ensures
        edits_fit(es.take(k), start, len),
    decreases es.len(),
{
    if k == es.len() {
        assert(es.take(k) =~= es);
    } else {
        assert(es.take(k) =~= es.drop_last().take(k));
        lemma_edits_fit_prefix(es.drop_last(), start, len, k);
    }
}

/// A path that the walk writes without fault: every mapping stands on a
/// node that `graph` holds, its edits fit that node, and the sizes are
/// small enough that no sum overflows (at most 2^20 mappings, 1024 edits
/// a mapping, 2^32 bases a node).
pub open spec fn walkable(path: Path, graph: Graph) -> bool {
    &&& path.mapping@.len() <= 0x10_0000
    &&& forall|k: int|
        0 <= k < path.mapping@.len() ==> {
            let m = #[trigger] path.mapping@[k];
            &&& m.position is Some
            &&& graph.node_sequence_of(m.position->Some_0.node_id) is Some
            &&& graph.node_sequence_of(m.position->Some_0.node_id)->Some_0.len() <= 0x1_0000_0000
            &&& m.edit@.len() <= 1024
            &&& edits_fit(
                m.edit@,
                m.position->Some_0.offset as int,
                graph.node_sequence_of(m.position->Some_0.node_id)->Some_0.len() as int,
            )
        }
}

/// A path whose every mapping becomes a step: neighbours differ in node or
/// orientation, each mapping after the first starts at its node's start,
/// each before the last ends at its node's end, and the last is not a lone
/// insertion.
#[verifier::opaque]
pub open spec fn clean_path(path: Path, graph: Graph) -> bool {
    let n = path.mapping@.len();
    forall|i: int|
        0 <= i < n ==> {
            let m = #[trigger] path.mapping@[i];
            &&& (i > 0 ==> m.position->Some_0.offset == 0)
            &&& (i + 1 < n ==> mapping_end(m) == node_length_of(graph, m) && (m.position->Some_0.node_id
                != path.mapping@[i + 1].position->Some_0.node_id || m.position->Some_0.is_reverse
                != path.mapping@[i + 1].position->Some_0.is_reverse))
            &&& (i > 0 && i + 1 == n ==> !(m.edit@.len() == 1 && m.edit@[0].spec_is_insertion()))
        }
}

/// The indices `0..n`.
pub open spec fn all_indices(n: nat) -> Seq<int> {
    Seq::new(n, |j: int| j)
}

/// Mapping `i` adds no step: it continues the previous mapping on the same
/// node, it is a lone insertion at the end, or it stops short of its node's
/// end with the next mapping on the same node.
pub open spec fn skip_cond(path: Path, graph: Graph, i: int) -> bool {
    let n = path.mapping@.len();
    let m = path.mapping@[i];
    let q = m.position->Some_0;
    ||| (i > 0 && q.offset > 0 && q.offset == mapping_end(path.mapping@[i - 1]) && q.node_id
        == path.mapping@[i - 1].position->Some_0.node_id && q.is_reverse == path.mapping@[i
        - 1].position->Some_0.is_reverse)
    ||| (i > 0 && i + 1 == n && m.edit@.len() == 1 && m.edit@[0].spec_is_insertion())
    ||| (i + 1 < n && mapping_end(m) != node_length_of(graph, m) && q.node_id == path.mapping@[i
        + 1].position->Some_0.node_id && q.is_reverse == path.mapping@[i + 1].position->Some_0.is_reverse)
}

proof fn lemma_clean_not_skipped(path: Path, graph: Graph, i: int)
    requires
        clean_path(path, graph),
        0 <= i < path.mapping@.len(),
    ensures
        !skip_cond(path, graph, i),
{
    reveal(clean_path);
    let m = path.mapping@[i];
}

/// Whether mapping `i` adds no step (`skip_cond`).
fn step_skipped(path: &Path, graph: &Graph, i: usize, prev_offset: usize, offset: usize, node_len: usize) -> (r: bool)
    requires
        i < path.mapping@.len(),
        forall|k: int| 0 <= k < path.mapping@.len() ==> (#[trigger] path.mapping@[k]).position is Some,
        i > 0 ==> prev_offset == mapping_end(path.mapping@[i - 1]),
        offset == mapping_end(path.mapping@[i as int]),
        node_len == node_length_of(*graph, path.mapping@[i as int]),
    ensures
        r == skip_cond(*path, *graph, i as int),
{
    let n = path.mapping.len();
    let m = &path.mapping[i];
    let pos = m.position.as_ref().unwrap();
    let mut skip = false;
    if i > 0 && pos.offset > 0 {
        let prev = path.mapping[i - 1].position.as_ref().unwrap();
        if pos.offset as i128 == prev_offset as i128 && pos.node_id == prev.node_id && pos.is_reverse
            == prev.is_reverse {
            skip = true;
        }
    }
    if i > 0 && i + 1 == n && m.edit.len() == 1 && m.edit[0].is_insertion() {
        skip = true;
    }
    if i + 1 < n && offset != node_len {
        let next = path.mapping[i + 1].position.as_ref().unwrap();
        if pos.node_id == next.node_id && pos.is_reverse == next.is_reverse {
            skip = true;
        }
    }
    skip
}

/// The length of the node that mapping `m` stands on.
pub open spec fn node_length_of(graph: Graph, m: Mapping) -> int {
    graph.node_sequence_of(m.position->Some_0.node_id)->Some_0.len() as int
}

/// The summed node lengths of the mappings `idx` of `path`.
pub open spec fn steps_length(path: Path, graph: Graph, idx: Seq<int>) -> int
    decreases idx.len(),
{
    if idx.len() == 0 {
        0
    } else {
        steps_length(path, graph, idx.drop_last()) + node_length_of(graph, path.mapping@[idx.last()])
    }
}

/// The offset on its node where mapping `m` ends.
pub open spec fn mapping_end(m: Mapping) -> int {
    m.position->Some_0.offset + edits_from(m.edit@)
}

/// The path end of a walk whose steps sum to `path_length`: the last base
/// consumed, counted on the whole path, or the start where the path is no
/// longer than the last mapping's end.
pub open spec fn walk_path_end(path: Path, graph: Graph, path_length: int, path_start: int) -> int {
    let m = path.mapping@.last();
    if path_length > mapping_end(m) {
        path_length - 1 - (node_length_of(graph, m) - mapping_end(m))
    } else {
        path_start
    }
}


// ---------------------------------------------------------------------------
// the cs string

/// Where writing the cs string stands: the text so far, a run of matches
/// not yet written, and whether the text ends inside a deletion.
pub struct CsState {
    pub cs: Seq<char>,
    pub run: nat,
    pub in_del: bool,
}

pub open spec fn cs_state(cs: Seq<char>, run: u64, in_del: bool) -> CsState {
    CsState { cs, run: run as nat, in_del }
}

/// The pending run of matches written as `:n`.
pub open spec fn flushed(st: CsState) -> CsState {
    if st.run > 0 {
        CsState { cs: st.cs + seq![':'] + nat_text(st.run), run: 0, in_del: st.in_del }
    } else {
        st
    }
}

/// Graph bases `bases` written as (the rest of) a deletion run.
pub open spec fn del_text(st: CsState, bases: Seq<char>) -> CsState {
    let f = flushed(st);
    CsState {
        cs: f.cs + (if f.in_del {
            Seq::empty()
        } else {
            seq!['-']
        }) + bases,
        run: 0,
        in_del: true,
    }
}

/// The sequence of the node of mapping `m`, in the mapping's orientation.
pub open spec fn oriented_seq(graph: Graph, m: Mapping) -> Seq<char> {
    let s = graph.node_sequence_of(m.position->Some_0.node_id)->Some_0;
    if m.position->Some_0.is_reverse {
        s.reverse()
    } else {
        s
    }
}

/// The first `k` bases of a substitution at `off`: `*` then the graph base
/// then the read base, for each.
pub open spec fn sub_text(sq: Seq<char>, off: int, lit: Seq<char>, k: nat) -> Seq<char>
    decreases k,
{
    if k == 0 {
        Seq::empty()
    } else {
        sub_text(sq, off, lit, (k - 1) as nat) + seq!['*', sq[off + k - 1], lit[k - 1]]
    }
}

/// One edit at offset `off` of the node whose sequence is `sq`.
pub open spec fn edit_cs(st: CsState, e: Edit, off: int, sq: Seq<char>) -> CsState {
    if e.spec_is_match() {
        CsState { cs: st.cs, run: st.run + e.from_length as nat, in_del: false }
    } else {
        let f = flushed(st);
        if e.spec_is_sub() {
            CsState {
                cs: f.cs + sub_text(sq, off, e.sequence@, e.from_length as nat),
                run: 0,
                in_del: false,
            }
        } else if e.spec_is_deletion() {
            del_text(f, sq.subrange(off, off + e.from_length))
        } else if e.spec_is_insertion() {
            CsState { cs: f.cs + seq!['+'] + e.sequence@, run: 0, in_del: false }
        } else {
            f
        }
    }
}

/// The edits `es`, the first at offset `start`.
pub open spec fn edits_cs(st: CsState, es: Seq<Edit>, start: int, sq: Seq<char>) -> CsState
    decreases es.len(),
{
    if es.len() == 0 {
        st
    } else {
        edit_cs(
            edits_cs(st, es.drop_last(), start, sq),
            es.last(),
            start + edits_from(es.drop_last()),
            sq,
        )
    }
}

/// Before mapping `i`: a jump ahead on its node, or into a new node past
/// its start, is written as a deletion of the bases skipped.
pub open spec fn jump_cs(path: Path, graph: Graph, i: int, st: CsState) -> CsState {
    let m = path.mapping@[i];
    let q = m.position->Some_0;
    if i > 0 && q.offset > 0 {
        let prev = path.mapping@[i - 1];
        let pq = prev.position->Some_0;
        let po = mapping_end(prev);
        if q.offset == po && q.node_id == pq.node_id && q.is_reverse == pq.is_reverse {
            st
        } else {
            let ds = if q.node_id == pq.node_id {
                po
            } else {
                0
            };
            if q.offset > ds {
                del_text(st, oriented_seq(graph, m).subrange(ds, q.offset as int))
            } else {
                st
            }
        }
    } else {
        st
    }
}

/// After mapping `i`: bases left on its node when the next mapping is on
/// another node are written as a deletion.
pub open spec fn tail_cs(path: Path, graph: Graph, i: int, st: CsState) -> CsState {
    let m = path.mapping@[i];
    let q = m.position->Some_0;
    let sq = oriented_seq(graph, m);
    let end = mapping_end(m);
    if i + 1 < path.mapping@.len() && end != sq.len() {
        let nq = path.mapping@[i + 1].position->Some_0;
        if q.node_id != nq.node_id || q.is_reverse != nq.is_reverse {
            del_text(st, sq.subrange(end, sq.len() as int))
        } else {
            st
        }
    } else {
        st
    }
}

/// The state after the first `k` mappings of `path`.
pub open spec fn path_cs(path: Path, graph: Graph, k: nat) -> CsState
    decreases k,
{
    if k == 0 {
        CsState { cs: Seq::empty(), run: 0, in_del: false }
    } else {
        let i = k - 1;
        let m = path.mapping@[i];
        tail_cs(
            path,
            graph,
            i,
            edits_cs(
                jump_cs(path, graph, i, path_cs(path, graph, (k - 1) as nat)),
                m.edit@,
                m.position->Some_0.offset as int,
                oriented_seq(graph, m),
            ),
        )
    }
}

/// The cs string of `path`: every mapping written, the last run flushed.
pub open spec fn cs_string(path: Path, graph: Graph) -> Seq<char> {
    flushed(path_cs(path, graph, path.mapping@.len())).cs
}

/// Appends a pending run of `run` matches to the cs string.
fn flush(cs: &mut String, run: &mut u64)
    ensures
        *final(run) == 0,
        final(cs)@ == flushed(cs_state(old(cs)@, *old(run), false)).cs,
{
    if *run > 0 {
        cs.push(':');
        push_nat(cs, *run as u128);
        *run = 0;
    }
}

fn node_chars(graph: &Graph, node_id: i64, is_reverse: bool) -> (r: Result<
    Vec<char>,
    ConversionError,
>)
    ensures
        match graph.node_sequence_of(node_id) {
            Some(s) => r matches Ok(v) && v@.len() == s.len() && v@ == if is_reverse {
                s.reverse()
            } else {
                s
            },
            None => r == Err::<Vec<char>, ConversionError>(ConversionError::NodeNotFound),
        },
{
    match graph.node_to_sequence(node_id, is_reverse) {
        Some(t) => Ok(chars_of(t.as_str())),
        None => Err(ConversionError::NodeNotFound),
    }
}

fn checked_sum(a: i64, b: i64) -> (r: Result<i64, ConversionError>)
    ensures
        r matches Ok(v) ==> v == a + b,
        r matches Err(e) ==> e == ConversionError::Overflow,
        i64::MIN <= a + b <= i64::MAX ==> r is Ok,
{
    match a.checked_add(b) {
        Some(v) => Ok(v),
        None => Err(ConversionError::Overflow),
    }
}

/// Walks the mappings of `path`, which has at least one.
#[verifier::rlimit(100)]
fn walk(path: &Path, graph: &Graph) -> (r: Result<Walk, ConversionError>)
    requires
        path.mapping@.len() > 0,
    ensures
        r matches Ok(w) ==> {
            &&& forall|k: int|
                0 <= k < path.mapping@.len() ==> (#[trigger] path.mapping@[k]).position is Some
            &&& exists|idx: Seq<int>| steps_follow(w.steps@, *path, idx) && w.path_length == steps_length(
                *path,
                *graph,
                idx,
            )
            &&& w.path_end == walk_path_end(*path, *graph, w.path_length as int, w.path_start as int)
            &&& w.cs@ == cs_string(*path, *graph)
            &&& (clean_path(*path, *graph) ==> steps_follow(w.steps@, *path, all_indices(
                path.mapping@.len(),
            )) && w.path_length == steps_length(*path, *graph, all_indices(path.mapping@.len())))
            &&& w.matches == path_matches(path.mapping@)
            &&& w.total_to_len == path_read_length(path.mapping@)
            &&& w.steps@.len() <= path.mapping@.len()
            &&& (path.mapping@[0].position matches Some(p) && w.path_start == p.offset)
        },
        r matches Err(e) ==> (e == ConversionError::MissingPosition <==> exists|k: int|
            0 <= k < path.mapping@.len() && (#[trigger] path.mapping@[k]).position is None),
        (exists|k: int|
            0 <= k < path.mapping@.len() && (#[trigger] path.mapping@[k]).position is None) ==> r
            == Err::<Walk, ConversionError>(ConversionError::MissingPosition),
        walkable(*path, *graph) ==> (r matches Ok(w) && 0 <= w.path_start && w.path_end
            <= 0x10_0000_0000_0000 && 0 <= w.total_to_len),
{
    let n = path.mapping.len();
    let mut w = Walk {
        cs: String::new(),
        steps: Vec::new(),
        path_length: 0,
        path_start: 0,
        path_end: 0,
        matches: 0,
        total_to_len: 0,
    };
    let mut run: u64 = 0;
    let mut in_deletion = false;
    let mut prev_offset: usize = 0;
    let ghost mut idx: Seq<int> = Seq::empty();
    assert(all_indices(0) =~= idx);
    let mut i: usize = 0;
    // A position is looked up before anything else can fail, so the first
    // missing one is reported as such.
    while i < n
        invariant
            n == path.mapping@.len(),
            i <= n,
            forall|k: int| 0 <= k < i ==> (#[trigger] path.mapping@[k]).position is Some,
        decreases n - i,
    {
        if path.mapping[i].position.is_none() {
            return Err(ConversionError::MissingPosition);
        }
        i = i + 1;
    }
    i = 0;
    while i < n
        invariant
            n == path.mapping@.len(),
            i <= n,
            forall|k: int| 0 <= k < n ==> (#[trigger] path.mapping@[k]).position is Some,
            steps_follow(w.steps@, *path, idx),
            w.path_length == steps_length(*path, *graph, idx),
            cs_state(w.cs@, run, in_deletion) == path_cs(*path, *graph, i as nat),
            clean_path(*path, *graph) ==> idx == all_indices(i as nat),
            i > 0 ==> prev_offset == mapping_end(path.mapping@[i - 1]),
            i == n ==> w.path_end == walk_path_end(*path, *graph, w.path_length as int, w.path_start as int),
            forall|j: int| 0 <= j < idx.len() ==> #[trigger] idx[j] < i,
            w.matches == path_matches(path.mapping@.take(i as int)),
            w.total_to_len == path_read_length(path.mapping@.take(i as int)),
            w.steps@.len() <= i,
            i > 0 ==> (path.mapping@[0].position matches Some(p) && w.path_start == p.offset),
            walkable(*path, *graph) ==> {
                &&& 0 <= w.matches <= i * 0x1_0000_0000
                &&& 0 <= w.path_length <= i * 0x1_0000_0000
                &&& 0 <= w.total_to_len <= i * 0x200_0000_0000
                &&& run <= w.matches
                &&& 0 <= w.path_start <= 0x1_0000_0000
                &&& w.path_end <= 0x10_0000_0000_0000
            },
        decreases n - i,
    {
        let m = &path.mapping[i];
        let pos = match &m.position {
            Some(p) => p,
            None => return Err(ConversionError::MissingPosition),
        };
        let seq = node_chars(graph, pos.node_id, pos.is_reverse)?;
        let node_len = seq.len();
        assert(path.mapping@[i as int] == *m);
        assert(seq@ == oriented_seq(*graph, *m));
        let ghost st0 = path_cs(*path, *graph, i as nat);
        proof {
            if walkable(*path, *graph) {
                assert(path.mapping@[i as int] == *m);
                lemma_edits_fit_prefix(m.edit@, pos.offset as int, node_len as int, 0);
                assert(m.edit@.take(0) =~= Seq::<Edit>::empty());
            }
        }
        if pos.offset < 0 || pos.offset as u128 > node_len as u128 {
            return Err(ConversionError::PathMismatch);
        }
        let start = pos.offset as usize;
        let mut offset = start;
        if i > 0 && start > 0 {
            let prev = match &path.mapping[i - 1].position {
                Some(p) => p,
                None => return Err(ConversionError::MissingPosition),
            };
            if start == prev_offset && pos.node_id == prev.node_id && pos.is_reverse
                == prev.is_reverse {
                // a continuation on the same node: nothing skipped to write
            } else {
                let del_start = if pos.node_id == prev.node_id {
                    prev_offset
                } else {
                    0
                };
                if start > del_start {
                    let ghost js = cs_state(w.cs@, run, in_deletion);
                    flush(&mut w.cs, &mut run);
                    if !in_deletion {
                        w.cs.push('-');
                    }
                    push_chars(&mut w.cs, seq.as_slice(), del_start, start);
                    in_deletion = true;
                    assert(w.cs@ =~= del_text(js, seq@.subrange(del_start as int, start as int)).cs);
                }
            }
        }
        proof {
            if i > 0 {
                assert(path.mapping@[i - 1].position is Some);
            }
        }
        assert(cs_state(w.cs@, run, in_deletion) == jump_cs(*path, *graph, i as int, st0));
        let ghost st1 = jump_cs(*path, *graph, i as int, st0);
        assert(m.edit@.take(0) =~= Seq::<Edit>::empty());
        let mut j: usize = 0;
        while j < m.edit.len()
            invariant
                n == path.mapping@.len(),
                i < n,
                forall|k: int| 0 <= k < n ==> (#[trigger] path.mapping@[k]).position is Some,
                steps_follow(w.steps@, *path, idx),
                forall|j: int| 0 <= j < idx.len() ==> #[trigger] idx[j] < i,
                w.steps@.len() <= i,
                i > 0 ==> (path.mapping@[0].position matches Some(p) && w.path_start == p.offset),
                path.mapping@[i as int] == *m,
                m.position == Some(*pos),
                seq@.len() == node_len,
                node_len == node_length_of(*graph, *m),
                offset == pos.offset + edits_from(m.edit@.take(j as int)),
                seq@ == oriented_seq(*graph, *m),
                cs_state(w.cs@, run, in_deletion) == edits_cs(st1, m.edit@.take(j as int), pos.offset as int, seq@),
                w.path_length == steps_length(*path, *graph, idx),
                j <= m.edit@.len(),
                w.matches == path_matches(path.mapping@.take(i as int)) + edit_matches(
                    m.edit@.take(j as int),
                ),
                w.total_to_len == path_read_length(path.mapping@.take(i as int)) + edit_read_length(
                    m.edit@.take(j as int),
                ),
                walkable(*path, *graph) ==> {
                    &&& edits_fit(m.edit@, pos.offset as int, node_len as int)
                    &&& 0 <= pos.offset
                    &&& node_len <= 0x1_0000_0000
                    &&& m.edit@.len() <= 1024
                    &&& offset == pos.offset + edits_from(m.edit@.take(j as int))
                    &&& offset <= node_len
                    &&& 0 <= w.matches <= i * 0x1_0000_0000 + (offset - pos.offset)
                    &&& 0 <= w.path_length <= i * 0x1_0000_0000
                    &&& 0 <= w.total_to_len <= i * 0x200_0000_0000 + j * 0x8000_0000
                    &&& run <= w.matches
                    &&& 0 <= w.path_start <= 0x1_0000_0000
                    &&& w.path_end <= 0x10_0000_0000_0000
                },
            decreases m.edit@.len() - j,
        {
            let e = &m.edit[j];
            assert(m.edit@.take(j + 1).drop_last() =~= m.edit@.take(j as int));
            assert(m.edit@.take(j + 1).last() == *e);
            assert(edits_from(m.edit@.take(j + 1)) == edits_from(m.edit@.take(j as int))
                + e.from_length);
            let ghost es0 = cs_state(w.cs@, run, in_deletion);
            let ghost off0 = offset as int;
            proof {
                if walkable(*path, *graph) {
                    lemma_edits_fit_prefix(m.edit@, pos.offset as int, node_len as int, j + 1);
                    assert(edits_from(m.edit@.take(j + 1)) == edits_from(m.edit@.take(j as int))
                        + e.from_length);
                }
            }
            if e.from_length < 0 || e.to_length < 0 {
                return Err(ConversionError::PathMismatch);
            }
            let from = e.from_length as usize;
            if e.is_match() {
                w.matches = checked_sum(w.matches, e.from_length as i64)?;
                if run > 0xffff_ffff_0000_0000 {
                    return Err(ConversionError::Overflow);
                }
                run = run + from as u64;
                in_deletion = false;
            } else {
                flush(&mut w.cs, &mut run);
                if e.is_sub() {
                    let lit = chars_of(e.sequence.as_str());
                    let ghost fcs = w.cs@;
                    if offset > seq.len() || from > seq.len() - offset || from > lit.len() {
                        return Err(ConversionError::PathMismatch);
                    }
                    let mut q: usize = 0;
                    while q < from
                        invariant
                            q <= from,
                            offset + from <= node_len,
                            node_len == seq@.len(),
                            from <= lit@.len(),
                            w.matches == path_matches(path.mapping@.take(i as int)) + edit_matches(
                                m.edit@.take(j as int),
                            ),
                            w.total_to_len == path_read_length(path.mapping@.take(i as int))
                                + edit_read_length(m.edit@.take(j as int)),
                            n == path.mapping@.len(),
                            i < n,
                            forall|k: int| 0 <= k < n ==> (#[trigger] path.mapping@[k]).position is Some,
                            steps_follow(w.steps@, *path, idx),
                            forall|j: int| 0 <= j < idx.len() ==> #[trigger] idx[j] < i,
                            w.steps@.len() <= i,
                            i > 0 ==> (path.mapping@[0].position matches Some(p) && w.path_start == p.offset),
                            path.mapping@[i as int] == *m,
                            m.position == Some(*pos),
                            j < m.edit@.len(),
                            w.path_length == steps_length(*path, *graph, idx),
                            w.cs@ == fcs + sub_text(seq@, offset as int, lit@, q as nat),
                            walkable(*path, *graph) ==> {
                                &&& edits_fit(m.edit@, pos.offset as int, node_len as int)
                                &&& 0 <= pos.offset
                    &&& 0 <= pos.offset
                                &&& node_len <= 0x1_0000_0000
                                &&& m.edit@.len() <= 1024
                                &&& offset == pos.offset + edits_from(m.edit@.take(j as int))
                                &&& offset <= node_len
                                &&& 0 <= w.matches <= i * 0x1_0000_0000 + (offset - pos.offset)
                                &&& 0 <= w.path_length <= i * 0x1_0000_0000
                                &&& 0 <= w.total_to_len <= i * 0x200_0000_0000 + j * 0x8000_0000
                                &&& run <= w.matches
                                &&& 0 <= w.path_start <= 0x1_0000_0000
                                &&& w.path_end <= 0x10_0000_0000_0000
                            },
                        decreases from - q,
                    {
                        w.cs.push('*');
                        w.cs.push(seq[offset + q]);
                        w.cs.push(lit[q]);
                        assert(w.cs@ =~= fcs + sub_text(seq@, offset as int, lit@, (q + 1) as nat));
                        q = q + 1;
                    }
                    in_deletion = false;
                } else if e.is_deletion() {
                    if offset > seq.len() || from > seq.len() - offset {
                        return Err(ConversionError::PathMismatch);
                    }
                    if !in_deletion {
                        w.cs.push('-');
                    }
                    push_chars(&mut w.cs, seq.as_slice(), offset, offset + from);
                    in_deletion = true;
                } else if e.is_insertion() {
                    w.cs.push('+');
                    w.cs.append(e.sequence.as_str());
                    in_deletion = false;
                }
            }
            if from > usize::MAX - offset {
                return Err(ConversionError::Overflow);
            }
            assert(w.cs@ =~= edit_cs(es0, *e, off0, seq@).cs);
            assert(cs_state(w.cs@, run, in_deletion) == edit_cs(es0, *e, off0, seq@));
            offset = offset + from;
            w.total_to_len = checked_sum(w.total_to_len, e.to_length as i64)?;
            j = j + 1;
        }
        assert(m.edit@.take(m.edit@.len() as int) =~= m.edit@);
        assert(path.mapping@.take(i + 1).drop_last() =~= path.mapping@.take(i as int));
        assert(path.mapping@.take(i + 1).last() == *m);
        if i == 0 {
            w.path_start = pos.offset;
        }
        assert(cs_state(w.cs@, run, in_deletion) == edits_cs(st1, m.edit@, pos.offset as int, seq@));
        let ghost es_end = cs_state(w.cs@, run, in_deletion);
        if i + 1 < n && offset != node_len {
            let next = match &path.mapping[i + 1].position {
                Some(p) => p,
                None => return Err(ConversionError::MissingPosition),
            };
            if pos.node_id != next.node_id || pos.is_reverse != next.is_reverse {
                if offset > seq.len() {
                    return Err(ConversionError::PathMismatch);
                }
                flush(&mut w.cs, &mut run);
                if !in_deletion {
                    w.cs.push('-');
                }
                push_chars(&mut w.cs, seq.as_slice(), offset, seq.len());
                in_deletion = true;
            }
        }
        proof {
            if i + 1 < n {
                assert(path.mapping@[i + 1].position is Some);
            }
        }
        assert(w.cs@ =~= tail_cs(*path, *graph, i as int, es_end).cs);
        assert(cs_state(w.cs@, run, in_deletion) == tail_cs(*path, *graph, i as int, es_end));
        assert(cs_state(w.cs@, run, in_deletion) == path_cs(*path, *graph, (i + 1) as nat));
        if node_len as u128 > 0x7fff_ffff_ffff_ffff || offset as u128 > 0x7fff_ffff_ffff_ffff {
            return Err(ConversionError::Overflow);
        }
        let skip = step_skipped(path, graph, i, prev_offset, offset, node_len);
        proof {
            if clean_path(*path, *graph) {
                lemma_clean_not_skipped(*path, *graph, i as int);
            }
        }
        if !skip {
            w.path_length = checked_sum(w.path_length, node_len as i64)?;
            let mut name = String::new();
            push_int(&mut name, pos.node_id);
            let step = GafStep {
                name,
                is_reverse: pos.is_reverse,
                is_stable: false,
                is_interval: false,
                start: None,
                end: None,
            };
            let ghost steps0 = w.steps@;
            w.steps.push(step);
            proof {
                lemma_steps_follow_push(steps0, *path, *graph, idx, i as int, step);
                if clean_path(*path, *graph) {
                    assert(all_indices((i + 1) as nat) =~= all_indices(i as nat).push(i as int));
                }
                idx = idx.push(i as int);
            }
        }
        if i + 1 == n {
            w.path_end = w.path_start;
            if w.path_length > offset as i64 {
                // the end is the last base consumed, counted on the whole path
                let end = w.path_length as i128 - 1 - (node_len as i128 - offset as i128);
                if end < -0x8000_0000_0000_0000 || end > 0x7fff_ffff_ffff_ffff {
                    return Err(ConversionError::Overflow);
                }
                w.path_end = end as i64;
            }
        }
        prev_offset = offset;
        i = i + 1;
    }
    flush(&mut w.cs, &mut run);
    assert(path.mapping@.take(n as int) =~= path.mapping@);
    assert(steps_follow(w.steps@, *path, idx));
    assert(all_indices(0) =~= Seq::<int>::empty());
    assert(exists|j: Seq<int>| steps_follow(w.steps@, *path, j) && w.path_length == steps_length(
        *path,
        *graph,
        j,
    ));
    Ok(w)
}

proof fn lemma_tag_value_push(fs: Seq<OptField>, f: OptField, key: Seq<char>)
    ensures
        tag_value(fs.push(f), key) == match tag_value(fs, key) {
            Some(v) => Some(v),
            None => if f.key@ == key {
                Some(f.value@)
            } else {
                None
            },
        },
    decreases fs.len(),
{
    if fs.len() == 0 {
        assert(fs.push(f).drop_first() =~= Seq::<OptField>::empty());
    } else {
        assert(fs.push(f).drop_first() =~= fs.drop_first().push(f));
        lemma_tag_value_push(fs.drop_first(), f, key);
    }
}

/// The type of the tag keyed `k` among those a converted record carries:
/// `Z` for `cs`, `bq`, `fn`, `fp`; `i` for `AS`, `AD`; `b` for `pd`;
/// `None` for any other key.
pub open spec fn tag_type_for(k: Seq<char>) -> Option<char> {
    if k.len() != 2 {
        None
    } else if (k[0] == 'c' && k[1] == 's') || (k[0] == 'b' && k[1] == 'q') || (k[0] == 'f' && k[1]
        == 'n') || (k[0] == 'f' && k[1] == 'p') {
        Some('Z')
    } else if (k[0] == 'A' && k[1] == 'S') || (k[0] == 'A' && k[1] == 'D') {
        Some('i')
    } else if k[0] == 'p' && k[1] == 'd' {
        Some('b')
    } else {
        None
    }
}

/// Every tag of `fs` has one of the seven keys, with that key's type.
pub open spec fn tags_well_typed(fs: Seq<OptField>) -> bool {
    forall|i: int|
        0 <= i < fs.len() ==> (tag_type_for((#[trigger] fs[i]).key@) matches Some(t) && fs[i].typ@
            == seq![t])
}

/// A tag with a two-character key and a one-character type.
fn tag(k0: char, k1: char, typ: char, value: String) -> (r: OptField)
    ensures
        r.key@ == seq![k0, k1],
        r.typ@ == seq![typ],
        r.value == value,
{
    let mut key = String::new();
    key.push(k0);
    key.push(k1);
    let mut t = String::new();
    t.push(typ);
    assert(key@ =~= seq![k0, k1]);
    assert(t@ =~= seq![typ]);
    OptField { key, typ: t, value }
}

/// Appends a tag whose key no tag of `fs` has yet.
fn add_tag(fs: &mut Vec<OptField>, f: OptField)
    requires
        keys_unique(old(fs)@),
        tag_value(old(fs)@, f.key@) is None,
    ensures
        final(fs)@ == old(fs)@.push(f),
        keys_unique(final(fs)@),
{
    proof {
        lemma_tag_value_absent(old(fs)@, f.key@);
    }
    fs.push(f);
}

proof fn lemma_tag_value_absent(fs: Seq<OptField>, key: Seq<char>)
    requires
        tag_value(fs, key) is None,
    ensures
        forall|i: int| 0 <= i < fs.len() ==> (#[trigger] fs[i]).key@ != key,
    decreases fs.len(),
{
    if fs.len() > 0 {
        lemma_tag_value_absent(fs.drop_first(), key);
        assert forall|i: int| 0 <= i < fs.len() implies (#[trigger] fs[i]).key@ != key by {
            if i > 0 {
                assert(fs[i] == fs.drop_first()[i - 1]);
            }
        }
    }
}

/// Every key of `fs` is one of the character pairs of `known`.
pub open spec fn keys_in(fs: Seq<OptField>, known: Set<(char, char)>) -> bool {
    forall|i: int|
        0 <= i < fs.len() ==> (#[trigger] fs[i]).key@.len() == 2 && known.contains(
            (fs[i].key@[0], fs[i].key@[1]),
        )
}

proof fn lemma_absent_pair(fs: Seq<OptField>, known: Set<(char, char)>, c0: char, c1: char)
    requires
        keys_in(fs, known),
        !known.contains((c0, c1)),
    ensures
        tag_value(fs, seq![c0, c1]) is None,
    decreases fs.len(),
{
    if fs.len() > 0 {
        if fs[0].key@ == seq![c0, c1] {
            assert(fs[0].key@[0] == c0 && fs[0].key@[1] == c1);
        }
        assert forall|i: int| 0 <= i < fs.drop_first().len() implies (#[trigger] fs.drop_first()[i]).key@.len()
            == 2 && known.contains((fs.drop_first()[i].key@[0], fs.drop_first()[i].key@[1])) by {
            assert(fs.drop_first()[i] == fs[i + 1]);
        }
        lemma_absent_pair(fs.drop_first(), known, c0, c1);
    }
}

/// Adds tag `f`, keyed `c0 c1`, to `fs` whose keys are among `known`.
fn add_known(fs: &mut Vec<OptField>, f: OptField, Ghost(known): Ghost<Set<(char, char)>>, Ghost(
    c0,
): Ghost<char>, Ghost(c1): Ghost<char>)
    requires
        keys_unique(old(fs)@),
        keys_in(old(fs)@, known),
        !known.contains((c0, c1)),
        f.key@ == seq![c0, c1],
        tags_well_typed(old(fs)@),
        tag_type_for(f.key@) matches Some(t) && f.typ@ == seq![t],
    ensures
        final(fs)@ == old(fs)@.push(f),
        keys_unique(final(fs)@),
        tags_well_typed(final(fs)@),
        keys_in(final(fs)@, known.insert((c0, c1))),
        tag_value(final(fs)@, seq![c0, c1]) == Some(f.value@),
        forall|key: Seq<char>|
            tag_value(old(fs)@, key) is Some ==> #[trigger] tag_value(final(fs)@, key) == tag_value(
                old(fs)@,
                key,
            ),
{
    proof {
        lemma_absent_pair(old(fs)@, known, c0, c1);
        lemma_tag_value_push(old(fs)@, f, seq![c0, c1]);
        assert forall|key: Seq<char>| tag_value(old(fs)@, key) is Some implies #[trigger] tag_value(
            old(fs)@.push(f),
            key,
        ) == tag_value(old(fs)@, key) by {
            lemma_tag_value_push(old(fs)@, f, key);
        }
    }
    add_tag(fs, f);
}

/// The quality bytes shifted into printable characters, each byte plus 33.
pub open spec fn quality_text(q: Seq<u8>) -> Seq<char> {
    q.map_values(|b: u8| (b + 33) as char)
}

fn string_quality_short_to_char(q: &Vec<u8>) -> (r: Result<String, ConversionError>)
    ensures
        r matches Ok(s) ==> s@ == quality_text(q@),
        r is Err ==> exists|i: int| 0 <= i < q@.len() && #[trigger] q@[i] > 222,
        r matches Err(e) ==> e == ConversionError::InvalidQuality,
{
    let mut s = String::new();
    let mut i: usize = 0;
    while i < q.len()
        invariant
            i <= q@.len(),
            s@ == quality_text(q@.take(i as int)),
        decreases q@.len() - i,
    {
        if q[i] > 222 {
            return Err(ConversionError::InvalidQuality);
        }
        s.push((q[i] + 33) as char);
        assert(quality_text(q@.take(i + 1)) =~= quality_text(q@.take(i as int)).push(
            (q@[i as int] + 33) as char,
        ));
        i = i + 1;
    }
    assert(q@.take(i as int) =~= q@);
    Ok(s)
}

pub open spec fn proper_pair_key() -> Seq<char> {
    seq!['p', 'r', 'o', 'p', 'e', 'r', '_', 'p', 'a', 'i', 'r']
}

pub open spec fn support_key() -> Seq<char> {
    seq!['s', 'u', 'p', 'p', 'o', 'r', 't']
}

/// The first yes/no annotation keyed `proper_pair`.
pub open spec fn pair_annotation(anns: Seq<Annotation>) -> Option<bool>
    decreases anns.len(),
{
    if anns.len() == 0 {
        None
    } else if anns[0].key@ == proper_pair_key() && anns[0].value is Bool {
        Some(anns[0].value->Bool_0)
    } else {
        pair_annotation(anns.drop_first())
    }
}

/// The first text annotation keyed `support`.
pub open spec fn support_annotation(anns: Seq<Annotation>) -> Option<Seq<char>>
    decreases anns.len(),
{
    if anns.len() == 0 {
        None
    } else if anns[0].key@ == support_key() && anns[0].value is Text {
        Some(anns[0].value->Text_0@)
    } else {
        support_annotation(anns.drop_first())
    }
}

/// The annotations of an alignment, none where it has no map.
pub open spec fn annotations_of(a: Alignment) -> Seq<Annotation> {
    match a.annotation {
        Some(v) => v@,
        None => Seq::empty(),
    }
}

/// An alignment that converts without fault: a read of at most `i64::MAX`
/// characters, and where it has mappings, a walkable path and quality bytes
/// of at most 222 (which shift to a character of at most 255).
pub open spec fn gam_convertible(value: Alignment, graph: Graph) -> bool {
    &&& value.sequence@.len() <= 0x7fff_ffff_ffff_ffff
    &&& (has_mappings(value) ==> {
        &&& walkable(value.path->Some_0, graph)
        &&& forall|i: int| 0 <= i < value.quality@.len() ==> #[trigger] value.quality@[i] <= 222
    })
}

/// The alignment has a path with at least one mapping.
pub open spec fn has_mappings(a: Alignment) -> bool {
    a.path is Some && a.path->Some_0.mapping@.len() > 0
}

/// The name a record gets from an alignment: `*` for none.
pub open spec fn query_name_of(name: Seq<char>) -> Seq<char> {
    if name.len() == 0 {
        star()
    } else {
        name
    }
}

/// What the record `rec` converted from the alignment `value` holds.
pub open spec fn record_of_alignment(value: Alignment, graph: Graph, rec: GafRecord) -> bool {
    &&& rec.query_name@ == query_name_of(value.name@)
    &&& rec.mapq == value.mapping_quality
    &&& keys_unique(rec.opt_fields@)
    &&& tags_well_typed(rec.opt_fields@)
    &&& (has_mappings(value) ==> {
        let p = value.path->Some_0;
        &&& rec.path@.len() <= p.mapping@.len()
        &&& exists|idx: Seq<int>| steps_follow(rec.path@, p, idx) && rec.path_length == steps_length(
            p,
            graph,
            idx,
        )
        &&& rec.path_end == walk_path_end(p, graph, rec.path_length as int, rec.path_start as int)
        &&& (clean_path(p, graph) ==> steps_follow(rec.path@, p, all_indices(p.mapping@.len()))
            && rec.path_length == steps_length(p, graph, all_indices(p.mapping@.len())))
        &&& rec.strand == '+'
        &&& rec.query_start == 0
        &&& rec.query_end == rec.query_length
        &&& rec.matches == path_matches(p.mapping@)
        &&& rec.query_length == if value.sequence@.len() == 0 && path_read_length(p.mapping@) > 0 {
            path_read_length(p.mapping@)
        } else {
            value.sequence@.len() as int
        }
        &&& tag_value(rec.opt_fields@, seq!['c', 's']) == Some(cs_string(p, graph))
        &&& (value.score > 0 ==> tag_value(rec.opt_fields@, seq!['A', 'S']) == Some(
            int_text(value.score as int),
        ))
        &&& (value.quality@.len() > 0 ==> tag_value(rec.opt_fields@, seq!['b', 'q']) == Some(
            quality_text(value.quality@),
        ))
        &&& (value.score <= 0 ==> tag_value(rec.opt_fields@, seq!['A', 'S']) is None)
        &&& (value.quality@.len() == 0 ==> tag_value(rec.opt_fields@, seq!['b', 'q']) is None)
        &&& tag_value(rec.opt_fields@, seq!['p', 'd']) == match pair_annotation(annotations_of(value)) {
            Some(b) => Some(
                if b {
                    "true"@
                } else {
                    "false"@
                },
            ),
            None => None,
        }
        &&& tag_value(rec.opt_fields@, seq!['A', 'D']) == support_annotation(annotations_of(value))
        &&& (p.mapping@[0].position matches Some(q) && rec.path_start == q.offset)
        &&& rec.block_length == if rec.path_end - rec.path_start > rec.query_length {
            rec.path_end - rec.path_start
        } else {
            rec.query_length as int
        }
    })
    &&& (!has_mappings(value) ==> rec.path@.len() == 0 && rec.query_length
        == value.sequence@.len() && forall|i: int|
        0 <= i < rec.opt_fields@.len() ==> (#[trigger] rec.opt_fields@[i]).key@ == seq!['f', 'n']
            || rec.opt_fields@[i].key@ == seq!['f', 'p'])
    &&& (value.fragment_next is None ==> tag_value(rec.opt_fields@, seq!['f', 'n']) is None)
    &&& (value.fragment_prev is None ==> tag_value(rec.opt_fields@, seq!['f', 'p']) is None)
    &&& (value.fragment_next matches Some(f) ==> tag_value(
        rec.opt_fields@,
        seq!['f', 'n'],
    ) == Some(f.name@))
    &&& (value.fragment_prev matches Some(f) ==> tag_value(
        rec.opt_fields@,
        seq!['f', 'p'],
    ) == Some(f.name@))
}

impl GafRecord {
    /// The text record of a graph alignment: one unstable step per node
    /// visited, the edits written as a cs tag, and the score, quality, pair
    /// and fragment information as tags.
    #[verifier::rlimit(80)]
    pub fn convert_from_gam(value: &Alignment, graph: &Graph) -> (r: Result<
        GafRecord,
        ConversionError,
    >)
        ensures
            r matches Ok(rec) ==> record_of_alignment(*value, *graph, rec),
            (value.path is Some && exists|k: int|
                0 <= k < value.path->Some_0.mapping@.len()
                    && (#[trigger] value.path->Some_0.mapping@[k]).position is None) ==> r is Err,
            r == Err::<GafRecord, ConversionError>(ConversionError::MissingPosition) <==> (
            value.sequence@.len() <= 0x7fff_ffff_ffff_ffff && value.path is Some && exists|k: int|
                0 <= k < value.path->Some_0.mapping@.len()
                    && (#[trigger] value.path->Some_0.mapping@[k]).position is None),
            gam_convertible(*value, *graph) ==> r is Ok,
    {
        let len = value.sequence.as_str().unicode_len();
        if len as u128 > 0x7fff_ffff_ffff_ffff {
            return Err(ConversionError::Overflow);
        }
        let query_name = if value.name.as_str().is_empty() {
            let mut s = String::new();
            s.push('*');
            assert(s@ =~= star());
            s
        } else {
            value.name.clone()
        };
        let mut rec = GafRecord {
            query_name,
            query_length: len as i64,
            query_start: 0,
            query_end: 0,
            path_length: 0,
            path_start: 0,
            path_end: 0,
            matches: 0,
            block_length: 0,
            mapq: value.mapping_quality,
            strand: '\0',
            path: Vec::new(),
            opt_fields: Vec::new(),
        };
        let mut fields: Vec<OptField> = Vec::new();
        let ghost mut known: Set<(char, char)> = Set::empty();
        let ghost mut idx_w: Seq<int> = Seq::empty();
        let has_path = match &value.path {
            Some(p) => p.mapping.len() > 0,
            None => false,
        };
        if has_path {
            let p = value.path.as_ref().unwrap();
            let w = walk(p, graph)?;
            rec.query_end = len as i64;
            rec.strand = '+';
            rec.path_length = w.path_length;
            rec.path_start = w.path_start;
            rec.path_end = w.path_end;
            rec.matches = w.matches;
            proof {
                idx_w = choose|idx: Seq<int>| steps_follow(w.steps@, *p, idx) && w.path_length
                    == steps_length(*p, *graph, idx);
            }
            rec.path = w.steps;
            assert(*p == value.path->Some_0);
            assert(steps_follow(rec.path@, value.path->Some_0, idx_w));
            if rec.query_length == 0 && w.total_to_len > 0 {
                rec.query_length = w.total_to_len;
                rec.query_end = w.total_to_len;
            }
            let span = rec.path_end as i128 - rec.path_start as i128;
            if span > 0x7fff_ffff_ffff_ffff {
                return Err(ConversionError::Overflow);
            }
            rec.block_length = if span > rec.query_length as i128 {
                span as i64
            } else {
                rec.query_length
            };
            let cs = tag('c', 's', 'Z', w.cs);
            add_known(&mut fields, cs, Ghost(known), Ghost('c'), Ghost('s'));
            proof {
                known = known.insert(('c', 's'));
                lemma_tag_value_push(Seq::empty(), fields@[0], seq!['c', 's']);
                assert(fields@ =~= Seq::<OptField>::empty().push(fields@[0]));
            }
            let ghost with_cs = fields@;
            if value.score > 0 {
                let mut s = String::new();
                push_int(&mut s, value.score as i64);
                add_known(&mut fields, tag('A', 'S', 'i', s), Ghost(known), Ghost('A'), Ghost('S'));
                proof {
                    lemma_tag_value_push(with_cs, fields@.last(), seq!['c', 's']);
                    known = known.insert(('A', 'S'));
                }
            }
            let ghost with_as = fields@;
            if value.quality.len() > 0 {
                let q = string_quality_short_to_char(&value.quality)?;
                add_known(&mut fields, tag('b', 'q', 'Z', q), Ghost(known), Ghost('b'), Ghost('q'));
                proof {
                    lemma_tag_value_push(with_as, fields@.last(), seq!['c', 's']);
                    known = known.insert(('b', 'q'));
                }
            }
            if let Some(annotation) = &value.annotation {
                let mut pair: Option<bool> = None;
                let mut support: Option<String> = None;
                let mut k: usize = 0;
                assert(annotation@.skip(0) =~= annotation@);
                while k < annotation.len()
                    invariant
                        k <= annotation@.len(),
                        pair_annotation(annotation@) == match pair {
                            Some(b) => Some(b),
                            None => pair_annotation(annotation@.skip(k as int)),
                        },
                        support_annotation(annotation@) == match support {
                            Some(t) => Some(t@),
                            None => support_annotation(annotation@.skip(k as int)),
                        },
                    decreases annotation@.len() - k,
                {
                    assert(annotation@.skip(k as int).drop_first() =~= annotation@.skip(k + 1));
                    assert(annotation@.skip(k as int)[0] == annotation@[k as int]);
                    let a = &annotation[k];
                    let ks = chars_of(a.key.as_str());
                    let is_pair = ks.len() == 11 && ks[0] == 'p' && ks[1] == 'r' && ks[2] == 'o'
                        && ks[3] == 'p' && ks[4] == 'e' && ks[5] == 'r' && ks[6] == '_' && ks[7]
                        == 'p' && ks[8] == 'a' && ks[9] == 'i' && ks[10] == 'r';
                    let is_support = ks.len() == 7 && ks[0] == 's' && ks[1] == 'u' && ks[2] == 'p'
                        && ks[3] == 'p' && ks[4] == 'o' && ks[5] == 'r' && ks[6] == 't';
                    proof {
                        if is_pair {
                            assert(ks@ =~= proper_pair_key());
                        }
                        if ks@ == proper_pair_key() {
                            assert(ks@[10] == 'r');
                        }
                        if is_support {
                            assert(ks@ =~= support_key());
                        }
                        if ks@ == support_key() {
                            assert(ks@[6] == 't');
                        }
                    }
                    match &a.value {
                        AnnotationValue::Bool(b) => {
                            if is_pair && pair.is_none() {
                                pair = Some(*b);
                            }
                        },
                        AnnotationValue::Text(t) => {
                            if is_support && support.is_none() {
                                support = Some(t.clone());
                            }
                        },
                        AnnotationValue::Other => {},
                    }
                    k = k + 1;
                }
                assert(annotation@.skip(k as int) =~= Seq::<Annotation>::empty());
                let ghost before_pd = fields@;
                if let Some(b) = pair {
                    let text = if b {
                        String::from_str("true")
                    } else {
                        String::from_str("false")
                    };
                    add_known(&mut fields, tag('p', 'd', 'b', text), Ghost(known), Ghost('p'), Ghost('d'));
                    proof {
                        lemma_tag_value_push(before_pd, fields@.last(), seq!['c', 's']);
                        known = known.insert(('p', 'd'));
                    }
                }
                let ghost before_ad = fields@;
                if let Some(t) = support {
                    add_known(&mut fields, tag('A', 'D', 'i', t), Ghost(known), Ghost('A'), Ghost('D'));
                    proof {
                        lemma_tag_value_push(before_ad, fields@.last(), seq!['c', 's']);
                        known = known.insert(('A', 'D'));
                    }
                }
            }
            proof {
                assert(keys_in(fields@, known));
            }
        }
        let ghost before_fn_known = known;
        let ghost before_fragments = fields@;
        if let Some(f) = &value.fragment_next {
            let t = tag('f', 'n', 'Z', f.name.clone());
            add_known(&mut fields, t, Ghost(known), Ghost('f'), Ghost('n'));
            proof {
                lemma_absent_pair(before_fragments, known, 'f', 'n');
                lemma_tag_value_push(before_fragments, t, seq!['f', 'n']);
                lemma_tag_value_push(before_fragments, t, seq!['c', 's']);
                known = known.insert(('f', 'n'));
            }
        }
        let ghost before_prev = fields@;
        if let Some(f) = &value.fragment_prev {
            let t = tag('f', 'p', 'Z', f.name.clone());
            add_known(&mut fields, t, Ghost(known), Ghost('f'), Ghost('p'));
            proof {
                lemma_absent_pair(before_prev, known, 'f', 'p');
                lemma_tag_value_push(before_prev, t, seq!['f', 'p']);
                lemma_tag_value_push(before_prev, t, seq!['f', 'n']);
                lemma_tag_value_push(before_prev, t, seq!['c', 's']);
                known = known.insert(('f', 'p'));
            }
        }
        proof {
            assert(keys_in(fields@, known));
            if value.fragment_next is None {
                assert(!known.contains(('f', 'n')));
                lemma_absent_pair(fields@, known, 'f', 'n');
            }
            if value.fragment_prev is None {
                assert(!known.contains(('f', 'p')));
                lemma_absent_pair(fields@, known, 'f', 'p');
            }
            if has_mappings(*value) && value.score <= 0 {
                assert(!known.contains(('A', 'S')));
                lemma_absent_pair(fields@, known, 'A', 'S');
            }
            if has_mappings(*value) && value.quality@.len() == 0 {
                assert(!known.contains(('b', 'q')));
                lemma_absent_pair(fields@, known, 'b', 'q');
            }
            if has_mappings(*value) && pair_annotation(annotations_of(*value)) is None {
                assert(!known.contains(('p', 'd')));
                lemma_absent_pair(fields@, known, 'p', 'd');
            }
            if has_mappings(*value) && support_annotation(annotations_of(*value)) is None {
                assert(!known.contains(('A', 'D')));
                lemma_absent_pair(fields@, known, 'A', 'D');
            }
            if !has_mappings(*value) {
                assert forall|i: int| 0 <= i < fields@.len() implies (#[trigger] fields@[i]).key@
                    == seq!['f', 'n'] || fields@[i].key@ == seq!['f', 'p'] by {
                    let k = fields@[i].key@;
                    assert(k.len() == 2);
                    if k[0] == 'f' && k[1] == 'n' {
                        assert(k =~= seq!['f', 'n']);
                    } else {
                        assert(k =~= seq!['f', 'p']);
                    }
                }
            }
        }
        rec.opt_fields = fields;
        proof {
            if has_mappings(*value) {
                let p = value.path->Some_0;
                assert(steps_follow(rec.path@, p, idx_w));
                assert(rec.path_length == steps_length(p, *graph, idx_w));
                assert(exists|j: Seq<int>| steps_follow(rec.path@, p, j) && rec.path_length
                    == steps_length(p, *graph, j));
            }
        }
        Ok(rec)
    }
}

} // verus!
