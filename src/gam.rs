//! Single-path alignments: their container, and their reconstruction from
//! a text record.
use crate::framing::{self, frame_bytes, gunzip_of, gzip_of, read_groups, reports, views, FramingError};
use crate::gaf::{cigar_views, cigars_of, tag_value, Cigar, CigarModel, GafRecord};
use crate::graph::{GFAExt, Graph};
use crate::text::{chars_of, i32_value, i64_value, parse_i32, parse_i64, push_chars};
use crate::vg::{Alignment, Annotation, AnnotationValue, Edit, Fragment, Mapping, Path, Position};
use crate::ConversionError;
use vstd::prelude::*;

verus! {

/// The type tag of a container of single-path alignments: `GAM`.
pub open spec fn gam_tag() -> Seq<u8> {
    seq![71u8, 65u8, 77u8]
}

fn tag() -> (r: Vec<u8>)
    ensures
        r@ == gam_tag(),
{
    let r: Vec<u8> = vec![71u8, 65u8, 77u8];
    assert(r@ =~= gam_tag());
    r
}

/// Reads a compressed container of encoded alignments.
pub fn parse(data: &[u8]) -> (r: Result<Vec<Vec<u8>>, FramingError>)
    ensures
        match gunzip_of(data@) {
            None => r matches Err(e) && e is Io,
            Some(plain) => match read_groups(gam_tag(), plain) {
                Ok(ms) => r matches Ok(v) && views(v@) == ms,
                Err(f) => r matches Err(e) && reports(e, f, gam_tag()),
            },
        },
{
    let t = tag();
    framing::read(data, t.as_slice())
}

/// Writes encoded alignments as a compressed container.
pub fn write(alignments: &[Vec<u8>]) -> (r: Result<Vec<u8>, FramingError>)
    ensures
        r is Ok,
        r matches Ok(z) ==> z@ == gzip_of(frame_bytes(gam_tag(), views(alignments@))) && gunzip_of(
            z@,
        ) == Some(frame_bytes(gam_tag(), views(alignments@))),
{
    let t = tag();
    framing::write(alignments, t.as_slice())
}

/// A base that has a complement.
pub open spec fn is_base(c: char) -> bool {
    c == 'A' || c == 'T' || c == 'C' || c == 'G'
}

/// The complement of a base.
pub open spec fn complement_of(c: char) -> char {
    if c == 'A' {
        'T'
    } else if c == 'T' {
        'A'
    } else if c == 'C' {
        'G'
    } else {
        'C'
    }
}

/// The complement of `c`, one of `A`, `C`, `G`, `T`.
pub fn complement_char(c: char) -> (r: char)
    requires
        is_base(c),
    ensures
        r == complement_of(c),
{
    if c == 'A' {
        'T'
    } else if c == 'T' {
        'A'
    } else if c == 'C' {
        'G'
    } else {
        'C'
    }
}

/// Each base of `sequence` complemented, in the same order.
pub fn complement(sequence: String) -> (r: String)
    requires
        forall|i: int| 0 <= i < sequence@.len() ==> is_base(#[trigger] sequence@[i]),
    ensures
        r@ == sequence@.map_values(|c: char| complement_of(c)),
{
    let cs = chars_of(sequence.as_str());
    let mut out = String::new();
    let mut i: usize = 0;
    while i < cs.len()
        invariant
            i <= cs@.len(),
            cs@ == sequence@,
            forall|j: int| 0 <= j < cs@.len() ==> is_base(#[trigger] cs@[j]),
            out@ == cs@.take(i as int).map_values(|c: char| complement_of(c)),
        decreases cs@.len() - i,
    {
        out.push(complement_char(cs[i]));
        assert(cs@.take(i + 1).map_values(|c: char| complement_of(c)) =~= cs@.take(
            i as int,
        ).map_values(|c: char| complement_of(c)).push(complement_of(cs@[i as int])));
        i = i + 1;
    }
    assert(cs@.take(i as int) =~= cs@);
    out
}

/// Whether every character of `s` is a base.
fn all_bases(s: &String) -> (r: bool)
    ensures
        r == forall|i: int| 0 <= i < s@.len() ==> is_base(#[trigger] s@[i]),
{
    let cs = chars_of(s.as_str());
    let mut i: usize = 0;
    while i < cs.len()
        invariant
            i <= cs@.len(),
            cs@ == s@,
            forall|j: int| 0 <= j < i ==> is_base(#[trigger] cs@[j]),
        decreases cs@.len() - i,
    {
        let c = cs[i];
        if !(c == 'A' || c == 'T' || c == 'C' || c == 'G') {
            assert(!is_base(s@[i as int]));
            return false;
        }
        i = i + 1;
    }
    true
}

/// `n` times `N`.
fn unknown_bases(n: usize) -> (r: String)
    ensures
        r@ == Seq::new(n as nat, |i: int| 'N'),
{
    let mut out = String::new();
    let mut i: usize = 0;
    while i < n
        invariant
            i <= n,
            out@ == Seq::new(i as nat, |j: int| 'N'),
        decreases n - i,
    {
        out.push('N');
        assert(out@ =~= Seq::new((i + 1) as nat, |j: int| 'N'));
        i = i + 1;
    }
    out
}

fn node_length(graph: &Graph, node_id: i64) -> (r: Result<usize, ConversionError>)
    ensures
        match graph.node_sequence_of(node_id) {
            Some(s) => r == Ok::<usize, ConversionError>(s.len() as usize),
            None => r == Err::<usize, ConversionError>(ConversionError::NodeNotFound),
        },
{
    match graph.node_to_length(node_id) {
        Some(n) => Ok(n),
        None => Err(ConversionError::NodeNotFound),
    }
}

fn node_chars(graph: &Graph, node_id: i64, is_reverse: bool) -> (r: Result<
    Vec<char>,
    ConversionError,
>)
    ensures
        match graph.node_sequence_of(node_id) {
            Some(s) => r matches Ok(v) && v@.len() == s.len() && v@ == if is_reverse {
                s.reverse()
            } else {
                s
            },
            None => r == Err::<Vec<char>, ConversionError>(ConversionError::NodeNotFound),
        },
{
    match graph.node_to_sequence(node_id, is_reverse) {
        Some(t) => {
            let v = chars_of(t.as_str());
            Ok(v)
        },
        None => Err(ConversionError::NodeNotFound),
    }
}

/// One edit of `len` bases on both sides, with literal `lit`.
fn edit_of(from: usize, to: usize, lit: String) -> (r: Result<Edit, ConversionError>)
    ensures
        r matches Ok(e) ==> e.from_length == from && e.to_length == to && e.sequence == lit,
        r is Err ==> from > i32::MAX || to > i32::MAX,
{
    if from > 0x7fff_ffff || to > 0x7fff_ffff {
        return Err(ConversionError::Overflow);
    }
    Ok(Edit { from_length: from as i32, to_length: to as i32, sequence: lit })
}

/// Whether the tag keyed `key` is `k0 k1`.
fn key_is(key: &String, k0: char, k1: char) -> (r: bool)
    ensures
        r == (key@ == seq![k0, k1]),
{
    let cs = chars_of(key.as_str());
    if cs.len() == 2 && cs[0] == k0 && cs[1] == k1 {
        assert(cs@ =~= seq![k0, k1]);
        true
    } else {
        false
    }
}

/// The node id that a step name writes.
pub open spec fn step_node_id(value: GafRecord, i: int) -> Option<i64> {
    i64_value(value.path@[i].name@)
}

/// The node ids of all the steps of `value`, read in order.
fn step_node_ids(value: &GafRecord) -> (r: Result<Vec<i64>, ConversionError>)
    ensures
        match r {
            Ok(ids) => ids@.len() == value.path@.len() && forall|i: int|
                0 <= i < ids@.len() ==> Some(#[trigger] ids@[i]) == step_node_id(*value, i),
            Err(e) => e == ConversionError::ParseInt && exists|i: int|
                0 <= i < value.path@.len() && (#[trigger] step_node_id(*value, i)) is None,
        },
{
    let mut ids: Vec<i64> = Vec::new();
    let mut i: usize = 0;
    while i < value.path.len()
        invariant
            i <= value.path@.len(),
            ids@.len() == i,
            forall|j: int| 0 <= j < i ==> Some(#[trigger] ids@[j]) == step_node_id(*value, j),
        decreases value.path@.len() - i,
    {
        let cs = chars_of(value.path[i].name.as_str());
        assert(cs@.subrange(0, cs@.len() as int) =~= cs@);
        match parse_i64(cs.as_slice(), 0, cs.len()) {
            Some(v) => ids.push(v),
            None => {
                assert(step_node_id(*value, i as int) is None);
                return Err(ConversionError::ParseInt);
            },
        }
        i = i + 1;
    }
    Ok(ids)
}

/// The name that an alignment gets from a record: `*` stands for none.
pub open spec fn name_from_query(q: Seq<char>) -> Seq<char> {
    if q == seq!['*'] {
        Seq::empty()
    } else {
        q
    }
}

/// Every step of `value` names a node id, and where there are steps the
/// cigar tags can be read.
pub open spec fn replay_ready(value: GafRecord) -> bool {
    &&& forall|i: int| 0 <= i < value.path@.len() ==> (#[trigger] step_node_id(value, i)) is Some
    &&& (value.path@.len() > 0 ==> cigars_of(value.opt_fields@) is Some)
}

/// An operation of the cs grammar (rather than of the cg one).
pub open spec fn cs_op(c: char) -> bool {
    c == ':' || c == '+' || c == '-' || c == '*'
}

/// The path was replayed from cg operations: the reconstruction is
/// approximate.
pub open spec fn used_cg(value: GafRecord) -> bool {
    &&& value.path@.len() > 0
    &&& cigars_of(value.opt_fields@) is Some
    &&& exists|k: int|
        0 <= k < cigars_of(value.opt_fields@)->Some_0.len() && !cs_op(
            (#[trigger] cigars_of(value.opt_fields@)->Some_0[k]).cat,
        )
}

/// The pairing that the first `pd` tag gives: properly paired where its
/// value is `1`.
pub open spec fn pair_flag(value: GafRecord) -> Option<bool> {
    match tag_value(value.opt_fields@, seq!['p', 'd']) {
        Some(v) => Some(v == seq!['1']),
        None => None,
    }
}

/// What the alignment `a` converted from the record `value` holds.
pub open spec fn alignment_of_record(value: GafRecord, a: Alignment) -> bool {
    &&& (a.annotation is None <==> !used_cg(value) && pair_flag(value) is None)
    &&& (a.annotation matches Some(v) ==> {
        &&& v@.len() == (if used_cg(value) {
            1int
        } else {
            0
        }) + (if pair_flag(value) is Some {
            1int
        } else {
            0
        })
        &&& (used_cg(value) ==> v@[0].key@ == "from_cg"@ && v@[0].value == AnnotationValue::Bool(
            true,
        ))
        &&& (pair_flag(value) matches Some(b) ==> v@.last().key@ == "proper_pair"@
            && v@.last().value == AnnotationValue::Bool(b))
    })
    &&& a.name@ == name_from_query(value.query_name@)
    &&& a.mapping_quality == value.mapq
    &&& a.path matches Some(p) && p.mapping@.len() == value.path@.len() && forall|i: int|
        0 <= i < p.mapping@.len() ==> {
            let m = #[trigger] p.mapping@[i];
            &&& m.rank == i + 1
            &&& m.position matches Some(pos) && Some(pos.node_id) == step_node_id(
                value,
                i,
            ) && pos.is_reverse == value.path@[i].is_reverse && pos.offset == if i
                == 0 {
                value.path_start
            } else {
                0
            }
        }
    &&& (value.path@.len() > 0 ==> cigars_of(value.opt_fields@) is Some)
    &&& (tag_value(value.opt_fields@, seq!['A', 'S']) matches Some(t) ==> Some(a.score)
        == i32_value(t))
    &&& (tag_value(value.opt_fields@, seq!['A', 'S']) is None ==> a.score == 0)
    &&& (tag_value(value.opt_fields@, seq!['f', 'n']) matches Some(t) ==> (a.fragment_next matches Some(
        f,
    ) && f.name@ == t))
    &&& (tag_value(value.opt_fields@, seq!['f', 'n']) is None ==> a.fragment_next is None)
    &&& (tag_value(value.opt_fields@, seq!['f', 'p']) matches Some(t) ==> (a.fragment_prev matches Some(
        f,
    ) && f.name@ == t))
    &&& (tag_value(value.opt_fields@, seq!['f', 'p']) is None ==> a.fragment_prev is None)
    &&& tag_value(value.opt_fields@, seq!['b', 'q']) is None
}


/// The length of the node of step `i`.
pub open spec fn node_len_at(value: GafRecord, graph: Graph, i: int) -> int {
    graph.node_sequence_of(step_node_id(value, i)->Some_0)->Some_0.len() as int
}

/// Where consuming `left` graph bases from step `cur`, offset `off`, ends:
/// runs that reach a node's end go on at the start of the next step.
pub open spec fn consume(value: GafRecord, graph: Graph, left: nat, cur: nat, off: nat) -> Option<
    (nat, nat),
>
    decreases left, value.path@.len() - cur,
{
    if left == 0 {
        Some((cur, off))
    } else if cur >= value.path@.len() {
        None
    } else {
        let len = node_len_at(value, graph, cur as int);
        if off > len {
            None
        } else {
            let take = if left < len - off {
                left
            } else {
                (len - off) as nat
            };
            if take == left {
                Some((cur, (off + take) as nat))
            } else {
                consume(value, graph, (left - take) as nat, cur + 1, 0)
            }
        }
    }
}

/// Where one cigar operation moves the replay cursor, `None` where it
/// does not fit the path (or is an operation the replay does not take).
pub open spec fn replay_step(value: GafRecord, graph: Graph, t: CigarModel, cur: nat, off: nat) -> Option<
    (nat, nat),
> {
    let n = value.path@.len();
    let moved = if t.cat == ':' || t.cat == 'M' || t.cat == '=' || t.cat == 'X' || t.cat == '-'
        || t.cat == 'D' {
        consume(value, graph, t.length as nat, cur, off)
    } else if t.cat == '+' {
        let target = if off == 0 && cur > 0 && (cur == n || !value.path@[cur - 1].is_reverse) {
            cur - 1
        } else {
            cur as int
        };
        if target >= n || t.length > i32::MAX {
            None
        } else {
            Some((cur, off))
        }
    } else if t.cat == '*' {
        if cur >= n || off >= node_len_at(value, graph, cur as int) || t.length > i32::MAX {
            None
        } else {
            Some((cur, off + 1))
        }
    } else {
        None
    };
    match moved {
        Some((c, o)) => if c < n && o == node_len_at(value, graph, c as int) {
            Some((c + 1, 0nat))
        } else {
            Some((c, o))
        },
        None => None,
    }
}

/// The operations `toks`, replayed from step `cur`, offset `off`, all fit.
pub open spec fn replays(value: GafRecord, graph: Graph, toks: Seq<CigarModel>, cur: nat, off: nat) -> bool
    decreases toks.len(),
{
    toks.len() == 0 || match replay_step(value, graph, toks[0], cur, off) {
        Some((c, o)) => replays(value, graph, toks.drop_first(), c, o),
        None => false,
    }
}

/// Every character of `s` is a base.
pub open spec fn bases_only(s: Seq<char>) -> bool {
    forall|i: int| 0 <= i < s.len() ==> is_base(#[trigger] s[i])
}

/// A record whose path replays without fault: its steps name nodes that
/// the graph holds (of bases only, under 2^31 long), its cigar tag reads
/// and its operations fit the path from `path_start`, the literals it
/// inserts are bases, and no tag is `bq`.
pub open spec fn replay_ok(value: GafRecord, graph: Graph) -> bool {
    let n = value.path@.len();
    &&& n < 0x7fff_ffff_ffff_ffff
    &&& forall|i: int|
        0 <= i < n ==> {
            &&& (#[trigger] step_node_id(value, i)) is Some
            &&& graph.node_sequence_of(step_node_id(value, i)->Some_0) is Some
            &&& node_len_at(value, graph, i) < 0x8000_0000
            &&& bases_only(graph.node_sequence_of(step_node_id(value, i)->Some_0)->Some_0)
        }
    &&& (n > 0 ==> {
        &&& cigars_of(value.opt_fields@) is Some
        &&& 0 <= value.path_start <= node_len_at(value, graph, 0)
        &&& replays(value, graph, cigars_of(value.opt_fields@)->Some_0, 0, value.path_start as nat)
        &&& forall|k: int|
            0 <= k < cigars_of(value.opt_fields@)->Some_0.len() ==> bases_only(
                (#[trigger] cigars_of(value.opt_fields@)->Some_0[k]).query,
            )
    })
    &&& forall|t: int|
        0 <= t < value.opt_fields@.len() ==> (#[trigger] value.opt_fields@[t]).key@ != seq!['b', 'q']
}

/// Every `AS` tag of `value` holds an `i32`.
pub open spec fn scores_ok(value: GafRecord) -> bool {
    forall|t: int|
        0 <= t < value.opt_fields@.len() && (#[trigger] value.opt_fields@[t]).key@ == seq!['A', 'S']
            ==> i32_value(value.opt_fields@[t].value@) is Some
}

/// A record that converts without fault.
pub open spec fn gaf_convertible(value: GafRecord, graph: Graph) -> bool {
    replay_ok(value, graph) && scores_ok(value)
}

proof fn lemma_bases_reverse(s: Seq<char>)
    requires
        bases_only(s),
    ensures
        bases_only(s.reverse()),
{
    if s.len() > 0 {
        assert forall|i: int| 0 <= i < s.reverse().len() implies is_base(#[trigger] s.reverse()[i]) by {
            assert(s.reverse()[i] == s[s.len() - 1 - i]);
        }
    }
}

proof fn lemma_bases_concat(a: Seq<char>, b: Seq<char>)
    requires
        bases_only(a),
        bases_only(b),
    ensures
        bases_only(a + b),
{
    assert forall|i: int| 0 <= i < (a + b).len() implies is_base(#[trigger] (a + b)[i]) by {
        if i < a.len() {
            assert((a + b)[i] == a[i]);
        } else {
            assert((a + b)[i] == b[i - a.len()]);
        }
    }
}

/// The sequence of the node of step `i`, in the step's orientation.
pub open spec fn oriented_step_seq(value: GafRecord, graph: Graph, i: int) -> Seq<char> {
    let s = graph.node_sequence_of(step_node_id(value, i)->Some_0)->Some_0;
    if value.path@[i].is_reverse {
        s.reverse()
    } else {
        s
    }
}

/// The read bases of consuming `left` graph bases from step `cur`, offset
/// `off` (as `consume` moves): the graph bases themselves where `reads`.
pub open spec fn consume_read(
    value: GafRecord,
    graph: Graph,
    left: nat,
    cur: nat,
    off: nat,
    reads: bool,
) -> Seq<char>
    decreases left, value.path@.len() - cur,
{
    if left == 0 || cur >= value.path@.len() {
        Seq::empty()
    } else {
        let len = node_len_at(value, graph, cur as int);
        if off > len {
            Seq::empty()
        } else {
            let take = if left < len - off {
                left
            } else {
                (len - off) as nat
            };
            let part = if reads {
                oriented_step_seq(value, graph, cur as int).subrange(off as int, (off + take) as int)
            } else {
                Seq::empty()
            };
            if take == left {
                part
            } else {
                part + consume_read(value, graph, (left - take) as nat, cur + 1, 0, reads)
            }
        }
    }
}

proof fn lemma_consume_read_none(value: GafRecord, graph: Graph, left: nat, cur: nat, off: nat)
    ensures
        consume_read(value, graph, left, cur, off, false) == Seq::<char>::empty(),
    decreases left, value.path@.len() - cur,
{
    if left > 0 && cur < value.path@.len() {
        let len = node_len_at(value, graph, cur as int);
        if off <= len {
            let take = if left < len - off {
                left
            } else {
                (len - off) as nat
            };
            if take != left {
                lemma_consume_read_none(value, graph, (left - take) as nat, cur + 1, 0);
                assert(Seq::<char>::empty() + Seq::<char>::empty() =~= Seq::<char>::empty());
            }
        }
    }
}

/// The read bases that one operation contributes.
pub open spec fn step_read(value: GafRecord, graph: Graph, t: CigarModel, cur: nat, off: nat) -> Seq<
    char,
> {
    if t.cat == ':' || t.cat == 'M' || t.cat == '=' || t.cat == 'X' {
        consume_read(value, graph, t.length as nat, cur, off, true)
    } else if t.cat == '+' || t.cat == '*' {
        t.query
    } else {
        Seq::empty()
    }
}

/// The read that replaying `toks` from step `cur`, offset `off` rebuilds.
pub open spec fn replay_read(value: GafRecord, graph: Graph, toks: Seq<CigarModel>, cur: nat, off: nat) -> Seq<
    char,
>
    decreases toks.len(),
{
    if toks.len() == 0 {
        Seq::empty()
    } else {
        match replay_step(value, graph, toks[0], cur, off) {
            Some((c, o)) => step_read(value, graph, toks[0], cur, off) + replay_read(
                value,
                graph,
                toks.drop_first(),
                c,
                o,
            ),
            None => Seq::empty(),
        }
    }
}

/// The read that a record's operations rebuild along its path.
pub open spec fn record_read(value: GafRecord, graph: Graph) -> Seq<char> {
    if value.path@.len() > 0 {
        replay_read(value, graph, cigars_of(value.opt_fields@)->Some_0, 0, value.path_start as nat)
    } else {
        Seq::empty()
    }
}

/// An edit as its two lengths and its literal.
pub open spec fn edit_view(e: Edit) -> (int, int, Seq<char>) {
    (e.from_length as int, e.to_length as int, e.sequence@)
}

/// Placed edits as (step, edit) pairs.
pub open spec fn placed_view(ps: Seq<(usize, Edit)>) -> Seq<(int, (int, int, Seq<char>))> {
    ps.map_values(|p: (usize, Edit)| (p.0 as int, edit_view(p.1)))
}

/// The edits of consuming `left` graph bases from step `cur`, offset `off`,
/// for an operation of kind `cat`: one edit per node touched, a match
/// (`n`, `n`, no literal), a mismatch (`n`, `n`, `N`s) for `X`, or a
/// deletion (`n`, 0, no literal) for `-` and `D`.
pub open spec fn consume_edits(
    value: GafRecord,
    graph: Graph,
    left: nat,
    cur: nat,
    off: nat,
    cat: char,
) -> Seq<(int, (int, int, Seq<char>))>
    decreases left, value.path@.len() - cur,
{
    if left == 0 || cur >= value.path@.len() {
        Seq::empty()
    } else {
        let len = node_len_at(value, graph, cur as int);
        if off > len {
            Seq::empty()
        } else {
            let take = if left < len - off {
                left
            } else {
                (len - off) as nat
            };
            let e = if cat == '-' || cat == 'D' {
                (take as int, 0int, Seq::<char>::empty())
            } else if cat == 'X' {
                (take as int, take as int, Seq::new(take, |i: int| 'N'))
            } else {
                (take as int, take as int, Seq::<char>::empty())
            };
            let here = seq![(cur as int, e)];
            if take == left {
                here
            } else {
                here + consume_edits(value, graph, (left - take) as nat, cur + 1, 0, cat)
            }
        }
    }
}

/// The edits that one operation places, with the step each goes to: an
/// insertion at the start of a node after a forward step (or past the last
/// step) goes to the step before.
pub open spec fn step_edits(value: GafRecord, graph: Graph, t: CigarModel, cur: nat, off: nat) -> Seq<
    (int, (int, int, Seq<char>)),
> {
    let n = value.path@.len();
    if t.cat == ':' || t.cat == 'M' || t.cat == '=' || t.cat == 'X' || t.cat == '-' || t.cat == 'D' {
        consume_edits(value, graph, t.length as nat, cur, off, t.cat)
    } else if t.cat == '+' {
        let target = if off == 0 && cur > 0 && (cur == n || !value.path@[cur - 1].is_reverse) {
            cur - 1
        } else {
            cur as int
        };
        seq![(target, (0int, t.length as int, t.query))]
    } else if t.cat == '*' {
        seq![(cur as int, (t.length as int, t.length as int, t.query))]
    } else {
        Seq::empty()
    }
}

/// The edits that replaying `toks` from step `cur`, offset `off` places.
pub open spec fn replay_edits(value: GafRecord, graph: Graph, toks: Seq<CigarModel>, cur: nat, off: nat) -> Seq<
    (int, (int, int, Seq<char>)),
>
    decreases toks.len(),
{
    if toks.len() == 0 {
        Seq::empty()
    } else {
        match replay_step(value, graph, toks[0], cur, off) {
            Some((c, o)) => step_edits(value, graph, toks[0], cur, off) + replay_edits(
                value,
                graph,
                toks.drop_first(),
                c,
                o,
            ),
            None => Seq::empty(),
        }
    }
}

/// The edits that a record's operations place along its path.
pub open spec fn record_edits(value: GafRecord, graph: Graph) -> Seq<(int, (int, int, Seq<char>))> {
    if value.path@.len() > 0 {
        replay_edits(value, graph, cigars_of(value.opt_fields@)->Some_0, 0, value.path_start as nat)
    } else {
        Seq::empty()
    }
}

/// The edits placed at step `i`, in order.
pub open spec fn edits_at(ps: Seq<(int, (int, int, Seq<char>))>, i: int) -> Seq<(int, int, Seq<char>)>
    decreases ps.len(),
{
    if ps.len() == 0 {
        Seq::empty()
    } else if ps.last().0 == i {
        edits_at(ps.drop_last(), i).push(ps.last().1)
    } else {
        edits_at(ps.drop_last(), i)
    }
}

/// Where the replay of the operations stands: the mapping and the offset
/// on its node.
struct Cursor {
    mapping: usize,
    offset: usize,
}

impl Alignment {
    /// Rebuilds the graph alignment that a text record describes: one
    /// mapping per step, the edits and the read replayed from the cigar
    /// operations against the graph.
    #[verifier::rlimit(100)]
    pub fn convert_from_gaf(value: &GafRecord, graph: &Graph) -> (r: Result<
        Alignment,
        ConversionError,
    >)
        ensures
            (exists|i: int| 0 <= i < value.path@.len() && (#[trigger] step_node_id(*value, i)) is None)
                ==> r == Err::<Alignment, ConversionError>(ConversionError::ParseInt),
            r matches Ok(a) ==> alignment_of_record(*value, a),
            gaf_convertible(*value, *graph) ==> r is Ok,
            gaf_convertible(*value, *graph) ==> (r matches Ok(a) && forall|i: int|
                0 <= i < value.path@.len() ==> (#[trigger] a.path->Some_0.mapping@[i]).edit@.map_values(
                    |e: Edit| edit_view(e),
                ) == edits_at(record_edits(*value, *graph), i)),
            gaf_convertible(*value, *graph) ==> (r matches Ok(a) && a.sequence@ == record_read(
                *value,
                *graph,
            ).map_values(|c: char| complement_of(c))),
            replay_ok(*value, *graph) && !scores_ok(*value) ==> r == Err::<Alignment, ConversionError>(
                ConversionError::ParseInt,
            ),
    {
        let ids = step_node_ids(value)?;
        let n = value.path.len();
        assert(forall|i: int| 0 <= i < n ==> (#[trigger] step_node_id(*value, i)) is Some) by {
            assert forall|i: int| 0 <= i < n implies (#[trigger] step_node_id(*value, i)) is Some by {
                assert(Some(ids@[i]) == step_node_id(*value, i));
            }
        }
        let mut placed: Vec<(usize, Edit)> = Vec::new();
        let mut read = String::new();
        let mut from_cg = false;
        if n > 0 {
            let cigars: Vec<Cigar> = match value.iter_cigar() {
                Ok(c) => c,
                Err(_) => return Err(ConversionError::InvalidCigar),
            };
            if value.path_start < 0 || value.path_start as i128 > usize::MAX as i128 {
                return Err(ConversionError::PathMismatch);
            }
            assert(replay_ready(*value));
            let ghost toks = cigar_views(cigars@);
            let mut cur = Cursor { mapping: 0, offset: value.path_start as usize };
            let mut k: usize = 0;
            assert(toks.skip(0) =~= toks);
            while k < cigars.len()
                invariant
                    replay_ready(*value),
                    toks == cigar_views(cigars@),
                    k <= cigars@.len(),
                    forall|j: int| 0 <= j < ids@.len() ==> Some(#[trigger] ids@[j]) == step_node_id(*value, j),
                    replay_ok(*value, *graph) ==> {
                        &&& toks == cigars_of(value.opt_fields@)->Some_0
                        &&& replays(*value, *graph, toks.skip(k as int), cur.mapping as nat, cur.offset as nat)
                        &&& bases_only(read@)
                        &&& record_read(*value, *graph) == read@ + replay_read(
                            *value,
                            *graph,
                            toks.skip(k as int),
                            cur.mapping as nat,
                            cur.offset as nat,
                        )
                        &&& record_edits(*value, *graph) == placed_view(placed@) + replay_edits(
                            *value,
                            *graph,
                            toks.skip(k as int),
                            cur.mapping as nat,
                            cur.offset as nat,
                        )
                    },
                    toks == cigars_of(value.opt_fields@)->Some_0,
                    from_cg == exists|j: int| 0 <= j < k && !cs_op(#[trigger] toks[j].cat),
                    n == value.path@.len(),
                    n == ids@.len(),
                    n > 0,
                    cur.mapping <= n,
                    forall|j: int| 0 <= j < placed@.len() ==> (#[trigger] placed@[j]).0 < n,
                decreases cigars@.len() - k,
            {
                let c = &cigars[k];
                let cat = c.cat;
                let ghost c0 = cur.mapping as nat;
                let ghost o0 = cur.offset as nat;
                assert(toks[k as int] == c@);
                assert(toks.skip(k as int)[0] == toks[k as int]);
                assert(toks.skip(k as int).drop_first() =~= toks.skip(k + 1));
                let ghost read0 = read@;
                let ghost part = step_read(*value, *graph, toks[k as int], c0, o0);
                let ghost placed0 = placed_view(placed@);
                let ghost epart = step_edits(*value, *graph, toks[k as int], c0, o0);
                if cat != ':' && cat != '+' && cat != '-' && cat != '*' {
                    from_cg = true;
                }
                proof {
                    assert(toks[k as int].cat == cat);
                    if !cs_op(cat) {
                        assert(!cs_op(toks[k as int].cat));
                    } else if exists|j: int| 0 <= j < k + 1 && !cs_op(#[trigger] toks[j].cat) {
                        let j = choose|j: int| 0 <= j < k + 1 && !cs_op(#[trigger] toks[j].cat);
                        assert(j < k);
                    }
                }
                assert(from_cg == exists|j: int| 0 <= j < k + 1 && !cs_op(#[trigger] toks[j].cat));
                if cat == ':' || cat == 'M' || cat == '=' || cat == 'X' || cat == '-' || cat == 'D' {
                    let consumes_read = !(cat == '-' || cat == 'D');
                    let mut left: usize = c.length;
                    while left > 0
                        invariant
                            consumes_read == !(cat == '-' || cat == 'D'),
                            cat == c.cat,
                            replay_ready(*value),
                            forall|j: int| 0 <= j < ids@.len() ==> Some(#[trigger] ids@[j]) == step_node_id(*value, j),
                            replay_ok(*value, *graph) ==> {
                                &&& toks == cigars_of(value.opt_fields@)->Some_0
                                &&& consume(*value, *graph, left as nat, cur.mapping as nat, cur.offset as nat)
                                    == consume(*value, *graph, c.length as nat, c0, o0)
                                &&& consume(*value, *graph, c.length as nat, c0, o0) is Some
                                &&& bases_only(read@)
                                &&& read@ + consume_read(
                                    *value,
                                    *graph,
                                    left as nat,
                                    cur.mapping as nat,
                                    cur.offset as nat,
                                    consumes_read,
                                ) == read0 + consume_read(
                                    *value,
                                    *graph,
                                    c.length as nat,
                                    c0,
                                    o0,
                                    consumes_read,
                                )
                                &&& placed_view(placed@) + consume_edits(
                                    *value,
                                    *graph,
                                    left as nat,
                                    cur.mapping as nat,
                                    cur.offset as nat,
                                    cat,
                                ) == placed0 + consume_edits(*value, *graph, c.length as nat, c0, o0, cat)
                                &&& bases_only(c.query@)
                            },
                            n == value.path@.len(),
                            n == ids@.len(),
                            cur.mapping <= n,
                            forall|j: int| 0 <= j < placed@.len() ==> (#[trigger] placed@[j]).0 < n,
                        decreases left, n - cur.mapping,
                    {
                        if cur.mapping >= n {
                            return Err(ConversionError::PathMismatch);
                        }
                        let id = ids[cur.mapping];
                        let is_reverse = value.path[cur.mapping].is_reverse;
                        proof {
                            assert(Some(ids@[cur.mapping as int]) == step_node_id(*value, cur.mapping as int));
                        }
                        let seq = node_chars(graph, id, is_reverse)?;
                        proof {
                            if replay_ok(*value, *graph) {
                                let sq = graph.node_sequence_of(id)->Some_0;
                                lemma_bases_reverse(sq);
                                assert(bases_only(seq@));
                            }
                        }
                        if cur.offset > seq.len() {
                            return Err(ConversionError::PathMismatch);
                        }
                        let avail = seq.len() - cur.offset;
                        let take = if left < avail {
                            left
                        } else {
                            avail
                        };
                        let lit = if consumes_read && cat == 'X' {
                            unknown_bases(take)
                        } else {
                            String::new()
                        };
                        let ghost litv = lit@;
                        assert(cat == 'X' ==> litv =~= Seq::new(take as nat, |i: int| 'N'));
                        assert(cat != 'X' ==> litv =~= Seq::<char>::empty());
                        let edit = if consumes_read {
                            let ghost before = read@;
                            push_chars(&mut read, seq.as_slice(), cur.offset, cur.offset + take);
                            proof {
                                if replay_ok(*value, *graph) {
                                    assert(bases_only(seq@.subrange(cur.offset as int, cur.offset + take)))
                                        by {
                                        assert forall|i: int|
                                            0 <= i < take implies is_base(
                                            #[trigger] seq@.subrange(cur.offset as int, cur.offset + take)[i],
                                        ) by {
                                            assert(seq@.subrange(cur.offset as int, cur.offset + take)[i]
                                                == seq@[cur.offset + i]);
                                        }
                                    }
                                    lemma_bases_concat(before, seq@.subrange(cur.offset as int, cur.offset + take));
                                }
                            }
                            edit_of(take, take, lit)?
                        } else {
                            edit_of(take, 0, lit)?
                        };
                        let ghost old = placed@;
                        let ghost ed = edit;
                        let ghost pv = placed_view(placed@);
                        let ghost ev = edit_view(edit);
                        placed.push((cur.mapping, edit));
                        assert(placed@ == old.push((cur.mapping, ed)));
                        assert(placed_view(placed@)[pv.len() as int] == (cur.mapping as int, ev));
                        assert(placed_view(placed@) =~= pv.push((cur.mapping as int, ev)));
                        assert(ev.2 == litv);
                        left = left - take;
                        cur.offset = cur.offset + take;
                        if left > 0 {
                            cur.mapping = cur.mapping + 1;
                            cur.offset = 0;
                        }
                    }
                } else if cat == '+' || cat == 'I' || cat == 'S' {
                    let mut target = cur.mapping;
                    if cur.offset == 0 && cur.mapping > 0 && (cur.mapping == n
                        || !value.path[cur.mapping - 1].is_reverse) {
                        // an insertion at the start of a node belongs to the end of the
                        // step before it
                        target = cur.mapping - 1;
                    }
                    if target >= n {
                        return Err(ConversionError::PathMismatch);
                    }
                    let lit = if cat == '+' {
                        c.query.clone()
                    } else {
                        unknown_bases(c.length)
                    };
                    let ghost before = read@;
                    read.append(lit.as_str());
                    proof {
                        if replay_ok(*value, *graph) {
                            assert(bases_only(toks[k as int].query));
                            lemma_bases_concat(before, lit@);
                        }
                    }
                    let edit = edit_of(0, c.length, lit)?;
                    let ghost old = placed@;
                    let ghost ed = edit;
                    let ghost pv = placed_view(placed@);
                    let ghost ev = edit_view(edit);
                    placed.push((target, edit));
                    assert(placed@ == old.push((target, ed)));
                    assert(placed_view(placed@)[pv.len() as int] == (target as int, ev));
                    assert(placed_view(placed@) =~= pv.push((target as int, ev)));
                } else if cat == '*' {
                    if cur.mapping >= n {
                        return Err(ConversionError::PathMismatch);
                    }
                    let ghost before = read@;
                    read.append(c.query.as_str());
                    proof {
                        if replay_ok(*value, *graph) {
                            assert(bases_only(toks[k as int].query));
                            lemma_bases_concat(before, c.query@);
                        }
                    }
                    let edit = edit_of(c.length, c.length, c.query.clone())?;
                    let ghost old = placed@;
                    let ghost ed = edit;
                    let ghost pv = placed_view(placed@);
                    let ghost ev = edit_view(edit);
                    placed.push((cur.mapping, edit));
                    assert(placed@ == old.push((cur.mapping, ed)));
                    assert(placed_view(placed@)[pv.len() as int] == (cur.mapping as int, ev));
                    assert(placed_view(placed@) =~= pv.push((cur.mapping as int, ev)));
                    if cur.offset == usize::MAX {
                        return Err(ConversionError::Overflow);
                    }
                    cur.offset = cur.offset + 1;
                } else {
                    return Err(ConversionError::InvalidCigar);
                }
                proof {
                    if replay_ok(*value, *graph) {
                        if cat == '-' || cat == 'D' {
                            lemma_consume_read_none(*value, *graph, c.length as nat, c0, o0);
                        }
                        assert(read@ =~= read0 + part);
                        assert(placed_view(placed@) =~= placed0 + epart);
                    }
                }
                if cur.mapping < n {
                    proof {
                        assert(Some(ids@[cur.mapping as int]) == step_node_id(*value, cur.mapping as int));
                    }
                    let len = node_length(graph, ids[cur.mapping])?;
                    if cur.offset == len {
                        cur.mapping = cur.mapping + 1;
                        cur.offset = 0;
                    }
                }
                proof {
                    if replay_ok(*value, *graph) {
                        assert(placed0 + replay_edits(*value, *graph, toks.skip(k as int), c0, o0)
                            =~= placed_view(placed@) + replay_edits(
                            *value,
                            *graph,
                            toks.skip(k + 1),
                            cur.mapping as nat,
                            cur.offset as nat,
                        ));
                        assert(read0 + replay_read(*value, *graph, toks.skip(k as int), c0, o0) =~= read@
                            + replay_read(
                            *value,
                            *graph,
                            toks.skip(k + 1),
                            cur.mapping as nat,
                            cur.offset as nat,
                        ));
                    }
                }
                k = k + 1;
            }
            assert(toks.skip(k as int) =~= Seq::<CigarModel>::empty());
        }
        assert(replay_ready(*value));
        let mut mappings: Vec<Mapping> = Vec::new();
        let mut i: usize = 0;
        while i < n
            invariant
                replay_ready(*value),
                forall|j: int| 0 <= j < ids@.len() ==> Some(#[trigger] ids@[j]) == step_node_id(*value, j),
                n == value.path@.len(),
                n == ids@.len(),
                i <= n,
                mappings@.len() == i,
                forall|j: int|
                    0 <= j < i ==> (#[trigger] mappings@[j]).edit@.map_values(|e: Edit| edit_view(e))
                        == edits_at(placed_view(placed@), j),
                forall|j: int|
                    0 <= j < i ==> {
                        let m = #[trigger] mappings@[j];
                        &&& m.rank == j + 1
                        &&& m.position matches Some(pos) && pos.node_id == ids@[j]
                            && pos.is_reverse == value.path@[j].is_reverse && pos.offset == if j
                            == 0 {
                            value.path_start
                        } else {
                            0
                        }
                    },
            decreases n - i,
        {
            if i as u128 >= 0x7fff_ffff_ffff_ffff {
                return Err(ConversionError::Overflow);
            }
            let mut edits: Vec<Edit> = Vec::new();
            let mut j: usize = 0;
            assert(placed_view(placed@).take(0) =~= Seq::<(int, (int, int, Seq<char>))>::empty());
            assert(edits@.map_values(|e: Edit| edit_view(e)) =~= Seq::<(int, int, Seq<char>)>::empty());
            while j < placed.len()
                invariant
                    j <= placed@.len(),
                    edits@.map_values(|e: Edit| edit_view(e)) == edits_at(
                        placed_view(placed@).take(j as int),
                        i as int,
                    ),
                decreases placed@.len() - j,
            {
                let ghost before = edits@.map_values(|e: Edit| edit_view(e));
                assert(placed_view(placed@).take(j + 1).drop_last() =~= placed_view(placed@).take(
                    j as int,
                ));
                assert(placed_view(placed@).take(j + 1).last() == (placed@[j as int].0 as int,
                    edit_view(placed@[j as int].1)));
                if placed[j].0 == i {
                    let e = &placed[j].1;
                    let copy = Edit {
                        from_length: e.from_length,
                        to_length: e.to_length,
                        sequence: e.sequence.clone(),
                    };
                    edits.push(copy);
                    assert(edits@.map_values(|e: Edit| edit_view(e)) =~= before.push(edit_view(*e)));
                }
                j = j + 1;
            }
            assert(placed_view(placed@).take(j as int) =~= placed_view(placed@));
            let offset: i64 = if i == 0 {
                value.path_start
            } else {
                0
            };
            let position = Position {
                node_id: ids[i],
                offset,
                is_reverse: value.path[i].is_reverse,
                name: String::new(),
            };
            mappings.push(Mapping { position: Some(position), edit: edits, rank: i as i64 + 1 });
            i = i + 1;
        }
        if !all_bases(&read) {
            return Err(ConversionError::InvalidBase);
        }
        let sequence = complement(read);
        let mut annotation: Vec<Annotation> = Vec::new();
        if from_cg {
            annotation.push(
                Annotation { key: String::from_str("from_cg"), value: AnnotationValue::Bool(true) },
            );
        }
        let name = if value.query_name.as_str().unicode_len() == 1 && value.query_name.as_str().get_char(0)
            == '*' {
            proof {
                assert(value.query_name@ =~= seq!['*']);
            }
            String::new()
        } else {
            value.query_name.clone()
        };
        let mut score: i32 = 0;
        let mut fragment_prev: Option<Fragment> = None;
        let mut fragment_next: Option<Fragment> = None;
        let mut proper_pair: Option<bool> = None;
        let ghost fs = value.opt_fields@;
        let mut t: usize = value.opt_fields.len();
        assert(fs.skip(t as int) =~= Seq::<crate::gaf::OptField>::empty());
        while t > 0
            invariant
                replay_ready(*value),
                t <= fs.len(),
                fs == value.opt_fields@,
                match tag_value(fs.skip(t as int), seq!['A', 'S']) {
                    Some(v) => Some(score) == i32_value(v),
                    None => score == 0,
                },
                match tag_value(fs.skip(t as int), seq!['f', 'n']) {
                    Some(v) => fragment_next matches Some(f) && f.name@ == v,
                    None => fragment_next is None,
                },
                match tag_value(fs.skip(t as int), seq!['f', 'p']) {
                    Some(v) => fragment_prev matches Some(f) && f.name@ == v,
                    None => fragment_prev is None,
                },
                tag_value(fs.skip(t as int), seq!['b', 'q']) is None,
                match tag_value(fs.skip(t as int), seq!['p', 'd']) {
                    Some(v) => proper_pair == Some(v == seq!['1']),
                    None => proper_pair is None,
                },
                forall|q: int|
                    t <= q < fs.len() && (#[trigger] fs[q]).key@ == seq!['A', 'S'] ==> i32_value(
                        fs[q].value@,
                    ) is Some,
            decreases t,
        {
            t = t - 1;
            assert(fs.skip(t as int).drop_first() =~= fs.skip(t + 1));
            assert(fs.skip(t as int)[0] == fs[t as int]);
            let f = &value.opt_fields[t];
            if key_is(&f.key, 'A', 'S') {
                let cs = chars_of(f.value.as_str());
                assert(cs@.subrange(0, cs@.len() as int) =~= cs@);
                match parse_i32(cs.as_slice(), 0, cs.len()) {
                    Some(v) => {
                        score = v;
                    },
                    None => return Err(ConversionError::ParseInt),
                }
            } else if key_is(&f.key, 'b', 'q') {
                return Err(ConversionError::UnsupportedTag);
            } else if key_is(&f.key, 'f', 'p') {
                fragment_prev = Some(Fragment::named(f.value.clone()));
            } else if key_is(&f.key, 'f', 'n') {
                fragment_next = Some(Fragment::named(f.value.clone()));
            } else if key_is(&f.key, 'p', 'd') {
                let cs = chars_of(f.value.as_str());
                proper_pair = Some(cs.len() == 1 && cs[0] == '1');
                proof {
                    if cs@.len() == 1 && cs@[0] == '1' {
                        assert(cs@ =~= seq!['1']);
                    }
                }
            }
        }
        assert(fs.skip(0) =~= fs);
        if let Some(b) = proper_pair {
            annotation.push(
                Annotation { key: String::from_str("proper_pair"), value: AnnotationValue::Bool(b) },
            );
        }
        let has_annotation = annotation.len() > 0;
        let alignment = Alignment {
            sequence,
            quality: Vec::new(),
            name,
            sample_name: String::new(),
            read_group: String::new(),
            path: Some(Path { name: String::new(), mapping: mappings, is_circular: false, length: 0 }),
            mapping_quality: value.mapq,
            score,
            fragment_prev,
            fragment_next,
            annotation: if has_annotation {
                Some(annotation)
            } else {
                None
            },
        };
        Ok(alignment)
    }
}

} // verus!
