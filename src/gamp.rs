//! Multipath alignments: their container, and the lift to and from a
//! single-path alignment.
use crate::framing::{self, frame_bytes, gunzip_of, gzip_of, read_groups, reports, views, FramingError};
use crate::vg::{Alignment, MultipathAlignment, Subpath};
use vstd::prelude::*;

verus! {

/// The type tag of a container of multipath alignments: `MGAM`.
pub open spec fn mgam_tag() -> Seq<u8> {
    seq![77u8, 71u8, 65u8, 77u8]
}

fn tag() -> (r: Vec<u8>)
    ensures
        r@ == mgam_tag(),
{
    let r: Vec<u8> = vec![77u8, 71u8, 65u8, 77u8];
    assert(r@ =~= mgam_tag());
    r
}

/// Reads a compressed container of encoded multipath alignments.
pub fn parse(data: &[u8]) -> (r: Result<Vec<Vec<u8>>, FramingError>)
    ensures
        match gunzip_of(data@) {
            None => r matches Err(e) && e is Io,
            Some(plain) => match read_groups(mgam_tag(), plain) {
                Ok(ms) => r matches Ok(v) && views(v@) == ms,
                Err(f) => r matches Err(e) && reports(e, f, mgam_tag()),
            },
        },
{
    let t = tag();
    framing::read(data, t.as_slice())
}

/// Writes encoded multipath alignments as a compressed container.
pub fn write(alignments: &[Vec<u8>]) -> (r: Result<Vec<u8>, FramingError>)
    ensures
        r is Ok,
        r matches Ok(z) ==> z@ == gzip_of(frame_bytes(mgam_tag(), views(alignments@)))
            && gunzip_of(z@) == Some(frame_bytes(mgam_tag(), views(alignments@))),
{
    let t = tag();
    framing::write(alignments, t.as_slice())
}

/// The index of the highest-scoring subpath; of equal scores, the last.
pub open spec fn best_subpath(subs: Seq<Subpath>) -> int
    decreases subs.len(),
{
    if subs.len() <= 1 {
        0
    } else {
        let b = best_subpath(subs.drop_last());
        if subs.last().score >= subs[b].score {
            subs.len() - 1
        } else {
            b
        }
    }
}

proof fn lemma_best_subpath(subs: Seq<Subpath>)
    requires
        subs.len() > 0,
    ensures
        0 <= best_subpath(subs) < subs.len(),
        forall|i: int| 0 <= i < subs.len() ==> (#[trigger] subs[i]).score <= subs[best_subpath(subs)].score,
    decreases subs.len(),
{
    if subs.len() > 1 {
        lemma_best_subpath(subs.drop_last());
        assert forall|i: int| 0 <= i < subs.len() - 1 implies subs[i] == subs.drop_last()[i] by {}
    }
}

fn best_index(subs: &Vec<Subpath>) -> (r: usize)
    requires
        subs@.len() > 0,
    ensures
        r == best_subpath(subs@),
{
    let mut best: usize = 0;
    let mut i: usize = 1;
    assert(subs@.take(1).len() == 1);
    while i < subs.len()
        invariant
            1 <= i <= subs@.len(),
            best == best_subpath(subs@.take(i as int)),
            best < i,
        decreases subs@.len() - i,
    {
        proof {
            assert(subs@.take(i + 1).drop_last() =~= subs@.take(i as int));
            assert(subs@.take(i + 1)[best as int] == subs@[best as int]);
        }
        if subs[i].score >= subs[best].score {
            best = i;
        }
        i = i + 1;
    }
    assert(subs@.take(i as int) =~= subs@);
    best
}

/// `m` holds `a`'s read and `a`'s path as its one subpath, with no
/// connections.
pub open spec fn lifted(a: Alignment, m: MultipathAlignment) -> bool {
    &&& m.sequence == a.sequence
    &&& m.quality == a.quality
    &&& m.name == a.name
    &&& m.sample_name == a.sample_name
    &&& m.read_group == a.read_group
    &&& m.mapping_quality == a.mapping_quality
    &&& m.annotation == a.annotation
    &&& m.subpath@.len() == 1
    &&& m.subpath@[0].path == a.path
    &&& m.subpath@[0].score == a.score
    &&& m.subpath@[0].next@.len() == 0
    &&& m.subpath@[0].connection@.len() == 0
    &&& m.start@.len() == 0
}

/// Lowering a lifted alignment gives back everything but its fragment
/// links: `lowered(m)` is `a` with no fragments.
pub proof fn lemma_lower_after_lift(a: Alignment, m: MultipathAlignment)
    requires
        lifted(a, m),
    ensures
        lowered(m) == (Alignment { fragment_prev: None, fragment_next: None, ..a }),
{
    assert(best_subpath(m.subpath@) == 0);
}

/// The multipath alignment holding `value`'s path as its one subpath,
/// with no connections.
pub fn multipath_of(value: Alignment) -> (r: MultipathAlignment)
    ensures
        lifted(value, r),
        r.sequence == value.sequence,
        r.quality == value.quality,
        r.name == value.name,
        r.sample_name == value.sample_name,
        r.read_group == value.read_group,
        r.mapping_quality == value.mapping_quality,
        r.annotation == value.annotation,
        r.subpath@.len() == 1,
        r.subpath@[0].path == value.path,
        r.subpath@[0].score == value.score,
        r.subpath@[0].next@.len() == 0,
        r.subpath@[0].connection@.len() == 0,
        r.start@.len() == 0,
{
    let sub = Subpath { path: value.path, next: Vec::new(), score: value.score, connection: Vec::new() };
    let mut subpath = Vec::new();
    subpath.push(sub);
    MultipathAlignment {
        sequence: value.sequence,
        quality: value.quality,
        name: value.name,
        sample_name: value.sample_name,
        read_group: value.read_group,
        subpath,
        mapping_quality: value.mapping_quality,
        start: Vec::new(),
        annotation: value.annotation,
    }
}

/// The single-path alignment along the highest-scoring subpath of `v`.
pub open spec fn lowered(v: MultipathAlignment) -> Alignment {
    Alignment {
        sequence: v.sequence,
        quality: v.quality,
        name: v.name,
        sample_name: v.sample_name,
        read_group: v.read_group,
        path: if v.subpath@.len() > 0 {
            v.subpath@[best_subpath(v.subpath@)].path
        } else {
            None
        },
        mapping_quality: v.mapping_quality,
        score: if v.subpath@.len() > 0 {
            v.subpath@[best_subpath(v.subpath@)].score
        } else {
            0
        },
        fragment_prev: None,
        fragment_next: None,
        annotation: v.annotation,
    }
}

/// The single-path alignment along the highest-scoring subpath of
/// `value` (the last of equal ones); the other subpaths and all
/// connections are dropped.
pub fn single_of(value: MultipathAlignment) -> (r: Alignment)
    ensures
        r.sequence == value.sequence,
        r.quality == value.quality,
        r.name == value.name,
        r.sample_name == value.sample_name,
        r.read_group == value.read_group,
        r.mapping_quality == value.mapping_quality,
        r.annotation == value.annotation,
        r.fragment_prev is None,
        r.fragment_next is None,
        r == lowered(value),
        value.subpath@.len() == 0 ==> r.path is None && r.score == 0,
        value.subpath@.len() > 0 ==> {
            let b = value.subpath@[best_subpath(value.subpath@)];
            &&& r.path == b.path
            &&& r.score == b.score
            &&& forall|i: int| 0 <= i < value.subpath@.len() ==> (#[trigger] value.subpath@[i]).score <= r.score
        },
{
    let mut subs = value.subpath;
    let (path, score) = if subs.len() > 0 {
        let b = best_index(&subs);
        proof {
            lemma_best_subpath(subs@);
        }
        let s = subs.remove(b);
        (s.path, s.score)
    } else {
        (None, 0)
    };
    Alignment {
        sequence: value.sequence,
        quality: value.quality,
        name: value.name,
        sample_name: value.sample_name,
        read_group: value.read_group,
        path,
        mapping_quality: value.mapping_quality,
        score,
        fragment_prev: None,
        fragment_next: None,
        annotation: value.annotation,
    }
}

/// The contract of this conversion is that of `multipath_of`: a spec
/// function cannot build the one-element subpath vector that the result
/// holds, so `from_spec` stays unstated here.
impl From<Alignment> for MultipathAlignment {
    /// See `multipath_of`.
    fn from(value: Alignment) -> MultipathAlignment {
        multipath_of(value)
    }
}

impl vstd::std_specs::convert::FromSpecImpl<Alignment> for MultipathAlignment {
    open spec fn obeys_from_spec() -> bool {
        false
    }

    open spec fn from_spec(v: Alignment) -> MultipathAlignment {
        arbitrary()
    }
}

impl From<MultipathAlignment> for Alignment {
    /// `lowered(value)`; see `single_of`.
    fn from(value: MultipathAlignment) -> Alignment {
        single_of(value)
    }
}

impl vstd::std_specs::convert::FromSpecImpl<MultipathAlignment> for Alignment {
    open spec fn obeys_from_spec() -> bool {
        true
    }

    open spec fn from_spec(v: MultipathAlignment) -> Alignment {
        lowered(v)
    }
}

} // verus!
