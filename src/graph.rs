//! Read-only access to the nodes of a sequence graph.
use crate::text::chars_of;
use vstd::prelude::*;

verus! {

/// One node of the graph: its id and its forward sequence.
#[derive(Debug, Clone, PartialEq, Eq)]
pub struct Segment {
    pub name: usize,
    pub sequence: String,
}

/// The nodes of a sequence graph, as loaded from a GFA file.
#[derive(Debug, Clone, PartialEq, Eq)]
pub struct Graph {
    pub segments: Vec<Segment>,
}

/// The sequence of the first segment named `id`.
pub open spec fn segment_sequence(segs: Seq<Segment>, id: int) -> Option<Seq<char>>
    decreases segs.len(),
{
    if segs.len() == 0 {
        None
    } else if segs[0].name as int == id {
        Some(segs[0].sequence@)
    } else {
        segment_sequence(segs.drop_first(), id)
    }
}

/// Node lookups: lengths and sequences, forward or reversed.
pub trait GFAExt {
    /// The forward sequence of node `node_id`, if the graph has it.
    spec fn node_sequence_of(&self, node_id: i64) -> Option<Seq<char>>;

    /// The length of node `node_id`.
    fn node_to_length(&self, node_id: i64) -> (r: Option<usize>)
        ensures
            match self.node_sequence_of(node_id) {
                Some(s) => r == Some(s.len() as usize),
                None => r is None,
            },
    ;

    /// The sequence of node `node_id`, reversed (not complemented) where
    /// `is_reverse` is set.
    fn node_to_sequence(&self, node_id: i64, is_reverse: bool) -> (r: Option<String>)
        ensures
            match self.node_sequence_of(node_id) {
                Some(s) => r matches Some(t) && t@ == if is_reverse {
                    s.reverse()
                } else {
                    s
                },
                None => r is None,
            },
    ;
}

impl Graph {
    /// The index of the first segment named `node_id`.
    fn find(&self, node_id: i64) -> (r: Option<usize>)
        ensures
            match segment_sequence(self.segments@, node_id as int) {
                Some(s) => r matches Some(i) && i < self.segments@.len()
                    && self.segments@[i as int].sequence@ == s,
                None => r is None,
            },
    {
        let mut i: usize = 0;
        assert(self.segments@.skip(0) =~= self.segments@);
        while i < self.segments.len()
            invariant
                i <= self.segments@.len(),
                segment_sequence(self.segments@, node_id as int) == segment_sequence(
                    self.segments@.skip(i as int),
                    node_id as int,
                ),
            decreases self.segments@.len() - i,
        {
            assert(self.segments@.skip(i as int).drop_first() =~= self.segments@.skip(i + 1));
            assert(self.segments@.skip(i as int)[0] == self.segments@[i as int]);
            if node_id >= 0 && self.segments[i].name as i128 == node_id as i128 {
                return Some(i);
            }
            i = i + 1;
        }
        None
    }
}

impl GFAExt for Graph {
    open spec fn node_sequence_of(&self, node_id: i64) -> Option<Seq<char>> {
        segment_sequence(self.segments@, node_id as int)
    }

    fn node_to_length(&self, node_id: i64) -> (r: Option<usize>) {
        match self.find(node_id) {
            Some(i) => Some(self.segments[i].sequence.as_str().unicode_len()),
            None => None,
        }
    }

    fn node_to_sequence(&self, node_id: i64, is_reverse: bool) -> (r: Option<String>) {
        let i = match self.find(node_id) {
            Some(i) => i,
            None => return None,
        };
        let s = &self.segments[i].sequence;
        if !is_reverse {
            return Some(s.clone());
        }
        let cs = chars_of(s.as_str());
        let mut out = String::new();
        let mut k: usize = cs.len();
        while k > 0
            invariant
                k <= cs@.len(),
                cs@ == s@,
                out@ == cs@.subrange(k as int, cs@.len() as int).reverse(),
            decreases k,
        {
            k = k - 1;
            out.push(cs[k]);
            assert(cs@.subrange(k as int, cs@.len() as int).reverse() =~= cs@.subrange(
                k + 1,
                cs@.len() as int,
            ).reverse().push(cs@[k as int]));
        }
        assert(cs@.subrange(0, cs@.len() as int) =~= cs@);
        Some(out)
    }
}

} // verus!
