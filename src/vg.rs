//! The graph-alignment data model: alignments, paths of mappings, edits.
use vstd::prelude::*;

verus! {

/// A position on one node of the graph.
#[derive(Debug, Clone, PartialEq, Eq)]
pub struct Position {
    pub node_id: i64,
    pub offset: i64,
    pub is_reverse: bool,
    pub name: String,
}

/// One edit operation: `from_length` graph bases become `to_length` read bases.
#[derive(Debug, Clone, PartialEq, Eq)]
pub struct Edit {
    pub from_length: i32,
    pub to_length: i32,
    pub sequence: String,
}

/// The placement of part of a read on one node.
#[derive(Debug, Clone, PartialEq, Eq)]
pub struct Mapping {
    pub position: Option<Position>,
    pub edit: Vec<Edit>,
    pub rank: i64,
}

/// A walk through the graph.
#[derive(Debug, Clone, PartialEq, Eq)]
pub struct Path {
    pub name: String,
    pub mapping: Vec<Mapping>,
    pub is_circular: bool,
    pub length: i64,
}

/// The value of one annotation entry.  Only the kinds that the conversions
/// read are told apart; every other kind is carried as `Other`.
#[derive(Debug, Clone, PartialEq, Eq)]
pub enum AnnotationValue {
    Bool(bool),
    Text(String),
    Other,
}

/// One entry of an alignment's annotation map.
#[derive(Debug, Clone, PartialEq, Eq)]
pub struct Annotation {
    pub key: String,
    pub value: AnnotationValue,
}

/// A read aligned to one path of the graph.
#[derive(Debug, Clone, PartialEq, Eq)]
pub struct Alignment {
    pub sequence: String,
    pub quality: Vec<u8>,
    pub name: String,
    pub sample_name: String,
    pub read_group: String,
    pub path: Option<Path>,
    pub mapping_quality: i32,
    pub score: i32,
    pub fragment_prev: Option<Fragment>,
    pub fragment_next: Option<Fragment>,
    pub annotation: Option<Vec<Annotation>>,
}

/// The mate of an alignment, linked from it.  A fragment carries no links
/// of its own, so the nesting is one level deep.
#[derive(Debug, Clone, PartialEq, Eq)]
pub struct Fragment {
    pub sequence: String,
    pub quality: Vec<u8>,
    pub name: String,
    pub path: Option<Path>,
    pub mapping_quality: i32,
    pub score: i32,
}

/// A scored link from one subpath to another.
#[derive(Debug, Clone, PartialEq, Eq)]
pub struct Connection {
    pub next: u32,
    pub score: i32,
}

/// One candidate partial alignment of a multipath alignment.
#[derive(Debug, Clone, PartialEq, Eq)]
pub struct Subpath {
    pub path: Option<Path>,
    pub next: Vec<u32>,
    pub score: i32,
    pub connection: Vec<Connection>,
}

/// A read aligned to a DAG of subpaths.
#[derive(Debug, Clone, PartialEq, Eq)]
pub struct MultipathAlignment {
    pub sequence: String,
    pub quality: Vec<u8>,
    pub name: String,
    pub sample_name: String,
    pub read_group: String,
    pub subpath: Vec<Subpath>,
    pub mapping_quality: i32,
    pub start: Vec<u32>,
    pub annotation: Option<Vec<Annotation>>,
}

impl Fragment {
    /// A fragment that carries a name and nothing else.
    pub fn named(name: String) -> (r: Fragment)
        ensures
            r.name == name,
            r.sequence@.len() == 0,
            r.quality@.len() == 0,
            r.path is None,
    {
        Fragment {
            sequence: String::new(),
            quality: Vec::new(),
            name,
            path: None,
            mapping_quality: 0,
            score: 0,
        }
    }
}

/// The five classes of an edit are disjoint: at most one holds of any
/// edit.
pub proof fn lemma_edit_classes_disjoint(e: Edit)
    ensures
        (e.spec_is_match() as int) + (e.spec_is_sub() as int) + (e.spec_is_insertion() as int) + (
        e.spec_is_deletion() as int) + (e.spec_is_empty() as int) <= 1,
{
}

impl Edit {
    pub open spec fn spec_is_match(&self) -> bool {
        self.from_length == self.to_length && self.from_length != 0 && self.sequence@.len() == 0
    }

    pub open spec fn spec_is_sub(&self) -> bool {
        self.from_length == self.to_length && self.sequence@.len() > 0
    }

    pub open spec fn spec_is_insertion(&self) -> bool {
        self.from_length == 0 && self.to_length > 0 && self.sequence@.len() > 0
    }

    pub open spec fn spec_is_deletion(&self) -> bool {
        self.from_length > 0 && self.to_length == 0
    }

    pub open spec fn spec_is_empty(&self) -> bool {
        self.from_length == 0 && self.to_length == 0 && self.sequence@.len() == 0
    }

    /// Same non-zero length on both sides and no literal: the read matches
    /// the graph.
    pub fn is_match(&self) -> (r: bool)
        ensures
            r == self.spec_is_match(),
    {
        self.from_length == self.to_length && self.from_length != 0
            && self.sequence.as_str().is_empty()
    }

    /// Same length on both sides with a literal: the read differs base by base.
    pub fn is_sub(&self) -> (r: bool)
        ensures
            r == self.spec_is_sub(),
    {
        self.from_length == self.to_length && !self.sequence.as_str().is_empty()
    }

    /// Read bases with no graph bases.
    pub fn is_insertion(&self) -> (r: bool)
        ensures
            r == self.spec_is_insertion(),
    {
        self.from_length == 0 && self.to_length > 0 && !self.sequence.as_str().is_empty()
    }

    /// Graph bases with no read bases.
    pub fn is_deletion(&self) -> (r: bool)
        ensures
            r == self.spec_is_deletion(),
    {
        self.from_length > 0 && self.to_length == 0
    }

    /// Nothing on either side.
    pub fn is_empty(&self) -> (r: bool)
        ensures
            r == self.spec_is_empty(),
    {
        self.to_length == 0 && self.from_length == 0 && self.sequence.as_str().is_empty()
    }
}

} // verus!
