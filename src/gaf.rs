//! The tab-separated text format: one alignment per line, twelve fixed
//! fields, then optional `XX:T:value` tags.
use crate::text::{
    chars_of, chunk_bounds, chunks, find_char, i32_value, i64_value, index_of, int_text, lemma_index_of,
    lemma_split_len, bounds_within, nonempty_within, parse_i32, parse_i64, parse_usize, pieces, push_int, split,
    split_bounds, string_of, usize_value,
};
use vstd::prelude::*;

verus! {

/// What can go wrong while reading or writing a text record.
#[derive(Debug, Clone, Copy, PartialEq, Eq, Structural)]
pub enum GafError {
    /// A number is malformed or out of range.
    ParseInt,
    /// An interval step has no start.
    MissingStart,
    /// An interval step has no end.
    MissingEnd,
    /// The line has fewer than twelve fields, or an empty strand.
    MissingToken,
    /// An optional tag is shorter than `XX:T:`.
    MalformedTag,
    /// Two optional tags share a key.
    DuplicateTag,
    /// A cs or cg token cannot be read.
    InvalidCigar,
}

/// One step of a path.
#[derive(Debug, PartialEq, Eq, Clone)]
pub struct GafStep {
    /// A node id, or a stable path name.
    pub name: String,
    /// Visited in reverse (`<`).
    pub is_reverse: bool,
    /// `name` is a stable path name rather than a node id.
    pub is_stable: bool,
    /// An interval of a stable path rather than the whole of it.
    pub is_interval: bool,
    /// 0-based start; set on interval steps only.
    pub start: Option<i64>,
    /// 0-based end; set on interval steps only.
    pub end: Option<i64>,
}

/// What a step holds.
pub struct StepModel {
    pub name: Seq<char>,
    pub is_reverse: bool,
    pub is_stable: bool,
    pub is_interval: bool,
    pub start: Option<i64>,
    pub end: Option<i64>,
}

impl View for GafStep {
    type V = StepModel;

    open spec fn view(&self) -> StepModel {
        StepModel {
            name: self.name@,
            is_reverse: self.is_reverse,
            is_stable: self.is_stable,
            is_interval: self.is_interval,
            start: self.start,
            end: self.end,
        }
    }
}

/// An optional tag: a two-character key, a one-character type, a value.
#[derive(Debug, PartialEq, Eq, Clone)]
pub struct OptField {
    pub key: String,
    pub typ: String,
    pub value: String,
}

/// One line of the text format.  A numeric field that is missing holds -1.
#[derive(Debug, Clone, PartialEq, Eq)]
pub struct GafRecord {
    pub query_name: String,
    pub query_length: i64,
    /// 0-based, closed.
    pub query_start: i64,
    /// 0-based, open.
    pub query_end: i64,
    pub path_length: i64,
    pub path_start: i64,
    pub path_end: i64,
    /// Number of residue matches.
    pub matches: i64,
    pub block_length: i64,
    /// 0 to 255, or -1 where missing.
    pub mapq: i32,
    /// `+` or `-`.
    pub strand: char,
    pub path: Vec<GafStep>,
    /// The optional tags, in the order they were read or added; no two
    /// share a key.
    pub opt_fields: Vec<OptField>,
}

/// One cigar operation, from the cs or the cg tag.
#[derive(Debug, Clone)]
pub struct Cigar {
    pub cat: char,
    pub length: usize,
    pub query: String,
    pub target: String,
}

/// A missing numeric field.
pub const MISSING_INT: i64 = -1;

// ---------------------------------------------------------------------------
// the grammar

pub open spec fn star() -> Seq<char> {
    seq!['*']
}

pub open spec fn orientations() -> Seq<char> {
    seq!['<', '>']
}

/// A numeric field: `*` for missing, else an `i64`.
pub open spec fn number_value(t: Seq<char>) -> Option<i64> {
    if t == star() {
        Some(-1i64)
    } else {
        i64_value(t)
    }
}

/// The mapping quality field: `*` for missing, else a number from 0 to
/// 255.
pub open spec fn mapq_value(t: Seq<char>) -> Option<i32> {
    if t == star() {
        Some(-1i32)
    } else {
        match i32_value(t) {
            Some(q) => if 0 <= q <= 255 {
                Some(q)
            } else {
                None
            },
            None => None,
        }
    }
}

/// One oriented step, `<` or `>` and then a node id or `name:start-end`.
pub open spec fn step_value(p: Seq<char>) -> Result<StepModel, GafError> {
    let body = p.drop_first();
    let is_reverse = p[0] == '<';
    match index_of(body, ':') {
        None => Ok(
            StepModel {
                name: body,
                is_reverse,
                is_stable: false,
                is_interval: false,
                start: None,
                end: None,
            },
        ),
        Some(ci) => {
            let range = body.skip((ci + 1) as int);
            match index_of(range, '-') {
                None => Err(GafError::MissingEnd),
                Some(di) => match (i64_value(range.take(di as int)), i64_value(range.skip((di + 1) as int))) {
                    (Some(start), Some(end)) => Ok(
                        StepModel {
                            name: body.take(ci as int),
                            is_reverse,
                            is_stable: true,
                            is_interval: true,
                            start: Some(start),
                            end: Some(end),
                        },
                    ),
                    _ => Err(GafError::ParseInt),
                },
            }
        },
    }
}

/// The steps of `ps`, or the first fault among them.
pub open spec fn steps_value(ps: Seq<Seq<char>>) -> Result<Seq<StepModel>, GafError>
    decreases ps.len(),
{
    if ps.len() == 0 {
        Ok(Seq::empty())
    } else {
        match step_value(ps[0]) {
            Err(e) => Err(e),
            Ok(m) => match steps_value(ps.drop_first()) {
                Err(e) => Err(e),
                Ok(ms) => Ok(seq![m] + ms),
            },
        }
    }
}

/// The path field: oriented steps where it starts with `<` or `>`, else
/// one whole stable path.
pub open spec fn path_value(t: Seq<char>) -> Result<Seq<StepModel>, GafError> {
    if t.len() > 0 && orientations().contains(t[0]) {
        steps_value(chunks(t, orientations()))
    } else {
        Ok(
            seq![
                StepModel {
                    name: t,
                    is_reverse: false,
                    is_stable: true,
                    is_interval: false,
                    start: None,
                    end: None,
                },
            ],
        )
    }
}

pub open spec fn tag_key(t: Seq<char>) -> Seq<char> {
    t.take(2)
}

/// The first fault among the optional tags: one too short to hold
/// `XX:T:`, or one whose key an earlier tag has.
pub open spec fn tags_fault(ts: Seq<Seq<char>>) -> Option<GafError>
    decreases ts.len(),
{
    if ts.len() == 0 {
        None
    } else {
        match tags_fault(ts.drop_last()) {
            Some(e) => Some(e),
            None => if ts.last().len() < 5 {
                Some(GafError::MalformedTag)
            } else if exists|k: int|
                0 <= k < ts.len() - 1 && tag_key(#[trigger] ts[k]) == tag_key(ts.last()) {
                Some(GafError::DuplicateTag)
            } else {
                None
            },
        }
    }
}

proof fn lemma_tags_fault_prefix(ts: Seq<Seq<char>>, k: nat)
    requires
        k <= ts.len(),
        tags_fault(ts.take(k as int)) is Some,
    ensures
        tags_fault(ts) == tags_fault(ts.take(k as int)),
    decreases ts.len() - k,
{
    if k < ts.len() {
        assert(ts.take((k + 1) as int).drop_last() =~= ts.take(k as int));
        lemma_tags_fault_prefix(ts, k + 1);
    } else {
        assert(ts.take(k as int) =~= ts);
    }
}

pub open spec fn or_else(a: Option<GafError>, b: Option<GafError>) -> Option<GafError> {
    if a is Some {
        a
    } else {
        b
    }
}

pub open spec fn number_fault(f: Seq<Seq<char>>, i: int) -> Option<GafError> {
    if f.len() <= i {
        Some(GafError::MissingToken)
    } else if number_value(f[i]) is None {
        Some(GafError::ParseInt)
    } else {
        None
    }
}

/// Why the line `line` is no record, field by field in order; `None` where
/// it is one.
pub open spec fn line_fault(line: Seq<char>) -> Option<GafError> {
    let f = split(line, '\t');
    or_else(fields_fault(f), tags_fault(f.skip(12)))
}

/// The first fault among the twelve fixed fields `f[..12]`.
pub open spec fn fields_fault(f: Seq<Seq<char>>) -> Option<GafError> {
    or_else(
        number_fault(f, 1),
        or_else(
            number_fault(f, 2),
            or_else(
                number_fault(f, 3),
                or_else(
                    if f.len() <= 4 || f[4].len() == 0 {
                        Some(GafError::MissingToken)
                    } else {
                        None
                    },
                    or_else(
                        if f.len() <= 5 {
                            Some(GafError::MissingToken)
                        } else {
                            match path_value(f[5]) {
                                Err(e) => Some(e),
                                Ok(_) => None,
                            }
                        },
                        or_else(
                            number_fault(f, 6),
                            or_else(
                                number_fault(f, 7),
                                or_else(
                                    number_fault(f, 8),
                                    or_else(
                                        number_fault(f, 9),
                                        or_else(
                                            number_fault(f, 10),
                                            or_else(
                                                if f.len() <= 11 {
                                                    Some(GafError::MissingToken)
                                                } else if mapq_value(f[11]) is None {
                                                    Some(GafError::ParseInt)
                                                } else {
                                                    None
                                                },
                                                None,
                                            ),
                                        ),
                                    ),
                                ),
                            ),
                        ),
                    ),
                ),
            ),
        ),
    )
}

/// `rec` is the record that the line with fields `f` holds.
pub open spec fn holds_fields(rec: GafRecord, f: Seq<Seq<char>>) -> bool {
    &&& f.len() >= 12
    &&& rec.query_name@ == f[0]
    &&& Some(rec.query_length) == number_value(f[1])
    &&& Some(rec.query_start) == number_value(f[2])
    &&& Some(rec.query_end) == number_value(f[3])
    &&& rec.strand == f[4][0]
    &&& path_value(f[5]) == Ok::<Seq<StepModel>, GafError>(rec.path@.map_values(|s: GafStep| s@))
    &&& Some(rec.path_length) == number_value(f[6])
    &&& Some(rec.path_start) == number_value(f[7])
    &&& Some(rec.path_end) == number_value(f[8])
    &&& Some(rec.matches) == number_value(f[9])
    &&& Some(rec.block_length) == number_value(f[10])
    &&& Some(rec.mapq) == mapq_value(f[11])
    &&& rec.opt_fields@.len() == f.len() - 12
    &&& forall|i: int|
        0 <= i < rec.opt_fields@.len() ==> {
            let t = #[trigger] f[12 + i];
            &&& rec.opt_fields@[i].key@ == t.take(2)
            &&& rec.opt_fields@[i].typ@ == t.subrange(3, 4)
            &&& rec.opt_fields@[i].value@ == t.skip(5)
        }
}

/// No two optional tags share a key.
pub open spec fn keys_unique(fields: Seq<OptField>) -> bool {
    forall|i: int, j: int|
        0 <= i < j < fields.len() ==> (#[trigger] fields[i]).key@ != (#[trigger] fields[j]).key@
}

// ---------------------------------------------------------------------------
// reading

/// Reads the step `cs[lo..hi]`, which starts with its orientation.
fn parse_step(cs: &[char], lo: usize, hi: usize) -> (r: Result<GafStep, GafError>)
    requires
        lo < hi <= cs@.len(),
    ensures
        match step_value(cs@.subrange(lo as int, hi as int)) {
            Ok(m) => r matches Ok(s) && s@ == m,
            Err(e) => r == Err::<GafStep, GafError>(e),
        },
{
    let ghost p = cs@.subrange(lo as int, hi as int);
    let ghost body = p.drop_first();
    assert(body =~= cs@.subrange(lo + 1, hi as int));
    assert(p[0] == cs@[lo as int]);
    let is_reverse = cs[lo] == '<';
    match find_char(cs, lo + 1, hi, ':') {
        None => Ok(
            GafStep {
                name: string_of(cs, lo + 1, hi),
                is_reverse,
                is_stable: false,
                is_interval: false,
                start: None,
                end: None,
            },
        ),
        Some(colon) => {
            proof {
                lemma_index_of(body, ':');
            }
            let ghost ci = (colon - lo - 1) as nat;
            let ghost range = body.skip((ci + 1) as int);
            assert(range =~= cs@.subrange(colon + 1, hi as int));
            match find_char(cs, colon + 1, hi, '-') {
                None => Err(GafError::MissingEnd),
                Some(dash) => {
                    proof {
                        lemma_index_of(range, '-');
                    }
                    let ghost di = (dash - colon - 1) as nat;
                    assert(range.take(di as int) =~= cs@.subrange(colon + 1, dash as int));
                    assert(range.skip((di + 1) as int) =~= cs@.subrange(dash + 1, hi as int));
                    assert(body.take(ci as int) =~= cs@.subrange(lo + 1, colon as int));
                    let start = parse_i64(cs, colon + 1, dash);
                    let end = parse_i64(cs, dash + 1, hi);
                    match (start, end) {
                        (Some(s), Some(e)) => Ok(
                            GafStep {
                                name: string_of(cs, lo + 1, colon),
                                is_reverse,
                                is_stable: true,
                                is_interval: true,
                                start: Some(s),
                                end: Some(e),
                            },
                        ),
                        _ => Err(GafError::ParseInt),
                    }
                },
            }
        },
    }
}

pub open spec fn step_views(v: Seq<GafStep>) -> Seq<StepModel> {
    v.map_values(|s: GafStep| s@)
}

/// Reads the path field `cs[lo..hi]`.
fn parse_path(cs: &[char], lo: usize, hi: usize) -> (r: Result<Vec<GafStep>, GafError>)
    requires
        lo <= hi <= cs@.len(),
    ensures
        match path_value(cs@.subrange(lo as int, hi as int)) {
            Ok(ms) => r matches Ok(v) && step_views(v@) == ms,
            Err(e) => r == Err::<Vec<GafStep>, GafError>(e),
        },
{
    let ghost t = cs@.subrange(lo as int, hi as int);
    let mut path: Vec<GafStep> = Vec::new();
    if lo < hi && (cs[lo] == '<' || cs[lo] == '>') {
        assert(t[0] == cs@[lo as int]);
        assert(orientations().contains(t[0]));
        let orient = ['<', '>'];
        let d = orient.as_slice();
        assert(d@ =~= orientations());
        let bounds = chunk_bounds(cs, lo, hi, d);
        let ghost ps = chunks(t, orientations());
        assert(path_value(t) == steps_value(ps));
        assert(ps.skip(0) =~= ps);
        assert(step_views(path@) =~= Seq::<StepModel>::empty());
        let mut k: usize = 0;
        while k < bounds.len()
            invariant
                k <= bounds@.len(),
                lo <= hi <= cs@.len(),
                t == cs@.subrange(lo as int, hi as int),
                path_value(t) == steps_value(ps),
                nonempty_within(bounds@, lo as int, hi as int),
                pieces(cs@, bounds@) == ps,
                steps_value(ps) == match steps_value(ps.skip(k as int)) {
                    Ok(ms) => Ok(step_views(path@) + ms),
                    Err(e) => Err(e),
                },
            decreases bounds@.len() - k,
        {
            let (a, b) = bounds[k];
            assert(ps[k as int] == cs@.subrange(a as int, b as int));
            assert(ps.skip(k as int).drop_first() =~= ps.skip(k + 1));
            assert(ps.skip(k as int)[0] == ps[k as int]);
            let step = match parse_step(cs, a, b) {
                Ok(s) => s,
                Err(e) => {
                    assert(ps.skip(k as int).len() > 0);
                    assert(steps_value(ps.skip(k as int)) == Err::<Seq<StepModel>, GafError>(e));
                    return Err(e);
                },
            };
            let ghost before = step_views(path@);
            path.push(step);
            proof {
                assert(step_views(path@) =~= before.push(step@));
                if let Ok(ms) = steps_value(ps.skip(k + 1)) {
                    assert(before + (seq![step@] + ms) =~= before.push(step@) + ms);
                }
            }
            k = k + 1;
        }
        assert(ps.skip(k as int) =~= Seq::<Seq<char>>::empty());
        assert(step_views(path@) + Seq::<StepModel>::empty() =~= step_views(path@));
        Ok(path)
    } else {
        if lo < hi {
            assert(t[0] == cs@[lo as int]);
        }
        let name = string_of(cs, lo, hi);
        path.push(
            GafStep {
                name,
                is_reverse: false,
                is_stable: true,
                is_interval: false,
                start: None,
                end: None,
            },
        );
        assert(step_views(path@) =~= seq![path@[0]@]);
        Ok(path)
    }
}

/// Reads a numeric field: `*` is missing (-1), anything else an `i64`.
fn number_or_missing(cs: &[char], lo: usize, hi: usize) -> (r: Result<i64, GafError>)
    requires
        lo <= hi <= cs@.len(),
    ensures
        r == match number_value(cs@.subrange(lo as int, hi as int)) {
            Some(v) => Ok::<i64, GafError>(v),
            None => Err(GafError::ParseInt),
        },
{
    if hi - lo == 1 && cs[lo] == '*' {
        assert(cs@.subrange(lo as int, hi as int) =~= star());
        return Ok(MISSING_INT);
    }
    assert(cs@.subrange(lo as int, hi as int).len() != 1 || cs@.subrange(lo as int, hi as int)[0]
        != '*');
    match parse_i64(cs, lo, hi) {
        Some(v) => Ok(v),
        None => Err(GafError::ParseInt),
    }
}

/// Reads field `i` of the line as a number.
fn number_field(cs: &[char], b: &Vec<(usize, usize)>, i: usize) -> (r: Result<i64, GafError>)
    requires
        bounds_within(b@, 0, cs@.len() as int),
    ensures
        match number_fault(pieces(cs@, b@), i as int) {
            Some(e) => r == Err::<i64, GafError>(e),
            None => r == Ok::<i64, GafError>(number_value(pieces(cs@, b@)[i as int])->Some_0),
        },
{
    if i >= b.len() {
        return Err(GafError::MissingToken);
    }
    let (lo, hi) = b[i];
    assert(pieces(cs@, b@)[i as int] == cs@.subrange(lo as int, hi as int));
    number_or_missing(cs, lo, hi)
}

impl GafRecord {
    /// Reads one line.
    pub fn parse(line: &str) -> (r: Result<GafRecord, GafError>)
        ensures
            match line_fault(line@) {
                Some(e) => r == Err::<GafRecord, GafError>(e),
                None => r matches Ok(rec) && holds_fields(rec, split(line@, '\t')) && keys_unique(
                    rec.opt_fields@,
                ) && (rec.mapq == -1 || 0 <= rec.mapq <= 255),
            },
    {
        let cs = chars_of(line);
        let b = split_bounds(cs.as_slice(), '\t');
        let ghost f = split(line@, '\t');
        assert(pieces(cs@, b@) == f);
        proof {
            lemma_split_len(line@, '\t');
        }
        let (lo0, hi0) = b[0];
        assert(f[0] == cs@.subrange(lo0 as int, hi0 as int));
        let query_name = string_of(cs.as_slice(), lo0, hi0);
        let query_length = number_field(cs.as_slice(), &b, 1)?;
        let query_start = number_field(cs.as_slice(), &b, 2)?;
        let query_end = number_field(cs.as_slice(), &b, 3)?;
        if b.len() <= 4 {
            return Err(GafError::MissingToken);
        }
        let (lo4, hi4) = b[4];
        assert(f[4] == cs@.subrange(lo4 as int, hi4 as int));
        if lo4 == hi4 {
            return Err(GafError::MissingToken);
        }
        let strand = cs[lo4];
        if b.len() <= 5 {
            return Err(GafError::MissingToken);
        }
        let (lo5, hi5) = b[5];
        assert(f[5] == cs@.subrange(lo5 as int, hi5 as int));
        let path = parse_path(cs.as_slice(), lo5, hi5)?;
        let path_length = number_field(cs.as_slice(), &b, 6)?;
        let path_start = number_field(cs.as_slice(), &b, 7)?;
        let path_end = number_field(cs.as_slice(), &b, 8)?;
        let matches = number_field(cs.as_slice(), &b, 9)?;
        let block_length = number_field(cs.as_slice(), &b, 10)?;
        if b.len() <= 11 {
            return Err(GafError::MissingToken);
        }
        let (lo11, hi11) = b[11];
        assert(f[11] == cs@.subrange(lo11 as int, hi11 as int));
        let mapq: i32 = if hi11 - lo11 == 1 && cs[lo11] == '*' {
            assert(f[11] =~= star());
            -1
        } else {
            assert(f[11].len() != 1 || f[11][0] != '*');
            match parse_i32(cs.as_slice(), lo11, hi11) {
                Some(v) => if 0 <= v && v <= 255 {
                    v
                } else {
                    return Err(GafError::ParseInt);
                },
                None => return Err(GafError::ParseInt),
            }
        };
        let ghost ts = f.skip(12);
        let mut opt_fields: Vec<OptField> = Vec::new();
        let mut j: usize = 12;
        assert(ts.take(0) =~= Seq::<Seq<char>>::empty());
        while j < b.len()
            invariant
                12 <= j <= b@.len(),
                b@.len() == f.len(),
                bounds_within(b@, 0, cs@.len() as int),
                pieces(cs@, b@) == f,
                ts == f.skip(12),
                fields_fault(f) is None,
                f == split(line@, '\t'),
                tags_fault(ts.take(j - 12)) is None,
                opt_fields@.len() == j - 12,
                keys_unique(opt_fields@),
                forall|i: int|
                    0 <= i < opt_fields@.len() ==> {
                        let t = #[trigger] f[12 + i];
                        &&& opt_fields@[i].key@ == t.take(2)
                        &&& opt_fields@[i].typ@ == t.subrange(3, 4)
                        &&& opt_fields@[i].value@ == t.skip(5)
                    },
            decreases b@.len() - j,
        {
            let (lo, hi) = b[j];
            let ghost t = f[j as int];
            assert(t == cs@.subrange(lo as int, hi as int));
            assert(ts.take(j - 12 + 1).drop_last() =~= ts.take(j - 12));
            assert(ts.take(j - 12 + 1).last() == t);
            if hi - lo < 5 {
                proof {
                    assert(tags_fault(ts.take(j - 12 + 1)) == Some(GafError::MalformedTag));
                    lemma_tags_fault_prefix(ts, (j - 12 + 1) as nat);
                }
                return Err(GafError::MalformedTag);
            }
            let key = string_of(cs.as_slice(), lo, lo + 2);
            assert(key@ =~= t.take(2));
            let mut k: usize = 0;
            while k < opt_fields.len()
                invariant
                    k <= opt_fields@.len(),
                    forall|m: int| 0 <= m < k ==> opt_fields@[m].key@ != key@,
                    12 <= j < f.len(),
                    ts == f.skip(12),
                    t == f[j as int],
                    t.len() >= 5,
                    fields_fault(f) is None,
                    f == split(line@, '\t'),
                    tags_fault(ts.take(j - 12)) is None,
                    ts.take(j - 12 + 1).drop_last() == ts.take(j - 12),
                    ts.take(j - 12 + 1).last() == t,
                    key@ == t.take(2),
                    opt_fields@.len() == j - 12,
                    forall|i: int|
                        0 <= i < opt_fields@.len() ==> opt_fields@[i].key@ == (#[trigger] f[12
                            + i]).take(2),
                decreases opt_fields@.len() - k,
            {
                if opt_fields[k].key == key {
                    proof {
                        let m = k as int;
                        assert(ts.take(j - 12 + 1)[m] == f[12 + m]);
                        assert(opt_fields@[m].key@ == f[12 + m].take(2));
                        assert(tag_key(ts.take(j - 12 + 1)[m]) == tag_key(t));
                        assert(ts.take(j - 12 + 1).last() == t);
                        assert(tags_fault(ts.take(j - 12 + 1)) == Some(GafError::DuplicateTag));
                        lemma_tags_fault_prefix(ts, (j - 12 + 1) as nat);
                    }
                    return Err(GafError::DuplicateTag);
                }
                k = k + 1;
            }
            proof {
                assert forall|m: int| 0 <= m < j - 12 implies tag_key(
                    #[trigger] ts.take(j - 12 + 1)[m],
                ) != tag_key(t) by {
                    assert(ts.take(j - 12 + 1)[m] == f[12 + m]);
                    assert(opt_fields@[m].key@ == f[12 + m].take(2));
                }
            }
            let typ = string_of(cs.as_slice(), lo + 3, lo + 4);
            let value = string_of(cs.as_slice(), lo + 5, hi);
            assert(typ@ =~= t.subrange(3, 4));
            assert(value@ =~= t.skip(5));
            opt_fields.push(OptField { key, typ, value });
            assert(opt_fields@[j - 12].key@ == t.take(2));
            j = j + 1;
        }
        assert(ts.take(j - 12) =~= ts);
        let rec = GafRecord {
            query_name,
            query_length,
            query_start,
            query_end,
            path_length,
            path_start,
            path_end,
            matches,
            block_length,
            mapq,
            strand,
            path,
            opt_fields,
        };
        assert(rec.path@.map_values(|s: GafStep| s@) == step_views(rec.path@));
        Ok(rec)
    }
}

// ---------------------------------------------------------------------------
// writing

/// The text of a step: its orientation where it is a node or an interval,
/// its name, and `:start-end` on an interval.
pub open spec fn step_text(m: StepModel) -> Result<Seq<char>, GafError> {
    let o = if !m.is_stable || m.is_interval {
        seq![
            if m.is_reverse {
                '<'
            } else {
                '>'
            },
        ]
    } else {
        Seq::empty()
    };
    if m.is_interval {
        match (m.start, m.end) {
            (None, _) => Err(GafError::MissingStart),
            (_, None) => Err(GafError::MissingEnd),
            (Some(a), Some(b)) => Ok(o + m.name + seq![':'] + int_text(a as int) + seq!['-']
                + int_text(b as int)),
        }
    } else {
        Ok(o + m.name)
    }
}

/// The steps written one after the other.
pub open spec fn path_text(ms: Seq<StepModel>) -> Result<Seq<char>, GafError>
    decreases ms.len(),
{
    if ms.len() == 0 {
        Ok(Seq::empty())
    } else {
        match path_text(ms.drop_last()) {
            Err(e) => Err(e),
            Ok(t) => match step_text(ms.last()) {
                Err(e) => Err(e),
                Ok(u) => Ok(t + u),
            },
        }
    }
}

/// The optional tags, each after a tab as `key:type:value`.
pub open spec fn tags_text(fs: Seq<OptField>) -> Seq<char>
    decreases fs.len(),
{
    if fs.len() == 0 {
        Seq::empty()
    } else {
        tags_text(fs.drop_last()) + seq!['\t'] + fs.last().key@ + seq![':'] + fs.last().typ@
            + seq![':'] + fs.last().value@
    }
}

pub open spec fn tab_int(v: i64) -> Seq<char> {
    seq!['\t'] + int_text(v as int)
}

/// The text of the mapping quality: the missing value is written 255.
pub open spec fn mapq_text(q: i32) -> Seq<char> {
    if q == -1 {
        seq!['2', '5', '5']
    } else {
        int_text(q as int)
    }
}

/// The fields before the path: name, lengths, strand, each followed by a
/// tab.  An empty name is written `*`.
pub open spec fn head_text(rec: GafRecord) -> Seq<char> {
    let name = if rec.query_name@.len() == 0 {
        star()
    } else {
        rec.query_name@
    };
    name + tab_int(rec.query_length) + tab_int(rec.query_start) + tab_int(rec.query_end) + seq![
        '\t',
        rec.strand,
        '\t',
    ]
}

pub open spec fn six_stars() -> Seq<char> {
    seq!['*', '\t', '*', '\t', '*', '\t', '*', '\t', '*', '\t', '*', '\t']
}

/// The path and the five fields after it, each followed by a tab; an
/// empty path is written as six `*` fields.
pub open spec fn path_part_text(rec: GafRecord) -> Result<Seq<char>, GafError> {
    if rec.path@.len() == 0 {
        Ok(six_stars())
    } else {
        match path_text(step_views(rec.path@)) {
            Err(e) => Err(e),
            Ok(p) => Ok(p + tab_int(rec.path_length) + tab_int(rec.path_start) + tab_int(
                rec.path_end,
            ) + tab_int(rec.matches) + tab_int(rec.block_length) + seq!['\t']),
        }
    }
}

/// The mapping quality, the tags and the newline.
pub open spec fn tail_text(rec: GafRecord) -> Seq<char> {
    mapq_text(rec.mapq) + tags_text(rec.opt_fields@) + seq!['\n']
}

/// The line that writes `rec`, ending in a newline.
pub open spec fn record_text(rec: GafRecord) -> Result<Seq<char>, GafError> {
    match path_part_text(rec) {
        Err(e) => Err(e),
        Ok(p) => Ok(head_text(rec) + p + tail_text(rec)),
    }
}

fn push_tab_int(out: &mut String, v: i64)
    ensures
        final(out)@ == old(out)@ + tab_int(v),
{
    out.push('\t');
    push_int(out, v);
    assert(final(out)@ =~= old(out)@ + tab_int(v));
}

impl GafStep {
    /// Appends the text of this step to `out`.
    pub fn write(&self, out: &mut String) -> (r: Result<(), GafError>)
        ensures
            match step_text(self@) {
                Ok(t) => r is Ok && final(out)@ == old(out)@ + t,
                Err(e) => r == Err::<(), GafError>(e),
            },
    {
        let ghost o = out@;
        if !self.is_stable || self.is_interval {
            if self.is_reverse {
                out.push('<');
            } else {
                out.push('>');
            }
        }
        out.append(self.name.as_str());
        if self.is_interval {
            let start = match self.start {
                Some(v) => v,
                None => return Err(GafError::MissingStart),
            };
            let end = match self.end {
                Some(v) => v,
                None => return Err(GafError::MissingEnd),
            };
            out.push(':');
            push_int(out, start);
            out.push('-');
            push_int(out, end);
        }
        proof {
            if let Ok(t) = step_text(self@) {
                assert(out@ =~= o + t);
            }
        }
        Ok(())
    }
}

impl GafRecord {
    fn write_head(&self, out: &mut String)
        ensures
            final(out)@ == old(out)@ + head_text(*self),
    {
        if self.query_name.as_str().is_empty() {
            out.push('*');
        } else {
            out.append(self.query_name.as_str());
        }
        push_tab_int(out, self.query_length);
        push_tab_int(out, self.query_start);
        push_tab_int(out, self.query_end);
        out.push('\t');
        out.push(self.strand);
        out.push('\t');
        assert(final(out)@ =~= old(out)@ + head_text(*self));
    }

    fn write_path_part(&self, out: &mut String) -> (r: Result<(), GafError>)
        ensures
            match path_part_text(*self) {
                Ok(t) => r is Ok && final(out)@ == old(out)@ + t,
                Err(e) => r == Err::<(), GafError>(e),
            },
    {
        let ghost head = out@;
        if self.path.len() == 0 {
            let mut k: usize = 0;
            while k < 6
                invariant
                    k <= 6,
                    out@ == head + six_stars().take(2 * k as int),
                decreases 6 - k,
            {
                out.push('*');
                out.push('\t');
                assert(six_stars().take(2 * k + 2) =~= six_stars().take(2 * k as int).push('*').push(
                    '\t',
                ));
                k = k + 1;
            }
            assert(six_stars().take(12) =~= six_stars());
            return Ok(());
        }
        let ghost views = step_views(self.path@);
        let mut i: usize = 0;
        assert(views.take(0) =~= Seq::<StepModel>::empty());
        while i < self.path.len()
            invariant
                i <= self.path@.len(),
                views == step_views(self.path@),
                path_text(views.take(i as int)) matches Ok(t) && out@ == head + t,
            decreases self.path@.len() - i,
        {
            assert(views.take(i + 1).drop_last() =~= views.take(i as int));
            assert(views.take(i + 1).last() == self.path@[i as int]@);
            match self.path[i].write(out) {
                Ok(()) => {},
                Err(e) => {
                    proof {
                        lemma_path_text_prefix(views, (i + 1) as nat);
                    }
                    return Err(e);
                },
            }
            i = i + 1;
        }
        assert(views.take(i as int) =~= views);
        push_tab_int(out, self.path_length);
        push_tab_int(out, self.path_start);
        push_tab_int(out, self.path_end);
        push_tab_int(out, self.matches);
        push_tab_int(out, self.block_length);
        out.push('\t');
        proof {
            let t = path_text(views)->Ok_0;
            assert(out@ =~= head + (t + tab_int(self.path_length) + tab_int(self.path_start)
                + tab_int(self.path_end) + tab_int(self.matches) + tab_int(self.block_length)
                + seq!['\t']));
        }
        Ok(())
    }

    fn write_tail(&self, out: &mut String)
        ensures
            final(out)@ == old(out)@ + tail_text(*self),
    {
        let ghost start = out@;
        if self.mapq == -1 {
            out.push('2');
            out.push('5');
            out.push('5');
        } else {
            push_int(out, self.mapq as i64);
        }
        assert(out@ =~= start + mapq_text(self.mapq));
        let ghost mid = out@;
        let mut k: usize = 0;
        assert(self.opt_fields@.take(0) =~= Seq::<OptField>::empty());
        while k < self.opt_fields.len()
            invariant
                k <= self.opt_fields@.len(),
                out@ == mid + tags_text(self.opt_fields@.take(k as int)),
            decreases self.opt_fields@.len() - k,
        {
            let f = &self.opt_fields[k];
            assert(self.opt_fields@.take(k + 1).drop_last() =~= self.opt_fields@.take(k as int));
            assert(self.opt_fields@.take(k + 1).last() == *f);
            out.push('\t');
            out.append(f.key.as_str());
            out.push(':');
            out.append(f.typ.as_str());
            out.push(':');
            out.append(f.value.as_str());
            assert(out@ =~= mid + tags_text(self.opt_fields@.take(k + 1)));
            k = k + 1;
        }
        assert(self.opt_fields@.take(k as int) =~= self.opt_fields@);
        out.push('\n');
        assert(out@ =~= start + tail_text(*self));
    }

    /// The line that writes this record, with its newline.
    pub fn write(&self) -> (r: Result<String, GafError>)
        ensures
            match record_text(*self) {
                Ok(t) => r matches Ok(s) && s@ == t,
                Err(e) => r == Err::<String, GafError>(e),
            },
    {
        let mut out = String::new();
        self.write_head(&mut out);
        self.write_path_part(&mut out)?;
        self.write_tail(&mut out);
        proof {
            if let Ok(t) = record_text(*self) {
                assert(out@ =~= t);
            }
        }
        Ok(out)
    }
}

proof fn lemma_path_text_prefix(ms: Seq<StepModel>, k: nat)
    requires
        k <= ms.len(),
        path_text(ms.take(k as int)) is Err,
    ensures
        path_text(ms) == path_text(ms.take(k as int)),
    decreases ms.len() - k,
{
    if k < ms.len() {
        assert(ms.take((k + 1) as int).drop_last() =~= ms.take(k as int));
        lemma_path_text_prefix(ms, k + 1);
    } else {
        assert(ms.take(k as int) =~= ms);
    }
}

// ---------------------------------------------------------------------------
// cigars

/// What a cigar operation holds.
pub struct CigarModel {
    pub cat: char,
    pub length: usize,
    pub query: Seq<char>,
    pub target: Seq<char>,
}

impl View for Cigar {
    type V = CigarModel;

    open spec fn view(&self) -> CigarModel {
        CigarModel { cat: self.cat, length: self.length, query: self.query@, target: self.target@ }
    }
}

pub open spec fn cigar_views(v: Seq<Cigar>) -> Seq<CigarModel> {
    v.map_values(|c: Cigar| c@)
}

/// The value of the first tag keyed `key`.
pub open spec fn tag_value(fs: Seq<OptField>, key: Seq<char>) -> Option<Seq<char>>
    decreases fs.len(),
{
    if fs.len() == 0 {
        None
    } else if fs[0].key@ == key {
        Some(fs[0].value@)
    } else {
        tag_value(fs.drop_first(), key)
    }
}

pub open spec fn cs_key() -> Seq<char> {
    seq!['c', 's']
}

pub open spec fn cg_key() -> Seq<char> {
    seq!['c', 'g']
}

/// The characters that start an operation of a cs string.
pub open spec fn cs_ops() -> Seq<char> {
    seq![':', '*', '-', '+']
}

/// The operation letters of a cg string.
pub open spec fn cg_ops() -> Seq<char> {
    seq!['M', 'I', 'D', 'N', 'S', 'H', 'P', 'X', '=']
}

/// One cs operation: `:n` a run of matches, `+seq` an insertion, `-seq` a
/// deletion, `*tq` one substitution of graph base `t` by read base `q`.
pub open spec fn cs_cigar(p: Seq<char>) -> Option<CigarModel> {
    let rest = p.drop_first();
    if p[0] == ':' {
        match usize_value(rest) {
            Some(n) => Some(CigarModel { cat: ':', length: n, query: Seq::empty(), target: Seq::empty() }),
            None => None,
        }
    } else if p[0] == '+' {
        Some(CigarModel { cat: '+', length: rest.len() as usize, query: rest, target: Seq::empty() })
    } else if p[0] == '-' {
        Some(CigarModel { cat: '-', length: rest.len() as usize, query: Seq::empty(), target: rest })
    } else if p.len() >= 3 {
        Some(CigarModel { cat: '*', length: 1, query: p.subrange(2, 3), target: p.subrange(1, 2) })
    } else {
        None
    }
}

/// All the operations of a cs string, `None` where one cannot be read.
pub open spec fn cs_cigars(ps: Seq<Seq<char>>) -> Option<Seq<CigarModel>>
    decreases ps.len(),
{
    if ps.len() == 0 {
        Some(Seq::empty())
    } else {
        match (cs_cigar(ps[0]), cs_cigars(ps.drop_first())) {
            (Some(c), Some(cs)) => Some(seq![c] + cs),
            _ => None,
        }
    }
}

/// A cg operation at single-base resolution: its letter, length one.
pub open spec fn cg_cigar(p: Seq<char>) -> CigarModel {
    CigarModel { cat: p[0], length: 1, query: Seq::empty(), target: Seq::empty() }
}

/// What `iter_cigar` gives for a record with tags `fs`.
pub open spec fn cigars_of(fs: Seq<OptField>) -> Option<Seq<CigarModel>> {
    match tag_value(fs, cs_key()) {
        Some(v) => cs_cigars(chunks(v, cs_ops())),
        None => match tag_value(fs, cg_key()) {
            Some(v) => Some(chunks(v, cg_ops()).map_values(|p: Seq<char>| cg_cigar(p))),
            None => Some(Seq::empty()),
        },
    }
}

/// Whether `a` and `b` hold the same characters.
fn same_text(a: &str, b: &str) -> (r: bool)
    ensures
        r == (a@ == b@),
{
    let n = a.unicode_len();
    if n != b.unicode_len() {
        return false;
    }
    let mut i: usize = 0;
    while i < n
        invariant
            i <= n,
            n == a@.len(),
            n == b@.len(),
            forall|j: int| 0 <= j < i ==> a@[j] == b@[j],
        decreases n - i,
    {
        if a.get_char(i) != b.get_char(i) {
            return false;
        }
        i = i + 1;
    }
    assert(a@ =~= b@);
    true
}

impl Cigar {
    /// An operation of one base and no literal.
    fn single_base(cat: char) -> (c: Cigar)
        ensures
            c@ == (CigarModel { cat, length: 1, query: Seq::empty(), target: Seq::empty() }),
    {
        let c = Cigar { cat, length: 1, query: String::new(), target: String::new() };
        assert(c@.query =~= Seq::<char>::empty());
        c
    }
}

impl GafRecord {
    /// The index of the first tag keyed `key`.
    fn find_tag(&self, key: &str) -> (r: Option<usize>)
        ensures
            match tag_value(self.opt_fields@, key@) {
                Some(v) => r matches Some(i) && i < self.opt_fields@.len()
                    && self.opt_fields@[i as int].value@ == v,
                None => r is None,
            },
    {
        let mut i: usize = 0;
        assert(self.opt_fields@.skip(0) =~= self.opt_fields@);
        while i < self.opt_fields.len()
            invariant
                i <= self.opt_fields@.len(),
                tag_value(self.opt_fields@, key@) == tag_value(self.opt_fields@.skip(i as int), key@),
            decreases self.opt_fields@.len() - i,
        {
            assert(self.opt_fields@.skip(i as int).drop_first() =~= self.opt_fields@.skip(i + 1));
            assert(self.opt_fields@.skip(i as int)[0] == self.opt_fields@[i as int]);
            if same_text(self.opt_fields[i].key.as_str(), key) {
                return Some(i);
            }
            i = i + 1;
        }
        None
    }

    /// The operations of the cs tag, each with its leading character; empty
    /// without one.
    pub fn iter_cs(&self) -> (r: Vec<String>)
        ensures
            match tag_value(self.opt_fields@, cs_key()) {
                        Some(v) => r@.map_values(|s: String| s@) == chunks(v, cs_ops()),
                None => r@.len() == 0,
            },
            forall|i: int| 0 <= i < r@.len() ==> (#[trigger] r@[i])@.len() > 0,
    {
        let mut r: Vec<String> = Vec::new();
        let i = match self.find_tag("cs") {
            Some(i) => i,
            None => {
                proof {
                    reveal_strlit("cs");
                    assert("cs"@ =~= cs_key());
                }
                return r;
            },
        };
        proof {
            reveal_strlit("cs");
            assert("cs"@ =~= cs_key());
        }
        let cs = chars_of(self.opt_fields[i].value.as_str());
        let ops = [':', '*', '-', '+'];
        assert(ops@ =~= cs_ops());
        let bounds = chunk_bounds(cs.as_slice(), 0, cs.len(), ops.as_slice());
        assert(cs@.subrange(0, cs@.len() as int) =~= cs@);
        let mut k: usize = 0;
        while k < bounds.len()
            invariant
                k <= bounds@.len(),
                nonempty_within(bounds@, 0, cs@.len() as int),
                r@.len() == k,
                forall|i: int| 0 <= i < k ==> (#[trigger] r@[i])@ == pieces(cs@, bounds@)[i],
                forall|i: int| 0 <= i < r@.len() ==> (#[trigger] r@[i])@.len() > 0,
            decreases bounds@.len() - k,
        {
            let (a, b) = bounds[k];
            assert(pieces(cs@, bounds@)[k as int] == cs@.subrange(a as int, b as int));
            let piece = string_of(cs.as_slice(), a, b);
            let ghost before = r@;
            r.push(piece);
            k = k + 1;
        }
        assert(r@.map_values(|s: String| s@) =~= pieces(cs@, bounds@));
        r
    }

    /// The operations of the cg tag, one per operation letter, each of length
    /// one; empty without one.
    pub fn iter_cg(&self) -> (r: Vec<Cigar>)
        ensures
            match tag_value(self.opt_fields@, cg_key()) {
                Some(v) => cigar_views(r@) == chunks(v, cg_ops()).map_values(
                    |p: Seq<char>| cg_cigar(p),
                ),
                None => r@.len() == 0,
            },
    {
        let mut ops_out: Vec<Cigar> = Vec::new();
        let i = match self.find_tag("cg") {
            Some(i) => i,
            None => {
                proof {
                    reveal_strlit("cg");
                    assert("cg"@ =~= cg_key());
                }
                return ops_out;
            },
        };
        proof {
            reveal_strlit("cg");
            assert("cg"@ =~= cg_key());
        }
        let cg = chars_of(self.opt_fields[i].value.as_str());
        let ops = ['M', 'I', 'D', 'N', 'S', 'H', 'P', 'X', '='];
        assert(ops@ =~= cg_ops());
        let bounds = chunk_bounds(cg.as_slice(), 0, cg.len(), ops.as_slice());
        assert(cg@.subrange(0, cg@.len() as int) =~= cg@);
        let ghost want = pieces(cg@, bounds@).map_values(|p: Seq<char>| cg_cigar(p));
        let mut k: usize = 0;
        while k < bounds.len()
            invariant
                k <= bounds@.len(),
                nonempty_within(bounds@, 0, cg@.len() as int),
                want == pieces(cg@, bounds@).map_values(|p: Seq<char>| cg_cigar(p)),
                ops_out@.len() == k,
                forall|i: int| 0 <= i < k ==> (#[trigger] ops_out@[i])@ == want[i],
            decreases bounds@.len() - k,
        {
            let (a, b) = bounds[k];
            assert(pieces(cg@, bounds@)[k as int] == cg@.subrange(a as int, b as int));
            assert(pieces(cg@, bounds@)[k as int][0] == cg@[a as int]);
            assert(want[k as int] == cg_cigar(pieces(cg@, bounds@)[k as int]));
            let c = Cigar::single_base(cg[a]);
            ops_out.push(c);
            k = k + 1;
        }
        assert(cigar_views(ops_out@) =~= want);
        ops_out
    }

    /// The cigar operations of this record: from the cs tag where there is
    /// one, else from the cg tag, else none.
    pub fn iter_cigar(&self) -> (r: Result<Vec<Cigar>, GafError>)
        ensures
            match cigars_of(self.opt_fields@) {
                Some(cs) => r matches Ok(v) && cigar_views(v@) == cs,
                None => r == Err::<Vec<Cigar>, GafError>(GafError::InvalidCigar),
            },
    {
        let ops = self.iter_cs();
        if self.find_tag("cs").is_none() {
            proof {
                reveal_strlit("cs");
                assert("cs"@ =~= cs_key());
            }
            return Ok(self.iter_cg());
        }
        proof {
            reveal_strlit("cs");
            assert("cs"@ =~= cs_key());
        }
        let ghost ps = ops@.map_values(|s: String| s@);
        assert(cigars_of(self.opt_fields@) == cs_cigars(ps));
        let mut r: Vec<Cigar> = Vec::new();
        let mut k: usize = 0;
        assert(ps.skip(0) =~= ps);
        while k < ops.len()
            invariant
                k <= ops@.len(),
                cigars_of(self.opt_fields@) == cs_cigars(ps),
                ps == ops@.map_values(|s: String| s@),
                forall|j: int| 0 <= j < ps.len() ==> (#[trigger] ps[j]).len() > 0,
                cs_cigars(ps) == match cs_cigars(ps.skip(k as int)) {
                    Some(rest) => Some(cigar_views(r@) + rest),
                    None => None,
                },
            decreases ops@.len() - k,
        {
            assert(ps.skip(k as int).drop_first() =~= ps.skip(k + 1));
            assert(ps.skip(k as int)[0] == ps[k as int]);
            let op = chars_of(ops[k].as_str());
            assert(op@ == ps[k as int]);
            assert(op@.drop_first() =~= op@.subrange(1, op@.len() as int));
            let c = if op[0] == ':' {
                match parse_usize(op.as_slice(), 1, op.len()) {
                    Some(n) => Cigar { cat: ':', length: n, query: String::new(), target: String::new() },
                    None => {
                        assert(cs_cigar(ps[k as int]) is None);
                        assert(cs_cigars(ps.skip(k as int)) is None);
                        return Err(GafError::InvalidCigar);
                    },
                }
            } else if op[0] == '+' {
                Cigar { cat: '+', length: op.len() - 1, query: string_of(op.as_slice(), 1, op.len()), target: String::new() }
            } else if op[0] == '-' {
                Cigar { cat: '-', length: op.len() - 1, query: String::new(), target: string_of(op.as_slice(), 1, op.len()) }
            } else if op.len() >= 3 {
                Cigar { cat: '*', length: 1, query: string_of(op.as_slice(), 2, 3), target: string_of(op.as_slice(), 1, 2) }
            } else {
                assert(cs_cigar(ps[k as int]) is None);
                assert(cs_cigars(ps.skip(k as int)) is None);
                return Err(GafError::InvalidCigar);
            };
            assert(c@.query =~= cs_cigar(ps[k as int])->Some_0.query);
            assert(c@.target =~= cs_cigar(ps[k as int])->Some_0.target);
            assert(cs_cigar(ps[k as int]) == Some(c@));
            let ghost before = cigar_views(r@);
            r.push(c);
            proof {
                assert(cigar_views(r@) =~= before.push(c@));
                if let Some(rest) = cs_cigars(ps.skip(k + 1)) {
                    assert(before + (seq![c@] + rest) =~= before.push(c@) + rest);
                }
            }
            k = k + 1;
        }
        assert(ps.skip(k as int) =~= Seq::<Seq<char>>::empty());
        assert(cigar_views(r@) + Seq::<CigarModel>::empty() =~= cigar_views(r@));
        Ok(r)
    }
}

// ---------------------------------------------------------------------------
// whole files

/// The lines of `text`: cut at each newline, a carriage return before the
/// newline dropped, and no empty last line after a final newline.
pub open spec fn lines_of(text: Seq<char>) -> Seq<Seq<char>> {
    let ps = split(text, '\n');
    let n = if ps.last().len() == 0 {
        ps.len() - 1
    } else {
        ps.len() as int
    };
    Seq::new(n as nat, |i: int| line_body(ps, i))
}

/// Piece `i` of `ps`, without a carriage return where a newline followed.
pub open spec fn line_body(ps: Seq<Seq<char>>, i: int) -> Seq<char> {
    let p = ps[i];
    if i < ps.len() - 1 && p.len() > 0 && p.last() == '\r' {
        p.drop_last()
    } else {
        p
    }
}

/// The first fault among the lines `ls`.
pub open spec fn lines_fault(ls: Seq<Seq<char>>) -> Option<GafError>
    decreases ls.len(),
{
    if ls.len() == 0 {
        None
    } else {
        or_else(line_fault(ls[0]), lines_fault(ls.drop_first()))
    }
}

/// Reads every line of `text` as a record.
pub fn parse(text: &str) -> (r: Result<Vec<GafRecord>, GafError>)
    ensures
        match lines_fault(lines_of(text@)) {
            Some(e) => r == Err::<Vec<GafRecord>, GafError>(e),
            None => r matches Ok(v) && v@.len() == lines_of(text@).len() && forall|i: int|
                0 <= i < v@.len() ==> holds_fields(
                    #[trigger] v@[i],
                    split(lines_of(text@)[i], '\t'),
                ) && keys_unique(v@[i].opt_fields@),
        },
{
    let cs = chars_of(text);
    let b = split_bounds(cs.as_slice(), '\n');
    let ghost ps = split(text@, '\n');
    let ghost ls = lines_of(text@);
    proof {
        lemma_split_len(text@, '\n');
    }
    assert(pieces(cs@, b@) == ps);
    let last = b.len() - 1;
    let n = if b[last].0 == b[last].1 {
        last
    } else {
        b.len()
    };
    assert(ps.last() == cs@.subrange(b@[last as int].0 as int, b@[last as int].1 as int));
    assert(ls.len() == n);
    let mut out: Vec<GafRecord> = Vec::new();
    let mut k: usize = 0;
    assert(ls.skip(0) =~= ls);
    while k < n
        invariant
            n <= b@.len(),
            b@.len() == ps.len(),
            ls == lines_of(text@),
            ps == split(text@, '\n'),
            ls.len() == n,
            pieces(cs@, b@) == ps,
            bounds_within(b@, 0, cs@.len() as int),
            k <= n,
            out@.len() == k,
            forall|i: int|
                0 <= i < k ==> holds_fields(#[trigger] out@[i], split(ls[i], '\t')) && keys_unique(
                    out@[i].opt_fields@,
                ),
            lines_fault(ls) == lines_fault(ls.skip(k as int)),
        decreases n - k,
    {
        let (lo, hi) = b[k];
        assert(ps[k as int] == cs@.subrange(lo as int, hi as int));
        let end = if k + 1 < b.len() && hi > lo && cs[hi - 1] == '\r' {
            hi - 1
        } else {
            hi
        };
        let line = string_of(cs.as_slice(), lo, end);
        proof {
            if end == hi - 1 && hi > lo && k + 1 < b.len() {
                assert(ps[k as int].last() == '\r');
                assert(cs@.subrange(lo as int, end as int) =~= ps[k as int].drop_last());
            }
            assert(line@ == line_body(ps, k as int));
            assert(line@ == ls[k as int]);
            assert(ls.skip(k as int)[0] == ls[k as int]);
            assert(ls.skip(k as int).drop_first() =~= ls.skip(k + 1));
        }
        let rec = match GafRecord::parse(line.as_str()) {
            Ok(rec) => rec,
            Err(e) => return Err(e),
        };
        out.push(rec);
        k = k + 1;
    }
    Ok(out)
}

/// All the records written one after the other, or the first fault.
pub open spec fn records_text(rs: Seq<GafRecord>) -> Result<Seq<char>, GafError>
    decreases rs.len(),
{
    if rs.len() == 0 {
        Ok(Seq::empty())
    } else {
        match records_text(rs.drop_last()) {
            Err(e) => Err(e),
            Ok(t) => match record_text(rs.last()) {
                Err(e) => Err(e),
                Ok(u) => Ok(t + u),
            },
        }
    }
}

proof fn lemma_records_text_prefix(rs: Seq<GafRecord>, k: nat)
    requires
        k <= rs.len(),
        records_text(rs.take(k as int)) is Err,
    ensures
        records_text(rs) == records_text(rs.take(k as int)),
    decreases rs.len() - k,
{
    if k < rs.len() {
        assert(rs.take((k + 1) as int).drop_last() =~= rs.take(k as int));
        lemma_records_text_prefix(rs, k + 1);
    } else {
        assert(rs.take(k as int) =~= rs);
    }
}

/// The text of all `records`, one line each.
pub fn write(records: &Vec<GafRecord>) -> (r: Result<String, GafError>)
    ensures
        match records_text(records@) {
            Ok(t) => r matches Ok(s) && s@ == t,
            Err(e) => r == Err::<String, GafError>(e),
        },
{
    let mut out = String::new();
    let mut i: usize = 0;
    assert(records@.take(0) =~= Seq::<GafRecord>::empty());
    while i < records.len()
        invariant
            i <= records@.len(),
            records_text(records@.take(i as int)) matches Ok(t) && out@ == t,
        decreases records@.len() - i,
    {
        assert(records@.take(i + 1).drop_last() =~= records@.take(i as int));
        assert(records@.take(i + 1).last() == records@[i as int]);
        match records[i].write() {
            Ok(line) => {
                out.append(line.as_str());
            },
            Err(e) => {
                proof {
                    lemma_records_text_prefix(records@, (i + 1) as nat);
                }
                return Err(e);
            },
        }
        i = i + 1;
    }
    assert(records@.take(i as int) =~= records@);
    Ok(out)
}

} // verus!
