use gax::gaf::{GafRecord, GafStep, OptField};
use gax::gam::{complement, complement_char};
use gax::gamp::{multipath_of, single_of};
use gax::graph::{GFAExt, Graph, Segment};
use gax::vg::{Alignment, Edit, Mapping, Path, Position, Subpath};
use gax::{convert_gaf_to_gam, convert_gam_to_gaf, ConversionError};

fn graph() -> Graph {
    Graph {
        segments: vec![
            Segment { name: 1, sequence: "ACGT".to_string() },
            Segment { name: 2, sequence: "GGCA".to_string() },
            Segment { name: 3, sequence: "TTAC".to_string() },
        ],
    }
}

fn edit(from: i32, to: i32, seq: &str) -> Edit {
    Edit { from_length: from, to_length: to, sequence: seq.to_string() }
}

fn mapping(node: i64, offset: i64, rank: i64, edits: Vec<Edit>) -> Mapping {
    Mapping {
        position: Some(Position { node_id: node, offset, is_reverse: false, name: String::new() }),
        edit: edits,
        rank,
    }
}

fn alignment(mappings: Vec<Mapping>) -> Alignment {
    Alignment {
        sequence: "ACGTGG".to_string(),
        quality: vec![],
        name: "r1".to_string(),
        sample_name: String::new(),
        read_group: String::new(),
        path: Some(Path { name: String::new(), mapping: mappings, is_circular: false, length: 0 }),
        mapping_quality: 60,
        score: 12,
        fragment_prev: None,
        fragment_next: None,
        annotation: None,
    }
}

fn tag<'a>(rec: &'a GafRecord, key: &str) -> Option<&'a OptField> {
    rec.opt_fields.iter().find(|f| f.key == key)
}

#[test]
fn edit_classification() {
    assert!(edit(3, 3, "").is_match());
    assert!(edit(3, 3, "AAA").is_sub());
    assert!(edit(0, 3, "AAA").is_insertion());
    assert!(edit(3, 0, "").is_deletion());
    assert!(edit(0, 0, "").is_empty());
    assert!(!edit(0, 0, "").is_match());
    assert!(!edit(3, 3, "AAA").is_match());
    assert!(!edit(3, 3, "").is_sub());
    assert!(!edit(3, 0, "").is_insertion());
    assert!(!edit(0, 3, "AAA").is_deletion());
}

#[test]
fn complement_bases() {
    assert_eq!(complement_char('A'), 'T');
    assert_eq!(complement_char('G'), 'C');
    assert_eq!(complement("ACGTT".to_string()), "TGCAA");
}

#[test]
fn graph_lookups() {
    let g = graph();
    assert_eq!(g.node_to_length(2), Some(4));
    assert_eq!(g.node_to_sequence(1, false), Some("ACGT".to_string()));
    assert_eq!(g.node_to_sequence(1, true), Some("TGCA".to_string()));
    assert_eq!(g.node_to_length(9), None);
}

#[test]
fn gam_to_gaf_two_nodes() {
    let a = alignment(vec![
        mapping(1, 0, 1, vec![edit(4, 4, "")]),
        mapping(2, 0, 2, vec![edit(2, 2, "")]),
    ]);
    let recs = convert_gam_to_gaf(&[a], &graph()).unwrap();
    let rec = &recs[0];
    assert_eq!(rec.query_name, "r1");
    assert_eq!(rec.query_length, 6);
    assert_eq!(rec.strand, '+');
    assert_eq!(rec.path.iter().map(|s| s.name.as_str()).collect::<Vec<_>>(), vec!["1", "2"]);
    assert_eq!(rec.path_length, 8);
    assert_eq!(rec.path_start, 0);
    assert_eq!(rec.path_end, 5);
    assert_eq!(rec.matches, 6);
    assert_eq!(rec.block_length, 6);
    assert_eq!(tag(rec, "cs").unwrap().value, ":6");
    assert_eq!(tag(rec, "AS").unwrap().value, "12");
}

#[test]
fn gam_to_gaf_edits_in_cs() {
    let a = alignment(vec![mapping(
        1,
        0,
        1,
        vec![edit(1, 1, ""), edit(1, 1, "T"), edit(0, 2, "GG"), edit(2, 0, "")],
    )]);
    let rec = GafRecord::convert_from_gam(&a, &graph()).unwrap();
    assert_eq!(tag(&rec, "cs").unwrap().value, ":1*CT+GG-GT");
}

#[test]
fn gam_to_gaf_missing_position() {
    let mut m = mapping(1, 0, 1, vec![edit(4, 4, "")]);
    m.position = None;
    let a = alignment(vec![m]);
    assert_eq!(convert_gam_to_gaf(&[a], &graph()).unwrap_err(), ConversionError::MissingPosition);
    let a = alignment(vec![mapping(9, 0, 1, vec![edit(1, 1, "")])]);
    assert_eq!(GafRecord::convert_from_gam(&a, &graph()).unwrap_err(), ConversionError::NodeNotFound);
}

#[test]
fn gaf_to_gam_path_order_kept() {
    let a = alignment(vec![
        mapping(1, 0, 1, vec![edit(4, 4, "")]),
        mapping(2, 0, 2, vec![edit(2, 2, "")]),
    ]);
    let g = graph();
    let recs = convert_gam_to_gaf(&[a.clone()], &g).unwrap();
    let back = convert_gaf_to_gam(&recs, &g).unwrap();
    let path = back[0].path.as_ref().unwrap();
    let ids: Vec<(i64, bool)> = path
        .mapping
        .iter()
        .map(|m| (m.position.as_ref().unwrap().node_id, m.position.as_ref().unwrap().is_reverse))
        .collect();
    assert_eq!(ids, vec![(1, false), (2, false)]);
    assert_eq!(path.mapping[0].rank, 1);
    assert_eq!(path.mapping[1].rank, 2);
    assert_eq!(path.mapping[0].edit, vec![edit(4, 4, "")]);
    assert_eq!(path.mapping[1].edit, vec![edit(2, 2, "")]);
    assert_eq!(back[0].sequence, "TGCACC");
    assert_eq!(back[0].name, "r1");
    assert_eq!(back[0].score, 12);
}

#[test]
fn gaf_to_gam_bad_step_name() {
    let rec = GafRecord {
        query_name: "*".to_string(),
        query_length: 1,
        query_start: 0,
        query_end: 1,
        path_length: 4,
        path_start: 0,
        path_end: 1,
        matches: 1,
        block_length: 1,
        mapq: 5,
        strand: '+',
        path: vec![GafStep {
            name: "chr1".to_string(),
            is_reverse: false,
            is_stable: true,
            is_interval: false,
            start: None,
            end: None,
        }],
        opt_fields: vec![],
    };
    assert_eq!(convert_gaf_to_gam(&[rec], &graph()).unwrap_err(), ConversionError::ParseInt);
}

#[test]
fn multipath_lift_keeps_best_subpath() {
    let a = alignment(vec![mapping(1, 0, 1, vec![edit(4, 4, "")])]);
    let m = multipath_of(a.clone());
    assert_eq!(m.subpath.len(), 1);
    assert_eq!(m.subpath[0].path, a.path);
    let mut m2 = m.clone();
    m2.subpath.push(Subpath { path: None, next: vec![], score: 30, connection: vec![] });
    let back = single_of(m2);
    assert_eq!(back.score, 30);
    assert_eq!(back.path, None);
    let back = single_of(m);
    assert_eq!(back.path, a.path);
    assert_eq!(back.score, 12);
}

fn one_step_record(opt_fields: Vec<OptField>) -> GafRecord {
    GafRecord {
        query_name: "r".to_string(),
        query_length: 4,
        query_start: 0,
        query_end: 4,
        path_length: 4,
        path_start: 0,
        path_end: 3,
        matches: 4,
        block_length: 4,
        mapq: 9,
        strand: '+',
        path: vec![GafStep {
            name: "1".to_string(),
            is_reverse: false,
            is_stable: false,
            is_interval: false,
            start: None,
            end: None,
        }],
        opt_fields,
    }
}

fn field(key: &str, typ: &str, value: &str) -> OptField {
    OptField { key: key.to_string(), typ: typ.to_string(), value: value.to_string() }
}

#[test]
fn gaf_to_gam_tags() {
    let rec = one_step_record(vec![
        field("cs", "Z", ":4"),
        field("AS", "i", "17"),
        field("fn", "Z", "mate2"),
        field("fp", "Z", "mate0"),
        field("pd", "b", "1"),
    ]);
    let a = gax::vg::Alignment::convert_from_gaf(&rec, &graph()).unwrap();
    assert_eq!(a.score, 17);
    assert_eq!(a.fragment_next.as_ref().unwrap().name, "mate2");
    assert_eq!(a.fragment_prev.as_ref().unwrap().name, "mate0");
    assert_eq!(a.sequence, "TGCA");
    assert_eq!(a.mapping_quality, 9);
    let ann = a.annotation.unwrap();
    assert!(ann.iter().any(|x| x.key == "proper_pair" && x.value == gax::vg::AnnotationValue::Bool(true)));
}

#[test]
fn gaf_to_gam_errors() {
    let rec = one_step_record(vec![field("cs", "Z", ":4"), field("bq", "Z", "IIII")]);
    assert_eq!(gax::vg::Alignment::convert_from_gaf(&rec, &graph()).unwrap_err(), ConversionError::UnsupportedTag);
    let rec = one_step_record(vec![field("cs", "Z", ":4"), field("AS", "i", "x")]);
    assert_eq!(gax::vg::Alignment::convert_from_gaf(&rec, &graph()).unwrap_err(), ConversionError::ParseInt);
    let rec = one_step_record(vec![field("cs", "Z", ":9")]);
    assert_eq!(gax::vg::Alignment::convert_from_gaf(&rec, &graph()).unwrap_err(), ConversionError::PathMismatch);
    let rec = one_step_record(vec![field("cs", "Z", ":z")]);
    assert_eq!(gax::vg::Alignment::convert_from_gaf(&rec, &graph()).unwrap_err(), ConversionError::InvalidCigar);
    let rec = one_step_record(vec![field("cg", "Z", "4S")]);
    assert_eq!(gax::vg::Alignment::convert_from_gaf(&rec, &graph()).unwrap_err(), ConversionError::InvalidBase);
}

#[test]
fn gam_to_gaf_quality_and_fragments() {
    let mut a = alignment(vec![mapping(1, 0, 1, vec![edit(4, 4, "")])]);
    a.quality = vec![0, 10, 40];
    a.fragment_next = Some(gax::vg::Fragment::named("next".to_string()));
    a.fragment_prev = Some(gax::vg::Fragment::named("prev".to_string()));
    let rec = GafRecord::convert_from_gam(&a, &graph()).unwrap();
    assert_eq!(tag(&rec, "bq").unwrap().value, "!+I");
    assert_eq!(tag(&rec, "fn").unwrap().value, "next");
    assert_eq!(tag(&rec, "fp").unwrap().value, "prev");
    assert_eq!(tag(&rec, "AS").unwrap().typ, "i");
    a.quality = vec![230];
    assert_eq!(GafRecord::convert_from_gam(&a, &graph()).unwrap_err(), ConversionError::InvalidQuality);
}

#[test]
fn gam_to_gaf_without_path() {
    let mut a = alignment(vec![]);
    a.name = String::new();
    a.path = None;
    let rec = GafRecord::convert_from_gam(&a, &graph()).unwrap();
    assert_eq!(rec.query_name, "*");
    assert!(rec.path.is_empty());
    assert!(rec.opt_fields.is_empty());
}

#[test]
fn gaf_to_gam_insertion_at_node_start_goes_left() {
    let mut rec = one_step_record(vec![field("cs", "Z", ":4+AA:2")]);
    rec.path.push(GafStep {
        name: "2".to_string(),
        is_reverse: false,
        is_stable: false,
        is_interval: false,
        start: None,
        end: None,
    });
    let a = gax::vg::Alignment::convert_from_gaf(&rec, &graph()).unwrap();
    let path = a.path.unwrap();
    assert_eq!(path.mapping[0].edit, vec![edit(4, 4, ""), edit(0, 2, "AA")]);
    assert_eq!(path.mapping[1].edit, vec![edit(2, 2, "")]);
    assert_eq!(a.sequence, "TGCATTCC");
}

#[test]
fn gam_to_gaf_unused_bases_become_deletion() {
    let a = alignment(vec![
        mapping(1, 0, 1, vec![edit(2, 2, "")]),
        mapping(2, 0, 2, vec![edit(4, 4, "")]),
    ]);
    let rec = GafRecord::convert_from_gam(&a, &graph()).unwrap();
    assert_eq!(tag(&rec, "cs").unwrap().value, ":2-GT:4");
    assert_eq!(rec.path.iter().map(|s| s.name.as_str()).collect::<Vec<_>>(), vec!["1", "2"]);
    assert_eq!(rec.matches, 6);
}

#[test]
fn gam_to_gaf_worked_cs_example() {
    let g = Graph { segments: vec![Segment { name: 1, sequence: "ACGTACGTAC".to_string() }] };
    let mut a = alignment(vec![mapping(
        1,
        0,
        1,
        vec![edit(3, 3, ""), edit(0, 2, "GG"), edit(1, 1, ""), edit(2, 0, ""), edit(1, 1, "A"), edit(3, 3, "")],
    )]);
    a.sequence = "ACGGGTATAC".to_string();
    a.score = 0;
    let rec = GafRecord::convert_from_gam(&a, &g).unwrap();
    assert_eq!(rec.opt_fields.len(), 1);
    assert_eq!(tag(&rec, "cs").unwrap().value, ":3+GG:1-AC*GA:3");
    assert_eq!(tag(&rec, "cs").unwrap().typ, "Z");
    assert_eq!(rec.matches, 7);
    assert_eq!(rec.path_length, 10);
    assert_eq!(rec.path_start, 0);
    assert_eq!(rec.query_length, 10);
    assert_eq!(rec.block_length, 10);
}

#[test]
fn gam_to_gaf_pair_and_support_tags() {
    let mut a = alignment(vec![mapping(1, 0, 1, vec![edit(4, 4, "")])]);
    a.annotation = Some(vec![
        gax::vg::Annotation { key: "support".to_string(), value: gax::vg::AnnotationValue::Other },
        gax::vg::Annotation { key: "proper_pair".to_string(), value: gax::vg::AnnotationValue::Bool(true) },
        gax::vg::Annotation { key: "support".to_string(), value: gax::vg::AnnotationValue::Text("5".to_string()) },
    ]);
    let rec = GafRecord::convert_from_gam(&a, &graph()).unwrap();
    assert_eq!(tag(&rec, "pd").unwrap().value, "true");
    assert_eq!(tag(&rec, "AD").unwrap().value, "5");
    a.annotation = None;
    let rec = GafRecord::convert_from_gam(&a, &graph()).unwrap();
    assert!(tag(&rec, "pd").is_none());
    assert!(tag(&rec, "AD").is_none());
}

#[test]
fn gaf_to_gam_edits_per_step() {
    let g = Graph {
        segments: vec![
            Segment { name: 1, sequence: "ACGT".to_string() },
            Segment { name: 2, sequence: "TTA".to_string() },
        ],
    };
    let mut rec = one_step_record(vec![field("cs", "Z", ":4+GG:3")]);
    rec.path.push(GafStep {
        name: "2".to_string(),
        is_reverse: false,
        is_stable: false,
        is_interval: false,
        start: None,
        end: None,
    });
    let a = gax::vg::Alignment::convert_from_gaf(&rec, &g).unwrap();
    let path = a.path.unwrap();
    assert_eq!(path.mapping[0].edit, vec![edit(4, 4, ""), edit(0, 2, "GG")]);
    assert_eq!(path.mapping[1].edit, vec![edit(3, 3, "")]);
}
