use gax::gaf::{self, GafError, GafRecord, GafStep, OptField};

fn step(name: &str, is_reverse: bool) -> GafStep {
    GafStep {
        name: name.to_string(),
        is_reverse,
        is_stable: false,
        is_interval: false,
        start: None,
        end: None,
    }
}

fn opt(key: &str, typ: &str, value: &str) -> OptField {
    OptField { key: key.to_string(), typ: typ.to_string(), value: value.to_string() }
}

fn record(path: Vec<GafStep>, opt_fields: Vec<OptField>) -> GafRecord {
    GafRecord {
        query_name: "read1".to_string(),
        query_length: 10,
        query_start: 0,
        query_end: 10,
        path_length: 12,
        path_start: 1,
        path_end: 11,
        matches: 9,
        block_length: 10,
        mapq: 60,
        strand: '+',
        path,
        opt_fields,
    }
}

#[test]
fn gaf_read() {
    let line: &str = "read2\t7\t0\t7\t-\t>chr1:5-8>foo:8-16\t11\t1\t8\t7\t7\t60\tcg:Z:7M";
    let rec: GafRecord = GafRecord::parse(line).unwrap();
    assert_eq!(rec.query_name, "read2");
    assert_eq!(rec.query_length, 7);
    assert_eq!(rec.strand, '-');
}

#[test]
fn gaf_read_interval_steps() {
    let line = "read2\t7\t0\t7\t-\t>chr1:5-8>foo:8-16\t11\t1\t8\t7\t7\t60\tcg:Z:7M";
    let rec = GafRecord::parse(line).unwrap();
    let want = vec![
        GafStep {
            name: "chr1".to_string(),
            is_reverse: false,
            is_stable: true,
            is_interval: true,
            start: Some(5),
            end: Some(8),
        },
        GafStep {
            name: "foo".to_string(),
            is_reverse: false,
            is_stable: true,
            is_interval: true,
            start: Some(8),
            end: Some(16),
        },
    ];
    assert_eq!(rec.path, want);
    assert_eq!(rec.path_length, 11);
    assert_eq!(rec.path_start, 1);
    assert_eq!(rec.path_end, 8);
    assert_eq!(rec.matches, 7);
    assert_eq!(rec.block_length, 7);
    assert_eq!(rec.mapq, 60);
    assert_eq!(rec.opt_fields, vec![opt("cg", "Z", "7M")]);
}

#[test]
fn gaf_read_segment_and_stable_paths() {
    let rec = GafRecord::parse("q\t5\t0\t5\t+\t>12<7\t20\t0\t5\t5\t5\t*").unwrap();
    assert_eq!(rec.path, vec![step("12", false), step("7", true)]);
    assert_eq!(rec.mapq, -1);
    let rec = GafRecord::parse("q\t5\t0\t5\t+\tchrX\t20\t0\t5\t5\t5\t3").unwrap();
    assert_eq!(rec.path.len(), 1);
    assert_eq!(rec.path[0].name, "chrX");
    assert!(rec.path[0].is_stable);
    assert!(!rec.path[0].is_interval);
}

#[test]
fn gaf_empty_path_writes_stars() {
    let mut rec = record(vec![], vec![]);
    rec.mapq = -1;
    let text = rec.write().unwrap();
    assert_eq!(text, "read1\t10\t0\t10\t+\t*\t*\t*\t*\t*\t*\t255\n");
    let back = GafRecord::parse(text.trim_end_matches('\n')).unwrap();
    assert_eq!(back.path_length, -1);
    assert_eq!(back.path_start, -1);
    assert_eq!(back.path_end, -1);
    assert_eq!(back.matches, -1);
    assert_eq!(back.block_length, -1);
    assert_eq!(back.mapq, 255);
}

#[test]
fn gaf_write_then_parse() {
    let rec = record(
        vec![step("1", false), step("22", true)],
        vec![opt("cs", "Z", ":9*ag"), opt("AS", "i", "42")],
    );
    let text = rec.write().unwrap();
    assert_eq!(text, "read1\t10\t0\t10\t+\t>1<22\t12\t1\t11\t9\t10\t60\tcs:Z::9*ag\tAS:i:42\n");
    let back = GafRecord::parse(text.trim_end_matches('\n')).unwrap();
    assert_eq!(back, rec);
}

#[test]
fn gaf_empty_name_writes_star() {
    let mut rec = record(vec![step("3", false)], vec![]);
    rec.query_name = String::new();
    assert!(rec.write().unwrap().starts_with("*\t10\t"));
}

#[test]
fn gaf_interval_without_start_fails_to_write() {
    let mut s = step("chr1", false);
    s.is_stable = true;
    s.is_interval = true;
    s.end = Some(4);
    let rec = record(vec![s.clone()], vec![]);
    assert_eq!(rec.write(), Err(GafError::MissingStart));
    s.start = Some(1);
    s.end = None;
    let rec = record(vec![s], vec![]);
    assert_eq!(rec.write(), Err(GafError::MissingEnd));
}

#[test]
fn gaf_parse_errors() {
    assert_eq!(GafRecord::parse("q\t5\t0"), Err(GafError::MissingToken));
    assert_eq!(GafRecord::parse("q\tx\t0\t5\t+\t>1\t1\t0\t1\t1\t1\t60"), Err(GafError::ParseInt));
    assert_eq!(GafRecord::parse("q\t5\t0\t5\t+\t>chr1:5\t1\t0\t1\t1\t1\t60"), Err(GafError::MissingEnd));
    assert_eq!(GafRecord::parse("q\t5\t0\t5\t+\t>chr1:a-8\t1\t0\t1\t1\t1\t60"), Err(GafError::ParseInt));
    assert_eq!(GafRecord::parse("q\t5\t0\t5\t+\t>1\t1\t0\t1\t1\t1\t60\tcs"), Err(GafError::MalformedTag));
    assert_eq!(
        GafRecord::parse("q\t5\t0\t5\t+\t>1\t1\t0\t1\t1\t1\t60\tAS:i:1\tAS:i:2"),
        Err(GafError::DuplicateTag)
    );
    assert_eq!(GafRecord::parse("q\t5\t0\t5\t\t>1\t1\t0\t1\t1\t1\t60"), Err(GafError::MissingToken));
    assert_eq!(GafRecord::parse("q\t5\t0\t5\t+\t>1\t1\t0\t1\t1\t1\t9999999999"), Err(GafError::ParseInt));
    assert_eq!(GafRecord::parse("q\t5\t0\t5\t+\t>1\t1\t0\t1\t1\t1\t1000"), Err(GafError::ParseInt));
    assert_eq!(GafRecord::parse("q\t5\t0\t5\t+\t>1\t1\t0\t1\t1\t1\t-5"), Err(GafError::ParseInt));
}

#[test]
fn gaf_mapq_in_range_or_missing() {
    for q in ["0", "60", "255", "*"] {
        let line = format!("q\t5\t0\t5\t+\t>1\t1\t0\t1\t1\t1\t{}", q);
        let rec = GafRecord::parse(&line).unwrap();
        assert!((0..=255).contains(&rec.mapq) || rec.mapq == -1);
    }
}

#[test]
fn gaf_parse_many_lines() {
    let text = "a\t1\t0\t1\t+\t>1\t1\t0\t1\t1\t1\t60\r\nb\t2\t0\t2\t-\t<2\t2\t0\t2\t2\t2\t7\n";
    let recs = gaf::parse(text).unwrap();
    assert_eq!(recs.len(), 2);
    assert_eq!(recs[0].query_name, "a");
    assert_eq!(recs[0].mapq, 60);
    assert_eq!(recs[1].query_name, "b");
    assert_eq!(recs[1].path, vec![step("2", true)]);
    let out = gaf::write(&recs).unwrap();
    assert_eq!(gaf::parse(&out).unwrap(), recs);
    assert_eq!(gaf::parse("").unwrap(), vec![]);
    assert_eq!(gaf::parse("a\t1\n"), Err(GafError::MissingToken));
    assert_eq!(gaf::parse("a\tx\n"), Err(GafError::ParseInt));
}

#[test]
fn gaf_cs_operations() {
    let rec = record(vec![step("1", false)], vec![opt("cs", "Z", ":10*ag+TT-CCC")]);
    assert_eq!(rec.iter_cs(), vec![":10", "*ag", "+TT", "-CCC"]);
    let ops = rec.iter_cigar().unwrap();
    assert_eq!(ops.len(), 4);
    assert_eq!((ops[0].cat, ops[0].length), (':', 10));
    assert_eq!((ops[1].cat, ops[1].length, ops[1].target.as_str(), ops[1].query.as_str()), ('*', 1, "a", "g"));
    assert_eq!((ops[2].cat, ops[2].length, ops[2].query.as_str()), ('+', 2, "TT"));
    assert_eq!((ops[3].cat, ops[3].length, ops[3].target.as_str()), ('-', 3, "CCC"));
}

#[test]
fn gaf_cg_operations() {
    let rec = record(vec![step("1", false)], vec![opt("cg", "Z", "7M2I")]);
    assert!(rec.iter_cs().is_empty());
    let ops = rec.iter_cg();
    assert_eq!(ops.iter().map(|c| (c.cat, c.length)).collect::<Vec<_>>(), vec![('M', 1), ('I', 1)]);
    assert_eq!(rec.iter_cigar().unwrap().len(), 2);
    let none = record(vec![], vec![]);
    assert!(none.iter_cigar().unwrap().is_empty());
}

#[test]
fn gaf_bad_cs_is_an_error() {
    let rec = record(vec![step("1", false)], vec![opt("cs", "Z", ":x")]);
    assert_eq!(rec.iter_cigar().unwrap_err(), GafError::InvalidCigar);
    let rec = record(vec![step("1", false)], vec![opt("cs", "Z", "*a")]);
    assert_eq!(rec.iter_cigar().unwrap_err(), GafError::InvalidCigar);
}

#[test]
fn gaf_file_round_trip_with_intervals() {
    let interval = |name: &str, s: i64, e: i64| GafStep {
        name: name.to_string(),
        is_reverse: false,
        is_stable: true,
        is_interval: true,
        start: Some(s),
        end: Some(e),
    };
    let whole = GafStep {
        name: "chrX".to_string(),
        is_reverse: false,
        is_stable: true,
        is_interval: false,
        start: None,
        end: None,
    };
    let recs = vec![
        record(vec![interval("chr1", 5, 8), interval("foo", 8, 16)], vec![opt("cg", "Z", "7M")]),
        record(vec![whole], vec![]),
        record(vec![step("3", true)], vec![opt("AS", "i", "1")]),
    ];
    let text = gaf::write(&recs).unwrap();
    assert_eq!(gaf::parse(&text).unwrap(), recs);
}
