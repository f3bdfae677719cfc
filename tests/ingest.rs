use sha2::Digest;
use sqlmd::batch::{Batcher, BATCH_SIZE};
use sqlmd::digest::{digest_hex, plan_ingest, to_hex, IngestPlan};
use sqlmd::error::SQLMDError;
use sqlmd::model::{Atom, TableCount};
use sqlmd::sql::{insert_statement, push_quoted};
use sqlmd::store::{
    clear_rows_statement, db_path, forget_hash_statement, hash_query, join_outcome, progress_line, save_hash_statement,
    schema_statements, table_count_query,
};
use sqlmd::finite::number_is_finite;
use sqlmd::text::{chars_of, parse_int, push_decimal};
use sqlmd::xyz::{parse_xyz, XyzEvent, XyzParser};

const TWO_FRAMES: &str = "3
comment iter:0 t=0.0
H 0.0 0.0 0.0 0.0 0.0 0.0 0.0
O -0.4 1.1 2.2 3.3 0.01 0.02 0.03
H 0.0 -1.0 -2.0 -3.0 0.0 0.0 0.0
3
comment iter:1 t=0.5
H 0.0 0.0 0.1 0.0 0.0 0.0 0.0
O -0.4 1.1 2.3 3.3 0.01 0.02 0.03
H 0.0 -1.0 -2.0 -3.0 0.0 0.0 0.0
";

fn lines(text: &str) -> Vec<String> {
    text.lines().map(String::from).collect()
}

fn atoms(events: &[XyzEvent]) -> Vec<&Atom> {
    events
        .iter()
        .filter_map(|e| match e {
            XyzEvent::Atom(a) => Some(a),
            XyzEvent::Frame { .. } => None,
        })
        .collect()
}

fn keys(events: &[XyzEvent]) -> Vec<(i64, i64)> {
    atoms(events).iter().map(|a| (a.step, a.atom_id)).collect()
}

fn frames(events: &[XyzEvent]) -> Vec<(i64, i64)> {
    events
        .iter()
        .filter_map(|e| match e {
            XyzEvent::Frame { step, count } => Some((*step, *count)),
            XyzEvent::Atom(_) => None,
        })
        .collect()
}

fn parse_ok(text: &str) -> Vec<XyzEvent> {
    match parse_xyz(&lines(text)) {
        Ok(v) => v,
        Err(e) => panic!("unexpected failure: {:?}", describe(&e)),
    }
}

fn describe(e: &SQLMDError) -> String {
    match e {
        SQLMDError::SQLError(m) => format!("sql: {}", m),
        SQLMDError::JointError(m) => format!("join: {}", m),
        SQLMDError::IOError(m) => format!("io: {}", m),
        SQLMDError::ParseError(m) => format!("parse: {}", m),
        SQLMDError::NotFoundError(m) => format!("not found: {}", m),
        SQLMDError::TruncatedFrame { step, expected, found } => {
            format!("truncated: {} {} {}", step, expected, found)
        }
    }
}

fn sha_hex(bytes: &[u8]) -> String {
    sha2::Sha256::digest(bytes).iter().map(|b| format!("{:02x}", b)).collect()
}

fn atom(step: i64, id: i64, element: &str) -> Atom {
    Atom {
        step,
        atom_id: id,
        element: element.to_string(),
        charge: "0.5".to_string(),
        x: "1".to_string(),
        y: "-2.25".to_string(),
        z: "3e-1".to_string(),
        vx: "0".to_string(),
        vy: "0".to_string(),
        vz: "0".to_string(),
    }
}

fn batch_rows(capacity: usize, n: usize) -> (Vec<String>, Vec<usize>) {
    let mut b = Batcher::new(capacity);
    let mut statements = Vec::new();
    for i in 0..n {
        if let Some(s) = b.push(atom(i as i64 / 7, i as i64 % 7, "C")) {
            statements.push(s);
        }
    }
    if let Some(s) = b.finish() {
        statements.push(s);
    }
    let mut rows = Vec::new();
    let mut sizes = Vec::new();
    for s in &statements {
        let body = s.strip_prefix("INSERT INTO traj VALUES ").expect("insert prefix");
        let inner = body.strip_prefix('(').and_then(|b| b.strip_suffix(')')).expect("parentheses");
        let parts: Vec<String> = inner.split("), (").map(String::from).collect();
        sizes.push(parts.len());
        rows.extend(parts);
    }
    (rows, sizes)
}

#[test]
fn two_frames_three_atoms_each() {
    let events = parse_ok(TWO_FRAMES);
    assert_eq!(atoms(&events).len(), 6);
    assert_eq!(keys(&events), vec![(0, 0), (0, 1), (0, 2), (1, 0), (1, 1), (1, 2)]);
    assert_eq!(frames(&events), vec![(0, 3), (1, 3)]);
    let o = atoms(&events)[1];
    assert_eq!(o.element, "O");
    assert_eq!(o.charge, "-0.4");
    assert_eq!(o.x, "1.1");
    assert_eq!(o.y, "2.2");
    assert_eq!(o.z, "3.3");
    assert_eq!(o.vx, "0.01");
    assert_eq!(o.vy, "0.02");
    assert_eq!(o.vz, "0.03");
    let d = digest_hex(TWO_FRAMES.as_bytes());
    assert_eq!(d, sha_hex(TWO_FRAMES.as_bytes()));
    assert_eq!(d.len(), 64);
}

#[test]
fn idempotent_rerun_skips() {
    let d = digest_hex(TWO_FRAMES.as_bytes());
    assert_eq!(plan_ingest(&None, &d), IngestPlan::Ingest);
    assert_eq!(plan_ingest(&Some(d.clone()), &d), IngestPlan::Skip);
    assert_eq!(plan_ingest(&Some(digest_hex(TWO_FRAMES.as_bytes())), &d), IngestPlan::Skip);
}

#[test]
fn changed_input_ingests() {
    let changed = TWO_FRAMES.replace("t=0.5", "t=0.6");
    let before = digest_hex(TWO_FRAMES.as_bytes());
    let after = digest_hex(changed.as_bytes());
    assert_ne!(before, after);
    assert_eq!(plan_ingest(&Some(before), &after), IngestPlan::Ingest);
    assert_eq!(keys(&parse_ok(&changed)).len(), 6);
}

#[test]
fn malformed_header_fails_to_parse() {
    let text = TWO_FRAMES.replacen("3", "three", 1);
    match parse_xyz(&lines(&text)) {
        Err(SQLMDError::ParseError(t)) => assert_eq!(t, "three"),
        other => panic!("expected a parse failure, got {:?}", other.map(|v| v.len()).map_err(|e| describe(&e))),
    }
}

#[test]
fn missing_iter_is_not_found() {
    let text = TWO_FRAMES.replace("comment iter:0 t=0.0", "comment t=0.0");
    match parse_xyz(&lines(&text)) {
        Err(SQLMDError::NotFoundError(t)) => assert_eq!(t, "iter"),
        other => panic!("expected not found, got {:?}", other.map(|v| v.len()).map_err(|e| describe(&e))),
    }
}

#[test]
fn truncated_frame_fails() {
    let mut ls = lines(TWO_FRAMES);
    ls.pop();
    match parse_xyz(&ls) {
        Err(SQLMDError::TruncatedFrame { step, expected, found }) => {
            assert_eq!((step, expected, found), (1, 3, 2));
        }
        other => panic!("expected a truncated frame, got {:?}", other.map(|v| v.len()).map_err(|e| describe(&e))),
    }
}

#[test]
fn missing_comment_line_is_not_found() {
    match parse_xyz(&lines("2\n")) {
        Err(SQLMDError::NotFoundError(t)) => assert_eq!(t, "comment"),
        other => panic!("expected not found, got {:?}", other.map(|v| v.len()).map_err(|e| describe(&e))),
    }
}

#[test]
fn row_count_is_sum_of_declared_counts() {
    let text = "2\nstep iter:7\nH 1 1 1 1 1 1 1\nH 1 1 1 1 1 1 1\n0\niter:8\n1\n iter:9 x\nC 1 1 1 1 1 1 1\n";
    let events = parse_ok(text);
    let total: i64 = frames(&events).iter().map(|f| f.1).sum();
    assert_eq!(total, 3);
    assert_eq!(atoms(&events).len(), 3);
}

#[test]
fn atom_ids_per_step_are_zero_to_n() {
    let text = "4\niter:5\nH 1 1 1 1 1 1 1\nH 1 1 1 1 1 1 1\nH 1 1 1 1 1 1 1\nH 1 1 1 1 1 1 1\n2\niter:6\nH 1 1 1 1 1 1 1\nH 1 1 1 1 1 1 1\n";
    let events = parse_ok(text);
    let ids5: Vec<i64> = keys(&events).iter().filter(|k| k.0 == 5).map(|k| k.1).collect();
    let ids6: Vec<i64> = keys(&events).iter().filter(|k| k.0 == 6).map(|k| k.1).collect();
    assert_eq!(ids5, vec![0, 1, 2, 3]);
    assert_eq!(ids6, vec![0, 1]);
}

#[test]
fn rows_keep_input_order() {
    let text = "2\niter:9\nA 1 1 1 1 1 1 1\nB 1 1 1 1 1 1 1\n1\niter:3\nC 1 1 1 1 1 1 1\n";
    let events = parse_ok(text);
    let order: Vec<(i64, i64, String)> =
        atoms(&events).iter().map(|a| (a.step, a.atom_id, a.element.clone())).collect();
    assert_eq!(
        order,
        vec![(9, 0, "A".to_string()), (9, 1, "B".to_string()), (3, 0, "C".to_string())]
    );
}

#[test]
fn batch_size_does_not_change_rows() {
    let (reference, sizes) = batch_rows(BATCH_SIZE, 23);
    assert_eq!(sizes, vec![23]);
    for b in [1usize, 2, 5, 7, 22, 23, 24] {
        let (rows, sizes) = batch_rows(b, 23);
        assert_eq!(rows, reference, "batch size {}", b);
        assert!(sizes.iter().all(|s| *s >= 1 && *s <= b));
        assert_eq!(sizes.len(), (23 + b - 1) / b);
    }
}

#[test]
fn batcher_hands_out_full_batches() {
    let mut b = Batcher::new(2);
    assert!(b.push(atom(0, 0, "H")).is_none());
    assert!(b.push(atom(0, 1, "H")).is_none());
    let s = b.push(atom(0, 2, "H")).expect("full batch");
    assert_eq!(
        s,
        "INSERT INTO traj VALUES (0, 0, 'H', 0.5, 1, -2.25, 3e-1, 0, 0, 0), (0, 1, 'H', 0.5, 1, -2.25, 3e-1, 0, 0, 0)"
    );
    assert_eq!(
        b.finish(),
        Some("INSERT INTO traj VALUES (0, 2, 'H', 0.5, 1, -2.25, 3e-1, 0, 0, 0)".to_string())
    );
    assert_eq!(Batcher::new(3).finish(), None);
}

#[test]
fn quote_in_element_is_doubled() {
    let rows = vec![atom(-1, 0, "O'H"), atom(i64::MIN, 1, "'")];
    let s = insert_statement(&rows).expect("statement");
    assert_eq!(
        s,
        "INSERT INTO traj VALUES (-1, 0, 'O''H', 0.5, 1, -2.25, 3e-1, 0, 0, 0), (-9223372036854775808, 1, '''', 0.5, 1, -2.25, 3e-1, 0, 0, 0)"
    );
    let events = parse_ok("1\niter:0\nO'H 1 2 3 4 5 6 7\n");
    assert_eq!(atoms(&events)[0].element, "O'H");
    let mut q = String::from("x=");
    push_quoted(&mut q, "it's ''");
    assert_eq!(q, "x='it''s '''''");
}

#[test]
fn empty_batch_has_no_statement() {
    assert_eq!(insert_statement(&[]), None);
}

#[test]
fn numbers_in_every_form_are_accepted() {
    let events = parse_ok("1\niter:+4\nFe 1e5 .5 5. +1.0E-3 -0 1E+05 -7.25e2 extra fields\n");
    let a = atoms(&events)[0];
    assert_eq!(a.step, 4);
    assert_eq!(a.element, "Fe");
    let got = vec![&a.charge, &a.x, &a.y, &a.z, &a.vx, &a.vy, &a.vz];
    assert_eq!(got, vec!["1e5", ".5", "5.", "+1.0E-3", "-0", "1E+05", "-7.25e2"]);
    let as_f64: Vec<f64> = got.iter().map(|t| t.parse::<f64>().unwrap()).collect();
    assert_eq!(as_f64[0], 100000.0);
    assert_eq!(as_f64[6], -725.0);
}

#[test]
fn non_numbers_are_parse_failures() {
    for bad in ["inf", "NaN", "1.2.3", "e5", "-", ".", "1e", "1e+", "0x10", "1,5", "--1"] {
        let text = format!("1\niter:0\nH 1 1 {} 1 1 1 1\n", bad);
        match parse_xyz(&lines(&text)) {
            Err(SQLMDError::ParseError(t)) => assert_eq!(t, format!("H 1 1 {} 1 1 1 1", bad)),
            other => panic!("{}: got {:?}", bad, other.map(|v| v.len()).map_err(|e| describe(&e))),
        }
    }
    match parse_xyz(&lines("1\niter:0\nH 1 1 1 1 1 1\n")) {
        Err(SQLMDError::ParseError(t)) => assert_eq!(t, "H 1 1 1 1 1 1"),
        other => panic!("short line: got {:?}", other.map(|v| v.len()).map_err(|e| describe(&e))),
    }
}

#[test]
fn bad_step_is_parse_failure() {
    match parse_xyz(&lines("1\ncomment iter:x1\n")) {
        Err(SQLMDError::ParseError(t)) => assert_eq!(t, "x1"),
        other => panic!("got {:?}", other.map(|v| v.len()).map_err(|e| describe(&e))),
    }
    match parse_xyz(&lines("1\ncomment iter:\n")) {
        Err(SQLMDError::ParseError(t)) => assert_eq!(t, ""),
        other => panic!("got {:?}", other.map(|v| v.len()).map_err(|e| describe(&e))),
    }
}

#[test]
fn header_whitespace_and_blank_line_end() {
    let text = "  1 \t\r\n iter: 12 \r\nH 1 1 1 1 1 1 1\r\n\nnot read\n";
    let events = parse_ok(text);
    assert_eq!(keys(&events), vec![(12, 0)]);
    let wide = "1\u{3000}\niter:2\u{2003}t\nH\u{00a0}1 1 1 1 1 1 1\n";
    let events = parse_ok(wide);
    assert_eq!(keys(&events), vec![(2, 0)]);
    assert_eq!(atoms(&events)[0].element, "H");
    assert!(parse_ok("").is_empty());
}

#[test]
fn non_positive_count_reads_no_atoms() {
    let events = parse_ok("-2\niter:1\n0\niter:2\n");
    assert_eq!(frames(&events), vec![(1, -2), (2, 0)]);
    assert!(atoms(&events).is_empty());
}

#[test]
fn header_out_of_range_fails() {
    match parse_xyz(&lines("9223372036854775808\n")) {
        Err(SQLMDError::ParseError(t)) => assert_eq!(t, "9223372036854775808"),
        other => panic!("got {:?}", other.map(|v| v.len()).map_err(|e| describe(&e))),
    }
    let events = parse_ok("0\niter:-9223372036854775808\n");
    assert_eq!(frames(&events), vec![(i64::MIN, 0)]);
}

#[test]
fn streaming_parser_reports_events_line_by_line() {
    let mut p = XyzParser::new();
    assert!(matches!(p.feed_line("1"), Ok(None)));
    assert!(matches!(p.feed_line("x iter:3"), Ok(Some(XyzEvent::Frame { step: 3, count: 1 }))));
    match p.feed_line("He 0 0 0 0 0 0 0") {
        Ok(Some(XyzEvent::Atom(a))) => assert_eq!((a.step, a.atom_id, a.element.as_str()), (3, 0, "He")),
        _ => panic!("expected an atom"),
    }
    assert!(p.finish().is_ok());
    assert!(matches!(p.feed_line(""), Ok(None)));
    assert!(matches!(p.feed_line("anything"), Ok(None)));
    assert!(p.finish().is_ok());
}

#[test]
fn parse_int_reads_signed_decimals() {
    let s = chars_of(" -42 +7 0x 9223372036854775807 ");
    assert_eq!(parse_int(&s, 1, 4), Some(-42));
    assert_eq!(parse_int(&s, 5, 7), Some(7));
    assert_eq!(parse_int(&s, 8, 10), None);
    assert_eq!(parse_int(&s, 11, 30), Some(i64::MAX));
    assert_eq!(parse_int(&s, 0, 0), None);
    let mut out = String::new();
    push_decimal(&mut out, -1203);
    assert_eq!(out, "-1203");
}

#[test]
fn digest_of_known_inputs() {
    assert_eq!(
        digest_hex(b"abc"),
        "ba7816bf8f01cfea414140de5dae2223b00361a396177a9cb410ff61f20015ad"
    );
    assert_eq!(
        digest_hex(b""),
        "e3b0c44298fc1c149afbf4c8996fb92427ae41e4649b934ca495991b7852b855"
    );
    assert_eq!(to_hex(&[0x00, 0x0f, 0xa0, 0xff]), "000fa0ff");
}

#[test]
fn store_statements() {
    assert_eq!(db_path("geo_end.xyz"), "geo_end.xyz.db");
    let fresh = schema_statements(&TableCount { count: 0 });
    assert_eq!(fresh.len(), 3);
    assert!(fresh[0].starts_with("CREATE TABLE IF NOT EXISTS traj (step INTEGER NOT NULL"));
    assert!(fresh[1].starts_with("CREATE TABLE IF NOT EXISTS metadata (key TEXT UNIQUE NOT NULL"));
    assert_eq!(fresh[2], "INSERT INTO metadata VALUES ('version', '1.0', 'none')");
    assert_eq!(schema_statements(&TableCount { count: 1 }).len(), 2);
    assert_eq!(
        save_hash_statement("ab01"),
        "REPLACE INTO metadata (key, value, unit) VALUES ('hash', 'ab01', 'sha256')"
    );
    assert_eq!(clear_rows_statement(), "DELETE FROM traj");
    assert_eq!(hash_query(), "SELECT value FROM metadata WHERE key = 'hash'");
    assert!(table_count_query().contains("name = 'metadata'"));
    assert_eq!(progress_line(17), "Loading MD step: 17\r");
    assert_eq!(progress_line(-3), "Loading MD step: -3\r");
}

#[test]
fn reader_failure_comes_first() {
    let r = join_outcome(
        Err(SQLMDError::ParseError("a".to_string())),
        Err(SQLMDError::SQLError("b".to_string())),
    );
    assert!(matches!(r, Err(SQLMDError::ParseError(ref t)) if t == "a"));
    let r = join_outcome(Ok(()), Err(SQLMDError::SQLError("b".to_string())));
    assert!(matches!(r, Err(SQLMDError::SQLError(ref t)) if t == "b"));
    assert!(join_outcome(Ok(()), Ok(())).is_ok());
}

fn atom_line_result(field: &str) -> Result<String, String> {
    let text = format!("1\niter:0\nH {} 0 0 0 0 0 0\n", field);
    match parse_xyz(&lines(&text)) {
        Ok(events) => Ok(atoms(&events)[0].charge.clone()),
        Err(SQLMDError::ParseError(t)) => Err(t),
        Err(e) => panic!("unexpected failure: {}", describe(&e)),
    }
}

const LIMIT: &str = "179769313486231580793728971405303415079934132710037826936173778980444968292764750946649017977587207096330286416692887910946555547851940402630657488671505820681908902000708383676273854845817711531764475730270069855571366959622842914819860834936475292719074168444365510704342711559699508093042880177904174497792";

const BELOW_LIMIT: &str = "179769313486231580793728971405303415079934132710037826936173778980444968292764750946649017977587207096330286416692887910946555547851940402630657488671505820681908902000708383676273854845817711531764475730270069855571366959622842914819860834936475292719074168444365510704342711559699508093042880177904174497791";

#[test]
fn overflowing_numbers_fail_the_frame() {
    for bad in ["1e400", "-2e308", "1e99999999999", "1.797693134862315808e308", LIMIT] {
        let line = format!("H {} 0 0 0 0 0 0", bad);
        assert_eq!(atom_line_result(bad), Err(line), "{}", bad);
        assert!(bad.parse::<f64>().unwrap().is_infinite());
    }
    let scaled = format!("0.{}e309", LIMIT);
    assert!(atom_line_result(&scaled).is_err());
}

#[test]
fn largest_finite_numbers_are_accepted() {
    for good in [
        "1.7976931348623157e308",
        "1.7976931348623158e308",
        "-1.7976931348623157E+308",
        BELOW_LIMIT,
        "0e99999999999",
        "1e-99999999999",
        "000000000000000000001e308",
        "0.00001e313",
    ] {
        assert_eq!(atom_line_result(good), Ok(good.to_string()), "{}", good);
        assert!(good.parse::<f64>().unwrap().is_finite());
    }
    let scaled = format!("0.{}e309", BELOW_LIMIT);
    assert!(atom_line_result(&scaled).is_ok());
}

#[test]
fn finiteness_on_spans() {
    let s = chars_of("x 1e308 1e309 -0.0e999999 9.99e308 ");
    assert!(number_is_finite(&s, 2, 7));
    assert!(!number_is_finite(&s, 8, 13));
    assert!(number_is_finite(&s, 14, 25));
    assert!(!number_is_finite(&s, 26, 34));
}

#[test]
fn writer_failure_wins_over_stopped_reader() {
    let r = join_outcome(
        Err(SQLMDError::JointError("the writer stopped".to_string())),
        Err(SQLMDError::SQLError("disk full".to_string())),
    );
    assert!(matches!(r, Err(SQLMDError::SQLError(ref t)) if t == "disk full"));
    let r = join_outcome(Err(SQLMDError::JointError("x".to_string())), Ok(()));
    assert!(matches!(r, Err(SQLMDError::JointError(ref t)) if t == "x"));
    assert_eq!(forget_hash_statement(), "DELETE FROM metadata WHERE key = 'hash'");
}
