use noir_circuit_profiler::{
    batch_analyze, get_cost_database, is_circuit_file, load_cost_database_at,
    seeded_database_at, AnalysisError, CircuitFile, CostDatabase,
};

fn exact_seed() -> CostDatabase {
    seeded_database_at(&vec![20, 20, 20, 20])
}

fn file(name: &str, content: Option<&str>) -> CircuitFile {
    CircuitFile {
        name: name.to_string(),
        extension: name.rsplit_once('.').map(|(_, extension)| extension.to_string()),
        is_file: true,
        len: content.map_or(1, |text| text.len() as u64),
        content: content.map(|text| text.to_string()),
    }
}

const FOO: &str = r#"{ "opcodes": [ { "type": "BlackBoxFunction", "function": "foo" } ] }"#;

#[test]
fn circuit_files_are_non_empty_regular_json_files() {
    assert!(is_circuit_file(Some("json"), true, 1));
    assert!(is_circuit_file(Some("json"), true, u64::MAX));
    assert!(!is_circuit_file(Some("json"), true, 0));
    assert!(!is_circuit_file(Some("json"), false, 10));
    assert!(!is_circuit_file(Some("JSON"), true, 10));
    assert!(!is_circuit_file(Some("jso"), true, 10));
    assert!(!is_circuit_file(Some("json5"), true, 10));
    assert!(!is_circuit_file(Some(""), true, 10));
    assert!(!is_circuit_file(None, true, 10));
}

#[test]
fn a_missing_directory_fails_the_batch() {
    let mut db = exact_seed();
    let files = vec![file("a.json", Some(FOO))];
    assert_eq!(
        batch_analyze(&mut db, false, &files).err(),
        Some(AnalysisError::NotADirectory)
    );
    assert_eq!(db.len(), 4);
    assert_eq!(
        batch_analyze(&mut db, false, &Vec::new()).err(),
        Some(AnalysisError::NotADirectory)
    );
}

#[test]
fn an_empty_directory_gives_an_empty_report() {
    let mut db = exact_seed();
    assert!(batch_analyze(&mut db, true, &Vec::new()).expect("a report").is_empty());
}

#[test]
fn the_batch_reports_on_circuit_files_in_the_order_given() {
    let mut db = exact_seed();
    let mut directory = file("nested.json", Some(FOO));
    directory.is_file = false;
    let mut empty = file("empty.json", Some(""));
    empty.len = 0;
    let files = vec![
        file("b.json", Some(r#"{ "opcodes": [ { "type": "AssertZero" } ] }"#)),
        file("notes.txt", Some("not a circuit")),
        directory,
        file("broken.json", Some("{ broken")),
        empty,
        file("README", Some("{}")),
        file("unreadable.json", None),
        file("a.json", Some(r#"{ "opcodes": [ { "type": "X" }, { "type": "Y" } ] }"#)),
    ];
    let report = batch_analyze(&mut db, true, &files).expect("a report");
    let names: Vec<&str> = report.iter().map(|r| r.0.as_str()).collect();
    assert_eq!(names, vec!["b.json", "broken.json", "unreadable.json", "a.json"]);
    assert_eq!(report[0].1.as_ref().map(|a| a.constraints), Ok(1));
    assert_eq!(report[1].1.as_ref().err(), Some(&AnalysisError::DecodeFailure));
    assert_eq!(report[2].1.as_ref().err(), Some(&AnalysisError::FileReadFailure));
    assert_eq!(report[3].1.as_ref().map(|a| a.constraints), Ok(2));
    assert_eq!(report[3].1.as_ref().map(|a| a.total_opcodes), Ok(2));
}

#[test]
fn calibrate_then_reload() {
    let mut db = load_cost_database_at(None, &vec![20, 20, 20, 20]);
    let files = vec![
        file("one.json", Some(FOO)),
        file("two.json", Some(FOO)),
        file("three.json", Some(FOO)),
    ];
    let report = batch_analyze(&mut db, true, &files).expect("a report");
    assert_eq!(report.len(), 3);
    let first = report[0].1.as_ref().expect("an analysis");
    assert!((980..=1_019).contains(&first.constraints));
    for (_, result) in &report {
        let analysis = result.as_ref().expect("an analysis");
        assert_eq!(analysis.black_box_functions.len(), 1);
        assert_eq!(analysis.black_box_functions[0].0, "foo");
        assert_eq!(analysis.black_box_functions[0].1, 1);
    }
    let stored = get_cost_database(&db);
    let reloaded = load_cost_database_at(Some(stored), &vec![]);
    let contents = get_cost_database(&reloaded);
    let foo = contents
        .iter()
        .iter()
        .find(|(name, _)| name == "foo")
        .map(|(_, entry)| *entry)
        .expect("an entry for foo");
    assert!(foo.samples >= 3);
    assert_eq!(foo.samples, 3);
    assert_eq!(foo.confidence, 890_000);
    assert!(contents.last_updated().is_some());
}
