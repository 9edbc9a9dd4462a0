use noir_circuit_profiler::{
    analyze_diff_from_cost_model, compare_circuits, count_changes, find_operations_by_cost,
    get_cost_database, seeded_database_at, AnalysisError, CircuitAnalysis, CostDatabase,
};

fn exact_seed() -> CostDatabase {
    seeded_database_at(&vec![20, 20, 20, 20])
}

fn pairs(list: &[(&str, usize)]) -> Vec<(String, usize)> {
    list.iter().map(|(name, count)| (name.to_string(), *count)).collect()
}

fn changes(list: &[(&str, i128)]) -> Vec<(String, i128)> {
    list.iter().map(|(name, change)| (name.to_string(), *change)).collect()
}

fn analysis(
    constraints: usize,
    counts: &[(&str, usize)],
    calls: &[(&str, usize, usize)],
) -> CircuitAnalysis {
    CircuitAnalysis {
        constraints,
        bottlenecks: Vec::new(),
        total_opcodes: counts.iter().map(|c| c.1).sum(),
        operation_counts: pairs(counts),
        black_box_functions: calls
            .iter()
            .map(|(name, count, cost)| (name.to_string(), *count, *cost))
            .collect(),
        public_inputs: 0,
        private_inputs: 0,
        return_values: 0,
        confidence: 0,
    }
}

#[test]
fn comparison_returns_both_analyses() {
    let mut db = exact_seed();
    let first = r#"{ "opcodes": [ { "type": "AssertZero" }, { "type": "Jump" } ] }"#;
    let second = r#"{ "opcodes": [ { "type": "AssertZero" }, { "type": "Jump" },
                                   { "type": "BlackBoxFunction", "function": "sha256" } ] }"#;
    let (a, b) = compare_circuits(&mut db, first, second).expect("two analyses");
    assert_eq!(a.constraints, 2);
    assert_eq!(a.total_opcodes, 2);
    assert_eq!(b.total_opcodes, 3);
    assert!((2 + 38_023..=2 + 39_536).contains(&b.constraints));
    // the second run fed sha256 back
    let contents = get_cost_database(&db);
    assert_eq!(contents.iter()[0].0, "sha256");
    assert_eq!(contents.iter()[0].1.samples, 2);
}

#[test]
fn comparison_runs_the_second_analysis_on_what_the_first_left() {
    let mut db = exact_seed();
    let json = r#"{ "opcodes": [ { "type": "BlackBoxFunction", "function": "novel" } ] }"#;
    let (a, b) = compare_circuits(&mut db, json, json).expect("two analyses");
    assert!((980..=1_019).contains(&a.constraints));
    // the first run stored `novel`; the second read the stored cost
    assert!((940..=1_057).contains(&b.constraints));
    let contents = get_cost_database(&db);
    assert_eq!(contents.iter()[4].0, "novel");
    assert_eq!(contents.iter()[4].1.samples, 2);
}

#[test]
fn comparison_fails_at_the_first_text_that_is_not_json() {
    let good = r#"{ "opcodes": [ { "type": "BlackBoxFunction", "function": "novel" } ] }"#;
    let mut db = exact_seed();
    assert_eq!(
        compare_circuits(&mut db, "nope", good).err(),
        Some(AnalysisError::DecodeFailure)
    );
    assert_eq!(db.len(), 4);
    assert_eq!(
        compare_circuits(&mut db, good, "nope").err(),
        Some(AnalysisError::DecodeFailure)
    );
    // the first run had its effect before the second failed
    assert_eq!(db.len(), 5);
}

#[test]
fn comparator_attribution() {
    let db = exact_seed();
    let a = analysis(10_000, &[("Constraint", 10_000)], &[]);
    let b = analysis(
        10_000 + 38_800,
        &[("Constraint", 10_000), ("External", 1)],
        &[("sha256", 1, 38_800)],
    );
    let diff = analyze_diff_from_cost_model(&a, &b).expect("a notable difference");
    assert_eq!(diff.delta, 38_800);
    assert_eq!(diff.operations, changes(&[("External", 1)]));
    assert_eq!(diff.primitives, changes(&[("sha256", 1)]));
    for _ in 0..20 {
        let found = find_operations_by_cost(&db, diff.delta.unsigned_abs() as usize, 500);
        assert!(found.iter().take(3).any(|m| m.0 == "sha256"));
    }
}

#[test]
fn small_differences_are_not_told_apart() {
    let a = analysis(1_000, &[("Constraint", 1_000)], &[]);
    for constraints in [1_000, 1_099, 901, 1_001] {
        let b = analysis(constraints, &[("Constraint", 5)], &[("sha256", 1, 1)]);
        assert!(analyze_diff_from_cost_model(&a, &b).is_none(), "{}", constraints);
    }
    for (constraints, delta) in [(1_100, 100), (900, -100), (0, -1_000), (5_000, 4_000)] {
        let b = analysis(constraints, &[("Constraint", 1_000)], &[]);
        let diff = analyze_diff_from_cost_model(&a, &b).expect("a notable difference");
        assert_eq!(diff.delta, delta);
        assert!(diff.operations.is_empty());
        assert!(diff.primitives.is_empty());
    }
}

#[test]
fn differences_are_listed_by_size() {
    let a = analysis(
        0,
        &[("Constraint", 50), ("External", 4), ("Jump", 7), ("Gone", 2)],
        &[("sha256", 3, 1), ("keccak256", 1, 1)],
    );
    let b = analysis(
        90_000,
        &[("External", 9), ("Constraint", 20), ("Jump", 7), ("New", 30)],
        &[("keccak256", 1, 1), ("pedersen_hash", 5, 1), ("sha256", 1, 1)],
    );
    let diff = analyze_diff_from_cost_model(&a, &b).expect("a notable difference");
    assert_eq!(diff.delta, 90_000);
    assert_eq!(
        diff.operations,
        changes(&[("Constraint", -30), ("New", 30), ("External", 5), ("Gone", -2)])
    );
    assert_eq!(diff.primitives, changes(&[("pedersen_hash", 5), ("sha256", -2)]));
    let back = analyze_diff_from_cost_model(&b, &a).expect("a notable difference");
    assert_eq!(back.delta, -90_000);
    assert_eq!(
        back.operations,
        changes(&[("Constraint", 30), ("New", -30), ("External", -5), ("Gone", 2)])
    );
}

#[test]
fn count_changes_cover_names_of_either_side() {
    assert!(count_changes(&Vec::new(), &Vec::new()).is_empty());
    assert_eq!(
        count_changes(&pairs(&[("a", 1)]), &Vec::new()),
        changes(&[("a", -1)])
    );
    assert_eq!(
        count_changes(&Vec::new(), &pairs(&[("a", 1), ("b", 3)])),
        changes(&[("b", 3), ("a", 1)])
    );
    assert_eq!(
        count_changes(&pairs(&[("a", 2), ("b", 2)]), &pairs(&[("b", 3), ("a", 1)])),
        changes(&[("a", -1), ("b", 1)])
    );
    assert!(count_changes(&pairs(&[("a", 2)]), &pairs(&[("a", 2)])).is_empty());
    assert_eq!(
        count_changes(&pairs(&[("big", usize::MAX)]), &pairs(&[("other", usize::MAX)])),
        changes(&[("big", -(usize::MAX as i128)), ("other", usize::MAX as i128)])
    );
}
