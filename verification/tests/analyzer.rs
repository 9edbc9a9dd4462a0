use noir_circuit_profiler::{
    analyze_circuit, analyze_record, analyze_record_at, apply_feedback, arrange_descending,
    constraint_breakdown, get_cost_database, has_sequential_dependencies, load_cost_database,
    proving_time_basis,
    scan_record, seeded_database_at, update_cost_database_at, AnalysisError, AnalysisNoise,
    CircuitAnalysis, CircuitRecord, ConstraintBreakdown, CostDatabase, CostEntry, Opcode,
    ParallelGain, ProvingTimeBasis,
};

fn exact_seed() -> CostDatabase {
    seeded_database_at(&vec![20, 20, 20, 20])
}

fn entry_of(db: &CostDatabase, name: &str) -> Option<CostEntry> {
    let contents = get_cost_database(db);
    for (stored, entry) in contents.iter() {
        if stored == name {
            return Some(*entry);
        }
    }
    None
}

fn plain(kind: &str) -> Opcode {
    Opcode {
        kind: kind.to_string(),
        function: "unknown".to_string(),
        terms: Vec::new(),
        inputs: Vec::new(),
        outputs: Vec::new(),
    }
}

fn call(function: &str) -> Opcode {
    let mut opcode = plain("BlackBoxFunction");
    opcode.function = function.to_string();
    opcode
}

fn constraint(terms: usize) -> Opcode {
    let mut opcode = plain("AssertZero");
    opcode.terms = (0..terms).map(|i| Some(format!("w{}", i))).collect();
    opcode
}

fn circuit(opcodes: Vec<Opcode>) -> CircuitRecord {
    CircuitRecord { opcodes, public_inputs: 0, return_values: 0, witnesses: Some(0) }
}

fn quiet() -> AnalysisNoise {
    AnalysisNoise { scan: vec![20; 256], feedback: vec![20; 64], stamp: "stamp".to_string() }
}

fn pairs(list: &[(&str, usize)]) -> Vec<(String, usize)> {
    list.iter().map(|(name, count)| (name.to_string(), *count)).collect()
}

#[test]
fn empty_circuit() {
    let mut db = exact_seed();
    let before = get_cost_database(&db);
    let analysis = analyze_circuit(
        &mut db,
        r#"{ "opcodes": [], "public_inputs": [], "return_values": [] }"#,
    )
    .expect("an analysis");
    assert_eq!(analysis.constraints, 0);
    assert_eq!(analysis.total_opcodes, 0);
    assert!(analysis.bottlenecks.is_empty());
    assert!(analysis.operation_counts.is_empty());
    assert!(analysis.black_box_functions.is_empty());
    assert_eq!(analysis.public_inputs, 0);
    assert_eq!(analysis.private_inputs, 0);
    assert_eq!(analysis.return_values, 0);
    assert_eq!(analysis.confidence, 0);
    // no constraints: no time, and no parallel gain to apply
    assert_eq!(
        proving_time_basis(&analysis),
        ProvingTimeBasis { base_microseconds: 0, parallel: None }
    );
    // nothing was measured, so nothing is fed back
    assert_eq!(get_cost_database(&db).iter(), before.iter());
    assert_eq!(get_cost_database(&db).last_updated(), None);
}

#[test]
fn the_default_analysis_is_empty() {
    let analysis = CircuitAnalysis::default();
    assert_eq!(analysis.constraints, 0);
    assert_eq!(analysis.total_opcodes, 0);
    assert!(analysis.bottlenecks.is_empty());
    assert!(analysis.operation_counts.is_empty());
    assert!(analysis.black_box_functions.is_empty());
    assert_eq!(
        (analysis.public_inputs, analysis.private_inputs, analysis.return_values),
        (0, 0, 0)
    );
    assert_eq!(analysis.confidence, 0);
}

#[test]
fn single_assert_zero_without_terms() {
    let mut db = exact_seed();
    let analysis = analyze_circuit(&mut db, r#"{ "opcodes": [ { "type": "AssertZero" } ] }"#)
        .expect("an analysis");
    assert_eq!(analysis.constraints, 1);
    assert_eq!(analysis.total_opcodes, 1);
    assert!(analysis.bottlenecks.is_empty());
    assert_eq!(analysis.operation_counts, pairs(&[("Constraint", 1)]));
    assert_eq!(analysis.confidence, 980_000);
}

#[test]
fn a_constraint_costs_one_for_every_four_terms() {
    let db = exact_seed();
    for (terms, cost) in [(0, 1), (1, 1), (3, 1), (4, 1), (5, 2), (8, 2), (9, 3), (41, 11)] {
        let (analysis, _) = scan_record(&db, &circuit(vec![constraint(terms)]), &vec![]);
        assert_eq!(analysis.constraints, cost, "{} terms", terms);
    }
}

#[test]
fn single_sha256_on_a_fresh_database() {
    let mut db = exact_seed();
    let analysis = analyze_circuit(
        &mut db,
        r#"{ "opcodes": [ { "type": "BlackBoxFunction", "function": "sha256" } ] }"#,
    )
    .expect("an analysis");
    assert!((38_023..=39_536).contains(&analysis.constraints));
    assert_eq!(analysis.confidence, 830_000);
    assert_eq!(analysis.black_box_functions.len(), 1);
    assert_eq!(analysis.black_box_functions[0].0, "sha256");
    assert_eq!(analysis.black_box_functions[0].1, 1);
    assert_eq!(analysis.black_box_functions[0].2, analysis.constraints);
    assert_eq!(analysis.bottlenecks, vec![("External".to_string(), analysis.constraints)]);
}

#[test]
fn single_sha256_on_a_database_seeded_by_the_clock() {
    // the seed is read under noise once, and the lookup once more
    let mut db = load_cost_database(None);
    let analysis = analyze_circuit(
        &mut db,
        r#"{ "opcodes": [ { "type": "BlackBoxFunction", "function": "sha256" } ] }"#,
    )
    .expect("an analysis");
    assert!((37_262..=40_287).contains(&analysis.constraints), "{}", analysis.constraints);
    assert_eq!(analysis.confidence, 830_000);
    assert_eq!(entry_of(&db, "sha256").unwrap().samples, 2);
    assert_eq!(entry_of(&db, "sha256").unwrap().confidence, 870_000);
}

#[test]
fn hash_only_circuit() {
    let opcode = r#"{ "type": "BlackBoxFunction", "function": "keccak256" }"#;
    let json = format!(
        r#"{{ "opcodes": [ {0}, {0}, {0}, {0}, {0} ], "public_inputs": [] }}"#,
        opcode
    );
    let mut db = exact_seed();
    let analysis = analyze_circuit(&mut db, &json).expect("an analysis");
    assert_eq!(analysis.total_opcodes, 5);
    assert_eq!(analysis.black_box_functions.len(), 1);
    let (name, calls, unit) = analysis.black_box_functions[0].clone();
    assert_eq!((name.as_str(), calls), ("keccak256", 5));
    assert!((53_900..=56_045).contains(&unit));
    assert_eq!(analysis.operation_counts, pairs(&[("External", 5)]));
    assert!((5 * 53_900..=5 * 56_045).contains(&analysis.constraints));
    assert_eq!(analysis.bottlenecks.len(), 5);
    assert_eq!(analysis.bottlenecks[0], ("External".to_string(), unit));
    let costs: usize = analysis.bottlenecks.iter().map(|b| b.1).sum();
    assert_eq!(costs, analysis.constraints);
    assert_eq!(analysis.public_inputs, 0);
    assert_eq!(analysis.confidence, 830_000);
    // called five times, not once: nothing is fed back
    assert_eq!(entry_of(&db, "keccak256").unwrap().samples, 1);
    // without public inputs no parallel gain cuts the time, whichever applies
    let basis = proving_time_basis(&analysis);
    assert_eq!(basis.base_microseconds, analysis.constraints as u128 * 20);
    assert!(basis.parallel.is_some());
    assert_eq!(analysis.public_inputs, 0);
}

#[test]
fn hash_only_circuit_under_known_noise() {
    let mut db = exact_seed();
    let record = circuit(vec![call("keccak256"); 5]);
    let noise = AnalysisNoise {
        scan: vec![0, 10, 20, 30, 39],
        feedback: vec![],
        stamp: "stamp".to_string(),
    };
    let analysis = analyze_record_at(&mut db, &record, &noise);
    assert_eq!(analysis.constraints, 274_945);
    assert_eq!(analysis.black_box_functions, vec![("keccak256".to_string(), 5, 53_900)]);
    assert_eq!(
        analysis.bottlenecks,
        vec![
            ("External".to_string(), 53_900),
            ("External".to_string(), 54_450),
            ("External".to_string(), 55_000),
            ("External".to_string(), 55_550),
            ("External".to_string(), 56_045),
        ]
    );
    assert_eq!(get_cost_database(&db).last_updated(), None);
}

#[test]
fn mixed_circuit() {
    let mut opcodes = vec![constraint(4); 100];
    opcodes.push(call("sha256"));
    opcodes.push(call("sha256"));
    let record = CircuitRecord { opcodes, public_inputs: 1, return_values: 2, witnesses: None };
    let mut db = exact_seed();
    let mut noise = quiet();
    noise.scan[101] = 0;
    let analysis = analyze_record_at(&mut db, &record, &noise);
    assert_eq!(analysis.total_opcodes, 102);
    assert_eq!(analysis.constraints, 100 + 38_799 + 38_023);
    assert_eq!(analysis.operation_counts, pairs(&[("Constraint", 100), ("External", 2)]));
    assert_eq!(analysis.black_box_functions, vec![("sha256".to_string(), 2, 38_799)]);
    assert_eq!(
        analysis.bottlenecks,
        vec![("External".to_string(), 38_799), ("External".to_string(), 38_023)]
    );
    assert_eq!(analysis.public_inputs, 1);
    assert_eq!(analysis.private_inputs, 3);
    assert_eq!(analysis.return_values, 2);
    assert_eq!(analysis.confidence, 867_500);
    // a hundred constraints: their mean share of the constraints is fed back
    assert_eq!(
        entry_of(&db, "AssertZero"),
        Some(CostEntry { cost: 769, confidence: 830_000, samples: 1 })
    );
    // sha256 was called twice, not once: it stands as seeded
    assert_eq!(
        entry_of(&db, "sha256"),
        Some(CostEntry { cost: 38_799, confidence: 830_000, samples: 1 })
    );
    assert_eq!(get_cost_database(&db).last_updated().map(|s| s.as_str()), Some("stamp"));
}

#[test]
fn mixed_circuit_from_json() {
    let constraint = r#"{ "type": "AssertZero", "expression": { "terms": [
        { "variable": "a" }, { "variable": "b" }, { "variable": "c" }, { "variable": "d" } ] } }"#;
    let call = r#"{ "type": "BlackBoxFunction", "function": "sha256" }"#;
    let mut opcodes: Vec<&str> = vec![constraint; 100];
    opcodes.push(call);
    opcodes.push(call);
    let json = format!(r#"{{ "opcodes": [ {} ] }}"#, opcodes.join(", "));
    let mut db = exact_seed();
    let analysis = analyze_circuit(&mut db, &json).expect("an analysis");
    let external: usize = analysis.bottlenecks.iter().map(|b| b.1).sum();
    assert_eq!(analysis.bottlenecks.len(), 2);
    assert!((2 * 38_023..=2 * 39_536).contains(&external));
    assert_eq!(analysis.constraints, 100 + external);
    assert_eq!(analysis.private_inputs, 4);
    let fed = entry_of(&db, "AssertZero").expect("an entry for the constraints");
    let mean = analysis.constraints / 100;
    assert!(fed.cost >= mean * 980 / 1000 && fed.cost <= mean * 1019 / 1000);
    assert_eq!(entry_of(&db, "sha256").unwrap().samples, 1);
    assert!(get_cost_database(&db).last_updated().is_some());
}

#[test]
fn unknown_opcode() {
    let mut db = exact_seed();
    let analysis = analyze_circuit(&mut db, r#"{ "opcodes": [ { "type": "Foo" } ] }"#)
        .expect("an analysis");
    assert!(analysis.operation_counts.contains(&("Foo".to_string(), 1)));
    assert_eq!(analysis.operation_counts.len(), 1);
    assert_eq!(analysis.constraints, 1);
    assert_eq!(analysis.confidence, 900_000);
    assert!(analysis.black_box_functions.is_empty());
    assert!(analysis.bottlenecks.is_empty());
    assert_eq!(db.len(), 4);
}

#[test]
fn an_opcode_without_type_counts_as_unknown() {
    let mut db = exact_seed();
    let analysis = analyze_circuit(&mut db, r#"{ "opcodes": [ {}, { "type": 3 } ] }"#)
        .expect("an analysis");
    assert_eq!(analysis.operation_counts, pairs(&[("Unknown", 2)]));
    assert_eq!(analysis.constraints, 2);
}

#[test]
fn a_call_without_function_is_costed_as_unknown() {
    let mut db = exact_seed();
    let record = circuit(vec![plain("BlackBoxFunction")]);
    let analysis = analyze_record_at(&mut db, &record, &quiet());
    assert_eq!(analysis.black_box_functions, vec![("unknown".to_string(), 1, 1_000)]);
    assert_eq!(analysis.constraints, 1_000);
    assert!(analysis.bottlenecks.is_empty());
    assert_eq!(
        entry_of(&db, "unknown"),
        Some(CostEntry { cost: 1_000, confidence: 830_000, samples: 1 })
    );
}

#[test]
fn ill_formed_text_is_a_decode_failure_and_changes_nothing() {
    let mut db = exact_seed();
    let before = get_cost_database(&db);
    assert_eq!(analyze_circuit(&mut db, "{ opcodes").err(), Some(AnalysisError::DecodeFailure));
    assert_eq!(analyze_circuit(&mut db, "").err(), Some(AnalysisError::DecodeFailure));
    assert_eq!(get_cost_database(&db).iter(), before.iter());
    assert_eq!(get_cost_database(&db).last_updated(), None);
}

#[test]
fn constraints_are_the_sum_of_the_costs() {
    let db = exact_seed();
    let record = circuit(vec![
        constraint(9),
        call("pedersen_hash"),
        plain("MemoryOp"),
        constraint(0),
        call("ecdsa_secp256k1"),
        call("pedersen_hash"),
    ]);
    let (analysis, instances) = scan_record(&db, &record, &vec![20, 0, 20, 20, 39, 39]);
    assert_eq!(analysis.constraints, 3 + 28_167 + 1 + 1 + 5_095 + 29_288);
    assert_eq!(analysis.total_opcodes, 6);
    assert_eq!(
        analysis.black_box_functions,
        vec![
            ("pedersen_hash".to_string(), 2, 28_167),
            ("ecdsa_secp256k1".to_string(), 1, 5_095),
        ]
    );
    assert_eq!(
        analysis.bottlenecks,
        vec![("External".to_string(), 28_167), ("External".to_string(), 29_288)]
    );
    assert_eq!(
        analysis.operation_counts,
        pairs(&[("External", 3), ("Constraint", 2), ("MemoryOp", 1)])
    );
    assert_eq!(
        instances,
        pairs(&[("AssertZero", 2), ("pedersen_hash", 2), ("MemoryOp", 1), ("ecdsa_secp256k1", 1)])
    );
}

#[test]
fn constraints_stop_at_the_largest_integer() {
    let mut db = CostDatabase::new();
    update_cost_database_at(&mut db, "huge", usize::MAX, 20, "t");
    let record = circuit(vec![call("huge"), call("huge"), plain("Other")]);
    let (analysis, _) = scan_record(&db, &record, &vec![20, 20, 20]);
    assert_eq!(analysis.constraints, usize::MAX);
    assert_eq!(analysis.bottlenecks.len(), 2);
}

#[test]
fn a_cost_of_exactly_ten_thousand_is_no_bottleneck() {
    let mut db = CostDatabase::new();
    update_cost_database_at(&mut db, "edge", 10_000, 20, "t");
    update_cost_database_at(&mut db, "over", 10_001, 20, "t");
    let (analysis, _) = scan_record(&db, &circuit(vec![call("edge"), call("over")]), &vec![20, 20]);
    assert_eq!(analysis.bottlenecks, vec![("External".to_string(), 10_001)]);
}

#[test]
fn categories_are_listed_by_descending_count() {
    let db = exact_seed();
    let mut opcodes = vec![plain("A")];
    opcodes.extend(vec![plain("B"); 3]);
    opcodes.extend(vec![constraint(1); 2]);
    opcodes.extend(vec![plain("C"); 3]);
    opcodes.push(plain("A"));
    opcodes.push(call("sha256"));
    let (analysis, _) = scan_record(&db, &circuit(opcodes), &vec![]);
    assert_eq!(
        analysis.operation_counts,
        pairs(&[("B", 3), ("C", 3), ("A", 2), ("Constraint", 2), ("External", 1)])
    );
    for pair in analysis.operation_counts.windows(2) {
        assert!(pair[0].1 >= pair[1].1);
    }
    let total: usize = analysis.operation_counts.iter().map(|c| c.1).sum();
    assert_eq!(total, analysis.total_opcodes);
}

#[test]
fn arranging_keeps_the_order_of_equal_counts() {
    let sorted = arrange_descending(&pairs(&[("a", 1), ("b", 5), ("c", 1), ("d", 5), ("e", 9)]));
    assert_eq!(sorted, pairs(&[("e", 9), ("b", 5), ("d", 5), ("a", 1), ("c", 1)]));
    assert!(arrange_descending(&Vec::new()).is_empty());
}

#[test]
fn confidence_is_a_running_mean_that_favours_later_opcodes() {
    let db = exact_seed();
    let confidence = |opcodes: Vec<Opcode>| scan_record(&db, &circuit(opcodes), &vec![]).0.confidence;
    assert_eq!(confidence(vec![constraint(1)]), 980_000);
    assert_eq!(confidence(vec![plain("X")]), 900_000);
    assert_eq!(confidence(vec![call("sha256")]), 830_000);
    assert_eq!(confidence(vec![constraint(1), plain("X")]), 940_000);
    assert_eq!(confidence(vec![plain("X"), constraint(1)]), 940_000);
    assert_eq!(confidence(vec![constraint(1), plain("X"), call("sha256")]), 885_000);
    assert_eq!(confidence(vec![call("sha256"), plain("X"), constraint(1)]), 922_500);
    assert_eq!(confidence(vec![plain("X"), plain("X"), plain("X")]), 900_000);
    assert_eq!(
        confidence(vec![constraint(1), call("sha256"), call("sha256"), call("sha256")]),
        848_750
    );
}

#[test]
fn confidence_stays_between_zero_and_one() {
    let mut db = CostDatabase::new();
    for _ in 0..12 {
        update_cost_database_at(&mut db, "sure", 10, 20, "t");
    }
    let mut opcodes = vec![call("sure"); 20];
    opcodes.extend(vec![constraint(2); 20]);
    let (analysis, _) = scan_record(&db, &circuit(opcodes), &vec![]);
    assert!(analysis.confidence <= 1_000_000);
    assert!(analysis.confidence >= 830_000);
}

#[test]
fn unit_cost_is_that_of_the_first_call() {
    let db = exact_seed();
    let record = circuit(vec![call("sha256"), call("keccak256"), call("sha256")]);
    let (analysis, _) = scan_record(&db, &record, &vec![39, 20, 0]);
    assert_eq!(
        analysis.black_box_functions,
        vec![("sha256".to_string(), 2, 39_536), ("keccak256".to_string(), 1, 55_000)]
    );
    assert_eq!(analysis.constraints, 39_536 + 55_000 + 38_023);
}

#[test]
fn readings_past_the_end_of_the_tape_count_as_zero() {
    let db = exact_seed();
    let record = circuit(vec![call("sha256"), call("sha256")]);
    let (analysis, _) = scan_record(&db, &record, &vec![20]);
    assert_eq!(analysis.constraints, 38_799 + 38_023);
}

#[test]
fn a_primitive_called_once_feeds_its_cost_back() {
    let mut db = exact_seed();
    let record = circuit(vec![call("sha256"), call("foo"), plain("Other")]);
    let noise = AnalysisNoise {
        scan: vec![39, 0, 20],
        feedback: vec![0, 7, 39, 7, 7, 7],
        stamp: "then".to_string(),
    };
    let analysis = analyze_record_at(&mut db, &record, &noise);
    assert_eq!(
        analysis.black_box_functions,
        vec![("sha256".to_string(), 1, 39_536), ("foo".to_string(), 1, 980)]
    );
    // sha256: stored 38799 with one sample, measured 39536 read at 0.98
    assert_eq!(
        entry_of(&db, "sha256"),
        Some(CostEntry { cost: (38_799 + 38_745) / 2, confidence: 870_000, samples: 2 })
    );
    // foo: new, measured 980 read at 1.019
    assert_eq!(
        entry_of(&db, "foo"),
        Some(CostEntry { cost: 998, confidence: 830_000, samples: 1 })
    );
    assert_eq!(entry_of(&db, "Other"), None);
    assert_eq!(db.len(), 5);
    assert_eq!(get_cost_database(&db).last_updated().map(|s| s.as_str()), Some("then"));
}

#[test]
fn fewer_than_ten_constraints_feed_nothing_back() {
    let mut db = exact_seed();
    let analysis = analyze_record_at(&mut db, &circuit(vec![constraint(4); 9]), &quiet());
    assert_eq!(analysis.constraints, 9);
    assert_eq!(entry_of(&db, "AssertZero"), None);
    assert_eq!(get_cost_database(&db).last_updated(), None);
    let analysis = analyze_record_at(&mut db, &circuit(vec![constraint(8); 10]), &quiet());
    assert_eq!(analysis.constraints, 20);
    assert_eq!(
        entry_of(&db, "AssertZero"),
        Some(CostEntry { cost: 2, confidence: 830_000, samples: 1 })
    );
}

#[test]
fn an_operation_named_black_box_function_feeds_nothing_back() {
    let mut db = exact_seed();
    let record = circuit(vec![call("BlackBoxFunction")]);
    let analysis = analyze_record_at(&mut db, &record, &quiet());
    assert_eq!(analysis.black_box_functions, vec![("BlackBoxFunction".to_string(), 1, 1_000)]);
    assert_eq!(entry_of(&db, "BlackBoxFunction"), None);
    assert_eq!(db.len(), 4);
}

#[test]
fn feedback_can_be_applied_on_its_own() {
    let mut db = CostDatabase::new();
    let analysis = CircuitAnalysis {
        constraints: 1_234,
        bottlenecks: Vec::new(),
        total_opcodes: 13,
        operation_counts: pairs(&[("Constraint", 12), ("External", 1)]),
        black_box_functions: vec![("poseidon".to_string(), 1, 300)],
        public_inputs: 0,
        private_inputs: 0,
        return_values: 0,
        confidence: 0,
    };
    let instances = pairs(&[("AssertZero", 12), ("poseidon", 1), ("idle", 0)]);
    apply_feedback(&mut db, &analysis, &instances, &vec![20, 0, 39, 20], "s");
    assert_eq!(
        entry_of(&db, "AssertZero"),
        Some(CostEntry { cost: 102 * 980 / 1000, confidence: 830_000, samples: 1 })
    );
    assert_eq!(
        entry_of(&db, "poseidon"),
        Some(CostEntry { cost: 305, confidence: 830_000, samples: 1 })
    );
    assert_eq!(db.len(), 2);
}

#[test]
fn three_runs_on_a_new_primitive_leave_three_samples() {
    let mut db = exact_seed();
    let json = r#"{ "opcodes": [ { "type": "BlackBoxFunction", "function": "foo" } ] }"#;
    for run in 1..=3 {
        let analysis = analyze_circuit(&mut db, json).expect("an analysis");
        assert_eq!(analysis.black_box_functions.len(), 1);
        // a thousand, read under noise up to three times over
        assert!((921..=1_077).contains(&analysis.constraints), "{}", analysis.constraints);
        assert_eq!(entry_of(&db, "foo").unwrap().samples, run);
    }
    let foo = entry_of(&db, "foo").unwrap();
    assert_eq!(foo.confidence, 890_000);
    assert!((921..=1_077).contains(&foo.cost), "{}", foo.cost);
}

#[test]
fn analysis_by_the_clock_agrees_with_the_record() {
    let mut db = exact_seed();
    let record = circuit(vec![constraint(5), plain("Jump"), constraint(4)]);
    let analysis = analyze_record(&mut db, &record);
    assert_eq!(analysis.constraints, 4);
    assert_eq!(analysis.operation_counts, pairs(&[("Constraint", 2), ("Jump", 1)]));
    assert_eq!(analysis.confidence, (((980_000 + 900_000) / 2) + 980_000) / 2);
    assert_eq!(db.len(), 4);
}

#[test]
fn sequential_dependencies_follow_the_literal_rule() {
    let db = exact_seed();
    let sequential = |opcodes: Vec<Opcode>| {
        has_sequential_dependencies(&scan_record(&db, &circuit(opcodes), &vec![]).0)
    };
    // no hash call at all: sequential
    assert!(sequential(vec![]));
    assert!(sequential(vec![constraint(4)]));
    // `keccak256` does not spell `hash`
    assert!(sequential(vec![call("keccak256"); 5]));
    // one hash call: sequential; two: not
    assert!(sequential(vec![call("pedersen_hash")]));
    assert!(!sequential(vec![call("pedersen_hash"), call("pedersen_hash")]));
    assert!(!sequential(vec![call("pedersen_hash"), call("PoseidonHash")]));
    assert!(sequential(vec![call("pedersen_hash"), call("POSEIDON_HASH")]));
    // memory or array categories make it sequential whatever the hashes
    assert!(sequential(vec![call("pedersen_hash"), call("pedersen_hash"), plain("MemoryOp")]));
    assert!(sequential(vec![call("a_hash"), call("b_hash"), plain("ReadArray")]));
    assert!(!sequential(vec![call("a_hash"), call("b_hash"), plain("memory")]));
}

#[test]
fn breakdown_divides_the_constraints() {
    let analysis = CircuitAnalysis {
        constraints: 10_000,
        bottlenecks: Vec::new(),
        total_opcodes: 0,
        operation_counts: pairs(&[
            ("AssertZero", 40),
            ("Constraint", 500),
            ("ArithmeticGate", 2),
            ("MyAssertion", 8),
            ("External", 3),
        ]),
        black_box_functions: vec![("sha256".to_string(), 2, 3_000), ("f".to_string(), 1, 50)],
        public_inputs: 0,
        private_inputs: 0,
        return_values: 0,
        confidence: 0,
    };
    assert_eq!(
        constraint_breakdown(&analysis),
        ConstraintBreakdown { external: 6_050, arithmetic: 50, other: 3_900 }
    );
    let mut small = analysis.clone();
    small.constraints = 6_000;
    assert_eq!(
        constraint_breakdown(&small),
        ConstraintBreakdown { external: 6_050, arithmetic: 50, other: 0 }
    );
    small.black_box_functions = vec![("big".to_string(), usize::MAX, 2)];
    small.constraints = usize::MAX;
    assert_eq!(
        constraint_breakdown(&small),
        ConstraintBreakdown { external: usize::MAX, arithmetic: 50, other: 0 }
    );
    assert_eq!(
        constraint_breakdown(&CircuitAnalysis::default()),
        ConstraintBreakdown { external: 0, arithmetic: 0, other: 0 }
    );
}

#[test]
fn proving_time_rests_on_constraints_and_dependencies() {
    let db = exact_seed();
    let basis = |opcodes: Vec<Opcode>| {
        proving_time_basis(&scan_record(&db, &circuit(opcodes), &vec![]).0)
    };
    let sequential = Some(ParallelGain { gain_hundredths: 15, limit_tenths: 5 });
    let independent = Some(ParallelGain { gain_hundredths: 30, limit_tenths: 7 });
    assert_eq!(basis(vec![]), ProvingTimeBasis { base_microseconds: 0, parallel: None });
    assert_eq!(
        basis(vec![constraint(4); 50]),
        ProvingTimeBasis { base_microseconds: 1_000, parallel: sequential }
    );
    assert_eq!(
        basis(vec![plain("Jump")]),
        ProvingTimeBasis { base_microseconds: 20, parallel: sequential }
    );
    assert_eq!(basis(vec![call("a_hash"), call("b_hash")]).parallel, independent);
    assert_eq!(basis(vec![call("a_hash"), call("b_hash"), plain("Memory")]).parallel, sequential);
    let mut analysis = scan_record(&db, &circuit(vec![]), &vec![]).0;
    analysis.constraints = usize::MAX;
    assert_eq!(proving_time_basis(&analysis).base_microseconds, usize::MAX as u128 * 20);
}
