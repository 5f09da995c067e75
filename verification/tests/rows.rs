use mimir::binary64::Binary64;
use mimir::documents::DocumentChunk;
use mimir::graph::{Belief, EdgeType, GraphError, MemoryType, Probability};
use mimir::ids::format_id;
use mimir::rows::{
    decode_belief, decode_chunk, decode_chunk_with, decode_defeat, decode_edge, decode_ground,
    decode_incoming_edge, decode_mass, decode_pair, decode_pattern, read_count, read_ids, read_known_ids,
    BeliefRow, ChunkRow, EdgeRow, NumberColumn, PatternRow, RowError,
};

fn num(v: f64) -> Binary64 {
    Binary64 { bits: v.to_bits() }
}

fn col(v: f64) -> NumberColumn {
    NumberColumn::Number(num(v))
}

fn val(p: Probability) -> f64 {
    f64::from_bits(p.value().bits)
}

fn text(s: &str) -> Option<String> {
    Some(s.to_string())
}

fn row() -> BeliefRow {
    BeliefRow {
        id: Some(format_id(7)),
        content: text("content"),
        probability: col(0.4),
        confidence: col(0.9),
        alpha: col(30.0),
        beta: col(10.0),
        alpha0: col(2.0),
        beta0: col(3.0),
        created_at: text("2023-11-14T22:13:20.5+00:00"),
        last_activated_at: text("2023-11-14T23:13:20+01:00"),
        memory_type: text("working"),
        project: text("p"),
    }
}

#[test]
fn beliefs_are_decoded() {
    let b = decode_belief(&row()).unwrap();
    assert_eq!(b.id, 7);
    assert_eq!(b.content, "content");
    assert_eq!(val(b.probability), 0.75);
    assert_eq!(b.alpha0, num(2.0));
    assert_eq!(b.created_at.secs(), 1_700_000_000);
    assert_eq!(b.created_at.nanos(), 500_000_000);
    assert_eq!(b.last_activated_at.secs(), 1_700_000_000);
    assert_eq!(b.memory_type, MemoryType::Working);
    assert_eq!(b.project.as_deref(), Some("p"));
}

fn missing(r: Result<Belief, RowError>, name: &str) {
    assert!(matches!(r, Err(RowError::MissingColumn(c)) if c == name), "{name}");
}

fn bad(r: Result<Belief, RowError>, name: &str) {
    assert!(matches!(r, Err(RowError::BadColumn(c)) if c == name), "{name}");
}

#[test]
fn missing_columns_are_named_in_order() {
    missing(decode_belief(&BeliefRow { id: None, content: None, ..row() }), "id");
    missing(decode_belief(&BeliefRow { content: None, ..row() }), "content");
    missing(decode_belief(&BeliefRow { probability: NumberColumn::Missing, ..row() }), "probability");
    missing(decode_belief(&BeliefRow { confidence: NumberColumn::Missing, ..row() }), "confidence");
    missing(decode_belief(&BeliefRow { created_at: None, id: text("bad"), ..row() }), "created_at");
    missing(decode_belief(&BeliefRow { last_activated_at: None, ..row() }), "last_activated_at");
}

#[test]
fn malformed_columns_are_named_in_order() {
    bad(decode_belief(&BeliefRow { id: text("x"), ..row() }), "id");
    bad(decode_belief(&BeliefRow { probability: NumberColumn::Malformed, ..row() }), "probability");
    bad(decode_belief(&BeliefRow { confidence: NumberColumn::Malformed, ..row() }), "confidence");
    bad(decode_belief(&BeliefRow { created_at: text("yesterday"), ..row() }), "created_at");
    bad(decode_belief(&BeliefRow { last_activated_at: text(""), ..row() }), "last_activated_at");
}

#[test]
fn absent_counts_follow_from_probability_and_confidence() {
    let r = BeliefRow {
        alpha: NumberColumn::Missing,
        beta: NumberColumn::Malformed,
        alpha0: NumberColumn::Missing,
        beta0: NumberColumn::Malformed,
        ..row()
    };
    let b = decode_belief(&r).unwrap();
    let kappa = 2.0 + 0.9 * 198.0;
    assert_eq!(f64::from_bits(b.alpha0.bits), 0.4 * kappa);
    assert_eq!(b.alpha, b.alpha0);
    assert_eq!(f64::from_bits(b.beta.bits), (1.0 - 0.4) * kappa);
    // A stored prior stands for an absent posterior.
    let b = decode_belief(&BeliefRow { alpha: NumberColumn::Missing, ..row() }).unwrap();
    assert_eq!(b.alpha, num(2.0));
}

#[test]
fn refused_values_are_reported() {
    let r = BeliefRow { alpha0: NumberColumn::Missing, probability: col(1.5), ..row() };
    assert!(matches!(
        decode_belief(&r),
        Err(RowError::Refused(GraphError::ProbabilityOutOfRange(v))) if v == num(1.5)
    ));
    let r = BeliefRow { beta: col(-1.0), ..row() };
    assert!(matches!(
        decode_belief(&r),
        Err(RowError::Refused(GraphError::CountOutOfRange(v))) if v == num(-1.0)
    ));
    // The cached numbers do not matter where the counts are stored.
    assert!(decode_belief(&BeliefRow { probability: col(1.5), ..row() }).is_ok());
}

#[test]
fn unknown_memory_types_count_as_facts() {
    for t in [None, text("episodic"), text("")] {
        let b = decode_belief(&BeliefRow { memory_type: t, ..row() }).unwrap();
        assert_eq!(b.memory_type, MemoryType::Fact);
    }
    let b = decode_belief(&BeliefRow { memory_type: text("experiential"), ..row() }).unwrap();
    assert_eq!(b.memory_type, MemoryType::Experiential);
}

#[test]
fn what_was_written_is_read_back() {
    let b = Belief::new_in_project("c".to_string(), num(0.3), num(0.6), "p".to_string())
        .unwrap()
        .with_memory_type(MemoryType::Experiential);
    let created = chrono::DateTime::from_timestamp(b.created_at.secs(), b.created_at.nanos()).unwrap();
    let r = BeliefRow {
        id: Some(format_id(b.id)),
        content: Some(b.content.clone()),
        probability: col(0.3),
        confidence: col(0.6),
        alpha: NumberColumn::Number(b.alpha),
        beta: NumberColumn::Number(b.beta),
        alpha0: NumberColumn::Number(b.alpha0),
        beta0: NumberColumn::Number(b.beta0),
        created_at: Some(created.to_rfc3339()),
        last_activated_at: Some(created.to_rfc3339()),
        memory_type: text(b.memory_type.as_str()),
        project: b.project.clone(),
    };
    let read = decode_belief(&r).unwrap();
    assert_eq!(read.id, b.id);
    assert_eq!(read.created_at, b.created_at);
    assert_eq!((read.alpha, read.beta), (b.alpha, b.beta));
    assert_eq!(read.memory_type, b.memory_type);
    assert_eq!(read.project, b.project);
    assert!((val(read.probability) - 0.3).abs() < 1e-12);
}

fn pattern_row() -> PatternRow {
    PatternRow {
        id: Some(format_id(9)),
        situation: text("s"),
        approach: text("a"),
        activation_count: text("12"),
        success_rate: col(0.5),
        created_at: text("1970-01-01T00:00:01Z"),
        project: None,
    }
}

#[test]
fn patterns_are_decoded() {
    let p = decode_pattern(&pattern_row()).unwrap();
    assert_eq!((p.id, p.activation_count), (9, 12));
    assert_eq!((p.situation.as_str(), p.approach.as_str()), ("s", "a"));
    assert_eq!(p.created_at.secs(), 1);
    assert_eq!(p.project, None);
    let name = |r: PatternRow| match decode_pattern(&r) {
        Err(RowError::MissingColumn(c)) => format!("missing {c}"),
        Err(RowError::BadColumn(c)) => format!("bad {c}"),
        Err(RowError::Refused(_)) => "refused".to_string(),
        Ok(_) => "ok".to_string(),
    };
    assert_eq!(name(PatternRow { id: None, ..pattern_row() }), "missing id");
    assert_eq!(name(PatternRow { situation: None, ..pattern_row() }), "missing situation");
    assert_eq!(name(PatternRow { approach: None, ..pattern_row() }), "missing approach");
    assert_eq!(name(PatternRow { activation_count: None, ..pattern_row() }), "missing activation_count");
    assert_eq!(
        name(PatternRow { success_rate: NumberColumn::Missing, ..pattern_row() }),
        "missing success_rate"
    );
    assert_eq!(name(PatternRow { created_at: None, ..pattern_row() }), "missing created_at");
    assert_eq!(name(PatternRow { id: text("z"), ..pattern_row() }), "bad id");
    assert_eq!(
        name(PatternRow { activation_count: text("4294967296"), ..pattern_row() }),
        "bad activation_count"
    );
    assert_eq!(
        name(PatternRow { success_rate: NumberColumn::Malformed, ..pattern_row() }),
        "bad success_rate"
    );
    assert_eq!(name(PatternRow { created_at: text("1970"), ..pattern_row() }), "bad created_at");
    assert_eq!(name(PatternRow { success_rate: col(2.0), ..pattern_row() }), "refused");
}

fn chunk_row() -> ChunkRow {
    ChunkRow {
        id: format_id(5),
        document_path: "/d.md".to_string(),
        section_path: r#"["One", "Two \"quoted\""]"#.to_string(),
        content: "c".to_string(),
        parent_id: Some(format_id(4)),
        project: text("p"),
    }
}

#[test]
fn chunks_are_decoded() {
    let c = decode_chunk(&chunk_row()).unwrap();
    assert_eq!(c.id, 5);
    assert_eq!(c.section_path, vec!["One", "Two \"quoted\""]);
    assert_eq!(c.parent_id, Some(4));
    assert_eq!(c.project.as_deref(), Some("p"));
    let c = decode_chunk(&ChunkRow {
        section_path: "not a list".to_string(),
        parent_id: text("x"),
        ..chunk_row()
    })
    .unwrap();
    assert!(c.section_path.is_empty());
    assert_eq!(c.parent_id, None);
    assert!(matches!(
        decode_chunk(&ChunkRow { id: "x".to_string(), ..chunk_row() }),
        Err(RowError::BadColumn(c)) if c == "id"
    ));
    let c = decode_chunk_with(&chunk_row(), Some(vec!["given".to_string()])).unwrap();
    assert_eq!(c.section_path, vec!["given"]);
    assert!(decode_chunk_with(&chunk_row(), None).unwrap().section_path.is_empty());
}

#[test]
fn section_paths_are_read_back() {
    let path = vec!["a \"b\" \\ c".to_string(), "\u{1}\n\u{e9}".to_string()];
    let c = DocumentChunk::with_id(5, "d".into(), path.clone(), "c".into(), None, None);
    let store = mimir::store::AgeStore::new("g".to_string()).unwrap();
    let call = store.insert_document_chunk(&c);
    let json = call.execute.replace("''", "'");
    let start = json.find("\"sectionPath\": ").unwrap() + "\"sectionPath\": ".len();
    let end = json.find(", \"content\": ").unwrap();
    let read = decode_chunk(&ChunkRow {
        section_path: json[start..end].to_string(),
        ..chunk_row()
    })
    .unwrap();
    assert_eq!(read.section_path, path);
}

#[test]
fn edges_are_decoded() {
    let row = |from: &str, to: &str, label: &str, weight: NumberColumn| EdgeRow {
        from_id: from.to_string(),
        to_id: to.to_string(),
        label: label.to_string(),
        weight,
    };
    let (a, b) = (format_id(1), format_id(2));
    let e = decode_edge(&row(&a, &b, "CAUSES", col(0.5))).unwrap();
    assert_eq!((e.0, e.1, e.2, val(e.3)), (1, 2, EdgeType::Causes, 0.5));
    let name = |r: EdgeRow| match decode_edge(&r) {
        Err(RowError::BadColumn(c)) => c,
        Err(RowError::Refused(_)) => "refused".to_string(),
        _ => "other".to_string(),
    };
    assert_eq!(name(row("x", &b, "CAUSES", col(0.5))), "from_id");
    assert_eq!(name(row(&a, "x", "CAUSES", col(0.5))), "to_id");
    assert_eq!(name(row(&a, &b, "GROUNDS", col(0.5))), "label");
    assert_eq!(name(row(&a, &b, "CAUSES", NumberColumn::Malformed)), "weight");
    assert_eq!(name(row(&a, &b, "CAUSES", col(1.5))), "refused");

    let r = row(&a, &b, "DEFEATS", col(1.0));
    let e = decode_incoming_edge(&r, col(3.0), col(1.0)).unwrap();
    assert_eq!(val(e.4), 0.75);
    let e = decode_incoming_edge(&r, NumberColumn::Missing, NumberColumn::Malformed).unwrap();
    assert_eq!(val(e.4), 0.5);
    assert!(matches!(
        decode_incoming_edge(&r, col(1.0), col(-1.0)),
        Err(RowError::Refused(GraphError::CountOutOfRange(_)))
    ));
}

#[test]
fn defeats_pairs_and_grounds_are_decoded() {
    let (a, b) = (Some(format_id(1)), Some(format_id(2)));
    let t = text("1970-01-01T00:01:00Z");
    let d = decode_defeat(&a, &b, &t).unwrap();
    assert_eq!((d.0, d.1, d.2.secs()), (1, 2, 60));
    assert!(matches!(decode_defeat(&None, &None, &t), Err(RowError::MissingColumn(c)) if c == "defeater_id"));
    assert!(matches!(decode_defeat(&a, &None, &None), Err(RowError::MissingColumn(c)) if c == "defeated_id"));
    assert!(matches!(decode_defeat(&a, &b, &None), Err(RowError::MissingColumn(c)) if c == "defeater_created_at"));
    assert!(matches!(decode_defeat(&a, &text("q"), &text("q")), Err(RowError::BadColumn(c)) if c == "defeated_id"));
    assert!(matches!(decode_defeat(&a, &b, &text("q")), Err(RowError::BadColumn(c)) if c == "defeater_created_at"));
    assert_eq!(decode_pair(&a, &b).unwrap(), (1, 2));
    assert!(matches!(decode_pair(&None, &b), Err(RowError::MissingColumn(c)) if c == "from_id"));
    assert!(matches!(decode_pair(&a, &text("?")), Err(RowError::BadColumn(c)) if c == "to_id"));
    let g = decode_ground(&format_id(1), &format_id(2), col(0.9)).unwrap();
    assert_eq!(g, (1, 2, num(0.9)));
    assert!(matches!(decode_ground("x", "y", col(0.9)), Err(RowError::BadColumn(c)) if c == "belief_id"));
    assert!(matches!(
        decode_ground(&format_id(1), &format_id(2), NumberColumn::Missing),
        Err(RowError::BadColumn(c)) if c == "weight"
    ));
}

#[test]
fn identifiers_and_counts_are_read() {
    let texts = [Some(format_id(1)), None, text("x"), Some(format_id(2))];
    assert_eq!(read_known_ids(&texts), vec![1, 2]);
    assert_eq!(read_ids(&[format_id(1), format_id(2)]).unwrap(), vec![1, 2]);
    assert!(matches!(read_ids(&[format_id(1), "x".to_string()]), Err(RowError::BadColumn(_))));
    assert_eq!(read_count(Some("42")).unwrap(), 42);
    assert_eq!(read_count(None).unwrap(), 0);
    assert!(matches!(read_count(Some("4.2")), Err(RowError::BadColumn(c)) if c == "n"));
}

#[test]
fn test_insert_and_get_belief() {
    let b = Belief::new("belief".to_string(), num(0.75), num(0.85)).unwrap();
    let created = chrono::DateTime::from_timestamp(b.created_at.secs(), b.created_at.nanos()).unwrap();
    let with_counts = BeliefRow {
        id: Some(format_id(b.id)),
        content: Some(b.content.clone()),
        probability: NumberColumn::Number(b.probability.value()),
        confidence: NumberColumn::Number(b.confidence.value()),
        alpha: NumberColumn::Number(b.alpha),
        beta: NumberColumn::Number(b.beta),
        alpha0: NumberColumn::Number(b.alpha0),
        beta0: NumberColumn::Number(b.beta0),
        created_at: Some(created.to_rfc3339()),
        last_activated_at: Some(created.to_rfc3339()),
        memory_type: text(b.memory_type.as_str()),
        project: b.project.clone(),
    };
    let got = decode_belief(&with_counts).unwrap();
    assert_eq!(got.id, b.id);
    assert_eq!(got.content, b.content);
    assert!((val(got.probability) - 0.75).abs() < 1e-9);
    assert!((val(got.confidence) - 0.85).abs() < 1e-9);
    let without = BeliefRow {
        alpha: NumberColumn::Missing,
        beta: NumberColumn::Missing,
        alpha0: NumberColumn::Missing,
        beta0: NumberColumn::Missing,
        ..with_counts
    };
    let got = decode_belief(&without).unwrap();
    assert_eq!((got.alpha, got.beta), (b.alpha, b.beta));
    assert!((val(got.probability) - 0.75).abs() < 1e-9);
    assert!((val(got.confidence) - 0.85).abs() < 1e-9);
}

#[test]
fn masses_are_decoded() {
    let id = format_id(7);
    assert_eq!(decode_mass(&id, col(1.75)).unwrap(), (7, num(1.75)));
    assert!(matches!(decode_mass("x", col(1.0)), Err(RowError::BadColumn(c)) if c == "belief_id"));
    assert!(
        matches!(decode_mass(&id, NumberColumn::Missing), Err(RowError::BadColumn(c)) if c == "total_weight")
    );
    assert!(matches!(
        decode_mass(&id, col(-0.5)),
        Err(RowError::Refused(GraphError::CountOutOfRange(v))) if v == num(-0.5)
    ));
}

#[test]
fn negative_zero_and_large_numbers_are_taken() {
    let id = format_id(7);
    assert_eq!(decode_mass(&id, col(-0.0)).unwrap(), (7, num(0.0)));
    assert_eq!(decode_mass(&id, col(1.7e308)).unwrap(), (7, num(1.7e308)));
    for v in [f64::INFINITY, f64::NEG_INFINITY, f64::NAN, -1e-300] {
        assert!(matches!(
            decode_mass(&id, col(v)),
            Err(RowError::Refused(GraphError::CountOutOfRange(w))) if w == num(v)
        ));
    }

    let edge = EdgeRow {
        from_id: format_id(1),
        to_id: format_id(2),
        label: "SUPPORTS".to_string(),
        weight: col(0.5),
    };
    let mean = |a: f64, b: f64| decode_incoming_edge(&edge, col(a), col(b)).map(|e| val(e.4));
    assert_eq!(mean(-0.0, -0.0).unwrap(), 0.5);
    assert_eq!(mean(-0.0, 2.0).unwrap(), 0.0);
    assert_eq!(mean(1.7e308, 0.0).unwrap(), 1.0);
    assert_eq!(mean(1.2e308, 0.4e308).unwrap(), 1.2e308 / (1.2e308 + 0.4e308));
    for (a, b, refused) in [
        (1.7e308, 1.7e308, 1.7e308),
        (-1.0, 1.0, -1.0),
        (1.0, f64::INFINITY, f64::INFINITY),
        (f64::NAN, -1.0, f64::NAN),
    ] {
        assert!(matches!(
            mean(a, b),
            Err(RowError::Refused(GraphError::CountOutOfRange(w))) if w == num(refused)
        ));
    }

    let mut r = row();
    r.alpha = col(-0.0);
    r.beta = col(4.0);
    let b = decode_belief(&r).unwrap();
    assert_eq!((b.alpha, b.beta, val(b.probability)), (num(0.0), num(4.0), 0.0));
}
