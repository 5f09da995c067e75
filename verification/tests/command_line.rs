use mimir::binary64::Binary64;
use mimir::cli::{
    contradicts_note, distinct_pairs, embedding_summary, evidence_line, found_belief,
    grounding_line, listed_belief, listed_pattern, most_probable, most_successful, parse_kv,
    pending_embeddings, trunc, whole_belief, write_section_note,
};
use mimir::connection::{
    pgpass_lookup, plan_connection, DatabaseConfig, Negotiation, SslMode,
};
use mimir::embedding::{
    attended_positions, batch_length, batches, make_backend, pad_batch, parse_embeddings,
    BackendPlan, EmbeddingBackend, EmbeddingError, EmbeddingsConfig, Encoding,
};
use mimir::graph::{Belief, MemoryType, Pattern};
use mimir::hooks::{
    declared_project, examines_stop, left_behind_note, prompt_query, session_of, stop_message,
    tool_query, write_belief_line,
};
use mimir::ids::format_id;
use mimir::json::{Json, JsonNumber};
use mimir::service::{EvidenceRef, MimirStats};
use mimir::time::Timestamp;

fn num(v: f64) -> Binary64 {
    Binary64 { bits: v.to_bits() }
}

fn belief(id: u128, content: &str, p: f64) -> Belief {
    let at = Timestamp::new(0, 0).unwrap();
    Belief::created(id, at, content.to_string(), num(p), num(0.5)).unwrap()
}

fn text(s: &str) -> Json {
    Json::Text(s.to_string())
}

fn object(fields: Vec<(&str, Json)>) -> Json {
    Json::Object(fields.into_iter().map(|(k, v)| (k.to_string(), v)).collect())
}

#[test]
fn texts_are_shortened_with_an_ellipsis() {
    assert_eq!(trunc("  short ", 70), "short");
    assert_eq!(trunc("abcdef", 6), "abcdef");
    assert_eq!(trunc("abcdefg", 6), "abcde\u{2026}");
    assert_eq!(trunc("\u{e9}\u{e9}\u{e9}\u{e9}", 3), "\u{e9}\u{e9}\u{2026}");
    assert_eq!(trunc("ab", 1), "\u{2026}");
    assert_eq!(trunc("", 1), "");
}

#[test]
fn pairs_are_split_at_the_first_equals_sign() {
    assert_eq!(parse_kv("a=b"), Ok(("a".to_string(), "b".to_string())));
    assert_eq!(parse_kv("url=x=y"), Ok(("url".to_string(), "x=y".to_string())));
    assert_eq!(parse_kv("a="), Ok(("a".to_string(), String::new())));
    assert_eq!(parse_kv("=b"), Err("expected KEY=VALUE, got `=b`".to_string()));
    assert_eq!(parse_kv("ab"), Err("expected KEY=VALUE, got `ab`".to_string()));
    assert_eq!(parse_kv(""), Err("expected KEY=VALUE, got ``".to_string()));
}

#[test]
fn contradictions_are_counted_in_pairs() {
    let stats = |contradicts| MimirStats {
        beliefs: 0,
        patterns: 0,
        supports: 0,
        defeats: 0,
        causes: 0,
        contradicts,
    };
    assert_eq!(contradicts_note(&stats(0)), "0 (0 pairs)");
    assert_eq!(contradicts_note(&stats(14)), "14 (7 pairs)");
    assert_eq!(contradicts_note(&stats(3)), "3 (odd \u{2014} graph may be inconsistent)");
}

#[test]
fn beliefs_are_shown_on_one_line() {
    let mut b = belief(7, "  the content ", 0.5);
    let id = format_id(7);
    assert_eq!(listed_belief(&b, "0.500", "0.250"), format!("{id}  p=0.500  c=0.250  the content"));
    b.project = Some("p".to_string());
    b.memory_type = MemoryType::Working;
    assert_eq!(
        listed_belief(&b, "0.500", "0.250"),
        format!("{id}  p=0.500  c=0.250  the content  <working>  [p]")
    );
    assert_eq!(
        found_belief(&b, "0.500", "0.250", 5),
        format!("{id}  p=0.500  c=0.250  the \u{2026}  [p]")
    );
    assert_eq!(
        whole_belief(&b, "0.500", "0.250"),
        format!("{id}  p=0.500  c=0.250    the content   [p]")
    );
    let at = Timestamp::new(0, 0).unwrap();
    let p = Pattern::created(7, at, "s".into(), "a".into(), num(0.5)).unwrap();
    assert_eq!(listed_pattern(&p, "0.500"), format!("{id}  rate=0.500  [s] \u{2192} [a]"));
}

#[test]
fn passages_are_shown_with_their_section() {
    let mut e = EvidenceRef {
        chunk_id: 7,
        document_path: "/d.md".into(),
        section_path: vec!["A".into(), "B".into()],
        snippet: "s".into(),
        weight: num(0.5),
    };
    let id = format_id(7);
    assert_eq!(grounding_line(&e, "0.50"), "    \u{21b3} w=0.50  /d.md \u{a7} A > B");
    assert_eq!(evidence_line(&e, "0.50"), format!("{id}  w=0.50  /d.md \u{a7} A > B"));
    e.section_path.clear();
    assert_eq!(evidence_line(&e, "0.50"), format!("{id}  w=0.50  /d.md"));
    assert_eq!(write_section_note(&vec!["X".into()], "  \u{a7} "), "  \u{a7} X");
}

#[test]
fn listings_go_by_probability() {
    let all = vec![belief(1, "a", 0.2), belief(2, "b", 0.9), belief(3, "c", 0.9), belief(4, "d", 0.0)];
    let ids = |v: Vec<Belief>| v.iter().map(|b| b.id).collect::<Vec<_>>();
    assert_eq!(ids(most_probable(&all, 0)), vec![2, 3, 1, 4]);
    assert_eq!(ids(most_probable(&all, 2)), vec![2, 3]);
    assert_eq!(ids(most_probable(&all, 20)).len(), 4);
    let at = Timestamp::new(0, 0).unwrap();
    let patterns: Vec<Pattern> = [0.1, 0.8, 0.8]
        .iter()
        .map(|r| Pattern::created(1, at, "s".into(), "a".into(), num(*r)).unwrap())
        .collect();
    assert_eq!(most_successful(&patterns, 0), vec![1, 2, 0]);
    assert_eq!(most_successful(&patterns, 1), vec![1]);
}

#[test]
fn contradicting_pairs_are_shown_once() {
    assert_eq!(
        distinct_pairs(&[(2, 1), (1, 2), (3, 1), (2, 1), (4, 4)]),
        vec![(1, 2), (1, 3), (4, 4)]
    );
    assert!(distinct_pairs(&[]).is_empty());
}

#[test]
fn embedding_skips_what_is_embedded() {
    let all = vec![belief(1, "a", 0.2), belief(2, "b", 0.9), belief(3, "c", 0.9)];
    let ids = |v: Vec<Belief>| v.iter().map(|b| b.id).collect::<Vec<_>>();
    assert_eq!(ids(pending_embeddings(&all, &vec![2, 9])), vec![1, 3]);
    assert!(pending_embeddings(&all, &vec![1, 2, 3]).is_empty());
    assert_eq!(
        embedding_summary(1, 2),
        "\nembedded 1 belief; skipped 2 that already had vectors."
    );
    assert_eq!(
        embedding_summary(0, 10),
        "\nembedded 0 beliefs; skipped 10 that already had vectors."
    );
}

#[test]
fn prompts_are_looked_up_shortened() {
    assert_eq!(prompt_query(&object(vec![("prompt", text("  hi "))])).as_deref(), Some("hi"));
    assert_eq!(prompt_query(&object(vec![("prompt", text(" \n"))])), None);
    assert_eq!(prompt_query(&object(vec![])), None);
    let long = "x".repeat(600);
    let q = prompt_query(&object(vec![("prompt", text(&long))])).unwrap();
    assert_eq!(q.chars().count(), 500);
    assert!(q.ends_with('\u{2026}'));
}

#[test]
fn tools_are_looked_up_by_file_path_or_command() {
    let event = |fields: Vec<(&str, Json)>| object(vec![("tool_input", object(fields))]);
    let all = vec![("command", text("c")), ("path", text("p")), ("file_path", text("f"))];
    assert_eq!(tool_query(&event(all)).as_deref(), Some("f"));
    assert_eq!(
        tool_query(&event(vec![("command", text("c")), ("path", text("p"))])).as_deref(),
        Some("p")
    );
    assert_eq!(tool_query(&event(vec![("command", text(" ls "))])).as_deref(), Some("ls"));
    assert_eq!(tool_query(&event(vec![("file_path", text(" ")), ("path", text("p"))])), None);
    assert_eq!(tool_query(&object(vec![])), None);
    let long = "y".repeat(300);
    assert_eq!(
        tool_query(&event(vec![("command", text(&long))])).unwrap().chars().count(),
        200
    );
}

#[test]
fn sessions_declare_projects() {
    assert_eq!(session_of(&object(vec![("session_id", text("s1"))])).as_deref(), Some("s1"));
    assert_eq!(session_of(&object(vec![])), None);
    assert_eq!(declared_project(" mimir \n").as_deref(), Some("mimir"));
    assert_eq!(declared_project(" \n"), None);
}

#[test]
fn a_turn_is_held_up_while_working_memory_is_left() {
    let working = vec![belief(7, "note one", 0.5), belief(8, "note two", 0.5)];
    let idle = object(vec![]);
    let m = stop_message(&idle, &working).unwrap();
    assert_eq!(
        m,
        format!(
            "POLICY REQUIREMENT: 2 working-memory belief(s) are still unconsolidated. \
             Every belief this session should have been written as memory_type=working; \
             consolidation (promote to fact/experiential via insert_belief, or discard via \
             delete_belief) must happen before the turn ends \u{2014} not skipped, not deferred. \
             Resolve each one below, then finish:\n  {}  note one\n  {}  note two",
            format_id(7),
            format_id(8)
        )
    );
    assert_eq!(stop_message(&idle, &vec![]), None);
    let active = object(vec![("stop_hook_active", Json::Flag(true))]);
    assert_eq!(stop_message(&active, &working), None);
    assert!(!examines_stop(&active));
    assert!(examines_stop(&object(vec![("stop_hook_active", Json::Flag(false))])));
    assert_eq!(write_belief_line(&working[0]), format!("  {}  note one", format_id(7)));
}

#[test]
fn working_memory_left_behind_is_reported() {
    assert_eq!(left_behind_note("p", 0), None);
    let m = left_behind_note("p", 3).unwrap();
    assert!(m.starts_with("NOTE: 3 pre-existing memory_type=working belief(s) found for project 'p' \u{2014} these"));
    assert!(m.ends_with("rather than leaving them for a background sweep:"));
}

#[test]
fn passwords_are_looked_up_in_order() {
    let file = "# comment\n\nhost:5432:db:user:first\n*:*:db:*:any:with:colons\nbroken:line\n  h2:1:*:u2:spaced  \n";
    assert_eq!(pgpass_lookup(file, "host", 5432, "db", "user").as_deref(), Some("first"));
    assert_eq!(pgpass_lookup(file, "host", 5433, "db", "user").as_deref(), Some("any:with:colons"));
    assert_eq!(pgpass_lookup(file, "h2", 1, "x", "u2").as_deref(), Some("spaced"));
    assert_eq!(pgpass_lookup(file, "h2", 1, "x", "u3"), None);
    assert_eq!(pgpass_lookup("", "h", 1, "d", "u"), None);
    assert_eq!(pgpass_lookup("a:1:b:c:", "a", 1, "b", "c").as_deref(), Some(""));
}

fn database(ssl_mode: SslMode) -> DatabaseConfig {
    DatabaseConfig {
        host: "h".into(),
        port: 1,
        dbname: "d".into(),
        user: "u".into(),
        ssl_mode,
        ssl_root_cert: Some("root.pem".into()),
        ssl_client_cert: Some("cert.pem".into()),
        ssl_client_key: Some("key.pem".into()),
    }
}

#[test]
fn connections_are_planned_by_mode() {
    let plan = plan_connection(&database(SslMode::Disable));
    assert_eq!(plan.negotiation, Negotiation::Disable);
    assert!(plan.tls.is_none());
    for (mode, negotiation) in [
        (SslMode::Prefer, Negotiation::Prefer),
        (SslMode::Require, Negotiation::Require),
    ] {
        let plan = plan_connection(&database(mode));
        assert_eq!(plan.negotiation, negotiation);
        let tls = plan.tls.unwrap();
        assert!(tls.accept_invalid_certs);
        assert_eq!(tls.root_certificate, None);
        assert_eq!(tls.identity, Some(("cert.pem".to_string(), "key.pem".to_string())));
    }
    for mode in [SslMode::VerifyCa, SslMode::VerifyFull] {
        let mut cfg = database(mode);
        cfg.ssl_client_key = None;
        let plan = plan_connection(&cfg);
        assert_eq!(plan.negotiation, Negotiation::Require);
        let tls = plan.tls.unwrap();
        assert!(!tls.accept_invalid_certs);
        assert_eq!(tls.root_certificate.as_deref(), Some("root.pem"));
        assert_eq!(tls.identity, None);
    }
}

#[test]
fn texts_are_embedded_in_batches() {
    assert_eq!(batch_length(None, 7), 7);
    assert_eq!(batch_length(None, 0), 1);
    assert_eq!(batch_length(Some(0), 7), 1);
    assert_eq!(batch_length(Some(3), 7), 3);
    assert_eq!(batches(7, 3), vec![(0, 3), (3, 6), (6, 7)]);
    assert_eq!(batches(6, 3), vec![(0, 3), (3, 6)]);
    assert_eq!(batches(2, usize::MAX), vec![(0, 2)]);
    assert!(batches(0, 3).is_empty());
}

#[test]
fn sequences_are_padded_to_a_common_length() {
    let e = |ids: Vec<u32>| Encoding {
        mask: vec![1; ids.len()],
        types: vec![0; ids.len()],
        ids,
    };
    let mut second = e(vec![4, 5]);
    second.mask[1] = 0;
    second.types[0] = 7;
    let b = pad_batch(&vec![e(vec![1, 2, 3]), second, e(vec![])]);
    assert_eq!((b.rows, b.width), (3, 3));
    assert_eq!(b.input_ids, vec![1, 2, 3, 4, 5, 0, 0, 0, 0]);
    assert_eq!(b.attention_mask, vec![1, 1, 1, 1, 0, 0, 0, 0, 0]);
    assert_eq!(b.token_type_ids, vec![0, 0, 0, 7, 0, 0, 0, 0, 0]);
    assert_eq!(attended_positions(&b, 0), vec![0, 1, 2]);
    assert_eq!(attended_positions(&b, 1), vec![0]);
    assert!(attended_positions(&b, 2).is_empty());
    let long = pad_batch(&vec![e((0..600).collect())]);
    assert_eq!(long.width, 512);
    assert_eq!(long.input_ids.len(), 512);
    assert_eq!(long.input_ids[511], 511);
    let none = pad_batch(&vec![]);
    assert_eq!((none.rows, none.width), (0, 0));
}

#[test]
fn backends_are_chosen_by_configuration() {
    let cfg = |backend| EmbeddingsConfig {
        backend,
        api_key: Some("k".into()),
        model: "m".into(),
        batch_size: 0,
        cache_dir: Some("  ".into()),
    };
    assert!(matches!(
        make_backend(&cfg(EmbeddingBackend::Voyage)),
        BackendPlan::Voyage { api_key, model } if api_key == "k" && model == "m"
    ));
    let mut c = cfg(EmbeddingBackend::OpenAi);
    c.api_key = None;
    assert!(matches!(
        make_backend(&c),
        BackendPlan::OpenAi { api_key, model } if api_key.is_empty() && model == "m"
    ));
    assert!(matches!(
        make_backend(&cfg(EmbeddingBackend::Local)),
        BackendPlan::Local { batch_size: None, cache_dir: None }
    ));
    let mut c = cfg(EmbeddingBackend::Local);
    c.batch_size = 8;
    c.cache_dir = Some(" /cache ".into());
    assert!(matches!(
        make_backend(&c),
        BackendPlan::Local { batch_size: Some(8), cache_dir: Some(d) } if d == "/cache"
    ));
}

fn number(v: f64) -> Json {
    Json::Number(JsonNumber { whole: None, signed: None, number: Some(num(v)) })
}

#[test]
fn answers_of_embedding_services_are_read() {
    let item = |v: Vec<Json>| object(vec![("embedding", Json::List(v))]);
    let resp = object(vec![(
        "data",
        Json::List(vec![item(vec![number(0.1), number(-2.5)]), item(vec![])]),
    )]);
    let r = parse_embeddings(&resp).unwrap();
    assert_eq!(r, vec![vec![0.1f32.to_bits(), (-2.5f32).to_bits()], vec![]]);
    assert_eq!(parse_embeddings(&object(vec![])), Err(EmbeddingError::MissingData));
    assert_eq!(
        parse_embeddings(&object(vec![("data", text("x"))])),
        Err(EmbeddingError::MissingData)
    );
    let resp = object(vec![("data", Json::List(vec![item(vec![]), object(vec![])]))]);
    assert_eq!(parse_embeddings(&resp), Err(EmbeddingError::MissingEmbedding));
    let resp = object(vec![("data", Json::List(vec![item(vec![number(1.0), Json::Null])]))]);
    assert_eq!(parse_embeddings(&resp), Err(EmbeddingError::NotANumber));
    assert!(parse_embeddings(&object(vec![("data", Json::List(vec![]))])).unwrap().is_empty());
}
