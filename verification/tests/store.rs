use mimir::binary64::Binary64;
use mimir::documents::DocumentChunk;
use mimir::graph::{Belief, EdgeType, MemoryType, Pattern};
use mimir::ids::format_id;
use mimir::store::{
    ensure_finite, next_step, AgeStore, BeliefNumbers, CallStep, CountTexts, EdgeLabel, Prepared,
    StoreError, VertexLabel, BELIEF_RETURN_COLUMNS, CHUNK_RETURN_COLUMNS, DELETE_BELIEF_EMBEDDINGS,
    DELETE_CHUNK_EMBEDDINGS, INSERT_BELIEF_EMBEDDING, INSERT_CHUNK_EMBEDDING,
    LIST_EMBEDDED_BELIEFS, PATTERN_RETURN_COLUMNS,
};
use mimir::time::Timestamp;

const ID: u128 = 0x0123_4567_89ab_cdef_0123_4567_89ab_cdef;
const SIMPLE: &str = "0123456789abcdef0123456789abcdef";

fn num(v: f64) -> Binary64 {
    Binary64 { bits: v.to_bits() }
}

fn store() -> AgeStore {
    AgeStore::new("graph_1".to_string()).unwrap()
}

fn check(call: Prepared, name: &str, prepare: &str, json: &str) {
    assert_eq!(call.prepare, prepare);
    assert_eq!(call.execute, format!("EXECUTE {}('{}')", name, json.replace('\'', "''")));
    assert_eq!(call.deallocate, format!("DEALLOCATE {}", name));
}

#[test]
fn graph_names_are_plain() {
    for name in ["mimir", "A_9", "_"] {
        assert_eq!(AgeStore::new(name.to_string()).unwrap().name(), name);
    }
    for name in ["", "a-b", "a b", "a'b", "\u{e9}", "a.b"] {
        assert!(matches!(
            AgeStore::new(name.to_string()),
            Err(StoreError::BadGraphName(n)) if n == name
        ));
    }
}

#[test]
fn labels_are_those_of_the_graph() {
    assert_eq!(VertexLabel::Belief.label(), "Belief");
    assert_eq!(VertexLabel::Pattern.label(), "Pattern");
    assert_eq!(EdgeLabel::Supports.label(), "SUPPORTS");
    assert_eq!(EdgeLabel::Defeats.label(), "DEFEATS");
    assert_eq!(EdgeLabel::Causes.label(), "CAUSES");
    assert_eq!(EdgeLabel::Contradicts.label(), "CONTRADICTS");
}

#[test]
fn numbers_have_to_be_finite() {
    assert!(ensure_finite("op", &[("a", num(1.0)), ("b", num(-2.0))]).is_ok());
    match ensure_finite("op", &[("a", num(1.0)), ("b", num(f64::INFINITY)), ("c", num(f64::NAN))]) {
        Err(StoreError::NotFinite(op, field, v)) => {
            assert_eq!((op.as_str(), field.as_str()), ("op", "b"));
            assert_eq!(f64::from_bits(v.bits), f64::INFINITY);
        }
        _ => panic!("b is refused"),
    }
}

#[test]
fn prepared_statements_are_always_deallocated() {
    assert_eq!(next_step(CallStep::Prepare, false), CallStep::Finished(false));
    assert_eq!(next_step(CallStep::Prepare, true), CallStep::Execute);
    for ok in [true, false] {
        assert_eq!(next_step(CallStep::Execute, ok), CallStep::Deallocate(ok));
        for released in [true, false] {
            assert_eq!(next_step(CallStep::Deallocate(ok), released), CallStep::Finished(ok));
        }
        assert_eq!(next_step(CallStep::Finished(ok), true), CallStep::Finished(ok));
    }
}

fn belief(project: Option<&str>) -> Belief {
    let at = Timestamp::new(1_700_000_000, 123_456_789).unwrap();
    let mut b = Belief::created(ID, at, "it's \"so\"\n".to_string(), num(0.5), num(0.25))
        .unwrap()
        .with_memory_type(MemoryType::Working);
    b.project = project.map(|p| p.to_string());
    b
}

fn numbers() -> BeliefNumbers {
    BeliefNumbers {
        probability: "0.5".to_string(),
        confidence: "0.25".to_string(),
        alpha: "1".to_string(),
        beta: "2".to_string(),
        alpha0: "3".to_string(),
        beta0: "4".to_string(),
    }
}

#[test]
fn beliefs_are_inserted_with_their_properties() {
    let g = "graph_1";
    let stmt = format!("age_ins_{SIMPLE}");
    for project in [None, Some("p\"'")] {
        let b = belief(project);
        let id = format_id(ID);
        let created_at = "2023-11-14T22:13:20.123456789+00:00";
        let project_prop = match project {
            Some(_) => r#", "project": "p\"'""#.to_string(),
            None => String::new(),
        };
        let json = format!(
            r#"{{"id": "{id}", "content": "{}", "created_at": "{created_at}", "last_activated_at": "{created_at}", "memory_type": "working"{project_prop}}}"#,
            "it's \\\"so\\\"\\n"
        );
        let prepare = format!(
            "PREPARE {stmt}(agtype) AS SELECT * FROM ag_catalog.cypher('{g}', $$ \
             CREATE (n:Belief {{id: $id, content: $content, \
             probability: 0.5, confidence: 0.25, \
             alpha: 1, beta: 2, alpha0: 3, beta0: 4, \
             created_at: $created_at, last_activated_at: $last_activated_at, \
             memory_type: $memory_type{}}}) \
             RETURN n.id $$, $1) AS (id ag_catalog.agtype)",
            if project.is_some() { ", project: $project" } else { "" }
        );
        check(store().insert_belief(&b, &numbers()).unwrap(), &stmt, &prepare, &json);
        assert!(serde_json::from_str::<serde_json::Value>(&json).is_ok());
    }
}

#[test]
fn beliefs_with_infinite_counts_are_not_inserted() {
    let mut b = belief(None);
    b.beta0 = num(f64::NAN);
    assert!(matches!(
        store().insert_belief(&b, &numbers()),
        Err(StoreError::NotFinite(op, field, _)) if op == "insert_belief" && field == "beta0"
    ));
}

#[test]
fn counts_are_written_with_what_follows_from_them() {
    let texts = CountTexts {
        alpha: "1.5".to_string(),
        beta: "2.5".to_string(),
        mean: "0.375".to_string(),
        confidence: "0.01".to_string(),
    };
    let g = "graph_1";
    let id_str = format_id(ID);
    let (alpha, beta, mean, conf) = ("1.5", "2.5", "0.375", "0.01");
    assert_eq!(
        store().update_belief_beta_sql(ID, num(1.5), num(2.5), &texts).unwrap(),
        format!(
            r#"SELECT * FROM ag_catalog.cypher('{g}', $$
  MATCH (n:Belief {{id: '{id_str}'}})
  SET n.alpha = {alpha}, n.beta = {beta}, n.probability = {mean}, n.confidence = {conf}
  RETURN n.id
$$) AS (id ag_catalog.agtype)"#
        )
    );
    assert!(matches!(
        store().update_belief_beta_sql(ID, num(f64::INFINITY), num(2.5), &texts),
        Err(StoreError::NotFinite(op, field, _)) if op == "update_belief_beta" && field == "alpha"
    ));
}

#[test]
fn beliefs_are_fetched_and_deleted() {
    let g = "graph_1";
    let id_str = format_id(ID);
    assert_eq!(
        store().delete_belief(ID),
        format!(
            r#"SELECT * FROM ag_catalog.cypher('{g}', $$
  MATCH (n:Belief {{id: '{id_str}'}})
  DETACH DELETE n
  RETURN 1
$$) AS (ok ag_catalog.agtype)"#
        )
    );
    let head = r#"SELECT
  id::text,
  content::text,
  probability::text,
  confidence::text,
  alpha::text,
  beta::text,
  alpha0::text,
  beta0::text,
  created_at::text,
  last_activated_at::text,
  memory_type::text,
  project::text
"#;
    let props = "n.id, n.content, n.probability, n.confidence, n.alpha, n.beta, n.alpha0, n.beta0, n.created_at, n.last_activated_at, n.memory_type, n.project";
    assert_eq!(
        store().get_belief(ID),
        format!(
            r#"{head}FROM ag_catalog.cypher('{g}', $$
  MATCH (n:Belief {{id: '{id_str}'}})
  RETURN {props}
$$) {BELIEF_RETURN_COLUMNS}"#
        )
    );
    assert_eq!(
        store().list_beliefs(),
        format!(
            r#"{head}FROM ag_catalog.cypher('{g}', $$
  MATCH (n:Belief)
  RETURN {props}
$$) {BELIEF_RETURN_COLUMNS}"#
        )
    );
    assert_eq!(
        store().get_direct_downstream(ID),
        format!(
            r#"{head}FROM ag_catalog.cypher('{g}', $$
  MATCH (s:Belief {{id: '{id_str}'}})-[:SUPPORTS]->(n:Belief)
  RETURN {props}
  UNION
  MATCH (s:Belief {{id: '{id_str}'}})-[:CAUSES]->(n:Belief)
  RETURN {props}
  UNION
  MATCH (s:Belief {{id: '{id_str}'}})-[:DEFEATS]->(n:Belief)
  RETURN {props}
$$) {BELIEF_RETURN_COLUMNS}"#
        )
    );
    assert_eq!(
        store().get_related_beliefs(ID),
        format!(
            r#"{head}FROM ag_catalog.cypher('{g}', $$
  MATCH (s:Belief {{id: '{id_str}'}})-[:SUPPORTS]->(n:Belief)
  RETURN {props}
  UNION
  MATCH (s:Belief {{id: '{id_str}'}})-[:CAUSES]->(n:Belief)
  RETURN {props}
$$) {BELIEF_RETURN_COLUMNS}"#
        )
    );
    assert_eq!(
        store().get_causal_downstream_beliefs(ID),
        format!(
            r#"{head}FROM ag_catalog.cypher('{g}', $$
  MATCH (s:Belief {{id: '{id_str}'}})-[:CAUSES*1..10]->(n:Belief)
  RETURN {props}
$$) {BELIEF_RETURN_COLUMNS}"#
        )
    );
    assert_eq!(
        BELIEF_RETURN_COLUMNS,
        r#"AS (
  id             text,
  content        text,
  probability    text,
  confidence     text,
  alpha          text,
  beta           text,
  alpha0         text,
  beta0          text,
  created_at     text,
  last_activated_at text,
  memory_type    text,
  project        text
)"#
    );
}

#[test]
fn scoped_reads_carry_the_project_as_a_parameter() {
    let g = "graph_1";
    let json = r#"{"project": "a\"'b"}"#;
    let project = "a\"'b";
    let props = "n.id, n.content, n.probability, n.confidence, n.alpha, n.beta, n.alpha0, n.beta0, n.created_at, n.last_activated_at, n.memory_type, n.project";
    let stmt = format!("age_list_beliefs_proj_{SIMPLE}");
    check(
        store().list_beliefs_by_project(project, ID),
        &stmt,
        &format!(
            "PREPARE {stmt}(agtype) AS SELECT \
             id::text, content::text, probability::text, confidence::text, \
             alpha::text, beta::text, alpha0::text, beta0::text, \
             created_at::text, last_activated_at::text, memory_type::text, project::text \
             FROM ag_catalog.cypher('{g}', $$ \
             MATCH (n:Belief) WHERE n.project = $project OR n.project IS NULL \
             RETURN {props} \
             $$, $1) {BELIEF_RETURN_COLUMNS}"
        ),
        json,
    );
    let stmt = format!("age_list_patterns_proj_{SIMPLE}");
    check(
        store().list_patterns_by_project(project, ID),
        &stmt,
        &format!(
            "PREPARE {stmt}(agtype) AS SELECT \
             id::text, situation::text, approach::text, activation_count::text, \
             success_rate::text, created_at::text, project::text \
             FROM ag_catalog.cypher('{g}', $$ \
             MATCH (p:Pattern) WHERE p.project = $project OR p.project IS NULL \
             RETURN p.id, p.situation, p.approach, p.activation_count, p.success_rate, p.created_at, p.project \
             $$, $1) {PATTERN_RETURN_COLUMNS}"
        ),
        json,
    );
    let stmt = format!("age_defeats_ts_proj_{SIMPLE}");
    check(
        store().get_defeats_with_timestamps_by_project(project, ID),
        &stmt,
        &format!(
            "PREPARE {stmt}(agtype) AS SELECT defeater_id::text, defeated_id::text, defeater_created_at::text \
             FROM ag_catalog.cypher('{g}', $$ \
             MATCH (a:Belief)-[:DEFEATS]->(b:Belief) \
             WHERE (a.project = $project OR a.project IS NULL) \
             AND (b.project = $project OR b.project IS NULL) \
             RETURN a.id, b.id, a.created_at \
             $$, $1) AS (defeater_id agtype, defeated_id agtype, defeater_created_at agtype)"
        ),
        json,
    );
    let stmt = format!("age_contra_pairs_proj_{SIMPLE}");
    check(
        store().get_contradiction_pairs_by_project(project, ID),
        &stmt,
        &format!(
            "PREPARE {stmt}(agtype) AS SELECT from_id::text, to_id::text \
             FROM ag_catalog.cypher('{g}', $$ \
             MATCH (a:Belief)-[:CONTRADICTS]->(b:Belief) \
             WHERE (a.project = $project OR a.project IS NULL) \
             AND (b.project = $project OR b.project IS NULL) \
             RETURN a.id, b.id \
             $$, $1) AS (from_id agtype, to_id agtype)"
        ),
        json,
    );
    let stmt = format!("age_direct_downstream_proj_{SIMPLE}");
    let id_str = format_id(5);
    check(
        store().get_direct_downstream_by_project(5, project, ID),
        &stmt,
        &format!(
            "PREPARE {stmt}(agtype) AS SELECT \
             id::text, content::text, probability::text, confidence::text, \
             alpha::text, beta::text, alpha0::text, beta0::text, \
             created_at::text, last_activated_at::text, memory_type::text, project::text \
             FROM ag_catalog.cypher('{g}', $$ \
             MATCH (s:Belief {{id: '{id_str}'}})-[:SUPPORTS]->(n:Belief) \
             WHERE n.project = $project OR n.project IS NULL \
             RETURN {props} \
             UNION \
             MATCH (s:Belief {{id: '{id_str}'}})-[:CAUSES]->(n:Belief) \
             WHERE n.project = $project OR n.project IS NULL \
             RETURN {props} \
             UNION \
             MATCH (s:Belief {{id: '{id_str}'}})-[:DEFEATS]->(n:Belief) \
             WHERE n.project = $project OR n.project IS NULL \
             RETURN {props} \
             $$, $1) {BELIEF_RETURN_COLUMNS}"
        ),
        json,
    );
    let stmt = format!("age_related_proj_{SIMPLE}");
    check(
        store().get_related_beliefs_by_project(5, project, ID),
        &stmt,
        &format!(
            "PREPARE {stmt}(agtype) AS SELECT \
             id::text, content::text, probability::text, confidence::text, \
             alpha::text, beta::text, alpha0::text, beta0::text, \
             created_at::text, last_activated_at::text, memory_type::text, project::text \
             FROM ag_catalog.cypher('{g}', $$ \
             MATCH (s:Belief {{id: '{id_str}'}})-[:SUPPORTS]->(n:Belief) \
             WHERE n.project = $project OR n.project IS NULL \
             RETURN {props} \
             UNION \
             MATCH (s:Belief {{id: '{id_str}'}})-[:CAUSES]->(n:Belief) \
             WHERE n.project = $project OR n.project IS NULL \
             RETURN {props} \
             $$, $1) {BELIEF_RETURN_COLUMNS}"
        ),
        json,
    );
}

#[test]
fn projects_are_deleted_in_three_steps() {
    let g = "graph_1";
    let json = r#"{"project": "p"}"#;
    let stmt_count = format!("age_delproj_count_{SIMPLE}");
    check(
        store().count_project_beliefs("p", ID),
        &stmt_count,
        &format!(
            "PREPARE {stmt_count}(agtype) AS SELECT id::text \
             FROM ag_catalog.cypher('{g}', $$ \
             MATCH (n:Belief) WHERE n.project = $project RETURN n.id \
             $$, $1) AS (id agtype)"
        ),
        json,
    );
    let stmt_del = format!("age_delproj_del_{SIMPLE}");
    check(
        store().delete_project_beliefs("p", ID),
        &stmt_del,
        &format!(
            "PREPARE {stmt_del}(agtype) AS SELECT * \
             FROM ag_catalog.cypher('{g}', $$ \
             MATCH (n:Belief) WHERE n.project = $project DETACH DELETE n RETURN 1 \
             $$, $1) AS (ok agtype)"
        ),
        json,
    );
    let stmt_pat = format!("age_delproj_pat_{SIMPLE}");
    check(
        store().delete_project_patterns("p", ID),
        &stmt_pat,
        &format!(
            "PREPARE {stmt_pat}(agtype) AS SELECT * \
             FROM ag_catalog.cypher('{g}', $$ \
             MATCH (p:Pattern) WHERE p.project = $project DETACH DELETE p RETURN 1 \
             $$, $1) AS (ok agtype)"
        ),
        json,
    );
}

#[test]
fn vertices_and_edges_are_counted() {
    let g = "graph_1";
    for label in [VertexLabel::Belief, VertexLabel::Pattern] {
        let name = label.label();
        assert_eq!(
            store().count_vertices(label),
            format!(
                r#"SELECT n::text
FROM ag_catalog.cypher('{g}', $$
  MATCH (n:{name})
  RETURN count(*) AS n
$$) AS (n ag_catalog.agtype)"#
            )
        );
    }
    for label in [EdgeLabel::Supports, EdgeLabel::Contradicts] {
        let name = label.label();
        assert_eq!(
            store().count_edges_by_label(label),
            format!(
                r#"SELECT n::text
FROM ag_catalog.cypher('{g}', $$
  MATCH ()-[:{name}]->()
  RETURN count(*) AS n
$$) AS (n ag_catalog.agtype)"#
            )
        );
    }
}

#[test]
fn patterns_are_stored_and_fetched() {
    let g = "graph_1";
    let at = Timestamp::new(0, 0).unwrap();
    let mut p = Pattern::created(ID, at, "s\t".into(), "a".into(), num(0.5)).unwrap();
    p.activation_count = 17;
    let id = format_id(ID);
    let stmt = format!("age_ins_pat_{SIMPLE}");
    for project in [None, Some("q")] {
        p.project = project.map(|s| s.to_string());
        let project_prop = if project.is_some() { r#", "project": "q""# } else { "" };
        let project_cypher = if project.is_some() { ", project: $project" } else { "" };
        check(
            store().insert_pattern(&p, "0.5"),
            &stmt,
            &format!(
                "PREPARE {stmt}(agtype) AS SELECT * FROM ag_catalog.cypher('{g}', $$ \
                 CREATE (p:Pattern {{id: $id, situation: $situation, approach: $approach, \
                 activation_count: 17, success_rate: 0.5, \
                 created_at: $created_at{project_cypher}}}) \
                 RETURN p.id $$, $1) AS (id ag_catalog.agtype)"
            ),
            &format!(
                r#"{{"id": "{id}", "situation": "s\t", "approach": "a", "created_at": "1970-01-01T00:00:00+00:00"{project_prop}}}"#
            ),
        );
    }
    let head = r#"SELECT
  id::text,
  situation::text,
  approach::text,
  activation_count::text,
  success_rate::text,
  created_at::text,
  project::text
"#;
    let props = "p.id, p.situation, p.approach, p.activation_count, p.success_rate, p.created_at, p.project";
    assert_eq!(
        store().get_pattern(ID),
        format!(
            r#"{head}FROM ag_catalog.cypher('{g}', $$
  MATCH (p:Pattern {{id: '{id}'}})
  RETURN {props}
$$) {PATTERN_RETURN_COLUMNS}"#
        )
    );
    assert_eq!(
        store().list_patterns(),
        format!(
            r#"{head}FROM ag_catalog.cypher('{g}', $$
  MATCH (p:Pattern)
  RETURN {props}
$$) {PATTERN_RETURN_COLUMNS}"#
        )
    );
    assert_eq!(
        store().delete_pattern(ID),
        format!(
            r#"SELECT * FROM ag_catalog.cypher('{g}', $$
  MATCH (p:Pattern {{id: '{id}'}})
  DETACH DELETE p
  RETURN 1
$$) AS (ok ag_catalog.agtype)"#
        )
    );
    assert_eq!(
        PATTERN_RETURN_COLUMNS,
        r#"AS (
  id               text,
  situation        text,
  approach         text,
  activation_count text,
  success_rate     text,
  created_at       text,
  project          text
)"#
    );
}

#[test]
fn edges_are_inserted_and_fetched() {
    let g = "graph_1";
    let (from_id, to_id) = (format_id(1), format_id(2));
    for t in [EdgeType::Supports, EdgeType::Defeats, EdgeType::Causes, EdgeType::Contradicts] {
        let label = t.as_str();
        assert_eq!(
            store().insert_edge(1, 2, t, "0.75"),
            format!(
                r#"SELECT * FROM ag_catalog.cypher('{g}', $$
  MATCH (a:Belief {{id: '{from_id}'}}), (b:Belief {{id: '{to_id}'}})
  CREATE (a)-[r:{label} {{weight: 0.75}}]->(b)
  RETURN r.weight
$$) AS (weight ag_catalog.agtype)"#
            )
        );
    }
    assert_eq!(
        store().insert_contradicts(1, 2, "1"),
        format!(
            r#"SELECT * FROM ag_catalog.cypher('{g}', $$
  MATCH (a:Belief {{id: '{from_id}'}}), (b:Belief {{id: '{to_id}'}})
  CREATE (a)-[r1:CONTRADICTS {{weight: 1}}]->(b)
  CREATE (b)-[r2:CONTRADICTS {{weight: 1}}]->(a)
  RETURN r1.weight
$$) AS (weight ag_catalog.agtype)"#
        )
    );
    assert_eq!(
        store().get_contradiction_pairs(),
        format!(
            r#"SELECT from_id::text, to_id::text
FROM ag_catalog.cypher('{g}', $$
  MATCH (a:Belief)-[:CONTRADICTS]->(b:Belief)
  RETURN a.id, b.id
$$) AS (from_id ag_catalog.agtype, to_id ag_catalog.agtype)"#
        )
    );
    assert_eq!(
        store().get_defeats_with_timestamps(),
        format!(
            r#"SELECT defeater_id::text, defeated_id::text, defeater_created_at::text
FROM ag_catalog.cypher('{g}', $$
  MATCH (a:Belief)-[:DEFEATS]->(b:Belief)
  RETURN a.id, b.id, a.created_at
$$) AS (defeater_id ag_catalog.agtype, defeated_id ag_catalog.agtype, defeater_created_at ag_catalog.agtype)"#
        )
    );
    let id_list = format!("'{from_id}', '{to_id}'");
    assert_eq!(
        store().get_edges_among(&[1, 2]),
        format!(
            r#"SELECT from_id::text, to_id::text, label::text, weight::text
FROM ag_catalog.cypher('{g}', $$
  MATCH (a:Belief)-[r]->(b:Belief)
  WHERE a.id IN [{id_list}]
  AND   b.id IN [{id_list}]
  RETURN a.id, b.id, type(r), r.weight
$$) AS (from_id ag_catalog.agtype, to_id ag_catalog.agtype, label ag_catalog.agtype, weight ag_catalog.agtype)"#
        )
    );
    let arm = |label: &str| {
        format!(
            "  MATCH (a:Belief)-[r:{label}]->(b:Belief)\n  \
             WHERE b.id IN [{id_list}]\n  \
             RETURN a.id, b.id, type(r), r.weight, a.alpha, a.beta"
        )
    };
    assert_eq!(
        store().get_incoming_edges(&[1, 2]),
        format!(
            r#"SELECT from_id::text, to_id::text, label::text, weight::text, src_alpha::text, src_beta::text
FROM ag_catalog.cypher('{g}', $$
{sup}
  UNION ALL
{def}
  UNION ALL
{cau}
$$) AS (from_id ag_catalog.agtype, to_id ag_catalog.agtype, label ag_catalog.agtype, weight ag_catalog.agtype, src_alpha ag_catalog.agtype, src_beta ag_catalog.agtype)"#,
            sup = arm("SUPPORTS"),
            def = arm("DEFEATS"),
            cau = arm("CAUSES"),
        )
    );
}

#[test]
fn chunks_are_stored_and_fetched() {
    let g = "graph_1";
    let id = format_id(ID);
    let stmt = format!("age_ins_chunk_{SIMPLE}");
    for (parent, project) in [(None, None), (Some(9u128), Some("p'"))] {
        let c = DocumentChunk::with_id(
            ID,
            "/d \"x\".md".into(),
            vec!["H \\".into(), "It's".into()],
            "c\n".into(),
            parent,
            project.map(|s: &str| s.to_string()),
        );
        let parent_prop = match parent {
            Some(p) => format!(r#", "parentId": "{}""#, format_id(p)),
            None => String::new(),
        };
        let project_prop = if project.is_some() { r#", "project": "p'""# } else { "" };
        let extra_props = format!(
            "{}{}",
            if parent.is_some() { ", parentId: $parentId" } else { "" },
            if project.is_some() { ", project: $project" } else { "" }
        );
        check(
            store().insert_document_chunk(&c),
            &stmt,
            &format!(
                "PREPARE {stmt}(agtype) AS SELECT * FROM ag_catalog.cypher('{g}', $$ \
                 CREATE (c:DocumentChunk {{id: $id, documentPath: $documentPath, \
                 sectionPath: $sectionPath, content: $content{extra_props}}}) \
                 RETURN c.id $$, $1) AS (id ag_catalog.agtype)"
            ),
            &format!(
                r#"{{"id": "{id}", "documentPath": "/d \"x\".md", "sectionPath": ["H \\", "It's"], "content": "c\n"{parent_prop}{project_prop}}}"#
            ),
        );
    }
    let (pid, cid) = (format_id(3), format_id(4));
    assert_eq!(
        store().contain_chunk(3, 4),
        format!(
            r#"SELECT * FROM ag_catalog.cypher('{g}', $$
  MATCH (p:DocumentChunk {{id: '{pid}'}}), (c:DocumentChunk {{id: '{cid}'}})
  CREATE (p)-[:CONTAINS]->(c)
  RETURN 1
$$) AS (ok ag_catalog.agtype)"#
        )
    );
    let stmt = format!("age_chunk_ids_by_path_{SIMPLE}");
    check(
        store().get_chunk_ids_for_document("/a.md", ID),
        &stmt,
        &format!(
            "PREPARE {stmt}(agtype) AS SELECT id::text \
             FROM ag_catalog.cypher('{g}', $$ \
             MATCH (c:DocumentChunk) WHERE c.documentPath = $documentPath RETURN c.id \
             $$, $1) AS (id agtype)"
        ),
        r#"{"documentPath": "/a.md"}"#,
    );
    let stmt = format!("age_chunk_ids_by_proj_{SIMPLE}");
    check(
        store().get_chunk_ids_by_project("p", ID),
        &stmt,
        &format!(
            "PREPARE {stmt}(agtype) AS SELECT id::text \
             FROM ag_catalog.cypher('{g}', $$ \
             MATCH (c:DocumentChunk) WHERE c.project = $project RETURN c.id \
             $$, $1) AS (id agtype)"
        ),
        r#"{"project": "p"}"#,
    );
    assert_eq!(
        store().delete_document_chunks(&[3]),
        format!(
            r#"SELECT * FROM ag_catalog.cypher('{g}', $$
  MATCH (c:DocumentChunk) WHERE c.id IN ['{pid}']
  DETACH DELETE c
  RETURN 1
$$) AS (ok ag_catalog.agtype)"#
        )
    );
    assert_eq!(
        store().get_chunk_by_id(3),
        format!(
            r#"SELECT
  id::text,
  document_path,
  section_path,
  content::text,
  parent_id,
  project::text
FROM ag_catalog.cypher('{g}', $$
  MATCH (c:DocumentChunk {{id: '{pid}'}})
  RETURN c.id, c.documentPath, c.sectionPath, c.content, c.parentId, c.project
$$) {CHUNK_RETURN_COLUMNS}"#
        )
    );
    assert_eq!(
        CHUNK_RETURN_COLUMNS,
        r#"AS (
  id            text,
  document_path text,
  section_path  text,
  content       text,
  parent_id     text,
  project       text
)"#
    );
}

#[test]
fn vectors_are_searched_with_and_without_limit() {
    for (limit, limit_clause) in [(0usize, ""), (7, "LIMIT 7"), (120, "LIMIT 120")] {
        let s = store();
        assert_eq!(
            s.query_chunks_by_vector(limit),
            format!(
                "SELECT chunk_id::text FROM public.chunk_embeddings \
                 ORDER BY embedding <=> $1 {limit_clause}"
            )
        );
        assert_eq!(
            s.query_chunks_by_vector_filtered(limit),
            format!(
                "SELECT chunk_id::text FROM public.chunk_embeddings \
                 WHERE chunk_id = ANY($2) \
                 ORDER BY embedding <=> $1 {limit_clause}"
            )
        );
        assert_eq!(
            s.query_beliefs_by_vector(limit),
            format!(
                "SELECT belief_id::text FROM public.belief_embeddings \
                 ORDER BY embedding <=> $1 {limit_clause}"
            )
        );
        assert_eq!(
            s.query_beliefs_by_vector_filtered(limit),
            format!(
                "SELECT belief_id::text FROM public.belief_embeddings \
                 WHERE belief_id = ANY($2) \
                 ORDER BY embedding <=> $1 {limit_clause}"
            )
        );
        assert_eq!(
            s.query_chunks_by_vector_scored(limit),
            format!(
                "SELECT chunk_id::text, 1.0 - (embedding <=> $1) AS similarity \
                 FROM public.chunk_embeddings \
                 ORDER BY embedding <=> $1 {limit_clause}"
            )
        );
        assert_eq!(
            s.query_chunks_by_vector_scored_filtered(limit),
            format!(
                "SELECT chunk_id::text, 1.0 - (embedding <=> $1) AS similarity \
                 FROM public.chunk_embeddings \
                 WHERE chunk_id = ANY($2) \
                 ORDER BY embedding <=> $1 {limit_clause}"
            )
        );
        assert_eq!(
            s.query_beliefs_by_vector_scored(limit),
            format!(
                "SELECT belief_id::text, 1.0 - (embedding <=> $1) AS similarity \
                 FROM public.belief_embeddings \
                 ORDER BY embedding <=> $1 {limit_clause}"
            )
        );
    }
    assert_eq!(
        INSERT_CHUNK_EMBEDDING,
        "INSERT INTO public.chunk_embeddings (chunk_id, embedding) VALUES ($1, $2) ON CONFLICT (chunk_id) DO UPDATE SET embedding = EXCLUDED.embedding"
    );
    assert_eq!(
        INSERT_BELIEF_EMBEDDING,
        "INSERT INTO public.belief_embeddings (belief_id, embedding) VALUES ($1, $2) ON CONFLICT (belief_id) DO UPDATE SET embedding = EXCLUDED.embedding"
    );
    assert_eq!(DELETE_CHUNK_EMBEDDINGS, "DELETE FROM public.chunk_embeddings WHERE chunk_id = ANY($1)");
    assert_eq!(DELETE_BELIEF_EMBEDDINGS, "DELETE FROM public.belief_embeddings WHERE belief_id = ANY($1)");
    assert_eq!(LIST_EMBEDDED_BELIEFS, "SELECT belief_id::text FROM public.belief_embeddings");
}

#[test]
fn grounds_are_stored_and_fetched() {
    let g = "graph_1";
    let (c, b) = (format_id(3), format_id(4));
    assert_eq!(
        store().insert_evidence(3, 4, "0.9"),
        format!(
            r#"SELECT * FROM ag_catalog.cypher('{g}', $$
  MATCH (c:DocumentChunk {{id: '{c}'}}), (b:Belief {{id: '{b}'}})
  CREATE (c)-[r:GROUNDS {{weight: 0.9}}]->(b)
  RETURN r.weight
$$) AS (weight ag_catalog.agtype)"#
        )
    );
    assert_eq!(
        store().get_grounding_mass_all(),
        format!(
            r#"SELECT belief_id::text, total_weight::text
FROM ag_catalog.cypher('{g}', $$
  MATCH (c:DocumentChunk)-[r:GROUNDS]->(b:Belief)
  RETURN b.id, sum(r.weight)
$$) AS (belief_id ag_catalog.agtype, total_weight ag_catalog.agtype)"#
        )
    );
    assert_eq!(
        store().get_evidence_for_beliefs(&[4]),
        format!(
            r#"SELECT belief_id::text, chunk_id::text, weight::text
FROM ag_catalog.cypher('{g}', $$
  MATCH (c:DocumentChunk)-[r:GROUNDS]->(b:Belief)
  WHERE b.id IN ['{b}']
  RETURN b.id, c.id, r.weight
$$) AS (belief_id ag_catalog.agtype, chunk_id ag_catalog.agtype, weight ag_catalog.agtype)"#
        )
    );
    assert_eq!(
        store().delete_evidence(3, 4),
        format!(
            r#"SELECT * FROM ag_catalog.cypher('{g}', $$
  MATCH (c:DocumentChunk {{id: '{c}'}})-[r:GROUNDS]->(b:Belief {{id: '{b}'}})
  DELETE r
$$) AS (v ag_catalog.agtype)"#
        )
    );
}
