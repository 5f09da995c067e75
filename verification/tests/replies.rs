use mimir::binary64::Binary64;
use mimir::graph::Probability;
use mimir::hooks::tool_context;
use mimir::ids::format_id;
use mimir::json::{find_field, flag_field, number_field, text_field, whole_field, Json};
use mimir::replies::{
    count_reply, deleted_reply, done_reply, evidence_reply, grounded_reply, pairs_reply,
    tool_hook_reply, updates_reply,
};
use mimir::service::EvidenceRef;

fn num(v: f64) -> Binary64 {
    Binary64 { bits: v.to_bits() }
}

fn items(v: &Json) -> &Vec<Json> {
    match v {
        Json::List(items) => items,
        _ => panic!("no list"),
    }
}

fn evidence() -> Vec<EvidenceRef> {
    vec![EvidenceRef {
        chunk_id: 5,
        document_path: "/d.md".into(),
        section_path: vec!["A".into(), "B".into()],
        snippet: "s".into(),
        weight: num(0.75),
    }]
}

#[test]
fn outcomes_are_reported() {
    assert_eq!(flag_field(&done_reply(), "ok"), Some(true));
    assert_eq!(flag_field(&deleted_reply(false), "deleted"), Some(false));
    assert_eq!(whole_field(&count_reply("loaded", 12), "loaded"), Some(12));
}

#[test]
fn pairs_are_reported_by_their_texts() {
    let r = pairs_reply(&[(1, 2), (3, 4)]);
    let list = items(&r);
    assert_eq!(list.len(), 2);
    assert!(matches!(&items(&list[1])[0], Json::Text(s) if *s == format_id(3)));
    assert!(matches!(&items(&list[1])[1], Json::Text(s) if *s == format_id(4)));
}

#[test]
fn updates_are_reported_under_a_name() {
    let p = Probability::new(num(0.25)).unwrap();
    let r = updates_reply(&[(9, p)], "projected_probability");
    let u = &items(&r)[0];
    let id = format_id(9);
    assert_eq!(text_field(u, "id"), Some(id.as_str()));
    assert_eq!(number_field(u, "projected_probability"), Some(num(0.25)));
}

#[test]
fn passages_are_reported() {
    let r = evidence_reply(&evidence());
    let e = &items(&r)[0];
    let id = format_id(5);
    assert_eq!(text_field(e, "chunk_id"), Some(id.as_str()));
    assert_eq!(text_field(e, "document_path"), Some("/d.md"));
    assert_eq!(items(find_field(e, "section_path").unwrap()).len(), 2);
    assert_eq!(text_field(e, "snippet"), Some("s"));
    assert_eq!(number_field(e, "weight"), Some(num(0.75)));
    let belief = Json::Object(vec![("id".to_string(), Json::Text("x".to_string()))]);
    let g = grounded_reply(belief, &evidence());
    assert_eq!(text_field(&g, "id"), Some("x"));
    assert_eq!(items(find_field(&g, "evidence").unwrap()).len(), 1);
    assert!(matches!(grounded_reply(Json::Null, &evidence()), Json::Null));
}

#[test]
fn hooks_are_answered_with_context() {
    let context = tool_context(&vec!["one".to_string(), "two\n".to_string()]);
    assert_eq!(
        context,
        "Prior knowledge relevant to this action \u{2014} apply directly:\none\ntwo"
    );
    let r = tool_hook_reply(context.clone());
    let inner = find_field(&r, "hookSpecificOutput").unwrap();
    assert_eq!(text_field(inner, "hookEventName"), Some("PreToolUse"));
    assert_eq!(text_field(inner, "additionalContext"), Some(context.as_str()));
}
