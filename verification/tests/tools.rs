use mimir::binary64::Binary64;
use mimir::graph::{EdgeType, MemoryType};
use mimir::ids::format_id;
use mimir::json::{find_field, flag_field, number_field, text_field, whole_field, Json, JsonNumber};
use mimir::rpc::{
    err_response, ok_response, parse_failure, read_request, reply_id, request_line, server_info,
    tool_failure, tool_result, unknown_method, Action,
};
use mimir::tools::{
    handle_tool_call, memory_type_choices, read_call, tool_schema, tools_list, Literal,
    PropertyKind, Tool, ToolError, ToolRequest,
};

fn text(s: &str) -> Json {
    Json::Text(s.to_string())
}

fn number(v: f64) -> Json {
    Json::Number(JsonNumber {
        whole: if v >= 0.0 && v.fract() == 0.0 { Some(v as u64) } else { None },
        signed: None,
        number: Some(Binary64 { bits: v.to_bits() }),
    })
}

fn num(v: f64) -> Binary64 {
    Binary64 { bits: v.to_bits() }
}

fn object(fields: Vec<(&str, Json)>) -> Json {
    Json::Object(fields.into_iter().map(|(k, v)| (k.to_string(), v)).collect())
}

fn refused(name: &str, args: Json) -> String {
    handle_tool_call(name, &args).err().unwrap().message()
}

#[test]
fn fields_are_looked_up() {
    let v = object(vec![("a", text("x")), ("n", number(3.0)), ("f", Json::Flag(true))]);
    assert_eq!(text_field(&v, "a"), Some("x"));
    assert_eq!(text_field(&v, "n"), None);
    assert_eq!(whole_field(&v, "n"), Some(3));
    assert_eq!(number_field(&v, "n"), Some(num(3.0)));
    assert_eq!(flag_field(&v, "f"), Some(true));
    assert!(find_field(&v, "b").is_none());
    assert!(find_field(&Json::Null, "a").is_none());
    assert!(find_field(&Json::List(vec![]), "a").is_none());
}

#[test]
fn all_tools_are_listed_once() {
    let tools = tools_list();
    assert_eq!(tools.len(), 24);
    for t in &tools {
        assert_eq!(Tool::from_name(t.name()), Some(*t));
        assert_eq!(tools.iter().filter(|u| u.name() == t.name()).count(), 1);
        let properties = t.properties();
        for r in t.required_names() {
            assert!(properties.iter().any(|p| p.name == r), "{} {r}", t.name());
        }
    }
    assert_eq!(Tool::from_name("nothing"), None);
    assert_eq!(memory_type_choices(), vec!["fact", "experiential", "working"]);
}

#[test]
fn schemas_say_what_arguments_are() {
    let p = Tool::QueryRelevant.properties();
    let limit = p.iter().find(|x| x.name == "limit").unwrap();
    assert_eq!(limit.kind, PropertyKind::Integer);
    assert_eq!((limit.minimum, limit.default), (Some(Literal::Whole(0)), Some(Literal::Whole(10))));
    let p = Tool::SweepExpiredDefeated.properties();
    assert_eq!(p[0].default, Some(Literal::Number(0.3f64.to_bits())));
    assert_eq!((p[1].minimum, p[1].maximum, p[1].default), (
        Some(Literal::Number(0)),
        None,
        Some(Literal::Number(24.0f64.to_bits()))
    ));
    assert_eq!(Tool::InsertBelief.required_names(), vec!["content", "probability", "confidence"]);
    assert!(Tool::InsertBelief.properties()[4].is_memory_type);
    assert_eq!(Tool::GetBelief.description(), "Get a belief by ID.");
}

#[test]
fn beliefs_are_inserted_by_name() {
    let args = object(vec![
        ("content", text("c")),
        ("probability", number(0.9)),
        ("confidence", number(1.0)),
        ("project", text("p")),
        ("memory_type", text("working")),
    ]);
    match handle_tool_call("insert_belief", &args).unwrap() {
        ToolRequest::InsertBelief { content, probability, confidence, memory_type, project } => {
            assert_eq!(content, "c");
            assert_eq!((probability, confidence), (num(0.9), num(1.0)));
            assert_eq!(memory_type, MemoryType::Working);
            assert_eq!(project.as_deref(), Some("p"));
        }
        _ => panic!("another request"),
    }
}

#[test]
fn missing_arguments_are_named_in_order() {
    assert_eq!(refused("insert_belief", object(vec![])), "missing 'content'");
    assert_eq!(refused("insert_belief", Json::Null), "missing 'content'");
    assert_eq!(
        refused("insert_belief", object(vec![("content", number(1.0))])),
        "missing 'content'"
    );
    assert_eq!(
        refused("insert_belief", object(vec![("content", text("c"))])),
        "missing 'probability'"
    );
    assert_eq!(
        refused("record_support", object(vec![("from_id", text("bad")), ("to_id", text("bad"))])),
        "missing 'weight'"
    );
    assert_eq!(refused("query_intervention", object(vec![("id", text("bad"))])), "missing 'value'");
    for (tool, first) in [
        ("delete_belief", "id"),
        ("delete_project", "project"),
        ("delete_pattern", "id"),
        ("insert_pattern", "situation"),
        ("record_cause", "from_id"),
        ("record_defeat", "from_id"),
        ("record_contradiction", "id_a"),
        ("get_belief", "id"),
        ("query_relevant", "context"),
        ("add_evidence", "belief_id"),
        ("get_evidence", "belief_id"),
        ("propagate_from", "id"),
        ("load_document", "path"),
        ("query_document", "context"),
        ("clear_document", "path"),
    ] {
        assert_eq!(refused(tool, object(vec![])), format!("missing '{first}'"), "{tool}");
    }
}

#[test]
fn other_refusals_say_why() {
    assert_eq!(refused("no_such_tool", object(vec![])), "unknown tool: no_such_tool");
    assert_eq!(
        refused("list_beliefs", object(vec![("memory_type", text("Fact"))])),
        "invalid 'memory_type': unknown memory type: Fact"
    );
    let reason = uuid::Uuid::parse_str("zz").unwrap_err().to_string();
    assert_eq!(refused("get_belief", object(vec![("id", text("zz"))])), reason);
    assert!(matches!(
        handle_tool_call("get_belief", &object(vec![("id", text("zz"))])),
        Err(ToolError::BadId(_))
    ));
}

#[test]
fn edges_are_recorded_with_their_type() {
    let args = || {
        object(vec![
            ("from_id", text(&format_id(1))),
            ("to_id", text(&format_id(2))),
            ("weight", number(0.5)),
        ])
    };
    for (tool, t) in [
        ("record_support", EdgeType::Supports),
        ("record_cause", EdgeType::Causes),
        ("record_defeat", EdgeType::Defeats),
    ] {
        match handle_tool_call(tool, &args()).unwrap() {
            ToolRequest::RecordEdge { from_id, to_id, edge_type, weight } => {
                assert_eq!((from_id, to_id, edge_type, weight), (1, 2, t, num(0.5)));
            }
            _ => panic!("another request"),
        }
    }
    let args = object(vec![("id_a", text(&format_id(3))), ("id_b", text(&format_id(4)))]);
    match handle_tool_call("record_contradiction", &args).unwrap() {
        ToolRequest::RecordEdge { from_id, to_id, edge_type, weight } => {
            assert_eq!((from_id, to_id, edge_type, weight), (3, 4, EdgeType::Contradicts, num(1.0)));
        }
        _ => panic!("another request"),
    }
}

#[test]
fn defaults_stand_in_for_what_is_not_given() {
    match handle_tool_call("sweep_expired_defeated", &object(vec![])).unwrap() {
        ToolRequest::SweepExpiredDefeated { prob_threshold, grace_hours, project } => {
            assert_eq!((prob_threshold, grace_hours), (num(0.3), num(24.0)));
            assert!(project.is_none());
        }
        _ => panic!("another request"),
    }
    match handle_tool_call("query_relevant", &object(vec![("context", text("q"))])).unwrap() {
        ToolRequest::QueryRelevant { context, limit, evidence_per_belief, project } => {
            assert_eq!((context.as_str(), limit, evidence_per_belief), ("q", 10, None));
            assert!(project.is_none());
        }
        _ => panic!("another request"),
    }
    let args = object(vec![
        ("context", text("q")),
        ("include_evidence", Json::Flag(true)),
        ("limit", number(0.0)),
    ]);
    match handle_tool_call("query_relevant", &args).unwrap() {
        ToolRequest::QueryRelevant { limit, evidence_per_belief, .. } => {
            assert_eq!((limit, evidence_per_belief), (0, Some(3)));
        }
        _ => panic!("another request"),
    }
    match handle_tool_call("query_document", &object(vec![("context", text("q"))])).unwrap() {
        ToolRequest::QueryDocument { limit, .. } => assert_eq!(limit, 5),
        _ => panic!("another request"),
    }
    match handle_tool_call("decay_all", &object(vec![])).unwrap() {
        ToolRequest::DecayAll { decay_factor, project } => {
            assert!(decay_factor.is_none() && project.is_none());
        }
        _ => panic!("another request"),
    }
    match handle_tool_call("list_beliefs", &object(vec![("project", number(1.0))])).unwrap() {
        ToolRequest::ListBeliefs { project, memory_type } => {
            assert!(project.is_none() && memory_type.is_none());
        }
        _ => panic!("another request"),
    }
}

#[test]
fn the_other_tools_take_their_arguments() {
    let id = || object(vec![("id", text(&format_id(8))), ("value", number(0.25))]);
    assert!(matches!(read_call(Tool::DeleteBelief, &id()), Ok(ToolRequest::DeleteBelief { id: 8 })));
    assert!(matches!(read_call(Tool::DeletePattern, &id()), Ok(ToolRequest::DeletePattern { id: 8 })));
    assert!(matches!(read_call(Tool::GetBelief, &id()), Ok(ToolRequest::GetBelief { id: 8 })));
    assert!(matches!(read_call(Tool::PropagateFrom, &id()), Ok(ToolRequest::PropagateFrom { id: 8 })));
    assert!(matches!(
        read_call(Tool::QueryIntervention, &id()),
        Ok(ToolRequest::QueryIntervention { id: 8, value }) if value == num(0.25)
    ));
    let ev = object(vec![("belief_id", text(&format_id(1))), ("chunk_id", text(&format_id(2)))]);
    assert!(matches!(
        read_call(Tool::AddEvidence, &ev),
        Ok(ToolRequest::AddEvidence { belief_id: 1, chunk_id: 2, weight }) if weight == num(1.0)
    ));
    assert!(matches!(read_call(Tool::GetEvidence, &ev), Ok(ToolRequest::GetEvidence { belief_id: 1 })));
    let doc = object(vec![("path", text("/d")), ("project", text("p"))]);
    assert!(matches!(
        read_call(Tool::LoadDocument, &doc),
        Ok(ToolRequest::LoadDocument { path, project: Some(p) }) if path == "/d" && p == "p"
    ));
    assert!(matches!(read_call(Tool::ClearDocument, &doc), Ok(ToolRequest::ClearDocument { path }) if path == "/d"));
    assert!(matches!(read_call(Tool::DeleteProject, &doc), Ok(ToolRequest::DeleteProject { project }) if project == "p"));
    assert!(matches!(read_call(Tool::ListPatterns, &doc), Ok(ToolRequest::ListPatterns { project: Some(_) })));
    assert!(matches!(
        read_call(Tool::GetContradictions, &doc),
        Ok(ToolRequest::GetContradictions { project: Some(_) })
    ));
    let pat = object(vec![
        ("situation", text("s")),
        ("approach", text("a")),
        ("success_rate", number(0.5)),
    ]);
    assert!(matches!(
        read_call(Tool::InsertPattern, &pat),
        Ok(ToolRequest::InsertPattern { situation, approach, success_rate })
            if situation == "s" && approach == "a" && success_rate == num(0.5)
    ));
}

#[test]
fn requests_are_told_apart() {
    let r = |m: &str| object(vec![("id", number(1.0)), ("method", text(m))]);
    assert!(matches!(read_request(&r("initialize")), Action::Initialize));
    assert!(matches!(read_request(&r("tools/list")), Action::ListTools));
    assert!(matches!(read_request(&r("tools/call")), Action::CallTool(n, None) if n.is_empty()));
    assert!(matches!(read_request(&r("ping")), Action::Unknown));
    assert!(matches!(read_request(&object(vec![])), Action::Unknown));
    let call = object(vec![
        ("method", text("tools/call")),
        (
            "params",
            object(vec![("name", text("get_belief")), ("arguments", object(vec![("id", text("x"))]))]),
        ),
    ]);
    match read_request(&call) {
        Action::CallTool(name, Some(args)) => {
            assert_eq!(name, "get_belief");
            assert_eq!(text_field(args, "id"), Some("x"));
        }
        _ => panic!("another action"),
    }
}

#[test]
fn notifications_are_not_answered() {
    assert!(reply_id(&object(vec![("method", text("x"))])).is_none());
    assert!(matches!(reply_id(&object(vec![("id", Json::Null)])), Some(Json::Null)));
}

#[test]
fn blank_lines_hold_no_request() {
    assert_eq!(request_line("  \n"), None);
    assert_eq!(request_line(" {} \r\n").as_deref(), Some("{}"));
}

#[test]
fn answers_have_their_form() {
    let r = ok_response(number(7.0), text("x"));
    assert_eq!(text_field(&r, "jsonrpc"), Some("2.0"));
    assert_eq!(whole_field(&r, "id"), Some(7));
    assert_eq!(text_field(&r, "result"), Some("x"));
    let r = err_response(Json::Null, unknown_method());
    let e = find_field(&r, "error").unwrap();
    assert_eq!(text_field(e, "message"), Some("Method not found"));
    assert!(matches!(find_field(e, "code"), Some(Json::Number(n)) if n.signed == Some(-32601)));
    let f = parse_failure("oops");
    assert_eq!((f.code, f.message.as_str()), (-32700, "parse error: oops"));
    let f = tool_failure("bad".to_string());
    assert_eq!((f.code, f.message.as_str()), (-32000, "bad"));
    let r = tool_result("[]".to_string());
    match find_field(&r, "content") {
        Some(Json::List(items)) => {
            assert_eq!(items.len(), 1);
            assert_eq!(text_field(&items[0], "type"), Some("text"));
            assert_eq!(text_field(&items[0], "text"), Some("[]"));
        }
        _ => panic!("no content"),
    }
    let r = server_info("1.2.3");
    assert_eq!(text_field(&r, "protocolVersion"), Some("2024-11-05"));
    let s = find_field(&r, "serverInfo").unwrap();
    assert_eq!((text_field(s, "name"), text_field(s, "version")), (Some("mimir"), Some("1.2.3")));
    assert!(find_field(find_field(&r, "capabilities").unwrap(), "tools").is_some());
}

/// A JSON value as text.
fn written(v: &Json) -> String {
    match v {
        Json::Null => "null".to_string(),
        Json::Flag(b) => format!("{b}"),
        Json::Number(n) => match (n.whole, n.number) {
            (Some(w), _) => format!("{w}"),
            (None, Some(f)) => format!("{:?}", f64::from_bits(f.bits)),
            (None, None) => "null".to_string(),
        },
        Json::Text(s) => format!("{s:?}"),
        Json::List(items) => {
            let items: Vec<String> = items.iter().map(written).collect();
            format!("[{}]", items.join(","))
        }
        Json::Object(fields) => {
            let fields: Vec<String> =
                fields.iter().map(|(k, v)| format!("{k:?}:{}", written(v))).collect();
            format!("{{{}}}", fields.join(","))
        }
    }
}

#[test]
fn tools_are_listed_with_their_schemas() {
    assert_eq!(
        written(&tool_schema(Tool::RecordSupport)),
        concat_lines(&[
            "{\"name\":\"record_support\",",
            "\"description\":\"Add a SUPPORTS edge from one belief to another.\",",
            "\"inputSchema\":{\"type\":\"object\",\"properties\":{",
            "\"from_id\":{\"type\":\"string\"},\"to_id\":{\"type\":\"string\"},",
            "\"weight\":{\"type\":\"number\",\"minimum\":0.0,\"maximum\":1.0}},",
            "\"required\":[\"from_id\",\"to_id\",\"weight\"]}}",
        ])
    );
    let decay = written(&tool_schema(Tool::DecayAll));
    assert!(decay.contains(
        "\"decay_factor\":{\"type\":\"number\",\"minimum\":0.0,\"maximum\":1.0,\"default\":0.99}"
    ));
    assert!(!decay.contains("required"));
    let query = written(&tool_schema(Tool::QueryRelevant));
    assert!(query.contains("\"limit\":{\"type\":\"integer\",\"minimum\":0,\"default\":10}"));
    assert!(query.contains("\"type\":\"boolean\",\"default\":false"));
    let insert = written(&tool_schema(Tool::InsertBelief));
    assert!(insert.contains("\"enum\":[\"fact\",\"experiential\",\"working\"]"));
}

fn concat_lines(lines: &[&str]) -> String {
    lines.concat()
}

#[test]
fn the_confidence_of_a_belief_can_be_updated() {
    let args = object(vec![("id", text(&format_id(8))), ("confidence", number(0.4))]);
    assert!(matches!(
        handle_tool_call("update_confidence", &args),
        Ok(ToolRequest::UpdateConfidence { id: 8, confidence }) if confidence == num(0.4)
    ));
    assert_eq!(
        refused("update_confidence", object(vec![("id", text("bad"))])),
        "missing 'confidence'"
    );
    assert_eq!(
        refused("update_confidence", object(vec![("confidence", number(0.4))])),
        "missing 'id'"
    );
    assert!(matches!(
        handle_tool_call(
            "update_confidence",
            &object(vec![("id", text("bad")), ("confidence", number(0.4))])
        ),
        Err(ToolError::BadId(_))
    ));
    let schema = written(&tool_schema(Tool::UpdateConfidence));
    assert!(schema.contains(
        "\"confidence\":{\"type\":\"number\",\"minimum\":0.0,\"maximum\":1.0}"
    ));
    assert!(schema.contains("\"required\":[\"id\",\"confidence\"]"));
}
