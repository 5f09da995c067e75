//! JSON-RPC: which request a line holds, and how it is answered.
use vstd::prelude::*;
use vstd::string::*;

use crate::json::{field, find_field, is_text, text_field, Json, JsonNumber};
use crate::text::{chars_of, same_text, text_of, trim, trimmed};

verus! {

/// The line is not JSON.
pub const PARSE_ERROR: i64 = -32700;

/// There is no such method.
pub const METHOD_NOT_FOUND: i64 = -32601;

/// The tool was refused, or failed.
pub const TOOL_FAILED: i64 = -32000;

/// What a request asks for.
#[derive(Debug)]
pub enum Action<'a> {
    Initialize,
    ListTools,
    /// Call the tool of that name; without arguments where none are given.
    CallTool(String, Option<&'a Json>),
    /// Another method.
    Unknown,
}

/// The name of the tool that a request calls; empty where none is given.
pub open spec fn called_tool(request: Json) -> Seq<char> {
    match field(request, "params"@) {
        Some(params) => match is_text(params, "name"@) {
            Some(name) => name,
            None => Seq::empty(),
        },
        None => Seq::empty(),
    }
}

/// The arguments that a request gives, if any.
pub open spec fn called_arguments(request: Json) -> Option<Json> {
    match field(request, "params"@) {
        Some(params) => field(params, "arguments"@),
        None => None,
    }
}

/// Nobody waits for the answer to a request without an identifier.
pub open spec fn is_notification(request: Json) -> bool {
    field(request, "id"@) is None
}

/// What a request asks for.
pub fn read_request<'a>(request: &'a Json) -> (r: Action<'a>)
    ensures
        match is_text(*request, "method"@) {
            Some(m) => if m == "initialize"@ {
                r is Initialize
            } else if m == "tools/list"@ {
                r is ListTools
            } else if m == "tools/call"@ {
                &&& r is CallTool
                &&& r->CallTool_0@ == called_tool(*request)
                &&& (match r->CallTool_1 {
                    Some(arguments) => Some(*arguments),
                    None => None,
                }) == called_arguments(*request)
            } else {
                r is Unknown
            },
            None => r is Unknown,
        },
{
    proof {
        lemma_methods_differ();
    }
    match text_field(request, "method") {
        Some(m) => {
            if same_text(m, "initialize") {
                Action::Initialize
            } else if same_text(m, "tools/list") {
                Action::ListTools
            } else if same_text(m, "tools/call") {
                match find_field(request, "params") {
                    Some(params) => {
                        let name: String = match text_field(params, "name") {
                            Some(s) => s.to_owned(),
                            None => String::new(),
                        };
                        Action::CallTool(name, find_field(params, "arguments"))
                    },
                    None => Action::CallTool(String::new(), None),
                }
            } else {
                Action::Unknown
            }
        },
        None => Action::Unknown,
    }
}

proof fn lemma_methods_differ()
    ensures
        "initialize"@ != "tools/list"@,
        "initialize"@ != "tools/call"@,
        "tools/list"@ != "tools/call"@,
{
    reveal_strlit("initialize");
    reveal_strlit("tools/list");
    reveal_strlit("tools/call");
    assert("initialize"@[0] == 'i' && "tools/list"@[0] == 't' && "tools/call"@[0] == 't');
    assert("tools/list"@[6] == 'l' && "tools/call"@[6] == 'c');
}

/// The identifier to answer a request with; none where nobody waits for the
/// answer.
pub fn reply_id<'a>(request: &'a Json) -> (r: Option<&'a Json>)
    ensures
        r is None <==> is_notification(*request),
        r is Some ==> field(*request, "id"@) == Some(*(r->0)),
{
    find_field(request, "id")
}

/// What a line holds without white space at its ends; nothing where it is blank.
pub fn request_line(line: &str) -> (r: Option<String>)
    ensures
        match r {
            Some(s) => s@ == trimmed(line@) && s@.len() > 0,
            None => trimmed(line@).len() == 0,
        },
{
    let cs = chars_of(line);
    let inner = trim(cs.as_slice());
    if inner.len() > 0 {
        Some(text_of(inner))
    } else {
        None
    }
}

/// The fields of an object have these names, in this order.
pub open spec fn has_fields(v: Json, names: Seq<Seq<char>>) -> bool {
    v is Object && v->Object_0@.len() == names.len() && forall|i: int|
        0 <= i < names.len() ==> (#[trigger] v->Object_0@[i]).0@ == names[i]
}

/// The value of the field at a position.
pub open spec fn value_at(v: Json, i: int) -> Json {
    v->Object_0@[i].1
}

/// A text value with these characters.
pub open spec fn is_text_value(v: Json, s: Seq<char>) -> bool {
    v is Text && v->Text_0@ == s
}

/// The answer to a request that succeeded.
pub fn ok_response(id: Json, result: Json) -> (r: Json)
    ensures
        has_fields(r, seq!["jsonrpc"@, "id"@, "result"@]),
        is_text_value(value_at(r, 0), "2.0"@),
        value_at(r, 1) == id,
        value_at(r, 2) == result,
{
    let mut fields: Vec<(String, Json)> = Vec::new();
    fields.push(("jsonrpc".to_owned(), Json::Text("2.0".to_owned())));
    fields.push(("id".to_owned(), id));
    fields.push(("result".to_owned(), result));
    Json::Object(fields)
}

/// What went wrong: a code and a message.
#[derive(Debug)]
pub struct Failure {
    pub code: i64,
    pub message: String,
}

/// The answer to a request that failed.
pub fn err_response(id: Json, failure: Failure) -> (r: Json)
    ensures
        has_fields(r, seq!["jsonrpc"@, "id"@, "error"@]),
        is_text_value(value_at(r, 0), "2.0"@),
        value_at(r, 1) == id,
        has_fields(value_at(r, 2), seq!["code"@, "message"@]),
        value_at(value_at(r, 2), 0) == Json::Number(
            (JsonNumber { whole: None, signed: Some(failure.code), number: None }),
        ),
        value_at(value_at(r, 2), 1) == Json::Text(failure.message),
{
    let code = JsonNumber { whole: None, signed: Some(failure.code), number: None };
    let mut error: Vec<(String, Json)> = Vec::new();
    error.push(("code".to_owned(), Json::Number(code)));
    error.push(("message".to_owned(), Json::Text(failure.message)));
    let mut fields: Vec<(String, Json)> = Vec::new();
    fields.push(("jsonrpc".to_owned(), Json::Text("2.0".to_owned())));
    fields.push(("id".to_owned(), id));
    fields.push(("error".to_owned(), Json::Object(error)));
    Json::Object(fields)
}

/// The answer to a line that is not JSON.
pub fn parse_failure(reason: &str) -> (r: Failure)
    ensures
        r.code == PARSE_ERROR,
        r.message@ == "parse error: "@ + reason@,
{
    let mut message: String = "parse error: ".to_owned();
    message.append(reason);
    Failure { code: PARSE_ERROR, message }
}

/// The answer to a method that there is not.
pub fn unknown_method() -> (r: Failure)
    ensures
        r.code == METHOD_NOT_FOUND,
        r.message@ == "Method not found"@,
{
    Failure { code: METHOD_NOT_FOUND, message: "Method not found".to_owned() }
}

/// The answer to a call that was refused or failed.
pub fn tool_failure(message: String) -> (r: Failure)
    ensures
        r.code == TOOL_FAILED,
        r.message == message,
{
    Failure { code: TOOL_FAILED, message }
}

/// A text as the result of a tool.
pub fn tool_result(text: String) -> (r: Json)
    ensures
        has_fields(r, seq!["content"@]),
        value_at(r, 0) is List,
        value_at(r, 0)->List_0@.len() == 1,
        has_fields(value_at(r, 0)->List_0@[0], seq!["type"@, "text"@]),
        is_text_value(value_at(value_at(r, 0)->List_0@[0], 0), "text"@),
        value_at(value_at(r, 0)->List_0@[0], 1) == Json::Text(text),
{
    let mut item: Vec<(String, Json)> = Vec::new();
    item.push(("type".to_owned(), Json::Text("text".to_owned())));
    item.push(("text".to_owned(), Json::Text(text)));
    let mut list: Vec<Json> = Vec::new();
    list.push(Json::Object(item));
    let mut fields: Vec<(String, Json)> = Vec::new();
    fields.push(("content".to_owned(), Json::List(list)));
    Json::Object(fields)
}

/// What the server says of itself.
pub fn server_info(version: &str) -> (r: Json)
    ensures
        has_fields(r, seq!["protocolVersion"@, "capabilities"@, "serverInfo"@]),
        is_text_value(value_at(r, 0), "2024-11-05"@),
        has_fields(value_at(r, 1), seq!["tools"@]),
        has_fields(value_at(value_at(r, 1), 0), Seq::empty()),
        has_fields(value_at(r, 2), seq!["name"@, "version"@]),
        is_text_value(value_at(value_at(r, 2), 0), "mimir"@),
        is_text_value(value_at(value_at(r, 2), 1), version@),
{
    let mut capabilities: Vec<(String, Json)> = Vec::new();
    capabilities.push(("tools".to_owned(), Json::Object(Vec::new())));
    let mut server: Vec<(String, Json)> = Vec::new();
    server.push(("name".to_owned(), Json::Text("mimir".to_owned())));
    server.push(("version".to_owned(), Json::Text(version.to_owned())));
    let mut fields: Vec<(String, Json)> = Vec::new();
    fields.push(("protocolVersion".to_owned(), Json::Text("2024-11-05".to_owned())));
    fields.push(("capabilities".to_owned(), Json::Object(capabilities)));
    fields.push(("serverInfo".to_owned(), Json::Object(server)));
    Json::Object(fields)
}

} // verus!
