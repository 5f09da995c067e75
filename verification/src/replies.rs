//! What tools are answered, as JSON.
use vstd::prelude::*;
use vstd::string::*;

use crate::binary64::Binary64;
use crate::documents::texts_view;
use crate::graph::Probability;
use crate::ids::{id_text, write_id};
use crate::json::{Json, JsonNumber};
use crate::rpc::{has_fields, is_text_value, value_at};
use crate::service::EvidenceRef;

verus! {

/// A whole number as a JSON value.
pub open spec fn whole_value_of(n: u64) -> Json {
    Json::Number(JsonNumber { whole: Some(n), signed: None, number: None })
}

/// A number as a JSON value.
pub open spec fn number_value_of(v: Binary64) -> Json {
    Json::Number(JsonNumber { whole: None, signed: None, number: Some(v) })
}

/// That something was done.
pub fn done_reply() -> (r: Json)
    ensures
        has_fields(r, seq!["ok"@]),
        value_at(r, 0) == Json::Flag(true),
{
    let mut fields: Vec<(String, Json)> = Vec::new();
    fields.push(("ok".to_owned(), Json::Flag(true)));
    Json::Object(fields)
}

/// Whether something was deleted.
pub fn deleted_reply(found: bool) -> (r: Json)
    ensures
        has_fields(r, seq!["deleted"@]),
        value_at(r, 0) == Json::Flag(found),
{
    let mut fields: Vec<(String, Json)> = Vec::new();
    fields.push(("deleted".to_owned(), Json::Flag(found)));
    Json::Object(fields)
}

/// How many of something were deleted, decayed, loaded or cleared.
pub fn count_reply(what: &str, n: usize) -> (r: Json)
    ensures
        has_fields(r, seq![what@]),
        value_at(r, 0) == whole_value_of(n as u64),
{
    let mut fields: Vec<(String, Json)> = Vec::new();
    let number = JsonNumber { whole: Some(n as u64), signed: None, number: None };
    fields.push((what.to_owned(), Json::Number(number)));
    Json::Object(fields)
}

/// A list of two identifiers.
pub open spec fn is_pair_value(v: Json, pair: (u128, u128)) -> bool {
    &&& v is List
    &&& v->List_0@.len() == 2
    &&& is_text_value(v->List_0@[0], id_text(pair.0))
    &&& is_text_value(v->List_0@[1], id_text(pair.1))
}

/// The contradicting pairs.
pub fn pairs_reply(pairs: &[(u128, u128)]) -> (r: Json)
    ensures
        r is List,
        r->List_0@.len() == pairs@.len(),
        forall|i: int|
            0 <= i < pairs@.len() ==> is_pair_value(#[trigger] r->List_0@[i], pairs@[i]),
{
    let n: usize = pairs.len();
    let mut list: Vec<Json> = Vec::new();
    let mut i: usize = 0;
    while i < n
        invariant
            i <= n,
            n == pairs@.len(),
            list@.len() == i,
            forall|k: int| 0 <= k < i ==> is_pair_value(#[trigger] list@[k], pairs@[k]),
        decreases n - i,
    {
        let mut pair: Vec<Json> = Vec::new();
        pair.push(Json::Text(write_id(pairs[i].0)));
        pair.push(Json::Text(write_id(pairs[i].1)));
        list.push(Json::List(pair));
        i = i + 1;
    }
    Json::List(list)
}

/// An identifier with its probability, under the given name.
pub open spec fn is_update_value(v: Json, update: (u128, Probability), name: Seq<char>) -> bool {
    &&& has_fields(v, seq!["id"@, name])
    &&& is_text_value(value_at(v, 0), id_text(update.0))
    &&& value_at(v, 1) == number_value_of(Binary64 { bits: update.1.key() })
}

/// New or projected probabilities, under the given name.
pub fn updates_reply(updates: &[(u128, Probability)], name: &str) -> (r: Json)
    ensures
        r is List,
        r->List_0@.len() == updates@.len(),
        forall|i: int|
            0 <= i < updates@.len() ==> is_update_value(
                #[trigger] r->List_0@[i],
                updates@[i],
                name@,
            ),
{
    let n: usize = updates.len();
    let mut list: Vec<Json> = Vec::new();
    let mut i: usize = 0;
    while i < n
        invariant
            i <= n,
            n == updates@.len(),
            list@.len() == i,
            forall|k: int|
                0 <= k < i ==> is_update_value(#[trigger] list@[k], updates@[k], name@),
        decreases n - i,
    {
        let (id, p) = updates[i];
        let number = JsonNumber { whole: None, signed: None, number: Some(p.value()) };
        let mut fields: Vec<(String, Json)> = Vec::new();
        fields.push(("id".to_owned(), Json::Text(write_id(id))));
        fields.push((name.to_owned(), Json::Number(number)));
        list.push(Json::Object(fields));
        i = i + 1;
    }
    Json::List(list)
}

/// A list of texts.
pub open spec fn is_text_list(v: Json, texts: Seq<Seq<char>>) -> bool {
    &&& v is List
    &&& v->List_0@.len() == texts.len()
    &&& forall|i: int| 0 <= i < texts.len() ==> is_text_value(#[trigger] v->List_0@[i], texts[i])
}

fn text_list(texts: &Vec<String>) -> (r: Json)
    ensures
        is_text_list(r, texts_view(texts@)),
{
    let n: usize = texts.len();
    let mut list: Vec<Json> = Vec::new();
    let mut i: usize = 0;
    while i < n
        invariant
            i <= n,
            n == texts@.len(),
            list@.len() == i,
            forall|k: int| 0 <= k < i ==> is_text_value(#[trigger] list@[k], texts@[k]@),
        decreases n - i,
    {
        list.push(Json::Text(texts[i].clone()));
        i = i + 1;
    }
    Json::List(list)
}

/// A passage.
pub open spec fn is_evidence_value(v: Json, e: EvidenceRef) -> bool {
    &&& has_fields(
        v,
        seq!["chunk_id"@, "document_path"@, "section_path"@, "snippet"@, "weight"@],
    )
    &&& is_text_value(value_at(v, 0), id_text(e.chunk_id))
    &&& is_text_value(value_at(v, 1), e.document_path@)
    &&& is_text_list(value_at(v, 2), texts_view(e.section_path@))
    &&& is_text_value(value_at(v, 3), e.snippet@)
    &&& value_at(v, 4) == number_value_of(e.weight)
}

/// The passages that ground a belief.
pub fn evidence_reply(refs: &Vec<EvidenceRef>) -> (r: Json)
    ensures
        is_evidence_list(r, refs@),
{
    let n: usize = refs.len();
    let mut list: Vec<Json> = Vec::new();
    let mut i: usize = 0;
    while i < n
        invariant
            i <= n,
            n == refs@.len(),
            list@.len() == i,
            forall|k: int| 0 <= k < i ==> is_evidence_value(#[trigger] list@[k], refs@[k]),
        decreases n - i,
    {
        let e = &refs[i];
        let number = JsonNumber { whole: None, signed: None, number: Some(e.weight) };
        let mut fields: Vec<(String, Json)> = Vec::new();
        fields.push(("chunk_id".to_owned(), Json::Text(write_id(e.chunk_id))));
        fields.push(("document_path".to_owned(), Json::Text(e.document_path.clone())));
        fields.push(("section_path".to_owned(), text_list(&e.section_path)));
        fields.push(("snippet".to_owned(), Json::Text(e.snippet.clone())));
        fields.push(("weight".to_owned(), Json::Number(number)));
        list.push(Json::Object(fields));
        i = i + 1;
    }
    Json::List(list)
}

/// The passages that ground a belief.
pub open spec fn is_evidence_list(v: Json, refs: Seq<EvidenceRef>) -> bool {
    &&& v is List
    &&& v->List_0@.len() == refs.len()
    &&& forall|i: int| 0 <= i < refs.len() ==> is_evidence_value(#[trigger] v->List_0@[i], refs[i])
}

/// A belief with its passages: the fields of the belief, and the passages as a
/// field of their own. What is no object stays as it is.
pub fn grounded_reply(belief: Json, refs: &Vec<EvidenceRef>) -> (r: Json)
    ensures
        match belief {
            Json::Object(fields) => {
                &&& r is Object
                &&& r->Object_0@.len() == fields@.len() + 1
                &&& r->Object_0@.drop_last() == fields@
                &&& r->Object_0@.last().0@ == "evidence"@
                &&& is_evidence_list(r->Object_0@.last().1, refs@)
            },
            _ => r == belief,
        },
{
    match belief {
        Json::Object(fields) => {
            let mut all = fields;
            all.push(("evidence".to_owned(), evidence_reply(refs)));
            assert(all@.drop_last() =~= fields@);
            Json::Object(all)
        },
        other => other,
    }
}

/// What a hook answers before a tool is used.
pub fn tool_hook_reply(context: String) -> (r: Json)
    ensures
        has_fields(r, seq!["hookSpecificOutput"@]),
        has_fields(value_at(r, 0), seq!["hookEventName"@, "additionalContext"@]),
        is_text_value(value_at(value_at(r, 0), 0), "PreToolUse"@),
        value_at(value_at(r, 0), 1) == Json::Text(context),
{
    let mut inner: Vec<(String, Json)> = Vec::new();
    inner.push(("hookEventName".to_owned(), Json::Text("PreToolUse".to_owned())));
    inner.push(("additionalContext".to_owned(), Json::Text(context)));
    let mut fields: Vec<(String, Json)> = Vec::new();
    fields.push(("hookSpecificOutput".to_owned(), Json::Object(inner)));
    Json::Object(fields)
}

} // verus!
