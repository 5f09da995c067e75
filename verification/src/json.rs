//! JSON values, as far as requests are concerned.
use vstd::prelude::*;
use vstd::string::*;

use crate::binary64::Binary64;
use crate::text::same_text;

verus! {

/// A number, as the kinds of number it can be read as.
#[derive(Clone, Copy, Debug, PartialEq, Eq, Structural)]
pub struct JsonNumber {
    /// As a whole number without sign.
    pub whole: Option<u64>,
    /// As a whole number with sign.
    pub signed: Option<i64>,
    /// As a double-precision number.
    pub number: Option<Binary64>,
}

/// A JSON value. The names of an object's fields differ from each other.
#[derive(Debug)]
pub enum Json {
    Null,
    Flag(bool),
    Number(JsonNumber),
    Text(String),
    List(Vec<Json>),
    Object(Vec<(String, Json)>),
}

/// A JSON value as plain values.
pub enum JsonModel {
    Flag(bool),
    Number(JsonNumber),
    Text(Seq<char>),
    List(Seq<JsonModel>),
    Object(Seq<(Seq<char>, JsonModel)>),
}

/// The value is the one that the model gives, with the fields in that order.
pub open spec fn is_json(v: Json, model: JsonModel) -> bool
    decreases model,
{
    match model {
        JsonModel::Flag(b) => v == Json::Flag(b),
        JsonModel::Number(n) => v == Json::Number(n),
        JsonModel::Text(s) => v is Text && v->Text_0@ == s,
        JsonModel::List(items) => v is List && v->List_0@.len() == items.len() && forall|i: int|
            0 <= i < items.len() ==> is_json(#[trigger] v->List_0@[i], items[i]),
        JsonModel::Object(fields) => v is Object && v->Object_0@.len() == fields.len() && forall|
            i: int,
        |
            0 <= i < fields.len() ==> (#[trigger] v->Object_0@[i]).0@ == fields[i].0 && is_json(
                v->Object_0@[i].1,
                fields[i].1,
            ),
    }
}

/// The position of the field of that name, or the number of fields.
pub open spec fn field_index(fields: Seq<(String, Json)>, name: Seq<char>) -> int
    decreases fields.len(),
{
    if fields.len() == 0 || fields[0].0@ == name {
        0
    } else {
        1 + field_index(fields.drop_first(), name)
    }
}

/// The field of that name; none where there is none, or the value is no object.
pub open spec fn field(v: Json, name: Seq<char>) -> Option<Json> {
    match v {
        Json::Object(fields) => {
            let i = field_index(fields@, name);
            if 0 <= i < fields@.len() {
                Some(fields@[i].1)
            } else {
                None
            }
        },
        _ => None,
    }
}

/// The text in the field of that name.
pub open spec fn is_text(v: Json, name: Seq<char>) -> Option<Seq<char>> {
    match field(v, name) {
        Some(Json::Text(s)) => Some(s@),
        _ => None,
    }
}

/// The number in the field of that name.
pub open spec fn is_number(v: Json, name: Seq<char>) -> Option<Binary64> {
    match field(v, name) {
        Some(Json::Number(n)) => n.number,
        _ => None,
    }
}

/// The whole number in the field of that name.
pub open spec fn is_whole(v: Json, name: Seq<char>) -> Option<u64> {
    match field(v, name) {
        Some(Json::Number(n)) => n.whole,
        _ => None,
    }
}

/// The flag in the field of that name.
pub open spec fn is_flag(v: Json, name: Seq<char>) -> Option<bool> {
    match field(v, name) {
        Some(Json::Flag(b)) => Some(b),
        _ => None,
    }
}

/// Looks a field up.
pub fn find_field<'a>(v: &'a Json, name: &str) -> (r: Option<&'a Json>)
    ensures
        match r {
            Some(x) => field(*v, name@) == Some(*x),
            None => field(*v, name@) is None,
        },
{
    match v {
        Json::Object(fields) => {
            let n: usize = fields.len();
            let mut i: usize = 0;
            assert(fields@.skip(0) =~= fields@);
            while i < n
                invariant
                    i <= n,
                    n == fields@.len(),
                    *v == Json::Object(*fields),
                    field_index(fields@, name@) == i + field_index(fields@.skip(i as int), name@),
                decreases n - i,
            {
                let ghost rest = fields@.skip(i as int);
                assert(rest[0] == fields@[i as int]);
                assert(rest.drop_first() =~= fields@.skip(i + 1));
                if same_text(fields[i].0.as_str(), name) {
                    return Some(&fields[i].1);
                }
                i = i + 1;
            }
            None
        },
        _ => None,
    }
}

/// The text in a field.
pub fn text_field<'a>(v: &'a Json, name: &str) -> (r: Option<&'a str>)
    ensures
        match r {
            Some(s) => is_text(*v, name@) == Some(s@),
            None => is_text(*v, name@) is None,
        },
{
    match find_field(v, name) {
        Some(Json::Text(s)) => Some(s.as_str()),
        _ => None,
    }
}

/// The number in a field.
pub fn number_field(v: &Json, name: &str) -> (r: Option<Binary64>)
    ensures
        r == is_number(*v, name@),
{
    match find_field(v, name) {
        Some(Json::Number(n)) => n.number,
        _ => None,
    }
}

/// The whole number in a field.
pub fn whole_field(v: &Json, name: &str) -> (r: Option<u64>)
    ensures
        r == is_whole(*v, name@),
{
    match find_field(v, name) {
        Some(Json::Number(n)) => n.whole,
        _ => None,
    }
}

/// The flag in a field.
pub fn flag_field(v: &Json, name: &str) -> (r: Option<bool>)
    ensures
        r == is_flag(*v, name@),
{
    match find_field(v, name) {
        Some(Json::Flag(b)) => Some(*b),
        _ => None,
    }
}

} // verus!
