//! What the listing of the tools says of their arguments.
use vstd::prelude::*;

use crate::binary64::{one, pattern_units};
use crate::graph::MemoryType;
use crate::interface_laws::law_fields_are_read_back;
use crate::json::{field, is_json, is_text, Json, JsonModel};
use crate::rpc::{has_fields, value_at};
use crate::tools::{
    argument_fields, error_text, kind_name, literal_fields, literal_model, property_fields,
    schema_model, ArgumentKind, Literal, PropertyKind, PropertyModel, Tool, ToolError,
};

verus! {

/// A refused call is answered with what it lacks, with the memory type or the tool that is
/// unknown, or with the reason why the identifier cannot be read.
pub proof fn law_refusals_tell_their_reason(a: Seq<char>, b: Seq<char>)
    ensures
        error_text(ToolError::Missing(a)) == "missing '"@ + a + "'"@,
        error_text(ToolError::InvalidMemoryType(a))
            == "invalid 'memory_type': unknown memory type: "@ + a,
        error_text(ToolError::BadId(a)) == a,
        error_text(ToolError::UnknownTool(a)) == "unknown tool: "@ + a,
{
}

/// The kinds of properties go by the names that JSON schemas have for them, which differ.
pub proof fn law_kinds_have_different_names(a: PropertyKind, b: PropertyKind)
    ensures
        kind_name(a) == kind_name(b) <==> a == b,
        a == PropertyKind::Text <==> kind_name(a) == "string"@,
        a == PropertyKind::Number <==> kind_name(a) == "number"@,
        a == PropertyKind::Integer <==> kind_name(a) == "integer"@,
        a == PropertyKind::Flag <==> kind_name(a) == "boolean"@,
{
    reveal_strlit("string");
    reveal_strlit("number");
    reveal_strlit("integer");
    reveal_strlit("boolean");
    assert("string"@[0] == 's' && "number"@[0] == 'n' && "integer"@[0] == 'i' && "boolean"@[0]
        == 'b');
}

/// Bounds and defaults are written as the numbers and flags that they are.
pub proof fn law_literals_are_written_as_they_are(n: u64, bits: u64, b: bool)
    ensures
        literal_model(Literal::Flag(b)) == JsonModel::Flag(b),
        literal_model(Literal::Whole(n)) is Number,
        literal_model(Literal::Whole(n))->Number_0.whole == Some(n),
        literal_model(Literal::Whole(n))->Number_0.number is None,
        literal_model(Literal::Number(bits)) is Number,
        literal_model(Literal::Number(bits))->Number_0.number is Some,
        literal_model(Literal::Number(bits))->Number_0.number->0.bits == bits,
        literal_model(Literal::Number(bits))->Number_0.whole is None,
{
}

proof fn lemma_in_sum<A>(a: Seq<A>, b: Seq<A>, x: A)
    ensures
        (a + b).contains(x) <==> a.contains(x) || b.contains(x),
{
    let s = a + b;
    if a.contains(x) {
        let i = choose|i: int| 0 <= i < a.len() && a[i] == x;
        assert(s[i] == x);
    }
    if b.contains(x) {
        let i = choose|i: int| 0 <= i < b.len() && b[i] == x;
        assert(s[a.len() + i] == x);
    }
    if s.contains(x) {
        let i = choose|i: int| 0 <= i < s.len() && s[i] == x;
        if i < a.len() {
            assert(a[i] == x);
        } else {
            assert(b[i - a.len()] == x);
        }
    }
}

proof fn lemma_literal_field(name: Seq<char>, l: Option<Literal>, x: (Seq<char>, JsonModel))
    ensures
        literal_fields(name, l).contains(x) <==> l is Some && x == (name, literal_model(l->0)),
{
    if l is Some {
        let s = literal_fields(name, l);
        assert(s[0] == (name, literal_model(l->0)));
        if s.contains(x) {
            let i = choose|i: int| 0 <= i < s.len() && s[i] == x;
            assert(i == 0);
        }
    }
}

proof fn lemma_single<A>(a: A, x: A)
    ensures
        seq![a].contains(x) <==> a == x,
{
    let s = seq![a];
    assert(s[0] == a);
    if s.contains(x) {
        let i = choose|i: int| 0 <= i < s.len() && s[i] == x;
        assert(i == 0);
    }
}

/// The schema of a property tells its type, and its bounds, default and description exactly
/// where it has them. The choices of a memory type are those that there are.
pub proof fn law_schemas_tell_what_a_property_has(p: PropertyModel, x: JsonModel)
    ensures
        property_fields(p).contains(("type"@, x)) <==> x == JsonModel::Text(kind_name(p.kind)),
        property_fields(p).contains(("minimum"@, x)) <==> p.minimum is Some && x == literal_model(
            p.minimum->0,
        ),
        property_fields(p).contains(("maximum"@, x)) <==> p.maximum is Some && x == literal_model(
            p.maximum->0,
        ),
        property_fields(p).contains(("default"@, x)) <==> p.default is Some && x == literal_model(
            p.default->0,
        ),
        property_fields(p).contains(("description"@, x)) <==> p.description is Some && x
            == JsonModel::Text(p.description->0),
        property_fields(p).contains(("enum"@, x)) ==> p.is_memory_type && x is List,
        p.is_memory_type ==> exists|choices: Seq<JsonModel>|
            {
                &&& #[trigger] property_fields(p).contains(("enum"@, JsonModel::List(choices)))
                &&& forall|t: MemoryType| choices.contains(JsonModel::Text(#[trigger] t.name()))
                &&& forall|c: JsonModel| #[trigger]
                    choices.contains(c) ==> exists|t: MemoryType|
                        c == JsonModel::Text(#[trigger] t.name())
            },
{
    reveal_strlit("type");
    reveal_strlit("enum");
    reveal_strlit("minimum");
    reveal_strlit("maximum");
    reveal_strlit("default");
    reveal_strlit("description");
    let names = seq!["type"@, "enum"@, "minimum"@, "maximum"@, "default"@, "description"@];
    assert(names[0].len() == 4 && names[1].len() == 4 && names[2].len() == 7 && names[3].len() == 7
        && names[4].len() == 7 && names[5].len() == 11);
    assert(names[0][0] == 't' && names[1][0] == 'e' && names[2][1] == 'i' && names[3][1] == 'a'
        && names[4][1] == 'e');
    let choices = seq![
        JsonModel::Text(MemoryType::Fact.name()),
        JsonModel::Text(MemoryType::Experiential.name()),
        JsonModel::Text(MemoryType::Working.name()),
    ];
    let a = seq![("type"@, JsonModel::Text(kind_name(p.kind)))];
    let listed = seq![("enum"@, JsonModel::List(choices))];
    let b: Seq<(Seq<char>, JsonModel)> = if p.is_memory_type {
        listed
    } else {
        Seq::empty()
    };
    let c = literal_fields("minimum"@, p.minimum);
    let d = literal_fields("maximum"@, p.maximum);
    let e = literal_fields("default"@, p.default);
    let f: Seq<(Seq<char>, JsonModel)> = match p.description {
        Some(d) => seq![("description"@, JsonModel::Text(d))],
        None => Seq::empty(),
    };
    assert(property_fields(p) == a + b + c + d + e + f);
    assert forall|n: int, y: JsonModel| 0 <= n < 6 implies (#[trigger] property_fields(p).contains(
        (names[n], y),
    ) <==> a.contains((names[n], y)) || b.contains((names[n], y)) || c.contains((names[n], y))
        || d.contains((names[n], y)) || e.contains((names[n], y)) || f.contains((names[n], y)))
        && (a.contains((names[n], y)) <==> n == 0 && y == JsonModel::Text(kind_name(p.kind))) && (
    b.contains((names[n], y)) <==> n == 1 && p.is_memory_type && y == JsonModel::List(choices)) && (
    c.contains((names[n], y)) <==> n == 2 && p.minimum is Some && y == literal_model(p.minimum->0))
        && (d.contains((names[n], y)) <==> n == 3 && p.maximum is Some && y == literal_model(
        p.maximum->0,
    )) && (e.contains((names[n], y)) <==> n == 4 && p.default is Some && y == literal_model(
        p.default->0,
    )) && (f.contains((names[n], y)) <==> n == 5 && p.description is Some && y == JsonModel::Text(
        p.description->0,
    )) by {
        let z = (names[n], y);
        assert(n == 0 || n == 1 || n == 2 || n == 3 || n == 4 || n == 5);
        lemma_in_sum(a + b + c + d + e, f, z);
        lemma_in_sum(a + b + c + d, e, z);
        lemma_in_sum(a + b + c, d, z);
        lemma_in_sum(a + b, c, z);
        lemma_in_sum(a, b, z);
        lemma_single(("type"@, JsonModel::Text(kind_name(p.kind))), z);
        lemma_single(("enum"@, JsonModel::List(choices)), z);
        lemma_literal_field("minimum"@, p.minimum, z);
        lemma_literal_field("maximum"@, p.maximum, z);
        lemma_literal_field("default"@, p.default, z);
        if p.description is Some {
            lemma_single(("description"@, JsonModel::Text(p.description->0)), z);
        }
    }
    assert(property_fields(p).contains((names[0], x)) <==> x == JsonModel::Text(kind_name(p.kind)));
    assert(property_fields(p).contains((names[1], x)) ==> p.is_memory_type && x is List);
    assert(property_fields(p).contains((names[2], x)) <==> p.minimum is Some && x == literal_model(
        p.minimum->0,
    ));
    assert(property_fields(p).contains((names[3], x)) <==> p.maximum is Some && x == literal_model(
        p.maximum->0,
    ));
    assert(property_fields(p).contains((names[4], x)) <==> p.default is Some && x == literal_model(
        p.default->0,
    ));
    assert(property_fields(p).contains((names[5], x)) <==> p.description is Some && x
        == JsonModel::Text(p.description->0));
    if p.is_memory_type {
        assert(property_fields(p).contains((names[1], JsonModel::List(choices))));
        assert forall|t: MemoryType| choices.contains(JsonModel::Text(#[trigger] t.name())) by {
            assert(choices[0] == JsonModel::Text(MemoryType::Fact.name()));
            assert(choices[1] == JsonModel::Text(MemoryType::Experiential.name()));
            assert(choices[2] == JsonModel::Text(MemoryType::Working.name()));
            match t {
                MemoryType::Fact => {},
                MemoryType::Experiential => {},
                MemoryType::Working => {},
            }
        }
        assert forall|c: JsonModel| #[trigger] choices.contains(c) implies exists|t: MemoryType|
            c == JsonModel::Text(#[trigger] t.name()) by {
            let i = choose|i: int| 0 <= i < choices.len() && choices[i] == c;
            if i == 0 {
                assert(c == JsonModel::Text(MemoryType::Fact.name()));
            } else if i == 1 {
                assert(c == JsonModel::Text(MemoryType::Experiential.name()));
            } else {
                assert(c == JsonModel::Text(MemoryType::Working.name()));
            }
        }
    }
}

/// A property that a call needs.
pub open spec fn is_required(tool: Tool, name: Seq<char>) -> bool {
    exists|k: int| 0 <= k < tool.required().len() && (#[trigger] tool.required()[k]).0 == name
}

proof fn lemma_names()
    ensures
        "content"@.len() == 7 && "content"@[0] == 'c' && "content"@[6] == 't',
        "probability"@.len() == 11 && "probability"@[0] == 'p' && "probability"@[10] == 'y',
        "confidence"@.len() == 10 && "confidence"@[0] == 'c' && "confidence"@[9] == 'e',
        "project"@.len() == 7 && "project"@[0] == 'p' && "project"@[6] == 't',
        "memory_type"@.len() == 11 && "memory_type"@[0] == 'm' && "memory_type"@[10] == 'e',
        "id"@.len() == 2 && "id"@[0] == 'i' && "id"@[1] == 'd',
        "situation"@.len() == 9 && "situation"@[0] == 's' && "situation"@[8] == 'n',
        "approach"@.len() == 8 && "approach"@[0] == 'a' && "approach"@[7] == 'h',
        "success_rate"@.len() == 12 && "success_rate"@[0] == 's' && "success_rate"@[11] == 'e',
        "from_id"@.len() == 7 && "from_id"@[0] == 'f' && "from_id"@[6] == 'd',
        "to_id"@.len() == 5 && "to_id"@[0] == 't' && "to_id"@[4] == 'd',
        "weight"@.len() == 6 && "weight"@[0] == 'w' && "weight"@[5] == 't',
        "id_a"@.len() == 4 && "id_a"@[0] == 'i' && "id_a"@[3] == 'a',
        "id_b"@.len() == 4 && "id_b"@[0] == 'i' && "id_b"@[3] == 'b',
        "decay_factor"@.len() == 12 && "decay_factor"@[0] == 'd' && "decay_factor"@[11] == 'r',
        "prob_threshold"@.len() == 14 && "prob_threshold"@[0] == 'p' && "prob_threshold"@[13] == 'd',
        "grace_hours"@.len() == 11 && "grace_hours"@[0] == 'g' && "grace_hours"@[10] == 's',
        "context"@.len() == 7 && "context"@[0] == 'c' && "context"@[6] == 't',
        "limit"@.len() == 5 && "limit"@[0] == 'l' && "limit"@[4] == 't',
        "include_evidence"@.len() == 16 && "include_evidence"@[0] == 'i' && "include_evidence"@[15] == 'e',
        "evidence_per_belief"@.len() == 19 && "evidence_per_belief"@[0] == 'e' && "evidence_per_belief"@[18] == 'f',
        "belief_id"@.len() == 9 && "belief_id"@[0] == 'b' && "belief_id"@[8] == 'd',
        "chunk_id"@.len() == 8 && "chunk_id"@[0] == 'c' && "chunk_id"@[7] == 'd',
        "value"@.len() == 5 && "value"@[0] == 'v' && "value"@[4] == 'e',
        "path"@.len() == 4 && "path"@[0] == 'p' && "path"@[3] == 'h',
{
    reveal_strlit("content");
    reveal_strlit("probability");
    reveal_strlit("confidence");
    reveal_strlit("project");
    reveal_strlit("memory_type");
    reveal_strlit("id");
    reveal_strlit("situation");
    reveal_strlit("approach");
    reveal_strlit("success_rate");
    reveal_strlit("from_id");
    reveal_strlit("to_id");
    reveal_strlit("weight");
    reveal_strlit("id_a");
    reveal_strlit("id_b");
    reveal_strlit("decay_factor");
    reveal_strlit("prob_threshold");
    reveal_strlit("grace_hours");
    reveal_strlit("context");
    reveal_strlit("limit");
    reveal_strlit("include_evidence");
    reveal_strlit("evidence_per_belief");
    reveal_strlit("belief_id");
    reveal_strlit("chunk_id");
    reveal_strlit("value");
    reveal_strlit("path");
}

/// What the listing of a tool says of a property agrees with what a call needs: a property
/// has a default exactly when it is no text and not required. Numbers lie from zero to one,
/// save for hours, which have no upper bound; whole numbers are not negative; texts and
/// flags have no bounds. Memory types go by that name.
pub proof fn law_properties_agree_with_what_calls_need(tool: Tool, i: int)
    requires
        0 <= i < tool.spec_properties().len(),
    ensures
        ({
            let p = tool.spec_properties()[i];
            &&& p.is_memory_type <==> p.name == "memory_type"@
            &&& p.default is Some <==> p.kind != PropertyKind::Text && !is_required(tool, p.name)
            &&& p.kind == PropertyKind::Text || p.kind == PropertyKind::Flag ==> p.minimum is None
                && p.maximum is None
            &&& p.kind == PropertyKind::Flag ==> p.default is Some && p.default->0 is Flag
            &&& p.kind == PropertyKind::Number ==> {
                &&& p.minimum is Some && p.minimum->0 is Number
                &&& pattern_units(p.minimum->0->Number_0) == 0
                &&& p.maximum is None <==> p.name == "grace_hours"@
                &&& p.maximum is Some ==> p.maximum->0 is Number && pattern_units(
                    p.maximum->0->Number_0,
                ) == one()
                &&& p.default is Some ==> p.default->0 is Number
            }
            &&& p.kind == PropertyKind::Integer ==> {
                &&& p.minimum is Some && p.minimum->0 is Whole && p.minimum->0->Whole_0 == 0
                &&& p.maximum is None
                &&& p.default is Some && p.default->0 is Whole
            }
        }),
{
    lemma_names();
    crate::binary64::lemma_one_units();
    let p = tool.spec_properties()[i];
    let required = tool.required();
    if p.kind != PropertyKind::Text && p.default is None {
        if required.len() > 0 && required[0].0 == p.name {
        } else if required.len() > 1 && required[1].0 == p.name {
        } else {
            assert(required[2].0 == p.name);
        }
    }
}

/// A listed property is a number exactly when the call that needs it reads a number.
pub proof fn law_required_properties_are_of_their_kind(tool: Tool, i: int, k: int)
    requires
        0 <= i < tool.spec_properties().len(),
        0 <= k < tool.required().len(),
        tool.required()[k].0 == tool.spec_properties()[i].name,
    ensures
        tool.spec_properties()[i].kind == if tool.required()[k].1 == ArgumentKind::Number {
            PropertyKind::Number
        } else {
            PropertyKind::Text
        },
{
    lemma_names();
}

/// No tool lists two properties of the same name.
pub proof fn law_properties_have_different_names(tool: Tool, i: int, j: int)
    requires
        0 <= i < j < tool.spec_properties().len(),
    ensures
        tool.spec_properties()[i].name != tool.spec_properties()[j].name,
{
    lemma_names();
}

/// The listing of a tool tells its name and its description, and that its arguments are an
/// object with the properties of the tool, of which those that a call needs are required.
pub proof fn law_listings_tell_names_and_arguments(v: Json, tool: Tool)
    requires
        is_json(v, schema_model(tool)),
    ensures
        is_text(v, "name"@) == Some(tool.spec_name()),
        is_text(v, "description"@) == Some(tool.spec_description()),
        field(v, "inputSchema"@) is Some,
        ({
            let schema = field(v, "inputSchema"@)->0;
            let properties = tool.spec_properties();
            &&& is_text(schema, "type"@) == Some("object"@)
            &&& field(schema, "properties"@) is Some
            &&& has_fields(
                field(schema, "properties"@)->0,
                Seq::new(properties.len(), |i: int| properties[i].name),
            )
            &&& forall|i: int|
                0 <= i < properties.len() ==> is_json(
                    #[trigger] value_at(field(schema, "properties"@)->0, i),
                    JsonModel::Object(property_fields(properties[i])),
                )
            &&& tool.required().len() == 0 ==> schema->Object_0@.len() == 2
            &&& tool.required().len() > 0 ==> {
                &&& field(schema, "required"@) is Some
                &&& field(schema, "required"@)->0 is List
                &&& field(schema, "required"@)->0->List_0@.len() == tool.required().len()
                &&& forall|i: int|
                    0 <= i < tool.required().len() ==> {
                        let item = #[trigger] field(schema, "required"@)->0->List_0@[i];
                        item is Text && item->Text_0@ == tool.required()[i].0
                    }
            }
        }),
{
    reveal_strlit("name");
    reveal_strlit("description");
    reveal_strlit("inputSchema");
    reveal_strlit("type");
    reveal_strlit("properties");
    reveal_strlit("required");
    let names = seq!["name"@, "description"@, "inputSchema"@];
    assert(names[0][0] == 'n' && names[1][0] == 'd' && names[2][0] == 'i');
    assert(names.no_duplicates());
    let model = seq![
        ("name"@, JsonModel::Text(tool.spec_name())),
        ("description"@, JsonModel::Text(tool.spec_description())),
        ("inputSchema"@, JsonModel::Object(argument_fields(tool))),
    ];
    assert(schema_model(tool) == JsonModel::Object(model));
    assert forall|i: int| 0 <= i < 3 implies (#[trigger] v->Object_0@[i]).0@ == names[i] && is_json(
        v->Object_0@[i].1,
        model[i].1,
    ) by {
        assert(v->Object_0@[i].0@ == model[i].0);
    }
    assert(has_fields(v, names));
    law_fields_are_read_back(v, names, 0);
    law_fields_are_read_back(v, names, 1);
    law_fields_are_read_back(v, names, 2);
    let schema = value_at(v, 2);
    let inner = argument_fields(tool);
    assert(is_json(schema, model[2].1));
    assert(is_json(schema, JsonModel::Object(inner)));
    let properties = tool.spec_properties();
    let required = tool.required();
    let parts = if required.len() > 0 {
        seq!["type"@, "properties"@, "required"@]
    } else {
        seq!["type"@, "properties"@]
    };
    assert(parts[0][0] == 't' && parts[1][0] == 'p');
    if required.len() > 0 {
        assert(parts[2][0] == 'r');
    }
    assert(parts.no_duplicates());
    assert(inner.len() == parts.len());
    assert forall|i: int| 0 <= i < parts.len() implies (#[trigger] schema->Object_0@[i]).0@
        == parts[i] && is_json(schema->Object_0@[i].1, inner[i].1) by {
        assert(schema->Object_0@[i].0@ == inner[i].0);
    }
    assert(has_fields(schema, parts));
    law_fields_are_read_back(schema, parts, 0);
    law_fields_are_read_back(schema, parts, 1);
    assert(is_json(value_at(schema, 0), inner[0].1));
    assert(is_json(value_at(schema, 1), inner[1].1));
    let shown = value_at(schema, 1);
    let models = Seq::new(
        properties.len(),
        |i: int| (properties[i].name, JsonModel::Object(property_fields(properties[i]))),
    );
    assert(inner[1].1 == JsonModel::Object(models));
    let listed = Seq::new(properties.len(), |i: int| properties[i].name);
    assert forall|i: int| 0 <= i < properties.len() implies (#[trigger] shown->Object_0@[i]).0@
        == listed[i] && is_json(
        shown->Object_0@[i].1,
        JsonModel::Object(property_fields(properties[i])),
    ) by {
        assert(shown->Object_0@[i].0@ == models[i].0);
    }
    assert(has_fields(shown, listed));
    assert forall|i: int| 0 <= i < properties.len() implies is_json(
        #[trigger] value_at(shown, i),
        JsonModel::Object(property_fields(properties[i])),
    ) by {
        assert(shown->Object_0@[i].0@ == listed[i]);
    }
    if required.len() > 0 {
        law_fields_are_read_back(schema, parts, 2);
        let needed = Seq::new(required.len(), |i: int| JsonModel::Text(required[i].0));
        assert(is_json(value_at(schema, 2), inner[2].1));
        assert(inner[2].1 == JsonModel::List(needed));
        let items = value_at(schema, 2)->List_0@;
        assert forall|i: int| 0 <= i < required.len() implies (#[trigger] items[i]) is Text
            && items[i]->Text_0@ == required[i].0 by {
            assert(is_json(items[i], needed[i]));
        }
    }
}

} // verus!
