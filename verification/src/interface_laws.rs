//! What is said to and by the outside: messages, requests, replies and passwords.
use vstd::prelude::*;

use crate::binary64::Binary64;
use crate::cli::{belief_head, contradicts_text, project_note, section_note, truncated, type_note};
use crate::connection::{
    field_matches, first_password, line_password, split_up_to, verifies, SslMode,
};
use crate::documents::texts_view;
use crate::graph::{Belief, MemoryType, Probability};
use crate::hooks::{
    belief_line, belief_lines, hold_up_message, holds_up, lines_text, prompt_text, search_text,
    tool_target, without_feeds, HOLD_UP_REASON,
};
use crate::ids::id_text;
use crate::json::{field, is_flag, is_number, is_text, is_whole, Json};
use crate::replies::{
    is_evidence_list, is_evidence_value, is_pair_value, is_text_list, is_update_value,
    number_value_of, whole_value_of,
};
use crate::rpc::{called_arguments, called_tool, has_fields, is_notification, value_at};
use crate::service::EvidenceRef;
use crate::service_laws::law_texts_are_joined_in_order;
use crate::text::{decimal, first_index, is_white, trimmed, trimmed_end, trimmed_start};
use crate::text_laws::{lemma_end_trimmed, lemma_start_trimmed};

verus! {

pub proof fn lemma_trimmed_twice(s: Seq<char>)
    ensures
        trimmed(trimmed(s)) == trimmed(s),
        trimmed(s).len() == 0 <==> forall|i: int| 0 <= i < s.len() ==> is_white(#[trigger] s[i]),
{
    let a = trimmed_start(s);
    let t = trimmed_end(a);
    lemma_start_trimmed(s);
    lemma_end_trimmed(a);
    if t.len() > 0 {
        assert(t[0] == a[0]);
        assert(trimmed_start(t) == t);
        assert(trimmed_end(t) == t);
        assert(a[0] == s[s.len() - a.len()]);
    } else {
        assert forall|i: int| 0 <= i < s.len() implies is_white(#[trigger] s[i]) by {
            let n = s.len() - a.len();
            if i >= n {
                assert(s[i] == a[i - n]);
            }
        }
    }
}

/// A text is looked for exactly when it is not blank: without the white space around it,
/// and no more of it than the greatest length.
pub proof fn law_texts_that_are_not_blank_are_looked_for(s: Seq<char>, max: int)
    requires
        max > 0,
    ensures
        search_text(s, max) is None <==> forall|i: int|
            0 <= i < s.len() ==> is_white(#[trigger] s[i]),
        search_text(s, max) is Some ==> {
            let t = search_text(s, max)->0;
            &&& 0 < t.len() <= max
            &&& trimmed(s).len() <= max ==> t == trimmed(s)
            &&& trimmed(s).len() > max ==> t.len() == max && t.take(max - 1) == trimmed(s).take(
                max - 1,
            )
        },
{
    lemma_trimmed_twice(s);
    if trimmed(s).len() > max {
        assert(truncated(trimmed(s), max).take(max - 1) =~= trimmed(s).take(max - 1));
    }
}

/// A prompt is what the event gives as such. A tool is used on the file that its input
/// names, or else on the path, or else on the command.
pub proof fn law_events_say_what_to_look_for(event: Json, s: Seq<char>, input: Json)
    ensures
        is_text(event, "prompt"@) == Some(s) ==> prompt_text(event) == s,
        is_text(event, "prompt"@) is None ==> prompt_text(event).len() == 0,
        field(event, "tool_input"@) is None ==> tool_target(event).len() == 0,
        field(event, "tool_input"@) == Some(input) ==> {
            &&& is_text(input, "file_path"@) == Some(s) ==> tool_target(event) == s
            &&& is_text(input, "file_path"@) is None ==> {
                &&& is_text(input, "path"@) == Some(s) ==> tool_target(event) == s
                &&& is_text(input, "path"@) is None ==> {
                    &&& is_text(input, "command"@) == Some(s) ==> tool_target(event) == s
                    &&& is_text(input, "command"@) is None ==> tool_target(event).len() == 0
                }
            }
        },
{
    reveal_strlit("");
}

/// A turn is held up exactly when working memory is left and the event does not say that
/// it was held up before.
pub proof fn law_turns_are_held_up_while_working_memory_is_left(event: Json, working: nat)
    ensures
        working == 0 ==> !holds_up(event, working),
        working > 0 ==> (holds_up(event, working) <==> is_flag(event, "stop_hook_active"@)
            != Some(true)),
{
}

/// Every belief has its line, in the order of the beliefs: its identifier and its
/// content, which is shortened where it is long.
pub proof fn law_every_belief_has_its_line(a: Seq<Belief>, b: Seq<Belief>, belief: Belief)
    ensures
        belief_lines(a + b) == belief_lines(a) + belief_lines(b),
        belief_lines(seq![belief]) == belief_line(belief) + "\n"@,
        trimmed(belief.content@).len() <= 160 ==> belief_line(belief) == "  "@ + id_text(belief.id)
            + "  "@ + trimmed(belief.content@),
        trimmed(belief.content@).len() > 160 ==> belief_line(belief).len() == "  "@.len() + id_text(
            belief.id,
        ).len() + "  "@.len() + 160,
        belief_line(belief).take(("  "@.len() + id_text(belief.id).len()) as int) == "  "@
            + id_text(belief.id),
    decreases b.len(),
{
    let one = seq![belief];
    assert(one.drop_last() =~= Seq::<Belief>::empty());
    reveal_with_fuel(belief_lines, 2);
    assert(belief_lines(one) =~= belief_line(belief) + "\n"@);
    assert(belief_line(belief).take(("  "@.len() + id_text(belief.id).len()) as int) =~= "  "@
        + id_text(belief.id));
    if b.len() == 0 {
        assert(a + b =~= a);
        assert(belief_lines(a) + belief_lines(b) =~= belief_lines(a));
    } else {
        law_every_belief_has_its_line(a, b.drop_last(), belief);
        assert((a + b).drop_last() =~= a + b.drop_last());
        assert(belief_lines(a + b) =~= belief_lines(a) + belief_lines(b));
    }
}

/// The message that holds a turn up tells the number of beliefs and shows the line of
/// each; only white space is missing at its end.
pub proof fn law_the_message_shows_every_belief(working: Seq<Belief>)
    ensures
        ({
            let whole = "POLICY REQUIREMENT: "@ + decimal(working.len()) + HOLD_UP_REASON@
                + belief_lines(working);
            let n = hold_up_message(working).len() as int;
            &&& n <= whole.len()
            &&& hold_up_message(working) == whole.take(n)
            &&& forall|i: int| n <= i < whole.len() ==> is_white(#[trigger] whole[i])
        }),
{
    lemma_end_trimmed(
        "POLICY REQUIREMENT: "@ + decimal(working.len()) + HOLD_UP_REASON@ + belief_lines(working),
    );
}

/// Lines stand in their order, each with its line feed; of a text that is shown only line
/// feeds at its end are missing.
pub proof fn law_lines_stand_in_their_order(a: Seq<Seq<char>>, b: Seq<Seq<char>>, s: Seq<char>)
    ensures
        lines_text(a + b) == lines_text(a) + lines_text(b),
        lines_text(seq![s]) == s + "\n"@,
        without_feeds(s).len() <= s.len(),
        without_feeds(s) == s.take(without_feeds(s).len() as int),
        forall|i: int| without_feeds(s).len() <= i < s.len() ==> #[trigger] s[i] == '\n',
        without_feeds(s).len() > 0 ==> without_feeds(s).last() != '\n',
    decreases b.len(),
{
    lemma_feeds(s);
    let one = seq![s];
    assert(one.drop_last() =~= Seq::<Seq<char>>::empty());
    reveal_with_fuel(lines_text, 2);
    assert(lines_text(one) =~= s + "\n"@);
    if b.len() == 0 {
        assert(a + b =~= a);
        assert(lines_text(a) + lines_text(b) =~= lines_text(a));
    } else {
        law_lines_stand_in_their_order(a, b.drop_last(), s);
        assert((a + b).drop_last() =~= a + b.drop_last());
        assert(lines_text(a + b) =~= lines_text(a) + lines_text(b));
    }
}

proof fn lemma_feeds(s: Seq<char>)
    ensures
        without_feeds(s).len() <= s.len(),
        without_feeds(s) == s.take(without_feeds(s).len() as int),
        forall|i: int| without_feeds(s).len() <= i < s.len() ==> #[trigger] s[i] == '\n',
        without_feeds(s).len() > 0 ==> without_feeds(s).last() != '\n',
    decreases s.len(),
{
    if s.len() > 0 && s.last() == '\n' {
        let d = s.drop_last();
        lemma_feeds(d);
        let n = without_feeds(s).len() as int;
        assert(d.take(n) =~= s.take(n));
        assert forall|i: int| n <= i < s.len() implies #[trigger] s[i] == '\n' by {
            if i < d.len() {
                assert(s[i] == d[i]);
            }
        }
    } else {
        assert(s.take(s.len() as int) =~= s);
    }
}

/// An even number of contradicting edges is shown with half as many pairs, an odd one with
/// a warning.
pub proof fn law_contradictions_are_counted_in_pairs(n: nat)
    ensures
        contradicts_text(2 * n) == decimal(2 * n) + " ("@ + decimal(n) + " pairs)"@,
        contradicts_text(2 * n + 1) == decimal(2 * n + 1)
            + " (odd \u{2014} graph may be inconsistent)"@,
{
    assert((2 * n) % 2 == 0 && (2 * n) / 2 == n && (2 * n + 1) % 2 == 1);
}

/// What is noted behind a belief: its type unless it is a fact, its project if it has one,
/// and the sections that a passage lies in if there are any.
pub proof fn law_notes_tell_what_there_is(
    t: MemoryType,
    project: Seq<char>,
    path: Seq<Seq<char>>,
    heading: Seq<char>,
    lead: Seq<char>,
)
    ensures
        type_note(MemoryType::Fact).len() == 0,
        t != MemoryType::Fact ==> type_note(t) == "  <"@ + t.name() + ">"@,
        project_note(None).len() == 0,
        project_note(Some(project)) == "  ["@ + project + "]"@,
        section_note(Seq::empty(), lead).len() == 0,
        section_note(seq![heading], lead) == lead + heading,
        path.len() > 0 ==> section_note(path + seq![heading], lead) == section_note(path, lead)
            + " > "@ + heading,
{
    reveal_strlit("");
    let last = seq![heading];
    law_texts_are_joined_in_order(last, last, heading, " > "@);
    if path.len() > 0 {
        law_texts_are_joined_in_order(path, last, heading, " > "@);
        assert(section_note(path + last, lead) =~= section_note(path, lead) + " > "@ + heading);
    }
}

/// The line of a belief begins with its identifier, and its numbers follow.
pub proof fn law_lines_begin_with_the_identifier(id: u128, p: Seq<char>, c: Seq<char>)
    ensures
        belief_head(id, p, c) == id_text(id) + ("  p="@ + p + "  c="@ + c + "  "@),
{
    assert(belief_head(id, p, c) =~= id_text(id) + ("  p="@ + p + "  c="@ + c + "  "@));
}

/// A request calls the tool that its parameters name, with the arguments that they hold.
/// It is a notification exactly when it has no identifier, whatever that is.
pub proof fn law_requests_name_their_tools(
    request: Json,
    params: Json,
    name: Seq<char>,
    x: Json,
)
    ensures
        field(request, "params"@) == Some(params) ==> {
            &&& is_text(params, "name"@) == Some(name) ==> called_tool(request) == name
            &&& is_text(params, "name"@) is None ==> called_tool(request).len() == 0
            &&& called_arguments(request) == Some(x) <==> field(params, "arguments"@) == Some(x)
        },
        field(request, "params"@) is None ==> called_tool(request).len() == 0 && called_arguments(
            request,
        ) is None,
        field(request, "id"@) == Some(x) ==> !is_notification(request),
        !is_notification(request) ==> field(request, "id"@) is Some,
{
}

/// A field of a reply is read back by its name.
pub proof fn law_fields_are_read_back(v: Json, names: Seq<Seq<char>>, i: int)
    requires
        has_fields(v, names),
        names.no_duplicates(),
        0 <= i < names.len(),
    ensures
        field(v, names[i]) == Some(value_at(v, i)),
{
    let fields = v->Object_0@;
    assert(fields[i].0@ == names[i]);
    assert forall|k: int| 0 <= k < i implies (#[trigger] fields[k]).0@ != names[i] by {
        assert(fields[k].0@ == names[k]);
    }
    crate::tool_laws::law_the_first_field_of_a_name_counts(v, names[i], value_at(v, i));
}

/// An update is read back from its reply: its identifier, and its probability under the
/// name that it was given.
pub proof fn law_updates_are_read_back(v: Json, id: u128, p: Probability, name: Seq<char>)
    requires
        is_update_value(v, (id, p), name),
        name != "id"@,
    ensures
        is_text(v, "id"@) == Some(id_text(id)),
        is_number(v, name) == Some(Binary64 { bits: p.key() }),
{
    let names = seq!["id"@, name];
    law_fields_are_read_back(v, names, 0);
    law_fields_are_read_back(v, names, 1);
}

/// A passage is read back from its reply: every one of its fields, by its name.
pub proof fn law_passages_are_read_back(v: Json, e: EvidenceRef)
    requires
        is_evidence_value(v, e),
    ensures
        is_text(v, "chunk_id"@) == Some(id_text(e.chunk_id)),
        is_text(v, "document_path"@) == Some(e.document_path@),
        is_text(v, "snippet"@) == Some(e.snippet@),
        is_number(v, "weight"@) == Some(e.weight),
        field(v, "section_path"@) is Some,
        field(v, "section_path"@)->0 is List,
        ({
            let items = field(v, "section_path"@)->0->List_0@;
            items.len() == e.section_path@.len() && forall|i: int|
                0 <= i < items.len() ==> (#[trigger] items[i]) is Text && items[i]->Text_0@
                    == e.section_path@[i]@
        }),
{
    reveal_strlit("chunk_id");
    reveal_strlit("document_path");
    reveal_strlit("section_path");
    reveal_strlit("snippet");
    reveal_strlit("weight");
    let names = seq!["chunk_id"@, "document_path"@, "section_path"@, "snippet"@, "weight"@];
    assert(names[0][0] == 'c' && names[1][0] == 'd' && names[2][0] == 's' && names[3][0] == 's'
        && names[4][0] == 'w');
    assert(names[2][1] == 'e' && names[3][1] == 'n');
    assert(names.no_duplicates());
    law_fields_are_read_back(v, names, 0);
    law_fields_are_read_back(v, names, 1);
    law_fields_are_read_back(v, names, 2);
    law_fields_are_read_back(v, names, 3);
    law_fields_are_read_back(v, names, 4);
    let items = value_at(v, 2)->List_0@;
    assert(is_text_list(value_at(v, 2), texts_view(e.section_path@)));
    assert forall|i: int| 0 <= i < items.len() implies (#[trigger] items[i]) is Text
        && items[i]->Text_0@ == e.section_path@[i]@ by {
        assert(texts_view(e.section_path@)[i] == e.section_path@[i]@);
    }
}

/// A list of passages has one item for each of them, in their order.
pub proof fn law_every_passage_is_told(v: Json, refs: Seq<EvidenceRef>, i: int)
    requires
        is_evidence_list(v, refs),
        0 <= i < refs.len(),
    ensures
        v is List,
        v->List_0@.len() == refs.len(),
        is_text(v->List_0@[i], "chunk_id"@) == Some(id_text(refs[i].chunk_id)),
        is_text(v->List_0@[i], "document_path"@) == Some(refs[i].document_path@),
        is_text(v->List_0@[i], "snippet"@) == Some(refs[i].snippet@),
        is_number(v->List_0@[i], "weight"@) == Some(refs[i].weight),
{
    law_passages_are_read_back(v->List_0@[i], refs[i]);
}

/// Numbers are told as they are: whole ones as whole numbers, others by their bit patterns.
pub proof fn law_numbers_are_told_as_they_are(v: Json, name: Seq<char>, n: u64, x: Binary64)
    ensures
        field(v, name) == Some(whole_value_of(n)) ==> is_whole(v, name) == Some(n) && is_number(
            v,
            name,
        ) is None,
        field(v, name) == Some(number_value_of(x)) ==> is_number(v, name) == Some(x) && is_whole(
            v,
            name,
        ) is None,
{
}

/// A pair is told by its identifiers, the first one first.
pub proof fn law_pairs_are_told_in_order(v: Json, pair: (u128, u128))
    ensures
        is_pair_value(v, pair) <==> {
            &&& v is List
            &&& v->List_0@.len() == 2
            &&& v->List_0@[0] is Text && v->List_0@[0]->Text_0@ == id_text(pair.0)
            &&& v->List_0@[1] is Text && v->List_0@[1]->Text_0@ == id_text(pair.1)
        },
{
}

proof fn lemma_separator_index(a: Seq<char>, c: char, b: Seq<char>)
    requires
        !a.contains(c),
    ensures
        first_index(a, c) == a.len(),
        first_index(a + seq![c] + b, c) == a.len(),
    decreases a.len(),
{
    let s = a + seq![c] + b;
    if a.len() > 0 {
        assert(a.contains(a[0]));
        assert(s[0] == a[0]);
        let t = a.drop_first();
        assert(!t.contains(c)) by {
            if t.contains(c) {
                let i = choose|i: int| 0 <= i < t.len() && t[i] == c;
                assert(a[i + 1] == c);
            }
        }
        lemma_separator_index(t, c, b);
        assert(s.drop_first() =~= t + seq![c] + b);
    } else {
        assert(s[0] == c);
    }
}

/// A text is split at its first separators: what stands before one of them is a part, and
/// what follows is split in turn. The last part that is asked for is not split, nor is a
/// text without separator.
pub proof fn law_texts_are_split_at_separators(a: Seq<char>, c: char, b: Seq<char>, n: nat)
    requires
        !a.contains(c),
    ensures
        split_up_to(a + seq![c] + b, c, n + 2) == seq![a] + split_up_to(b, c, n + 1),
        split_up_to(b, c, 1) == seq![b],
        split_up_to(a, c, n) == seq![a],
{
    let s = a + seq![c] + b;
    lemma_separator_index(a, c, b);
    assert(s.take(a.len() as int) =~= a);
    assert(s.skip((a.len() + 1) as int) =~= b);
}

/// A line of a password file of the form `host:port:database:user:password` is for a
/// connection exactly when each of its first four fields is an asterisk or the value
/// itself. The password is all that follows the fourth colon.
pub proof fn law_a_line_gives_its_password(
    fields: (Seq<char>, Seq<char>, Seq<char>, Seq<char>),
    password: Seq<char>,
    host: Seq<char>,
    port: u16,
    dbname: Seq<char>,
    user: Seq<char>,
)
    requires
        !fields.0.contains(':') && !fields.1.contains(':') && !fields.2.contains(':')
            && !fields.3.contains(':'),
        fields.0.len() > 0 && fields.0[0] != '#' && !is_white(fields.0[0]),
        password.len() > 0 && !is_white(password.last()),
    ensures
        ({
            let colon = seq![':'];
            let line = fields.0 + colon + (fields.1 + colon + (fields.2 + colon + (fields.3 + colon
                + password)));
            let matches_all = (fields.0 == seq!['*'] || fields.0 == host) && (fields.1 == seq!['*']
                || fields.1 == decimal(port as nat)) && (fields.2 == seq!['*'] || fields.2
                == dbname) && (fields.3 == seq!['*'] || fields.3 == user);
            line_password(line, host, port, dbname, user) == if matches_all {
                Some(password)
            } else {
                None
            }
        }),
{
    let colon = seq![':'];
    let rest3 = fields.3 + colon + password;
    let rest2 = fields.2 + colon + rest3;
    let rest1 = fields.1 + colon + rest2;
    let line = fields.0 + colon + rest1;
    law_texts_are_split_at_separators(fields.0, ':', rest1, 3);
    law_texts_are_split_at_separators(fields.1, ':', rest2, 2);
    law_texts_are_split_at_separators(fields.2, ':', rest3, 1);
    law_texts_are_split_at_separators(fields.3, ':', password, 0);
    let parts = split_up_to(line, ':', 5);
    assert(parts =~= seq![fields.0, fields.1, fields.2, fields.3, password]);
    assert(line[0] == fields.0[0]);
    assert(line.last() == password.last());
    assert(trimmed_start(line) == line);
    assert(trimmed(line) == line);
}

/// A line that is blank or begins with a number sign, or that has fewer than four colons,
/// gives no password.
pub proof fn law_other_lines_give_no_password(
    line: Seq<char>,
    host: Seq<char>,
    port: u16,
    dbname: Seq<char>,
    user: Seq<char>,
)
    ensures
        trimmed(line).len() == 0 ==> line_password(line, host, port, dbname, user) is None,
        trimmed(line).len() > 0 && trimmed(line)[0] == '#' ==> line_password(
            line,
            host,
            port,
            dbname,
            user,
        ) is None,
        split_up_to(trimmed(line), ':', 5).len() < 5 ==> line_password(
            line,
            host,
            port,
            dbname,
            user,
        ) is None,
        field_matches(line, host) <==> line == seq!['*'] || line == host,
{
}

/// The password that is found is that of the first line that gives one, and none is found
/// only where no line gives one.
pub proof fn law_the_first_line_gives_the_password(
    ls: Seq<Seq<char>>,
    host: Seq<char>,
    port: u16,
    dbname: Seq<char>,
    user: Seq<char>,
)
    ensures
        first_password(ls, host, port, dbname, user) is None <==> forall|i: int|
            0 <= i < ls.len() ==> line_password(#[trigger] ls[i], host, port, dbname, user) is None,
        forall|i: int|
            {
                &&& 0 <= i < ls.len()
                &&& line_password(#[trigger] ls[i], host, port, dbname, user) is Some
                &&& forall|k: int|
                    0 <= k < i ==> line_password(
                        #[trigger] ls[k],
                        host,
                        port,
                        dbname,
                        user,
                    ) is None
            } ==> first_password(ls, host, port, dbname, user) == line_password(
                ls[i],
                host,
                port,
                dbname,
                user,
            ),
    decreases ls.len(),
{
    if ls.len() > 0 {
        let rest = ls.drop_first();
        law_the_first_line_gives_the_password(rest, host, port, dbname, user);
        if line_password(ls[0], host, port, dbname, user) is None {
            if first_password(ls, host, port, dbname, user) is None {
                assert forall|i: int| 0 <= i < ls.len() implies line_password(
                    #[trigger] ls[i],
                    host,
                    port,
                    dbname,
                    user,
                ) is None by {
                    if i > 0 {
                        assert(ls[i] == rest[i - 1]);
                    }
                }
            } else {
                let i = choose|i: int|
                    0 <= i < rest.len() && line_password(
                        #[trigger] rest[i],
                        host,
                        port,
                        dbname,
                        user,
                    ) is Some;
                assert(rest[i] == ls[i + 1]);
            }
        }
        assert forall|i: int|
            {
                &&& 0 <= i < ls.len()
                &&& line_password(#[trigger] ls[i], host, port, dbname, user) is Some
                &&& forall|k: int|
                    0 <= k < i ==> line_password(
                        #[trigger] ls[k],
                        host,
                        port,
                        dbname,
                        user,
                    ) is None
            } implies first_password(ls, host, port, dbname, user) == line_password(
            ls[i],
            host,
            port,
            dbname,
            user,
        ) by {
            if i > 0 {
                assert(line_password(ls[0], host, port, dbname, user) is None);
                assert(rest[i - 1] == ls[i]);
                assert forall|k: int| 0 <= k < i - 1 implies line_password(
                    #[trigger] rest[k],
                    host,
                    port,
                    dbname,
                    user,
                ) is None by {
                    assert(rest[k] == ls[k + 1]);
                }
            }
        }
    }
}

/// Certificates are verified in the two verifying modes and in no other.
pub proof fn law_two_modes_verify(mode: SslMode)
    ensures
        verifies(mode) <==> mode != SslMode::Disable && mode != SslMode::Prefer && mode
            != SslMode::Require,
{
}

} // verus!
