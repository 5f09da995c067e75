//! Hooks: what an event of a session asks for, and what it is answered.
use vstd::prelude::*;
use vstd::slice::slice_subrange;
use vstd::string::*;

use crate::cli::{trunc, truncated};
use crate::documents::texts_view;
use crate::graph::Belief;
use crate::ids::{id_text, write_id};
use crate::json::{field, find_field, flag_field, is_flag, is_text, text_field, Json};
use crate::text::{chars_of, decimal, text_of, trim_text, trimmed, trimmed_end, write_decimal};

verus! {

/// Number of beliefs that are shown with a prompt.
pub const PROMPT_LIMIT: usize = 5;

/// Number of beliefs that are shown before a tool is used.
pub const TOOL_LIMIT: usize = 3;

/// A text that is looked for: shortened to `max`; none where it is blank.
pub open spec fn search_text(s: Seq<char>, max: int) -> Option<Seq<char>> {
    if trimmed(s).len() == 0 {
        None
    } else {
        Some(truncated(trimmed(s), max))
    }
}

/// What the prompt of an event says; nothing where there is none.
pub open spec fn prompt_text(event: Json) -> Seq<char> {
    match is_text(event, "prompt"@) {
        Some(s) => s,
        None => ""@,
    }
}

/// What a tool is about to be used on: a file, or else a path, or else a command.
pub open spec fn tool_target(event: Json) -> Seq<char> {
    match field(event, "tool_input"@) {
        Some(input) => match is_text(input, "file_path"@) {
            Some(s) => s,
            None => match is_text(input, "path"@) {
                Some(s) => s,
                None => match is_text(input, "command"@) {
                    Some(s) => s,
                    None => ""@,
                },
            },
        },
        None => ""@,
    }
}

fn shorten(s: &str, max: usize) -> (r: Option<String>)
    requires
        max > 0,
    ensures
        (match r {
            Some(t) => Some(t@),
            None => None,
        }) == search_text(s@, max as int),
{
    let t = trim_text(s);
    if t.as_str().is_empty() {
        None
    } else {
        Some(trunc(t.as_str(), max))
    }
}

/// What to look for when a prompt is submitted.
pub fn prompt_query(event: &Json) -> (r: Option<String>)
    ensures
        (match r {
            Some(t) => Some(t@),
            None => None,
        }) == search_text(prompt_text(*event), 500),
{
    match text_field(event, "prompt") {
        Some(s) => shorten(s, 500),
        None => shorten("", 500),
    }
}

/// What to look for before a tool is used.
pub fn tool_query(event: &Json) -> (r: Option<String>)
    ensures
        (match r {
            Some(t) => Some(t@),
            None => None,
        }) == search_text(tool_target(*event), 200),
{
    match find_field(event, "tool_input") {
        Some(input) => match text_field(input, "file_path") {
            Some(s) => shorten(s, 200),
            None => match text_field(input, "path") {
                Some(s) => shorten(s, 200),
                None => match text_field(input, "command") {
                    Some(s) => shorten(s, 200),
                    None => shorten("", 200),
                },
            },
        },
        None => shorten("", 200),
    }
}

/// The session that an event belongs to, if it says so.
pub fn session_of(event: &Json) -> (r: Option<String>)
    ensures
        (match r {
            Some(t) => Some(t@),
            None => None,
        }) == is_text(*event, "session_id"@),
{
    match text_field(event, "session_id") {
        Some(s) => Some(s.to_owned()),
        None => None,
    }
}

/// The project that a session declared: what its file holds, unless it is blank.
pub fn declared_project(content: &str) -> (r: Option<String>)
    ensures
        match r {
            Some(p) => p@ == trimmed(content@) && p@.len() > 0,
            None => trimmed(content@).len() == 0,
        },
{
    let p = trim_text(content);
    if p.as_str().is_empty() {
        None
    } else {
        Some(p)
    }
}

/// A turn may not end while working memory is left, except when it was already
/// held up once.
pub open spec fn holds_up(event: Json, working: nat) -> bool {
    is_flag(event, "stop_hook_active"@) != Some(true) && working > 0
}

/// Whether the end of a turn is to be examined: not when it was already held up
/// once.
pub fn examines_stop(event: &Json) -> (r: bool)
    ensures
        r == (is_flag(*event, "stop_hook_active"@) != Some(true)),
{
    match flag_field(event, "stop_hook_active") {
        Some(active) => !active,
        None => true,
    }
}

/// The line of a belief in a message.
pub open spec fn belief_line(b: Belief) -> Seq<char> {
    "  "@ + id_text(b.id) + "  "@ + truncated(b.content@, 160)
}

/// The lines of some beliefs, each with a line feed.
pub open spec fn belief_lines(beliefs: Seq<Belief>) -> Seq<char>
    decreases beliefs.len(),
{
    if beliefs.len() == 0 {
        Seq::empty()
    } else {
        belief_lines(beliefs.drop_last()) + belief_line(beliefs.last()) + "\n"@
    }
}

/// The line of a belief in a message.
pub fn write_belief_line(b: &Belief) -> (r: String)
    ensures
        r@ == belief_line(*b),
{
    let id = write_id(b.id);
    let content = trunc(b.content.as_str(), 160);
    let mut r: String = "  ".to_owned();
    r.append(id.as_str());
    r.append("  ");
    r.append(content.as_str());
    r
}

/// What follows the number of beliefs in the message that holds a turn up.
pub const HOLD_UP_REASON: &'static str = " working-memory belief(s) are still unconsolidated. Every belief this session should have been written as memory_type=working; consolidation (promote to fact/experiential via insert_belief, or discard via delete_belief) must happen before the turn ends \u{2014} not skipped, not deferred. Resolve each one below, then finish:\n";

/// The message that holds a turn up.
pub open spec fn hold_up_message(working: Seq<Belief>) -> Seq<char> {
    trimmed_end(
        "POLICY REQUIREMENT: "@ + decimal(working.len()) + HOLD_UP_REASON@ + belief_lines(working),
    )
}

/// Whether the end of a turn is held up, and with which message.
pub fn stop_message(event: &Json, working: &Vec<Belief>) -> (r: Option<String>)
    ensures
        match r {
            Some(m) => holds_up(*event, working@.len()) && m@ == hold_up_message(working@),
            None => !holds_up(*event, working@.len()),
        },
{
    if !examines_stop(event) || working.len() == 0 {
        return None;
    }
    let n: usize = working.len();
    let count = write_decimal(n as u64);
    let mut head: String = "POLICY REQUIREMENT: ".to_owned();
    head.append(count.as_str());
    head.append(HOLD_UP_REASON);
    let mut lines: String = String::new();
    let mut i: usize = 0;
    assert(working@.take(0) =~= Seq::empty());
    while i < n
        invariant
            i <= n,
            n == working@.len(),
            lines@ == belief_lines(working@.take(i as int)),
        decreases n - i,
    {
        assert(working@.take(i + 1).drop_last() =~= working@.take(i as int));
        let line = write_belief_line(&working[i]);
        lines.append(line.as_str());
        lines.append("\n");
        i = i + 1;
    }
    assert(working@.take(n as int) =~= working@);
    head.append(lines.as_str());
    Some(trim_end_text(head.as_str()))
}

/// A text without white space at its end.
fn trim_end_text(s: &str) -> (r: String)
    ensures
        r@ == trimmed_end(s@),
{
    let cs = chars_of(s);
    let mut j: usize = cs.len();
    assert(cs@.take(j as int) =~= cs@);
    while j > 0 && crate::text::is_white_space(cs[j - 1])
        invariant
            j <= cs@.len(),
            cs@ == s@,
            trimmed_end(s@) == trimmed_end(cs@.take(j as int)),
        decreases j,
    {
        assert(cs@.take(j as int).drop_last() =~= cs@.take(j - 1));
        assert(cs@.take(j as int).last() == cs@[j - 1]);
        j = j - 1;
    }
    let head = slice_subrange(cs.as_slice(), 0, j);
    assert(head@ =~= cs@.take(j as int));
    text_of(head)
}

/// What is said of working memory that another session left behind.
pub const LEFT_BEHIND_1: &'static str = " pre-existing memory_type=working belief(s) found for project '";

pub const LEFT_BEHIND_2: &'static str = "' \u{2014} these were left by a prior session (most likely one that never reached a graceful end-of-turn, e.g. Ctrl-C or a crash) and were never consolidated. Consider triaging them now (promote via insert_belief as fact/experiential + delete_belief on the original, or discard via delete_belief) rather than leaving them for a background sweep:";

/// What is said when a session declares a project in which working memory was
/// left behind; nothing where none was.
pub fn left_behind_note(project: &str, working: usize) -> (r: Option<String>)
    ensures
        match r {
            Some(m) => working > 0 && m@ == "NOTE: "@ + decimal(working as nat) + LEFT_BEHIND_1@
                + project@ + LEFT_BEHIND_2@,
            None => working == 0,
        },
{
    if working == 0 {
        return None;
    }
    let count = write_decimal(working as u64);
    let mut r: String = "NOTE: ".to_owned();
    r.append(count.as_str());
    r.append(LEFT_BEHIND_1);
    r.append(project);
    r.append(LEFT_BEHIND_2);
    Some(r)
}

/// A turn that was held up once is not held up again.
pub proof fn law_a_turn_is_held_up_once(event: Json, working: nat)
    requires
        is_flag(event, "stop_hook_active"@) == Some(true),
    ensures
        !holds_up(event, working),
{
}

/// What the beliefs shown before a tool is used begin with.
pub const TOOL_CONTEXT_HEAD: &'static str = "Prior knowledge relevant to this action \u{2014} apply directly:\n";

/// What the beliefs shown with a prompt begin with.
pub const PROMPT_CONTEXT_HEAD: &'static str = "[Prior knowledge from past sessions \u{2014} apply directly, do not rediscover empirically:]";

/// Lines one after the other, each with a line feed.
pub open spec fn lines_text(ls: Seq<Seq<char>>) -> Seq<char>
    decreases ls.len(),
{
    if ls.len() == 0 {
        Seq::empty()
    } else {
        lines_text(ls.drop_last()) + ls.last() + "\n"@
    }
}

/// The text without line feeds at its end.
pub open spec fn without_feeds(s: Seq<char>) -> Seq<char>
    decreases s.len(),
{
    if s.len() > 0 && s.last() == '\n' {
        without_feeds(s.drop_last())
    } else {
        s
    }
}

/// The lines of the beliefs that are shown before a tool is used, under their
/// heading.
pub fn tool_context(belief_lines: &Vec<String>) -> (r: String)
    ensures
        r@ == without_feeds(TOOL_CONTEXT_HEAD@ + lines_text(texts_view(belief_lines@))),
{
    let n: usize = belief_lines.len();
    let mut body: String = String::new();
    let mut i: usize = 0;
    let ghost model = texts_view(belief_lines@);
    assert(model.take(0) =~= Seq::empty());
    while i < n
        invariant
            i <= n,
            n == belief_lines@.len(),
            model == texts_view(belief_lines@),
            body@ == lines_text(model.take(i as int)),
        decreases n - i,
    {
        assert(model.take(i + 1).drop_last() =~= model.take(i as int));
        body.append(belief_lines[i].as_str());
        body.append("\n");
        i = i + 1;
    }
    assert(model.take(n as int) =~= model);
    let mut all: String = TOOL_CONTEXT_HEAD.to_owned();
    all.append(body.as_str());
    let cs = chars_of(all.as_str());
    let mut j: usize = cs.len();
    assert(cs@.take(j as int) =~= cs@);
    while j > 0 && cs[j - 1] == '\n'
        invariant
            j <= cs@.len(),
            cs@ == all@,
            without_feeds(all@) == without_feeds(cs@.take(j as int)),
        decreases j,
    {
        assert(cs@.take(j as int).drop_last() =~= cs@.take(j - 1));
        assert(cs@.take(j as int).last() == cs@[j - 1]);
        j = j - 1;
    }
    let head = slice_subrange(cs.as_slice(), 0, j);
    assert(head@ =~= cs@.take(j as int));
    text_of(head)
}

} // verus!
