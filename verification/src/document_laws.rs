//! What a document is split into.
use vstd::prelude::*;

use crate::documents::{
    heading_depth, heading_text, headings, is_heading, joined, markdown_chunks, nearest_shallower,
    optional_str, parent_section, section_chunk, section_chunks, section_content, section_count,
    section_depth, section_path, ChunkModel,
};
use crate::sequences::{lemma_one_more_position, positions};
use crate::text::{lines, trimmed, trimmed_start};

verus! {

/// A number of `#` signs.
pub open spec fn signs(n: nat) -> Seq<char> {
    Seq::new(n, |i: int| '#')
}

proof fn lemma_signs_counted(n: nat, rest: Seq<char>)
    requires
        rest.len() > 0 ==> rest[0] != '#',
    ensures
        heading_depth(signs(n) + rest) == n,
    decreases n,
{
    let line = signs(n) + rest;
    if n == 0 {
        assert(line =~= rest);
    } else {
        assert(line[0] == '#');
        assert(line.drop_first() =~= signs((n - 1) as nat) + rest);
        lemma_signs_counted((n - 1) as nat, rest);
    }
}

proof fn lemma_depth_is_signs(line: Seq<char>)
    ensures
        0 <= heading_depth(line) <= line.len(),
        line.take(heading_depth(line)) == signs(heading_depth(line) as nat),
    decreases line.len(),
{
    let d = heading_depth(line);
    if line.len() > 0 && line[0] == '#' {
        let rest = line.drop_first();
        lemma_depth_is_signs(rest);
        assert forall|i: int| 0 <= i < d implies #[trigger] line[i] == '#' by {
            if i > 0 {
                assert(line[i] == rest[i - 1]);
                assert(rest.take(d - 1)[i - 1] == signs((d - 1) as nat)[i - 1]);
            }
        }
    }
    assert(line.take(d) =~= signs(d as nat));
}

/// A line is a heading exactly when it is one or more `#` signs, alone or followed by a
/// space and any text. Its depth is the number of signs, however many, and what it says
/// is the text without white space at its ends.
pub proof fn law_headings_begin_with_signs(n: nat, t: Seq<char>)
    requires
        n > 0,
    ensures
        is_heading(signs(n)),
        heading_depth(signs(n)) == n,
        heading_text(signs(n)) == Seq::<char>::empty(),
        is_heading(signs(n) + seq![' '] + t),
        heading_depth(signs(n) + seq![' '] + t) == n,
        heading_text(signs(n) + seq![' '] + t) == trimmed(t),
{
    lemma_signs_counted(n, Seq::empty());
    assert(signs(n) + Seq::empty() =~= signs(n));
    let rest = seq![' '] + t;
    lemma_signs_counted(n, rest);
    let line = signs(n) + seq![' '] + t;
    assert(line =~= signs(n) + rest);
    assert(line[n as int] == ' ');
    assert(line.skip(n as int) =~= rest);
    assert(rest.drop_first() =~= t);
    assert(trimmed_start(rest) == trimmed_start(t));
    assert(signs(n).skip(n as int) =~= Seq::empty());
}

/// No other line is a heading.
pub proof fn law_other_lines_are_no_headings(line: Seq<char>)
    requires
        is_heading(line),
    ensures
        ({
            let n = heading_depth(line);
            &&& n > 0
            &&& line == signs(n as nat) || line == signs(n as nat) + seq![' '] + line.skip(n + 1)
        }),
{
    let n = heading_depth(line);
    lemma_depth_is_signs(line);
    if n < line.len() {
        assert(line =~= line.take(n) + seq![' '] + line.skip(n + 1));
    } else {
        assert(line.take(n) =~= line);
    }
}

/// A section begins at every heading, in the order of the lines.
pub proof fn law_every_heading_begins_a_section(ls: Seq<Seq<char>>, n: nat)
    requires
        n <= ls.len(),
    ensures
        headings(ls, n as int) == positions(n).filter(|i: int| is_heading(ls[i])),
    decreases n,
{
    let p = |i: int| is_heading(ls[i]);
    if n == 0 {
        reveal(Seq::filter);
        assert(positions(0).filter(p) =~= Seq::empty());
    } else {
        law_every_heading_begins_a_section(ls, (n - 1) as nat);
        lemma_one_more_position((n - 1) as nat, p);
    }
}

/// A section lies in the last section before it whose heading has fewer signs, and in
/// none where there is no such.
pub proof fn law_a_section_lies_in_the_nearest_shallower_one(
    ls: Seq<Seq<char>>,
    heads: Seq<int>,
    k: int,
)
    requires
        k > 0,
    ensures
        ({
            let parent = parent_section(ls, heads, k);
            &&& 0 <= parent < k
            &&& parent > 0 ==> section_depth(ls, heads, parent) < section_depth(ls, heads, k)
            &&& forall|j: int|
                parent < j < k ==> #[trigger] section_depth(ls, heads, j) >= section_depth(
                    ls,
                    heads,
                    k,
                )
        }),
        section_depth(ls, heads, k) == heading_depth(ls[heads[k - 1]]),
{
    lemma_nearest(ls, heads, k - 1, section_depth(ls, heads, k));
}

proof fn lemma_nearest(ls: Seq<Seq<char>>, heads: Seq<int>, j: int, depth: int)
    requires
        j >= 0,
    ensures
        ({
            let found = nearest_shallower(ls, heads, j, depth);
            &&& 0 <= found <= j
            &&& found > 0 ==> section_depth(ls, heads, found) < depth
            &&& forall|i: int|
                found < i <= j ==> #[trigger] section_depth(ls, heads, i) >= depth
        }),
    decreases j,
{
    if j > 0 && section_depth(ls, heads, j) >= depth {
        lemma_nearest(ls, heads, j - 1, depth);
    }
}

/// A text has one section for each of its headings, and the one before them. The project
/// that is given is that of every chunk, if one is given.
pub proof fn law_sections_are_counted_by_headings(text: Seq<char>, project: Option<&str>)
    ensures
        ({
            let ls = lines(text);
            section_count(text) == positions(ls.len()).filter(|i: int| is_heading(ls[i])).len() + 1
        }),
        optional_str(project) is Some <==> project is Some,
        project is Some ==> optional_str(project) == Some(project->0@),
{
    law_every_heading_begins_a_section(lines(text), lines(text).len());
}

/// The path of a section is that of the section it lies in, and what its own heading says.
pub proof fn law_paths_end_with_their_heading(ls: Seq<Seq<char>>, heads: Seq<int>, k: int)
    requires
        k > 0,
    ensures
        section_path(ls, heads, 0) == Seq::<Seq<char>>::empty(),
        section_path(ls, heads, k) == section_path(ls, heads, parent_section(ls, heads, k)).push(
            heading_text(ls[heads[k - 1]]),
        ),
{
}

/// Every section that holds more than white space becomes a chunk, in the order of the
/// sections, and no other does. The chunk has the text of its section, the path of its
/// headings, the section that it lies in as its parent, and the document and project
/// that are given.
pub proof fn law_every_section_with_text_is_a_chunk(
    text: Seq<char>,
    document_path: Seq<char>,
    project: Option<Seq<char>>,
    ids: Seq<u128>,
)
    ensures
        ({
            let ls = lines(text);
            let heads = headings(ls, ls.len() as int);
            markdown_chunks(text, document_path, project, ids) == positions(
                heads.len() + 1,
            ).filter(|k: int| section_content(ls, heads, k).len() > 0).map_values(
                |k: int|
                    ChunkModel {
                        id: ids[k],
                        document_path,
                        section_path: section_path(ls, heads, k),
                        content: section_content(ls, heads, k),
                        parent_id: if k > 0 && parent_section(ls, heads, k) > 0 {
                            Some(ids[parent_section(ls, heads, k)])
                        } else {
                            None
                        },
                        project,
                    },
            )
        }),
{
    let ls = lines(text);
    lemma_chunks_of_sections(ls, document_path, project, ids, section_count(text));
}

proof fn lemma_chunks_of_sections(
    ls: Seq<Seq<char>>,
    document_path: Seq<char>,
    project: Option<Seq<char>>,
    ids: Seq<u128>,
    n: nat,
)
    ensures
        ({
            let heads = headings(ls, ls.len() as int);
            section_chunks(ls, document_path, project, ids, n as int) == positions(n).filter(
                |k: int| section_content(ls, heads, k).len() > 0,
            ).map_values(
                |k: int|
                    ChunkModel {
                        id: ids[k],
                        document_path,
                        section_path: section_path(ls, heads, k),
                        content: section_content(ls, heads, k),
                        parent_id: if k > 0 && parent_section(ls, heads, k) > 0 {
                            Some(ids[parent_section(ls, heads, k)])
                        } else {
                            None
                        },
                        project,
                    },
            )
        }),
    decreases n,
{
    let heads = headings(ls, ls.len() as int);
    let full = |k: int| section_content(ls, heads, k).len() > 0;
    let chunk = |k: int|
        ChunkModel {
            id: ids[k],
            document_path,
            section_path: section_path(ls, heads, k),
            content: section_content(ls, heads, k),
            parent_id: if k > 0 && parent_section(ls, heads, k) > 0 {
                Some(ids[parent_section(ls, heads, k)])
            } else {
                None
            },
            project,
        };
    if n == 0 {
        reveal(Seq::filter);
        assert(positions(0).filter(full).map_values(chunk) =~= Seq::empty());
    } else {
        let m = (n - 1) as nat;
        lemma_chunks_of_sections(ls, document_path, project, ids, m);
        lemma_one_more_position(m, full);
        assert(section_chunk(ls, document_path, project, ids, m as int) == chunk(m as int));
        assert(positions(m).filter(full).push(m as int).map_values(chunk) =~= positions(m).filter(
            full,
        ).map_values(chunk).push(chunk(m as int)));
    }
}

/// The text of a section is its lines one after the other, each with a line feed.
pub proof fn law_lines_are_joined_in_order(a: Seq<Seq<char>>, line: Seq<char>, b: Seq<Seq<char>>)
    ensures
        joined(Seq::empty()) == Seq::<char>::empty(),
        joined(a + seq![line] + b) == joined(a) + line + seq!['\n'] + joined(b),
    decreases b.len(),
{
    let all = a + seq![line] + b;
    if b.len() == 0 {
        assert(all.drop_last() =~= a);
        assert(all.last() == line);
        assert(joined(a) + line + seq!['\n'] + joined(b) =~= joined(a) + line + seq!['\n']);
    } else {
        law_lines_are_joined_in_order(a, line, b.drop_last());
        assert(all.drop_last() =~= a + seq![line] + b.drop_last());
        assert(all.last() == b.last());
        assert(joined(all) =~= joined(a) + line + seq!['\n'] + joined(b));
    }
}

/// The text of a section are the lines from its heading to the next one, without white
/// space at the ends; what precedes the first heading is a section too.
pub proof fn law_a_section_holds_its_lines(ls: Seq<Seq<char>>, k: int)
    requires
        0 <= k <= headings(ls, ls.len() as int).len(),
    ensures
        ({
            let heads = headings(ls, ls.len() as int);
            let start = if k == 0 {
                0
            } else {
                heads[k - 1]
            };
            let end = if k == heads.len() {
                ls.len() as int
            } else {
                heads[k]
            };
            section_content(ls, heads, k) == trimmed(joined(ls.subrange(start, end)))
        }),
{
}

} // verus!
