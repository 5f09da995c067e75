//! Documents: markdown text split into chunks, one for each heading.
use vstd::prelude::*;
use vstd::slice::slice_subrange;
use vstd::string::*;

use crate::ids::{fresh_id, is_random_id};
use crate::text::{
    append_chars, chars_of, copy_optional, copy_texts, lines, optional_text, split_lines, text_of,
    trim, trimmed,
};

verus! {

/// One section of a markdown document, from its heading to the next. The
/// section path is empty for the text before the first heading.
#[derive(Clone, Debug)]
pub struct DocumentChunk {
    pub id: u128,
    pub document_path: String,
    pub section_path: Vec<String>,
    pub content: String,
    pub parent_id: Option<u128>,
    pub project: Option<String>,
}

/// A chunk as plain values.
pub struct ChunkModel {
    pub id: u128,
    pub document_path: Seq<char>,
    pub section_path: Seq<Seq<char>>,
    pub content: Seq<char>,
    pub parent_id: Option<u128>,
    pub project: Option<Seq<char>>,
}

/// The characters of each text of a list.
pub open spec fn texts_view(texts: Seq<String>) -> Seq<Seq<char>> {
    Seq::new(texts.len(), |i: int| texts[i]@)
}

impl View for DocumentChunk {
    type V = ChunkModel;

    open spec fn view(&self) -> ChunkModel {
        ChunkModel {
            id: self.id,
            document_path: self.document_path@,
            section_path: texts_view(self.section_path@),
            content: self.content@,
            parent_id: self.parent_id,
            project: optional_text(self.project),
        }
    }
}

impl DocumentChunk {
    /// A chunk with a fresh identifier.
    pub fn new(
        document_path: String,
        section_path: Vec<String>,
        content: String,
        parent_id: Option<u128>,
        project: Option<String>,
    ) -> (r: DocumentChunk)
        ensures
            is_random_id(r.id),
            r.document_path == document_path,
            r.section_path == section_path,
            r.content == content,
            r.parent_id == parent_id,
            r.project == project,
    {
        DocumentChunk::with_id(
            fresh_id(),
            document_path,
            section_path,
            content,
            parent_id,
            project,
        )
    }

    /// A chunk with the given identifier.
    pub fn with_id(
        id: u128,
        document_path: String,
        section_path: Vec<String>,
        content: String,
        parent_id: Option<u128>,
        project: Option<String>,
    ) -> (r: DocumentChunk)
        ensures
            r == (DocumentChunk { id, document_path, section_path, content, parent_id, project }),
    {
        DocumentChunk { id, document_path, section_path, content, parent_id, project }
    }
}

/// One answer to a document query.
#[derive(Clone, Debug)]
pub struct QueryResult {
    pub id: String,
    pub document_path: String,
    pub section_path: Vec<String>,
    pub content: String,
    pub parent_content: Option<String>,
}

/// Number of `#` that a line begins with.
pub open spec fn heading_depth(line: Seq<char>) -> int
    decreases line.len(),
{
    if line.len() > 0 && line[0] == '#' {
        1 + heading_depth(line.drop_first())
    } else {
        0
    }
}

/// A heading begins with `#` signs, after which the line ends or a space follows.
pub open spec fn is_heading(line: Seq<char>) -> bool {
    let depth = heading_depth(line);
    depth > 0 && (depth >= line.len() || line[depth] == ' ')
}

/// What a heading says after its `#` signs.
pub open spec fn heading_text(line: Seq<char>) -> Seq<char> {
    trimmed(line.skip(heading_depth(line)))
}

/// The positions of the headings among the first `n` lines.
pub open spec fn headings(ls: Seq<Seq<char>>, n: int) -> Seq<int>
    decreases n,
{
    if n <= 0 {
        Seq::empty()
    } else if is_heading(ls[n - 1]) {
        headings(ls, n - 1).push(n - 1)
    } else {
        headings(ls, n - 1)
    }
}

/// Lines one after the other, each with a line feed.
pub open spec fn joined(ls: Seq<Seq<char>>) -> Seq<char>
    decreases ls.len(),
{
    if ls.len() == 0 {
        Seq::empty()
    } else {
        joined(ls.drop_last()) + ls.last() + seq!['\n']
    }
}

/// First line of section `k`. Section zero precedes the first heading.
pub open spec fn section_start(heads: Seq<int>, k: int) -> int {
    if k == 0 {
        0
    } else {
        heads[k - 1]
    }
}

/// The line after the last one of section `k`.
pub open spec fn section_end(ls: Seq<Seq<char>>, heads: Seq<int>, k: int) -> int {
    if k < heads.len() {
        heads[k]
    } else {
        ls.len() as int
    }
}

/// The text of section `k`.
pub open spec fn section_content(ls: Seq<Seq<char>>, heads: Seq<int>, k: int) -> Seq<char> {
    trimmed(joined(ls.subrange(section_start(heads, k), section_end(ls, heads, k))))
}

/// Depth of the heading of section `k`, from one on.
pub open spec fn section_depth(ls: Seq<Seq<char>>, heads: Seq<int>, k: int) -> int {
    heading_depth(ls[heads[k - 1]])
}

/// The last section up to `j` with a heading of smaller depth than `depth`; zero
/// where there is none.
pub open spec fn nearest_shallower(
    ls: Seq<Seq<char>>,
    heads: Seq<int>,
    j: int,
    depth: int,
) -> int
    decreases j,
{
    if j <= 0 {
        0
    } else if section_depth(ls, heads, j) < depth {
        j
    } else {
        nearest_shallower(ls, heads, j - 1, depth)
    }
}

/// The section that section `k` lies in; zero where it lies in none.
pub open spec fn parent_section(ls: Seq<Seq<char>>, heads: Seq<int>, k: int) -> int {
    nearest_shallower(ls, heads, k - 1, section_depth(ls, heads, k))
}

/// The headings that section `k` lies under, its own last.
pub open spec fn section_path(ls: Seq<Seq<char>>, heads: Seq<int>, k: int) -> Seq<Seq<char>>
    decreases k,
    via section_path_decreases
{
    if k <= 0 {
        Seq::empty()
    } else {
        section_path(ls, heads, parent_section(ls, heads, k)).push(
            heading_text(ls[heads[k - 1]]),
        )
    }
}

#[via_fn]
proof fn section_path_decreases(ls: Seq<Seq<char>>, heads: Seq<int>, k: int) {
    if k > 0 {
        lemma_nearest_shallower(ls, heads, k - 1, section_depth(ls, heads, k));
    }
}

/// The chunk of section `k`.
pub open spec fn section_chunk(
    ls: Seq<Seq<char>>,
    document_path: Seq<char>,
    project: Option<Seq<char>>,
    ids: Seq<u128>,
    k: int,
) -> ChunkModel {
    let heads = headings(ls, ls.len() as int);
    let parent = if k > 0 {
        parent_section(ls, heads, k)
    } else {
        0
    };
    ChunkModel {
        id: ids[k],
        document_path,
        section_path: section_path(ls, heads, k),
        content: section_content(ls, heads, k),
        parent_id: if parent > 0 {
            Some(ids[parent])
        } else {
            None
        },
        project,
    }
}

/// The chunks of the sections before section `k`, without the empty ones.
pub open spec fn section_chunks(
    ls: Seq<Seq<char>>,
    document_path: Seq<char>,
    project: Option<Seq<char>>,
    ids: Seq<u128>,
    k: int,
) -> Seq<ChunkModel>
    decreases k,
{
    if k <= 0 {
        Seq::empty()
    } else {
        let before = section_chunks(ls, document_path, project, ids, k - 1);
        let chunk = section_chunk(ls, document_path, project, ids, k - 1);
        if chunk.content.len() > 0 {
            before.push(chunk)
        } else {
            before
        }
    }
}

/// Number of sections of a text, the part before the first heading included.
pub open spec fn section_count(text: Seq<char>) -> nat {
    headings(lines(text), lines(text).len() as int).len() + 1
}

/// The chunks of a markdown text whose sections have the given identifiers.
pub open spec fn markdown_chunks(
    text: Seq<char>,
    document_path: Seq<char>,
    project: Option<Seq<char>>,
    ids: Seq<u128>,
) -> Seq<ChunkModel> {
    section_chunks(lines(text), document_path, project, ids, section_count(text) as int)
}

pub open spec fn chunks_view(chunks: Seq<DocumentChunk>) -> Seq<ChunkModel> {
    Seq::new(chunks.len(), |i: int| chunks[i]@)
}

pub proof fn lemma_nearest_shallower(
    ls: Seq<Seq<char>>,
    heads: Seq<int>,
    j: int,
    depth: int,
)
    ensures
        0 <= nearest_shallower(ls, heads, j, depth),
        j >= 0 ==> nearest_shallower(ls, heads, j, depth) <= j,
        nearest_shallower(ls, heads, j, depth) > 0 ==> section_depth(
            ls,
            heads,
            nearest_shallower(ls, heads, j, depth),
        ) < depth,
    decreases j,
{
    if j > 0 && section_depth(ls, heads, j) >= depth {
        lemma_nearest_shallower(ls, heads, j - 1, depth);
    }
}

/// Sections that lie in section `j` or deeper can be passed over when looking
/// for a section that is no deeper than `j`.
proof fn lemma_skip_to_parent(ls: Seq<Seq<char>>, heads: Seq<int>, i: int, j: int, depth: int)
    requires
        0 <= i < j,
        nearest_shallower(ls, heads, j - 1, section_depth(ls, heads, j)) == nearest_shallower(
            ls,
            heads,
            i,
            section_depth(ls, heads, j),
        ),
        depth <= section_depth(ls, heads, j),
    ensures
        nearest_shallower(ls, heads, i, depth) == nearest_shallower(
            ls,
            heads,
            nearest_shallower(ls, heads, i, section_depth(ls, heads, j)),
            depth,
        ),
    decreases i,
{
    let own = section_depth(ls, heads, j);
    if i > 0 && section_depth(ls, heads, i) >= own {
        lemma_skip_to_parent(ls, heads, i - 1, j, depth);
    }
}

/// The positions found among the first lines begin those found among more lines.
proof fn lemma_headings_prefix(ls: Seq<Seq<char>>, i: int, n: int)
    requires
        0 <= i <= n <= ls.len(),
    ensures
        headings(ls, i).len() <= headings(ls, n).len(),
        headings(ls, i) == headings(ls, n).take(headings(ls, i).len() as int),
        forall|k: int|
            0 <= k < headings(ls, n).len() ==> 0 <= #[trigger] headings(ls, n)[k] < n && is_heading(
                ls[headings(ls, n)[k]],
            ),
    decreases n,
{
    if i == n {
        assert(headings(ls, i) =~= headings(ls, n).take(headings(ls, i).len() as int));
        if n > 0 {
            lemma_headings_prefix(ls, i - 1, n - 1);
        }
    } else {
        lemma_headings_prefix(ls, i, n - 1);
        assert(headings(ls, i) =~= headings(ls, n).take(headings(ls, i).len() as int));
    }
}

/// The sections on the way from the outermost one to section `k`.
spec fn section_chain(ls: Seq<Seq<char>>, heads: Seq<int>, k: int) -> Seq<int>
    decreases k,
    via section_chain_decreases
{
    if k <= 0 {
        Seq::empty()
    } else {
        section_chain(ls, heads, parent_section(ls, heads, k)).push(k)
    }
}

#[via_fn]
proof fn section_chain_decreases(ls: Seq<Seq<char>>, heads: Seq<int>, k: int) {
    if k > 0 {
        lemma_nearest_shallower(ls, heads, k - 1, section_depth(ls, heads, k));
    }
}

/// The stack of open sections holds the chain of section `j`.
spec fn stack_holds(
    stack: Seq<(usize, String, u128)>,
    ls: Seq<Seq<char>>,
    heads: Seq<int>,
    ids: Seq<u128>,
    j: int,
) -> bool {
    let chain = section_chain(ls, heads, j);
    &&& stack.len() == chain.len()
    &&& forall|t: int|
        0 <= t < stack.len() ==> {
            &&& (#[trigger] stack[t]).0 == section_depth(ls, heads, chain[t])
            &&& stack[t].1@ == section_path(ls, heads, j)[t]
            &&& stack[t].2 == ids[chain[t]]
        }
    &&& section_path(ls, heads, j).len() == stack.len()
}

proof fn lemma_chain_path(ls: Seq<Seq<char>>, heads: Seq<int>, k: int)
    requires
        k >= 0,
    ensures
        section_chain(ls, heads, k).len() == section_path(ls, heads, k).len(),
        k > 0 ==> section_chain(ls, heads, k).last() == k,
    decreases k,
{
    if k > 0 {
        lemma_nearest_shallower(ls, heads, k - 1, section_depth(ls, heads, k));
        lemma_chain_path(ls, heads, parent_section(ls, heads, k));
    }
}

/// Number of `#` that a line begins with.
fn count_hashes(line: &[char]) -> (r: usize)
    ensures
        r == heading_depth(line@),
        r <= line@.len(),
{
    let n: usize = line.len();
    let mut i: usize = 0;
    assert(line@.subrange(0, n as int) =~= line@);
    while i < n && line[i] == '#'
        invariant
            i <= n,
            n == line@.len(),
            heading_depth(line@) == i + heading_depth(line@.subrange(i as int, n as int)),
        decreases n - i,
    {
        assert(line@.subrange(i as int, n as int).drop_first() =~= line@.subrange(i + 1, n as int));
        i = i + 1;
    }
    i
}

/// Depth of a heading, or nothing where the line is none.
fn heading_of(line: &[char]) -> (r: Option<usize>)
    ensures
        r is Some <==> is_heading(line@),
        r is Some ==> r->0 == heading_depth(line@) && r->0 <= line@.len(),
{
    let depth: usize = count_hashes(line);
    if depth > 0 && (depth >= line.len() || line[depth] == ' ') {
        Some(depth)
    } else {
        None
    }
}

/// All identifiers are random ones.
pub open spec fn all_random(ids: Seq<u128>) -> bool {
    forall|i: int| 0 <= i < ids.len() ==> is_random_id(#[trigger] ids[i])
}

/// Fresh identifiers, one for each section of a text.
fn section_ids(text: &str) -> (r: Vec<u128>)
    ensures
        r@.len() == section_count(text@),
        all_random(r@),
{
    let cs = chars_of(text);
    let ls = split_lines(cs.as_slice());
    let ghost model = lines(text@);
    let n: usize = ls.len();
    let mut r: Vec<u128> = Vec::new();
    r.push(fresh_id());
    let mut i: usize = 0;
    while i < n
        invariant
            i <= n,
            n == ls@.len(),
            n == model.len(),
            forall|k: int| 0 <= k < n ==> (#[trigger] ls@[k])@ == model[k],
            r@.len() == headings(model, i as int).len() + 1,
            all_random(r@),
        decreases n - i,
    {
        if heading_of(ls[i]).is_some() {
            r.push(fresh_id());
        }
        i = i + 1;
    }
    r
}

/// Splits a markdown document into its chunks, each with a fresh identifier.
pub fn parse_markdown(text: &str, document_path: &str, project: Option<&str>) -> (r: Vec<
    DocumentChunk,
>)
    ensures
        exists|ids: Seq<u128>|
            #![trigger markdown_chunks(text@, document_path@, optional_str(project), ids)]
            ids.len() == section_count(text@) && all_random(ids) && chunks_view(r@)
                == markdown_chunks(text@, document_path@, optional_str(project), ids),
{
    let ids = section_ids(text);
    parse_markdown_with_ids(text, document_path, project, &ids)
}

pub open spec fn optional_str(t: Option<&str>) -> Option<Seq<char>> {
    match t {
        Some(s) => Some(s@),
        None => None,
    }
}

proof fn lemma_texts_push(texts: Seq<String>, t: String)
    ensures
        texts_view(texts.push(t)) == texts_view(texts).push(t@),
{
    assert(texts_view(texts.push(t)) =~= texts_view(texts).push(t@));
}

/// Adds the chunk of a finished section, unless the section is empty.
fn flush(
    chunks: &mut Vec<DocumentChunk>,
    buffer: &str,
    id: u128,
    document_path: &str,
    section_path: &Vec<String>,
    parent_id: Option<u128>,
    project: &Option<String>,
)
    ensures
        ({
            let content = trimmed(buffer@);
            chunks_view(final(chunks)@) == if content.len() > 0 {
                chunks_view(old(chunks)@).push(
                    ChunkModel {
                        id,
                        document_path: document_path@,
                        section_path: texts_view(section_path@),
                        content,
                        parent_id,
                        project: optional_text(*project),
                    },
                )
            } else {
                chunks_view(old(chunks)@)
            }
        }),
{
    let ghost before = chunks_view(chunks@);
    let cs = chars_of(buffer);
    let content = trim(cs.as_slice());
    if content.len() > 0 {
        chunks.push(
            DocumentChunk::with_id(
                id,
                document_path.to_owned(),
                copy_texts(section_path),
                text_of(content),
                parent_id,
                copy_optional(project),
            ),
        );
        assert(chunks_view(chunks@) =~= before.push(chunks@.last()@));
    }
}

/// Splits a markdown document into its chunks; section `k` gets `ids[k]`.
pub fn parse_markdown_with_ids(
    text: &str,
    document_path: &str,
    project: Option<&str>,
    ids: &Vec<u128>,
) -> (r: Vec<DocumentChunk>)
    requires
        ids@.len() >= section_count(text@),
    ensures
        chunks_view(r@) == markdown_chunks(text@, document_path@, optional_str(project), ids@),
{
    let cs = chars_of(text);
    let ls = split_lines(cs.as_slice());
    let owned_project: Option<String> = match project {
        Some(p) => Some(p.to_owned()),
        None => None,
    };
    let ghost model = lines(text@);
    let ghost heads = headings(model, model.len() as int);
    let ghost doc = document_path@;
    let ghost proj = optional_str(project);
    let n: usize = ls.len();
    let total: usize = ids.len();
    let mut chunks: Vec<DocumentChunk> = Vec::new();
    let mut stack: Vec<(usize, String, u128)> = Vec::new();
    let mut buffer: String = String::new();
    let mut section_names: Vec<String> = Vec::new();
    let mut parent_id: Option<u128> = None;
    let mut k: usize = 0;
    let mut i: usize = 0;
    proof {
        assert(texts_view(section_names@) =~= section_path(model, heads, 0));
        assert(chunks_view(chunks@) =~= section_chunks(model, doc, proj, ids@, 0));
        assert(model.subrange(0, 0) =~= Seq::empty());
        lemma_headings_prefix(model, 0, n as int);
    }
    while i < n
        invariant
            i <= n,
            n == ls@.len(),
            n == model.len(),
            forall|j: int| 0 <= j < n ==> (#[trigger] ls@[j])@ == model[j],
            heads == headings(model, n as int),
            total == ids@.len(),
            total > heads.len(),
            k == headings(model, i as int).len(),
            k <= heads.len(),
            doc == document_path@,
            proj == optional_text(owned_project),
            buffer@ == joined(model.subrange(section_start(heads, k as int), i as int)),
            0 <= section_start(heads, k as int) <= i,
            texts_view(section_names@) == section_path(model, heads, k as int),
            parent_id == section_chunk(model, doc, proj, ids@, k as int).parent_id,
            stack_holds(stack@, model, heads, ids@, k as int),
            chunks_view(chunks@) == section_chunks(model, doc, proj, ids@, k as int),
        decreases n - i,
    {
        let line = ls[i];
        proof {
            lemma_headings_prefix(model, i + 1, n as int);
            lemma_headings_prefix(model, i as int, n as int);
        }
        match heading_of(line) {
            Some(depth) => {
                proof {
                    assert(headings(model, i + 1).last() == i);
                    assert(heads[k as int] == i);
                }
                flush(
                    &mut chunks,
                    &buffer,
                    ids[k],
                    document_path,
                    &section_names,
                    parent_id,
                    &owned_project,
                );
                let ghost old_k = k as int;
                let ghost mut j: int = k as int;
                while stack.len() > 0 && stack[stack.len() - 1].0 >= depth
                    invariant
                        0 <= j <= old_k < heads.len(),
                        stack_holds(stack@, model, heads, ids@, j),
                        depth == section_depth(model, heads, old_k + 1),
                        nearest_shallower(model, heads, old_k, depth as int) == nearest_shallower(
                            model,
                            heads,
                            j,
                            depth as int,
                        ),
                    decreases stack@.len(),
                {
                    proof {
                        lemma_chain_path(model, heads, j);
                        assert(j > 0);
                        let own = section_depth(model, heads, j);
                        let parent = parent_section(model, heads, j);
                        assert(stack@[stack@.len() - 1].0 == own);
                        lemma_nearest_shallower(model, heads, j - 1, own);
                        lemma_skip_to_parent(model, heads, j - 1, j, depth as int);
                        lemma_chain_path(model, heads, parent);
                        let chain = section_chain(model, heads, parent);
                        assert(section_chain(model, heads, j) == chain.push(j));
                        assert(section_path(model, heads, j).drop_last() =~= section_path(
                            model,
                            heads,
                            parent,
                        ));
                        let shorter = stack@.drop_last();
                        assert forall|t: int| 0 <= t < shorter.len() implies {
                            &&& (#[trigger] shorter[t]).0 == section_depth(model, heads, chain[t])
                            &&& shorter[t].1@ == section_path(model, heads, parent)[t]
                            &&& shorter[t].2 == ids@[chain[t]]
                        } by {
                            assert(shorter[t] == stack@[t]);
                            assert(section_chain(model, heads, j)[t] == chain[t]);
                        }
                        j = parent;
                    }
                    stack.pop();
                }
                proof {
                    lemma_chain_path(model, heads, j);
                    if j > 0 {
                        assert(stack@[stack@.len() - 1].0 == section_depth(model, heads, j));
                    }
                    assert(parent_section(model, heads, old_k + 1) == j);
                }
                parent_id = if stack.len() > 0 {
                    Some(stack[stack.len() - 1].2)
                } else {
                    None
                };
                let heading = text_of(trim(slice_subrange(line, depth, line.len())));
                proof {
                    assert(line@.subrange(depth as int, line@.len() as int) =~= line@.skip(depth as int));
                }
                section_names = Vec::new();
                let open: usize = stack.len();
                let mut t: usize = 0;
                while t < open
                    invariant
                        t <= open,
                        open == stack@.len(),
                        stack_holds(stack@, model, heads, ids@, j),
                        texts_view(section_names@) == section_path(model, heads, j).take(t as int),
                    decreases open - t,
                {
                    let ghost shorter = section_names@;
                    section_names.push(stack[t].1.clone());
                    proof {
                        lemma_texts_push(shorter, section_names@.last());
                    }
                    t = t + 1;
                    assert(texts_view(section_names@) =~= section_path(model, heads, j).take(t as int));
                }
                let ghost shorter = section_names@;
                section_names.push(heading.clone());
                proof {
                    lemma_texts_push(shorter, heading);
                    assert(texts_view(shorter) =~= section_path(model, heads, j));
                    assert(texts_view(section_names@) =~= section_path(model, heads, old_k + 1));
                }
                k = k + 1;
                let ghost before = stack@;
                stack.push((depth, heading, ids[k]));
                proof {
                    let chain = section_chain(model, heads, j);
                    assert(section_chain(model, heads, k as int) == chain.push(k as int));
                    assert forall|t: int| 0 <= t < stack@.len() implies {
                        &&& (#[trigger] stack@[t]).0 == section_depth(
                            model,
                            heads,
                            chain.push(k as int)[t],
                        )
                        &&& stack@[t].1@ == section_path(model, heads, k as int)[t]
                        &&& stack@[t].2 == ids@[chain.push(k as int)[t]]
                    } by {
                        if t < before.len() {
                            assert(stack@[t] == before[t]);
                        }
                    }
                }
                buffer = String::new();
                append_chars(&mut buffer, line);
                buffer.push('\n');
                proof {
                    let own = model.subrange(i as int, i + 1);
                    assert(own.drop_last() =~= Seq::empty());
                    assert(joined(own.drop_last()) =~= Seq::empty());
                    assert(own.last() == line@);
                    assert(buffer@ =~= joined(own));
                }
            },
            None => {
                let ghost start = section_start(heads, k as int);
                append_chars(&mut buffer, line);
                buffer.push('\n');
                proof {
                    let own = model.subrange(start, i + 1);
                    assert(own.drop_last() =~= model.subrange(start, i as int));
                    assert(own.last() == line@);
                    assert(buffer@ =~= joined(own));
                }
            },
        }
        i = i + 1;
    }
    flush(
        &mut chunks,
        &buffer,
        ids[k],
        document_path,
        &section_names,
        parent_id,
        &owned_project,
    );
    chunks
}

/// The sections follow one another from the first line to the last, so that no
/// line is lost; each but the first begins with a heading and holds no other.
pub proof fn law_sections_cover_the_lines(ls: Seq<Seq<char>>, k: int)
    requires
        0 <= k <= headings(ls, ls.len() as int).len(),
    ensures
        ({
            let heads = headings(ls, ls.len() as int);
            &&& 0 <= section_start(heads, k) <= section_end(ls, heads, k) <= ls.len()
            &&& k < heads.len() ==> section_end(ls, heads, k) == section_start(heads, k + 1)
            &&& k == heads.len() ==> section_end(ls, heads, k) == ls.len()
            &&& k > 0 ==> is_heading(ls[section_start(heads, k)])
            &&& forall|i: int|
                section_start(heads, k) < i < section_end(ls, heads, k) ==> !is_heading(
                    #[trigger] ls[i],
                )
        }),
{
    let n = ls.len() as int;
    let heads = headings(ls, n);
    lemma_headings_prefix(ls, n, n);
    lemma_headings_sorted(ls, n);
    assert forall|i: int|
        section_start(heads, k) < i < section_end(ls, heads, k) implies !is_heading(
        #[trigger] ls[i],
    ) by {
        if is_heading(ls[i]) {
            lemma_heading_is_found(ls, n, i);
            let j = choose|j: int| 0 <= j < heads.len() && heads[j] == i;
            if j < k - 1 {
                assert(heads[j] < heads[k - 1]);
            }
            if k < heads.len() && j > k {
                assert(heads[k] < heads[j]);
            }
        }
    }
}

proof fn lemma_headings_sorted(ls: Seq<Seq<char>>, n: int)
    requires
        0 <= n <= ls.len(),
    ensures
        forall|i: int, j: int|
            0 <= i < j < headings(ls, n).len() ==> headings(ls, n)[i] < headings(ls, n)[j],
        forall|i: int| 0 <= i < headings(ls, n).len() ==> 0 <= #[trigger] headings(ls, n)[i] < n,
    decreases n,
{
    if n > 0 {
        lemma_headings_sorted(ls, n - 1);
        let before = headings(ls, n - 1);
        let all = headings(ls, n);
        assert forall|i: int| 0 <= i < all.len() implies 0 <= #[trigger] all[i] < n by {
            if i < before.len() {
                assert(all[i] == before[i]);
            }
        }
        assert forall|i: int, j: int| 0 <= i < j < all.len() implies all[i] < all[j] by {
            assert(all[i] == before[i]);
            if j < before.len() {
                assert(all[j] == before[j]);
            }
        }
    }
}

proof fn lemma_heading_is_found(ls: Seq<Seq<char>>, n: int, i: int)
    requires
        0 <= i < n <= ls.len(),
        is_heading(ls[i]),
    ensures
        headings(ls, n).contains(i),
    decreases n,
{
    let all = headings(ls, n);
    if i == n - 1 {
        assert(all[all.len() - 1] == i);
    } else {
        lemma_heading_is_found(ls, n - 1, i);
        let before = headings(ls, n - 1);
        let j = choose|j: int| 0 <= j < before.len() && before[j] == i;
        assert(all[j] == i);
    }
}

/// A section lies in the section whose path is its own without its heading, and
/// that section comes before it and has a heading of smaller depth.
pub proof fn law_child_extends_its_parent(ls: Seq<Seq<char>>, heads: Seq<int>, k: int)
    requires
        k > 0,
    ensures
        ({
            let parent = parent_section(ls, heads, k);
            &&& 0 <= parent < k
            &&& section_path(ls, heads, k).drop_last() == section_path(ls, heads, parent)
            &&& parent > 0 ==> section_depth(ls, heads, parent) < section_depth(ls, heads, k)
        }),
{
    lemma_nearest_shallower(ls, heads, k - 1, section_depth(ls, heads, k));
    let parent = parent_section(ls, heads, k);
    assert(section_path(ls, heads, k).drop_last() =~= section_path(ls, heads, parent));
}

} // verus!
