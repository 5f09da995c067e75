use mimir::documents::{parse_markdown, parse_markdown_with_ids, DocumentChunk};

const TEXT: &str = "preface\n\n# One\nbody one\n## Two\nbody two\n#tag is no heading\n### \n# Three  \r\nlast\r\n";

fn paths(chunks: &[DocumentChunk]) -> Vec<Vec<String>> {
    chunks.iter().map(|c| c.section_path.clone()).collect()
}

#[test]
fn sections_become_chunks() {
    let ids: Vec<u128> = (10..20).collect();
    let chunks = parse_markdown_with_ids(TEXT, "doc.md", Some("p"), &ids);
    let expected: Vec<Vec<&str>> = vec![
        vec![],
        vec!["One"],
        vec!["One", "Two"],
        vec!["One", "Two", ""],
        vec!["Three"],
    ];
    assert_eq!(paths(&chunks), expected);
    assert_eq!(chunks[0].content, "preface");
    assert_eq!(chunks[1].content, "# One\nbody one");
    assert_eq!(chunks[2].content, "## Two\nbody two\n#tag is no heading");
    assert_eq!(chunks[3].content, "###");
    assert_eq!(chunks[4].content, "# Three  \nlast");
    assert_eq!(chunks.iter().map(|c| c.id).collect::<Vec<_>>(), vec![10, 11, 12, 13, 14]);
    assert_eq!(
        chunks.iter().map(|c| c.parent_id).collect::<Vec<_>>(),
        vec![None, None, Some(11), Some(12), None]
    );
    assert!(chunks.iter().all(|c| c.document_path == "doc.md" && c.project.as_deref() == Some("p")));
}

#[test]
fn a_blank_preface_is_no_chunk() {
    let chunks = parse_markdown("\n  \n# A\n", "d", None);
    assert_eq!(chunks.len(), 1);
    assert_eq!(chunks[0].section_path, vec!["A"]);
    assert_eq!(chunks[0].parent_id, None);
    assert_eq!(chunks[0].project, None);
    assert!(parse_markdown("", "d", None).is_empty());
    assert!(parse_markdown(" \n\t\n", "d", None).is_empty());
}

#[test]
fn a_document_without_headings_is_one_chunk() {
    let chunks = parse_markdown("a\nb", "d", None);
    assert_eq!(chunks.len(), 1);
    assert!(chunks[0].section_path.is_empty());
    assert_eq!(chunks[0].content, "a\nb");
}

#[test]
fn siblings_and_skipped_levels_find_their_parents() {
    let text = "# A\n### B\n## C\n### D\n## E\n# F\n## G\n";
    let ids: Vec<u128> = (0..8).collect();
    let chunks = parse_markdown_with_ids(text, "d", None, &ids);
    let parents: Vec<Option<u128>> = chunks.iter().map(|c| c.parent_id).collect();
    assert_eq!(
        parents,
        vec![None, Some(1), Some(1), Some(3), Some(1), None, Some(6)]
    );
    assert_eq!(chunks[3].section_path, vec!["A", "C", "D"]);
    // The path of a chunk is that of its parent and its own heading.
    for c in &chunks {
        if let Some(p) = c.parent_id {
            let parent = chunks.iter().find(|x| x.id == p).unwrap();
            assert_eq!(c.section_path[..c.section_path.len() - 1], parent.section_path[..]);
        }
    }
}

#[test]
fn chunks_get_fresh_identifiers() {
    let a = parse_markdown("# A\n## B\n", "d", None);
    let b = parse_markdown("# A\n## B\n", "d", None);
    assert_eq!(a[1].parent_id, Some(a[0].id));
    assert_ne!(a[0].id, b[0].id);
    assert_ne!(a[0].id, a[1].id);
}

#[test]
fn chunks_keep_what_they_are_given() {
    let c = DocumentChunk::new("d".into(), vec!["h".into()], "c".into(), Some(3), None);
    assert_eq!((c.document_path.as_str(), c.content.as_str()), ("d", "c"));
    assert_eq!(c.parent_id, Some(3));
    let c = DocumentChunk::with_id(9, "d".into(), vec![], "c".into(), None, Some("p".into()));
    assert_eq!(c.id, 9);
    assert_eq!(c.project.as_deref(), Some("p"));
}
