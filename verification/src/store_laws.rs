//! What the statements for the database are made of: fixed texts, and the arguments that
//! are filled in.
use vstd::prelude::*;

use crate::cli::joined_with;
use crate::documents::{texts_view, DocumentChunk};
use crate::escape::{
    json_escaped, json_read, law_json_escape_is_read_back, law_sql_escape_is_read_back, sql_escaped,
    sql_read,
};
use crate::graph::{Belief, EdgeType, Pattern};
use crate::ids::{id_text, simple_id_text};
use crate::store::{
    belief_json, chunk_json, contain_chunk_sql, count_edges_by_label_sql,
    count_project_beliefs_call, count_vertices_sql, delete_belief_sql, delete_document_chunks_sql,
    delete_evidence_sql, delete_pattern_sql, delete_project_beliefs_call,
    delete_project_patterns_call, get_belief_sql, get_causal_downstream_beliefs_sql,
    get_chunk_by_id_sql, get_chunk_ids_by_project_call, get_chunk_ids_for_document_call,
    get_contradiction_pairs_by_project_call, get_contradiction_pairs_sql,
    get_defeats_with_timestamps_by_project_call, get_defeats_with_timestamps_sql,
    get_direct_downstream_by_project_call, get_direct_downstream_sql, get_edges_among_sql,
    get_evidence_for_beliefs_sql, get_grounding_mass_all_sql, get_incoming_edges_sql,
    get_pattern_sql, get_related_beliefs_by_project_call, get_related_beliefs_sql, id_list,
    insert_belief_call, insert_contradicts_sql, insert_document_chunk_call, insert_edge_sql,
    insert_evidence_sql, insert_pattern_call, is_graph_name, is_name_char, json_elements,
    limit_text, list_beliefs_by_project_call, list_beliefs_sql, list_patterns_by_project_call,
    list_patterns_sql, parent_binding, parent_property, pattern_json, project_binding,
    project_property, query_beliefs_by_vector_filtered_sql, query_beliefs_by_vector_scored_sql,
    query_beliefs_by_vector_sql, query_chunks_by_vector_filtered_sql,
    query_chunks_by_vector_scored_filtered_sql, query_chunks_by_vector_scored_sql,
    query_chunks_by_vector_sql, set_counts_sql, BELIEF_INLINE, BELIEF_RETURN, BELIEF_RETURN_COLUMNS,
    BELIEF_SELECT, BeliefNumbers, CHUNK_RETURN_COLUMNS, EdgeLabel, PATTERN_RETURN,
    PATTERN_RETURN_COLUMNS, PATTERN_SELECT, VertexLabel,
};
use crate::text::{decimal, optional_text};
use crate::time::rfc3339_text;

verus! {

/// A piece of a text: fixed, or a place for the argument of that number.
pub enum Piece {
    Text(Seq<char>),
    Hole(int),
}

/// What stands in the place of a piece.
pub open spec fn piece_text(piece: Piece, args: Seq<Seq<char>>) -> Seq<char> {
    match piece {
        Piece::Text(s) => s,
        Piece::Hole(k) => args[k],
    }
}

/// The first `n` pieces one after the other, with the arguments filled in.
pub open spec fn filled(pieces: Seq<Piece>, args: Seq<Seq<char>>, n: nat) -> Seq<char>
    decreases n,
{
    if n == 0 {
        Seq::empty()
    } else if n == 1 {
        piece_text(pieces[0], args)
    } else {
        filled(pieces, args, (n - 1) as nat) + piece_text(pieces[n - 1], args)
    }
}

/// Whatever it is given, `f` is the text of these pieces with its `n` arguments filled in,
/// each of them at least once.
pub open spec fn fills_in<A>(
    f: spec_fn(A) -> Seq<char>,
    args: spec_fn(A) -> Seq<Seq<char>>,
    n: int,
    pieces: Seq<Piece>,
) -> bool {
    &&& forall|a: A| #[trigger] f(a) == filled(pieces, args(a), pieces.len())
    &&& forall|k: int| 0 <= k < n ==> #[trigger] pieces.contains(Piece::Hole(k))
}

/// Deletes a belief with its edges: the statement is this text with its arguments
/// filled in.
pub proof fn law_delete_belief_fills_in_its_arguments()
    ensures
        fills_in(
            |a: (Seq<char>, u128)| delete_belief_sql(a.0, a.1),
            |a: (Seq<char>, u128)| seq![a.0, id_text(a.1)],
            2,
            seq![
                Piece::Text("SELECT * FROM ag_catalog.cypher('"@),
                Piece::Hole(0),
                Piece::Text("', $$\n  MATCH (n:Belief {id: '"@),
                Piece::Hole(1),
                Piece::Text("'})\n  DETACH DELETE n\n  RETURN 1\n$$) AS (ok ag_catalog.agtype)"@),
            ],
        ),
{
    reveal_with_fuel(filled, 6);
    let f = |a: (Seq<char>, u128)| delete_belief_sql(a.0, a.1);
    let g = |a: (Seq<char>, u128)| seq![a.0, id_text(a.1)];
    let pieces = seq![
        Piece::Text("SELECT * FROM ag_catalog.cypher('"@),
        Piece::Hole(0),
        Piece::Text("', $$\n  MATCH (n:Belief {id: '"@),
        Piece::Hole(1),
        Piece::Text("'})\n  DETACH DELETE n\n  RETURN 1\n$$) AS (ok ag_catalog.agtype)"@),
    ];
    assert(pieces[1] == Piece::Hole(0));
    assert(pieces[3] == Piece::Hole(1));
    assert(fills_in(f, g, 2, pieces));
}

/// Fetches one belief: the statement is this text with its arguments
/// filled in.
pub proof fn law_get_belief_fills_in_its_arguments()
    ensures
        fills_in(
            |a: (Seq<char>, u128)| get_belief_sql(a.0, a.1),
            |a: (Seq<char>, u128)| seq![a.0, id_text(a.1)],
            2,
            seq![
                Piece::Text(BELIEF_SELECT@),
                Piece::Hole(0),
                Piece::Text("', $$\n  MATCH (n:Belief {id: '"@),
                Piece::Hole(1),
                Piece::Text("'})\n  RETURN "@),
                Piece::Text(BELIEF_RETURN@),
                Piece::Text("\n$$) "@),
                Piece::Text(BELIEF_RETURN_COLUMNS@),
            ],
        ),
{
    reveal_with_fuel(filled, 9);
    let f = |a: (Seq<char>, u128)| get_belief_sql(a.0, a.1);
    let g = |a: (Seq<char>, u128)| seq![a.0, id_text(a.1)];
    let pieces = seq![
        Piece::Text(BELIEF_SELECT@),
        Piece::Hole(0),
        Piece::Text("', $$\n  MATCH (n:Belief {id: '"@),
        Piece::Hole(1),
        Piece::Text("'})\n  RETURN "@),
        Piece::Text(BELIEF_RETURN@),
        Piece::Text("\n$$) "@),
        Piece::Text(BELIEF_RETURN_COLUMNS@),
    ];
    assert(pieces[1] == Piece::Hole(0));
    assert(pieces[3] == Piece::Hole(1));
    assert(fills_in(f, g, 2, pieces));
}

/// Fetches all beliefs: the statement is this text with its arguments
/// filled in.
pub proof fn law_list_beliefs_fills_in_its_arguments()
    ensures
        fills_in(
            |a: Seq<char>| list_beliefs_sql(a),
            |a: Seq<char>| seq![a],
            1,
            seq![
                Piece::Text(BELIEF_SELECT@),
                Piece::Hole(0),
                Piece::Text("', $$\n  MATCH (n:Belief)\n  RETURN "@),
                Piece::Text(BELIEF_RETURN@),
                Piece::Text("\n$$) "@),
                Piece::Text(BELIEF_RETURN_COLUMNS@),
            ],
        ),
{
    reveal_with_fuel(filled, 7);
    let f = |a: Seq<char>| list_beliefs_sql(a);
    let g = |a: Seq<char>| seq![a];
    let pieces = seq![
        Piece::Text(BELIEF_SELECT@),
        Piece::Hole(0),
        Piece::Text("', $$\n  MATCH (n:Belief)\n  RETURN "@),
        Piece::Text(BELIEF_RETURN@),
        Piece::Text("\n$$) "@),
        Piece::Text(BELIEF_RETURN_COLUMNS@),
    ];
    assert(pieces[1] == Piece::Hole(0));
    assert(fills_in(f, g, 1, pieces));
}

/// Writes the counts of a belief, and the probability and confidence that follow from them:
/// the statement is this text with its arguments filled in.
pub proof fn law_set_counts_fills_in_its_arguments()
    ensures
        fills_in(
            |a: (Seq<char>, u128, Seq<char>, Seq<char>, Seq<char>, Seq<char>)| set_counts_sql(a.0, a.1, a.2, a.3, a.4, a.5),
            |a: (Seq<char>, u128, Seq<char>, Seq<char>, Seq<char>, Seq<char>)| seq![a.0, id_text(a.1), a.2, a.3, a.4, a.5],
            6,
            seq![
                Piece::Text("SELECT * FROM ag_catalog.cypher('"@),
                Piece::Hole(0),
                Piece::Text("', $$\n  MATCH (n:Belief {id: '"@),
                Piece::Hole(1),
                Piece::Text("'})\n  SET n.alpha = "@),
                Piece::Hole(2),
                Piece::Text(", n.beta = "@),
                Piece::Hole(3),
                Piece::Text(", n.probability = "@),
                Piece::Hole(4),
                Piece::Text(", n.confidence = "@),
                Piece::Hole(5),
                Piece::Text("\n  RETURN n.id\n$$) AS (id ag_catalog.agtype)"@),
            ],
        ),
{
    reveal_with_fuel(filled, 14);
    let f = |a: (Seq<char>, u128, Seq<char>, Seq<char>, Seq<char>, Seq<char>)| set_counts_sql(a.0, a.1, a.2, a.3, a.4, a.5);
    let g = |a: (Seq<char>, u128, Seq<char>, Seq<char>, Seq<char>, Seq<char>)| seq![a.0, id_text(a.1), a.2, a.3, a.4, a.5];
    let pieces = seq![
        Piece::Text("SELECT * FROM ag_catalog.cypher('"@),
        Piece::Hole(0),
        Piece::Text("', $$\n  MATCH (n:Belief {id: '"@),
        Piece::Hole(1),
        Piece::Text("'})\n  SET n.alpha = "@),
        Piece::Hole(2),
        Piece::Text(", n.beta = "@),
        Piece::Hole(3),
        Piece::Text(", n.probability = "@),
        Piece::Hole(4),
        Piece::Text(", n.confidence = "@),
        Piece::Hole(5),
        Piece::Text("\n  RETURN n.id\n$$) AS (id ag_catalog.agtype)"@),
    ];
    assert(pieces[1] == Piece::Hole(0));
    assert(pieces[3] == Piece::Hole(1));
    assert(pieces[5] == Piece::Hole(2));
    assert(pieces[7] == Piece::Hole(3));
    assert(pieces[9] == Piece::Hole(4));
    assert(pieces[11] == Piece::Hole(5));
    assert(fills_in(f, g, 6, pieces));
}

/// Counts the vertices of a label: the statement is this text with its arguments
/// filled in.
pub proof fn law_count_vertices_fills_in_its_arguments()
    ensures
        fills_in(
            |a: (Seq<char>, VertexLabel)| count_vertices_sql(a.0, a.1),
            |a: (Seq<char>, VertexLabel)| seq![a.0, a.1.name()],
            2,
            seq![
                Piece::Text("SELECT n::text\nFROM ag_catalog.cypher('"@),
                Piece::Hole(0),
                Piece::Text("', $$\n  MATCH (n:"@),
                Piece::Hole(1),
                Piece::Text(")\n  RETURN count(*) AS n\n$$) AS (n ag_catalog.agtype)"@),
            ],
        ),
{
    reveal_with_fuel(filled, 6);
    let f = |a: (Seq<char>, VertexLabel)| count_vertices_sql(a.0, a.1);
    let g = |a: (Seq<char>, VertexLabel)| seq![a.0, a.1.name()];
    let pieces = seq![
        Piece::Text("SELECT n::text\nFROM ag_catalog.cypher('"@),
        Piece::Hole(0),
        Piece::Text("', $$\n  MATCH (n:"@),
        Piece::Hole(1),
        Piece::Text(")\n  RETURN count(*) AS n\n$$) AS (n ag_catalog.agtype)"@),
    ];
    assert(pieces[1] == Piece::Hole(0));
    assert(pieces[3] == Piece::Hole(1));
    assert(fills_in(f, g, 2, pieces));
}

/// Counts the edges of a label: the statement is this text with its arguments
/// filled in.
pub proof fn law_count_edges_by_label_fills_in_its_arguments()
    ensures
        fills_in(
            |a: (Seq<char>, EdgeLabel)| count_edges_by_label_sql(a.0, a.1),
            |a: (Seq<char>, EdgeLabel)| seq![a.0, a.1.name()],
            2,
            seq![
                Piece::Text("SELECT n::text\nFROM ag_catalog.cypher('"@),
                Piece::Hole(0),
                Piece::Text("', $$\n  MATCH ()-[:"@),
                Piece::Hole(1),
                Piece::Text("]->()\n  RETURN count(*) AS n\n$$) AS (n ag_catalog.agtype)"@),
            ],
        ),
{
    reveal_with_fuel(filled, 6);
    let f = |a: (Seq<char>, EdgeLabel)| count_edges_by_label_sql(a.0, a.1);
    let g = |a: (Seq<char>, EdgeLabel)| seq![a.0, a.1.name()];
    let pieces = seq![
        Piece::Text("SELECT n::text\nFROM ag_catalog.cypher('"@),
        Piece::Hole(0),
        Piece::Text("', $$\n  MATCH ()-[:"@),
        Piece::Hole(1),
        Piece::Text("]->()\n  RETURN count(*) AS n\n$$) AS (n ag_catalog.agtype)"@),
    ];
    assert(pieces[1] == Piece::Hole(0));
    assert(pieces[3] == Piece::Hole(1));
    assert(fills_in(f, g, 2, pieces));
}

/// Fetches every defeat with the time of its defeater: the statement is this text with its
/// arguments filled in.
pub proof fn law_get_defeats_with_timestamps_fills_in_its_arguments()
    ensures
        fills_in(
            |a: Seq<char>| get_defeats_with_timestamps_sql(a),
            |a: Seq<char>| seq![a],
            1,
            seq![
                Piece::Text("SELECT defeater_id::text, defeated_id::text, defeater_created_at::text\nFROM ag_catalog.cypher('"@),
                Piece::Hole(0),
                Piece::Text("', $$\n  MATCH (a:Belief)-[:DEFEATS]->(b:Belief)\n  RETURN a.id, b.id, a.created_at\n$$) AS (defeater_id ag_catalog.agtype, defeated_id ag_catalog.agtype, defeater_created_at ag_catalog.agtype)"@),
            ],
        ),
{
    reveal_with_fuel(filled, 4);
    let f = |a: Seq<char>| get_defeats_with_timestamps_sql(a);
    let g = |a: Seq<char>| seq![a];
    let pieces = seq![
        Piece::Text("SELECT defeater_id::text, defeated_id::text, defeater_created_at::text\nFROM ag_catalog.cypher('"@),
        Piece::Hole(0),
        Piece::Text("', $$\n  MATCH (a:Belief)-[:DEFEATS]->(b:Belief)\n  RETURN a.id, b.id, a.created_at\n$$) AS (defeater_id ag_catalog.agtype, defeated_id ag_catalog.agtype, defeater_created_at ag_catalog.agtype)"@),
    ];
    assert(pieces[1] == Piece::Hole(0));
    assert(fills_in(f, g, 1, pieces));
}

/// Fetches one pattern: the statement is this text with its arguments
/// filled in.
pub proof fn law_get_pattern_fills_in_its_arguments()
    ensures
        fills_in(
            |a: (Seq<char>, u128)| get_pattern_sql(a.0, a.1),
            |a: (Seq<char>, u128)| seq![a.0, id_text(a.1)],
            2,
            seq![
                Piece::Text(PATTERN_SELECT@),
                Piece::Hole(0),
                Piece::Text("', $$\n  MATCH (p:Pattern {id: '"@),
                Piece::Hole(1),
                Piece::Text("'})\n  RETURN "@),
                Piece::Text(PATTERN_RETURN@),
                Piece::Text("\n$$) "@),
                Piece::Text(PATTERN_RETURN_COLUMNS@),
            ],
        ),
{
    reveal_with_fuel(filled, 9);
    let f = |a: (Seq<char>, u128)| get_pattern_sql(a.0, a.1);
    let g = |a: (Seq<char>, u128)| seq![a.0, id_text(a.1)];
    let pieces = seq![
        Piece::Text(PATTERN_SELECT@),
        Piece::Hole(0),
        Piece::Text("', $$\n  MATCH (p:Pattern {id: '"@),
        Piece::Hole(1),
        Piece::Text("'})\n  RETURN "@),
        Piece::Text(PATTERN_RETURN@),
        Piece::Text("\n$$) "@),
        Piece::Text(PATTERN_RETURN_COLUMNS@),
    ];
    assert(pieces[1] == Piece::Hole(0));
    assert(pieces[3] == Piece::Hole(1));
    assert(fills_in(f, g, 2, pieces));
}

/// Deletes a pattern with its edges: the statement is this text with its arguments
/// filled in.
pub proof fn law_delete_pattern_fills_in_its_arguments()
    ensures
        fills_in(
            |a: (Seq<char>, u128)| delete_pattern_sql(a.0, a.1),
            |a: (Seq<char>, u128)| seq![a.0, id_text(a.1)],
            2,
            seq![
                Piece::Text("SELECT * FROM ag_catalog.cypher('"@),
                Piece::Hole(0),
                Piece::Text("', $$\n  MATCH (p:Pattern {id: '"@),
                Piece::Hole(1),
                Piece::Text("'})\n  DETACH DELETE p\n  RETURN 1\n$$) AS (ok ag_catalog.agtype)"@),
            ],
        ),
{
    reveal_with_fuel(filled, 6);
    let f = |a: (Seq<char>, u128)| delete_pattern_sql(a.0, a.1);
    let g = |a: (Seq<char>, u128)| seq![a.0, id_text(a.1)];
    let pieces = seq![
        Piece::Text("SELECT * FROM ag_catalog.cypher('"@),
        Piece::Hole(0),
        Piece::Text("', $$\n  MATCH (p:Pattern {id: '"@),
        Piece::Hole(1),
        Piece::Text("'})\n  DETACH DELETE p\n  RETURN 1\n$$) AS (ok ag_catalog.agtype)"@),
    ];
    assert(pieces[1] == Piece::Hole(0));
    assert(pieces[3] == Piece::Hole(1));
    assert(fills_in(f, g, 2, pieces));
}

/// Fetches all patterns: the statement is this text with its arguments
/// filled in.
pub proof fn law_list_patterns_fills_in_its_arguments()
    ensures
        fills_in(
            |a: Seq<char>| list_patterns_sql(a),
            |a: Seq<char>| seq![a],
            1,
            seq![
                Piece::Text(PATTERN_SELECT@),
                Piece::Hole(0),
                Piece::Text("', $$\n  MATCH (p:Pattern)\n  RETURN "@),
                Piece::Text(PATTERN_RETURN@),
                Piece::Text("\n$$) "@),
                Piece::Text(PATTERN_RETURN_COLUMNS@),
            ],
        ),
{
    reveal_with_fuel(filled, 7);
    let f = |a: Seq<char>| list_patterns_sql(a);
    let g = |a: Seq<char>| seq![a];
    let pieces = seq![
        Piece::Text(PATTERN_SELECT@),
        Piece::Hole(0),
        Piece::Text("', $$\n  MATCH (p:Pattern)\n  RETURN "@),
        Piece::Text(PATTERN_RETURN@),
        Piece::Text("\n$$) "@),
        Piece::Text(PATTERN_RETURN_COLUMNS@),
    ];
    assert(pieces[1] == Piece::Hole(0));
    assert(fills_in(f, g, 1, pieces));
}

/// Inserts an edge of the given weight: the statement is this text with its arguments
/// filled in.
pub proof fn law_insert_edge_fills_in_its_arguments()
    ensures
        fills_in(
            |a: (Seq<char>, u128, u128, EdgeType, Seq<char>)| insert_edge_sql(a.0, a.1, a.2, a.3, a.4),
            |a: (Seq<char>, u128, u128, EdgeType, Seq<char>)| seq![a.0, id_text(a.1), id_text(a.2), a.3.name(), a.4],
            5,
            seq![
                Piece::Text("SELECT * FROM ag_catalog.cypher('"@),
                Piece::Hole(0),
                Piece::Text("', $$\n  MATCH (a:Belief {id: '"@),
                Piece::Hole(1),
                Piece::Text("'}), (b:Belief {id: '"@),
                Piece::Hole(2),
                Piece::Text("'})\n  CREATE (a)-[r:"@),
                Piece::Hole(3),
                Piece::Text(" {weight: "@),
                Piece::Hole(4),
                Piece::Text("}]->(b)\n  RETURN r.weight\n$$) AS (weight ag_catalog.agtype)"@),
            ],
        ),
{
    reveal_with_fuel(filled, 12);
    let f = |a: (Seq<char>, u128, u128, EdgeType, Seq<char>)| insert_edge_sql(a.0, a.1, a.2, a.3, a.4);
    let g = |a: (Seq<char>, u128, u128, EdgeType, Seq<char>)| seq![a.0, id_text(a.1), id_text(a.2), a.3.name(), a.4];
    let pieces = seq![
        Piece::Text("SELECT * FROM ag_catalog.cypher('"@),
        Piece::Hole(0),
        Piece::Text("', $$\n  MATCH (a:Belief {id: '"@),
        Piece::Hole(1),
        Piece::Text("'}), (b:Belief {id: '"@),
        Piece::Hole(2),
        Piece::Text("'})\n  CREATE (a)-[r:"@),
        Piece::Hole(3),
        Piece::Text(" {weight: "@),
        Piece::Hole(4),
        Piece::Text("}]->(b)\n  RETURN r.weight\n$$) AS (weight ag_catalog.agtype)"@),
    ];
    assert(pieces[1] == Piece::Hole(0));
    assert(pieces[3] == Piece::Hole(1));
    assert(pieces[5] == Piece::Hole(2));
    assert(pieces[7] == Piece::Hole(3));
    assert(pieces[9] == Piece::Hole(4));
    assert(fills_in(f, g, 5, pieces));
}

/// Inserts a contradiction, in both directions: the statement is this text with its
/// arguments filled in.
pub proof fn law_insert_contradicts_fills_in_its_arguments()
    ensures
        fills_in(
            |a: (Seq<char>, u128, u128, Seq<char>)| insert_contradicts_sql(a.0, a.1, a.2, a.3),
            |a: (Seq<char>, u128, u128, Seq<char>)| seq![a.0, id_text(a.1), id_text(a.2), a.3],
            4,
            seq![
                Piece::Text("SELECT * FROM ag_catalog.cypher('"@),
                Piece::Hole(0),
                Piece::Text("', $$\n  MATCH (a:Belief {id: '"@),
                Piece::Hole(1),
                Piece::Text("'}), (b:Belief {id: '"@),
                Piece::Hole(2),
                Piece::Text("'})\n  CREATE (a)-[r1:CONTRADICTS {weight: "@),
                Piece::Hole(3),
                Piece::Text("}]->(b)\n  CREATE (b)-[r2:CONTRADICTS {weight: "@),
                Piece::Hole(3),
                Piece::Text("}]->(a)\n  RETURN r1.weight\n$$) AS (weight ag_catalog.agtype)"@),
            ],
        ),
{
    reveal_with_fuel(filled, 12);
    let f = |a: (Seq<char>, u128, u128, Seq<char>)| insert_contradicts_sql(a.0, a.1, a.2, a.3);
    let g = |a: (Seq<char>, u128, u128, Seq<char>)| seq![a.0, id_text(a.1), id_text(a.2), a.3];
    let pieces = seq![
        Piece::Text("SELECT * FROM ag_catalog.cypher('"@),
        Piece::Hole(0),
        Piece::Text("', $$\n  MATCH (a:Belief {id: '"@),
        Piece::Hole(1),
        Piece::Text("'}), (b:Belief {id: '"@),
        Piece::Hole(2),
        Piece::Text("'})\n  CREATE (a)-[r1:CONTRADICTS {weight: "@),
        Piece::Hole(3),
        Piece::Text("}]->(b)\n  CREATE (b)-[r2:CONTRADICTS {weight: "@),
        Piece::Hole(3),
        Piece::Text("}]->(a)\n  RETURN r1.weight\n$$) AS (weight ag_catalog.agtype)"@),
    ];
    assert(pieces[1] == Piece::Hole(0));
    assert(pieces[3] == Piece::Hole(1));
    assert(pieces[5] == Piece::Hole(2));
    assert(pieces[7] == Piece::Hole(3));
    assert(fills_in(f, g, 4, pieces));
}

/// Fetches the pairs that a contradicting edge connects: the statement is this text with
/// its arguments filled in.
pub proof fn law_get_contradiction_pairs_fills_in_its_arguments()
    ensures
        fills_in(
            |a: Seq<char>| get_contradiction_pairs_sql(a),
            |a: Seq<char>| seq![a],
            1,
            seq![
                Piece::Text("SELECT from_id::text, to_id::text\nFROM ag_catalog.cypher('"@),
                Piece::Hole(0),
                Piece::Text("', $$\n  MATCH (a:Belief)-[:CONTRADICTS]->(b:Belief)\n  RETURN a.id, b.id\n$$) AS (from_id ag_catalog.agtype, to_id ag_catalog.agtype)"@),
            ],
        ),
{
    reveal_with_fuel(filled, 4);
    let f = |a: Seq<char>| get_contradiction_pairs_sql(a);
    let g = |a: Seq<char>| seq![a];
    let pieces = seq![
        Piece::Text("SELECT from_id::text, to_id::text\nFROM ag_catalog.cypher('"@),
        Piece::Hole(0),
        Piece::Text("', $$\n  MATCH (a:Belief)-[:CONTRADICTS]->(b:Belief)\n  RETURN a.id, b.id\n$$) AS (from_id ag_catalog.agtype, to_id ag_catalog.agtype)"@),
    ];
    assert(pieces[1] == Piece::Hole(0));
    assert(fills_in(f, g, 1, pieces));
}

/// Fetches the edges between any two of the given beliefs: the statement is this text with
/// its arguments filled in.
pub proof fn law_get_edges_among_fills_in_its_arguments()
    ensures
        fills_in(
            |a: (Seq<char>, Seq<u128>)| get_edges_among_sql(a.0, a.1),
            |a: (Seq<char>, Seq<u128>)| seq![a.0, id_list(a.1)],
            2,
            seq![
                Piece::Text("SELECT from_id::text, to_id::text, label::text, weight::text\nFROM ag_catalog.cypher('"@),
                Piece::Hole(0),
                Piece::Text("', $$\n  MATCH (a:Belief)-[r]->(b:Belief)\n  WHERE a.id IN ["@),
                Piece::Hole(1),
                Piece::Text("]\n  AND   b.id IN ["@),
                Piece::Hole(1),
                Piece::Text("]\n  RETURN a.id, b.id, type(r), r.weight\n$$) AS (from_id ag_catalog.agtype, to_id ag_catalog.agtype, label ag_catalog.agtype, weight ag_catalog.agtype)"@),
            ],
        ),
{
    reveal_with_fuel(filled, 8);
    let f = |a: (Seq<char>, Seq<u128>)| get_edges_among_sql(a.0, a.1);
    let g = |a: (Seq<char>, Seq<u128>)| seq![a.0, id_list(a.1)];
    let pieces = seq![
        Piece::Text("SELECT from_id::text, to_id::text, label::text, weight::text\nFROM ag_catalog.cypher('"@),
        Piece::Hole(0),
        Piece::Text("', $$\n  MATCH (a:Belief)-[r]->(b:Belief)\n  WHERE a.id IN ["@),
        Piece::Hole(1),
        Piece::Text("]\n  AND   b.id IN ["@),
        Piece::Hole(1),
        Piece::Text("]\n  RETURN a.id, b.id, type(r), r.weight\n$$) AS (from_id ag_catalog.agtype, to_id ag_catalog.agtype, label ag_catalog.agtype, weight ag_catalog.agtype)"@),
    ];
    assert(pieces[1] == Piece::Hole(0));
    assert(pieces[3] == Piece::Hole(1));
    assert(fills_in(f, g, 2, pieces));
}

/// Fetches the edges of propagation that lead into the given beliefs, with the counts of
/// their sources: the statement is this text with its arguments filled in.
pub proof fn law_get_incoming_edges_fills_in_its_arguments()
    ensures
        fills_in(
            |a: (Seq<char>, Seq<u128>)| get_incoming_edges_sql(a.0, a.1),
            |a: (Seq<char>, Seq<u128>)| seq![a.0, id_list(a.1)],
            2,
            seq![
                Piece::Text("SELECT from_id::text, to_id::text, label::text, weight::text, src_alpha::text, src_beta::text\nFROM ag_catalog.cypher('"@),
                Piece::Hole(0),
                Piece::Text("', $$\n  MATCH (a:Belief)-[r:SUPPORTS]->(b:Belief)\n  WHERE b.id IN ["@),
                Piece::Hole(1),
                Piece::Text("]\n  RETURN a.id, b.id, type(r), r.weight, a.alpha, a.beta\n  UNION ALL\n  MATCH (a:Belief)-[r:DEFEATS]->(b:Belief)\n  WHERE b.id IN ["@),
                Piece::Hole(1),
                Piece::Text("]\n  RETURN a.id, b.id, type(r), r.weight, a.alpha, a.beta\n  UNION ALL\n  MATCH (a:Belief)-[r:CAUSES]->(b:Belief)\n  WHERE b.id IN ["@),
                Piece::Hole(1),
                Piece::Text("]\n  RETURN a.id, b.id, type(r), r.weight, a.alpha, a.beta\n$$) AS (from_id ag_catalog.agtype, to_id ag_catalog.agtype, label ag_catalog.agtype, weight ag_catalog.agtype, src_alpha ag_catalog.agtype, src_beta ag_catalog.agtype)"@),
            ],
        ),
{
    reveal_with_fuel(filled, 10);
    let f = |a: (Seq<char>, Seq<u128>)| get_incoming_edges_sql(a.0, a.1);
    let g = |a: (Seq<char>, Seq<u128>)| seq![a.0, id_list(a.1)];
    let pieces = seq![
        Piece::Text("SELECT from_id::text, to_id::text, label::text, weight::text, src_alpha::text, src_beta::text\nFROM ag_catalog.cypher('"@),
        Piece::Hole(0),
        Piece::Text("', $$\n  MATCH (a:Belief)-[r:SUPPORTS]->(b:Belief)\n  WHERE b.id IN ["@),
        Piece::Hole(1),
        Piece::Text("]\n  RETURN a.id, b.id, type(r), r.weight, a.alpha, a.beta\n  UNION ALL\n  MATCH (a:Belief)-[r:DEFEATS]->(b:Belief)\n  WHERE b.id IN ["@),
        Piece::Hole(1),
        Piece::Text("]\n  RETURN a.id, b.id, type(r), r.weight, a.alpha, a.beta\n  UNION ALL\n  MATCH (a:Belief)-[r:CAUSES]->(b:Belief)\n  WHERE b.id IN ["@),
        Piece::Hole(1),
        Piece::Text("]\n  RETURN a.id, b.id, type(r), r.weight, a.alpha, a.beta\n$$) AS (from_id ag_catalog.agtype, to_id ag_catalog.agtype, label ag_catalog.agtype, weight ag_catalog.agtype, src_alpha ag_catalog.agtype, src_beta ag_catalog.agtype)"@),
    ];
    assert(pieces[1] == Piece::Hole(0));
    assert(pieces[3] == Piece::Hole(1));
    assert(fills_in(f, g, 2, pieces));
}

/// Connects a chunk with the chunk that contains it: the statement is this text with its
/// arguments filled in.
pub proof fn law_contain_chunk_fills_in_its_arguments()
    ensures
        fills_in(
            |a: (Seq<char>, u128, u128)| contain_chunk_sql(a.0, a.1, a.2),
            |a: (Seq<char>, u128, u128)| seq![a.0, id_text(a.1), id_text(a.2)],
            3,
            seq![
                Piece::Text("SELECT * FROM ag_catalog.cypher('"@),
                Piece::Hole(0),
                Piece::Text("', $$\n  MATCH (p:DocumentChunk {id: '"@),
                Piece::Hole(1),
                Piece::Text("'}), (c:DocumentChunk {id: '"@),
                Piece::Hole(2),
                Piece::Text("'})\n  CREATE (p)-[:CONTAINS]->(c)\n  RETURN 1\n$$) AS (ok ag_catalog.agtype)"@),
            ],
        ),
{
    reveal_with_fuel(filled, 8);
    let f = |a: (Seq<char>, u128, u128)| contain_chunk_sql(a.0, a.1, a.2);
    let g = |a: (Seq<char>, u128, u128)| seq![a.0, id_text(a.1), id_text(a.2)];
    let pieces = seq![
        Piece::Text("SELECT * FROM ag_catalog.cypher('"@),
        Piece::Hole(0),
        Piece::Text("', $$\n  MATCH (p:DocumentChunk {id: '"@),
        Piece::Hole(1),
        Piece::Text("'}), (c:DocumentChunk {id: '"@),
        Piece::Hole(2),
        Piece::Text("'})\n  CREATE (p)-[:CONTAINS]->(c)\n  RETURN 1\n$$) AS (ok ag_catalog.agtype)"@),
    ];
    assert(pieces[1] == Piece::Hole(0));
    assert(pieces[3] == Piece::Hole(1));
    assert(pieces[5] == Piece::Hole(2));
    assert(fills_in(f, g, 3, pieces));
}

/// Deletes chunks with their edges: the statement is this text with its arguments
/// filled in.
pub proof fn law_delete_document_chunks_fills_in_its_arguments()
    ensures
        fills_in(
            |a: (Seq<char>, Seq<u128>)| delete_document_chunks_sql(a.0, a.1),
            |a: (Seq<char>, Seq<u128>)| seq![a.0, id_list(a.1)],
            2,
            seq![
                Piece::Text("SELECT * FROM ag_catalog.cypher('"@),
                Piece::Hole(0),
                Piece::Text("', $$\n  MATCH (c:DocumentChunk) WHERE c.id IN ["@),
                Piece::Hole(1),
                Piece::Text("]\n  DETACH DELETE c\n  RETURN 1\n$$) AS (ok ag_catalog.agtype)"@),
            ],
        ),
{
    reveal_with_fuel(filled, 6);
    let f = |a: (Seq<char>, Seq<u128>)| delete_document_chunks_sql(a.0, a.1);
    let g = |a: (Seq<char>, Seq<u128>)| seq![a.0, id_list(a.1)];
    let pieces = seq![
        Piece::Text("SELECT * FROM ag_catalog.cypher('"@),
        Piece::Hole(0),
        Piece::Text("', $$\n  MATCH (c:DocumentChunk) WHERE c.id IN ["@),
        Piece::Hole(1),
        Piece::Text("]\n  DETACH DELETE c\n  RETURN 1\n$$) AS (ok ag_catalog.agtype)"@),
    ];
    assert(pieces[1] == Piece::Hole(0));
    assert(pieces[3] == Piece::Hole(1));
    assert(fills_in(f, g, 2, pieces));
}

/// Lists chunks by falling similarity to a vector: the statement is this text with its
/// arguments filled in.
pub proof fn law_query_chunks_by_vector_fills_in_its_arguments()
    ensures
        fills_in(
            |a: usize| query_chunks_by_vector_sql(a),
            |a: usize| seq![limit_text(a)],
            1,
            seq![
                Piece::Text("SELECT chunk_id::text FROM public.chunk_embeddings ORDER BY embedding <=> $1 "@),
                Piece::Hole(0),
            ],
        ),
{
    reveal_with_fuel(filled, 3);
    let f = |a: usize| query_chunks_by_vector_sql(a);
    let g = |a: usize| seq![limit_text(a)];
    let pieces = seq![
        Piece::Text("SELECT chunk_id::text FROM public.chunk_embeddings ORDER BY embedding <=> $1 "@),
        Piece::Hole(0),
    ];
    assert(pieces[1] == Piece::Hole(0));
    assert(fills_in(f, g, 1, pieces));
}

/// Lists some chunks by falling similarity to a vector: the statement is this text with its
/// arguments filled in.
pub proof fn law_query_chunks_by_vector_filtered_fills_in_its_arguments()
    ensures
        fills_in(
            |a: usize| query_chunks_by_vector_filtered_sql(a),
            |a: usize| seq![limit_text(a)],
            1,
            seq![
                Piece::Text("SELECT chunk_id::text FROM public.chunk_embeddings WHERE chunk_id = ANY($2) ORDER BY embedding <=> $1 "@),
                Piece::Hole(0),
            ],
        ),
{
    reveal_with_fuel(filled, 3);
    let f = |a: usize| query_chunks_by_vector_filtered_sql(a);
    let g = |a: usize| seq![limit_text(a)];
    let pieces = seq![
        Piece::Text("SELECT chunk_id::text FROM public.chunk_embeddings WHERE chunk_id = ANY($2) ORDER BY embedding <=> $1 "@),
        Piece::Hole(0),
    ];
    assert(pieces[1] == Piece::Hole(0));
    assert(fills_in(f, g, 1, pieces));
}

/// Lists beliefs by falling similarity to a vector: the statement is this text with its
/// arguments filled in.
pub proof fn law_query_beliefs_by_vector_fills_in_its_arguments()
    ensures
        fills_in(
            |a: usize| query_beliefs_by_vector_sql(a),
            |a: usize| seq![limit_text(a)],
            1,
            seq![
                Piece::Text("SELECT belief_id::text FROM public.belief_embeddings ORDER BY embedding <=> $1 "@),
                Piece::Hole(0),
            ],
        ),
{
    reveal_with_fuel(filled, 3);
    let f = |a: usize| query_beliefs_by_vector_sql(a);
    let g = |a: usize| seq![limit_text(a)];
    let pieces = seq![
        Piece::Text("SELECT belief_id::text FROM public.belief_embeddings ORDER BY embedding <=> $1 "@),
        Piece::Hole(0),
    ];
    assert(pieces[1] == Piece::Hole(0));
    assert(fills_in(f, g, 1, pieces));
}

/// Lists some beliefs by falling similarity to a vector: the statement is this text with
/// its arguments filled in.
pub proof fn law_query_beliefs_by_vector_filtered_fills_in_its_arguments()
    ensures
        fills_in(
            |a: usize| query_beliefs_by_vector_filtered_sql(a),
            |a: usize| seq![limit_text(a)],
            1,
            seq![
                Piece::Text("SELECT belief_id::text FROM public.belief_embeddings WHERE belief_id = ANY($2) ORDER BY embedding <=> $1 "@),
                Piece::Hole(0),
            ],
        ),
{
    reveal_with_fuel(filled, 3);
    let f = |a: usize| query_beliefs_by_vector_filtered_sql(a);
    let g = |a: usize| seq![limit_text(a)];
    let pieces = seq![
        Piece::Text("SELECT belief_id::text FROM public.belief_embeddings WHERE belief_id = ANY($2) ORDER BY embedding <=> $1 "@),
        Piece::Hole(0),
    ];
    assert(pieces[1] == Piece::Hole(0));
    assert(fills_in(f, g, 1, pieces));
}

/// Lists chunks by falling similarity to a vector, with the similarity: the statement is
/// this text with its arguments filled in.
pub proof fn law_query_chunks_by_vector_scored_fills_in_its_arguments()
    ensures
        fills_in(
            |a: usize| query_chunks_by_vector_scored_sql(a),
            |a: usize| seq![limit_text(a)],
            1,
            seq![
                Piece::Text("SELECT chunk_id::text, 1.0 - (embedding <=> $1) AS similarity FROM public.chunk_embeddings ORDER BY embedding <=> $1 "@),
                Piece::Hole(0),
            ],
        ),
{
    reveal_with_fuel(filled, 3);
    let f = |a: usize| query_chunks_by_vector_scored_sql(a);
    let g = |a: usize| seq![limit_text(a)];
    let pieces = seq![
        Piece::Text("SELECT chunk_id::text, 1.0 - (embedding <=> $1) AS similarity FROM public.chunk_embeddings ORDER BY embedding <=> $1 "@),
        Piece::Hole(0),
    ];
    assert(pieces[1] == Piece::Hole(0));
    assert(fills_in(f, g, 1, pieces));
}

/// Lists some chunks by falling similarity to a vector, with the similarity: the statement
/// is this text with its arguments filled in.
pub proof fn law_query_chunks_by_vector_scored_filtered_fills_in_its_arguments()
    ensures
        fills_in(
            |a: usize| query_chunks_by_vector_scored_filtered_sql(a),
            |a: usize| seq![limit_text(a)],
            1,
            seq![
                Piece::Text("SELECT chunk_id::text, 1.0 - (embedding <=> $1) AS similarity FROM public.chunk_embeddings WHERE chunk_id = ANY($2) ORDER BY embedding <=> $1 "@),
                Piece::Hole(0),
            ],
        ),
{
    reveal_with_fuel(filled, 3);
    let f = |a: usize| query_chunks_by_vector_scored_filtered_sql(a);
    let g = |a: usize| seq![limit_text(a)];
    let pieces = seq![
        Piece::Text("SELECT chunk_id::text, 1.0 - (embedding <=> $1) AS similarity FROM public.chunk_embeddings WHERE chunk_id = ANY($2) ORDER BY embedding <=> $1 "@),
        Piece::Hole(0),
    ];
    assert(pieces[1] == Piece::Hole(0));
    assert(fills_in(f, g, 1, pieces));
}

/// Lists beliefs by falling similarity to a vector, with the similarity: the statement is
/// this text with its arguments filled in.
pub proof fn law_query_beliefs_by_vector_scored_fills_in_its_arguments()
    ensures
        fills_in(
            |a: usize| query_beliefs_by_vector_scored_sql(a),
            |a: usize| seq![limit_text(a)],
            1,
            seq![
                Piece::Text("SELECT belief_id::text, 1.0 - (embedding <=> $1) AS similarity FROM public.belief_embeddings ORDER BY embedding <=> $1 "@),
                Piece::Hole(0),
            ],
        ),
{
    reveal_with_fuel(filled, 3);
    let f = |a: usize| query_beliefs_by_vector_scored_sql(a);
    let g = |a: usize| seq![limit_text(a)];
    let pieces = seq![
        Piece::Text("SELECT belief_id::text, 1.0 - (embedding <=> $1) AS similarity FROM public.belief_embeddings ORDER BY embedding <=> $1 "@),
        Piece::Hole(0),
    ];
    assert(pieces[1] == Piece::Hole(0));
    assert(fills_in(f, g, 1, pieces));
}

/// Fetches one chunk: the statement is this text with its arguments
/// filled in.
pub proof fn law_get_chunk_by_id_fills_in_its_arguments()
    ensures
        fills_in(
            |a: (Seq<char>, u128)| get_chunk_by_id_sql(a.0, a.1),
            |a: (Seq<char>, u128)| seq![a.0, id_text(a.1)],
            2,
            seq![
                Piece::Text("SELECT\n  id::text,\n  document_path,\n  section_path,\n  content::text,\n  parent_id,\n  project::text\nFROM ag_catalog.cypher('"@),
                Piece::Hole(0),
                Piece::Text("', $$\n  MATCH (c:DocumentChunk {id: '"@),
                Piece::Hole(1),
                Piece::Text("'})\n  RETURN c.id, c.documentPath, c.sectionPath, c.content, c.parentId, c.project\n$$) "@),
                Piece::Text(CHUNK_RETURN_COLUMNS@),
            ],
        ),
{
    reveal_with_fuel(filled, 7);
    let f = |a: (Seq<char>, u128)| get_chunk_by_id_sql(a.0, a.1);
    let g = |a: (Seq<char>, u128)| seq![a.0, id_text(a.1)];
    let pieces = seq![
        Piece::Text("SELECT\n  id::text,\n  document_path,\n  section_path,\n  content::text,\n  parent_id,\n  project::text\nFROM ag_catalog.cypher('"@),
        Piece::Hole(0),
        Piece::Text("', $$\n  MATCH (c:DocumentChunk {id: '"@),
        Piece::Hole(1),
        Piece::Text("'})\n  RETURN c.id, c.documentPath, c.sectionPath, c.content, c.parentId, c.project\n$$) "@),
        Piece::Text(CHUNK_RETURN_COLUMNS@),
    ];
    assert(pieces[1] == Piece::Hole(0));
    assert(pieces[3] == Piece::Hole(1));
    assert(fills_in(f, g, 2, pieces));
}

/// Lets a chunk ground a belief with the given weight: the statement is this text with its
/// arguments filled in.
pub proof fn law_insert_evidence_fills_in_its_arguments()
    ensures
        fills_in(
            |a: (Seq<char>, u128, u128, Seq<char>)| insert_evidence_sql(a.0, a.1, a.2, a.3),
            |a: (Seq<char>, u128, u128, Seq<char>)| seq![a.0, id_text(a.1), id_text(a.2), a.3],
            4,
            seq![
                Piece::Text("SELECT * FROM ag_catalog.cypher('"@),
                Piece::Hole(0),
                Piece::Text("', $$\n  MATCH (c:DocumentChunk {id: '"@),
                Piece::Hole(1),
                Piece::Text("'}), (b:Belief {id: '"@),
                Piece::Hole(2),
                Piece::Text("'})\n  CREATE (c)-[r:GROUNDS {weight: "@),
                Piece::Hole(3),
                Piece::Text("}]->(b)\n  RETURN r.weight\n$$) AS (weight ag_catalog.agtype)"@),
            ],
        ),
{
    reveal_with_fuel(filled, 10);
    let f = |a: (Seq<char>, u128, u128, Seq<char>)| insert_evidence_sql(a.0, a.1, a.2, a.3);
    let g = |a: (Seq<char>, u128, u128, Seq<char>)| seq![a.0, id_text(a.1), id_text(a.2), a.3];
    let pieces = seq![
        Piece::Text("SELECT * FROM ag_catalog.cypher('"@),
        Piece::Hole(0),
        Piece::Text("', $$\n  MATCH (c:DocumentChunk {id: '"@),
        Piece::Hole(1),
        Piece::Text("'}), (b:Belief {id: '"@),
        Piece::Hole(2),
        Piece::Text("'})\n  CREATE (c)-[r:GROUNDS {weight: "@),
        Piece::Hole(3),
        Piece::Text("}]->(b)\n  RETURN r.weight\n$$) AS (weight ag_catalog.agtype)"@),
    ];
    assert(pieces[1] == Piece::Hole(0));
    assert(pieces[3] == Piece::Hole(1));
    assert(pieces[5] == Piece::Hole(2));
    assert(pieces[7] == Piece::Hole(3));
    assert(fills_in(f, g, 4, pieces));
}

/// Fetches, for each grounded belief, the sum of the weights: the statement is this text
/// with its arguments filled in.
pub proof fn law_get_grounding_mass_all_fills_in_its_arguments()
    ensures
        fills_in(
            |a: Seq<char>| get_grounding_mass_all_sql(a),
            |a: Seq<char>| seq![a],
            1,
            seq![
                Piece::Text("SELECT belief_id::text, total_weight::text\nFROM ag_catalog.cypher('"@),
                Piece::Hole(0),
                Piece::Text("', $$\n  MATCH (c:DocumentChunk)-[r:GROUNDS]->(b:Belief)\n  RETURN b.id, sum(r.weight)\n$$) AS (belief_id ag_catalog.agtype, total_weight ag_catalog.agtype)"@),
            ],
        ),
{
    reveal_with_fuel(filled, 4);
    let f = |a: Seq<char>| get_grounding_mass_all_sql(a);
    let g = |a: Seq<char>| seq![a];
    let pieces = seq![
        Piece::Text("SELECT belief_id::text, total_weight::text\nFROM ag_catalog.cypher('"@),
        Piece::Hole(0),
        Piece::Text("', $$\n  MATCH (c:DocumentChunk)-[r:GROUNDS]->(b:Belief)\n  RETURN b.id, sum(r.weight)\n$$) AS (belief_id ag_catalog.agtype, total_weight ag_catalog.agtype)"@),
    ];
    assert(pieces[1] == Piece::Hole(0));
    assert(fills_in(f, g, 1, pieces));
}

/// Fetches the chunks that ground the given beliefs: the statement is this text with its
/// arguments filled in.
pub proof fn law_get_evidence_for_beliefs_fills_in_its_arguments()
    ensures
        fills_in(
            |a: (Seq<char>, Seq<u128>)| get_evidence_for_beliefs_sql(a.0, a.1),
            |a: (Seq<char>, Seq<u128>)| seq![a.0, id_list(a.1)],
            2,
            seq![
                Piece::Text("SELECT belief_id::text, chunk_id::text, weight::text\nFROM ag_catalog.cypher('"@),
                Piece::Hole(0),
                Piece::Text("', $$\n  MATCH (c:DocumentChunk)-[r:GROUNDS]->(b:Belief)\n  WHERE b.id IN ["@),
                Piece::Hole(1),
                Piece::Text("]\n  RETURN b.id, c.id, r.weight\n$$) AS (belief_id ag_catalog.agtype, chunk_id ag_catalog.agtype, weight ag_catalog.agtype)"@),
            ],
        ),
{
    reveal_with_fuel(filled, 6);
    let f = |a: (Seq<char>, Seq<u128>)| get_evidence_for_beliefs_sql(a.0, a.1);
    let g = |a: (Seq<char>, Seq<u128>)| seq![a.0, id_list(a.1)];
    let pieces = seq![
        Piece::Text("SELECT belief_id::text, chunk_id::text, weight::text\nFROM ag_catalog.cypher('"@),
        Piece::Hole(0),
        Piece::Text("', $$\n  MATCH (c:DocumentChunk)-[r:GROUNDS]->(b:Belief)\n  WHERE b.id IN ["@),
        Piece::Hole(1),
        Piece::Text("]\n  RETURN b.id, c.id, r.weight\n$$) AS (belief_id ag_catalog.agtype, chunk_id ag_catalog.agtype, weight ag_catalog.agtype)"@),
    ];
    assert(pieces[1] == Piece::Hole(0));
    assert(pieces[3] == Piece::Hole(1));
    assert(fills_in(f, g, 2, pieces));
}

/// Removes a ground of a belief: the statement is this text with its arguments
/// filled in.
pub proof fn law_delete_evidence_fills_in_its_arguments()
    ensures
        fills_in(
            |a: (Seq<char>, u128, u128)| delete_evidence_sql(a.0, a.1, a.2),
            |a: (Seq<char>, u128, u128)| seq![a.0, id_text(a.1), id_text(a.2)],
            3,
            seq![
                Piece::Text("SELECT * FROM ag_catalog.cypher('"@),
                Piece::Hole(0),
                Piece::Text("', $$\n  MATCH (c:DocumentChunk {id: '"@),
                Piece::Hole(1),
                Piece::Text("'})-[r:GROUNDS]->(b:Belief {id: '"@),
                Piece::Hole(2),
                Piece::Text("'})\n  DELETE r\n$$) AS (v ag_catalog.agtype)"@),
            ],
        ),
{
    reveal_with_fuel(filled, 8);
    let f = |a: (Seq<char>, u128, u128)| delete_evidence_sql(a.0, a.1, a.2);
    let g = |a: (Seq<char>, u128, u128)| seq![a.0, id_text(a.1), id_text(a.2)];
    let pieces = seq![
        Piece::Text("SELECT * FROM ag_catalog.cypher('"@),
        Piece::Hole(0),
        Piece::Text("', $$\n  MATCH (c:DocumentChunk {id: '"@),
        Piece::Hole(1),
        Piece::Text("'})-[r:GROUNDS]->(b:Belief {id: '"@),
        Piece::Hole(2),
        Piece::Text("'})\n  DELETE r\n$$) AS (v ag_catalog.agtype)"@),
    ];
    assert(pieces[1] == Piece::Hole(0));
    assert(pieces[3] == Piece::Hole(1));
    assert(pieces[5] == Piece::Hole(2));
    assert(fills_in(f, g, 3, pieces));
}

/// Fetches the beliefs that one supporting, causing or defeating edge leads to: the
/// statement is this text with its arguments filled in.
pub proof fn law_get_direct_downstream_fills_in_its_arguments()
    ensures
        fills_in(
            |a: (Seq<char>, u128)| get_direct_downstream_sql(a.0, a.1),
            |a: (Seq<char>, u128)| seq![a.0, id_text(a.1)],
            2,
            seq![
                Piece::Text(BELIEF_SELECT@),
                Piece::Hole(0),
                Piece::Text("', $$\n  MATCH (s:Belief {id: '"@),
                Piece::Hole(1),
                Piece::Text("'})-[:SUPPORTS]->(n:Belief)\n  RETURN "@),
                Piece::Text(BELIEF_RETURN@),
                Piece::Text("\n  UNION\n  MATCH (s:Belief {id: '"@),
                Piece::Hole(1),
                Piece::Text("'})-[:CAUSES]->(n:Belief)\n  RETURN "@),
                Piece::Text(BELIEF_RETURN@),
                Piece::Text("\n  UNION\n  MATCH (s:Belief {id: '"@),
                Piece::Hole(1),
                Piece::Text("'})-[:DEFEATS]->(n:Belief)\n  RETURN "@),
                Piece::Text(BELIEF_RETURN@),
                Piece::Text("\n$$) "@),
                Piece::Text(BELIEF_RETURN_COLUMNS@),
            ],
        ),
{
    reveal_with_fuel(filled, 17);
    let f = |a: (Seq<char>, u128)| get_direct_downstream_sql(a.0, a.1);
    let g = |a: (Seq<char>, u128)| seq![a.0, id_text(a.1)];
    let pieces = seq![
        Piece::Text(BELIEF_SELECT@),
        Piece::Hole(0),
        Piece::Text("', $$\n  MATCH (s:Belief {id: '"@),
        Piece::Hole(1),
        Piece::Text("'})-[:SUPPORTS]->(n:Belief)\n  RETURN "@),
        Piece::Text(BELIEF_RETURN@),
        Piece::Text("\n  UNION\n  MATCH (s:Belief {id: '"@),
        Piece::Hole(1),
        Piece::Text("'})-[:CAUSES]->(n:Belief)\n  RETURN "@),
        Piece::Text(BELIEF_RETURN@),
        Piece::Text("\n  UNION\n  MATCH (s:Belief {id: '"@),
        Piece::Hole(1),
        Piece::Text("'})-[:DEFEATS]->(n:Belief)\n  RETURN "@),
        Piece::Text(BELIEF_RETURN@),
        Piece::Text("\n$$) "@),
        Piece::Text(BELIEF_RETURN_COLUMNS@),
    ];
    assert(pieces[1] == Piece::Hole(0));
    assert(pieces[3] == Piece::Hole(1));
    assert(fills_in(f, g, 2, pieces));
}

/// Fetches the beliefs that one supporting or causing edge leads to: the statement is this
/// text with its arguments filled in.
pub proof fn law_get_related_beliefs_fills_in_its_arguments()
    ensures
        fills_in(
            |a: (Seq<char>, u128)| get_related_beliefs_sql(a.0, a.1),
            |a: (Seq<char>, u128)| seq![a.0, id_text(a.1)],
            2,
            seq![
                Piece::Text(BELIEF_SELECT@),
                Piece::Hole(0),
                Piece::Text("', $$\n  MATCH (s:Belief {id: '"@),
                Piece::Hole(1),
                Piece::Text("'})-[:SUPPORTS]->(n:Belief)\n  RETURN "@),
                Piece::Text(BELIEF_RETURN@),
                Piece::Text("\n  UNION\n  MATCH (s:Belief {id: '"@),
                Piece::Hole(1),
                Piece::Text("'})-[:CAUSES]->(n:Belief)\n  RETURN "@),
                Piece::Text(BELIEF_RETURN@),
                Piece::Text("\n$$) "@),
                Piece::Text(BELIEF_RETURN_COLUMNS@),
            ],
        ),
{
    reveal_with_fuel(filled, 13);
    let f = |a: (Seq<char>, u128)| get_related_beliefs_sql(a.0, a.1);
    let g = |a: (Seq<char>, u128)| seq![a.0, id_text(a.1)];
    let pieces = seq![
        Piece::Text(BELIEF_SELECT@),
        Piece::Hole(0),
        Piece::Text("', $$\n  MATCH (s:Belief {id: '"@),
        Piece::Hole(1),
        Piece::Text("'})-[:SUPPORTS]->(n:Belief)\n  RETURN "@),
        Piece::Text(BELIEF_RETURN@),
        Piece::Text("\n  UNION\n  MATCH (s:Belief {id: '"@),
        Piece::Hole(1),
        Piece::Text("'})-[:CAUSES]->(n:Belief)\n  RETURN "@),
        Piece::Text(BELIEF_RETURN@),
        Piece::Text("\n$$) "@),
        Piece::Text(BELIEF_RETURN_COLUMNS@),
    ];
    assert(pieces[1] == Piece::Hole(0));
    assert(pieces[3] == Piece::Hole(1));
    assert(fills_in(f, g, 2, pieces));
}

/// Fetches the beliefs that up to ten causing edges lead to: the statement is this text
/// with its arguments filled in.
pub proof fn law_get_causal_downstream_beliefs_fills_in_its_arguments()
    ensures
        fills_in(
            |a: (Seq<char>, u128)| get_causal_downstream_beliefs_sql(a.0, a.1),
            |a: (Seq<char>, u128)| seq![a.0, id_text(a.1)],
            2,
            seq![
                Piece::Text(BELIEF_SELECT@),
                Piece::Hole(0),
                Piece::Text("', $$\n  MATCH (s:Belief {id: '"@),
                Piece::Hole(1),
                Piece::Text("'})-[:CAUSES*1..10]->(n:Belief)\n  RETURN "@),
                Piece::Text(BELIEF_RETURN@),
                Piece::Text("\n$$) "@),
                Piece::Text(BELIEF_RETURN_COLUMNS@),
            ],
        ),
{
    reveal_with_fuel(filled, 9);
    let f = |a: (Seq<char>, u128)| get_causal_downstream_beliefs_sql(a.0, a.1);
    let g = |a: (Seq<char>, u128)| seq![a.0, id_text(a.1)];
    let pieces = seq![
        Piece::Text(BELIEF_SELECT@),
        Piece::Hole(0),
        Piece::Text("', $$\n  MATCH (s:Belief {id: '"@),
        Piece::Hole(1),
        Piece::Text("'})-[:CAUSES*1..10]->(n:Belief)\n  RETURN "@),
        Piece::Text(BELIEF_RETURN@),
        Piece::Text("\n$$) "@),
        Piece::Text(BELIEF_RETURN_COLUMNS@),
    ];
    assert(pieces[1] == Piece::Hole(0));
    assert(pieces[3] == Piece::Hole(1));
    assert(fills_in(f, g, 2, pieces));
}

/// Fetches the beliefs of a project and those of none. What is prepared is a fixed text;
/// texts of users stand in its parameter only, a JSON object with its quotes doubled; and
/// the statement that was prepared is deallocated.
pub proof fn law_list_beliefs_by_project_is_prepared_executed_and_deallocated()
    ensures
        fills_in(
            |a: (Seq<char>, Seq<char>, u128)| list_beliefs_by_project_call(a.0, a.1, a.2).prepare,
            |a: (Seq<char>, Seq<char>, u128)| seq!["age_list_beliefs_proj_"@ + simple_id_text(a.2), a.0],
            2,
            seq![
                Piece::Text("PREPARE "@),
                Piece::Hole(0),
                Piece::Text("(agtype) AS SELECT "@),
                Piece::Text(BELIEF_INLINE@),
                Piece::Text("FROM ag_catalog.cypher('"@),
                Piece::Hole(1),
                Piece::Text("', $$ MATCH (n:Belief) WHERE n.project = $project OR n.project IS NULL RETURN "@),
                Piece::Text(BELIEF_RETURN@),
                Piece::Text(" $$, $1) "@),
                Piece::Text(BELIEF_RETURN_COLUMNS@),
            ],
        ),
        fills_in(
            |a: (Seq<char>, Seq<char>, u128)| list_beliefs_by_project_call(a.0, a.1, a.2).execute,
            |a: (Seq<char>, Seq<char>, u128)| seq!["age_list_beliefs_proj_"@ + simple_id_text(a.2), sql_escaped("{\"project\": \""@ + json_escaped(a.1) + "\"}"@)],
            2,
            seq![
                Piece::Text("EXECUTE "@),
                Piece::Hole(0),
                Piece::Text("('"@),
                Piece::Hole(1),
                Piece::Text("')"@),
            ],
        ),
        fills_in(
            |a: (Seq<char>, Seq<char>, u128)| list_beliefs_by_project_call(a.0, a.1, a.2).deallocate,
            |a: (Seq<char>, Seq<char>, u128)| seq!["age_list_beliefs_proj_"@ + simple_id_text(a.2)],
            1,
            seq![
                Piece::Text("DEALLOCATE "@),
                Piece::Hole(0),
            ],
        ),
{
    reveal_with_fuel(filled, 11);
    let f_a = |a: (Seq<char>, Seq<char>, u128)| list_beliefs_by_project_call(a.0, a.1, a.2).prepare;
    let g_a = |a: (Seq<char>, Seq<char>, u128)| seq!["age_list_beliefs_proj_"@ + simple_id_text(a.2), a.0];
    let pieces_a = seq![
        Piece::Text("PREPARE "@),
        Piece::Hole(0),
        Piece::Text("(agtype) AS SELECT "@),
        Piece::Text(BELIEF_INLINE@),
        Piece::Text("FROM ag_catalog.cypher('"@),
        Piece::Hole(1),
        Piece::Text("', $$ MATCH (n:Belief) WHERE n.project = $project OR n.project IS NULL RETURN "@),
        Piece::Text(BELIEF_RETURN@),
        Piece::Text(" $$, $1) "@),
        Piece::Text(BELIEF_RETURN_COLUMNS@),
    ];
    assert(pieces_a[1] == Piece::Hole(0));
    assert(pieces_a[5] == Piece::Hole(1));
    assert(fills_in(f_a, g_a, 2, pieces_a));
    let f_b = |a: (Seq<char>, Seq<char>, u128)| list_beliefs_by_project_call(a.0, a.1, a.2).execute;
    let g_b = |a: (Seq<char>, Seq<char>, u128)| seq!["age_list_beliefs_proj_"@ + simple_id_text(a.2), sql_escaped("{\"project\": \""@ + json_escaped(a.1) + "\"}"@)];
    let pieces_b = seq![
        Piece::Text("EXECUTE "@),
        Piece::Hole(0),
        Piece::Text("('"@),
        Piece::Hole(1),
        Piece::Text("')"@),
    ];
    assert(pieces_b[1] == Piece::Hole(0));
    assert(pieces_b[3] == Piece::Hole(1));
    assert(fills_in(f_b, g_b, 2, pieces_b));
    let f_c = |a: (Seq<char>, Seq<char>, u128)| list_beliefs_by_project_call(a.0, a.1, a.2).deallocate;
    let g_c = |a: (Seq<char>, Seq<char>, u128)| seq!["age_list_beliefs_proj_"@ + simple_id_text(a.2)];
    let pieces_c = seq![
        Piece::Text("DEALLOCATE "@),
        Piece::Hole(0),
    ];
    assert(pieces_c[1] == Piece::Hole(0));
    assert(fills_in(f_c, g_c, 1, pieces_c));
}

/// Lists the identifiers of the beliefs of a project. What is prepared is a fixed text;
/// texts of users stand in its parameter only, a JSON object with its quotes doubled; and
/// the statement that was prepared is deallocated.
pub proof fn law_count_project_beliefs_is_prepared_executed_and_deallocated()
    ensures
        fills_in(
            |a: (Seq<char>, Seq<char>, u128)| count_project_beliefs_call(a.0, a.1, a.2).prepare,
            |a: (Seq<char>, Seq<char>, u128)| seq!["age_delproj_count_"@ + simple_id_text(a.2), a.0],
            2,
            seq![
                Piece::Text("PREPARE "@),
                Piece::Hole(0),
                Piece::Text("(agtype) AS SELECT id::text FROM ag_catalog.cypher('"@),
                Piece::Hole(1),
                Piece::Text("', $$ MATCH (n:Belief) WHERE n.project = $project RETURN n.id $$, $1) AS (id agtype)"@),
            ],
        ),
        fills_in(
            |a: (Seq<char>, Seq<char>, u128)| count_project_beliefs_call(a.0, a.1, a.2).execute,
            |a: (Seq<char>, Seq<char>, u128)| seq!["age_delproj_count_"@ + simple_id_text(a.2), sql_escaped("{\"project\": \""@ + json_escaped(a.1) + "\"}"@)],
            2,
            seq![
                Piece::Text("EXECUTE "@),
                Piece::Hole(0),
                Piece::Text("('"@),
                Piece::Hole(1),
                Piece::Text("')"@),
            ],
        ),
        fills_in(
            |a: (Seq<char>, Seq<char>, u128)| count_project_beliefs_call(a.0, a.1, a.2).deallocate,
            |a: (Seq<char>, Seq<char>, u128)| seq!["age_delproj_count_"@ + simple_id_text(a.2)],
            1,
            seq![
                Piece::Text("DEALLOCATE "@),
                Piece::Hole(0),
            ],
        ),
{
    reveal_with_fuel(filled, 6);
    let f_a = |a: (Seq<char>, Seq<char>, u128)| count_project_beliefs_call(a.0, a.1, a.2).prepare;
    let g_a = |a: (Seq<char>, Seq<char>, u128)| seq!["age_delproj_count_"@ + simple_id_text(a.2), a.0];
    let pieces_a = seq![
        Piece::Text("PREPARE "@),
        Piece::Hole(0),
        Piece::Text("(agtype) AS SELECT id::text FROM ag_catalog.cypher('"@),
        Piece::Hole(1),
        Piece::Text("', $$ MATCH (n:Belief) WHERE n.project = $project RETURN n.id $$, $1) AS (id agtype)"@),
    ];
    assert(pieces_a[1] == Piece::Hole(0));
    assert(pieces_a[3] == Piece::Hole(1));
    assert(fills_in(f_a, g_a, 2, pieces_a));
    let f_b = |a: (Seq<char>, Seq<char>, u128)| count_project_beliefs_call(a.0, a.1, a.2).execute;
    let g_b = |a: (Seq<char>, Seq<char>, u128)| seq!["age_delproj_count_"@ + simple_id_text(a.2), sql_escaped("{\"project\": \""@ + json_escaped(a.1) + "\"}"@)];
    let pieces_b = seq![
        Piece::Text("EXECUTE "@),
        Piece::Hole(0),
        Piece::Text("('"@),
        Piece::Hole(1),
        Piece::Text("')"@),
    ];
    assert(pieces_b[1] == Piece::Hole(0));
    assert(pieces_b[3] == Piece::Hole(1));
    assert(fills_in(f_b, g_b, 2, pieces_b));
    let f_c = |a: (Seq<char>, Seq<char>, u128)| count_project_beliefs_call(a.0, a.1, a.2).deallocate;
    let g_c = |a: (Seq<char>, Seq<char>, u128)| seq!["age_delproj_count_"@ + simple_id_text(a.2)];
    let pieces_c = seq![
        Piece::Text("DEALLOCATE "@),
        Piece::Hole(0),
    ];
    assert(pieces_c[1] == Piece::Hole(0));
    assert(fills_in(f_c, g_c, 1, pieces_c));
}

/// Deletes the beliefs of a project with their edges. What is prepared is a fixed text;
/// texts of users stand in its parameter only, a JSON object with its quotes doubled; and
/// the statement that was prepared is deallocated.
pub proof fn law_delete_project_beliefs_is_prepared_executed_and_deallocated()
    ensures
        fills_in(
            |a: (Seq<char>, Seq<char>, u128)| delete_project_beliefs_call(a.0, a.1, a.2).prepare,
            |a: (Seq<char>, Seq<char>, u128)| seq!["age_delproj_del_"@ + simple_id_text(a.2), a.0],
            2,
            seq![
                Piece::Text("PREPARE "@),
                Piece::Hole(0),
                Piece::Text("(agtype) AS SELECT * FROM ag_catalog.cypher('"@),
                Piece::Hole(1),
                Piece::Text("', $$ MATCH (n:Belief) WHERE n.project = $project DETACH DELETE n RETURN 1 $$, $1) AS (ok agtype)"@),
            ],
        ),
        fills_in(
            |a: (Seq<char>, Seq<char>, u128)| delete_project_beliefs_call(a.0, a.1, a.2).execute,
            |a: (Seq<char>, Seq<char>, u128)| seq!["age_delproj_del_"@ + simple_id_text(a.2), sql_escaped("{\"project\": \""@ + json_escaped(a.1) + "\"}"@)],
            2,
            seq![
                Piece::Text("EXECUTE "@),
                Piece::Hole(0),
                Piece::Text("('"@),
                Piece::Hole(1),
                Piece::Text("')"@),
            ],
        ),
        fills_in(
            |a: (Seq<char>, Seq<char>, u128)| delete_project_beliefs_call(a.0, a.1, a.2).deallocate,
            |a: (Seq<char>, Seq<char>, u128)| seq!["age_delproj_del_"@ + simple_id_text(a.2)],
            1,
            seq![
                Piece::Text("DEALLOCATE "@),
                Piece::Hole(0),
            ],
        ),
{
    reveal_with_fuel(filled, 6);
    let f_a = |a: (Seq<char>, Seq<char>, u128)| delete_project_beliefs_call(a.0, a.1, a.2).prepare;
    let g_a = |a: (Seq<char>, Seq<char>, u128)| seq!["age_delproj_del_"@ + simple_id_text(a.2), a.0];
    let pieces_a = seq![
        Piece::Text("PREPARE "@),
        Piece::Hole(0),
        Piece::Text("(agtype) AS SELECT * FROM ag_catalog.cypher('"@),
        Piece::Hole(1),
        Piece::Text("', $$ MATCH (n:Belief) WHERE n.project = $project DETACH DELETE n RETURN 1 $$, $1) AS (ok agtype)"@),
    ];
    assert(pieces_a[1] == Piece::Hole(0));
    assert(pieces_a[3] == Piece::Hole(1));
    assert(fills_in(f_a, g_a, 2, pieces_a));
    let f_b = |a: (Seq<char>, Seq<char>, u128)| delete_project_beliefs_call(a.0, a.1, a.2).execute;
    let g_b = |a: (Seq<char>, Seq<char>, u128)| seq!["age_delproj_del_"@ + simple_id_text(a.2), sql_escaped("{\"project\": \""@ + json_escaped(a.1) + "\"}"@)];
    let pieces_b = seq![
        Piece::Text("EXECUTE "@),
        Piece::Hole(0),
        Piece::Text("('"@),
        Piece::Hole(1),
        Piece::Text("')"@),
    ];
    assert(pieces_b[1] == Piece::Hole(0));
    assert(pieces_b[3] == Piece::Hole(1));
    assert(fills_in(f_b, g_b, 2, pieces_b));
    let f_c = |a: (Seq<char>, Seq<char>, u128)| delete_project_beliefs_call(a.0, a.1, a.2).deallocate;
    let g_c = |a: (Seq<char>, Seq<char>, u128)| seq!["age_delproj_del_"@ + simple_id_text(a.2)];
    let pieces_c = seq![
        Piece::Text("DEALLOCATE "@),
        Piece::Hole(0),
    ];
    assert(pieces_c[1] == Piece::Hole(0));
    assert(fills_in(f_c, g_c, 1, pieces_c));
}

/// Deletes the patterns of a project with their edges. What is prepared is a fixed text;
/// texts of users stand in its parameter only, a JSON object with its quotes doubled; and
/// the statement that was prepared is deallocated.
pub proof fn law_delete_project_patterns_is_prepared_executed_and_deallocated()
    ensures
        fills_in(
            |a: (Seq<char>, Seq<char>, u128)| delete_project_patterns_call(a.0, a.1, a.2).prepare,
            |a: (Seq<char>, Seq<char>, u128)| seq!["age_delproj_pat_"@ + simple_id_text(a.2), a.0],
            2,
            seq![
                Piece::Text("PREPARE "@),
                Piece::Hole(0),
                Piece::Text("(agtype) AS SELECT * FROM ag_catalog.cypher('"@),
                Piece::Hole(1),
                Piece::Text("', $$ MATCH (p:Pattern) WHERE p.project = $project DETACH DELETE p RETURN 1 $$, $1) AS (ok agtype)"@),
            ],
        ),
        fills_in(
            |a: (Seq<char>, Seq<char>, u128)| delete_project_patterns_call(a.0, a.1, a.2).execute,
            |a: (Seq<char>, Seq<char>, u128)| seq!["age_delproj_pat_"@ + simple_id_text(a.2), sql_escaped("{\"project\": \""@ + json_escaped(a.1) + "\"}"@)],
            2,
            seq![
                Piece::Text("EXECUTE "@),
                Piece::Hole(0),
                Piece::Text("('"@),
                Piece::Hole(1),
                Piece::Text("')"@),
            ],
        ),
        fills_in(
            |a: (Seq<char>, Seq<char>, u128)| delete_project_patterns_call(a.0, a.1, a.2).deallocate,
            |a: (Seq<char>, Seq<char>, u128)| seq!["age_delproj_pat_"@ + simple_id_text(a.2)],
            1,
            seq![
                Piece::Text("DEALLOCATE "@),
                Piece::Hole(0),
            ],
        ),
{
    reveal_with_fuel(filled, 6);
    let f_a = |a: (Seq<char>, Seq<char>, u128)| delete_project_patterns_call(a.0, a.1, a.2).prepare;
    let g_a = |a: (Seq<char>, Seq<char>, u128)| seq!["age_delproj_pat_"@ + simple_id_text(a.2), a.0];
    let pieces_a = seq![
        Piece::Text("PREPARE "@),
        Piece::Hole(0),
        Piece::Text("(agtype) AS SELECT * FROM ag_catalog.cypher('"@),
        Piece::Hole(1),
        Piece::Text("', $$ MATCH (p:Pattern) WHERE p.project = $project DETACH DELETE p RETURN 1 $$, $1) AS (ok agtype)"@),
    ];
    assert(pieces_a[1] == Piece::Hole(0));
    assert(pieces_a[3] == Piece::Hole(1));
    assert(fills_in(f_a, g_a, 2, pieces_a));
    let f_b = |a: (Seq<char>, Seq<char>, u128)| delete_project_patterns_call(a.0, a.1, a.2).execute;
    let g_b = |a: (Seq<char>, Seq<char>, u128)| seq!["age_delproj_pat_"@ + simple_id_text(a.2), sql_escaped("{\"project\": \""@ + json_escaped(a.1) + "\"}"@)];
    let pieces_b = seq![
        Piece::Text("EXECUTE "@),
        Piece::Hole(0),
        Piece::Text("('"@),
        Piece::Hole(1),
        Piece::Text("')"@),
    ];
    assert(pieces_b[1] == Piece::Hole(0));
    assert(pieces_b[3] == Piece::Hole(1));
    assert(fills_in(f_b, g_b, 2, pieces_b));
    let f_c = |a: (Seq<char>, Seq<char>, u128)| delete_project_patterns_call(a.0, a.1, a.2).deallocate;
    let g_c = |a: (Seq<char>, Seq<char>, u128)| seq!["age_delproj_pat_"@ + simple_id_text(a.2)];
    let pieces_c = seq![
        Piece::Text("DEALLOCATE "@),
        Piece::Hole(0),
    ];
    assert(pieces_c[1] == Piece::Hole(0));
    assert(fills_in(f_c, g_c, 1, pieces_c));
}

/// Fetches the defeats between beliefs of a project or of none. What is prepared is a fixed
/// text; texts of users stand in its parameter only, a JSON object with its quotes doubled;
/// and the statement that was prepared is deallocated.
pub proof fn law_get_defeats_with_timestamps_by_project_is_prepared_executed_and_deallocated()
    ensures
        fills_in(
            |a: (Seq<char>, Seq<char>, u128)| get_defeats_with_timestamps_by_project_call(a.0, a.1, a.2).prepare,
            |a: (Seq<char>, Seq<char>, u128)| seq!["age_defeats_ts_proj_"@ + simple_id_text(a.2), a.0],
            2,
            seq![
                Piece::Text("PREPARE "@),
                Piece::Hole(0),
                Piece::Text("(agtype) AS SELECT defeater_id::text, defeated_id::text, defeater_created_at::text FROM ag_catalog.cypher('"@),
                Piece::Hole(1),
                Piece::Text("', $$ MATCH (a:Belief)-[:DEFEATS]->(b:Belief) WHERE (a.project = $project OR a.project IS NULL) AND (b.project = $project OR b.project IS NULL) RETURN a.id, b.id, a.created_at $$, $1) AS (defeater_id agtype, defeated_id agtype, defeater_created_at agtype)"@),
            ],
        ),
        fills_in(
            |a: (Seq<char>, Seq<char>, u128)| get_defeats_with_timestamps_by_project_call(a.0, a.1, a.2).execute,
            |a: (Seq<char>, Seq<char>, u128)| seq!["age_defeats_ts_proj_"@ + simple_id_text(a.2), sql_escaped("{\"project\": \""@ + json_escaped(a.1) + "\"}"@)],
            2,
            seq![
                Piece::Text("EXECUTE "@),
                Piece::Hole(0),
                Piece::Text("('"@),
                Piece::Hole(1),
                Piece::Text("')"@),
            ],
        ),
        fills_in(
            |a: (Seq<char>, Seq<char>, u128)| get_defeats_with_timestamps_by_project_call(a.0, a.1, a.2).deallocate,
            |a: (Seq<char>, Seq<char>, u128)| seq!["age_defeats_ts_proj_"@ + simple_id_text(a.2)],
            1,
            seq![
                Piece::Text("DEALLOCATE "@),
                Piece::Hole(0),
            ],
        ),
{
    reveal_with_fuel(filled, 6);
    let f_a = |a: (Seq<char>, Seq<char>, u128)| get_defeats_with_timestamps_by_project_call(a.0, a.1, a.2).prepare;
    let g_a = |a: (Seq<char>, Seq<char>, u128)| seq!["age_defeats_ts_proj_"@ + simple_id_text(a.2), a.0];
    let pieces_a = seq![
        Piece::Text("PREPARE "@),
        Piece::Hole(0),
        Piece::Text("(agtype) AS SELECT defeater_id::text, defeated_id::text, defeater_created_at::text FROM ag_catalog.cypher('"@),
        Piece::Hole(1),
        Piece::Text("', $$ MATCH (a:Belief)-[:DEFEATS]->(b:Belief) WHERE (a.project = $project OR a.project IS NULL) AND (b.project = $project OR b.project IS NULL) RETURN a.id, b.id, a.created_at $$, $1) AS (defeater_id agtype, defeated_id agtype, defeater_created_at agtype)"@),
    ];
    assert(pieces_a[1] == Piece::Hole(0));
    assert(pieces_a[3] == Piece::Hole(1));
    assert(fills_in(f_a, g_a, 2, pieces_a));
    let f_b = |a: (Seq<char>, Seq<char>, u128)| get_defeats_with_timestamps_by_project_call(a.0, a.1, a.2).execute;
    let g_b = |a: (Seq<char>, Seq<char>, u128)| seq!["age_defeats_ts_proj_"@ + simple_id_text(a.2), sql_escaped("{\"project\": \""@ + json_escaped(a.1) + "\"}"@)];
    let pieces_b = seq![
        Piece::Text("EXECUTE "@),
        Piece::Hole(0),
        Piece::Text("('"@),
        Piece::Hole(1),
        Piece::Text("')"@),
    ];
    assert(pieces_b[1] == Piece::Hole(0));
    assert(pieces_b[3] == Piece::Hole(1));
    assert(fills_in(f_b, g_b, 2, pieces_b));
    let f_c = |a: (Seq<char>, Seq<char>, u128)| get_defeats_with_timestamps_by_project_call(a.0, a.1, a.2).deallocate;
    let g_c = |a: (Seq<char>, Seq<char>, u128)| seq!["age_defeats_ts_proj_"@ + simple_id_text(a.2)];
    let pieces_c = seq![
        Piece::Text("DEALLOCATE "@),
        Piece::Hole(0),
    ];
    assert(pieces_c[1] == Piece::Hole(0));
    assert(fills_in(f_c, g_c, 1, pieces_c));
}

/// Fetches the patterns of a project and those of none. What is prepared is a fixed text;
/// texts of users stand in its parameter only, a JSON object with its quotes doubled; and
/// the statement that was prepared is deallocated.
pub proof fn law_list_patterns_by_project_is_prepared_executed_and_deallocated()
    ensures
        fills_in(
            |a: (Seq<char>, Seq<char>, u128)| list_patterns_by_project_call(a.0, a.1, a.2).prepare,
            |a: (Seq<char>, Seq<char>, u128)| seq!["age_list_patterns_proj_"@ + simple_id_text(a.2), a.0],
            2,
            seq![
                Piece::Text("PREPARE "@),
                Piece::Hole(0),
                Piece::Text("(agtype) AS SELECT id::text, situation::text, approach::text, activation_count::text, success_rate::text, created_at::text, project::text FROM ag_catalog.cypher('"@),
                Piece::Hole(1),
                Piece::Text("', $$ MATCH (p:Pattern) WHERE p.project = $project OR p.project IS NULL RETURN "@),
                Piece::Text(PATTERN_RETURN@),
                Piece::Text(" $$, $1) "@),
                Piece::Text(PATTERN_RETURN_COLUMNS@),
            ],
        ),
        fills_in(
            |a: (Seq<char>, Seq<char>, u128)| list_patterns_by_project_call(a.0, a.1, a.2).execute,
            |a: (Seq<char>, Seq<char>, u128)| seq!["age_list_patterns_proj_"@ + simple_id_text(a.2), sql_escaped("{\"project\": \""@ + json_escaped(a.1) + "\"}"@)],
            2,
            seq![
                Piece::Text("EXECUTE "@),
                Piece::Hole(0),
                Piece::Text("('"@),
                Piece::Hole(1),
                Piece::Text("')"@),
            ],
        ),
        fills_in(
            |a: (Seq<char>, Seq<char>, u128)| list_patterns_by_project_call(a.0, a.1, a.2).deallocate,
            |a: (Seq<char>, Seq<char>, u128)| seq!["age_list_patterns_proj_"@ + simple_id_text(a.2)],
            1,
            seq![
                Piece::Text("DEALLOCATE "@),
                Piece::Hole(0),
            ],
        ),
{
    reveal_with_fuel(filled, 9);
    let f_a = |a: (Seq<char>, Seq<char>, u128)| list_patterns_by_project_call(a.0, a.1, a.2).prepare;
    let g_a = |a: (Seq<char>, Seq<char>, u128)| seq!["age_list_patterns_proj_"@ + simple_id_text(a.2), a.0];
    let pieces_a = seq![
        Piece::Text("PREPARE "@),
        Piece::Hole(0),
        Piece::Text("(agtype) AS SELECT id::text, situation::text, approach::text, activation_count::text, success_rate::text, created_at::text, project::text FROM ag_catalog.cypher('"@),
        Piece::Hole(1),
        Piece::Text("', $$ MATCH (p:Pattern) WHERE p.project = $project OR p.project IS NULL RETURN "@),
        Piece::Text(PATTERN_RETURN@),
        Piece::Text(" $$, $1) "@),
        Piece::Text(PATTERN_RETURN_COLUMNS@),
    ];
    assert(pieces_a[1] == Piece::Hole(0));
    assert(pieces_a[3] == Piece::Hole(1));
    assert(fills_in(f_a, g_a, 2, pieces_a));
    let f_b = |a: (Seq<char>, Seq<char>, u128)| list_patterns_by_project_call(a.0, a.1, a.2).execute;
    let g_b = |a: (Seq<char>, Seq<char>, u128)| seq!["age_list_patterns_proj_"@ + simple_id_text(a.2), sql_escaped("{\"project\": \""@ + json_escaped(a.1) + "\"}"@)];
    let pieces_b = seq![
        Piece::Text("EXECUTE "@),
        Piece::Hole(0),
        Piece::Text("('"@),
        Piece::Hole(1),
        Piece::Text("')"@),
    ];
    assert(pieces_b[1] == Piece::Hole(0));
    assert(pieces_b[3] == Piece::Hole(1));
    assert(fills_in(f_b, g_b, 2, pieces_b));
    let f_c = |a: (Seq<char>, Seq<char>, u128)| list_patterns_by_project_call(a.0, a.1, a.2).deallocate;
    let g_c = |a: (Seq<char>, Seq<char>, u128)| seq!["age_list_patterns_proj_"@ + simple_id_text(a.2)];
    let pieces_c = seq![
        Piece::Text("DEALLOCATE "@),
        Piece::Hole(0),
    ];
    assert(pieces_c[1] == Piece::Hole(0));
    assert(fills_in(f_c, g_c, 1, pieces_c));
}

/// Fetches the contradicting pairs of a project or of none. What is prepared is a fixed
/// text; texts of users stand in its parameter only, a JSON object with its quotes doubled;
/// and the statement that was prepared is deallocated.
pub proof fn law_get_contradiction_pairs_by_project_is_prepared_executed_and_deallocated()
    ensures
        fills_in(
            |a: (Seq<char>, Seq<char>, u128)| get_contradiction_pairs_by_project_call(a.0, a.1, a.2).prepare,
            |a: (Seq<char>, Seq<char>, u128)| seq!["age_contra_pairs_proj_"@ + simple_id_text(a.2), a.0],
            2,
            seq![
                Piece::Text("PREPARE "@),
                Piece::Hole(0),
                Piece::Text("(agtype) AS SELECT from_id::text, to_id::text FROM ag_catalog.cypher('"@),
                Piece::Hole(1),
                Piece::Text("', $$ MATCH (a:Belief)-[:CONTRADICTS]->(b:Belief) WHERE (a.project = $project OR a.project IS NULL) AND (b.project = $project OR b.project IS NULL) RETURN a.id, b.id $$, $1) AS (from_id agtype, to_id agtype)"@),
            ],
        ),
        fills_in(
            |a: (Seq<char>, Seq<char>, u128)| get_contradiction_pairs_by_project_call(a.0, a.1, a.2).execute,
            |a: (Seq<char>, Seq<char>, u128)| seq!["age_contra_pairs_proj_"@ + simple_id_text(a.2), sql_escaped("{\"project\": \""@ + json_escaped(a.1) + "\"}"@)],
            2,
            seq![
                Piece::Text("EXECUTE "@),
                Piece::Hole(0),
                Piece::Text("('"@),
                Piece::Hole(1),
                Piece::Text("')"@),
            ],
        ),
        fills_in(
            |a: (Seq<char>, Seq<char>, u128)| get_contradiction_pairs_by_project_call(a.0, a.1, a.2).deallocate,
            |a: (Seq<char>, Seq<char>, u128)| seq!["age_contra_pairs_proj_"@ + simple_id_text(a.2)],
            1,
            seq![
                Piece::Text("DEALLOCATE "@),
                Piece::Hole(0),
            ],
        ),
{
    reveal_with_fuel(filled, 6);
    let f_a = |a: (Seq<char>, Seq<char>, u128)| get_contradiction_pairs_by_project_call(a.0, a.1, a.2).prepare;
    let g_a = |a: (Seq<char>, Seq<char>, u128)| seq!["age_contra_pairs_proj_"@ + simple_id_text(a.2), a.0];
    let pieces_a = seq![
        Piece::Text("PREPARE "@),
        Piece::Hole(0),
        Piece::Text("(agtype) AS SELECT from_id::text, to_id::text FROM ag_catalog.cypher('"@),
        Piece::Hole(1),
        Piece::Text("', $$ MATCH (a:Belief)-[:CONTRADICTS]->(b:Belief) WHERE (a.project = $project OR a.project IS NULL) AND (b.project = $project OR b.project IS NULL) RETURN a.id, b.id $$, $1) AS (from_id agtype, to_id agtype)"@),
    ];
    assert(pieces_a[1] == Piece::Hole(0));
    assert(pieces_a[3] == Piece::Hole(1));
    assert(fills_in(f_a, g_a, 2, pieces_a));
    let f_b = |a: (Seq<char>, Seq<char>, u128)| get_contradiction_pairs_by_project_call(a.0, a.1, a.2).execute;
    let g_b = |a: (Seq<char>, Seq<char>, u128)| seq!["age_contra_pairs_proj_"@ + simple_id_text(a.2), sql_escaped("{\"project\": \""@ + json_escaped(a.1) + "\"}"@)];
    let pieces_b = seq![
        Piece::Text("EXECUTE "@),
        Piece::Hole(0),
        Piece::Text("('"@),
        Piece::Hole(1),
        Piece::Text("')"@),
    ];
    assert(pieces_b[1] == Piece::Hole(0));
    assert(pieces_b[3] == Piece::Hole(1));
    assert(fills_in(f_b, g_b, 2, pieces_b));
    let f_c = |a: (Seq<char>, Seq<char>, u128)| get_contradiction_pairs_by_project_call(a.0, a.1, a.2).deallocate;
    let g_c = |a: (Seq<char>, Seq<char>, u128)| seq!["age_contra_pairs_proj_"@ + simple_id_text(a.2)];
    let pieces_c = seq![
        Piece::Text("DEALLOCATE "@),
        Piece::Hole(0),
    ];
    assert(pieces_c[1] == Piece::Hole(0));
    assert(fills_in(f_c, g_c, 1, pieces_c));
}

/// Lists the chunks of a document. What is prepared is a fixed text; texts of users stand
/// in its parameter only, a JSON object with its quotes doubled; and the statement that was
/// prepared is deallocated.
pub proof fn law_get_chunk_ids_for_document_is_prepared_executed_and_deallocated()
    ensures
        fills_in(
            |a: (Seq<char>, Seq<char>, u128)| get_chunk_ids_for_document_call(a.0, a.1, a.2).prepare,
            |a: (Seq<char>, Seq<char>, u128)| seq!["age_chunk_ids_by_path_"@ + simple_id_text(a.2), a.0],
            2,
            seq![
                Piece::Text("PREPARE "@),
                Piece::Hole(0),
                Piece::Text("(agtype) AS SELECT id::text FROM ag_catalog.cypher('"@),
                Piece::Hole(1),
                Piece::Text("', $$ MATCH (c:DocumentChunk) WHERE c.documentPath = $documentPath RETURN c.id $$, $1) AS (id agtype)"@),
            ],
        ),
        fills_in(
            |a: (Seq<char>, Seq<char>, u128)| get_chunk_ids_for_document_call(a.0, a.1, a.2).execute,
            |a: (Seq<char>, Seq<char>, u128)| seq!["age_chunk_ids_by_path_"@ + simple_id_text(a.2), sql_escaped("{\"documentPath\": \""@ + json_escaped(a.1) + "\"}"@)],
            2,
            seq![
                Piece::Text("EXECUTE "@),
                Piece::Hole(0),
                Piece::Text("('"@),
                Piece::Hole(1),
                Piece::Text("')"@),
            ],
        ),
        fills_in(
            |a: (Seq<char>, Seq<char>, u128)| get_chunk_ids_for_document_call(a.0, a.1, a.2).deallocate,
            |a: (Seq<char>, Seq<char>, u128)| seq!["age_chunk_ids_by_path_"@ + simple_id_text(a.2)],
            1,
            seq![
                Piece::Text("DEALLOCATE "@),
                Piece::Hole(0),
            ],
        ),
{
    reveal_with_fuel(filled, 6);
    let f_a = |a: (Seq<char>, Seq<char>, u128)| get_chunk_ids_for_document_call(a.0, a.1, a.2).prepare;
    let g_a = |a: (Seq<char>, Seq<char>, u128)| seq!["age_chunk_ids_by_path_"@ + simple_id_text(a.2), a.0];
    let pieces_a = seq![
        Piece::Text("PREPARE "@),
        Piece::Hole(0),
        Piece::Text("(agtype) AS SELECT id::text FROM ag_catalog.cypher('"@),
        Piece::Hole(1),
        Piece::Text("', $$ MATCH (c:DocumentChunk) WHERE c.documentPath = $documentPath RETURN c.id $$, $1) AS (id agtype)"@),
    ];
    assert(pieces_a[1] == Piece::Hole(0));
    assert(pieces_a[3] == Piece::Hole(1));
    assert(fills_in(f_a, g_a, 2, pieces_a));
    let f_b = |a: (Seq<char>, Seq<char>, u128)| get_chunk_ids_for_document_call(a.0, a.1, a.2).execute;
    let g_b = |a: (Seq<char>, Seq<char>, u128)| seq!["age_chunk_ids_by_path_"@ + simple_id_text(a.2), sql_escaped("{\"documentPath\": \""@ + json_escaped(a.1) + "\"}"@)];
    let pieces_b = seq![
        Piece::Text("EXECUTE "@),
        Piece::Hole(0),
        Piece::Text("('"@),
        Piece::Hole(1),
        Piece::Text("')"@),
    ];
    assert(pieces_b[1] == Piece::Hole(0));
    assert(pieces_b[3] == Piece::Hole(1));
    assert(fills_in(f_b, g_b, 2, pieces_b));
    let f_c = |a: (Seq<char>, Seq<char>, u128)| get_chunk_ids_for_document_call(a.0, a.1, a.2).deallocate;
    let g_c = |a: (Seq<char>, Seq<char>, u128)| seq!["age_chunk_ids_by_path_"@ + simple_id_text(a.2)];
    let pieces_c = seq![
        Piece::Text("DEALLOCATE "@),
        Piece::Hole(0),
    ];
    assert(pieces_c[1] == Piece::Hole(0));
    assert(fills_in(f_c, g_c, 1, pieces_c));
}

/// Lists the chunks of a project. What is prepared is a fixed text; texts of users stand in
/// its parameter only, a JSON object with its quotes doubled; and the statement that was
/// prepared is deallocated.
pub proof fn law_get_chunk_ids_by_project_is_prepared_executed_and_deallocated()
    ensures
        fills_in(
            |a: (Seq<char>, Seq<char>, u128)| get_chunk_ids_by_project_call(a.0, a.1, a.2).prepare,
            |a: (Seq<char>, Seq<char>, u128)| seq!["age_chunk_ids_by_proj_"@ + simple_id_text(a.2), a.0],
            2,
            seq![
                Piece::Text("PREPARE "@),
                Piece::Hole(0),
                Piece::Text("(agtype) AS SELECT id::text FROM ag_catalog.cypher('"@),
                Piece::Hole(1),
                Piece::Text("', $$ MATCH (c:DocumentChunk) WHERE c.project = $project RETURN c.id $$, $1) AS (id agtype)"@),
            ],
        ),
        fills_in(
            |a: (Seq<char>, Seq<char>, u128)| get_chunk_ids_by_project_call(a.0, a.1, a.2).execute,
            |a: (Seq<char>, Seq<char>, u128)| seq!["age_chunk_ids_by_proj_"@ + simple_id_text(a.2), sql_escaped("{\"project\": \""@ + json_escaped(a.1) + "\"}"@)],
            2,
            seq![
                Piece::Text("EXECUTE "@),
                Piece::Hole(0),
                Piece::Text("('"@),
                Piece::Hole(1),
                Piece::Text("')"@),
            ],
        ),
        fills_in(
            |a: (Seq<char>, Seq<char>, u128)| get_chunk_ids_by_project_call(a.0, a.1, a.2).deallocate,
            |a: (Seq<char>, Seq<char>, u128)| seq!["age_chunk_ids_by_proj_"@ + simple_id_text(a.2)],
            1,
            seq![
                Piece::Text("DEALLOCATE "@),
                Piece::Hole(0),
            ],
        ),
{
    reveal_with_fuel(filled, 6);
    let f_a = |a: (Seq<char>, Seq<char>, u128)| get_chunk_ids_by_project_call(a.0, a.1, a.2).prepare;
    let g_a = |a: (Seq<char>, Seq<char>, u128)| seq!["age_chunk_ids_by_proj_"@ + simple_id_text(a.2), a.0];
    let pieces_a = seq![
        Piece::Text("PREPARE "@),
        Piece::Hole(0),
        Piece::Text("(agtype) AS SELECT id::text FROM ag_catalog.cypher('"@),
        Piece::Hole(1),
        Piece::Text("', $$ MATCH (c:DocumentChunk) WHERE c.project = $project RETURN c.id $$, $1) AS (id agtype)"@),
    ];
    assert(pieces_a[1] == Piece::Hole(0));
    assert(pieces_a[3] == Piece::Hole(1));
    assert(fills_in(f_a, g_a, 2, pieces_a));
    let f_b = |a: (Seq<char>, Seq<char>, u128)| get_chunk_ids_by_project_call(a.0, a.1, a.2).execute;
    let g_b = |a: (Seq<char>, Seq<char>, u128)| seq!["age_chunk_ids_by_proj_"@ + simple_id_text(a.2), sql_escaped("{\"project\": \""@ + json_escaped(a.1) + "\"}"@)];
    let pieces_b = seq![
        Piece::Text("EXECUTE "@),
        Piece::Hole(0),
        Piece::Text("('"@),
        Piece::Hole(1),
        Piece::Text("')"@),
    ];
    assert(pieces_b[1] == Piece::Hole(0));
    assert(pieces_b[3] == Piece::Hole(1));
    assert(fills_in(f_b, g_b, 2, pieces_b));
    let f_c = |a: (Seq<char>, Seq<char>, u128)| get_chunk_ids_by_project_call(a.0, a.1, a.2).deallocate;
    let g_c = |a: (Seq<char>, Seq<char>, u128)| seq!["age_chunk_ids_by_proj_"@ + simple_id_text(a.2)];
    let pieces_c = seq![
        Piece::Text("DEALLOCATE "@),
        Piece::Hole(0),
    ];
    assert(pieces_c[1] == Piece::Hole(0));
    assert(fills_in(f_c, g_c, 1, pieces_c));
}

/// Fetches the beliefs of a project, or of none, that one supporting, causing or defeating
/// edge leads to. What is prepared is a fixed text; texts of users stand in its parameter
/// only, a JSON object with its quotes doubled; and the statement that was prepared is
/// deallocated.
pub proof fn law_get_direct_downstream_by_project_is_prepared_executed_and_deallocated()
    ensures
        fills_in(
            |a: (Seq<char>, u128, Seq<char>, u128)| get_direct_downstream_by_project_call(a.0, a.1, a.2, a.3).prepare,
            |a: (Seq<char>, u128, Seq<char>, u128)| seq!["age_direct_downstream_proj_"@ + simple_id_text(a.3), a.0, id_text(a.1)],
            3,
            seq![
                Piece::Text("PREPARE "@),
                Piece::Hole(0),
                Piece::Text("(agtype) AS SELECT "@),
                Piece::Text(BELIEF_INLINE@),
                Piece::Text("FROM ag_catalog.cypher('"@),
                Piece::Hole(1),
                Piece::Text("', $$ MATCH (s:Belief {id: '"@),
                Piece::Hole(2),
                Piece::Text("'})-[:SUPPORTS]->(n:Belief) WHERE n.project = $project OR n.project IS NULL RETURN "@),
                Piece::Text(BELIEF_RETURN@),
                Piece::Text(" UNION MATCH (s:Belief {id: '"@),
                Piece::Hole(2),
                Piece::Text("'})-[:CAUSES]->(n:Belief) WHERE n.project = $project OR n.project IS NULL RETURN "@),
                Piece::Text(BELIEF_RETURN@),
                Piece::Text(" UNION MATCH (s:Belief {id: '"@),
                Piece::Hole(2),
                Piece::Text("'})-[:DEFEATS]->(n:Belief) WHERE n.project = $project OR n.project IS NULL RETURN "@),
                Piece::Text(BELIEF_RETURN@),
                Piece::Text(" $$, $1) "@),
                Piece::Text(BELIEF_RETURN_COLUMNS@),
            ],
        ),
        fills_in(
            |a: (Seq<char>, u128, Seq<char>, u128)| get_direct_downstream_by_project_call(a.0, a.1, a.2, a.3).execute,
            |a: (Seq<char>, u128, Seq<char>, u128)| seq!["age_direct_downstream_proj_"@ + simple_id_text(a.3), sql_escaped("{\"project\": \""@ + json_escaped(a.2) + "\"}"@)],
            2,
            seq![
                Piece::Text("EXECUTE "@),
                Piece::Hole(0),
                Piece::Text("('"@),
                Piece::Hole(1),
                Piece::Text("')"@),
            ],
        ),
        fills_in(
            |a: (Seq<char>, u128, Seq<char>, u128)| get_direct_downstream_by_project_call(a.0, a.1, a.2, a.3).deallocate,
            |a: (Seq<char>, u128, Seq<char>, u128)| seq!["age_direct_downstream_proj_"@ + simple_id_text(a.3)],
            1,
            seq![
                Piece::Text("DEALLOCATE "@),
                Piece::Hole(0),
            ],
        ),
{
    reveal_with_fuel(filled, 21);
    let f_a = |a: (Seq<char>, u128, Seq<char>, u128)| get_direct_downstream_by_project_call(a.0, a.1, a.2, a.3).prepare;
    let g_a = |a: (Seq<char>, u128, Seq<char>, u128)| seq!["age_direct_downstream_proj_"@ + simple_id_text(a.3), a.0, id_text(a.1)];
    let pieces_a = seq![
        Piece::Text("PREPARE "@),
        Piece::Hole(0),
        Piece::Text("(agtype) AS SELECT "@),
        Piece::Text(BELIEF_INLINE@),
        Piece::Text("FROM ag_catalog.cypher('"@),
        Piece::Hole(1),
        Piece::Text("', $$ MATCH (s:Belief {id: '"@),
        Piece::Hole(2),
        Piece::Text("'})-[:SUPPORTS]->(n:Belief) WHERE n.project = $project OR n.project IS NULL RETURN "@),
        Piece::Text(BELIEF_RETURN@),
        Piece::Text(" UNION MATCH (s:Belief {id: '"@),
        Piece::Hole(2),
        Piece::Text("'})-[:CAUSES]->(n:Belief) WHERE n.project = $project OR n.project IS NULL RETURN "@),
        Piece::Text(BELIEF_RETURN@),
        Piece::Text(" UNION MATCH (s:Belief {id: '"@),
        Piece::Hole(2),
        Piece::Text("'})-[:DEFEATS]->(n:Belief) WHERE n.project = $project OR n.project IS NULL RETURN "@),
        Piece::Text(BELIEF_RETURN@),
        Piece::Text(" $$, $1) "@),
        Piece::Text(BELIEF_RETURN_COLUMNS@),
    ];
    assert(pieces_a[1] == Piece::Hole(0));
    assert(pieces_a[5] == Piece::Hole(1));
    assert(pieces_a[7] == Piece::Hole(2));
    assert(fills_in(f_a, g_a, 3, pieces_a));
    let f_b = |a: (Seq<char>, u128, Seq<char>, u128)| get_direct_downstream_by_project_call(a.0, a.1, a.2, a.3).execute;
    let g_b = |a: (Seq<char>, u128, Seq<char>, u128)| seq!["age_direct_downstream_proj_"@ + simple_id_text(a.3), sql_escaped("{\"project\": \""@ + json_escaped(a.2) + "\"}"@)];
    let pieces_b = seq![
        Piece::Text("EXECUTE "@),
        Piece::Hole(0),
        Piece::Text("('"@),
        Piece::Hole(1),
        Piece::Text("')"@),
    ];
    assert(pieces_b[1] == Piece::Hole(0));
    assert(pieces_b[3] == Piece::Hole(1));
    assert(fills_in(f_b, g_b, 2, pieces_b));
    let f_c = |a: (Seq<char>, u128, Seq<char>, u128)| get_direct_downstream_by_project_call(a.0, a.1, a.2, a.3).deallocate;
    let g_c = |a: (Seq<char>, u128, Seq<char>, u128)| seq!["age_direct_downstream_proj_"@ + simple_id_text(a.3)];
    let pieces_c = seq![
        Piece::Text("DEALLOCATE "@),
        Piece::Hole(0),
    ];
    assert(pieces_c[1] == Piece::Hole(0));
    assert(fills_in(f_c, g_c, 1, pieces_c));
}

/// Fetches the beliefs of a project, or of none, that one supporting or
/// causing edge leads to. What is prepared is a fixed text; texts of users stand in
/// its parameter only, a JSON object with its quotes doubled; and the statement that was
/// prepared is deallocated.
pub proof fn law_get_related_beliefs_by_project_is_prepared_executed_and_deallocated()
    ensures
        fills_in(
            |a: (Seq<char>, u128, Seq<char>, u128)| get_related_beliefs_by_project_call(a.0, a.1, a.2, a.3).prepare,
            |a: (Seq<char>, u128, Seq<char>, u128)| seq!["age_related_proj_"@ + simple_id_text(a.3), a.0, id_text(a.1)],
            3,
            seq![
                Piece::Text("PREPARE "@),
                Piece::Hole(0),
                Piece::Text("(agtype) AS SELECT "@),
                Piece::Text(BELIEF_INLINE@),
                Piece::Text("FROM ag_catalog.cypher('"@),
                Piece::Hole(1),
                Piece::Text("', $$ MATCH (s:Belief {id: '"@),
                Piece::Hole(2),
                Piece::Text("'})-[:SUPPORTS]->(n:Belief) WHERE n.project = $project OR n.project IS NULL RETURN "@),
                Piece::Text(BELIEF_RETURN@),
                Piece::Text(" UNION MATCH (s:Belief {id: '"@),
                Piece::Hole(2),
                Piece::Text("'})-[:CAUSES]->(n:Belief) WHERE n.project = $project OR n.project IS NULL RETURN "@),
                Piece::Text(BELIEF_RETURN@),
                Piece::Text(" $$, $1) "@),
                Piece::Text(BELIEF_RETURN_COLUMNS@),
            ],
        ),
        fills_in(
            |a: (Seq<char>, u128, Seq<char>, u128)| get_related_beliefs_by_project_call(a.0, a.1, a.2, a.3).execute,
            |a: (Seq<char>, u128, Seq<char>, u128)| seq!["age_related_proj_"@ + simple_id_text(a.3), sql_escaped("{\"project\": \""@ + json_escaped(a.2) + "\"}"@)],
            2,
            seq![
                Piece::Text("EXECUTE "@),
                Piece::Hole(0),
                Piece::Text("('"@),
                Piece::Hole(1),
                Piece::Text("')"@),
            ],
        ),
        fills_in(
            |a: (Seq<char>, u128, Seq<char>, u128)| get_related_beliefs_by_project_call(a.0, a.1, a.2, a.3).deallocate,
            |a: (Seq<char>, u128, Seq<char>, u128)| seq!["age_related_proj_"@ + simple_id_text(a.3)],
            1,
            seq![
                Piece::Text("DEALLOCATE "@),
                Piece::Hole(0),
            ],
        ),
{
    reveal_with_fuel(filled, 17);
    let f_a = |a: (Seq<char>, u128, Seq<char>, u128)| get_related_beliefs_by_project_call(a.0, a.1, a.2, a.3).prepare;
    let g_a = |a: (Seq<char>, u128, Seq<char>, u128)| seq!["age_related_proj_"@ + simple_id_text(a.3), a.0, id_text(a.1)];
    let pieces_a = seq![
        Piece::Text("PREPARE "@),
        Piece::Hole(0),
        Piece::Text("(agtype) AS SELECT "@),
        Piece::Text(BELIEF_INLINE@),
        Piece::Text("FROM ag_catalog.cypher('"@),
        Piece::Hole(1),
        Piece::Text("', $$ MATCH (s:Belief {id: '"@),
        Piece::Hole(2),
        Piece::Text("'})-[:SUPPORTS]->(n:Belief) WHERE n.project = $project OR n.project IS NULL RETURN "@),
        Piece::Text(BELIEF_RETURN@),
        Piece::Text(" UNION MATCH (s:Belief {id: '"@),
        Piece::Hole(2),
        Piece::Text("'})-[:CAUSES]->(n:Belief) WHERE n.project = $project OR n.project IS NULL RETURN "@),
        Piece::Text(BELIEF_RETURN@),
        Piece::Text(" $$, $1) "@),
        Piece::Text(BELIEF_RETURN_COLUMNS@),
    ];
    assert(pieces_a[1] == Piece::Hole(0));
    assert(pieces_a[5] == Piece::Hole(1));
    assert(pieces_a[7] == Piece::Hole(2));
    assert(fills_in(f_a, g_a, 3, pieces_a));
    let f_b = |a: (Seq<char>, u128, Seq<char>, u128)| get_related_beliefs_by_project_call(a.0, a.1, a.2, a.3).execute;
    let g_b = |a: (Seq<char>, u128, Seq<char>, u128)| seq!["age_related_proj_"@ + simple_id_text(a.3), sql_escaped("{\"project\": \""@ + json_escaped(a.2) + "\"}"@)];
    let pieces_b = seq![
        Piece::Text("EXECUTE "@),
        Piece::Hole(0),
        Piece::Text("('"@),
        Piece::Hole(1),
        Piece::Text("')"@),
    ];
    assert(pieces_b[1] == Piece::Hole(0));
    assert(pieces_b[3] == Piece::Hole(1));
    assert(fills_in(f_b, g_b, 2, pieces_b));
    let f_c = |a: (Seq<char>, u128, Seq<char>, u128)| get_related_beliefs_by_project_call(a.0, a.1, a.2, a.3).deallocate;
    let g_c = |a: (Seq<char>, u128, Seq<char>, u128)| seq!["age_related_proj_"@ + simple_id_text(a.3)];
    let pieces_c = seq![
        Piece::Text("DEALLOCATE "@),
        Piece::Hole(0),
    ];
    assert(pieces_c[1] == Piece::Hole(0));
    assert(fills_in(f_c, g_c, 1, pieces_c));
}

/// The insertion of a belief. What is prepared is a fixed text; texts of users stand in
/// its parameter only, a JSON object with its quotes doubled; and the statement that was
/// prepared is deallocated.
pub proof fn law_insert_belief_is_prepared_executed_and_deallocated()
    ensures
        fills_in(
            |a: (Seq<char>, Belief, BeliefNumbers)| insert_belief_call(a.0, a.1, a.2).prepare,
            |a: (Seq<char>, Belief, BeliefNumbers)| seq!["age_ins_"@ + simple_id_text(a.1.id), a.0, a.2.probability@, a.2.confidence@, a.2.alpha@, a.2.beta@, a.2.alpha0@, a.2.beta0@, project_binding(optional_text(a.1.project))],
            9,
            seq![
                Piece::Text("PREPARE "@),
                Piece::Hole(0),
                Piece::Text("(agtype) AS SELECT * FROM ag_catalog.cypher('"@),
                Piece::Hole(1),
                Piece::Text("', $$ CREATE (n:Belief {id: $id, content: $content, probability: "@),
                Piece::Hole(2),
                Piece::Text(", confidence: "@),
                Piece::Hole(3),
                Piece::Text(", alpha: "@),
                Piece::Hole(4),
                Piece::Text(", beta: "@),
                Piece::Hole(5),
                Piece::Text(", alpha0: "@),
                Piece::Hole(6),
                Piece::Text(", beta0: "@),
                Piece::Hole(7),
                Piece::Text(", created_at: $created_at, last_activated_at: $last_activated_at, memory_type: $memory_type"@),
                Piece::Hole(8),
                Piece::Text("}) RETURN n.id $$, $1) AS (id ag_catalog.agtype)"@),
            ],
        ),
        fills_in(
            |a: (Seq<char>, Belief, BeliefNumbers)| insert_belief_call(a.0, a.1, a.2).execute,
            |a: (Seq<char>, Belief, BeliefNumbers)| seq!["age_ins_"@ + simple_id_text(a.1.id), sql_escaped(belief_json(a.1))],
            2,
            seq![
                Piece::Text("EXECUTE "@),
                Piece::Hole(0),
                Piece::Text("('"@),
                Piece::Hole(1),
                Piece::Text("')"@),
            ],
        ),
        fills_in(
            |a: (Seq<char>, Belief, BeliefNumbers)| insert_belief_call(a.0, a.1, a.2).deallocate,
            |a: (Seq<char>, Belief, BeliefNumbers)| seq!["age_ins_"@ + simple_id_text(a.1.id)],
            1,
            seq![
                Piece::Text("DEALLOCATE "@),
                Piece::Hole(0),
            ],
        ),
{
    reveal_with_fuel(filled, 20);
    let f_a = |a: (Seq<char>, Belief, BeliefNumbers)| insert_belief_call(a.0, a.1, a.2).prepare;
    let g_a = |a: (Seq<char>, Belief, BeliefNumbers)| seq!["age_ins_"@ + simple_id_text(a.1.id), a.0, a.2.probability@, a.2.confidence@, a.2.alpha@, a.2.beta@, a.2.alpha0@, a.2.beta0@, project_binding(optional_text(a.1.project))];
    let pieces_a = seq![
        Piece::Text("PREPARE "@),
        Piece::Hole(0),
        Piece::Text("(agtype) AS SELECT * FROM ag_catalog.cypher('"@),
        Piece::Hole(1),
        Piece::Text("', $$ CREATE (n:Belief {id: $id, content: $content, probability: "@),
        Piece::Hole(2),
        Piece::Text(", confidence: "@),
        Piece::Hole(3),
        Piece::Text(", alpha: "@),
        Piece::Hole(4),
        Piece::Text(", beta: "@),
        Piece::Hole(5),
        Piece::Text(", alpha0: "@),
        Piece::Hole(6),
        Piece::Text(", beta0: "@),
        Piece::Hole(7),
        Piece::Text(", created_at: $created_at, last_activated_at: $last_activated_at, memory_type: $memory_type"@),
        Piece::Hole(8),
        Piece::Text("}) RETURN n.id $$, $1) AS (id ag_catalog.agtype)"@),
    ];
    assert(pieces_a[1] == Piece::Hole(0));
    assert(pieces_a[3] == Piece::Hole(1));
    assert(pieces_a[5] == Piece::Hole(2));
    assert(pieces_a[7] == Piece::Hole(3));
    assert(pieces_a[9] == Piece::Hole(4));
    assert(pieces_a[11] == Piece::Hole(5));
    assert(pieces_a[13] == Piece::Hole(6));
    assert(pieces_a[15] == Piece::Hole(7));
    assert(pieces_a[17] == Piece::Hole(8));
    assert(fills_in(f_a, g_a, 9, pieces_a));
    let f_b = |a: (Seq<char>, Belief, BeliefNumbers)| insert_belief_call(a.0, a.1, a.2).execute;
    let g_b = |a: (Seq<char>, Belief, BeliefNumbers)| seq!["age_ins_"@ + simple_id_text(a.1.id), sql_escaped(belief_json(a.1))];
    let pieces_b = seq![
        Piece::Text("EXECUTE "@),
        Piece::Hole(0),
        Piece::Text("('"@),
        Piece::Hole(1),
        Piece::Text("')"@),
    ];
    assert(pieces_b[1] == Piece::Hole(0));
    assert(pieces_b[3] == Piece::Hole(1));
    assert(fills_in(f_b, g_b, 2, pieces_b));
    let f_c = |a: (Seq<char>, Belief, BeliefNumbers)| insert_belief_call(a.0, a.1, a.2).deallocate;
    let g_c = |a: (Seq<char>, Belief, BeliefNumbers)| seq!["age_ins_"@ + simple_id_text(a.1.id)];
    let pieces_c = seq![
        Piece::Text("DEALLOCATE "@),
        Piece::Hole(0),
    ];
    assert(pieces_c[1] == Piece::Hole(0));
    assert(fills_in(f_c, g_c, 1, pieces_c));
}

/// The insertion of a pattern. What is prepared is a fixed text; texts of users stand in
/// its parameter only, a JSON object with its quotes doubled; and the statement that was
/// prepared is deallocated.
pub proof fn law_insert_pattern_is_prepared_executed_and_deallocated()
    ensures
        fills_in(
            |a: (Seq<char>, Pattern, Seq<char>)| insert_pattern_call(a.0, a.1, a.2).prepare,
            |a: (Seq<char>, Pattern, Seq<char>)| seq!["age_ins_pat_"@ + simple_id_text(a.1.id), a.0, decimal(a.1.activation_count as nat), a.2, project_binding(optional_text(a.1.project))],
            5,
            seq![
                Piece::Text("PREPARE "@),
                Piece::Hole(0),
                Piece::Text("(agtype) AS SELECT * FROM ag_catalog.cypher('"@),
                Piece::Hole(1),
                Piece::Text("', $$ CREATE (p:Pattern {id: $id, situation: $situation, approach: $approach, activation_count: "@),
                Piece::Hole(2),
                Piece::Text(", success_rate: "@),
                Piece::Hole(3),
                Piece::Text(", created_at: $created_at"@),
                Piece::Hole(4),
                Piece::Text("}) RETURN p.id $$, $1) AS (id ag_catalog.agtype)"@),
            ],
        ),
        fills_in(
            |a: (Seq<char>, Pattern, Seq<char>)| insert_pattern_call(a.0, a.1, a.2).execute,
            |a: (Seq<char>, Pattern, Seq<char>)| seq!["age_ins_pat_"@ + simple_id_text(a.1.id), sql_escaped(pattern_json(a.1))],
            2,
            seq![
                Piece::Text("EXECUTE "@),
                Piece::Hole(0),
                Piece::Text("('"@),
                Piece::Hole(1),
                Piece::Text("')"@),
            ],
        ),
        fills_in(
            |a: (Seq<char>, Pattern, Seq<char>)| insert_pattern_call(a.0, a.1, a.2).deallocate,
            |a: (Seq<char>, Pattern, Seq<char>)| seq!["age_ins_pat_"@ + simple_id_text(a.1.id)],
            1,
            seq![
                Piece::Text("DEALLOCATE "@),
                Piece::Hole(0),
            ],
        ),
{
    reveal_with_fuel(filled, 12);
    let f_a = |a: (Seq<char>, Pattern, Seq<char>)| insert_pattern_call(a.0, a.1, a.2).prepare;
    let g_a = |a: (Seq<char>, Pattern, Seq<char>)| seq!["age_ins_pat_"@ + simple_id_text(a.1.id), a.0, decimal(a.1.activation_count as nat), a.2, project_binding(optional_text(a.1.project))];
    let pieces_a = seq![
        Piece::Text("PREPARE "@),
        Piece::Hole(0),
        Piece::Text("(agtype) AS SELECT * FROM ag_catalog.cypher('"@),
        Piece::Hole(1),
        Piece::Text("', $$ CREATE (p:Pattern {id: $id, situation: $situation, approach: $approach, activation_count: "@),
        Piece::Hole(2),
        Piece::Text(", success_rate: "@),
        Piece::Hole(3),
        Piece::Text(", created_at: $created_at"@),
        Piece::Hole(4),
        Piece::Text("}) RETURN p.id $$, $1) AS (id ag_catalog.agtype)"@),
    ];
    assert(pieces_a[1] == Piece::Hole(0));
    assert(pieces_a[3] == Piece::Hole(1));
    assert(pieces_a[5] == Piece::Hole(2));
    assert(pieces_a[7] == Piece::Hole(3));
    assert(pieces_a[9] == Piece::Hole(4));
    assert(fills_in(f_a, g_a, 5, pieces_a));
    let f_b = |a: (Seq<char>, Pattern, Seq<char>)| insert_pattern_call(a.0, a.1, a.2).execute;
    let g_b = |a: (Seq<char>, Pattern, Seq<char>)| seq!["age_ins_pat_"@ + simple_id_text(a.1.id), sql_escaped(pattern_json(a.1))];
    let pieces_b = seq![
        Piece::Text("EXECUTE "@),
        Piece::Hole(0),
        Piece::Text("('"@),
        Piece::Hole(1),
        Piece::Text("')"@),
    ];
    assert(pieces_b[1] == Piece::Hole(0));
    assert(pieces_b[3] == Piece::Hole(1));
    assert(fills_in(f_b, g_b, 2, pieces_b));
    let f_c = |a: (Seq<char>, Pattern, Seq<char>)| insert_pattern_call(a.0, a.1, a.2).deallocate;
    let g_c = |a: (Seq<char>, Pattern, Seq<char>)| seq!["age_ins_pat_"@ + simple_id_text(a.1.id)];
    let pieces_c = seq![
        Piece::Text("DEALLOCATE "@),
        Piece::Hole(0),
    ];
    assert(pieces_c[1] == Piece::Hole(0));
    assert(fills_in(f_c, g_c, 1, pieces_c));
}

/// The insertion of a chunk. What is prepared is a fixed text; texts of users stand in
/// its parameter only, a JSON object with its quotes doubled; and the statement that was
/// prepared is deallocated.
pub proof fn law_insert_document_chunk_is_prepared_executed_and_deallocated()
    ensures
        fills_in(
            |a: (Seq<char>, DocumentChunk)| insert_document_chunk_call(a.0, a.1).prepare,
            |a: (Seq<char>, DocumentChunk)| seq!["age_ins_chunk_"@ + simple_id_text(a.1.id), a.0, parent_binding(a.1.parent_id), project_binding(optional_text(a.1.project))],
            4,
            seq![
                Piece::Text("PREPARE "@),
                Piece::Hole(0),
                Piece::Text("(agtype) AS SELECT * FROM ag_catalog.cypher('"@),
                Piece::Hole(1),
                Piece::Text("', $$ CREATE (c:DocumentChunk {id: $id, documentPath: $documentPath, sectionPath: $sectionPath, content: $content"@),
                Piece::Hole(2),
                Piece::Hole(3),
                Piece::Text("}) RETURN c.id $$, $1) AS (id ag_catalog.agtype)"@),
            ],
        ),
        fills_in(
            |a: (Seq<char>, DocumentChunk)| insert_document_chunk_call(a.0, a.1).execute,
            |a: (Seq<char>, DocumentChunk)| seq!["age_ins_chunk_"@ + simple_id_text(a.1.id), sql_escaped(chunk_json(a.1))],
            2,
            seq![
                Piece::Text("EXECUTE "@),
                Piece::Hole(0),
                Piece::Text("('"@),
                Piece::Hole(1),
                Piece::Text("')"@),
            ],
        ),
        fills_in(
            |a: (Seq<char>, DocumentChunk)| insert_document_chunk_call(a.0, a.1).deallocate,
            |a: (Seq<char>, DocumentChunk)| seq!["age_ins_chunk_"@ + simple_id_text(a.1.id)],
            1,
            seq![
                Piece::Text("DEALLOCATE "@),
                Piece::Hole(0),
            ],
        ),
{
    reveal_with_fuel(filled, 9);
    let f_a = |a: (Seq<char>, DocumentChunk)| insert_document_chunk_call(a.0, a.1).prepare;
    let g_a = |a: (Seq<char>, DocumentChunk)| seq!["age_ins_chunk_"@ + simple_id_text(a.1.id), a.0, parent_binding(a.1.parent_id), project_binding(optional_text(a.1.project))];
    let pieces_a = seq![
        Piece::Text("PREPARE "@),
        Piece::Hole(0),
        Piece::Text("(agtype) AS SELECT * FROM ag_catalog.cypher('"@),
        Piece::Hole(1),
        Piece::Text("', $$ CREATE (c:DocumentChunk {id: $id, documentPath: $documentPath, sectionPath: $sectionPath, content: $content"@),
        Piece::Hole(2),
        Piece::Hole(3),
        Piece::Text("}) RETURN c.id $$, $1) AS (id ag_catalog.agtype)"@),
    ];
    assert(pieces_a[1] == Piece::Hole(0));
    assert(pieces_a[3] == Piece::Hole(1));
    assert(pieces_a[5] == Piece::Hole(2));
    assert(pieces_a[6] == Piece::Hole(3));
    assert(fills_in(f_a, g_a, 4, pieces_a));
    let f_b = |a: (Seq<char>, DocumentChunk)| insert_document_chunk_call(a.0, a.1).execute;
    let g_b = |a: (Seq<char>, DocumentChunk)| seq!["age_ins_chunk_"@ + simple_id_text(a.1.id), sql_escaped(chunk_json(a.1))];
    let pieces_b = seq![
        Piece::Text("EXECUTE "@),
        Piece::Hole(0),
        Piece::Text("('"@),
        Piece::Hole(1),
        Piece::Text("')"@),
    ];
    assert(pieces_b[1] == Piece::Hole(0));
    assert(pieces_b[3] == Piece::Hole(1));
    assert(fills_in(f_b, g_b, 2, pieces_b));
    let f_c = |a: (Seq<char>, DocumentChunk)| insert_document_chunk_call(a.0, a.1).deallocate;
    let g_c = |a: (Seq<char>, DocumentChunk)| seq!["age_ins_chunk_"@ + simple_id_text(a.1.id)];
    let pieces_c = seq![
        Piece::Text("DEALLOCATE "@),
        Piece::Hole(0),
    ];
    assert(pieces_c[1] == Piece::Hole(0));
    assert(fills_in(f_c, g_c, 1, pieces_c));
}

/// The JSON object of a belief is a fixed text with all its properties filled in.
pub proof fn law_belief_json_holds_every_property()
    ensures
        fills_in(
            |a: Belief| belief_json(a),
            |a: Belief| seq![id_text(a.id), json_escaped(a.content@), rfc3339_text( a.created_at.seconds(), a.created_at.subsec_nanos(), ), rfc3339_text( a.last_activated_at.seconds(), a.last_activated_at.subsec_nanos(), ), a.memory_type.name(), project_property( optional_text(a.project), )],
            6,
            seq![
                Piece::Text("{\"id\": \""@),
                Piece::Hole(0),
                Piece::Text("\", \"content\": \""@),
                Piece::Hole(1),
                Piece::Text("\", \"created_at\": \""@),
                Piece::Hole(2),
                Piece::Text("\", \"last_activated_at\": \""@),
                Piece::Hole(3),
                Piece::Text("\", \"memory_type\": \""@),
                Piece::Hole(4),
                Piece::Text("\""@),
                Piece::Hole(5),
                Piece::Text("}"@),
            ],
        ),
{
    reveal_with_fuel(filled, 14);
    let f = |a: Belief| belief_json(a);
    let g = |a: Belief| seq![id_text(a.id), json_escaped(a.content@), rfc3339_text( a.created_at.seconds(), a.created_at.subsec_nanos(), ), rfc3339_text( a.last_activated_at.seconds(), a.last_activated_at.subsec_nanos(), ), a.memory_type.name(), project_property( optional_text(a.project), )];
    let pieces = seq![
        Piece::Text("{\"id\": \""@),
        Piece::Hole(0),
        Piece::Text("\", \"content\": \""@),
        Piece::Hole(1),
        Piece::Text("\", \"created_at\": \""@),
        Piece::Hole(2),
        Piece::Text("\", \"last_activated_at\": \""@),
        Piece::Hole(3),
        Piece::Text("\", \"memory_type\": \""@),
        Piece::Hole(4),
        Piece::Text("\""@),
        Piece::Hole(5),
        Piece::Text("}"@),
    ];
    assert(pieces[1] == Piece::Hole(0));
    assert(pieces[3] == Piece::Hole(1));
    assert(pieces[5] == Piece::Hole(2));
    assert(pieces[7] == Piece::Hole(3));
    assert(pieces[9] == Piece::Hole(4));
    assert(pieces[11] == Piece::Hole(5));
    assert(fills_in(f, g, 6, pieces));
}

/// The JSON object of a pattern is a fixed text with all its properties filled in.
pub proof fn law_pattern_json_holds_every_property()
    ensures
        fills_in(
            |a: Pattern| pattern_json(a),
            |a: Pattern| seq![id_text(a.id), json_escaped(a.situation@), json_escaped(a.approach@), rfc3339_text(a.created_at.seconds(), a.created_at.subsec_nanos()), project_property(optional_text(a.project))],
            5,
            seq![
                Piece::Text("{\"id\": \""@),
                Piece::Hole(0),
                Piece::Text("\", \"situation\": \""@),
                Piece::Hole(1),
                Piece::Text("\", \"approach\": \""@),
                Piece::Hole(2),
                Piece::Text("\", \"created_at\": \""@),
                Piece::Hole(3),
                Piece::Text("\""@),
                Piece::Hole(4),
                Piece::Text("}"@),
            ],
        ),
{
    reveal_with_fuel(filled, 12);
    let f = |a: Pattern| pattern_json(a);
    let g = |a: Pattern| seq![id_text(a.id), json_escaped(a.situation@), json_escaped(a.approach@), rfc3339_text(a.created_at.seconds(), a.created_at.subsec_nanos()), project_property(optional_text(a.project))];
    let pieces = seq![
        Piece::Text("{\"id\": \""@),
        Piece::Hole(0),
        Piece::Text("\", \"situation\": \""@),
        Piece::Hole(1),
        Piece::Text("\", \"approach\": \""@),
        Piece::Hole(2),
        Piece::Text("\", \"created_at\": \""@),
        Piece::Hole(3),
        Piece::Text("\""@),
        Piece::Hole(4),
        Piece::Text("}"@),
    ];
    assert(pieces[1] == Piece::Hole(0));
    assert(pieces[3] == Piece::Hole(1));
    assert(pieces[5] == Piece::Hole(2));
    assert(pieces[7] == Piece::Hole(3));
    assert(pieces[9] == Piece::Hole(4));
    assert(fills_in(f, g, 5, pieces));
}

/// The JSON object of a chunk is a fixed text with all its properties filled in.
pub proof fn law_chunk_json_holds_every_property()
    ensures
        fills_in(
            |a: DocumentChunk| chunk_json(a),
            |a: DocumentChunk| seq![id_text(a.id), json_escaped(a.document_path@), json_elements(texts_view(a.section_path@)), json_escaped(a.content@), parent_property(a.parent_id), project_property(optional_text(a.project))],
            6,
            seq![
                Piece::Text("{\"id\": \""@),
                Piece::Hole(0),
                Piece::Text("\", \"documentPath\": \""@),
                Piece::Hole(1),
                Piece::Text("\", \"sectionPath\": ["@),
                Piece::Hole(2),
                Piece::Text("], \"content\": \""@),
                Piece::Hole(3),
                Piece::Text("\""@),
                Piece::Hole(4),
                Piece::Hole(5),
                Piece::Text("}"@),
            ],
        ),
{
    reveal_with_fuel(filled, 13);
    let f = |a: DocumentChunk| chunk_json(a);
    let g = |a: DocumentChunk| seq![id_text(a.id), json_escaped(a.document_path@), json_elements(texts_view(a.section_path@)), json_escaped(a.content@), parent_property(a.parent_id), project_property(optional_text(a.project))];
    let pieces = seq![
        Piece::Text("{\"id\": \""@),
        Piece::Hole(0),
        Piece::Text("\", \"documentPath\": \""@),
        Piece::Hole(1),
        Piece::Text("\", \"sectionPath\": ["@),
        Piece::Hole(2),
        Piece::Text("], \"content\": \""@),
        Piece::Hole(3),
        Piece::Text("\""@),
        Piece::Hole(4),
        Piece::Hole(5),
        Piece::Text("}"@),
    ];
    assert(pieces[1] == Piece::Hole(0));
    assert(pieces[3] == Piece::Hole(1));
    assert(pieces[5] == Piece::Hole(2));
    assert(pieces[7] == Piece::Hole(3));
    assert(pieces[9] == Piece::Hole(4));
    assert(pieces[10] == Piece::Hole(5));
    assert(fills_in(f, g, 6, pieces));
}

/// A project is a property where there is one, with its name escaped, and none where there
/// is not.
pub proof fn law_projects_are_properties(project: Seq<char>, parent: u128)
    ensures
        project_property(Some(project)) == ", \"project\": \""@ + json_escaped(project) + "\""@,
        project_property(None) == Seq::<char>::empty(),
        project_binding(Some(project)) == ", project: $project"@,
        project_binding(None) == Seq::<char>::empty(),
        parent_property(Some(parent)) == ", \"parentId\": \""@ + id_text(parent) + "\""@,
        parent_property(None) == Seq::<char>::empty(),
        parent_binding(Some(parent)) == ", parentId: $parentId"@,
        parent_binding(None) == Seq::<char>::empty(),
{
    reveal_strlit("");
    assert(""@ =~= Seq::<char>::empty());
}

/// Identifiers are listed in quotes, all of them in their order, with commas between them;
/// texts likewise in a JSON array, escaped.
pub proof fn law_lists_hold_every_item(ids: Seq<u128>, texts: Seq<Seq<char>>)
    ensures
        id_list(ids) == joined_with(
            ids.map_values(|id: u128| "'"@ + id_text(id) + "'"@),
            ", "@,
        ),
        json_elements(texts) == joined_with(
            texts.map_values(|t: Seq<char>| "\""@ + json_escaped(t) + "\""@),
            ", "@,
        ),
{
    lemma_id_list(ids);
    lemma_json_elements(texts);
}

proof fn lemma_id_list(ids: Seq<u128>)
    ensures
        id_list(ids) == joined_with(
            ids.map_values(|id: u128| "'"@ + id_text(id) + "'"@),
            ", "@,
        ),
    decreases ids.len(),
{
    let f = |id: u128| "'"@ + id_text(id) + "'"@;
    let all = ids.map_values(f);
    if ids.len() > 1 {
        lemma_id_list(ids.drop_last());
        assert(all.drop_last() =~= ids.drop_last().map_values(f));
        assert(all.last() == f(ids.last()));
    } else if ids.len() == 1 {
        assert(all[0] == f(ids[0]));
    }
}

proof fn lemma_json_elements(texts: Seq<Seq<char>>)
    ensures
        json_elements(texts) == joined_with(
            texts.map_values(|t: Seq<char>| "\""@ + json_escaped(t) + "\""@),
            ", "@,
        ),
    decreases texts.len(),
{
    let f = |t: Seq<char>| "\""@ + json_escaped(t) + "\""@;
    let all = texts.map_values(f);
    if texts.len() > 1 {
        lemma_json_elements(texts.drop_last());
        assert(all.drop_last() =~= texts.drop_last().map_values(f));
        assert(all.last() == f(texts.last()));
    } else if texts.len() == 1 {
        assert(all[0] == f(texts[0]));
    }
}

/// A limit is written in decimal, whatever it is; where it is zero there is none.
pub proof fn law_limits_are_written_as_they_are(limit: usize)
    ensures
        limit > 0 ==> limit_text(limit) == "LIMIT "@ + decimal(limit as nat),
        limit == 0 ==> limit_text(limit) == Seq::<char>::empty(),
{
}

/// The parameter of a prepared statement is read back from its execution, and the text of
/// a user from that parameter: neither can end the text that it stands in.
pub proof fn law_parameters_are_read_back(json: Seq<char>, text: Seq<char>)
    ensures
        sql_read(sql_escaped(json)) == Some(json),
        json_read(json_escaped(text)) == Some(text),
{
    law_sql_escape_is_read_back(json);
    law_json_escape_is_read_back(text);
}

/// A letter or digit of ASCII, or an underscore, by its code.
pub open spec fn stands_plainly(c: char) -> bool {
    let n = c as u32;
    48 <= n <= 57 || 65 <= n <= 90 || n == 95 || 97 <= n <= 122
}

/// A name can stand in a statement exactly when it is not empty and consists of letters,
/// digits and underscores.
pub proof fn law_names_consist_of_letters_digits_and_underscores(name: Seq<char>)
    ensures
        is_graph_name(name) <==> name.len() > 0 && forall|i: int|
            0 <= i < name.len() ==> stands_plainly(#[trigger] name[i]),
{
    if name.len() > 0 && forall|i: int|
        0 <= i < name.len() ==> stands_plainly(#[trigger] name[i]) {
        assert forall|i: int| 0 <= i < name.len() implies is_name_char(#[trigger] name[i]) by {
            assert(stands_plainly(name[i]));
            lemma_plain(name[i]);
        }
    }
    if is_graph_name(name) {
        assert forall|i: int| 0 <= i < name.len() implies stands_plainly(#[trigger] name[i]) by {
            assert(is_name_char(name[i]));
            lemma_plain(name[i]);
        }
    }
}

proof fn lemma_plain(c: char)
    ensures
        stands_plainly(c) == is_name_char(c),
{
}

/// The label of an edge is the name of its type.
pub proof fn law_edge_labels_are_the_names_of_the_types()
    ensures
        EdgeLabel::Supports.name() == EdgeType::Supports.name(),
        EdgeLabel::Defeats.name() == EdgeType::Defeats.name(),
        EdgeLabel::Causes.name() == EdgeType::Causes.name(),
        EdgeLabel::Contradicts.name() == EdgeType::Contradicts.name(),
{
}

} // verus!
