//! A graph of beliefs with probabilities.
//!
//! Beliefs support, defeat, cause and contradict each other. The library holds
//! what is computed and decided over that graph; talking to the database, to
//! embedding models and to clients is left to the program around it.
//!
//! - `graph`: probabilities, beliefs, patterns, edges and their counts
//! - `inference`, `inference_laws`, `order_laws`: propagation, interventions,
//!   contradictions, decay and expiry
//! - `downstream`: the beliefs that a belief bears on
//! - `posterior`, `aging_laws`: the counts of beliefs, from their priors and their
//!   evidence, and what time leaves of them
//! - `retrieval`, `fusion`, `sorting`: which beliefs answer a query, and in
//!   which order
//! - `documents`, `service`: markdown chunks, and the passages that ground beliefs
//! - `store`, `escape`, `rows`: statements for the graph database, and its rows
//! - `tools`, `json`, `rpc`, `replies`: the tools that clients call
//! - `cli`, `hooks`: what the command line and the hooks of a session show
//! - `connection`, `embedding`: how to reach the database and the models
//! - `binary64`, `binary32`, `rounding`: floating-point numbers by their bit
//!   patterns, with exactly rounded arithmetic
//! - `ids`, `time`, `text`, `sequences`: identifiers, points in time, texts and lists
//!
//! What holds of these as a whole is stated in modules of its own:
//!
//! - `propagation_laws`, `iteration_laws`, `walk_laws`: what propagations,
//!   interventions and walks make of any graph
//! - `upkeep_laws`, `number_laws`, `float_laws`: what time changes, and how near the
//!   numbers are to the exact ones
//! - `retrieval_laws`, `vector_laws`, `document_laws`, `service_laws`: what queries
//!   find, and what documents are split into
//! - `tool_laws`, `schema_laws`, `interface_laws`: what calls are taken for, what is
//!   listed of them, and what is answered
//! - `store_laws`, `record_laws`, `escape_laws`, `text_laws`: what is written to the
//!   database and read from it
pub mod aging_laws;
pub mod binary32;
pub mod binary64;
pub mod cli;
pub mod connection;
pub mod document_laws;
pub mod documents;
pub mod downstream;
pub mod embedding;
pub mod escape;
pub mod escape_laws;
pub mod float_laws;
pub mod fusion;
pub mod graph;
pub mod hooks;
pub mod ids;
pub mod inference;
pub mod inference_laws;
pub mod interface_laws;
pub mod iteration_laws;
pub mod json;
pub mod number_laws;
pub mod order_laws;
pub mod posterior;
pub mod propagation_laws;
pub mod record_laws;
pub mod replies;
pub mod retrieval;
pub mod retrieval_laws;
pub mod rounding;
pub mod rows;
pub mod rpc;
pub mod schema_laws;
pub mod sequences;
pub mod service;
pub mod service_laws;
pub mod sorting;
pub mod store;
pub mod store_laws;
pub mod text;
pub mod text_laws;
pub mod time;
pub mod tool_laws;
pub mod tools;
pub mod upkeep_laws;
pub mod vector_laws;
pub mod walk_laws;
