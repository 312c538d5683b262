//! nqlite: a deterministic, embedded store for agent memory, and nql, its query language.
//!
//! Records, directed named edges and client-supplied embeddings live in one ordered [`ir::Store`].
//! [`parser::parse`] turns nql text into a [`ir::Plan`], [`analyzer::Analyzer`] checks and enriches
//! it, and [`engine::execute_plan`] runs it. Everything in this crate works on integers, text and
//! collections. Floating-point values travel through it as IEEE-754 bit patterns, and the
//! arithmetic on them is a function that the caller passes in.
use vstd::prelude::*;

pub mod text;
pub mod ordmap;
pub mod number;
pub mod ir;
pub mod lexer;
pub mod parser;
pub mod spelling;
pub mod analyzer;
pub mod bm25;
pub mod error;
pub mod storage;
pub mod score;
pub mod votes;
pub mod select;
pub mod walk;
pub mod engine;
pub mod index;
pub mod harness;
pub mod database;
pub mod render;
pub mod server;
pub mod cli;
pub mod json;
pub mod mcp;
pub mod bench;

pub use analyzer::{AnalysisError, Analyzer};
pub use bm25::{tokenize, Bm25Index};
pub use database::Database;
pub use engine::{execute_plan, execute_statement, QueryKind, QueryResult};
pub use error::Error;
pub use index::{BruteForceVectorIndex, HnswVectorIndex, VectorIndex};
pub use ir::{
    Filter, Id, Knn, MatchDirection, MatchPath, MatchStep, Order, Plan, Record, RecordId, RelationEdge,
    Select, Statement, Store, Value, VectorSpec, VoteCounts,
};
pub use parser::{parse, parse_statement, NqlError};
pub use select::ScoredRecord;
pub use storage::{StorageError, StoreFile};

verus! {

} // verus!
