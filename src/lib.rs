//! An in-process full-text search engine: a tokenizer, a term-frequency
//! index over documents, ranking ingredients with phrase and coverage
//! heuristics, and the decisions of an incremental indexing pipeline.

pub mod assoc;
pub mod ignore_rules;
pub mod laws;
pub mod model;
pub mod pipeline;
pub mod ranking;
pub mod terms;
pub mod tokenizer;
