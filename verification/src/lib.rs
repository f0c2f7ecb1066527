//! Library search: indexing, retrieval and citation logic for a personal book library.
pub mod text;
pub mod rows;
pub mod types;
pub mod manifest;
pub mod ids;
pub mod plan;
pub mod formats;
pub mod book;
pub mod pattern;
pub mod chunk;
pub mod order;
pub mod maintenance;
pub mod repair;
pub mod sections;
pub mod json;
pub mod decode;
pub mod html;
pub mod render;
pub mod xml;
pub mod markup;
pub mod rtf;
pub mod notebook;
pub mod extract;
pub mod ebook;
pub mod fnv;
pub mod convert;
pub mod stats;
pub mod run;
pub mod service;
pub mod fast;
pub mod unicode;
pub mod rank;
pub mod store;
pub mod catalog;
pub mod spell;
pub mod query;
pub mod prompt;
pub mod think;
pub mod stream;
pub mod llm;
pub mod journal;
pub mod artifacts;
pub mod settings;
pub mod discover;
pub mod bridge;
pub mod citemetric;
pub mod citecheck;
pub mod ask;
pub mod shape;
pub mod text_laws;
pub mod number_laws;
pub mod tidy_laws;
pub mod naming_laws;
pub mod manifest_laws;
pub mod state_laws;
pub mod plan_laws;
pub mod decision_laws;
pub mod run_laws;
pub mod progress_laws;
pub mod chunk_laws;
pub mod packing_laws;
pub mod unit_laws;
pub mod section_laws;
pub mod markup_laws;
pub mod reading_laws;
pub mod page_laws;
pub mod passage_laws;
pub mod outcome_laws;
pub mod upkeep_laws;
pub mod report_laws;
pub mod repair_laws;
pub mod tally_laws;
pub mod catalog_laws;
pub mod word_laws;
pub mod search_laws;
pub mod prompt_laws;
pub mod record_laws;
pub mod document_laws;
pub mod cite_laws;
pub mod verdict_laws;
pub mod reach_laws;
pub mod helper_laws;
pub mod wire_laws;
