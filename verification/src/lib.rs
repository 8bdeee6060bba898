use vstd::prelude::*;

pub mod text;
pub mod paths;
pub mod native;
pub mod note_path;
pub mod vault_path;
pub mod scan;
pub mod extract;
pub mod errors;
pub mod tags;
pub mod lines;
pub mod tasks;
pub mod words;
pub mod tokenizer;
pub mod query;
pub mod search_query;
pub mod links;
pub mod sections;
pub mod parser;
pub mod note;
pub mod revisions;
pub mod order;
pub mod index;
pub mod section_store;
pub mod data_uri;
pub mod storage;
pub mod replace;
pub mod core_logic;
pub mod observer;
pub mod responses;
pub mod tool_modes;
pub mod render;
pub mod config;
pub mod prompts;
pub mod term_store;
pub mod resources;
pub mod tag_filter;
pub mod grams;

verus! {
} // verus!
