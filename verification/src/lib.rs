//! A small full-text search engine core: an offline indexer that tokenizes a
//! corpus and writes a fixed-width inverted index (dictionary, postings,
//! document map, sizes metadata), and a query evaluator that probes that index
//! by hash and ranks documents by quantized TF-IDF weight.

pub mod constants;
pub mod decimal;
pub mod hashtable;
pub mod weight;
pub mod data_models;
pub mod parser;
pub mod indexer;
pub mod write_query_files;
pub mod read_query_files;
pub mod web_result;
