//! Text mining of clinical descriptions against a phenotype ontology.
//!
//! The library splits an input text into sentences, tokenizes each sentence,
//! probes a dictionary built from ontology term labels and synonyms with
//! order-free lexical-set equality, resolves overlapping candidates by a
//! longest-non-overlapping selection, and flags hits found in sentences that
//! contain a negation cue.

pub mod core_document;
pub mod error;
pub mod fenominal;
pub mod hpo;
pub mod laws;
pub mod simple_sentence;
pub mod simple_token;
pub mod stopwords;
pub mod term_id;
pub mod text;
pub mod word_set;
