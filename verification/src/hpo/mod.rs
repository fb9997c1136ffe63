//! The ontology-backed dictionary and the sentence-level matcher.

pub mod hpo_concept;
pub mod hpo_concept_mapper;
pub mod default_hpo_mapper;
pub mod partition;
pub mod sentence_mapper;
pub mod simple_hpo_parser;
pub mod term_label_map;
