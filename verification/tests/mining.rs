//! End-to-end mining scenarios over a small phenotype ontology.

use fenominal::core_document::CoreDocument;
use fenominal::fenominal::{Fenominal, FenominalHit};
use fenominal::simple_sentence::tokenize;
use fenominal::hpo::simple_hpo_parser::{HpEdge, HpNode, SimpleOntology};

fn node(id: &str, label: &str) -> HpNode {
    HpNode::new(id, label, Vec::new())
}

fn edge(child: &str, parent: &str) -> HpEdge {
    HpEdge::new(child.to_string(), parent.to_string())
}

/// A small ontology with the phenotype root and a handful of terms.
fn small_ontology() -> SimpleOntology {
    let nodes = vec![
        node("HP:0000001", "All"),
        node("HP:0000118", "Phenotypic abnormality"),
        node("HP:0001249", "Intellectual disability"),
        node("HP:0000256", "Macrocephaly"),
        node("HP:0002650", "Scoliosis"),
        node("HP:0000175", "Cleft palate"),
        node("HP:0000126", "Hydronephrosis"),
    ];
    let edges = vec![
        edge("HP:0000118", "HP:0000001"),
        edge("HP:0001249", "HP:0000118"),
        edge("HP:0000256", "HP:0000118"),
        edge("HP:0002650", "HP:0000118"),
        edge("HP:0000175", "HP:0000118"),
        edge("HP:0000126", "HP:0000118"),
    ];
    SimpleOntology::new(edges, nodes, "test")
}

fn miner() -> Fenominal {
    Fenominal::new(small_ontology()).unwrap()
}

#[test]
fn three_terms_in_order() {
    let fenominal = miner();
    let text = "Intellectual disability, macrocephaly, scoliosis";
    let hits: Vec<FenominalHit> = fenominal.process(text);
    let labels: Vec<&str> = hits.iter().map(|h| h.label.as_str()).collect();
    assert_eq!(vec!["Intellectual disability", "Macrocephaly", "Scoliosis"], labels);
    assert!(hits.iter().all(|h| h.is_observed));
}

#[test]
fn negated_sentence_is_excluded() {
    let fenominal = miner();
    let hits = fenominal.process("The patient did not have macrocephaly.");
    assert_eq!(1, hits.len());
    assert_eq!("Macrocephaly", hits[0].label);
    assert_eq!("HP:0000256", hits[0].term_id);
    assert!(!hits[0].is_observed);
}

#[test]
fn cleft_palate_span() {
    let fenominal = miner();
    let text = "Physical examination showed a cleft palate which had been surgically corrected";
    let hits = fenominal.process(text);
    assert_eq!(1, hits.len());
    assert_eq!("Cleft palate", hits[0].label);
    assert_eq!(text.find("cleft").unwrap(), hits[0].span.start);
    assert_eq!(text.find("palate").unwrap() + "palate".len(), hits[0].span.end);
}

#[test]
fn hydronephrosis_offset() {
    let fenominal = miner();
    let text = "fetal hydronephrosis and bilateral dilated ureter";
    let hits = fenominal.process(text);
    assert_eq!(1, hits.len());
    assert_eq!("Hydronephrosis", hits[0].label);
    assert_eq!(text.find("hydronephrosis").unwrap(), hits[0].span.start);
}

#[test]
fn excluded_finding() {
    let fenominal = miner();
    let hits = fenominal.process("Macrocephaly was excluded.");
    assert_eq!(1, hits.len());
    assert_eq!("Macrocephaly", hits[0].label);
    assert!(!hits[0].is_observed);
}

#[test]
fn empty_input_gives_no_hits() {
    let fenominal = miner();
    let hits = fenominal.process("");
    assert!(hits.is_empty());
}

#[test]
fn stop_words_and_punctuation_only() {
    let fenominal = miner();
    let hits = fenominal.process("the, and of... to; on!");
    assert!(hits.is_empty());
}

#[test]
fn process_is_deterministic() {
    let fenominal = miner();
    let text = "Macrocephaly was excluded. Scoliosis and intellectual disability were seen.";
    let first = fenominal.process(text);
    let second = fenominal.process(text);
    assert_eq!(first.len(), second.len());
    for (a, b) in first.iter().zip(second.iter()) {
        assert_eq!(a.term_id, b.term_id);
        assert_eq!(a.label, b.label);
        assert_eq!(a.span, b.span);
        assert_eq!(a.is_observed, b.is_observed);
    }
}

#[test]
fn hits_are_ordered_and_disjoint() {
    let fenominal = miner();
    let text = "Scoliosis was seen. Macrocephaly and hydronephrosis were noted and cleft palate persisted.";
    let hits = fenominal.process(text);
    assert_eq!(4, hits.len());
    for h in &hits {
        assert!(h.span.start < h.span.end);
        assert!(h.span.end <= text.len());
    }
    for w in hits.windows(2) {
        assert!(w[0].span.end <= w[1].span.start);
    }
}

#[test]
fn negation_is_per_sentence() {
    let fenominal = miner();
    let text = "Macrocephaly was excluded. Scoliosis was seen.";
    let hits = fenominal.process(text);
    assert_eq!(2, hits.len());
    assert_eq!("Macrocephaly", hits[0].label);
    assert!(!hits[0].is_observed);
    assert_eq!("Scoliosis", hits[1].label);
    assert!(hits[1].is_observed);
}

#[test]
fn word_order_within_window_does_not_matter() {
    // matching is set equality over non-stop words
    let fenominal = miner();
    let hits = fenominal.process("disability intellectual");
    assert_eq!(1, hits.len());
    assert_eq!("Intellectual disability", hits[0].label);
}

#[test]
fn term_outside_phenotype_subtree_not_matched() {
    let mut nodes = vec![
        node("HP:0000001", "All"),
        node("HP:0000118", "Phenotypic abnormality"),
        node("HP:0000256", "Macrocephaly"),
    ];
    // a mode-of-inheritance style term outside the phenotype subtree
    nodes.push(node("HP:0000005", "Sporadic condition"));
    let edges = vec![
        edge("HP:0000118", "HP:0000001"),
        edge("HP:0000256", "HP:0000118"),
        edge("HP:0000005", "HP:0000001"),
    ];
    let fenominal = Fenominal::new(SimpleOntology::new(edges, nodes, "test")).unwrap();
    assert!(fenominal.process("a sporadic condition").is_empty());
    assert_eq!(1, fenominal.process("macrocephaly").len());
}

#[test]
fn synonyms_are_indexed() {
    let nodes = vec![
        node("HP:0000118", "Phenotypic abnormality"),
        HpNode::new(
            "HP:0000256",
            "Macrocephaly",
            vec!["Big head".to_string(), "Increased head size".to_string()],
        ),
    ];
    let edges = vec![edge("HP:0000256", "HP:0000118")];
    let fenominal = Fenominal::new(SimpleOntology::new(edges, nodes, "test")).unwrap();
    let hits = fenominal.process("Big head was noted.");
    assert_eq!(1, hits.len());
    // the hit resolves to the primary label, not the synonym
    assert_eq!("Macrocephaly", hits[0].label);
    assert_eq!("HP:0000256", hits[0].term_id);
}

#[test]
fn blocklisted_and_short_surface_forms_are_skipped() {
    let nodes = vec![
        node("HP:0000118", "Phenotypic abnormality"),
        HpNode::new("HP:0001324", "Weakness", vec!["Asthenia".to_string()]),
        node("HP:0000478", "Eye"),
    ];
    let edges = vec![edge("HP:0001324", "HP:0000118"), edge("HP:0000478", "HP:0000118")];
    let fenominal = Fenominal::new(SimpleOntology::new(edges, nodes, "test")).unwrap();
    // "weakness" is blocklisted, "eye" is shorter than four characters
    assert!(fenominal.process("generalized weakness").is_empty());
    assert!(fenominal.process("the eye").is_empty());
    // the synonym of the blocklisted label still matches
    assert_eq!(1, fenominal.process("asthenia").len());
}

#[test]
fn stop_word_label_is_never_matched() {
    let nodes = vec![
        node("HP:0000118", "Phenotypic abnormality"),
        node("HP:0999999", "with"),
    ];
    let edges = vec![edge("HP:0999999", "HP:0000118")];
    let fenominal = Fenominal::new(SimpleOntology::new(edges, nodes, "test")).unwrap();
    // the label passes the length filter but its non-stop set is empty
    assert!(fenominal.process("with").is_empty());
}

#[test]
fn longest_match_wins() {
    let nodes = vec![
        node("HP:0000118", "Phenotypic abnormality"),
        node("HP:0000175", "Cleft palate"),
        node("HP:0000163", "Palate"),
    ];
    let edges = vec![edge("HP:0000175", "HP:0000118"), edge("HP:0000163", "HP:0000118")];
    let fenominal = Fenominal::new(SimpleOntology::new(edges, nodes, "test")).unwrap();
    // the two-token match covers and beats the one-token match inside it
    let hits = fenominal.process("cleft palate");
    assert_eq!(1, hits.len());
    assert_eq!("Cleft palate", hits[0].label);
}

#[test]
fn term_ids_deduplicated_in_order() {
    let fenominal = miner();
    let text = "Scoliosis was seen. Macrocephaly and scoliosis were confirmed.";
    let ids = fenominal.process_term_ids(text);
    let id_texts: Vec<String> = ids.iter().map(|t| t.curie()).collect();
    assert_eq!(vec!["HP:0002650".to_string(), "HP:0000256".to_string()], id_texts);
}

#[test]
fn tokenizing_sentence_substring_roundtrip() {
    let text = "Macrocephaly was excluded.  Scoliosis persisted";
    let doc = CoreDocument::new(text);
    for ss in doc.get_sentences() {
        let sub = &text[ss.get_start_pos()..ss.get_end_pos()];
        let retokenized = tokenize(sub);
        let stored = ss.get_tokens();
        assert_eq!(stored.len(), retokenized.len());
        for (a, b) in stored.iter().zip(retokenized.iter()) {
            assert_eq!(a.get_original_token(), b.get_original_token());
            assert_eq!(a.get_start_pos(), b.get_start_pos());
            assert_eq!(a.get_end_pos(), b.get_end_pos());
        }
    }
}

#[test]
fn question_and_exclamation_terminate_sentences() {
    let fenominal = miner();
    let text = "Macrocephaly was excluded! Scoliosis was seen? Hydronephrosis persisted.";
    let hits = fenominal.process(text);
    assert_eq!(3, hits.len());
    assert!(!hits[0].is_observed);
    assert!(hits[1].is_observed);
    assert!(hits[2].is_observed);
}

#[test]
fn numeric_period_splits_sentences() {
    // a period inside a number still ends the sentence
    let doc = CoreDocument::new("The value was 2.5 today.");
    let sents = doc.get_sentences();
    assert_eq!(2, sents.len());
    assert_eq!("The value was 2.", sents[0].get_sentence());
    assert_eq!("5 today.", sents[1].get_sentence());
}

#[test]
fn window_cap_is_independent_of_dictionary_cap() {
    // ten words can still be matched as one window, eleven cannot
    let ten = "alfa bravo charlie delta echo foxtrot golf hotel india juliett";
    let eleven = "alfa bravo charlie delta echo foxtrot golf hotel india juliett kilo";
    let ten_nodes = vec![node("HP:0000118", "Phenotypic abnormality"), node("HP:0000010", ten)];
    let ten_edges = vec![edge("HP:0000010", "HP:0000118")];
    let with_ten = Fenominal::new(SimpleOntology::new(ten_edges, ten_nodes, "test")).unwrap();
    assert_eq!(1, with_ten.process(ten).len());
    let eleven_nodes = vec![
        node("HP:0000118", "Phenotypic abnormality"),
        node("HP:0000011", eleven),
    ];
    let eleven_edges = vec![edge("HP:0000011", "HP:0000118")];
    let with_eleven = Fenominal::new(
        SimpleOntology::new(eleven_edges, eleven_nodes, "test"),
    ).unwrap();
    assert!(with_eleven.process(eleven).is_empty());
}

#[test]
fn hit_record_accessors() {
    let fenominal = miner();
    let hits = fenominal.process("macrocephaly");
    assert_eq!(1, hits.len());
    let hit = hits[0].clone();
    let span = hit.get_span();
    assert_eq!(0, span.start);
    assert_eq!("macrocephaly".len(), span.end);
    assert_eq!(hit.term_id, hits[0].term_id);
    assert_eq!(hit.label, hits[0].label);
}
