//! Tests of dictionary construction: entries, sizes, the size cap, and the
//! descendant computation.

use fenominal::error::FenominalError;
use fenominal::fenominal::Fenominal;
use fenominal::hpo::default_hpo_mapper::DefaultHpoMapper;
use fenominal::hpo::simple_hpo_parser::{
    get_descendants, HpEdge, HpNode, SimpleHpoParser, SimpleOntology,
};
use fenominal::hpo::term_label_map::TermLabelMap;
use fenominal::term_id::TermId;

fn node(id: &str, label: &str) -> HpNode {
    HpNode::new(id, label, Vec::new())
}

fn edge(child: &str, parent: &str) -> HpEdge {
    HpEdge::new(child.to_string(), parent.to_string())
}

#[test]
fn descendants_follow_edges_transitively() {
    let edges = vec![
        edge("HP:2", "HP:1"),
        edge("HP:3", "HP:2"),
        edge("HP:4", "HP:9"),
        edge("HP:5", "HP:3"),
    ];
    let d = get_descendants(&edges, "HP:1");
    assert!(d.contains("HP:1"));
    assert!(d.contains("HP:2"));
    assert!(d.contains("HP:3"));
    assert!(d.contains("HP:5"));
    assert!(!d.contains("HP:4"));
    assert!(!d.contains("HP:9"));
    assert_eq!(4, d.len());
}

#[test]
fn descendants_tolerate_cycles() {
    let edges = vec![edge("HP:2", "HP:1"), edge("HP:1", "HP:2"), edge("HP:3", "HP:2")];
    let d = get_descendants(&edges, "HP:1");
    assert!(d.contains("HP:1"));
    assert!(d.contains("HP:2"));
    assert!(d.contains("HP:3"));
}

#[test]
fn text_to_term_map_entries() {
    let nodes = vec![
        node("HP:0000118", "Phenotypic abnormality"),
        HpNode::new("HP:0000256", "Macrocephaly", vec!["Big head".to_string()]),
        node("HP:0099999", "Unreachable term"),
    ];
    let edges = vec![edge("HP:0000256", "HP:0000118")];
    let parser = SimpleHpoParser::new(SimpleOntology::new(edges, nodes, "test"));
    let map = parser.get_text_to_term_map();
    let keys: Vec<&str> = map.iter().map(|p| p.0.as_str()).collect();
    assert!(keys.contains(&"phenotypic abnormality"));
    assert!(keys.contains(&"macrocephaly"));
    assert!(keys.contains(&"big head"));
    assert!(!keys.contains(&"unreachable term"));
    for p in &map {
        if p.0 == "macrocephaly" || p.0 == "big head" {
            assert_eq!("HP:0000256", p.1.curie());
        }
    }
}

#[test]
fn duplicate_surface_form_keeps_last_term() {
    let nodes = vec![
        node("HP:0000118", "Phenotypic abnormality"),
        node("HP:0000001", "Shared form"),
        node("HP:0000002", "Shared form"),
    ];
    let edges = vec![edge("HP:0000001", "HP:0000118"), edge("HP:0000002", "HP:0000118")];
    let parser = SimpleHpoParser::new(SimpleOntology::new(edges, nodes, "test"));
    let map = parser.get_text_to_term_map();
    let shared: Vec<&(String, TermId)> = map.iter().filter(|p| p.0 == "shared form").collect();
    assert_eq!(1, shared.len());
    assert_eq!("HP:0000002", shared[0].1.curie());
}

#[test]
fn dictionary_entry_too_long_is_an_error() {
    let long_label = "one two three four five sixx seven eight nine tenn eleven twelve thirteen fourteen fifteen";
    let nodes = vec![node("HP:0000118", "Phenotypic abnormality"), node("HP:0000001", long_label)];
    let edges = vec![edge("HP:0000001", "HP:0000118")];
    let r = Fenominal::new(SimpleOntology::new(edges, nodes, "test"));
    assert!(r.is_err());
    let e = r.err().unwrap();
    assert!(matches!(e, FenominalError::DictionaryEntryTooLong { .. }));
    assert!(e.message().contains("too many words"));
}

#[test]
fn fourteen_words_still_fit() {
    let label = "one two three four five sixx seven eight nine tenn eleven twelve thirteen fourteen";
    let nodes = vec![node("HP:0000118", "Phenotypic abnormality"), node("HP:0000001", label)];
    let edges = vec![edge("HP:0000001", "HP:0000118")];
    assert!(Fenominal::new(SimpleOntology::new(edges, nodes, "test")).is_ok());
}

#[test]
fn from_map_matches_by_set_equality() {
    let entries = vec![
        ("cleft palate".to_string(), TermId::from_curie("HP:0000175").unwrap()),
        ("macrocephaly".to_string(), TermId::from_curie("HP:0000256").unwrap()),
    ];
    let mapper = DefaultHpoMapper::from_map(&entries).unwrap();
    let hit = mapper.get_match(&vec!["palate".to_string(), "cleft".to_string()]);
    assert!(hit.is_some());
    assert_eq!("HP:0000175", hit.unwrap().get_hpo_id().curie());
    assert!(mapper.get_match(&vec!["palate".to_string()]).is_none());
    assert!(mapper.get_match(&vec![]).is_none());
}

#[test]
fn mixed_case_entries_match_lowercased_tokens() {
    let entries = vec![("Cleft Palate".to_string(), TermId::from_curie("HP:0000175").unwrap())];
    let mapper = DefaultHpoMapper::from_map(&entries).unwrap();
    let hit = mapper.get_match(&vec!["cleft".to_string(), "palate".to_string()]);
    assert!(hit.is_some());
    assert_eq!("HP:0000175", hit.unwrap().get_hpo_id().curie());
}

#[test]
fn first_added_concept_wins_on_identical_sets() {
    let entries = vec![
        ("cleft palate".to_string(), TermId::from_curie("HP:0000175").unwrap()),
        ("palate cleft".to_string(), TermId::from_curie("HP:0099999").unwrap()),
    ];
    let mapper = DefaultHpoMapper::from_map(&entries).unwrap();
    let hit = mapper.get_match(&vec!["cleft".to_string(), "palate".to_string()]);
    assert_eq!("HP:0000175", hit.unwrap().get_hpo_id().curie());
}

#[test]
fn term_label_map_first_insertion_wins() {
    let mut m = TermLabelMap::new();
    m.insert("HP:1", "First label");
    m.insert("HP:2", "Other");
    m.insert("HP:1", "Second label");
    assert_eq!(2, m.len());
    assert_eq!("First label", m.get("HP:1").unwrap());
    assert_eq!("Other", m.get("HP:2").unwrap());
    assert!(m.get("HP:3").is_none());
}
