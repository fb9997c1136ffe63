//! Unit tests of the building blocks: stop words, tokens, sentences,
//! partitions, concepts and identifiers.

use fenominal::core_document::CoreDocument;
use fenominal::hpo::hpo_concept::HpoConcept;
use fenominal::hpo::partition::Partition;
use fenominal::hpo::simple_hpo_parser::get_hp_id;
use fenominal::simple_sentence::SimpleSentence;
use fenominal::simple_token::SimpleToken;
use fenominal::stopwords::is_stop;
use fenominal::term_id::TermId;
use fenominal::word_set::WordSet;

const SENTENCE1: &str = "The quick brown fox jumps over the lazy dog. ";

#[test]
fn test_stop() {
    let tests = vec![
        ("a", true),
        ("the", true),
        ("and", true),
        ("of", true),
        ("in", true),
        ("to", true),
        ("on", true),
        ("an", true),
        ("with", true),
        ("tada", false),
        ("red", false),
    ];
    for test in tests {
        let is_stop_w = is_stop(test.0);
        assert_eq!(test.1, is_stop_w);
    }
}

#[test]
fn stop_words_case_insensitive() {
    // the lowercased word decides
    assert!(is_stop("The"));
    assert!(is_stop("WITH"));
    assert!(is_stop("An"));
    assert!(!is_stop("Thee"));
}

#[test]
fn concept_words_are_lowercased() {
    let hconcept = HpoConcept::new("Cleft Palate", TermId::new("HP", "0000175"));
    let mut expected = WordSet::new();
    expected.insert("cleft");
    expected.insert("palate");
    assert!(hconcept.non_stop_set_equal(&expected));
    // the original surface text is kept as given
    assert_eq!("Cleft Palate", hconcept.get_original_concept());
}

#[test]
fn unicode_whitespace_splits_words() {
    // a no-break space separates words like an ASCII space
    let hconcept = HpoConcept::new("cleft\u{a0}palate", TermId::new("HP", "0000175"));
    assert_eq!(2, hconcept.word_count());
}

#[test]
fn test_lower_case() {
    let tests = vec![("Orange", "orange"), ("Apple", "apple"), ("pear", "pear")];
    for test in tests {
        let st = SimpleToken::new(test.0, test.0, 1, 2);
        assert_eq!(test.1, st.get_lc_original_token());
    }
}

#[test]
fn test_equality() {
    let ssentence = SimpleSentence::new(SENTENCE1, 0, 2);
    assert_eq!(SENTENCE1, ssentence.get_sentence());
}

#[test]
fn test_tokenize() {
    // sentence 1 has nine tokens
    let ssentence = SimpleSentence::new(SENTENCE1, 0, 2);
    assert_eq!(9, ssentence.get_tokens().len());
}

#[test]
fn test_equality_of_tokens() {
    let ssentence = SimpleSentence::new(SENTENCE1, 0, 2);
    let tokens = ssentence.get_tokens();
    assert_eq!("The", tokens.get(0).unwrap().get_original_token());
    assert_eq!("quick", tokens.get(1).unwrap().get_original_token());
    assert_eq!("brown", tokens.get(2).unwrap().get_original_token());
    assert_eq!("fox", tokens.get(3).unwrap().get_original_token());
    assert_eq!("jumps", tokens.get(4).unwrap().get_original_token());
    assert_eq!("over", tokens.get(5).unwrap().get_original_token());
    assert_eq!("the", tokens.get(6).unwrap().get_original_token());
    assert_eq!("lazy", tokens.get(7).unwrap().get_original_token());
    assert_eq!("dog", tokens.get(8).unwrap().get_original_token());
}

#[test]
fn test_test_positions() {
    let ssentence = SimpleSentence::new(SENTENCE1, 106, 202);
    assert_eq!(106, ssentence.get_start_pos());
    assert_eq!(202, ssentence.get_end_pos());
}

#[test]
fn test_integer_partition() {
    let list = vec![1, 2, 3, 4, 5, 6, 7, 8, 9, 10];
    let partition = Partition::new(&list, 3);
    assert_eq!(3, partition.count());
    let p1 = partition.get(0);
    assert!(p1.is_some());
    let p1 = p1.unwrap();
    assert_eq!(vec![1, 2, 3], p1);
    let p2 = partition.get(1);
    assert!(p2.is_some());
    let p2 = p2.unwrap();
    assert_eq!(vec![4, 5, 6], p2);
}

#[test]
fn partition_rejects_short_tail() {
    let list = vec![1, 2, 3, 4, 5, 6, 7, 8, 9, 10];
    let partition = Partition::new(&list, 3);
    // the trailing 10 does not form a full chunk
    assert!(partition.get(3).is_none());
    assert!(partition.get(100).is_none());
}

#[test]
fn test() {
    // Cone-shaped epiphysis of the proximal phalanx of the 3rd finger HP:0009348
    let term_id: TermId = TermId::new("HP", "0009348");
    let term_label = "Cone-shaped epiphysis of the proximal phalanx of the 3rd finger";
    let hconcept = HpoConcept::new(term_label, term_id);
    assert_eq!(term_label, hconcept.get_original_concept());
    // We have 8 words but only 6 non-stop words ("of" and "the" are stop words)
    assert_eq!(6, hconcept.word_count());
    let mut nstops = WordSet::new();
    for w in ["cone-shaped", "epiphysis", "proximal", "phalanx", "3rd", "finger"] {
        nstops.insert(w);
    }
    assert!(hconcept.non_stop_set_equal(&nstops));
    assert!(!hconcept.has_comma());
}

#[test]
fn test_curification() {
    let uri = "http://purl.obolibrary.org/obo/HP_6000699";
    let curie = get_hp_id(uri);
    assert_eq!("HP:6000699", curie);
}

#[test]
fn test_ctor() {
    let term_id: TermId = TermId::from_curie("HP:0001250").unwrap();
    assert_eq!("HP:0001250", term_id.curie());
}

#[test]
fn term_id_needs_colon() {
    assert!(TermId::from_curie("HP0001250").is_none());
}

#[test]
fn sentence_splitting_spans() {
    let text = "One sentence. A second one!  And a third?No terminator here";
    let doc = CoreDocument::new(text);
    assert_eq!(text, doc.original_text());
    let sents = doc.get_sentences();
    assert_eq!(4, sents.len());
    assert_eq!("One sentence.", sents[0].get_sentence());
    assert_eq!(0, sents[0].get_start_pos());
    assert_eq!(14, sents[0].get_end_pos());
    assert_eq!("A second one!", sents[1].get_sentence());
    assert_eq!(14, sents[1].get_start_pos());
    assert_eq!(29, sents[1].get_end_pos());
    assert_eq!("And a third?", sents[2].get_sentence());
    assert_eq!("No terminator here", sents[3].get_sentence());
    assert_eq!(text.len(), sents[3].get_end_pos());
}

#[test]
fn whitespace_only_input_has_no_sentences() {
    let doc = CoreDocument::new("   ");
    assert_eq!(0, doc.get_sentences().len());
}

#[test]
fn tokens_join_on_hyphen_and_apostrophe() {
    let ss = SimpleSentence::new("Cone-shaped; it's 3rd-rate", 0, 0);
    let toks = ss.get_tokens();
    let surfaces: Vec<&str> = toks.iter().map(|t| t.get_original_token()).collect();
    assert_eq!(vec!["Cone-shaped", "it's", "rd-rate"], surfaces);
    assert_eq!(0, toks[0].get_start_pos());
    assert_eq!(11, toks[0].get_end_pos());
}

#[test]
fn word_set_ignores_order_and_duplicates() {
    let mut a = WordSet::new();
    a.insert("alpha");
    a.insert("beta");
    a.insert("alpha");
    let mut b = WordSet::new();
    b.insert("beta");
    b.insert("alpha");
    assert_eq!(2, a.len());
    assert!(a.set_eq(&b));
    let mut c = WordSet::new();
    c.insert("alpha");
    assert!(!a.set_eq(&c));
}
