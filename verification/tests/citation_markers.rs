//! Behaviour of the two citation marker formatters.

use citemark::AtomicCitation;
use citemark::CitationError;
use citemark::CitationFormatter;
use citemark::CitationMode;
use citemark::KeyCitationFormatter;
use citemark::NumericalCitationFormatter;

fn cite(key: &str, supplement: Option<&str>, number: Option<usize>) -> AtomicCitation {
    AtomicCitation {
        key: key.to_string(),
        supplement: supplement.map(|s| s.to_string()),
        number,
    }
}

fn keys(names: &[&str]) -> Vec<String> {
    names.iter().map(|s| s.to_string()).collect()
}

#[test]
fn key_formatter_preserves_order_and_supplements() {
    let f = KeyCitationFormatter::new(keys(&["a", "b"]));
    let citation = vec![cite("a", None, None), cite("b", Some("p.3"), None)];
    assert_eq!(f.get_reference(&citation).unwrap(), "a, b (p.3)");
}

#[test]
fn key_formatter_never_sorts() {
    let f = KeyCitationFormatter::new(keys(&["x", "y", "z"]));
    let citation = vec![cite("z", None, None), cite("x", None, None), cite("y", None, None)];
    assert_eq!(f.get_reference(&citation).unwrap(), "z, x, y");
}

#[test]
fn key_formatter_empty_input() {
    let f = KeyCitationFormatter::new(keys(&["a"]));
    assert_eq!(f.get_reference(&vec![]).unwrap(), "");
}

#[test]
fn key_formatter_first_missing_key_wins() {
    let f = KeyCitationFormatter::new(keys(&["a"]));
    let citation = vec![cite("a", None, None), cite("miss1", None, None), cite("miss2", None, None)];
    assert_eq!(
        f.get_reference(&citation),
        Err(CitationError::KeyNotFound("miss1".to_string()))
    );
}

#[test]
fn numeric_formatter_compacts_runs() {
    let f = NumericalCitationFormatter::new(keys(&["a", "b", "c", "d", "e", "f"]));
    let citation = vec![
        cite("a", None, Some(1)),
        cite("b", None, Some(2)),
        cite("c", None, Some(3)),
        cite("d", None, Some(5)),
        cite("e", None, Some(6)),
        cite("f", None, Some(8)),
    ];
    assert_eq!(f.get_reference(&citation).unwrap(), "[1-3; 5-6; 8]");
}

#[test]
fn numeric_formatter_supplement_breaks_runs() {
    let f = NumericalCitationFormatter::new(keys(&["a", "b", "c", "d"]));
    let citation = vec![
        cite("a", None, Some(1)),
        cite("b", None, Some(2)),
        cite("c", Some("p.9"), Some(4)),
        cite("d", None, Some(5)),
    ];
    assert_eq!(f.get_reference(&citation).unwrap(), "[1-2; 4, p.9; 5]");
}

#[test]
fn numeric_formatter_single_citation() {
    let f = NumericalCitationFormatter::new(keys(&["a"]));
    let citation = vec![cite("a", None, Some(5))];
    assert_eq!(f.get_reference(&citation).unwrap(), "[5]");
}

#[test]
fn numeric_formatter_non_consecutive() {
    let f = NumericalCitationFormatter::new(keys(&["a", "b"]));
    let citation = vec![cite("a", None, Some(1)), cite("b", None, Some(5))];
    assert_eq!(f.get_reference(&citation).unwrap(), "[1; 5]");
}

#[test]
fn numeric_formatter_sorts_unordered_numbers() {
    let f = NumericalCitationFormatter::new(keys(&["a", "b", "c"]));
    let citation = vec![
        cite("a", None, Some(3)),
        cite("b", None, Some(1)),
        cite("c", None, Some(2)),
    ];
    assert_eq!(f.get_reference(&citation).unwrap(), "[1-3]");
}

#[test]
fn numeric_formatter_missing_number() {
    let f = NumericalCitationFormatter::new(keys(&["a", "b"]));
    let citation = vec![cite("a", None, Some(1)), cite("b", None, None)];
    assert_eq!(
        f.get_reference(&citation),
        Err(CitationError::NoNumber("b".to_string()))
    );
}

#[test]
fn numeric_formatter_missing_key_checked_before_number() {
    let f = NumericalCitationFormatter::new(keys(&["a"]));
    // The unknown key has no number either: the key check comes first.
    let citation = vec![cite("miss", None, None)];
    assert_eq!(
        f.get_reference(&citation),
        Err(CitationError::KeyNotFound("miss".to_string()))
    );
}

#[test]
fn numeric_formatter_first_offender_in_input_order() {
    let f = NumericalCitationFormatter::new(keys(&["a", "b"]));
    // Item order decides which failure is reported, not number order.
    let citation = vec![cite("b", None, None), cite("miss", None, Some(1))];
    assert_eq!(
        f.get_reference(&citation),
        Err(CitationError::NoNumber("b".to_string()))
    );
}

#[test]
fn numeric_formatter_equal_numbers_keep_input_order() {
    let f = NumericalCitationFormatter::new(keys(&["a", "b"]));
    let citation = vec![
        cite("a", Some("p.1"), Some(4)),
        cite("b", Some("p.2"), Some(4)),
    ];
    assert_eq!(f.get_reference(&citation).unwrap(), "[4, p.1; 4, p.2]");
}

#[test]
fn formatters_through_the_trait() {
    let citation = vec![cite("a", None, Some(2))];
    let key_f: &dyn CitationFormatter = &KeyCitationFormatter::new(keys(&["a"]));
    let num_f: &dyn CitationFormatter = &NumericalCitationFormatter::new(keys(&["a"]));
    assert_eq!(key_f.get_reference(&citation).unwrap(), "a");
    assert_eq!(num_f.get_reference(&citation).unwrap(), "[2]");
}

#[test]
fn citation_modes_are_distinct() {
    assert_ne!(CitationMode::Footnote, CitationMode::InText);
    assert_eq!(CitationMode::InText, CitationMode::InText);
}
