//! Tests of the template registry and of encoding whole texts into decks.

use punchcard::{encode_text_to_deck, CardType, Ibm029Encoder, TemplateRegistry};

#[test]
fn registry_lists_four_templates() {
    let templates = TemplateRegistry::list();
    let names: Vec<&str> = templates.iter().map(|t| t.name).collect();
    assert_eq!(names, vec!["fortran", "cobol", "jcl", "assembler"]);
}

#[test]
fn get_is_case_insensitive() {
    let t = TemplateRegistry::get("FORTRAN").unwrap();
    assert_eq!(t.name, "fortran");
    assert_eq!(t.default_type, CardType::Code);
    let j = TemplateRegistry::get("Jcl").unwrap();
    assert_eq!(j.default_type, CardType::Jcl);
    assert!(TemplateRegistry::get("pascal").is_none());
}

#[test]
fn template_apply_builds_padded_record() {
    let t = TemplateRegistry::get("cobol").unwrap();
    let card = t.apply("000100 IDENTIFICATION DIVISION.").unwrap();
    let text: String = card.text.unwrap().iter().collect();
    assert_eq!(text.len(), 80);
    assert_eq!(card.card_type, CardType::Code);
    let long: String = "X".repeat(81);
    assert!(t.apply(&long).is_err());
}

#[test]
fn fortran_template_reserves_sequence_field() {
    let t = TemplateRegistry::get("fortran").unwrap();
    let last = t.columns.last().unwrap();
    assert_eq!(last.range.start, 73);
    assert_eq!(last.range.end, 80);
}

#[test]
fn encode_text_to_deck_numbers_cards() {
    let enc = Ibm029Encoder::new();
    let deck = encode_text_to_deck(&enc, "HELLO WORLD", true).unwrap();
    assert_eq!(deck.cards.len(), 1);
    let text: String = deck.cards[0].raw_text.iter().collect();
    assert!(text.starts_with("HELLO WORLD"));
    assert_eq!(&text[79..80], "1");
}

#[test]
fn encode_text_to_deck_rejects_unsupported_text() {
    let enc = Ibm029Encoder::new();
    assert!(encode_text_to_deck(&enc, "caf\u{e9}", false).is_err());
}
