//! Tests of the deck data model: normalisation, protected columns,
//! sequence numbering, sorting, merging and slicing.

use punchcard::{
    CardRecord, CardType, ColumnRange, Deck, DeckError, DeckHeader, EncodingKind, MergeConflict,
};

fn record(text: &str) -> CardRecord {
    CardRecord::from_text(text, EncodingKind::Hollerith, CardType::Code).unwrap()
}

fn text_of(card: &CardRecord) -> String {
    card.text.as_ref().unwrap().iter().collect()
}

fn empty_deck() -> Deck {
    Deck::new(DeckHeader::new(None, None, Vec::new(), 0))
}

fn protected_deck() -> Deck {
    let range = ColumnRange::new(73, 80).unwrap();
    Deck::new(DeckHeader::new(None, None, vec![range], 0))
}

#[test]
fn from_text_pads_to_eighty() {
    let card = record("SHORT");
    let text = text_of(&card);
    assert_eq!(text.len(), 80);
    assert!(text.starts_with("SHORT"));
    assert!(text[5..].chars().all(|c| c == ' '));
}

#[test]
fn from_text_of_eighty_columns_is_a_no_op() {
    let exact: String = "Y".repeat(80);
    let card = record(&exact);
    assert_eq!(text_of(&card), exact);
}

#[test]
fn from_text_rejects_eighty_one() {
    let long: String = "Z".repeat(81);
    match CardRecord::from_text(&long, EncodingKind::Hollerith, CardType::Code) {
        Err(DeckError::TextTooLong { len }) => assert_eq!(len, 81),
        other => panic!("expected a too-long error, got {:?}", other),
    }
}

#[test]
fn append_and_insert_respect_bounds() {
    let mut deck = empty_deck();
    deck.append_card(record("ONE")).unwrap();
    assert_eq!(deck.cards.len(), 1);
    match deck.insert_card(5, record("TWO")) {
        Err(DeckError::IndexOutOfRange { index, len }) => {
            assert_eq!(index, 5);
            assert_eq!(len, 1);
        }
        other => panic!("expected out-of-range, got {:?}", other),
    }
    deck.insert_card(0, record("ZERO")).unwrap();
    assert_eq!(text_of(&deck.cards[0]).trim_end(), "ZERO");
}

#[test]
fn protected_columns_reject_new_content() {
    let mut deck = protected_deck();
    // blank sequence field: accepted
    deck.append_card(record("CLEAN")).unwrap();
    // content in column 80: rejected, deck unchanged
    let mut bad_text: String = " ".repeat(79);
    bad_text.push('7');
    match deck.append_card(record(&bad_text)) {
        Err(DeckError::ProtectedColumnViolation { col, expected, found }) => {
            assert_eq!(col, 80);
            assert_eq!(expected, ' ');
            assert_eq!(found, '7');
        }
        other => panic!("expected a protection violation, got {:?}", other),
    }
    assert_eq!(deck.cards.len(), 1);
}

#[test]
fn replace_compares_against_previous_occupant() {
    let mut deck = protected_deck();
    // a card whose protected field holds "SEQ00010" (via direct construction)
    let mut text: String = "BODY".to_string();
    while text.len() < 72 {
        text.push(' ');
    }
    text.push_str("SEQ00010");
    let mut original = record(&text);
    original.protected_cols = Vec::new();
    deck.cards.push(original);

    // same protected columns: accepted
    let mut same: String = "NEW BODY".to_string();
    while same.len() < 72 {
        same.push(' ');
    }
    same.push_str("SEQ00010");
    deck.replace_card(0, record(&same)).unwrap();
    assert!(text_of(&deck.cards[0]).starts_with("NEW BODY"));

    // changed protected column: rejected, deck unchanged
    let mut changed: String = "OTHER".to_string();
    while changed.len() < 72 {
        changed.push(' ');
    }
    changed.push_str("SEQ00011");
    match deck.replace_card(0, record(&changed)) {
        Err(DeckError::ProtectedColumnViolation { col, expected, found }) => {
            assert_eq!(col, 80);
            assert_eq!(expected, '0');
            assert_eq!(found, '1');
        }
        other => panic!("expected a protection violation, got {:?}", other),
    }
    assert!(text_of(&deck.cards[0]).starts_with("NEW BODY"));
}

#[test]
fn number_sequence_is_deterministic() {
    let mut deck = empty_deck();
    let mut one = record("ONE");
    one.seq = Some(999);
    deck.append_card(one).unwrap();
    deck.append_card(record("TWO")).unwrap();
    deck.append_card(record("THREE")).unwrap();
    deck.number_sequence(10, 10);
    let seqs: Vec<usize> = deck.cards.iter().map(|c| c.seq.unwrap()).collect();
    assert_eq!(seqs, vec![10, 20, 30]);
    // the trailing eight columns hold the zero-padded value
    let t = text_of(&deck.cards[2]);
    assert_eq!(&t[72..80], "00000030");
}

#[test]
fn sort_by_sequence_is_stable() {
    let mut deck = empty_deck();
    let mut a = record("A");
    a.seq = Some(20);
    let mut b = record("B");
    b.seq = None;
    let mut c = record("C");
    c.seq = Some(10);
    let mut d = record("D");
    d.seq = Some(20);
    let mut e = record("E");
    e.seq = None;
    for card in [a, b, c, d, e] {
        deck.append_card(card).unwrap();
    }
    deck.sort_by_sequence();
    let order: Vec<String> = deck.cards.iter().map(|c| text_of(c).trim_end().to_string()).collect();
    // numbered cards first in numeric order, ties and unnumbered cards in
    // their original relative order
    assert_eq!(order, vec!["C", "A", "D", "B", "E"]);
}

#[test]
fn merge_rejects_different_protected_columns() {
    let mut left = protected_deck();
    left.append_card(record("L")).unwrap();
    let mut right = empty_deck();
    right.append_card(record("R")).unwrap();
    match left.merge_from(&right) {
        Err(DeckError::IncompatibleMerge(MergeConflict::ProtectedColumns)) => {}
        other => panic!("expected an incompatible merge, got {:?}", other),
    }
    // neither deck changed
    assert_eq!(left.cards.len(), 1);
    assert_eq!(right.cards.len(), 1);
}

#[test]
fn merge_appends_cards_and_history() {
    let mut left = empty_deck();
    left.append_card(record("L1")).unwrap();
    left.log_action(100, "alice".to_string(), "first".to_string());
    let mut right = empty_deck();
    right.append_card(record("R1")).unwrap();
    right.append_card(record("R2")).unwrap();
    right.log_action(200, "bob".to_string(), "second".to_string());
    left.merge_from(&right).unwrap();
    assert_eq!(left.cards.len(), 3);
    assert!(text_of(&left.cards[1]).starts_with("R1"));
    assert_eq!(left.header.history.len(), 2);
    assert_eq!(left.header.history[1].actor, "bob");
}

#[test]
fn slice_indices_preserves_given_order() {
    let mut deck = empty_deck();
    deck.append_card(record("CARD0")).unwrap();
    deck.append_card(record("CARD1")).unwrap();
    deck.append_card(record("CARD2")).unwrap();
    let sliced = deck.slice_indices(&[2, 0, 1]).unwrap();
    let order: Vec<String> =
        sliced.cards.iter().map(|c| text_of(c).trim_end().to_string()).collect();
    assert_eq!(order, vec!["CARD2", "CARD0", "CARD1"]);
    match deck.slice_indices(&[0, 3]) {
        Err(DeckError::IndexOutOfRange { index, len }) => {
            assert_eq!(index, 3);
            assert_eq!(len, 3);
        }
        other => panic!("expected out-of-range, got {:?}", other),
    }
}

#[test]
fn slice_takes_contiguous_range() {
    let mut deck = empty_deck();
    for t in ["A", "B", "C", "D"] {
        deck.append_card(record(t)).unwrap();
    }
    let part = deck.slice(1, 3).unwrap();
    assert_eq!(part.cards.len(), 2);
    assert!(text_of(&part.cards[0]).starts_with('B'));
    assert!(deck.slice(1, 5).is_err());
    match deck.slice(3, 1) {
        Err(DeckError::IndexOutOfRange { index, len }) => {
            assert_eq!(index, 3);
            assert_eq!(len, 4);
        }
        other => panic!("expected out-of-range, got {:?}", other),
    }
}

#[test]
fn as_text_substitutes_blanks() {
    let mut deck = empty_deck();
    deck.append_card(record("SOME")).unwrap();
    let mut no_text = record("IGNORED");
    no_text.text = None;
    deck.cards.push(no_text);
    let texts = deck.as_text();
    assert_eq!(texts.len(), 2);
    assert!(texts[0].starts_with("SOME"));
    assert_eq!(texts[1], " ".repeat(80));
}

#[test]
fn log_action_appends_in_order() {
    let mut deck = empty_deck();
    deck.log_action(1, "a".to_string(), "one".to_string());
    deck.log_action(2, "b".to_string(), "two".to_string());
    assert_eq!(deck.header.history.len(), 2);
    assert_eq!(deck.header.history[0].action, "one");
    assert_eq!(deck.header.history[1].timestamp, 2);
}

#[test]
fn to_punch_deck_encodes_every_card() {
    let mut deck = empty_deck();
    deck.append_card(record("HELLO")).unwrap();
    let enc = punchcard::Ibm029Encoder::new();
    let punch = deck.to_punch_deck(&enc).unwrap();
    assert_eq!(punch.cards.len(), 1);
    assert_eq!(punch.cards[0].cols[0].0, 0x900);
}

#[test]
fn column_range_validation() {
    assert!(ColumnRange::new(1, 80).is_ok());
    assert!(ColumnRange::new(0, 5).is_err());
    assert!(ColumnRange::new(9, 5).is_err());
    assert!(ColumnRange::new(1, 81).is_err());
    let r = ColumnRange::new(73, 80).unwrap();
    assert!(r.contains(73));
    assert!(r.contains(80));
    assert!(!r.contains(72));
}
