//! Tests of the persistence format and the content hash: lossless round
//! trips, error reporting, and hash stability.

use punchcard::{
    CardRecord, CardType, ColumnRange, Deck, DeckError, DeckHeader, EncodingKind, FormatErrorKind,
};

fn sample_deck() -> Deck {
    let range = ColumnRange::new(73, 80).unwrap();
    let header = DeckHeader::new(
        Some("fortran".to_string()),
        Some("fortran".to_string()),
        vec![range],
        1700000000,
    );
    let mut deck = Deck::new(header);
    let mut card = CardRecord::from_text("      CALL GREET", EncodingKind::Hollerith, CardType::Code)
        .unwrap();
    card.seq = Some(10);
    card.meta.note = Some("first card|with bar\nand newline".to_string());
    card.meta.color = Some("amber".to_string());
    deck.append_card(card).unwrap();
    let card2 = CardRecord::from_text("C COMMENT", EncodingKind::Ascii, CardType::Comment).unwrap();
    deck.append_card(card2).unwrap();
    deck.log_action(-5, "op\u{e9}rateur".to_string(), "deck init".to_string());
    deck
}

#[test]
fn round_trip_preserves_everything() {
    let deck = sample_deck();
    let bytes = deck.to_bytes();
    let back = Deck::from_bytes(&bytes).unwrap();
    assert_eq!(back.header.version, deck.header.version);
    assert_eq!(back.header.created_at, 1700000000);
    assert_eq!(back.header.language.as_deref(), Some("fortran"));
    assert_eq!(back.header.protected_cols, deck.header.protected_cols);
    assert_eq!(back.header.history.len(), 1);
    assert_eq!(back.header.history[0].timestamp, -5);
    assert_eq!(back.header.history[0].actor, "op\u{e9}rateur");
    assert_eq!(back.cards.len(), 2);
    assert_eq!(back.cards[0].seq, Some(10));
    assert_eq!(back.cards[0].meta.note.as_deref(), Some("first card|with bar\nand newline"));
    assert_eq!(back.cards[0].text, deck.cards[0].text);
    assert_eq!(back.cards[1].encoding, EncodingKind::Ascii);
    assert_eq!(back.cards[1].card_type, CardType::Comment);
}

#[test]
fn serialisation_is_line_oriented() {
    let deck = sample_deck();
    let bytes = deck.to_bytes();
    let text = String::from_utf8_lossy(&bytes);
    let lines: Vec<&str> = text.lines().collect();
    assert_eq!(lines.len(), 3);
    assert!(lines[0].starts_with("H|"));
    assert!(lines[1].starts_with("C|"));
    assert!(lines[2].starts_with("C|"));
}

#[test]
fn blank_lines_are_skipped_on_read() {
    let deck = sample_deck();
    let mut bytes = deck.to_bytes();
    let mut padded = Vec::new();
    padded.extend_from_slice(b"\n   \n");
    let first_line_end = bytes.iter().position(|&b| b == b'\n').unwrap();
    padded.extend_from_slice(&bytes[..first_line_end + 1]);
    padded.extend_from_slice(b"\t\n");
    padded.extend_from_slice(&bytes[first_line_end + 1..]);
    bytes = padded;
    let back = Deck::from_bytes(&bytes).unwrap();
    assert_eq!(back.cards.len(), 2);
}

#[test]
fn empty_input_reports_missing_header() {
    match Deck::from_bytes(b"") {
        Err(DeckError::DeckFormatError { line, kind }) => {
            assert_eq!(line, 1);
            assert_eq!(kind, FormatErrorKind::MissingHeader);
        }
        other => panic!("expected a format error, got {:?}", other),
    }
}

#[test]
fn card_record_first_reports_header_expected() {
    let deck = sample_deck();
    let bytes = deck.to_bytes();
    let text = String::from_utf8(bytes).unwrap();
    let card_line = text.lines().nth(1).unwrap();
    let rearranged = format!("{}\n", card_line);
    match Deck::from_bytes(rearranged.as_bytes()) {
        Err(DeckError::DeckFormatError { kind, .. }) => {
            assert_eq!(kind, FormatErrorKind::HeaderExpected);
        }
        other => panic!("expected a format error, got {:?}", other),
    }
}

#[test]
fn duplicate_header_is_rejected() {
    let deck = sample_deck();
    let bytes = deck.to_bytes();
    let text = String::from_utf8(bytes).unwrap();
    let header_line = text.lines().next().unwrap();
    let doubled = format!("{}\n{}\n", header_line, header_line);
    match Deck::from_bytes(doubled.as_bytes()) {
        Err(DeckError::DeckFormatError { line, kind }) => {
            assert_eq!(line, 2);
            assert_eq!(kind, FormatErrorKind::DuplicateHeader);
        }
        other => panic!("expected a format error, got {:?}", other),
    }
}

#[test]
fn garbage_record_is_rejected() {
    let deck = sample_deck();
    let bytes = deck.to_bytes();
    let text = String::from_utf8(bytes).unwrap();
    let header_line = text.lines().next().unwrap();
    let broken = format!("{}\nnot a record\n", header_line);
    match Deck::from_bytes(broken.as_bytes()) {
        Err(DeckError::DeckFormatError { kind, .. }) => {
            assert_eq!(kind, FormatErrorKind::BadRecord);
        }
        other => panic!("expected a format error, got {:?}", other),
    }
}

#[test]
fn hash_is_stable_for_identical_content() {
    let a = sample_deck();
    let b = sample_deck();
    assert_eq!(a.hash(), b.hash());
    let h = a.hash();
    assert_eq!(h.len(), 64);
    assert!(h.chars().all(|c| c.is_ascii_hexdigit()));
}

#[test]
fn hash_changes_when_any_field_changes() {
    let a = sample_deck();
    let mut b = sample_deck();
    b.cards[0].meta.note = Some("changed".to_string());
    assert_ne!(a.hash(), b.hash());
    let mut c = sample_deck();
    c.log_action(9, "x".to_string(), "extra".to_string());
    assert_ne!(a.hash(), c.hash());
}

#[test]
fn clone_preserves_content_hash() {
    let a = sample_deck();
    let b = a.clone();
    assert_eq!(a.hash(), b.hash());
}
