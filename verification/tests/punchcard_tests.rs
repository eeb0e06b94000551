//! Tests of single cards and card decks: encoding text, sequence fields,
//! and the ASCII rendering, including the full reference rendering of
//! the text `HELLO`.

use punchcard::{CardDeck, Ibm029Encoder, PunchCard, RenderStyle};

fn render_lines(card: &PunchCard) -> Vec<String> {
    card.render(RenderStyle::AsciiX)
        .lines()
        .map(|l| l.to_string())
        .collect()
}

#[test]
fn from_str_keeps_text_and_encodes() {
    let enc = Ibm029Encoder::new();
    let card = PunchCard::from_str(&enc, "HELLO").unwrap();
    let text: String = card.raw_text.iter().collect();
    assert_eq!(text, "HELLO");
    assert_eq!(card.cols.len(), 80);
    assert_eq!(card.cols[0].0, 0x900); // H: rows 12 and 8
    assert_eq!(card.cols[1].0, 0x820); // E: rows 12 and 5
    assert_eq!(card.cols[2].0, 0x408); // L: rows 11 and 3
    assert_eq!(card.cols[4].0, 0x440); // O: rows 11 and 6
    assert_eq!(card.cols[5].0, 0); // nothing punched past the text
}

#[test]
fn from_str_truncates_at_eighty() {
    let enc = Ibm029Encoder::new();
    let long: String = "A".repeat(95);
    let card = PunchCard::from_str(&enc, &long).unwrap();
    assert_eq!(card.raw_text.len(), 80);
}

#[test]
fn from_str_rejects_unsupported() {
    let enc = Ibm029Encoder::new();
    assert!(PunchCard::from_str(&enc, "HEL~O").is_err());
}

#[test]
fn with_sequence_fills_blank_columns_only() {
    let enc = Ibm029Encoder::new();
    let card = PunchCard::from_str(&enc, "DATA").unwrap();
    let card = card.with_sequence(&enc, 42).unwrap();
    let text: String = card.raw_text.iter().collect();
    assert_eq!(text.len(), 80);
    assert!(text.starts_with("DATA"));
    assert_eq!(&text[78..80], "42");
    // columns 72..78 stay blank (the field is right-aligned)
    assert_eq!(&text[71..78], "       ");
}

#[test]
fn with_sequence_never_overwrites_content() {
    let enc = Ibm029Encoder::new();
    // text occupying the whole card: nothing may change
    let full: String = "X".repeat(80);
    let card = PunchCard::from_str(&enc, &full).unwrap();
    let card = card.with_sequence(&enc, 7).unwrap();
    let text: String = card.raw_text.iter().collect();
    assert_eq!(text, full);
}

#[test]
fn deck_from_text_splits_lines_and_pads() {
    let enc = Ibm029Encoder::new();
    let deck = CardDeck::from_text(&enc, "ONE\nTWO", false).unwrap();
    assert_eq!(deck.cards.len(), 2);
    let t0: String = deck.cards[0].raw_text.iter().collect();
    assert_eq!(t0.len(), 80);
    assert!(t0.starts_with("ONE"));
}

#[test]
fn deck_from_text_long_line_splits_every_eighty() {
    let enc = Ibm029Encoder::new();
    let long: String = "A".repeat(170);
    let deck = CardDeck::from_text(&enc, &long, false).unwrap();
    assert_eq!(deck.cards.len(), 3);
    let t2: String = deck.cards[2].raw_text.iter().collect();
    assert!(t2.starts_with("AAAAAAAAAA "));
}

#[test]
fn deck_from_text_empty_input_gives_blank_card() {
    let enc = Ibm029Encoder::new();
    let deck = CardDeck::from_text(&enc, "", false).unwrap();
    assert_eq!(deck.cards.len(), 1);
    let t: String = deck.cards[0].raw_text.iter().collect();
    assert_eq!(t, " ".repeat(80));
}

#[test]
fn deck_from_text_numbers_cards_in_order() {
    let enc = Ibm029Encoder::new();
    let deck = CardDeck::from_text(&enc, "ONE\nTWO\nTHREE", true).unwrap();
    assert_eq!(deck.cards.len(), 3);
    for (i, card) in deck.cards.iter().enumerate() {
        let text: String = card.raw_text.iter().collect();
        let field = &text[71..80];
        assert_eq!(field.trim(), format!("{}", i + 1));
    }
}

#[test]
fn render_hello_reference() {
    let enc = Ibm029Encoder::new();
    let card = PunchCard::from_str(&enc, &format!("{:<80}", "HELLO")).unwrap();
    let lines = render_lines(&card);
    assert_eq!(lines[0], "IBM 5081 (80 cols) [IBM029]");
    // ruler: a tens digit every tenth column
    let mut ruler = String::new();
    for col in 1..=80u32 {
        if col % 10 == 0 {
            ruler.push(char::from_digit((col / 10) % 10, 10).unwrap());
        } else {
            ruler.push('.');
        }
    }
    assert_eq!(lines[1], format!("     {}", ruler));
    assert_eq!(lines[2], format!("     {:<80}", "HELLO"));
    assert_eq!(lines[3], format!("     {}", "-".repeat(80)));

    // expected punches per output row: (label, columns punched)
    let rows: [(&str, &[usize]); 12] = [
        (" 12", &[1, 2]),      // H and E carry the 12 zone
        (" 11", &[3, 4, 5]),   // L, L and O carry the 11 zone
        ("  0", &[]),
        ("  1", &[]),
        ("  2", &[]),
        ("  3", &[3, 4]),      // L is 11-3
        ("  4", &[]),
        ("  5", &[2]),         // E is 12-5
        ("  6", &[5]),         // O is 11-6
        ("  7", &[]),
        ("  8", &[1]),         // H is 12-8
        ("  9", &[]),
    ];
    for (r, (label, cols)) in rows.iter().enumerate() {
        let mut cells = String::new();
        for col in 1..=80usize {
            if cols.contains(&col) {
                cells.push('X');
            } else {
                cells.push(' ');
            }
        }
        let expected = format!("{} |{}|", label, cells);
        assert_eq!(lines[4 + r], expected, "row {}", label);
    }
    assert_eq!(lines[16], format!("     {}", "-".repeat(80)));
}

#[test]
fn render_zero_one_style() {
    let enc = Ibm029Encoder::new();
    let card = PunchCard::from_str(&enc, "1").unwrap();
    let out = card.render(RenderStyle::Ascii01);
    let lines: Vec<&str> = out.lines().collect();
    // '1' punches row 1 alone: output row for label " 1"
    let row1 = lines[4 + 3];
    assert!(row1.starts_with("  1 |1"));
    assert!(lines[4].starts_with(" 12 |0"));
}

#[test]
fn deck_render_separates_cards() {
    let enc = Ibm029Encoder::new();
    let deck = CardDeck::from_text(&enc, "A\nB", false).unwrap();
    let out = deck.render(RenderStyle::AsciiX);
    let single = deck.cards[0].render(RenderStyle::AsciiX);
    assert!(out.starts_with(&single));
    assert!(out.len() > 2 * single.len());
}
