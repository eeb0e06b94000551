//! Tests of the IBM 029 encoder: the published chart values, injectivity,
//! and case folding.

use punchcard::{EncodeError, Ibm029Encoder, PunchEncoding, ValidChar};
use std::collections::{HashMap, HashSet};

const VALID_SET: &str = "&-0123456789ABCDEFGHIJKLMNOPQR/STUVWXYZ:#@'=\"\u{a2}.<(+|!$*);\u{ac} ,%_>?";

#[test]
fn no_duplicate_hole_patterns() {
    let enc = Ibm029Encoder::new();
    let mut seen: HashMap<u16, char> = HashMap::new();
    let mut chars: HashSet<char> = VALID_SET.chars().collect();
    chars.insert(' ');
    for ch in chars {
        let mask = enc.encode_char(ch).unwrap();
        if let Some(prev) = seen.insert(mask.0, ch) {
            panic!("characters '{}' and '{}' share the same punches", prev, ch);
        }
    }
}

#[test]
fn reference_chart_values() {
    let enc = Ibm029Encoder::new();
    // zone+digit convention: A = rows 12+1, Z = rows 0+9, 0 = row 0 alone,
    // & = row 12 alone, - = row 11 alone, / = rows 0+1
    assert_eq!(enc.encode_char('A').unwrap().0, 0x802);
    assert_eq!(enc.encode_char('Z').unwrap().0, 0x201);
    assert_eq!(enc.encode_char('0').unwrap().0, 0x001);
    assert_eq!(enc.encode_char('&').unwrap().0, 0x800);
    assert_eq!(enc.encode_char('-').unwrap().0, 0x400);
    assert_eq!(enc.encode_char('/').unwrap().0, 0x003);
    assert_eq!(enc.encode_char(' ').unwrap().0, 0x000);
    assert_eq!(enc.encode_char('9').unwrap().0, 0x200);
}

#[test]
fn lowercase_folds_to_uppercase() {
    let enc = Ibm029Encoder::new();
    for (lo, up) in ('a'..='z').zip('A'..='Z') {
        assert_eq!(enc.encode_char(lo).unwrap(), enc.encode_char(up).unwrap());
    }
}

#[test]
fn unsupported_character_is_reported() {
    let enc = Ibm029Encoder::new();
    match enc.encode_char('~') {
        Err(EncodeError::Unsupported(c, code)) => {
            assert_eq!(c, '~');
            assert_eq!(code, '~' as u32);
        }
        other => panic!("expected an unsupported-character error, got {:?}", other),
    }
    assert!(!enc.is_supported('~'));
    assert!(enc.is_supported('a'));
}

#[test]
fn valid_set_membership() {
    for ch in VALID_SET.chars() {
        assert!(ValidChar::in_original_set(ch), "{:?} should be supported", ch);
    }
    assert!(ValidChar::in_original_set('q'));
    assert!(!ValidChar::in_original_set('~'));
    assert!(!ValidChar::in_original_set('\u{20ac}'));
}
