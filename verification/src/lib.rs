//! Library for modelling IBM 80-column punch cards: the Hollerith/IBM-029
//! character encoding, single cards and decks of cards, and textual rendering
//! of punch patterns.

pub mod deck;
pub mod encoding;
pub mod format;
pub mod graphics;
pub mod punchcards;
pub mod templates;
pub mod text;
pub mod util;

pub use deck::{AuditEvent, CardMeta, CardRecord, CardType, ColumnRange, Deck, DeckError,
    DeckHeader, EncodingKind, FormatErrorKind, MergeConflict};
pub use encoding::{CellMask, EncodeError, Ibm029Encoder, PunchEncoding, ValidChar};
pub use graphics::{CardImageStyle, ImageRenderOptions, PageLayout};
pub use punchcards::{CardDeck, PunchCard, RenderStyle};
pub use templates::{Template, TemplateColumn, TemplateRegistry};
pub use util::{diff_text, lines_match_with_mask, parse_column_range, parse_range_expression,
    split_lines_fixed};

use vstd::prelude::*;

verus! {

/// Split the entire input text into 80-column punch cards and encode them,
/// numbering the cards when asked; see [`CardDeck::from_text`].
pub fn encode_text_to_deck<E: PunchEncoding>(
    encoder: &E,
    text: &str,
    with_seq_numbers: bool,
) -> (r: Result<CardDeck, EncodeError>)
    requires
        text@.len() < usize::MAX,
    ensures
        r matches Ok(deck) ==> {
            &&& deck.wf()
            &&& deck.cards@.len() == punchcards::deck_texts(text@).len()
            &&& forall|i: int| 0 <= i < deck.cards@.len()
                ==> (#[trigger] deck.cards@[i]).raw_text@ == punchcards::final_text(
                    punchcards::deck_texts(text@)[i],
                    i,
                    with_seq_numbers,
                ) && deck.cards@[i].encodes(encoder)
        },
        r is Ok <==> punchcards::texts_encodable(
            encoder,
            punchcards::deck_texts(text@),
            with_seq_numbers,
        ),
{
    CardDeck::from_text(encoder, text, with_seq_numbers)
}

} // verus!
