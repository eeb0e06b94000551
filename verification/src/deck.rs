//! The persisted deck data model: typed errors, column ranges, card
//! records with their metadata, deck headers with audit history, and the
//! deck operations (append, insert, replace, sequence numbering, sorting,
//! merging, slicing) with their protected-column discipline.

use vstd::prelude::*;
use crate::encoding::{EncodeError, PunchEncoding};
use crate::punchcards::{PunchCard, clip80, all_encodable, rejects_first};
use crate::text::{blank_chars, pad_to, pad_left_zeros, dec_digits, chars_to_string, str_chars};

verus! {

/// Which header field made two decks incompatible for merging.
#[derive(Debug, Clone, Copy, PartialEq, Eq, Structural)]
pub enum MergeConflict {
    ProtectedColumns,
    Template,
    Language,
}

/// What made a persisted deck unreadable.
#[derive(Debug, Clone, Copy, PartialEq, Eq, Structural)]
pub enum FormatErrorKind {
    /// The file holds no records at all.
    MissingHeader,
    /// A record other than the first is a header.
    DuplicateHeader,
    /// The first record is not a header.
    HeaderExpected,
    /// A record cannot be parsed.
    BadRecord,
}

/// Typed errors of the deck data model.
#[derive(Debug, Clone, Copy, PartialEq, Eq, Structural)]
pub enum DeckError {
    /// A column range does not satisfy `1 <= start <= end <= 80`.
    InvalidColumnRange { start: usize, end: usize },
    /// Card text wider than the 80 columns of a card.
    TextTooLong { len: usize },
    /// A card index outside the valid bounds.
    IndexOutOfRange { index: usize, len: usize },
    /// A card without text cannot be checked against protected columns.
    MissingText,
    /// Card text ends before a protected column.
    ShortText { col: usize },
    /// A mutation would change the content of a protected column.
    ProtectedColumnViolation { col: usize, expected: char, found: char },
    /// The decks differ in a header field that merging requires to agree.
    IncompatibleMerge(MergeConflict),
    /// A persisted deck cannot be read; `line` is one-based.
    DeckFormatError { line: usize, kind: FormatErrorKind },
}

/// Inclusive, one-based column range; marks protected regions of a card.
#[derive(Debug, Clone, Copy, PartialEq, Eq, Structural)]
pub struct ColumnRange {
    pub start: usize,
    pub end: usize,
}

impl ColumnRange {
    /// Validity: `1 <= start <= end <= 80`.
    pub open spec fn wf(&self) -> bool {
        1 <= self.start <= self.end <= 80
    }

    /// Build a range, rejecting anything outside `1 <= start <= end <= 80`.
    pub fn new(start: usize, end: usize) -> (r: Result<Self, DeckError>)
        ensures
            r matches Ok(c) ==> c == (ColumnRange { start, end }) && c.wf(),
            r is Ok <==> 1 <= start <= end <= 80,
            r is Err ==> r == Err::<Self, DeckError>(DeckError::InvalidColumnRange { start, end }),
    {
        if start == 0 || end == 0 || start > end || end > 80 {
            Err(DeckError::InvalidColumnRange { start, end })
        } else {
            Ok(ColumnRange { start, end })
        }
    }

    /// Whether the one-based column `col` lies in the range.
    pub fn contains(&self, col: usize) -> (r: bool)
        ensures
            r == self.spec_contains(col as int),
    {
        col >= self.start && col <= self.end
    }

    /// Membership of a one-based column in the range.
    pub open spec fn spec_contains(&self, col: int) -> bool {
        self.start <= col <= self.end
    }
}

/// Intent or provenance tag of a card; no effect on encoding.
#[derive(Debug, Clone, Copy, PartialEq, Eq, Structural)]
pub enum CardType {
    Code,
    Data,
    Jcl,
    Comment,
    Separator,
    Patch,
}

impl Default for CardType {
    fn default() -> (r: Self)
        ensures
            r == CardType::Code,
    {
        CardType::Code
    }
}

/// Encoding choice recorded on a card.
#[derive(Debug, Clone, Copy, PartialEq, Eq, Structural)]
pub enum EncodingKind {
    Hollerith,
    Ascii,
    Ebcdic,
}

impl Default for EncodingKind {
    fn default() -> (r: Self)
        ensures
            r == EncodingKind::Hollerith,
    {
        EncodingKind::Hollerith
    }
}

/// Non-semantic card metadata.
#[derive(Debug, PartialEq, Eq)]
pub struct CardMeta {
    pub color: Option<String>,
    pub note: Option<String>,
}

/// Mathematical model of [`CardMeta`].
pub ghost struct CardMetaV {
    pub color: Option<Seq<char>>,
    pub note: Option<Seq<char>>,
}

/// The character sequence of an optional string.
pub open spec fn view_opt_str(o: Option<String>) -> Option<Seq<char>> {
    match o {
        Some(s) => Some(s@),
        None => None,
    }
}

/// The character sequence of an optional character vector.
pub open spec fn view_opt_chars(o: Option<Vec<char>>) -> Option<Seq<char>> {
    match o {
        Some(v) => Some(v@),
        None => None,
    }
}

impl View for CardMeta {
    type V = CardMetaV;

    open spec fn view(&self) -> CardMetaV {
        CardMetaV { color: view_opt_str(self.color), note: view_opt_str(self.note) }
    }
}

/// Copy an optional string.
fn clone_opt_string(o: &Option<String>) -> (r: Option<String>)
    ensures
        r == *o,
{
    match o {
        Some(s) => Some(s.clone()),
        None => None,
    }
}

impl Clone for CardMeta {
    fn clone(&self) -> (r: Self)
        ensures
            r == *self,
    {
        CardMeta { color: clone_opt_string(&self.color), note: clone_opt_string(&self.note) }
    }
}

impl Default for CardMeta {
    fn default() -> (r: Self)
        ensures
            r.color is None,
            r.note is None,
    {
        CardMeta { color: None, note: None }
    }
}

/// One entry of a deck's append-only audit history.
#[derive(Debug, PartialEq, Eq)]
pub struct AuditEvent {
    /// Seconds since the Unix epoch, as the caller resolved them.
    pub timestamp: i64,
    pub actor: String,
    pub action: String,
}

/// Mathematical model of [`AuditEvent`].
pub ghost struct AuditEventV {
    pub timestamp: i64,
    pub actor: Seq<char>,
    pub action: Seq<char>,
}

impl View for AuditEvent {
    type V = AuditEventV;

    open spec fn view(&self) -> AuditEventV {
        AuditEventV { timestamp: self.timestamp, actor: self.actor@, action: self.action@ }
    }
}

impl Clone for AuditEvent {
    fn clone(&self) -> (r: Self)
        ensures
            r == *self,
    {
        AuditEvent {
            timestamp: self.timestamp,
            actor: self.actor.clone(),
            action: self.action.clone(),
        }
    }
}

impl AuditEvent {
    /// Record one action. The caller resolves the clock and the actor
    /// identity; the model never reads the process environment itself.
    pub fn new(timestamp: i64, actor: String, action: String) -> (r: Self)
        ensures
            r == (AuditEvent { timestamp, actor, action }),
    {
        AuditEvent { timestamp, actor, action }
    }
}

/// One card as persisted in a deck: its 80-column text, an optional cached
/// punch representation, and bookkeeping fields.
#[derive(Debug, PartialEq, Eq)]
pub struct CardRecord {
    pub text: Option<Vec<char>>,
    pub punches: Option<String>,
    pub encoding: EncodingKind,
    pub seq: Option<usize>,
    pub card_type: CardType,
    pub protected_cols: Vec<ColumnRange>,
    pub meta: CardMeta,
}

/// Mathematical model of [`CardRecord`].
pub ghost struct CardRecordV {
    pub text: Option<Seq<char>>,
    pub punches: Option<Seq<char>>,
    pub encoding: EncodingKind,
    pub seq: Option<usize>,
    pub card_type: CardType,
    pub protected_cols: Seq<ColumnRange>,
    pub meta: CardMetaV,
}

impl View for CardRecord {
    type V = CardRecordV;

    open spec fn view(&self) -> CardRecordV {
        CardRecordV {
            text: view_opt_chars(self.text),
            punches: view_opt_str(self.punches),
            encoding: self.encoding,
            seq: self.seq,
            card_type: self.card_type,
            protected_cols: self.protected_cols@,
            meta: self.meta@,
        }
    }
}

/// Copy an optional character vector, preserving its contents.
fn clone_opt_chars(o: &Option<Vec<char>>) -> (r: Option<Vec<char>>)
    ensures
        view_opt_chars(r) == view_opt_chars(*o),
{
    match o {
        Some(v) => {
            let w = v.clone();
            assert(w@ =~= v@);
            Some(w)
        },
        None => None,
    }
}

impl Clone for CardRecord {
    fn clone(&self) -> (r: Self)
        ensures
            r@ == self@,
    {
        let protected_cols = self.protected_cols.clone();
        assert(protected_cols@ =~= self.protected_cols@);
        CardRecord {
            text: clone_opt_chars(&self.text),
            punches: clone_opt_string(&self.punches),
            encoding: self.encoding,
            seq: self.seq,
            card_type: self.card_type,
            protected_cols,
            meta: self.meta.clone(),
        }
    }
}

/// The text of a card, or 80 blanks for a card that has none.
pub open spec fn text_or_blank(c: CardRecordV) -> Seq<char> {
    match c.text {
        Some(t) => t,
        None => blank_chars(80),
    }
}

/// The text of a card, or the empty sequence for a card that has none.
pub open spec fn text_or_empty(c: CardRecordV) -> Seq<char> {
    match c.text {
        Some(t) => t,
        None => Seq::empty(),
    }
}

impl CardRecord {
    /// Build a card from user text, padding with trailing blanks to
    /// exactly 80 columns; text wider than a card is rejected.
    pub fn from_text(text: &str, encoding: EncodingKind, card_type: CardType) -> (r: Result<
        Self,
        DeckError,
    >)
        ensures
            r is Ok <==> text@.len() <= 80,
            r matches Ok(c) ==> {
                &&& c@.text == Some(pad_to(text@, 80))
                &&& c@.punches is None
                &&& c@.encoding == encoding
                &&& c@.seq is None
                &&& c@.card_type == card_type
                &&& c@.protected_cols == Seq::<ColumnRange>::empty()
                &&& c@.meta.color is None
                &&& c@.meta.note is None
            },
            r matches Err(e) ==> e == (DeckError::TextTooLong { len: text@.len() as usize }),
    {
        let mut chars = str_chars(text);
        if chars.len() > 80 {
            return Err(DeckError::TextTooLong { len: chars.len() });
        }
        while chars.len() < 80
            invariant
                chars@.len() <= 80,
                chars@ == pad_to(text@, 80).take(chars@.len() as int),
                text@.len() <= chars@.len(),
            decreases 80 - chars.len(),
        {
            let ghost len = chars@.len() as int;
            assert(pad_to(text@, 80)[len] == ' ');
            chars.push(' ');
            assert(chars@ =~= pad_to(text@, 80).take(len + 1));
        }
        assert(chars@ =~= pad_to(text@, 80));
        Ok(
            CardRecord {
                text: Some(chars),
                punches: None,
                encoding,
                seq: None,
                card_type,
                protected_cols: Vec::new(),
                meta: CardMeta { color: None, note: None },
            },
        )
    }

    /// Set or clear the optional sequence number; nothing else changes.
    pub fn ensure_seq(&mut self, seq: Option<usize>)
        ensures
            final (self).seq == seq,
            final (self).text == old(self).text,
            final (self).punches == old(self).punches,
            final (self).encoding == old(self).encoding,
            final (self).card_type == old(self).card_type,
            final (self).protected_cols == old(self).protected_cols,
            final (self).meta == old(self).meta,
    {
        self.seq = seq;
    }

    /// Materialise the card as a punch-pattern card under `enc`; a card
    /// without text encodes as an empty card.
    pub fn to_punch_card<E: PunchEncoding>(&self, enc: &E) -> (r: Result<PunchCard, EncodeError>)
        ensures
            r matches Ok(card) ==> {
                &&& card.wf()
                &&& card.raw_text@ == clip80(text_or_empty(self@))
                &&& card.encodes(enc)
                &&& all_encodable(enc, clip80(text_or_empty(self@)))
            },
            r matches Err(e) ==> !all_encodable(enc, clip80(text_or_empty(self@)))
                && rejects_first(enc, clip80(text_or_empty(self@)), e),
    {
        match &self.text {
            Some(v) => {
                let s = chars_to_string(v);
                PunchCard::from_str(enc, s.as_str())
            },
            None => {
                let empty = String::new();
                PunchCard::from_str(enc, empty.as_str())
            },
        }
    }
}

/// Version number written into every deck header.
pub const DECK_VERSION: u8 = 1;

/// Per-deck metadata stored as the header record.
#[derive(Debug, PartialEq, Eq)]
pub struct DeckHeader {
    pub version: u8,
    /// Creation time, in seconds since the Unix epoch.
    pub created_at: i64,
    pub language: Option<String>,
    pub template: Option<String>,
    pub protected_cols: Vec<ColumnRange>,
    pub readonly: bool,
    pub history: Vec<AuditEvent>,
}

/// Mathematical model of [`DeckHeader`].
pub ghost struct DeckHeaderV {
    pub version: u8,
    pub created_at: i64,
    pub language: Option<Seq<char>>,
    pub template: Option<Seq<char>>,
    pub protected_cols: Seq<ColumnRange>,
    pub readonly: bool,
    pub history: Seq<AuditEventV>,
}

impl View for DeckHeader {
    type V = DeckHeaderV;

    open spec fn view(&self) -> DeckHeaderV {
        DeckHeaderV {
            version: self.version,
            created_at: self.created_at,
            language: view_opt_str(self.language),
            template: view_opt_str(self.template),
            protected_cols: self.protected_cols@,
            readonly: self.readonly,
            history: self.history@.map_values(|e: AuditEvent| e@),
        }
    }
}

impl Clone for DeckHeader {
    fn clone(&self) -> (r: Self)
        ensures
            r@ == self@,
    {
        let protected_cols = self.protected_cols.clone();
        assert(protected_cols@ =~= self.protected_cols@);
        let history = self.history.clone();
        proof {
            assert forall|i: int| 0 <= i < history@.len() implies history@[i]
                == self.history@[i] by {
                assert(vstd::pervasive::cloned(self.history@[i], history@[i]));
            }
            assert(history@ =~= self.history@);
        }
        DeckHeader {
            version: self.version,
            created_at: self.created_at,
            language: clone_opt_string(&self.language),
            template: clone_opt_string(&self.template),
            protected_cols,
            readonly: self.readonly,
            history,
        }
    }
}

impl DeckHeader {
    /// Create a header with the given metadata; the caller resolves the
    /// clock. The version is fixed, the deck starts writable with an
    /// empty history.
    pub fn new(
        language: Option<String>,
        template: Option<String>,
        protected_cols: Vec<ColumnRange>,
        created_at: i64,
    ) -> (r: Self)
        ensures
            r.version == DECK_VERSION,
            r.created_at == created_at,
            r.language == language,
            r.template == template,
            r.protected_cols == protected_cols,
            r.readonly == false,
            r.history@ == Seq::<AuditEvent>::empty(),
    {
        DeckHeader {
            version: DECK_VERSION,
            created_at,
            language,
            template,
            protected_cols,
            readonly: false,
            history: Vec::new(),
        }
    }
}

/// The outcome of checking one protected column: the first error the
/// original-against-updated comparison yields at one-based column `col`,
/// or nothing.
pub open spec fn check_col(col: int, old_text: Option<Seq<char>>, new_text: Seq<char>) -> Option<
    DeckError,
> {
    let idx = col - 1;
    if idx >= new_text.len() {
        Some(DeckError::ShortText { col: col as usize })
    } else {
        match old_text {
            Some(o) => {
                if idx >= o.len() {
                    Some(DeckError::ShortText { col: col as usize })
                } else if new_text[idx] != o[idx] {
                    Some(
                        DeckError::ProtectedColumnViolation {
                            col: col as usize,
                            expected: o[idx],
                            found: new_text[idx],
                        },
                    )
                } else {
                    None
                }
            },
            None => {
                if new_text[idx] != ' ' {
                    Some(
                        DeckError::ProtectedColumnViolation {
                            col: col as usize,
                            expected: ' ',
                            found: new_text[idx],
                        },
                    )
                } else {
                    None
                }
            },
        }
    }
}

/// First error among the columns `col ..= end` of one protected range.
pub open spec fn check_cols(
    col: int,
    end: int,
    old_text: Option<Seq<char>>,
    new_text: Seq<char>,
) -> Option<DeckError>
    decreases end + 1 - col,
{
    if col > end {
        None
    } else {
        match check_col(col, old_text, new_text) {
            Some(e) => Some(e),
            None => check_cols(col + 1, end, old_text, new_text),
        }
    }
}

/// First error among the protected ranges from index `i` on, scanning
/// each range's columns in order.
pub open spec fn check_ranges(
    ranges: Seq<ColumnRange>,
    i: int,
    old_text: Option<Seq<char>>,
    new_text: Seq<char>,
) -> Option<DeckError>
    decreases ranges.len() - i,
{
    if i < 0 || i >= ranges.len() {
        None
    } else {
        match check_cols(ranges[i].start as int, ranges[i].end as int, old_text, new_text) {
            Some(e) => Some(e),
            None => check_ranges(ranges, i + 1, old_text, new_text),
        }
    }
}

/// The error a mutation raises under protected columns, or nothing when it
/// is allowed: with no protected ranges everything is allowed; a new card
/// without text cannot be checked; otherwise the first conflicting column
/// is reported. `old_text` is the prior occupant's text for a replacement,
/// nothing for an append or insert.
pub open spec fn protection_error(
    ranges: Seq<ColumnRange>,
    old_text: Option<Seq<char>>,
    new_card: CardRecordV,
) -> Option<DeckError> {
    if ranges.len() == 0 {
        None
    } else {
        match new_card.text {
            None => Some(DeckError::MissingText),
            Some(t) => check_ranges(ranges, 0, old_text, t),
        }
    }
}

/// Every range of the list is a valid column range.
pub open spec fn ranges_wf(ranges: Seq<ColumnRange>) -> bool {
    forall|i: int| 0 <= i < ranges.len() ==> (#[trigger] ranges[i]).wf()
}

/// An in-memory deck: header metadata plus the ordered cards.
#[derive(Debug)]
pub struct Deck {
    pub header: DeckHeader,
    pub cards: Vec<CardRecord>,
}

/// Mathematical model of [`Deck`].
pub ghost struct DeckV {
    pub header: DeckHeaderV,
    pub cards: Seq<CardRecordV>,
}

impl View for Deck {
    type V = DeckV;

    open spec fn view(&self) -> DeckV {
        DeckV { header: self.header@, cards: self.cards@.map_values(|c: CardRecord| c@) }
    }
}

impl Clone for Deck {
    fn clone(&self) -> (r: Self)
        ensures
            r@ == self@,
    {
        let cards = self.cards.clone();
        proof {
            assert forall|i: int| 0 <= i < cards@.len() implies cards@[i]@
                == self.cards@[i]@ by {
                assert(vstd::pervasive::cloned(self.cards@[i], cards@[i]));
                if !(cards@[i] == self.cards@[i]) {
                    assert(vstd::pervasive::strictly_cloned(self.cards@[i], cards@[i]));
                }
            }
            assert(cards@.map_values(|c: CardRecord| c@) =~= self.cards@.map_values(
                |c: CardRecord| c@,
            ));
        }
        Deck { header: self.header.clone(), cards }
    }
}

/// Check a new or replacement card against the protected ranges,
/// returning the first conflict exactly as [`protection_error`] names it.
#[verifier::loop_isolation(false)]
fn enforce_protection(
    ranges: &Vec<ColumnRange>,
    old_text: Option<&Vec<char>>,
    updated: &CardRecord,
) -> (r: Result<(), DeckError>)
    requires
        ranges_wf(ranges@),
    ensures
        ({
            let ov = match old_text {
                Some(v) => Some(v@),
                None => None,
            };
            match protection_error(ranges@, ov, updated@) {
                None => r is Ok,
                Some(e) => r == Err::<(), DeckError>(e),
            }
        }),
{
    let ghost ov: Option<Seq<char>> = match old_text {
        Some(v) => Some(v@),
        None => None,
    };
    if ranges.len() == 0 {
        return Ok(());
    }
    let new_text = match &updated.text {
        Some(t) => t,
        None => {
            return Err(DeckError::MissingText);
        },
    };
    let mut i: usize = 0;
    while i < ranges.len()
        invariant
            i <= ranges@.len(),
            check_ranges(ranges@, 0, ov, new_text@) == check_ranges(ranges@, i as int, ov, new_text@),
        decreases ranges@.len() - i,
    {
        let range = ranges[i];
        let mut col = range.start;
        while col <= range.end
            invariant
                range == ranges@[i as int],
                range.start <= col,
                check_cols(range.start as int, range.end as int, ov, new_text@) == check_cols(
                    col as int,
                    range.end as int,
                    ov,
                    new_text@,
                ),
            decreases range.end + 1 - col,
        {
            assert(ranges@[i as int].wf());
            let idx = col - 1;
            let col_err: Option<DeckError> = if idx >= new_text.len() {
                Some(DeckError::ShortText { col })
            } else {
                match old_text {
                    Some(o) => {
                        if idx >= o.len() {
                            Some(DeckError::ShortText { col })
                        } else if new_text[idx] != o[idx] {
                            Some(
                                DeckError::ProtectedColumnViolation {
                                    col,
                                    expected: o[idx],
                                    found: new_text[idx],
                                },
                            )
                        } else {
                            None
                        }
                    },
                    None => {
                        if new_text[idx] != ' ' {
                            Some(
                                DeckError::ProtectedColumnViolation {
                                    col,
                                    expected: ' ',
                                    found: new_text[idx],
                                },
                            )
                        } else {
                            None
                        }
                    },
                }
            };
            assert(col_err == check_col(col as int, ov, new_text@));
            match col_err {
                Some(e) => {
                    proof {
                        assert(check_cols(col as int, range.end as int, ov, new_text@) == Some(e));
                        assert(check_cols(range.start as int, range.end as int, ov, new_text@)
                            == Some(e));
                        assert(check_ranges(ranges@, i as int, ov, new_text@) == Some(e));
                        assert(check_ranges(ranges@, 0, ov, new_text@) == Some(e));
                        assert(protection_error(ranges@, ov, updated@) == Some(e));
                    }
                    return Err(e);
                },
                None => {},
            }
            assert(check_col(col as int, ov, new_text@) is None);
            col += 1;
        }
        assert(check_cols(range.start as int, range.end as int, ov, new_text@) is None);
        i += 1;
    }
    assert(check_ranges(ranges@, 0, ov, new_text@) is None);
    Ok(())
}

impl Deck {
    /// An empty deck under the given header.
    pub fn new(header: DeckHeader) -> (r: Self)
        ensures
            r.header == header,
            r.cards@ == Seq::<CardRecord>::empty(),
    {
        Deck { header, cards: Vec::new() }
    }

    /// Append a card, enforcing the protected-column discipline: under
    /// protected ranges a new card must leave those columns blank. On any
    /// conflict the deck is unchanged and the first conflict is returned.
    pub fn append_card(&mut self, card: CardRecord) -> (r: Result<(), DeckError>)
        requires
            ranges_wf(old(self).header.protected_cols@),
        ensures
            ({
                match protection_error(old(self).header.protected_cols@, None, card@) {
                    None => {
                        &&& r is Ok
                        &&& final (self).cards@ == old(self).cards@.push(card)
                        &&& final (self).header == old(self).header
                    },
                    Some(e) => {
                        &&& r == Err::<(), DeckError>(e)
                        &&& *final (self) == *old(self)
                    },
                }
            }),
    {
        match enforce_protection(&self.header.protected_cols, None, &card) {
            Ok(()) => {
                self.cards.push(card);
                Ok(())
            },
            Err(e) => Err(e),
        }
    }

    /// Insert a card at `index` (which may equal the length, appending),
    /// under the same protected-column discipline as an append. On an
    /// out-of-range index or a conflict the deck is unchanged.
    pub fn insert_card(&mut self, index: usize, card: CardRecord) -> (r: Result<(), DeckError>)
        requires
            ranges_wf(old(self).header.protected_cols@),
        ensures
            index > old(self).cards@.len() ==> r == Err::<(), DeckError>(
                DeckError::IndexOutOfRange { index, len: old(self).cards@.len() as usize },
            ) && *final (self) == *old(self),
            index <= old(self).cards@.len() ==> ({
                match protection_error(old(self).header.protected_cols@, None, card@) {
                    None => {
                        &&& r is Ok
                        &&& final (self).cards@ == old(self).cards@.insert(index as int, card)
                        &&& final (self).header == old(self).header
                    },
                    Some(e) => {
                        &&& r == Err::<(), DeckError>(e)
                        &&& *final (self) == *old(self)
                    },
                }
            }),
    {
        if index > self.cards.len() {
            return Err(DeckError::IndexOutOfRange { index, len: self.cards.len() });
        }
        match enforce_protection(&self.header.protected_cols, None, &card) {
            Ok(()) => {
                self.cards.insert(index, card);
                Ok(())
            },
            Err(e) => Err(e),
        }
    }

    /// Replace the card at `index`. The protected columns are compared
    /// against the previous occupant of the slot: their content must not
    /// change. On an out-of-range index or a conflict the deck is
    /// unchanged.
    pub fn replace_card(&mut self, index: usize, card: CardRecord) -> (r: Result<(), DeckError>)
        requires
            ranges_wf(old(self).header.protected_cols@),
        ensures
            index >= old(self).cards@.len() ==> r == Err::<(), DeckError>(
                DeckError::IndexOutOfRange { index, len: old(self).cards@.len() as usize },
            ) && *final (self) == *old(self),
            index < old(self).cards@.len() ==> ({
                match protection_error(
                    old(self).header.protected_cols@,
                    old(self).cards@[index as int]@.text,
                    card@,
                ) {
                    None => {
                        &&& r is Ok
                        &&& final (self).cards@ == old(self).cards@.update(index as int, card)
                        &&& final (self).header == old(self).header
                    },
                    Some(e) => {
                        &&& r == Err::<(), DeckError>(e)
                        &&& *final (self) == *old(self)
                    },
                }
            }),
    {
        if index >= self.cards.len() {
            return Err(DeckError::IndexOutOfRange { index, len: self.cards.len() });
        }
        let old_text = match &self.cards[index].text {
            Some(t) => Some(t),
            None => None,
        };
        match enforce_protection(&self.header.protected_cols, old_text, &card) {
            Ok(()) => {
                self.cards[index] = card;
                Ok(())
            },
            Err(e) => Err(e),
        }
    }
    /// Assign sequence numbers `start, start + step, ...` to the cards in
    /// order, writing each value as a zero-padded eight-character decimal
    /// over the trailing columns of the card's text. Unlike the
    /// non-destructive write during typing, this deliberately overwrites
    /// the sequence field.
    #[verifier::loop_isolation(false)]
    pub fn number_sequence(&mut self, start: usize, step: usize)
        requires
            old(self).cards@.len() > 0 ==> start + (old(self).cards@.len() - 1) * step
                <= usize::MAX,
        ensures
            final (self).header == old(self).header,
            final (self).cards@.len() == old(self).cards@.len(),
            forall|i: int| 0 <= i < old(self).cards@.len() ==> {
                let c0 = old(self).cards@[i];
                let c1 = #[trigger] final (self).cards@[i];
                &&& c1.seq == Some((start + i * step) as usize)
                &&& c1@.text == (match c0@.text {
                    Some(t) => Some(seq_overwrite(pad_to(t, 80), (start + i * step) as nat)),
                    None => None::<Seq<char>>,
                })
                &&& c1.punches == c0.punches
                &&& c1.encoding == c0.encoding
                &&& c1.card_type == c0.card_type
                &&& c1.protected_cols == c0.protected_cols
                &&& c1.meta == c0.meta
            },
    {
        let ghost orig = self.cards@;
        let mut rest: Vec<CardRecord> = Vec::new();
        core::mem::swap(&mut self.cards, &mut rest);
        let mut done: Vec<CardRecord> = Vec::new();
        let mut value: usize = start;
        let mut k: usize = 0;
        let n = rest.len();
        while k < n
            invariant
                k <= n,
                n == orig.len(),
                rest@ == orig.skip(k as int),
                n > 0 ==> start + (n - 1) * step <= usize::MAX,
                value == start + k * step || (k == n && n > 0),
                k < n ==> value == start + k * step,
                done@.len() == k,
                forall|i: int| 0 <= i < k ==> {
                    let c0 = orig[i];
                    let c1 = #[trigger] done@[i];
                    &&& c1.seq == Some((start + i * step) as usize)
                    &&& c1@.text == (match c0@.text {
                        Some(t) => Some(seq_overwrite(pad_to(t, 80), (start + i * step) as nat)),
                        None => None::<Seq<char>>,
                    })
                    &&& c1.punches == c0.punches
                    &&& c1.encoding == c0.encoding
                    &&& c1.card_type == c0.card_type
                    &&& c1.protected_cols == c0.protected_cols
                    &&& c1.meta == c0.meta
                },
            decreases n - k,
        {
            proof {
                assert(k * step <= (n - 1) * step) by (nonlinear_arith)
                    requires
                        0 <= k <= n - 1,
                        0 <= step,
                ;
            }
            let mut card = rest.remove(0);
            assert(card == orig[k as int]);
            card.seq = Some(value);
            let mut taken: Option<Vec<char>> = None;
            core::mem::swap(&mut card.text, &mut taken);
            match taken {
                Some(t) => {
                    card.text = Some(overwrite_seq_field(t, value));
                },
                None => {},
            }
            done.push(card);
            assert(rest@ =~= orig.skip(k + 1));
            if k + 1 < n {
                proof {
                    assert((k + 1) * step <= (n - 1) * step) by (nonlinear_arith)
                        requires
                            0 <= k + 1 <= n - 1,
                            0 <= step,
                    ;
                    assert(k * step + step == (k + 1) * step) by (nonlinear_arith);
                }
                value = value + step;
            }
            k += 1;
        }
        core::mem::swap(&mut self.cards, &mut done);
    }

    /// The 80-column text of each card in order, with all-blank text
    /// standing in for cards that have none.
    #[verifier::loop_isolation(false)]
    pub fn as_text(&self) -> (r: Vec<String>)
        ensures
            r@.len() == self.cards@.len(),
            forall|i: int| 0 <= i < self.cards@.len() ==> (#[trigger] r@[i])@ == text_or_blank(
                self.cards@[i]@,
            ),
    {
        let mut r: Vec<String> = Vec::new();
        let mut i: usize = 0;
        while i < self.cards.len()
            invariant
                i <= self.cards@.len(),
                r@.len() == i,
                forall|j: int| 0 <= j < i ==> (#[trigger] r@[j])@ == text_or_blank(
                    self.cards@[j]@,
                ),
            decreases self.cards@.len() - i,
        {
            let s = match &self.cards[i].text {
                Some(v) => chars_to_string(v),
                None => {
                    let blanks = crate::text::blank_text(80);
                    chars_to_string(&blanks)
                },
            };
            r.push(s);
            i += 1;
        }
        r
    }

    /// Append one audit event; the caller resolves the clock and the actor
    /// identity. History is append-only: everything recorded stays, in
    /// order, and nothing else about the deck changes.
    pub fn log_action(&mut self, timestamp: i64, actor: String, action: String)
        ensures
            final (self).header.history@ == old(self).header.history@.push(
                AuditEvent { timestamp, actor, action },
            ),
            final (self).header.version == old(self).header.version,
            final (self).header.created_at == old(self).header.created_at,
            final (self).header.language == old(self).header.language,
            final (self).header.template == old(self).header.template,
            final (self).header.protected_cols == old(self).header.protected_cols,
            final (self).header.readonly == old(self).header.readonly,
            final (self).cards == old(self).cards,
    {
        self.header.history.push(AuditEvent { timestamp, actor, action });
    }

    /// Stable sort of the cards by optional sequence number: numbered
    /// cards in numeric order, unnumbered cards after all of them, and
    /// the relative order among equal numbers and among unnumbered cards
    /// preserved.
    #[verifier::loop_isolation(false)]
    pub fn sort_by_sequence(&mut self)
        ensures
            final (self).header == old(self).header,
            final (self).cards@ == sort_by_seq(old(self).cards@),
            sorted_by_seq(final (self).cards@),
            final (self).cards@.to_multiset() == old(self).cards@.to_multiset(),
    {
        proof {
            lemma_sort_by_seq_ensures(self.cards@);
        }
        let ghost orig = self.cards@;
        let mut rest: Vec<CardRecord> = Vec::new();
        core::mem::swap(&mut self.cards, &mut rest);
        let mut sorted: Vec<CardRecord> = Vec::new();
        let mut k: usize = 0;
        let n = rest.len();
        while k < n
            invariant
                k <= n,
                n == orig.len(),
                rest@ == orig.skip(k as int),
                sorted@ == sort_by_seq(orig.take(k as int)),
            decreases n - k,
        {
            let c = rest.remove(0);
            assert(c == orig[k as int]);
            assert(rest@ =~= orig.skip(k + 1));
            proof {
                lemma_sort_by_seq_ensures(orig.take(k as int));
            }
            let mut j: usize = sorted.len();
            while j > 0 && !key_le_exec(&sorted[j - 1], &c)
                invariant
                    j <= sorted@.len(),
                    forall|m: int| j <= m < sorted@.len() ==> !key_le(#[trigger] sorted@[m], c),
                decreases j,
            {
                j -= 1;
            }
            proof {
                lemma_insert_by_seq_at(sorted@, c, j as int);
            }
            sorted.insert(j, c);
            proof {
                assert(sorted@ =~= sort_by_seq(orig.take(k as int)).take(j as int) + seq![c]
                    + sort_by_seq(orig.take(k as int)).skip(j as int));
                assert(orig.take(k + 1).drop_last() =~= orig.take(k as int));
                assert(orig.take(k + 1).last() == orig[k as int]);
                assert(sort_by_seq(orig.take(k + 1)) == insert_by_seq(
                    sort_by_seq(orig.take(k as int)),
                    orig[k as int],
                ));
            }
            k += 1;
        }
        assert(orig.take(n as int) =~= orig);
        core::mem::swap(&mut self.cards, &mut sorted);
    }

    /// Merge another deck into this one: append all of its cards and its
    /// audit history, in order. Rejected, leaving both decks untouched,
    /// when the protected columns, the template or the language differ.
    #[verifier::loop_isolation(false)]
    pub fn merge_from(&mut self, other: &Deck) -> (r: Result<(), DeckError>)
        ensures
            old(self).header.protected_cols@ != other.header.protected_cols@ ==> r == Err::<
                (),
                DeckError,
            >(DeckError::IncompatibleMerge(MergeConflict::ProtectedColumns)) && *final (self)
                == *old(self),
            old(self).header.protected_cols@ == other.header.protected_cols@ && old(
                self,
            ).header@.template != other.header@.template ==> r == Err::<(), DeckError>(
                DeckError::IncompatibleMerge(MergeConflict::Template),
            ) && *final (self) == *old(self),
            old(self).header.protected_cols@ == other.header.protected_cols@ && old(
                self,
            ).header@.template == other.header@.template && old(self).header@.language
                != other.header@.language ==> r == Err::<(), DeckError>(
                DeckError::IncompatibleMerge(MergeConflict::Language),
            ) && *final (self) == *old(self),
            old(self).header.protected_cols@ == other.header.protected_cols@ && old(
                self,
            ).header@.template == other.header@.template && old(self).header@.language
                == other.header@.language ==> {
                &&& r is Ok
                &&& final (self).cards@.len() == old(self).cards@.len() + other.cards@.len()
                &&& final (self).cards@.take(old(self).cards@.len() as int) == old(self).cards@
                &&& forall|i: int| 0 <= i < other.cards@.len()
                    ==> (#[trigger] final (self).cards@[old(self).cards@.len() + i])@
                        == other.cards@[i]@
                &&& final (self).header.history@ == old(self).header.history@ + other.header.history@
                &&& final (self).header.version == old(self).header.version
                &&& final (self).header.created_at == old(self).header.created_at
                &&& final (self).header.language == old(self).header.language
                &&& final (self).header.template == old(self).header.template
                &&& final (self).header.protected_cols == old(self).header.protected_cols
                &&& final (self).header.readonly == old(self).header.readonly
            },
    {
        if !ranges_equal(&self.header.protected_cols, &other.header.protected_cols) {
            return Err(DeckError::IncompatibleMerge(MergeConflict::ProtectedColumns));
        }
        if !opt_str_eq(&self.header.template, &other.header.template) {
            return Err(DeckError::IncompatibleMerge(MergeConflict::Template));
        }
        if !opt_str_eq(&self.header.language, &other.header.language) {
            return Err(DeckError::IncompatibleMerge(MergeConflict::Language));
        }
        let ghost n = self.cards@.len() as int;
        let mut i: usize = 0;
        while i < other.cards.len()
            invariant
                i <= other.cards@.len(),
                self.cards@.len() == n + i,
                self.cards@.take(n) == old(self).cards@,
                self.header == old(self).header,
                forall|j: int| 0 <= j < i ==> (#[trigger] self.cards@[n + j])@
                    == other.cards@[j]@,
            decreases other.cards@.len() - i,
        {
            let c = other.cards[i].clone();
            self.cards.push(c);
            assert(self.cards@.take(n) =~= old(self).cards@);
            i += 1;
        }
        let mut j: usize = 0;
        while j < other.header.history.len()
            invariant
                j <= other.header.history@.len(),
                self.header.history@ == old(self).header.history@ + other.header.history@.take(
                    j as int,
                ),
                self.header.version == old(self).header.version,
                self.header.created_at == old(self).header.created_at,
                self.header.language == old(self).header.language,
                self.header.template == old(self).header.template,
                self.header.protected_cols == old(self).header.protected_cols,
                self.header.readonly == old(self).header.readonly,
                self.cards@.len() == n + other.cards@.len(),
                self.cards@.take(n) == old(self).cards@,
                forall|m: int| 0 <= m < other.cards@.len() ==> (#[trigger] self.cards@[n + m])@
                    == other.cards@[m]@,
            decreases other.header.history@.len() - j,
        {
            let e = other.header.history[j].clone();
            self.header.history.push(e);
            assert(self.header.history@ =~= old(self).header.history@
                + other.header.history@.take(j + 1));
            j += 1;
        }
        assert(other.header.history@.take(other.header.history@.len() as int)
            =~= other.header.history@);
        Ok(())
    }

    /// A new deck holding the cards of the contiguous index range
    /// `start .. end`, in order, under a copy of this deck's header; an
    /// end beyond the deck or a start beyond the end is rejected.
    #[verifier::loop_isolation(false)]
    pub fn slice(&self, start: usize, end: usize) -> (r: Result<Deck, DeckError>)
        ensures
            end > self.cards@.len() ==> r == Err::<Deck, DeckError>(
                DeckError::IndexOutOfRange { index: end, len: self.cards@.len() as usize },
            ),
            end <= self.cards@.len() && start > end ==> r == Err::<Deck, DeckError>(
                DeckError::IndexOutOfRange { index: start, len: self.cards@.len() as usize },
            ),
            start <= end <= self.cards@.len() ==> (r matches Ok(d) && {
                &&& d.header@ == self.header@
                &&& d.cards@.len() == end - start
                &&& forall|k: int| 0 <= k < end - start ==> (#[trigger] d.cards@[k])@
                    == self.cards@[start + k]@
            }),
    {
        if end > self.cards.len() {
            return Err(DeckError::IndexOutOfRange { index: end, len: self.cards.len() });
        }
        if start > end {
            return Err(DeckError::IndexOutOfRange { index: start, len: self.cards.len() });
        }
        let mut cards: Vec<CardRecord> = Vec::new();
        let mut k: usize = start;
        while k < end
            invariant
                start <= k <= end,
                end <= self.cards@.len(),
                cards@.len() == k - start,
                forall|m: int| 0 <= m < k - start ==> (#[trigger] cards@[m])@
                    == self.cards@[start + m]@,
            decreases end - k,
        {
            cards.push(self.cards[k].clone());
            k += 1;
        }
        Ok(Deck { header: self.header.clone(), cards })
    }

    /// A new deck holding exactly the cards at the given zero-based
    /// indices, in the given order, under a copy of this deck's header.
    /// The first out-of-bounds index is rejected.
    #[verifier::loop_isolation(false)]
    pub fn slice_indices(&self, indices: &[usize]) -> (r: Result<Deck, DeckError>)
        ensures
            r is Ok <==> (forall|j: int| 0 <= j < indices@.len()
                ==> (#[trigger] indices@[j]) < self.cards@.len()),
            r matches Ok(d) ==> {
                &&& d.header@ == self.header@
                &&& d.cards@.len() == indices@.len()
                &&& forall|k: int| 0 <= k < indices@.len() ==> (#[trigger] d.cards@[k])@
                    == self.cards@[indices@[k] as int]@
            },
            r matches Err(e) ==> exists|j: int|
                0 <= j < indices@.len() && (#[trigger] indices@[j]) >= self.cards@.len() && e == (
                DeckError::IndexOutOfRange {
                    index: indices@[j],
                    len: self.cards@.len() as usize,
                }),
    {
        let mut cards: Vec<CardRecord> = Vec::new();
        let mut k: usize = 0;
        while k < indices.len()
            invariant
                k <= indices@.len(),
                cards@.len() == k,
                forall|j: int| 0 <= j < k ==> (#[trigger] indices@[j]) < self.cards@.len(),
                forall|m: int| 0 <= m < k ==> (#[trigger] cards@[m])@
                    == self.cards@[indices@[m] as int]@,
            decreases indices@.len() - k,
        {
            let idx = indices[k];
            if idx >= self.cards.len() {
                return Err(DeckError::IndexOutOfRange { index: idx, len: self.cards.len() });
            }
            cards.push(self.cards[idx].clone());
            k += 1;
        }
        Ok(Deck { header: self.header.clone(), cards })
    }

    /// Materialise every card as a punch-pattern card under `enc`; fails
    /// on the first card holding an unencodable character.
    #[verifier::loop_isolation(false)]
    pub fn to_punch_deck<E: PunchEncoding>(&self, enc: &E) -> (r: Result<
        crate::punchcards::CardDeck,
        EncodeError,
    >)
        ensures
            r matches Ok(d) ==> {
                &&& d.wf()
                &&& d.cards@.len() == self.cards@.len()
                &&& forall|i: int| 0 <= i < self.cards@.len() ==> {
                    let card = #[trigger] d.cards@[i];
                    &&& card.raw_text@ == clip80(text_or_empty(self.cards@[i]@))
                    &&& card.encodes(enc)
                }
            },
            r is Ok <==> (forall|i: int| 0 <= i < self.cards@.len() ==> all_encodable(
                enc,
                clip80(text_or_empty(#[trigger] self.cards@[i]@)),
            )),
            r matches Err(e) ==> exists|i: int|
                0 <= i < self.cards@.len() && !all_encodable(
                    enc,
                    clip80(text_or_empty(#[trigger] self.cards@[i]@)),
                ) && rejects_first(enc, clip80(text_or_empty(self.cards@[i]@)), e),
    {
        let mut out: Vec<PunchCard> = Vec::new();
        let mut i: usize = 0;
        while i < self.cards.len()
            invariant
                i <= self.cards@.len(),
                out@.len() == i,
                forall|j: int| 0 <= j < i ==> {
                    let card = #[trigger] out@[j];
                    &&& card.wf()
                    &&& card.raw_text@ == clip80(text_or_empty(self.cards@[j]@))
                    &&& card.encodes(enc)
                },
                forall|j: int| 0 <= j < i ==> all_encodable(
                    enc,
                    clip80(text_or_empty(#[trigger] self.cards@[j]@)),
                ),
            decreases self.cards@.len() - i,
        {
            match self.cards[i].to_punch_card(enc) {
                Ok(card) => {
                    out.push(card);
                },
                Err(e) => {
                    return Err(e);
                },
            }
            i += 1;
        }
        Ok(crate::punchcards::CardDeck { cards: out })
    }
}

/// Ordering of cards by optional sequence number: numbered cards in
/// numeric order, all of them before every unnumbered card, and equal or
/// missing numbers tied.
pub open spec fn key_le(a: CardRecord, b: CardRecord) -> bool {
    match (a.seq, b.seq) {
        (Some(x), Some(y)) => x <= y,
        (Some(x), None) => true,
        (None, Some(y)) => false,
        (None, None) => true,
    }
}

/// `x` inserted into `s` after every element whose key is at most its
/// own: the insertion step of a stable sort.
pub open spec fn insert_by_seq(s: Seq<CardRecord>, x: CardRecord) -> Seq<CardRecord>
    decreases s.len(),
{
    if s.len() > 0 && !key_le(s.last(), x) {
        insert_by_seq(s.drop_last(), x).push(s.last())
    } else {
        s.push(x)
    }
}

/// The stable sort of `s` by sequence number: each element in turn is
/// inserted after its equals, so the relative order of cards with equal
/// (or missing) numbers is preserved.
pub open spec fn sort_by_seq(s: Seq<CardRecord>) -> Seq<CardRecord>
    decreases s.len(),
{
    if s.len() == 0 {
        Seq::empty()
    } else {
        insert_by_seq(sort_by_seq(s.drop_last()), s.last())
    }
}

/// Whether `s` is ordered by sequence number.
pub open spec fn sorted_by_seq(s: Seq<CardRecord>) -> bool {
    forall|i: int, j: int| 0 <= i < j < s.len() ==> key_le(#[trigger] s[i], #[trigger] s[j])
}

/// Comparison of two cards by sequence number, in executable form.
fn key_le_exec(a: &CardRecord, b: &CardRecord) -> (r: bool)
    ensures
        r == key_le(*a, *b),
{
    match (a.seq, b.seq) {
        (Some(x), Some(y)) => x <= y,
        (Some(_), None) => true,
        (None, Some(_)) => false,
        (None, None) => true,
    }
}

/// Inserting at the boundary position equals the recursive insertion.
proof fn lemma_insert_by_seq_at(s: Seq<CardRecord>, x: CardRecord, j: int)
    requires
        0 <= j <= s.len(),
        forall|m: int| j <= m < s.len() ==> !key_le(#[trigger] s[m], x),
        j > 0 ==> key_le(s[j - 1], x),
    ensures
        insert_by_seq(s, x) == s.take(j) + seq![x] + s.skip(j),
    decreases s.len(),
{
    if j == s.len() {
        if s.len() > 0 {
            assert(key_le(s.last(), x));
        }
        assert(s.take(j) =~= s);
        assert(s.skip(j) =~= Seq::<CardRecord>::empty());
        assert(insert_by_seq(s, x) =~= s.take(j) + seq![x] + s.skip(j));
    } else {
        assert(!key_le(s.last(), x));
        lemma_insert_by_seq_at(s.drop_last(), x, j);
        assert(s.drop_last().take(j) =~= s.take(j));
        assert(s.drop_last().skip(j).push(s.last()) =~= s.skip(j));
        assert((s.drop_last().take(j) + seq![x] + s.drop_last().skip(j)).push(s.last())
            =~= s.take(j) + seq![x] + s.skip(j));
    }
}

/// Insertion preserves sortedness, keeps only given elements, and adds
/// exactly the new one.
proof fn lemma_insert_by_seq_ensures(s: Seq<CardRecord>, x: CardRecord)
    requires
        sorted_by_seq(s),
    ensures
        sorted_by_seq(insert_by_seq(s, x)),
        insert_by_seq(s, x).to_multiset() == s.to_multiset().insert(x),
        insert_by_seq(s, x).len() == s.len() + 1,
        forall|i: int| 0 <= i < insert_by_seq(s, x).len() ==> #[trigger] insert_by_seq(s, x)[i]
            == x || s.contains(insert_by_seq(s, x)[i]),
    decreases s.len(),
{
    broadcast use vstd::seq_lib::group_to_multiset_ensures;

    if s.len() > 0 && !key_le(s.last(), x) {
        assert(sorted_by_seq(s.drop_last()));
        lemma_insert_by_seq_ensures(s.drop_last(), x);
        let t = insert_by_seq(s.drop_last(), x);
        let u = t.push(s.last());
        assert forall|i: int| 0 <= i < u.len() implies #[trigger] u[i] == x || s.contains(
            u[i],
        ) by {
            if i < t.len() {
                if t[i] != x {
                    assert(s.drop_last().contains(t[i]));
                    let k = choose|k: int| 0 <= k < s.drop_last().len() && s.drop_last()[k]
                        == t[i];
                    assert(s[k] == t[i]);
                }
            } else {
                assert(u[i] == s[s.len() - 1]);
            }
        }
        assert forall|i: int, j: int| 0 <= i < j < u.len() implies key_le(
            #[trigger] u[i],
            #[trigger] u[j],
        ) by {
            if j < t.len() {
                assert(key_le(t[i], t[j]));
            } else {
                assert(u[j] == s.last());
                if u[i] == x {
                    assert(key_le(x, s.last()));
                } else {
                    assert(s.drop_last().contains(u[i]));
                    let k = choose|k: int| 0 <= k < s.drop_last().len() && s.drop_last()[k]
                        == u[i];
                    assert(key_le(s[k], s[s.len() - 1]));
                }
            }
        }
        assert(s.drop_last().to_multiset().insert(x).insert(s.last())
            =~= s.drop_last().to_multiset().insert(s.last()).insert(x));
        assert(s.drop_last().push(s.last()) =~= s);
        assert(s.drop_last().to_multiset().insert(s.last()) == s.to_multiset());
    } else {
        let u = s.push(x);
        assert forall|i: int, j: int| 0 <= i < j < u.len() implies key_le(
            #[trigger] u[i],
            #[trigger] u[j],
        ) by {
            if j < s.len() {
            } else if s.len() > 0 {
                assert(key_le(s.last(), x));
                if i < s.len() - 1 {
                    assert(key_le(s[i], s[s.len() - 1]));
                }
            }
        }
        assert forall|i: int| 0 <= i < u.len() implies #[trigger] u[i] == x || s.contains(
            u[i],
        ) by {
            if i < s.len() {
                assert(s[i] == u[i]);
            }
        }
    }
}

/// The stable sort is ordered and holds exactly the cards it was given.
pub proof fn lemma_sort_by_seq_ensures(s: Seq<CardRecord>)
    ensures
        sorted_by_seq(sort_by_seq(s)),
        sort_by_seq(s).to_multiset() == s.to_multiset(),
        sort_by_seq(s).len() == s.len(),
    decreases s.len(),
{
    broadcast use vstd::seq_lib::group_to_multiset_ensures;

    if s.len() > 0 {
        lemma_sort_by_seq_ensures(s.drop_last());
        lemma_insert_by_seq_ensures(sort_by_seq(s.drop_last()), s.last());
        assert(s.drop_last().push(s.last()) =~= s);
        assert(s.drop_last().to_multiset().insert(s.last()) == s.to_multiset());
    }
}

/// Whether two range lists hold the same ranges in the same order.
fn ranges_equal(a: &Vec<ColumnRange>, b: &Vec<ColumnRange>) -> (r: bool)
    ensures
        r == (a@ == b@),
{
    if a.len() != b.len() {
        return false;
    }
    let mut i: usize = 0;
    while i < a.len()
        invariant
            i <= a@.len(),
            a@.len() == b@.len(),
            forall|j: int| 0 <= j < i ==> a@[j] == b@[j],
        decreases a@.len() - i,
    {
        let x = a[i];
        let y = b[i];
        if x.start != y.start || x.end != y.end {
            assert(a@[i as int] != b@[i as int]);
            return false;
        }
        i += 1;
    }
    assert(a@ =~= b@);
    true
}

/// Whether two optional strings hold the same characters (or are both
/// absent).
fn opt_str_eq(a: &Option<String>, b: &Option<String>) -> (r: bool)
    ensures
        r == (view_opt_str(*a) == view_opt_str(*b)),
{
    match (a, b) {
        (None, None) => true,
        (Some(x), Some(y)) => x.eq(y),
        _ => false,
    }
}

/// Character at position `i` after overwriting the trailing eight-column
/// sequence field of `t` with the zero-padded decimal value `v`.
pub open spec fn seq_ov_char(t: Seq<char>, v: nat, i: int) -> char {
    let field = pad_left_zeros(dec_digits(v), 8);
    let st = if field.len() >= 80 {
        0
    } else {
        80 - field.len()
    };
    if st <= i < st + field.len() && i < t.len() {
        field[i - st]
    } else {
        t[i]
    }
}

/// `t` (at least 80 columns) with the decimal value `v` overwritten as a
/// zero-padded eight-character field over the columns before column 81.
pub open spec fn seq_overwrite(t: Seq<char>, v: nat) -> Seq<char> {
    Seq::new(t.len(), |i: int| seq_ov_char(t, v, i))
}

/// Overwrite the sequence field of an owned card text, padding it to 80
/// columns first.
#[verifier::loop_isolation(false)]
fn overwrite_seq_field(t: Vec<char>, v: usize) -> (r: Vec<char>)
    ensures
        r@ == seq_overwrite(pad_to(t@, 80), v as nat),
{
    let ghost t0 = pad_to(t@, 80);
    let ghost t1 = seq_overwrite(t0, v as nat);
    let mut chars = t;
    let ghost raw = chars@;
    assert(chars@ =~= t0.take(chars@.len() as int));
    while chars.len() < 80
        invariant
            raw.len() <= chars@.len(),
            chars@.len() <= 80 || chars@.len() == raw.len(),
            t0 == pad_to(raw, 80),
            chars@ == t0.take(chars@.len() as int),
        decreases 80 - chars.len(),
    {
        let ghost len = chars@.len() as int;
        assert(t0[len] == ' ');
        chars.push(' ');
        assert(chars@ =~= t0.take(len + 1));
    }
    assert(chars@ =~= t0);
    let field = crate::text::pad_left_zeros_chars(&crate::text::dec_chars(v as u64), 8);
    assert(field@ == pad_left_zeros(dec_digits(v as nat), 8));
    let st = if field.len() >= 80 {
        0
    } else {
        80 - field.len()
    };
    let mut offset: usize = 0;
    while offset < field.len()
        invariant
            offset <= field@.len(),
            field@ == pad_left_zeros(dec_digits(v as nat), 8),
            st == (if field@.len() >= 80 { 0int } else { 80 - field@.len() }),
            chars@.len() == t0.len(),
            forall|i: int| 0 <= i < t0.len() && !(st <= i < st + offset) ==> #[trigger] chars@[i]
                == t0[i],
            forall|i: int| st <= i < st + offset && i < t0.len() ==> #[trigger] chars@[i] == t1[i],
        decreases field@.len() - offset,
    {
        let idx = st + offset;
        if idx < chars.len() {
            chars[idx] = field[offset];
            assert(chars@[idx as int] == t1[idx as int]);
        }
        offset += 1;
    }
    proof {
        assert forall|i: int| 0 <= i < t0.len() implies chars@[i] == t1[i] by {
            if st <= i < st + field@.len() {
                if i < t0.len() {
                    assert(chars@[i] == t1[i]);
                }
            } else {
                assert(chars@[i] == t0[i]);
                assert(t1[i] == t0[i]);
            }
        }
        assert(chars@ =~= t1);
    }
    chars
}

/// Columns of one protected range are conflict-free exactly when the new
/// text agrees with the old text on every one of them.
proof fn lemma_check_cols_none(col0: int, end: int, o: Seq<char>, n: Seq<char>)
    requires
        1 <= col0,
        end <= o.len(),
        end <= n.len(),
    ensures
        check_cols(col0, end, Some(o), n) is None <==> (forall|col: int|
            col0 <= col <= end ==> #[trigger] n[col - 1] == o[col - 1]),
    decreases end + 1 - col0,
{
    if col0 > end {
    } else {
        lemma_check_cols_none(col0 + 1, end, o, n);
    }
}

/// Replacing a card under protected columns succeeds exactly when the new
/// 80-column text leaves every protected column's character unchanged;
/// otherwise the check names a conflicting column.
pub proof fn lemma_protected_columns_exact(ranges: Seq<ColumnRange>, o: Seq<char>, n: Seq<char>)
    requires
        ranges_wf(ranges),
        o.len() == 80,
        n.len() == 80,
    ensures
        check_ranges(ranges, 0, Some(o), n) is None <==> (forall|ri: int, col: int|
            #![trigger ranges[ri], n[col - 1]]
            0 <= ri < ranges.len() && ranges[ri].spec_contains(col) ==> n[col - 1]
                == o[col - 1]),
{
    lemma_check_ranges_none(ranges, 0, o, n);
}

/// The range scan from index `i` on is conflict-free exactly when the
/// texts agree on every column of every remaining range.
proof fn lemma_check_ranges_none(ranges: Seq<ColumnRange>, i: int, o: Seq<char>, n: Seq<char>)
    requires
        0 <= i,
        ranges_wf(ranges),
        o.len() == 80,
        n.len() == 80,
    ensures
        check_ranges(ranges, i, Some(o), n) is None <==> (forall|ri: int, col: int|
            #![trigger ranges[ri], n[col - 1]]
            i <= ri < ranges.len() && ranges[ri].spec_contains(col) ==> n[col - 1]
                == o[col - 1]),
    decreases ranges.len() - i,
{
    if i >= ranges.len() {
    } else {
        assert(ranges[i].wf());
        lemma_check_cols_none(ranges[i].start as int, ranges[i].end as int, o, n);
        lemma_check_ranges_none(ranges, i + 1, o, n);
    }
}

} // verus!
