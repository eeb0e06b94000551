//! A single punch card (80 columns of punch patterns derived from text) and
//! ordered collections of cards, together with their ASCII-art rendering.

use vstd::prelude::*;
use crate::encoding::{CellMask, EncodeError, PunchEncoding};
use crate::text::{blank_chars, pad_to, pad_left, dec_digits, blank_text, dec_chars, pad_left_chars,
    chars_to_string, digit_to_char};

verus! {

/// Whether every character of `t` is encodable under `enc`.
pub open spec fn all_encodable<E: PunchEncoding>(enc: &E, t: Seq<char>) -> bool {
    forall|i: int| 0 <= i < t.len() ==> (#[trigger] enc.spec_encode(t[i])) is Some
}

/// The first 80 characters of `s` (all of them when there are fewer).
pub open spec fn clip80(s: Seq<char>) -> Seq<char> {
    if s.len() <= 80 {
        s
    } else {
        s.take(80)
    }
}

/// Witness that position `i` holds the first character of `t` that `enc`
/// cannot encode, and that `e` reports exactly that character.
pub open spec fn first_reject<E: PunchEncoding>(enc: &E, t: Seq<char>, e: EncodeError, i: int) -> bool {
    &&& 0 <= i < t.len()
    &&& all_encodable(enc, t.take(i))
    &&& enc.spec_encode(t[i]) is None
    &&& e == EncodeError::Unsupported(t[i], t[i] as u32)
}

/// `e` reports the first character of `t` that `enc` cannot encode.
pub open spec fn rejects_first<E: PunchEncoding>(enc: &E, t: Seq<char>, e: EncodeError) -> bool {
    exists|i: int| #[trigger] first_reject(enc, t, e, i)
}

/// The 80 punch patterns derived from `t` under `enc`: one mask per
/// character, blank (no holes) past the end of the text.
pub open spec fn encoded_cols<E: PunchEncoding>(enc: &E, t: Seq<char>) -> Seq<CellMask> {
    Seq::new(80, |i: int| if i < t.len() {
        CellMask(enc.spec_encode(t[i]).unwrap_or(0))
    } else {
        CellMask(0)
    })
}

/// One card: 80 column punch patterns plus the text they were derived from.
///
/// Well-formed cards hold exactly 80 masks and at most 80 characters of text.
#[derive(Debug, Clone)]
pub struct PunchCard {
    pub cols: Vec<CellMask>,
    pub raw_text: Vec<char>,
}

/// The right-aligned, at-least-nine-character digit field for sequence
/// number `n`.
pub open spec fn seq_field(n: nat) -> Seq<char> {
    pad_left(dec_digits(n), 9)
}

/// Index of the first column the sequence field occupies.
pub open spec fn seq_start(n: nat) -> int {
    if seq_field(n).len() >= 80 {
        0
    } else {
        80 - seq_field(n).len()
    }
}

/// Character at column `i` after writing sequence number `n` into the
/// 80-column text `t`: a digit-field character where the field overlaps a
/// blank column, the original character everywhere else.
pub open spec fn with_seq_char(t: Seq<char>, n: nat, i: int) -> char {
    if seq_start(n) <= i < seq_start(n) + seq_field(n).len() && t[i] == ' ' {
        seq_field(n)[i - seq_start(n)]
    } else {
        t[i]
    }
}

/// `t` (an 80-column text) with sequence number `n` written into the
/// trailing columns, touching only columns that were blank.
pub open spec fn with_seq_text(t: Seq<char>, n: nat) -> Seq<char> {
    Seq::new(80, |i: int| with_seq_char(t, n, i))
}

/// Writing a sequence number is non-destructive: a column that already
/// holds a non-blank character keeps it, whatever number is written.
pub proof fn lemma_with_sequence_preserves_content(t: Seq<char>, n: nat, i: int)
    requires
        0 <= i < 80,
        i < t.len(),
        t[i] != ' ',
    ensures
        with_seq_text(t, n)[i] == t[i],
{
    assert(with_seq_text(t, n)[i] == with_seq_char(t, n, i));
}

/// ASCII rendering styles for punch patterns.
#[derive(Debug, Clone, Copy, PartialEq, Eq, Structural)]
pub enum RenderStyle {
    /// Mark punched holes with `X`, blanks with a space.
    AsciiX,
    /// Mark punched holes with `1`, blanks with `0`.
    Ascii01,
}

/// The character a style uses for a punched hole.
pub open spec fn mark_char(style: RenderStyle) -> char {
    match style {
        RenderStyle::AsciiX => 'X',
        RenderStyle::Ascii01 => '1',
    }
}

/// The character a style uses for an unpunched position.
pub open spec fn blank_char(style: RenderStyle) -> char {
    match style {
        RenderStyle::AsciiX => ' ',
        RenderStyle::Ascii01 => '0',
    }
}

/// Ruler character above column index `i` (zero-based): the tens digit of
/// the one-based column number at every tenth column, a dot elsewhere.
pub open spec fn ruler_char(i: int) -> char {
    if (i + 1) % 10 == 0 {
        crate::text::digit_char((((i + 1) / 10) % 10) as nat)
    } else {
        '.'
    }
}

/// The 80-character column ruler.
pub open spec fn ruler_chars() -> Seq<char> {
    Seq::new(80, |i: int| ruler_char(i))
}

/// An 80-character separator rule.
pub open spec fn dash_chars() -> Seq<char> {
    Seq::new(80, |i: int| '-')
}

/// The mask bit belonging to output row `r` (rows are printed in the order
/// 12, 11, 0, 1, ..., 9).
pub open spec fn row_bit(r: int) -> u16 {
    if r == 0 {
        11
    } else if r == 1 {
        10
    } else {
        (r - 2) as u16
    }
}

/// Whether output row `r` is punched in a column with mask `m`.
pub open spec fn punched(m: u16, r: int) -> bool {
    (m >> row_bit(r)) & 1 == 1
}

/// The mark-or-blank character of one cell.
pub open spec fn cell_char(m: u16, r: int, style: RenderStyle) -> char {
    if punched(m, r) {
        mark_char(style)
    } else {
        blank_char(style)
    }
}

/// The right-aligned three-character label of output row `r`.
pub open spec fn row_label(r: int) -> Seq<char> {
    if r == 0 {
        seq![' ', '1', '2']
    } else if r == 1 {
        seq![' ', '1', '1']
    } else {
        seq![' ', ' ', crate::text::digit_char((r - 2) as nat)]
    }
}

/// The 80 cells of output row `r`.
pub open spec fn row_cells(cols: Seq<CellMask>, r: int, style: RenderStyle) -> Seq<char> {
    Seq::new(80, |c: int| cell_char(cols[c].0, r, style))
}

/// One full output line for row `r`: label, separator, cells, closing bar.
pub open spec fn row_line(cols: Seq<CellMask>, r: int, style: RenderStyle) -> Seq<char> {
    row_label(r) + seq![' ', '|'] + row_cells(cols, r, style) + seq!['|', '\n']
}

/// The row lines from output row `r` to the bottom of the card.
pub open spec fn rows_from(cols: Seq<CellMask>, style: RenderStyle, r: int) -> Seq<char>
    decreases 12 - r,
{
    if r < 0 || r >= 12 {
        Seq::empty()
    } else {
        row_line(cols, r, style) + rows_from(cols, style, r + 1)
    }
}

/// The fixed header line of every rendering.
pub open spec fn header_chars() -> Seq<char> {
    "IBM 5081 (80 cols) [IBM029]"@ + seq!['\n']
}

/// The complete ASCII rendering of a card: header, ruler, original text,
/// the twelve punch rows, and separator rules, with a five-space indent on
/// the framing lines.
pub open spec fn render_chars(cols: Seq<CellMask>, text: Seq<char>, style: RenderStyle) -> Seq<
    char,
> {
    header_chars() + blank_chars(5) + ruler_chars() + seq!['\n'] + blank_chars(5) + pad_to(text, 80)
        + seq!['\n'] + blank_chars(5) + dash_chars() + seq!['\n'] + rows_from(cols, style, 0)
        + blank_chars(5) + dash_chars() + seq!['\n']
}

impl PunchCard {
    /// Structural invariant: exactly 80 columns, text no wider than the card.
    pub open spec fn wf(&self) -> bool {
        &&& self.cols@.len() == 80
        &&& self.raw_text@.len() <= 80
    }

    /// Columns and text agree under `enc`: each mask is the encoding of the
    /// character in its column, blank where the text ends.
    pub open spec fn encodes<E: PunchEncoding>(&self, enc: &E) -> bool {
        self.cols@ == encoded_cols(enc, self.raw_text@)
    }

    /// A blank card: no text, no holes.
    pub fn new() -> (r: Self)
        ensures
            r.wf(),
            r.raw_text@ == Seq::<char>::empty(),
            r.cols@ == Seq::new(80, |i: int| CellMask(0)),
    {
        let mut cols: Vec<CellMask> = Vec::new();
        let mut i: usize = 0;
        while i < 80
            invariant
                i <= 80,
                cols@ == Seq::new(i as nat, |j: int| CellMask(0)),
            decreases 80 - i,
        {
            cols.push(CellMask(0));
            assert(cols@ =~= Seq::new((i + 1) as nat, |j: int| CellMask(0)));
            i += 1;
        }
        PunchCard { cols, raw_text: Vec::new() }
    }

    /// Encode the first 80 characters of `s` into a card.
    ///
    /// Succeeds exactly when every one of those characters is encodable;
    /// otherwise reports the first character that is not.
    #[verifier::loop_isolation(false)]
    pub fn from_str<E: PunchEncoding>(enc: &E, s: &str) -> (r: Result<Self, EncodeError>)
        ensures
            r matches Ok(card) ==> {
                &&& card.wf()
                &&& card.raw_text@ == clip80(s@)
                &&& card.encodes(enc)
                &&& all_encodable(enc, clip80(s@))
            },
            r matches Err(e) ==> !all_encodable(enc, clip80(s@)) && rejects_first(
                enc,
                clip80(s@),
                e,
            ),
    {
        let ghost t = clip80(s@);
        let n = s.unicode_len();
        let limit = if n <= 80 { n } else { 80 };
        assert(t.len() == limit);
        let mut raw_text: Vec<char> = Vec::new();
        let mut cols: Vec<CellMask> = Vec::new();
        let mut i: usize = 0;
        while i < limit
            invariant
                i <= limit,
                limit <= 80,
                limit == t.len(),
                n == s@.len(),
                limit == if n <= 80 { n as int } else { 80 },
                t == (if s@.len() <= 80 { s@ } else { s@.take(80) }),
                raw_text@ == t.take(i as int),
                all_encodable(enc, t.take(i as int)),
                cols@.len() == i,
                forall|j: int| 0 <= j < i ==> #[trigger] cols@[j]
                    == CellMask(enc.spec_encode(t[j]).unwrap_or(0)),
            decreases limit - i,
        {
            let ch = s.get_char(i);
            assert(ch == t[i as int]);
            match enc.encode_char(ch) {
                Ok(m) => {
                    raw_text.push(ch);
                    cols.push(m);
                    assert(raw_text@ =~= t.take(i + 1));
                    assert(all_encodable(enc, t.take(i + 1)));
                },
                Err(e) => {
                    proof {
                        assert(first_reject(enc, clip80(s@), e, i as int));
                        assert(rejects_first(enc, clip80(s@), e));
                        assert(!all_encodable(enc, clip80(s@)));
                    }
                    return Err(e);
                },
            }
            i += 1;
        }
        assert(t.take(limit as int) =~= t);
        while i < 80
            invariant
                limit <= i <= 80,
                limit == t.len(),
                raw_text@ == t,
                cols@.len() == i,
                forall|j: int| 0 <= j < limit ==> #[trigger] cols@[j]
                    == CellMask(enc.spec_encode(t[j]).unwrap_or(0)),
                forall|j: int| limit <= j < i ==> (#[trigger] cols@[j]) == CellMask(0),
            decreases 80 - i,
        {
            cols.push(CellMask(0));
            i += 1;
        }
        let card = PunchCard { cols, raw_text };
        assert(card.cols@ =~= encoded_cols(enc, card.raw_text@));
        Ok(card)
    }

    /// Write sequence number `seq` into the trailing columns (conventionally
    /// 72-80), skipping every column that already holds a non-blank
    /// character, and re-encoding only the columns written.
    ///
    /// The text is padded to the full 80 columns first. Never overwrites
    /// existing content: a column that was non-blank keeps its character.
    #[verifier::loop_isolation(false)]
    #[verifier::rlimit(30)]
    pub fn with_sequence<E: PunchEncoding>(self, enc: &E, seq: usize) -> (r: Result<
        Self,
        EncodeError,
    >)
        requires
            self.wf(),
        ensures
            ({
                let t0 = pad_to(self.raw_text@, 80);
                let t1 = with_seq_text(t0, seq as nat);
                match r {
                    Ok(card) => {
                        &&& card.wf()
                        &&& card.raw_text@ == t1
                        &&& card.raw_text@.len() == 80
                        // only blank columns inside the field change
                        &&& forall|i: int| 0 <= i < 80 && t0[i] != ' '
                            ==> card.raw_text@[i] == t0[i]
                        // masks: written columns re-encoded, others untouched
                        &&& card.cols@.len() == 80
                        &&& forall|i: int| 0 <= i < 80 ==> #[trigger] card.cols@[i]
                            == (if t1[i] == t0[i] { self.cols@[i] } else {
                                CellMask(enc.spec_encode(t1[i]).unwrap_or(0))
                            })
                        &&& forall|i: int| 0 <= i < 80 && t1[i] != t0[i]
                            ==> (#[trigger] enc.spec_encode(t1[i])) is Some
                    },
                    Err(e) => exists|i: int|
                        0 <= i < 80 && t1[i] != t0[i]
                            && (#[trigger] enc.spec_encode(t1[i])) is None
                            && e == EncodeError::Unsupported(t1[i], t1[i] as u32),
                }
            }),
    {
        let ghost t0 = pad_to(self.raw_text@, 80);
        let ghost t1 = with_seq_text(t0, seq as nat);
        let field = pad_left_chars(&dec_chars(seq as u64), 9);
        assert(field@ == seq_field(seq as nat));
        let start = if field.len() >= 80 { 0 } else { 80 - field.len() };
        assert(start as int == seq_start(seq as nat));

        let ghost raw = self.raw_text@;
        let ghost cols0 = self.cols@;
        let mut chars = self.raw_text;
        let mut cols = self.cols;
        assert(chars@ =~= t0.take(chars@.len() as int));
        while chars.len() < 80
            invariant
                raw.len() <= chars@.len() <= 80,
                raw.len() <= 80,
                t0 == pad_to(raw, 80),
                chars@ == t0.take(chars@.len() as int),
            decreases 80 - chars.len(),
        {
            let ghost len = chars@.len() as int;
            assert(t0[len] == ' ');
            chars.push(' ');
            assert(chars@ =~= t0.take(len + 1));
        }
        assert(chars@ =~= t0);

        let mut offset: usize = 0;
        while offset < field.len() && start + offset < 80
            invariant
                offset <= field.len(),
                start as int == seq_start(seq as nat),
                field@ == seq_field(seq as nat),
                chars@.len() == 80,
                cols@.len() == 80,
                forall|i: int| 0 <= i < 80 && !(start <= i < start + offset)
                    ==> #[trigger] chars@[i] == t0[i],
                forall|i: int| start <= i < start + offset ==> #[trigger] chars@[i] == t1[i],
                forall|i: int| 0 <= i < 80 && !(start <= i < start + offset)
                    ==> #[trigger] cols@[i] == self.cols@[i],
                forall|i: int| start <= i < start + offset && t1[i] == t0[i]
                    ==> #[trigger] cols@[i] == self.cols@[i],
                forall|i: int| start <= i < start + offset && t1[i] != t0[i]
                    ==> #[trigger] cols@[i] == CellMask(enc.spec_encode(t1[i]).unwrap_or(0)),
                forall|i: int| start <= i < start + offset && t1[i] != t0[i]
                    ==> (#[trigger] enc.spec_encode(t1[i])) is Some,
            decreases field.len() - offset,
        {
            let idx = start + offset;
            assert(chars@[idx as int] == t0[idx as int]);
            if chars[idx] == ' ' {
                let ch = field[offset];
                proof {
                    let i = idx as int;
                    assert(t0[i] == ' ');
                    assert(t1[i] == with_seq_char(t0, seq as nat, i));
                }
                assert(t1[idx as int] == ch);
                if !(ch == ' ') {
                    match enc.encode_char(ch) {
                        Ok(m) => {
                            let ghost mv = m;
                            chars[idx] = ch;
                            cols[idx] = m;
                            proof {
                                let i = idx as int;
                                assert(cols@[i] == mv);
                                assert(enc.spec_encode(t1[i]) == Some(mv.0));
                                assert(cols@[i] == CellMask(enc.spec_encode(t1[i]).unwrap_or(0)));
                            }
                        },
                        Err(e) => {
                            proof {
                                let i = idx as int;
                                assert(0 <= i < 80 && t1[i] != t0[i]
                                    && enc.spec_encode(t1[i]) is None
                                    && e == EncodeError::Unsupported(t1[i], t1[i] as u32));
                            }
                            return Err(e);
                        },
                    }
                } else {
                    assert(t1[idx as int] == t0[idx as int]);
                }
            } else {
                assert(t1[idx as int] == t0[idx as int]);
            }
            offset += 1;
        }
        proof {
            let ghost fin = start + offset;
            assert(forall|i: int| 0 <= i < 80 && !(start <= i < fin) ==> t1[i] == t0[i]);
            assert forall|i: int| 0 <= i < 80 implies chars@[i] == t1[i] by {
                if start <= i < fin {
                    assert(chars@[i] == t1[i]);
                } else {
                    assert(chars@[i] == t0[i]);
                }
            }
            assert forall|i: int| 0 <= i < 80 && t1[i] != t0[i]
                implies (#[trigger] enc.spec_encode(t1[i])) is Some by {
                assert(start <= i < start + offset);
            }
        }
        let card = PunchCard { cols, raw_text: chars };
        assert(card.raw_text@ =~= t1);
        Ok(card)
    }

    /// The 80 column punch patterns.
    pub fn columns(&self) -> (r: &Vec<CellMask>)
        ensures
            r == &self.cols,
    {
        &self.cols
    }

    /// The text the card was punched from.
    pub fn text(&self) -> (r: &Vec<char>)
        ensures
            r == &self.raw_text,
    {
        &self.raw_text
    }

    /// Render the card as ASCII art: a header line, a column ruler, the
    /// original text, and one line per physical row (12, 11, 0 through 9)
    /// showing the punched holes, all framed by separator rules.
    pub fn render(&self, style: RenderStyle) -> (r: String)
        requires
            self.wf(),
        ensures
            r@ == render_chars(self.cols@, self.raw_text@, style),
    {
        let v = self.render_text(style);
        chars_to_string(&v)
    }

    /// The rendering as a character vector.
    #[verifier::loop_isolation(false)]
    pub fn render_text(&self, style: RenderStyle) -> (r: Vec<char>)
        requires
            self.wf(),
        ensures
            r@ == render_chars(self.cols@, self.raw_text@, style),
    {
        let mut out = crate::text::str_chars("IBM 5081 (80 cols) [IBM029]");
        out.push('\n');
        assert(out@ =~= header_chars());

        let mut seg = blank_text(5);
        out.append(&mut seg);
        let mut seg = ruler_text();
        out.append(&mut seg);
        out.push('\n');

        let mut seg = blank_text(5);
        out.append(&mut seg);
        let mut seg = self.padded_text();
        out.append(&mut seg);
        out.push('\n');

        let mut seg = blank_text(5);
        out.append(&mut seg);
        let mut seg = dash_text();
        out.append(&mut seg);
        out.push('\n');

        let mut seg = self.rows_text(style);
        out.append(&mut seg);

        let mut seg = blank_text(5);
        out.append(&mut seg);
        let mut seg = dash_text();
        out.append(&mut seg);
        out.push('\n');

        assert(out@ =~= render_chars(self.cols@, self.raw_text@, style));
        out
    }

    /// The card text padded with trailing blanks to the full 80 columns.
    #[verifier::loop_isolation(false)]
    pub fn padded_text(&self) -> (r: Vec<char>)
        requires
            self.raw_text@.len() <= 80,
        ensures
            r@ == pad_to(self.raw_text@, 80),
    {
        let mut v = Vec::new();
        let mut k: usize = 0;
        while k < self.raw_text.len()
            invariant
                k <= self.raw_text@.len(),
                v@ == self.raw_text@.take(k as int),
            decreases self.raw_text@.len() - k,
        {
            v.push(self.raw_text[k]);
            assert(v@ =~= self.raw_text@.take(k + 1));
            k += 1;
        }
        assert(v@ =~= self.raw_text@);
        while k < 80
            invariant
                self.raw_text@.len() <= k <= 80,
                v@ == pad_to(self.raw_text@, 80).take(k as int),
            decreases 80 - k,
        {
            assert(pad_to(self.raw_text@, 80)[k as int] == ' ');
            v.push(' ');
            assert(v@ =~= pad_to(self.raw_text@, 80).take(k + 1));
            k += 1;
        }
        assert(v@ =~= pad_to(self.raw_text@, 80));
        v
    }

    /// The twelve punch-row lines, top to bottom.
    #[verifier::loop_isolation(false)]
    fn rows_text(&self, style: RenderStyle) -> (v: Vec<char>)
        requires
            self.cols@.len() == 80,
        ensures
            v@ == rows_from(self.cols@, style, 0),
    {
        let mut v: Vec<char> = Vec::new();
        let mut r: usize = 0;
        while r < 12
            invariant
                r <= 12,
                v@ + rows_from(self.cols@, style, r as int) == rows_from(self.cols@, style, 0),
            decreases 12 - r,
        {
            let ghost before = v@;
            let mut line = row_line_text(&self.cols, r, style);
            v.append(&mut line);
            proof {
                assert(rows_from(self.cols@, style, r as int) == row_line(self.cols@, r as int, style)
                    + rows_from(self.cols@, style, r + 1));
                assert(v@ + rows_from(self.cols@, style, r + 1) =~= rows_from(
                    self.cols@,
                    style,
                    0,
                ));
            }
            r += 1;
        }
        assert(v@ =~= rows_from(self.cols@, style, 0));
        v
    }
}

/// One line of the punch-row block: a right-aligned row label, a separator,
/// the 80 mark-or-blank cells, and a closing bar.
#[verifier::loop_isolation(false)]
fn row_line_text(cols: &Vec<CellMask>, r: usize, style: RenderStyle) -> (v: Vec<char>)
    requires
        cols@.len() == 80,
        r < 12,
    ensures
        v@ == row_line(cols@, r as int, style),
{
    let mut v: Vec<char> = Vec::new();
    if r == 0 {
        v.push(' ');
        v.push('1');
        v.push('2');
    } else if r == 1 {
        v.push(' ');
        v.push('1');
        v.push('1');
    } else {
        v.push(' ');
        v.push(' ');
        v.push(digit_to_char((r - 2) as u64));
    }
    v.push(' ');
    v.push('|');
    assert(v@ =~= row_label(r as int) + seq![' ', '|']);
    let bit: u16 = if r == 0 {
        11
    } else if r == 1 {
        10
    } else {
        (r - 2) as u16
    };
    assert(bit == row_bit(r as int));
    let mark = mark_char_of(style);
    let blank = blank_char_of(style);
    let mut c: usize = 0;
    while c < 80
        invariant
            c <= 80,
            bit == row_bit(r as int),
            v@ == row_label(r as int) + seq![' ', '|'] + Seq::new(c as nat, |j: int| cell_char(
                cols@[j].0,
                r as int,
                style,
            )),
        decreases 80 - c,
    {
        let filled = (cols[c].0 >> bit) & 1 == 1;
        assert(filled == punched(cols@[c as int].0, r as int));
        if filled {
            v.push(mark);
        } else {
            v.push(blank);
        }
        assert(v@ =~= row_label(r as int) + seq![' ', '|'] + Seq::new((c + 1) as nat, |j: int|
            cell_char(cols@[j].0, r as int, style)));
        c += 1;
    }
    v.push('|');
    v.push('\n');
    assert(Seq::new(80, |j: int| cell_char(cols@[j].0, r as int, style)) =~= row_cells(
        cols@,
        r as int,
        style,
    ));
    assert(v@ =~= row_line(cols@, r as int, style));
    v
}

/// The mark character of a rendering style.
pub fn mark_char_of(style: RenderStyle) -> (r: char)
    ensures
        r == mark_char(style),
{
    match style {
        RenderStyle::AsciiX => 'X',
        RenderStyle::Ascii01 => '1',
    }
}

/// The blank character of a rendering style.
pub fn blank_char_of(style: RenderStyle) -> (r: char)
    ensures
        r == blank_char(style),
{
    match style {
        RenderStyle::AsciiX => ' ',
        RenderStyle::Ascii01 => '0',
    }
}

/// The 80-character column ruler: a digit marking every tenth column (the
/// tens digit of the column number), dots everywhere else.
#[verifier::loop_isolation(false)]
fn ruler_text() -> (v: Vec<char>)
    ensures
        v@ == ruler_chars(),
{
    let mut v: Vec<char> = Vec::new();
    let mut col: usize = 1;
    while col <= 80
        invariant
            1 <= col <= 81,
            v@ == ruler_chars().take(col - 1),
        decreases 81 - col,
    {
        if col % 10 == 0 {
            v.push(digit_to_char(((col / 10) % 10) as u64));
        } else {
            v.push('.');
        }
        assert(v@ =~= ruler_chars().take(col as int));
        col += 1;
    }
    assert(v@ =~= ruler_chars());
    v
}

/// The rendering reproduces the card text: the third output line holds
/// exactly the original text, padded with trailing blanks to 80 columns,
/// at a fixed offset behind the header line, the ruler line and their
/// five-space indents.
pub proof fn lemma_render_shows_text(cols: Seq<CellMask>, text: Seq<char>, style: RenderStyle)
    requires
        text.len() <= 80,
    ensures
        render_chars(cols, text, style).subrange(119, 199) == pad_to(text, 80),
{
    reveal_strlit("IBM 5081 (80 cols) [IBM029]");
    assert(header_chars().len() == 28);
    assert(render_chars(cols, text, style).subrange(119, 199) =~= pad_to(text, 80));
}

/// Index of the first newline in `s`, or `s.len()` if there is none.
pub open spec fn find_nl(s: Seq<char>) -> int
    decreases s.len(),
{
    if s.len() == 0 {
        0
    } else if s[0] == '\n' {
        0
    } else {
        1 + find_nl(s.drop_first())
    }
}

/// `t` with one trailing carriage return removed, if present.
pub open spec fn strip_cr(t: Seq<char>) -> Seq<char> {
    if t.len() > 0 && t.last() == '\r' {
        t.drop_last()
    } else {
        t
    }
}

/// The lines of `s`: maximal newline-free segments, each stripped of one
/// trailing carriage return; a trailing newline does not open a final
/// empty line.
pub open spec fn split_lines(s: Seq<char>) -> Seq<Seq<char>>
    decreases s.len(),
{
    if s.len() == 0 {
        Seq::empty()
    } else {
        let i = find_nl(s);
        if 0 <= i < s.len() {
            seq![strip_cr(s.take(i))] + split_lines(s.skip(i + 1))
        } else {
            seq![strip_cr(s)]
        }
    }
}

/// `find_nl` stays within the bounds of its argument.
pub proof fn lemma_find_nl_range(s: Seq<char>)
    ensures
        0 <= find_nl(s) <= s.len(),
    decreases s.len(),
{
    if s.len() == 0 {
    } else if s[0] == '\n' {
    } else {
        lemma_find_nl_range(s.drop_first());
    }
}

/// The 80-column card texts one input line produces: an empty line gives
/// one blank card, otherwise the line is cut every 80 characters and the
/// final piece padded with blanks.
pub open spec fn line_cards(l: Seq<char>) -> Seq<Seq<char>>
    decreases l.len(),
{
    if l.len() == 0 {
        seq![blank_chars(80)]
    } else if l.len() <= 80 {
        seq![pad_to(l, 80)]
    } else {
        seq![l.take(80)] + line_cards(l.skip(80))
    }
}

/// All card texts of a sequence of lines, in order.
pub open spec fn cards_of_lines(lines: Seq<Seq<char>>) -> Seq<Seq<char>>
    decreases lines.len(),
{
    if lines.len() == 0 {
        Seq::empty()
    } else {
        line_cards(lines[0]) + cards_of_lines(lines.drop_first())
    }
}

/// The card texts of a whole input: its lines cut into 80-column pieces,
/// with a single blank card for input that yields no card at all.
pub open spec fn deck_texts(s: Seq<char>) -> Seq<Seq<char>> {
    if cards_of_lines(split_lines(s)).len() == 0 {
        seq![blank_chars(80)]
    } else {
        cards_of_lines(split_lines(s))
    }
}

/// The text card number `i` (zero-based) ends up with: its base 80-column
/// text, overlaid with sequence number `i + 1` when numbering is on.
pub open spec fn final_text(t: Seq<char>, i: int, with_seq: bool) -> Seq<char> {
    if with_seq {
        with_seq_text(t, (i + 1) as nat)
    } else {
        t
    }
}

/// Every produced card text, and every text after sequence overlay, is
/// encodable under `enc`.
pub open spec fn texts_encodable<E: PunchEncoding>(
    enc: &E,
    ts: Seq<Seq<char>>,
    with_seq: bool,
) -> bool {
    forall|i: int| 0 <= i < ts.len() ==> all_encodable(enc, #[trigger] ts[i]) && all_encodable(
        enc,
        final_text(ts[i], i, with_seq),
    )
}

/// Every card text a line produces is exactly 80 columns wide.
proof fn lemma_line_cards_len(l: Seq<char>)
    ensures
        forall|j: int| 0 <= j < line_cards(l).len() ==> (#[trigger] line_cards(l)[j]).len() == 80,
    decreases l.len(),
{
    if l.len() == 0 {
    } else if l.len() <= 80 {
    } else {
        lemma_line_cards_len(l.skip(80));
        assert forall|j: int| 0 <= j < line_cards(l).len() implies (#[trigger] line_cards(
            l,
        )[j]).len() == 80 by {
            if j > 0 {
                assert(line_cards(l)[j] == line_cards(l.skip(80))[j - 1]);
            }
        }
    }
}

/// A line yields at least one card text, and no more than one per
/// character (one for an empty line).
proof fn lemma_line_cards_count(l: Seq<char>)
    ensures
        1 <= line_cards(l).len(),
        l.len() == 0 ==> line_cards(l).len() == 1,
        l.len() >= 1 ==> line_cards(l).len() <= l.len(),
    decreases l.len(),
{
    if l.len() > 80 {
        lemma_line_cards_count(l.skip(80));
    }
}

/// An input of `n` characters yields at most `n + 1` card texts.
proof fn lemma_cards_count(s: Seq<char>)
    ensures
        cards_of_lines(split_lines(s)).len() <= s.len() + 1,
    decreases s.len(),
{
    if s.len() == 0 {
    } else {
        lemma_find_nl_range(s);
        let i = find_nl(s);
        if 0 <= i < s.len() {
            let line = strip_cr(s.take(i));
            lemma_line_cards_count(line);
            lemma_cards_count(s.skip(i + 1));
            assert(split_lines(s) == seq![line] + split_lines(s.skip(i + 1)));
            assert(split_lines(s)[0] == line);
            assert(split_lines(s).drop_first() =~= split_lines(s.skip(i + 1)));
            assert(cards_of_lines(split_lines(s)) == line_cards(line) + cards_of_lines(
                split_lines(s.skip(i + 1)),
            ));
            assert(line.len() <= i);
        } else {
            let line = strip_cr(s);
            lemma_line_cards_count(line);
            assert(split_lines(s) == seq![line]);
            assert(split_lines(s)[0] == line);
            assert(split_lines(s).drop_first() =~= Seq::<Seq<char>>::empty());
            assert(cards_of_lines(Seq::<Seq<char>>::empty()) == Seq::<Seq<char>>::empty());
            assert(cards_of_lines(split_lines(s)) =~= line_cards(line));
        }
    }
}

/// `find_nl` returns the position of the first newline.
proof fn lemma_find_nl_at(s: Seq<char>, j: int)
    requires
        0 <= j <= s.len(),
        forall|k: int| 0 <= k < j ==> s[k] != '\n',
        j == s.len() || s[j] == '\n',
    ensures
        find_nl(s) == j,
    decreases j,
{
    if s.len() == 0 {
    } else if s[0] == '\n' {
        assert(j <= 0);
    } else {
        assert(j >= 1);
        lemma_find_nl_at(s.drop_first(), j - 1);
    }
}

/// Taking one more line extends the card texts by that line's cards.
proof fn lemma_cards_of_lines_push(lines: Seq<Seq<char>>, i: int)
    requires
        0 <= i < lines.len(),
    ensures
        cards_of_lines(lines.take(i + 1)) == cards_of_lines(lines.take(i)) + line_cards(lines[i]),
    decreases i,
{
    if i == 0 {
        assert(cards_of_lines(Seq::<Seq<char>>::empty()) == Seq::<Seq<char>>::empty());
        assert(lines.take(1).drop_first() =~= Seq::<Seq<char>>::empty());
        assert(lines.take(1)[0] == lines[0]);
        assert(lines.take(0) =~= Seq::<Seq<char>>::empty());
        assert(cards_of_lines(lines.take(1)) == line_cards(lines[0]) + cards_of_lines(
            Seq::<Seq<char>>::empty(),
        ));
        assert(cards_of_lines(lines.take(1)) =~= line_cards(lines[0]));
        assert(cards_of_lines(lines.take(0)) + line_cards(lines[0]) =~= line_cards(lines[0]));
    } else {
        lemma_cards_of_lines_push(lines.drop_first(), i - 1);
        assert(lines.take(i + 1).drop_first() =~= lines.drop_first().take(i));
        assert(lines.take(i).drop_first() =~= lines.drop_first().take(i - 1));
        assert(lines.drop_first()[i - 1] == lines[i]);
        assert(cards_of_lines(lines.take(i + 1)) == line_cards(lines[0]) + cards_of_lines(
            lines.drop_first().take(i),
        ));
        assert(cards_of_lines(lines.take(i)) == line_cards(lines[0]) + cards_of_lines(
            lines.drop_first().take(i - 1),
        ));
        assert(cards_of_lines(lines.take(i + 1)) =~= cards_of_lines(lines.take(i)) + line_cards(
            lines[i],
        ));
    }
}

/// Split input characters into lines, as [`split_lines`] describes.
#[verifier::loop_isolation(false)]
pub fn split_lines_vec(chars: &Vec<char>) -> (r: Vec<Vec<char>>)
    ensures
        r.deep_view() == split_lines(chars@),
{
    let mut r: Vec<Vec<char>> = Vec::new();
    let mut pos: usize = 0;
    proof {
        assert(r.deep_view() =~= Seq::<Seq<char>>::empty());
        assert(chars@.skip(0) =~= chars@);
        assert(r.deep_view() + split_lines(chars@.skip(0)) =~= split_lines(chars@));
    }
    while pos < chars.len()
        invariant
            pos <= chars@.len(),
            r.deep_view() + split_lines(chars@.skip(pos as int)) == split_lines(chars@),
        decreases chars@.len() - pos,
    {
        let ghost suffix = chars@.skip(pos as int);
        let mut j: usize = pos;
        while j < chars.len() && chars[j] != '\n'
            invariant
                pos <= j <= chars@.len(),
                forall|k: int| pos <= k < j ==> chars@[k] != '\n',
            decreases chars@.len() - j,
        {
            j += 1;
        }
        proof {
            lemma_find_nl_at(suffix, j - pos);
        }
        let end = if j > pos && chars[j - 1] == '\r' {
            j - 1
        } else {
            j
        };
        let mut line: Vec<char> = Vec::new();
        let mut k: usize = pos;
        while k < end
            invariant
                pos <= k <= end,
                end <= chars@.len(),
                line@ == chars@.subrange(pos as int, k as int),
            decreases end - k,
        {
            line.push(chars[k]);
            assert(line@ =~= chars@.subrange(pos as int, k + 1));
            k += 1;
        }
        proof {
            let seg = suffix.take(j - pos);
            assert(seg =~= chars@.subrange(pos as int, j as int));
            if j > pos && chars@[j - 1] == '\r' {
                assert(seg.last() == '\r');
                assert(strip_cr(seg) =~= chars@.subrange(pos as int, end as int));
            } else {
                assert(strip_cr(seg) =~= chars@.subrange(pos as int, end as int));
            }
            assert(line@ == strip_cr(seg));
            if j == chars@.len() {
                assert(suffix.take(j - pos) =~= suffix);
                assert(split_lines(suffix) == seq![strip_cr(suffix)]);
            } else {
                assert(split_lines(suffix) == seq![strip_cr(seg)] + split_lines(
                    suffix.skip(j - pos + 1),
                ));
                assert(suffix.skip(j - pos + 1) =~= chars@.skip(j + 1));
            }
        }
        let ghost rdv = r.deep_view();
        assert(line.deep_view() =~= line@);
        r.push(line);
        assert(r.deep_view() =~= rdv.push(line@));
        if j < chars.len() {
            pos = j + 1;
        } else {
            pos = chars.len();
            assert(chars@.skip(pos as int) =~= Seq::<char>::empty());
        }
        assert(r.deep_view() + split_lines(chars@.skip(pos as int)) =~= split_lines(chars@));
    }
    assert(chars@.skip(pos as int) =~= Seq::<char>::empty());
    assert(r.deep_view() =~= split_lines(chars@));
    r
}

/// Cut one line into 80-column card texts, as [`line_cards`] describes.
#[verifier::loop_isolation(false)]
pub fn line_cards_vec(l: &Vec<char>) -> (r: Vec<Vec<char>>)
    ensures
        r.deep_view() == line_cards(l@),
{
    let mut r: Vec<Vec<char>> = Vec::new();
    if l.len() == 0 {
        let blank = blank_text(80);
        assert(blank.deep_view() =~= blank_chars(80));
        r.push(blank);
        assert(r.deep_view() =~= line_cards(l@));
        return r;
    }
    let mut pos: usize = 0;
    proof {
        assert(r.deep_view() =~= Seq::<Seq<char>>::empty());
        assert(l@.skip(0) =~= l@);
        assert(r.deep_view() + line_cards(l@.skip(0)) =~= line_cards(l@));
    }
    while l.len() - pos > 80
        invariant
            pos < l@.len(),
            r.deep_view() + line_cards(l@.skip(pos as int)) == line_cards(l@),
        decreases l@.len() - pos,
    {
        let mut chunk: Vec<char> = Vec::new();
        let mut k: usize = pos;
        while k < pos + 80
            invariant
                pos <= k <= pos + 80,
                pos + 80 <= l@.len(),
                chunk@ == l@.subrange(pos as int, k as int),
            decreases pos + 80 - k,
        {
            chunk.push(l[k]);
            assert(chunk@ =~= l@.subrange(pos as int, k + 1));
            k += 1;
        }
        proof {
            let suffix = l@.skip(pos as int);
            assert(suffix.take(80) =~= l@.subrange(pos as int, pos + 80));
            assert(suffix.skip(80) =~= l@.skip(pos + 80));
            assert(line_cards(suffix) == seq![suffix.take(80)] + line_cards(suffix.skip(80)));
        }
        let ghost rdv = r.deep_view();
        assert(chunk.deep_view() =~= chunk@);
        r.push(chunk);
        assert(r.deep_view() =~= rdv.push(chunk@));
        pos = pos + 80;
        assert(r.deep_view() + line_cards(l@.skip(pos as int)) =~= line_cards(l@));
    }
    let mut tail: Vec<char> = Vec::new();
    let mut k: usize = pos;
    while k < l.len()
        invariant
            pos <= k <= l@.len(),
            tail@ == l@.subrange(pos as int, k as int),
        decreases l@.len() - k,
    {
        tail.push(l[k]);
        assert(tail@ =~= l@.subrange(pos as int, k + 1));
        k += 1;
    }
    assert(tail@ =~= l@.skip(pos as int));
    while tail.len() < 80
        invariant
            tail@.len() <= 80,
            tail@ == pad_to(l@.skip(pos as int), 80).take(tail@.len() as int),
            l@.skip(pos as int).len() <= tail@.len(),
        decreases 80 - tail.len(),
    {
        let ghost len = tail@.len() as int;
        assert(pad_to(l@.skip(pos as int), 80)[len] == ' ');
        tail.push(' ');
        assert(tail@ =~= pad_to(l@.skip(pos as int), 80).take(len + 1));
    }
    proof {
        let suffix = l@.skip(pos as int);
        assert(tail@ =~= pad_to(suffix, 80));
        assert(0 < suffix.len() <= 80);
        assert(line_cards(suffix) == seq![pad_to(suffix, 80)]);
    }
    let ghost rdv = r.deep_view();
    assert(tail.deep_view() =~= tail@);
    r.push(tail);
    assert(r.deep_view() =~= rdv.push(tail@));
    assert(r.deep_view() =~= line_cards(l@));
    r
}

/// An ordered collection of punch cards.
#[derive(Debug, Clone)]
pub struct CardDeck {
    pub cards: Vec<PunchCard>,
}

/// The renderings of the cards from index `i` on, separated by blank lines
/// (every card after the first is preceded by a newline).
pub open spec fn deck_render_from(cards: Seq<PunchCard>, style: RenderStyle, i: int) -> Seq<char>
    decreases cards.len() - i,
{
    if i < 0 || i >= cards.len() {
        Seq::empty()
    } else {
        (if i > 0 {
            seq!['\n']
        } else {
            Seq::empty()
        }) + render_chars(cards[i].cols@, cards[i].raw_text@, style) + deck_render_from(
            cards,
            style,
            i + 1,
        )
    }
}

impl CardDeck {
    /// Every card in the deck is well formed.
    pub open spec fn wf(&self) -> bool {
        forall|i: int| 0 <= i < self.cards@.len() ==> (#[trigger] self.cards@[i]).wf()
    }

    /// Encode a whole input text into a deck of cards: each input line is
    /// cut every 80 columns, short pieces are padded with blanks, an empty
    /// line gives a blank card, and empty input gives a single blank card.
    /// With `with_seq_numbers` the cards are numbered 1, 2, 3, ... in the
    /// sequence field of their trailing columns.
    ///
    /// Succeeds exactly when every character of every produced card text
    /// (before and after sequence overlay) is encodable.
    #[verifier::loop_isolation(false)]
    pub fn from_text<E: PunchEncoding>(enc: &E, text: &str, with_seq_numbers: bool) -> (r: Result<
        CardDeck,
        EncodeError,
    >)
        requires
            text@.len() < usize::MAX,
        ensures
            r matches Ok(deck) ==> {
                &&& deck.wf()
                &&& deck.cards@.len() == deck_texts(text@).len()
                &&& forall|i: int| 0 <= i < deck.cards@.len()
                    ==> (#[trigger] deck.cards@[i]).raw_text@ == final_text(
                        deck_texts(text@)[i],
                        i,
                        with_seq_numbers,
                    ) && deck.cards@[i].encodes(enc)
            },
            r is Ok <==> texts_encodable(enc, deck_texts(text@), with_seq_numbers),
            r matches Err(e) ==> e matches EncodeError::Unsupported(c, code) && code == c as u32
                && enc.spec_encode(c) is None,
    {
        let chars = crate::text::str_chars(text);
        let lines = split_lines_vec(&chars);
        let ghost all_lines = lines.deep_view();
        let ghost ts = cards_of_lines(all_lines);
        proof {
            lemma_cards_count(chars@);
            assert(ts.len() <= chars@.len() + 1);
        }
        let mut cards: Vec<PunchCard> = Vec::new();
        let mut li: usize = 0;
        while li < lines.len()
            invariant
                li <= all_lines.len(),
                all_lines == lines.deep_view(),
                ts == cards_of_lines(all_lines),
                cards@.len() == cards_of_lines(all_lines.take(li as int)).len(),
                cards@.len() <= ts.len(),
                cards_of_lines(all_lines.take(li as int)) == ts.take(cards@.len() as int),
                forall|i: int| 0 <= i < cards@.len() ==> (#[trigger] cards@[i]).wf()
                    && cards@[i].raw_text@ == final_text(ts[i], i, with_seq_numbers)
                    && cards@[i].encodes(enc),
                forall|i: int| 0 <= i < cards@.len() ==> all_encodable(enc, #[trigger] ts[i])
                    && all_encodable(enc, final_text(ts[i], i, with_seq_numbers)),
            decreases all_lines.len() - li,
        {
            let chunks = line_cards_vec(&lines[li]);
            let ghost line_ts = line_cards(all_lines[li as int]);
            proof {
                assert(all_lines[li as int] == lines@[li as int].deep_view());
                assert(lines@[li as int].deep_view() =~= lines@[li as int]@);
                assert(line_ts == chunks.deep_view());
                lemma_cards_of_lines_push(all_lines, li as int);
                lemma_cards_of_lines_prefix(all_lines, li as int + 1);
                lemma_line_cards_len(all_lines[li as int]);
            }
            let ghost base = cards@.len() as int;
            let mut ci: usize = 0;
            while ci < chunks.len()
                invariant
                    ci <= line_ts.len(),
                    line_ts == chunks.deep_view(),
                    line_ts == line_cards(all_lines[li as int]),
                    li < all_lines.len(),
                    all_lines == lines.deep_view(),
                    ts == cards_of_lines(all_lines),
                    base == cards_of_lines(all_lines.take(li as int)).len(),
                    cards@.len() == base + ci,
                    cards@.len() <= ts.len(),
                    ts.take(cards@.len() as int) == cards_of_lines(all_lines.take(li as int))
                        + line_ts.take(ci as int),
                    forall|i: int| 0 <= i < cards@.len() ==> (#[trigger] cards@[i]).wf()
                        && cards@[i].raw_text@ == final_text(ts[i], i, with_seq_numbers)
                        && cards@[i].encodes(enc),
                    forall|i: int| 0 <= i < cards@.len() ==> all_encodable(enc, #[trigger] ts[i])
                        && all_encodable(enc, final_text(ts[i], i, with_seq_numbers)),
                decreases line_ts.len() - ci,
            {
                let ghost gi = cards@.len() as int;
                proof {
                    let prefix = cards_of_lines(all_lines.take(li as int));
                    let upto = cards_of_lines(all_lines.take(li as int + 1));
                    assert(upto == prefix + line_ts);
                    assert(upto == ts.take(upto.len() as int));
                    assert(gi == prefix.len() + ci);
                    assert(gi < upto.len());
                    assert(ts[gi] == ts.take(upto.len() as int)[gi]);
                    assert(ts[gi] == upto[gi]);
                    assert(upto[gi] == line_ts[ci as int]);
                    assert(cards@.len() < ts.len());
                    assert(ts.len() <= chars@.len() + 1);
                }
                assert(ts[gi] == line_ts[ci as int]);
                let text_str = chars_to_string(&chunks[ci]);
                let card = match PunchCard::from_str(enc, text_str.as_str()) {
                    Ok(card) => card,
                    Err(e) => {
                        proof {
                            assert(line_ts[ci as int].len() == 80);
                            assert(clip80(text_str@) == text_str@);
                            assert(text_str@ == line_ts[ci as int]);
                            assert(!all_encodable(enc, ts[gi]));
                            assert(!texts_encodable(enc, ts, with_seq_numbers));
                            lemma_deck_texts_nonempty(text@, ts);
                            let w = choose|w: int| first_reject(enc, clip80(text_str@), e, w);
                            assert(first_reject(enc, clip80(text_str@), e, w));
                        }
                        return Err(e);
                    },
                };
                assert(card.raw_text@ == line_ts[ci as int]);
                let card = if with_seq_numbers {
                    let seqno = cards.len() + 1;
                    match card.with_sequence(enc, seqno) {
                        Ok(card2) => {
                            proof {
                                assert(ts[gi].len() == 80);
                                assert(pad_to(ts[gi], 80) == ts[gi]);
                                let t0 = ts[gi];
                                let t1 = with_seq_text(t0, (gi + 1) as nat);
                                assert(card2.raw_text@ == t1);
                                assert(t1.len() == 80);
                                assert forall|k: int| 0 <= k < 80 implies (
                                #[trigger] enc.spec_encode(t1[k])) is Some by {
                                    if t1[k] == t0[k] {
                                        assert(enc.spec_encode(t0[k]) is Some);
                                    }
                                }
                                assert(all_encodable(enc, t1));
                                assert forall|k: int| 0 <= k < 80 implies #[trigger] card2.cols@[k]
                                    == encoded_cols(enc, t1)[k] by {
                                    if t1[k] == t0[k] {
                                        assert(card.cols@[k] == encoded_cols(enc, t0)[k]);
                                    }
                                }
                                assert(card2.cols@ =~= encoded_cols(enc, card2.raw_text@));
                            }
                            card2
                        },
                        Err(e) => {
                            proof {
                                assert(ts[gi].len() == 80);
                                assert(pad_to(ts[gi], 80) == ts[gi]);
                                let t0 = ts[gi];
                                let t1 = with_seq_text(t0, (gi + 1) as nat);
                                assert(t1 == final_text(ts[gi], gi, true));
                                let w = choose|w: int|
                                    0 <= w < 80 && t1[w] != t0[w] && enc.spec_encode(t1[w]) is None
                                        && e == EncodeError::Unsupported(t1[w], t1[w] as u32);
                                assert(t1.len() == 80);
                                assert(!all_encodable(enc, t1));
                                assert(!texts_encodable(enc, ts, with_seq_numbers));
                                lemma_deck_texts_nonempty(text@, ts);
                            }
                            return Err(e);
                        },
                    }
                } else {
                    card
                };
                cards.push(card);
                proof {
                    assert(ts.take(gi + 1) =~= ts.take(gi) + seq![ts[gi]]);
                    assert(line_ts.take(ci + 1) =~= line_ts.take(ci as int) + seq![
                        line_ts[ci as int],
                    ]);
                    assert(ts.take(cards@.len() as int) =~= cards_of_lines(
                        all_lines.take(li as int),
                    ) + line_ts.take(ci + 1));
                }
                ci += 1;
            }
            proof {
                assert(line_ts.take(line_ts.len() as int) =~= line_ts);
                assert(ts.take(cards@.len() as int) =~= cards_of_lines(
                    all_lines.take(li + 1),
                ));
            }
            li += 1;
        }
        proof {
            assert(all_lines.take(all_lines.len() as int) =~= all_lines);
            assert(ts.take(cards@.len() as int) == ts.take(ts.len() as int));
            assert(ts.take(ts.len() as int) =~= ts);
            assert(cards@.len() == ts.len());
        }
        if cards.len() == 0 {
            assert(deck_texts(text@) == seq![blank_chars(80)]);
            let blank = blank_text(80);
            let blank_str = chars_to_string(&blank);
            let card = match PunchCard::from_str(enc, blank_str.as_str()) {
                Ok(card) => card,
                Err(e) => {
                    proof {
                        assert(blank_str@ == blank_chars(80));
                        assert(clip80(blank_str@) == blank_str@);
                        assert(!all_encodable(enc, deck_texts(text@)[0]));
                        assert(!texts_encodable(enc, deck_texts(text@), with_seq_numbers));
                        let w = choose|w: int| first_reject(enc, clip80(blank_str@), e, w);
                        assert(first_reject(enc, clip80(blank_str@), e, w));
                    }
                    return Err(e);
                },
            };
            assert(card.raw_text@ == blank_chars(80));
            let card = if with_seq_numbers {
                match card.with_sequence(enc, 1) {
                    Ok(card2) => {
                        proof {
                            let t0 = blank_chars(80);
                            assert(pad_to(t0, 80) == t0);
                            let t1 = with_seq_text(t0, 1);
                            assert(card2.raw_text@ == t1);
                            assert(t1 == final_text(deck_texts(text@)[0], 0, true));
                            assert forall|k: int| 0 <= k < 80 implies (
                            #[trigger] enc.spec_encode(t1[k])) is Some by {
                                if t1[k] == t0[k] {
                                    assert(enc.spec_encode(t0[k]) is Some);
                                }
                            }
                            assert(all_encodable(enc, t1));
                            assert forall|k: int| 0 <= k < 80 implies #[trigger] card2.cols@[k]
                                == encoded_cols(enc, t1)[k] by {
                                if t1[k] == t0[k] {
                                    assert(card.cols@[k] == encoded_cols(enc, t0)[k]);
                                }
                            }
                            assert(card2.cols@ =~= encoded_cols(enc, card2.raw_text@));
                        }
                        card2
                    },
                    Err(e) => {
                        proof {
                            let t0 = blank_chars(80);
                            assert(pad_to(t0, 80) == t0);
                            let t1 = with_seq_text(t0, 1);
                            assert(t1 == final_text(deck_texts(text@)[0], 0, true));
                            let w = choose|w: int|
                                0 <= w < 80 && t1[w] != t0[w] && enc.spec_encode(t1[w]) is None
                                    && e == EncodeError::Unsupported(t1[w], t1[w] as u32);
                            assert(t1.len() == 80);
                            assert(!all_encodable(enc, t1));
                            assert(!texts_encodable(enc, deck_texts(text@), with_seq_numbers));
                        }
                        return Err(e);
                    },
                }
            } else {
                card
            };
            proof {
                let dts = deck_texts(text@);
                assert(dts.len() == 1);
                assert(all_encodable(enc, dts[0]));
                assert(all_encodable(enc, final_text(dts[0], 0, with_seq_numbers)));
                assert(texts_encodable(enc, dts, with_seq_numbers));
            }
            cards.push(card);
            let deck = CardDeck { cards };
            assert(deck.cards@.len() == deck_texts(text@).len());
            return Ok(deck);
        }
        assert(ts == deck_texts(text@));
        Ok(CardDeck { cards })
    }

    /// Render every card of the deck, separating consecutive cards by a
    /// blank line.
    #[verifier::loop_isolation(false)]
    pub fn render(&self, style: RenderStyle) -> (r: String)
        requires
            self.wf(),
        ensures
            r@ == deck_render_from(self.cards@, style, 0),
    {
        let mut out: Vec<char> = Vec::new();
        let mut i: usize = 0;
        while i < self.cards.len()
            invariant
                i <= self.cards@.len(),
                out@ + deck_render_from(self.cards@, style, i as int) == deck_render_from(
                    self.cards@,
                    style,
                    0,
                ),
            decreases self.cards@.len() - i,
        {
            if i > 0 {
                out.push('\n');
            }
            let mut seg = self.cards[i].render_text(style);
            out.append(&mut seg);
            assert(out@ + deck_render_from(self.cards@, style, i + 1) =~= deck_render_from(
                self.cards@,
                style,
                0,
            ));
            i += 1;
        }
        assert(out@ =~= deck_render_from(self.cards@, style, 0));
        chars_to_string(&out)
    }
}

/// A prefix of the lines yields a prefix of the card texts.
proof fn lemma_cards_of_lines_prefix(lines: Seq<Seq<char>>, i: int)
    requires
        0 <= i <= lines.len(),
    ensures
        cards_of_lines(lines.take(i)).len() <= cards_of_lines(lines).len(),
        cards_of_lines(lines.take(i)) == cards_of_lines(lines).take(
            cards_of_lines(lines.take(i)).len() as int,
        ),
    decreases lines.len() - i,
{
    if i == lines.len() {
        assert(lines.take(i) =~= lines);
        assert(cards_of_lines(lines).take(cards_of_lines(lines).len() as int) =~= cards_of_lines(
            lines,
        ));
    } else {
        lemma_cards_of_lines_push(lines, i);
        lemma_cards_of_lines_prefix(lines, i + 1);
        let a = cards_of_lines(lines.take(i));
        let b = cards_of_lines(lines.take(i + 1));
        let c = cards_of_lines(lines);
        assert(b == a + line_cards(lines[i]));
        assert(a.len() <= b.len());
        assert(b == c.take(b.len() as int));
        assert(a =~= c.take(a.len() as int));
    }
}

/// When the input produces at least one card text, `deck_texts` is exactly
/// that list.
proof fn lemma_deck_texts_nonempty(s: Seq<char>, ts: Seq<Seq<char>>)
    requires
        ts == cards_of_lines(split_lines(s)),
        ts.len() > 0,
    ensures
        deck_texts(s) == ts,
{
}

/// An 80-character separator rule.
#[verifier::loop_isolation(false)]
fn dash_text() -> (v: Vec<char>)
    ensures
        v@ == dash_chars(),
{
    let mut v: Vec<char> = Vec::new();
    let mut i: usize = 0;
    while i < 80
        invariant
            i <= 80,
            v@ == dash_chars().take(i as int),
        decreases 80 - i,
    {
        v.push('-');
        assert(v@ =~= dash_chars().take(i + 1));
        i += 1;
    }
    assert(v@ =~= dash_chars());
    v
}

} // verus!
