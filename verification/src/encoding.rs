//! The IBM 029 keypunch character code: a fixed, finite table mapping each
//! supported character to the 12-bit pattern of holes punched in one column.

use vstd::prelude::*;

verus! {

/// Holes punched in a single column, one bit per physical row.
///
/// Bit meaning (LSB to MSB): bit 0 = row 0, bit 1 = row 1, ..., bit 9 = row 9,
/// bit 10 = row 11, bit 11 = row 12. Only the low 12 bits are ever set.
#[derive(Debug, Clone, Copy, PartialEq, Eq, Structural)]
pub struct CellMask(pub u16);

/// Failure to encode a character: the character (as given, before case
/// folding) together with its Unicode code point.
#[derive(Debug, Clone, Copy, PartialEq, Eq, Structural)]
pub enum EncodeError {
    Unsupported(char, u32),
}

impl EncodeError {
    /// The offending character.
    pub fn character(&self) -> (r: char)
        ensures
            self matches EncodeError::Unsupported(c, _) && r == c,
    {
        match self {
            EncodeError::Unsupported(c, _) => *c,
        }
    }
}

/// The IBM 029 code chart. `Some(mask)` for each supported character
/// (digits, uppercase letters, space and the fixed punctuation set),
/// `None` for everything else. Lowercase letters are *not* in this table;
/// they are case-folded before lookup.
pub open spec fn ibm029_mask(ch: char) -> Option<u16> {
    match ch {
        '&' => Some(0x800),
        '-' => Some(0x400),
        '0' => Some(0x001),
        '1' => Some(0x002),
        '2' => Some(0x004),
        '3' => Some(0x008),
        '4' => Some(0x010),
        '5' => Some(0x020),
        '6' => Some(0x040),
        '7' => Some(0x080),
        '8' => Some(0x100),
        '9' => Some(0x200),
        'A' => Some(0x802),
        'B' => Some(0x804),
        'C' => Some(0x808),
        'D' => Some(0x810),
        'E' => Some(0x820),
        'F' => Some(0x840),
        'G' => Some(0x880),
        'H' => Some(0x900),
        'I' => Some(0xa00),
        'J' => Some(0x402),
        'K' => Some(0x404),
        'L' => Some(0x408),
        'M' => Some(0x410),
        'N' => Some(0x420),
        'O' => Some(0x440),
        'P' => Some(0x480),
        'Q' => Some(0x500),
        'R' => Some(0x600),
        '/' => Some(0x003),
        'S' => Some(0x005),
        'T' => Some(0x009),
        'U' => Some(0x011),
        'V' => Some(0x021),
        'W' => Some(0x041),
        'X' => Some(0x081),
        'Y' => Some(0x101),
        'Z' => Some(0x201),
        ':' => Some(0x104),
        '#' => Some(0x108),
        '@' => Some(0x110),
        '\'' => Some(0x120),
        '=' => Some(0x140),
        '"' => Some(0x180),
        '\u{a2}' => Some(0x904),
        '.' => Some(0x908),
        '<' => Some(0x910),
        '(' => Some(0x920),
        '+' => Some(0x940),
        '|' => Some(0x980),
        '!' => Some(0x504),
        '$' => Some(0x508),
        '*' => Some(0x510),
        ')' => Some(0x520),
        ';' => Some(0x540),
        '\u{ac}' => Some(0x580),
        ' ' => Some(0x000),
        ',' => Some(0x109),
        '%' => Some(0x111),
        '_' => Some(0x121),
        '>' => Some(0x141),
        '?' => Some(0x181),
        _ => None,
    }
}

/// The inverse of [`ibm029_mask`]: recovers the character from its punch
/// pattern. Witnesses that no two supported characters share a pattern.
pub open spec fn ibm029_char(mask: u16) -> Option<char> {
    match mask {
        0x800 => Some('&'),
        0x400 => Some('-'),
        0x001 => Some('0'),
        0x002 => Some('1'),
        0x004 => Some('2'),
        0x008 => Some('3'),
        0x010 => Some('4'),
        0x020 => Some('5'),
        0x040 => Some('6'),
        0x080 => Some('7'),
        0x100 => Some('8'),
        0x200 => Some('9'),
        0x802 => Some('A'),
        0x804 => Some('B'),
        0x808 => Some('C'),
        0x810 => Some('D'),
        0x820 => Some('E'),
        0x840 => Some('F'),
        0x880 => Some('G'),
        0x900 => Some('H'),
        0xa00 => Some('I'),
        0x402 => Some('J'),
        0x404 => Some('K'),
        0x408 => Some('L'),
        0x410 => Some('M'),
        0x420 => Some('N'),
        0x440 => Some('O'),
        0x480 => Some('P'),
        0x500 => Some('Q'),
        0x600 => Some('R'),
        0x003 => Some('/'),
        0x005 => Some('S'),
        0x009 => Some('T'),
        0x011 => Some('U'),
        0x021 => Some('V'),
        0x041 => Some('W'),
        0x081 => Some('X'),
        0x101 => Some('Y'),
        0x201 => Some('Z'),
        0x104 => Some(':'),
        0x108 => Some('#'),
        0x110 => Some('@'),
        0x120 => Some('\''),
        0x140 => Some('='),
        0x180 => Some('"'),
        0x904 => Some('\u{a2}'),
        0x908 => Some('.'),
        0x910 => Some('<'),
        0x920 => Some('('),
        0x940 => Some('+'),
        0x980 => Some('|'),
        0x504 => Some('!'),
        0x508 => Some('$'),
        0x510 => Some('*'),
        0x520 => Some(')'),
        0x540 => Some(';'),
        0x580 => Some('\u{ac}'),
        0x000 => Some(' '),
        0x109 => Some(','),
        0x111 => Some('%'),
        0x121 => Some('_'),
        0x141 => Some('>'),
        0x181 => Some('?'),
        _ => None,
    }
}

/// ASCII lowercase letters fold to their uppercase forms; everything else
/// is left alone.
pub open spec fn fold_upper(ch: char) -> char {
    match ch {
        'a' => 'A',
        'b' => 'B',
        'c' => 'C',
        'd' => 'D',
        'e' => 'E',
        'f' => 'F',
        'g' => 'G',
        'h' => 'H',
        'i' => 'I',
        'j' => 'J',
        'k' => 'K',
        'l' => 'L',
        'm' => 'M',
        'n' => 'N',
        'o' => 'O',
        'p' => 'P',
        'q' => 'Q',
        'r' => 'R',
        's' => 'S',
        't' => 'T',
        'u' => 'U',
        'v' => 'V',
        'w' => 'W',
        'x' => 'X',
        'y' => 'Y',
        'z' => 'Z',
        _ => ch,
    }
}

/// Whether `ch` (after case folding) is in the supported character set.
pub open spec fn supported_char(ch: char) -> bool {
    ibm029_mask(fold_upper(ch)) is Some
}

/// The mask the encoder produces for `ch`: case-fold, then look up.
pub open spec fn encoded_mask(ch: char) -> Option<u16> {
    ibm029_mask(fold_upper(ch))
}

/// Table lookup in executable form.
fn lookup_mask(ch: char) -> (r: Option<u16>)
    ensures
        r == ibm029_mask(ch),
{
    match ch {
        '&' => Some(0x800),
        '-' => Some(0x400),
        '0' => Some(0x001),
        '1' => Some(0x002),
        '2' => Some(0x004),
        '3' => Some(0x008),
        '4' => Some(0x010),
        '5' => Some(0x020),
        '6' => Some(0x040),
        '7' => Some(0x080),
        '8' => Some(0x100),
        '9' => Some(0x200),
        'A' => Some(0x802),
        'B' => Some(0x804),
        'C' => Some(0x808),
        'D' => Some(0x810),
        'E' => Some(0x820),
        'F' => Some(0x840),
        'G' => Some(0x880),
        'H' => Some(0x900),
        'I' => Some(0xa00),
        'J' => Some(0x402),
        'K' => Some(0x404),
        'L' => Some(0x408),
        'M' => Some(0x410),
        'N' => Some(0x420),
        'O' => Some(0x440),
        'P' => Some(0x480),
        'Q' => Some(0x500),
        'R' => Some(0x600),
        '/' => Some(0x003),
        'S' => Some(0x005),
        'T' => Some(0x009),
        'U' => Some(0x011),
        'V' => Some(0x021),
        'W' => Some(0x041),
        'X' => Some(0x081),
        'Y' => Some(0x101),
        'Z' => Some(0x201),
        ':' => Some(0x104),
        '#' => Some(0x108),
        '@' => Some(0x110),
        '\'' => Some(0x120),
        '=' => Some(0x140),
        '"' => Some(0x180),
        '\u{a2}' => Some(0x904),
        '.' => Some(0x908),
        '<' => Some(0x910),
        '(' => Some(0x920),
        '+' => Some(0x940),
        '|' => Some(0x980),
        '!' => Some(0x504),
        '$' => Some(0x508),
        '*' => Some(0x510),
        ')' => Some(0x520),
        ';' => Some(0x540),
        '\u{ac}' => Some(0x580),
        ' ' => Some(0x000),
        ',' => Some(0x109),
        '%' => Some(0x111),
        '_' => Some(0x121),
        '>' => Some(0x141),
        '?' => Some(0x181),
        _ => None,
    }
}

/// Case folding in executable form.
pub fn fold_char(ch: char) -> (r: char)
    ensures
        r == fold_upper(ch),
{
    match ch {
        'a' => 'A',
        'b' => 'B',
        'c' => 'C',
        'd' => 'D',
        'e' => 'E',
        'f' => 'F',
        'g' => 'G',
        'h' => 'H',
        'i' => 'I',
        'j' => 'J',
        'k' => 'K',
        'l' => 'L',
        'm' => 'M',
        'n' => 'N',
        'o' => 'O',
        'p' => 'P',
        'q' => 'Q',
        'r' => 'R',
        's' => 'S',
        't' => 'T',
        'u' => 'U',
        'v' => 'V',
        'w' => 'W',
        'x' => 'X',
        'y' => 'Y',
        'z' => 'Z',
        _ => ch,
    }
}

/// Round trip through the two tables: every supported character is
/// recovered from its own punch pattern.
pub proof fn lemma_ibm029_round_trip(ch: char)
    ensures
        ibm029_mask(ch) matches Some(m) ==> ibm029_char(m) == Some(ch),
{
}

/// Injectivity of the code chart: two distinct characters of the supported
/// set never share a punch pattern.
pub proof fn lemma_encode_injective(a: char, b: char)
    requires
        ibm029_mask(a) is Some,
        ibm029_mask(b) is Some,
        a != b,
    ensures
        ibm029_mask(a) != ibm029_mask(b),
{
    lemma_ibm029_round_trip(a);
    lemma_ibm029_round_trip(b);
}

/// A character encoding scheme mapping characters to punch patterns.
pub trait PunchEncoding: Sized {
    /// The mask this encoding assigns to `ch`, or `None` if unsupported.
    spec fn spec_encode(&self, ch: char) -> Option<u16>;

    /// Human-readable name of the encoding.
    fn name(&self) -> &'static str;

    /// Encode one character, failing on characters outside the supported set.
    fn encode_char(&self, ch: char) -> (r: Result<CellMask, EncodeError>)
        ensures
            match r {
                Ok(m) => self.spec_encode(ch) == Some(m.0),
                Err(e) => {
                    &&& self.spec_encode(ch) is None
                    &&& e == EncodeError::Unsupported(ch, ch as u32)
                },
            },
    ;

    /// Whether `ch` can be encoded.
    fn is_supported(&self, ch: char) -> (r: bool)
        ensures
            r == (self.spec_encode(ch) is Some),
    ;
}

/// The IBM 029 (Hollerith) encoder: a pure lookup in the fixed code chart,
/// case-folding lowercase letters first.
#[derive(Debug, Clone, Copy)]
pub struct Ibm029Encoder;

impl Ibm029Encoder {
    /// Create the encoder; it carries no state.
    pub fn new() -> (r: Self)
        ensures
            r == (Ibm029Encoder {}),
    {
        Ibm029Encoder {}
    }
}

impl Default for Ibm029Encoder {
    fn default() -> (r: Self)
        ensures
            r == (Ibm029Encoder {}),
    {
        Ibm029Encoder {}
    }
}

impl PunchEncoding for Ibm029Encoder {
    open spec fn spec_encode(&self, ch: char) -> Option<u16> {
        encoded_mask(ch)
    }

    fn name(&self) -> &'static str {
        "IBM029"
    }

    fn encode_char(&self, ch: char) -> (r: Result<CellMask, EncodeError>)
    {
        let up = fold_char(ch);
        match lookup_mask(up) {
            Some(m) => Ok(CellMask(m)),
            None => Err(EncodeError::Unsupported(ch, ch as u32)),
        }
    }

    fn is_supported(&self, ch: char) -> (r: bool)
    {
        lookup_mask(fold_char(ch)).is_some()
    }
}

/// Membership test for the historical supported character set.
pub struct ValidChar;

impl ValidChar {
    /// Whether `ch`, case-folded to uppercase, belongs to the supported set.
    pub fn in_original_set(ch: char) -> (r: bool)
        ensures
            r == supported_char(ch),
    {
        lookup_mask(fold_char(ch)).is_some()
    }
}

} // verus!
