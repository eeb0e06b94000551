//! The line-oriented persistence format of decks: one self-describing
//! record per line, the header first, then one record per card. Every
//! field is ASCII; characters outside the printable range (and the two
//! delimiter characters) are written as decimal escapes, so the format
//! round-trips every field losslessly and the serialisation of a deck is
//! a pure function of its content.

use vstd::prelude::*;
use crate::deck::{AuditEvent, AuditEventV, CardRecord, CardRecordV, ColumnRange, CardType, Deck,
    DeckError, DeckHeader, DeckHeaderV, DeckV, EncodingKind, FormatErrorKind, view_opt_str,
    view_opt_chars};
use sha2::Digest;

verus! {

/// Separator between the fields of a record.
pub const FIELD_SEP: u8 = 124;

/// Separator between records.
pub const LINE_SEP: u8 = 10;

/// Opens an escape sequence.
pub const ESCAPE: u8 = 92;

/// Closes an escape sequence.
pub const ESCAPE_END: u8 = 59;

/// Decimal digits of `n` as ASCII bytes, most significant first, no
/// leading zeros.
pub open spec fn dec_bytes(n: nat) -> Seq<u8>
    decreases n,
{
    if n < 10 {
        seq![(48 + n) as u8]
    } else {
        dec_bytes(n / 10).push((48 + n % 10) as u8)
    }
}

/// Decimal bytes of a signed value: a leading minus sign for negatives.
pub open spec fn int_bytes(v: int) -> Seq<u8> {
    if v < 0 {
        seq![45u8] + dec_bytes((-v) as nat)
    } else {
        dec_bytes(v as nat)
    }
}

/// The numeric value of a digit string (most significant first).
pub open spec fn dec_val(bs: Seq<u8>) -> nat
    decreases bs.len(),
{
    if bs.len() == 0 {
        0
    } else {
        dec_val(bs.drop_last()) * 10 + (if 48 <= bs.last() <= 57 {
            (bs.last() - 48) as nat
        } else {
            0
        })
    }
}

/// Whether every byte of `bs` is a decimal digit.
pub open spec fn all_digits(bs: Seq<u8>) -> bool {
    forall|i: int| 0 <= i < bs.len() ==> 48 <= #[trigger] bs[i] <= 57
}

/// The digits of a number are digits, there is at least one, and the
/// first is nonzero for values of ten or more.
pub proof fn lemma_dec_bytes_digits(n: nat)
    ensures
        all_digits(dec_bytes(n)),
        dec_bytes(n).len() >= 1,
        n >= 1 ==> dec_bytes(n)[0] != 48,
    decreases n,
{
    if n >= 10 {
        lemma_dec_bytes_digits(n / 10);
        assert(dec_bytes(n)[0] == dec_bytes(n / 10)[0]);
        assert forall|i: int| 0 <= i < dec_bytes(n).len() implies 48 <= #[trigger] dec_bytes(
            n,
        )[i] <= 57 by {
            if i < dec_bytes(n / 10).len() {
                assert(dec_bytes(n / 10)[i] == dec_bytes(n)[i]);
            }
        }
    }
}

/// Reading back the digits of a number gives the number.
pub proof fn lemma_dec_val_inverse(n: nat)
    ensures
        dec_val(dec_bytes(n)) == n,
    decreases n,
{
    assert(dec_val(Seq::<u8>::empty()) == 0);
    if n < 10 {
        assert(dec_bytes(n).drop_last() =~= Seq::<u8>::empty());
        assert(dec_bytes(n).last() == (48 + n) as u8);
        assert(dec_val(dec_bytes(n)) == 0 * 10 + n);
    } else {
        lemma_dec_val_inverse(n / 10);
        assert(dec_bytes(n).drop_last() =~= dec_bytes(n / 10));
        assert(dec_bytes(n).last() == (48 + n % 10) as u8);
        assert(dec_val(dec_bytes(n)) == (n / 10) * 10 + n % 10);
        assert((n / 10) * 10 + n % 10 == n) by (nonlinear_arith);
    }
}

/// Powers of ten.
pub open spec fn pow10(k: nat) -> nat
    decreases k,
{
    if k == 0 {
        1
    } else {
        10 * pow10((k - 1) as nat)
    }
}

/// A value below the `k`-th power of ten has at most `k` digits.
pub proof fn lemma_dec_bytes_len(n: nat, k: nat)
    requires
        k >= 1,
        n < pow10(k),
    ensures
        dec_bytes(n).len() <= k,
    decreases k,
{
    if n < 10 {
    } else {
        assert(k >= 2) by {
            assert(pow10(0) == 1);
            assert(pow10(1) == 10);
        }
        assert(pow10(k) == 10 * pow10((k - 1) as nat));
        assert(n / 10 < pow10((k - 1) as nat)) by (nonlinear_arith)
            requires
                n < pow10(k),
                pow10(k) == 10 * pow10((k - 1) as nat),
                n >= 10,
        ;
        lemma_dec_bytes_len(n / 10, (k - 1) as nat);
    }
}

/// Twenty digits reach beyond every sixty-four-bit value.
pub proof fn lemma_pow10_20()
    ensures
        pow10(7) == 10000000,
        pow10(20) == 100000000000000000000,
{
    assert(pow10(0) == 1);
    assert(pow10(1) == 10);
    assert(pow10(2) == 100);
    assert(pow10(3) == 1000);
    assert(pow10(4) == 10000);
    assert(pow10(5) == 100000);
    assert(pow10(6) == 1000000);
    assert(pow10(7) == 10000000);
    assert(pow10(8) == 100000000);
    assert(pow10(9) == 1000000000);
    assert(pow10(10) == 10000000000);
    assert(pow10(11) == 100000000000);
    assert(pow10(12) == 1000000000000);
    assert(pow10(13) == 10000000000000);
    assert(pow10(14) == 100000000000000);
    assert(pow10(15) == 1000000000000000);
    assert(pow10(16) == 10000000000000000);
    assert(pow10(17) == 100000000000000000);
    assert(pow10(18) == 1000000000000000000);
    assert(pow10(19) == 10000000000000000000);
    assert(pow10(20) == 100000000000000000000);
}

/// The value of a digit string is below the power of ten of its width.
pub proof fn lemma_dec_val_bound(bs: Seq<u8>)
    requires
        all_digits(bs),
    ensures
        dec_val(bs) < pow10(bs.len()),
    decreases bs.len(),
{
    if bs.len() == 0 {
    } else {
        assert(all_digits(bs.drop_last()));
        lemma_dec_val_bound(bs.drop_last());
        assert(dec_val(bs) <= dec_val(bs.drop_last()) * 10 + 9);
        assert(dec_val(bs.drop_last()) * 10 + 9 < pow10(bs.len())) by (nonlinear_arith)
            requires
                dec_val(bs.drop_last()) < pow10((bs.len() - 1) as nat),
                pow10(bs.len()) == 10 * pow10((bs.len() - 1) as nat),
        ;
    }
}

/// Whether a character passes through the escape unchanged: printable
/// ASCII that is neither the escape introducer nor the field separator.
pub open spec fn passthrough(c: char) -> bool {
    32 <= c as u32 <= 126 && c as u32 != 92 && c as u32 != 124
}

/// The bytes one character contributes to an escaped string.
pub open spec fn esc_char(c: char) -> Seq<u8> {
    if passthrough(c) {
        seq![((c as u32) as u8)]
    } else {
        seq![ESCAPE] + dec_bytes(c as u32 as nat) + seq![ESCAPE_END]
    }
}

/// A whole character sequence, escaped.
pub open spec fn esc(s: Seq<char>) -> Seq<u8>
    decreases s.len(),
{
    if s.len() == 0 {
        Seq::empty()
    } else {
        esc_char(s[0]) + esc(s.drop_first())
    }
}

/// No escaped text contains a field or line separator, or a carriage
/// return.
pub proof fn lemma_esc_clean(s: Seq<char>)
    ensures
        forall|i: int| 0 <= i < esc(s).len() ==> #[trigger] esc(s)[i] != FIELD_SEP && esc(s)[i]
            != LINE_SEP && esc(s)[i] != 13,
    decreases s.len(),
{
    if s.len() > 0 {
        lemma_esc_clean(s.drop_first());
        lemma_dec_bytes_digits(s[0] as u32 as nat);
        assert forall|i: int| 0 <= i < esc(s).len() implies #[trigger] esc(s)[i] != FIELD_SEP
            && esc(s)[i] != LINE_SEP && esc(s)[i] != 13 by {
            if i < esc_char(s[0]).len() {
                assert(esc(s)[i] == esc_char(s[0])[i]);
                if !passthrough(s[0]) {
                    if 0 < i < esc_char(s[0]).len() - 1 {
                        assert(esc_char(s[0])[i] == dec_bytes(s[0] as u32 as nat)[i - 1]);
                        assert(48 <= esc_char(s[0])[i] <= 57);
                    }
                }
            } else {
                assert(esc(s)[i] == esc(s.drop_first())[i - esc_char(s[0]).len()]);
            }
        }
    }
}

/// Whether `n` is a Unicode scalar value (a valid `char` code).
pub open spec fn valid_scalar_nat(n: nat) -> bool {
    n < 0xD800 || (0xE000 <= n < 0x110000)
}

/// Unescape a byte sequence back into characters; `None` on any byte
/// that cannot occur in well-formed escaped text.
pub open spec fn unesc(bs: Seq<u8>) -> Option<Seq<char>>
    decreases bs.len(),
{
    if bs.len() == 0 {
        Some(Seq::empty())
    } else if bs[0] != ESCAPE {
        if 32 <= bs[0] <= 126 && bs[0] != FIELD_SEP {
            match unesc(bs.drop_first()) {
                Some(rest) => Some(seq![bs[0] as char] + rest),
                None => None,
            }
        } else {
            None
        }
    } else {
        let close = find_byte(bs, ESCAPE_END);
        if 1 < close < bs.len() && close <= 8 {
            let digits = bs.subrange(1, close);
            if all_digits(digits) && valid_scalar_nat(dec_val(digits)) {
                match unesc(bs.skip(close + 1)) {
                    Some(rest) => Some(seq![(dec_val(digits) as u32) as char] + rest),
                    None => None,
                }
            } else {
                None
            }
        } else {
            None
        }
    }
}

/// Index of the first occurrence of `b` in `bs`, or `bs.len()` if absent.
pub open spec fn find_byte(bs: Seq<u8>, b: u8) -> int
    decreases bs.len(),
{
    if bs.len() == 0 {
        0
    } else if bs[0] == b {
        0
    } else {
        1 + find_byte(bs.drop_first(), b)
    }
}

/// `find_byte` returns the position of the first occurrence.
pub proof fn lemma_find_byte_at(bs: Seq<u8>, b: u8, j: int)
    requires
        0 <= j <= bs.len(),
        forall|k: int| 0 <= k < j ==> bs[k] != b,
        j == bs.len() || bs[j] == b,
    ensures
        find_byte(bs, b) == j,
    decreases j,
{
    if bs.len() == 0 {
    } else if bs[0] == b {
        assert(j <= 0);
    } else {
        assert(j >= 1);
        lemma_find_byte_at(bs.drop_first(), b, j - 1);
    }
}

/// Unescaping inverts escaping: every character sequence is recovered
/// exactly from its escaped bytes.
pub proof fn lemma_unesc_esc(s: Seq<char>)
    ensures
        unesc(esc(s)) == Some(s),
    decreases s.len(),
{
    if s.len() == 0 {
    } else {
        lemma_unesc_esc(s.drop_first());
        let c = s[0];
        let bs = esc(s);
        let rest = esc(s.drop_first());
        vstd::utf8::char_is_scalar(c);
        vstd::utf8::char_u32_cast(c, c as u32);
        if passthrough(c) {
            assert(bs[0] == (c as u32) as u8);
            assert(32 <= bs[0] <= 126 && bs[0] != FIELD_SEP && bs[0] != ESCAPE);
            assert(bs.drop_first() =~= rest);
            assert(bs[0] as u32 == c as u32);
            assert(bs[0] as char == c);
            assert(seq![bs[0] as char] + s.drop_first() =~= s);
        } else {
            let code = c as u32 as nat;
            let digits = dec_bytes(code);
            lemma_dec_bytes_digits(code);
            lemma_dec_val_inverse(code);
            lemma_pow10_20();
            lemma_dec_bytes_len(code, 7);
            assert(bs[0] == ESCAPE);
            let close = 1 + digits.len() as int;
            assert forall|k: int| 0 <= k < close implies bs[k] != ESCAPE_END by {
                if k >= 1 {
                    assert(bs[k] == digits[k - 1]);
                    assert(48 <= bs[k] <= 57);
                }
            }
            assert(bs[close] == ESCAPE_END);
            lemma_find_byte_at(bs, ESCAPE_END, close);
            assert(bs.subrange(1, close) =~= digits);
            assert(bs.skip(close + 1) =~= rest);
            assert(dec_val(digits) == code);
            assert((code as u32) as char == c);
            assert(seq![(dec_val(digits) as u32) as char] + s.drop_first() =~= s);
        }
    }
}

/// Fields joined by the field separator.
pub open spec fn join_fields(fs: Seq<Seq<u8>>) -> Seq<u8>
    decreases fs.len(),
{
    if fs.len() == 0 {
        Seq::empty()
    } else if fs.len() == 1 {
        fs[0]
    } else {
        fs[0] + seq![FIELD_SEP] + join_fields(fs.drop_first())
    }
}

/// A record line split at each field separator; always at least one
/// (possibly empty) field.
pub open spec fn split_fields(bs: Seq<u8>) -> Seq<Seq<u8>>
    decreases bs.len(),
{
    let i = find_byte(bs, FIELD_SEP);
    if 0 <= i < bs.len() {
        seq![bs.take(i)] + split_fields(bs.skip(i + 1))
    } else {
        seq![bs]
    }
}

/// A field that never collides with the record structure: free of field
/// separators, line separators and carriage returns.
pub open spec fn clean_field(f: Seq<u8>) -> bool {
    forall|i: int| 0 <= i < f.len() ==> #[trigger] f[i] != FIELD_SEP && f[i] != LINE_SEP && f[i]
        != 13
}

/// Every field of the list is clean.
pub open spec fn clean_fields(fs: Seq<Seq<u8>>) -> bool {
    forall|i: int| 0 <= i < fs.len() ==> clean_field(#[trigger] fs[i])
}

/// Splitting inverts joining for clean fields.
pub proof fn lemma_split_join(fs: Seq<Seq<u8>>)
    requires
        fs.len() >= 1,
        clean_fields(fs),
    ensures
        split_fields(join_fields(fs)) == fs,
    decreases fs.len(),
{
    let bs = join_fields(fs);
    if fs.len() == 1 {
        assert(clean_field(fs[0]));
        lemma_find_byte_at(bs, FIELD_SEP, bs.len() as int);
        assert(split_fields(bs) =~= fs);
    } else {
        lemma_split_join(fs.drop_first());
        assert(clean_field(fs[0]));
        let head = fs[0];
        let rest = join_fields(fs.drop_first());
        assert forall|k: int| 0 <= k < head.len() implies bs[k] != FIELD_SEP by {
            assert(bs[k] == head[k]);
        }
        assert(bs[head.len() as int] == FIELD_SEP);
        lemma_find_byte_at(bs, FIELD_SEP, head.len() as int);
        assert(bs.take(head.len() as int) =~= head);
        assert(bs.skip(head.len() as int + 1) =~= rest);
        assert(split_fields(bs) =~= fs);
    }
}

/// An optional string as a field: a bare minus sign for nothing, an
/// equals sign followed by the escaped text otherwise.
pub open spec fn opt_field(o: Option<Seq<char>>) -> Seq<u8> {
    match o {
        None => seq![45u8],
        Some(s) => seq![61u8] + esc(s),
    }
}

/// Read an optional-string field back.
pub open spec fn parse_opt_field(f: Seq<u8>) -> Option<Option<Seq<char>>> {
    if f == seq![45u8] {
        Some(None)
    } else if f.len() >= 1 && f[0] == 61 {
        match unesc(f.skip(1)) {
            Some(s) => Some(Some(s)),
            None => None,
        }
    } else {
        None
    }
}

/// Reading back an optional-string field gives the original value.
pub proof fn lemma_parse_opt_field(o: Option<Seq<char>>)
    ensures
        parse_opt_field(opt_field(o)) == Some(o),
        clean_field(opt_field(o)),
{
    match o {
        None => {
            assert(opt_field(o) == seq![45u8]);
        },
        Some(s) => {
            lemma_unesc_esc(s);
            lemma_esc_clean(s);
            let f = opt_field(o);
            assert(f[0] == 61);
            assert(f != seq![45u8]);
            assert(f.skip(1) =~= esc(s));
            assert forall|i: int| 0 <= i < f.len() implies #[trigger] f[i] != FIELD_SEP && f[i]
                != LINE_SEP && f[i] != 13 by {
                if i >= 1 {
                    assert(f[i] == esc(s)[i - 1]);
                }
            }
        },
    }
}

/// An optional number as a field.
pub open spec fn opt_num_field(o: Option<usize>) -> Seq<u8> {
    match o {
        None => seq![45u8],
        Some(n) => seq![61u8] + dec_bytes(n as nat),
    }
}

/// A digit field's value, if it is one: at most twenty digits, no
/// leading zeros.
pub open spec fn parse_nat(f: Seq<u8>) -> Option<nat> {
    if 1 <= f.len() <= 20 && all_digits(f) && (f.len() > 1 ==> f[0] != 48) {
        Some(dec_val(f))
    } else {
        None
    }
}

/// A signed decimal field's value, if it is one.
pub open spec fn parse_int(f: Seq<u8>) -> Option<int> {
    if f.len() >= 1 && f[0] == 45 {
        match parse_nat(f.skip(1)) {
            Some(n) => Some(-(n as int)),
            None => None,
        }
    } else {
        match parse_nat(f) {
            Some(n) => Some(n as int),
            None => None,
        }
    }
}

/// Read an optional-number field back.
pub open spec fn parse_opt_num(f: Seq<u8>) -> Option<Option<nat>> {
    if f == seq![45u8] {
        Some(None)
    } else if f.len() >= 2 && f[0] == 61 {
        match parse_nat(f.skip(1)) {
            Some(n) => Some(Some(n)),
            None => None,
        }
    } else {
        None
    }
}

/// Number fields parse back to their value and are clean.
pub proof fn lemma_parse_nat(n: nat)
    requires
        n < 100000000000000000000,
    ensures
        parse_nat(dec_bytes(n)) == Some(n),
        clean_field(dec_bytes(n)),
{
    lemma_dec_bytes_digits(n);
    lemma_dec_val_inverse(n);
    lemma_pow10_20();
    lemma_dec_bytes_len(n, 20);
}

/// Signed fields parse back to their value and are clean.
pub proof fn lemma_parse_int(v: int)
    requires
        -100000000000000000000 < v < 100000000000000000000,
    ensures
        parse_int(int_bytes(v)) == Some(v),
        clean_field(int_bytes(v)),
{
    if v < 0 {
        lemma_parse_nat((-v) as nat);
        let f = int_bytes(v);
        assert(f[0] == 45);
        assert(f.skip(1) =~= dec_bytes((-v) as nat));
    } else {
        lemma_parse_nat(v as nat);
        let f = int_bytes(v);
        lemma_dec_bytes_digits(v as nat);
        assert(f[0] != 45);
    }
}

/// Optional-number fields parse back to their value and are clean.
pub proof fn lemma_parse_opt_num(o: Option<usize>)
    ensures
        parse_opt_num(opt_num_field(o)) == (match o {
            Some(n) => Some(Some(n as nat)),
            None => Some(None::<nat>),
        }),
        clean_field(opt_num_field(o)),
{
    match o {
        None => {},
        Some(n) => {
            lemma_parse_nat(n as nat);
            let f = opt_num_field(o);
            lemma_dec_bytes_digits(n as nat);
            assert(f != seq![45u8]);
            assert(f.skip(1) =~= dec_bytes(n as nat));
        },
    }
}

/// The fields of a range list: a count, then a start and an end field
/// per range.
pub open spec fn ranges_fields(rs: Seq<ColumnRange>) -> Seq<Seq<u8>> {
    seq![dec_bytes(rs.len())] + ranges_pair_fields(rs)
}

/// The per-range fields of a range list.
pub open spec fn ranges_pair_fields(rs: Seq<ColumnRange>) -> Seq<Seq<u8>>
    decreases rs.len(),
{
    if rs.len() == 0 {
        Seq::empty()
    } else {
        seq![dec_bytes(rs[0].start as nat), dec_bytes(rs[0].end as nat)] + ranges_pair_fields(
            rs.drop_first(),
        )
    }
}

/// The fields of an audit history: a count, then a timestamp, an actor
/// and an action field per event.
pub open spec fn events_fields(es: Seq<AuditEventV>) -> Seq<Seq<u8>> {
    seq![dec_bytes(es.len())] + events_triple_fields(es)
}

/// The per-event fields of an audit history.
pub open spec fn events_triple_fields(es: Seq<AuditEventV>) -> Seq<Seq<u8>>
    decreases es.len(),
{
    if es.len() == 0 {
        Seq::empty()
    } else {
        seq![int_bytes(es[0].timestamp as int), esc(es[0].actor), esc(es[0].action)]
            + events_triple_fields(es.drop_first())
    }
}

/// The single byte naming an encoding kind.
pub open spec fn encoding_byte(k: EncodingKind) -> u8 {
    match k {
        EncodingKind::Hollerith => 104,
        EncodingKind::Ascii => 97,
        EncodingKind::Ebcdic => 101,
    }
}

/// The single byte naming a card type.
pub open spec fn card_type_byte(t: CardType) -> u8 {
    match t {
        CardType::Code => 99,
        CardType::Data => 100,
        CardType::Jcl => 106,
        CardType::Comment => 109,
        CardType::Separator => 115,
        CardType::Patch => 112,
    }
}

/// The fields of a header record.
pub open spec fn header_fields(h: DeckHeaderV) -> Seq<Seq<u8>> {
    seq![seq![72u8], dec_bytes(h.version as nat), int_bytes(h.created_at as int), opt_field(
        h.language,
    ), opt_field(h.template)] + ranges_fields(h.protected_cols) + seq![seq![
        if h.readonly {
            49u8
        } else {
            48u8
        },
    ]] + events_fields(h.history)
}

/// The fields of a card record.
pub open spec fn card_fields(c: CardRecordV) -> Seq<Seq<u8>> {
    seq![seq![67u8], opt_field(c.text), opt_field(c.punches), seq![encoding_byte(c.encoding)],
        opt_num_field(c.seq), seq![card_type_byte(c.card_type)]] + ranges_fields(c.protected_cols)
        + seq![opt_field(c.meta.color), opt_field(c.meta.note)]
}

/// The serialised bytes of one record line (without its newline).
pub open spec fn header_line(h: DeckHeaderV) -> Seq<u8> {
    join_fields(header_fields(h))
}

/// The serialised bytes of one card line (without its newline).
pub open spec fn card_line(c: CardRecordV) -> Seq<u8> {
    join_fields(card_fields(c))
}

/// The card lines of a deck, each terminated by a newline.
pub open spec fn card_lines(cards: Seq<CardRecordV>) -> Seq<u8>
    decreases cards.len(),
{
    if cards.len() == 0 {
        Seq::empty()
    } else {
        card_line(cards[0]) + seq![LINE_SEP] + card_lines(cards.drop_first())
    }
}

/// The full serialisation of a deck: the header line, then one line per
/// card, each newline-terminated.
pub open spec fn ser_deck(d: DeckV) -> Seq<u8> {
    header_line(d.header) + seq![LINE_SEP] + card_lines(d.cards)
}

/// Read a range list starting at field `pos`: the count, then that many
/// start/end pairs. Yields the ranges and the next cursor position.
pub open spec fn parse_ranges_from(fs: Seq<Seq<u8>>, pos: int, count: nat) -> Option<
    (Seq<ColumnRange>, int),
>
    decreases count,
{
    if count == 0 {
        Some((Seq::empty(), pos))
    } else if pos + 2 <= fs.len() {
        match (parse_nat(fs[pos]), parse_nat(fs[pos + 1])) {
            (Some(s), Some(e)) => {
                if s <= usize::MAX && e <= usize::MAX {
                    match parse_ranges_from(fs, pos + 2, (count - 1) as nat) {
                        Some((rest, end_pos)) => Some(
                            (
                                seq![ColumnRange { start: s as usize, end: e as usize }] + rest,
                                end_pos,
                            ),
                        ),
                        None => None,
                    }
                } else {
                    None
                }
            },
            _ => None,
        }
    } else {
        None
    }
}

/// Read an audit history starting at field `pos`.
pub open spec fn parse_events_from(fs: Seq<Seq<u8>>, pos: int, count: nat) -> Option<
    (Seq<AuditEventV>, int),
>
    decreases count,
{
    if count == 0 {
        Some((Seq::empty(), pos))
    } else if pos + 3 <= fs.len() {
        match (parse_int(fs[pos]), unesc(fs[pos + 1]), unesc(fs[pos + 2])) {
            (Some(ts), Some(actor), Some(action)) => {
                if i64::MIN <= ts <= i64::MAX {
                    match parse_events_from(fs, pos + 3, (count - 1) as nat) {
                        Some((rest, end_pos)) => Some(
                            (
                                seq![
                                    AuditEventV { timestamp: ts as i64, actor, action },
                                ] + rest,
                                end_pos,
                            ),
                        ),
                        None => None,
                    }
                } else {
                    None
                }
            },
            _ => None,
        }
    } else {
        None
    }
}

/// Read an encoding kind back from its byte field.
pub open spec fn parse_encoding(f: Seq<u8>) -> Option<EncodingKind> {
    if f == seq![104u8] {
        Some(EncodingKind::Hollerith)
    } else if f == seq![97u8] {
        Some(EncodingKind::Ascii)
    } else if f == seq![101u8] {
        Some(EncodingKind::Ebcdic)
    } else {
        None
    }
}

/// Read a card type back from its byte field.
pub open spec fn parse_card_type(f: Seq<u8>) -> Option<CardType> {
    if f == seq![99u8] {
        Some(CardType::Code)
    } else if f == seq![100u8] {
        Some(CardType::Data)
    } else if f == seq![106u8] {
        Some(CardType::Jcl)
    } else if f == seq![109u8] {
        Some(CardType::Comment)
    } else if f == seq![115u8] {
        Some(CardType::Separator)
    } else if f == seq![112u8] {
        Some(CardType::Patch)
    } else {
        None
    }
}

/// Per-range fields: two per range, in order.
proof fn lemma_ranges_pair_index(rs: Seq<ColumnRange>)
    ensures
        ranges_pair_fields(rs).len() == 2 * rs.len(),
        forall|i: int| 0 <= i < rs.len() ==> ranges_pair_fields(rs)[2 * i] == dec_bytes(
            (#[trigger] rs[i]).start as nat,
        ) && ranges_pair_fields(rs)[2 * i + 1] == dec_bytes(rs[i].end as nat),
    decreases rs.len(),
{
    if rs.len() > 0 {
        lemma_ranges_pair_index(rs.drop_first());
        assert forall|i: int| 0 <= i < rs.len() implies ranges_pair_fields(rs)[2 * i] == dec_bytes(
            (#[trigger] rs[i]).start as nat,
        ) && ranges_pair_fields(rs)[2 * i + 1] == dec_bytes(rs[i].end as nat) by {
            if i > 0 {
                assert(rs.drop_first()[i - 1] == rs[i]);
                assert(ranges_pair_fields(rs)[2 * i] == ranges_pair_fields(rs.drop_first())[2 * (i
                    - 1)]);
                assert(ranges_pair_fields(rs)[2 * i + 1] == ranges_pair_fields(rs.drop_first())[2
                    * (i - 1) + 1]);
            }
        }
    }
}

/// Per-event fields: three per event, in order.
proof fn lemma_events_triple_index(es: Seq<AuditEventV>)
    ensures
        events_triple_fields(es).len() == 3 * es.len(),
        forall|i: int| 0 <= i < es.len() ==> events_triple_fields(es)[3 * i] == int_bytes(
            (#[trigger] es[i]).timestamp as int,
        ) && events_triple_fields(es)[3 * i + 1] == esc(es[i].actor) && events_triple_fields(
            es,
        )[3 * i + 2] == esc(es[i].action),
    decreases es.len(),
{
    if es.len() > 0 {
        lemma_events_triple_index(es.drop_first());
        assert forall|i: int| 0 <= i < es.len() implies events_triple_fields(es)[3 * i]
            == int_bytes((#[trigger] es[i]).timestamp as int) && events_triple_fields(es)[3 * i
            + 1] == esc(es[i].actor) && events_triple_fields(es)[3 * i + 2] == esc(
            es[i].action,
        ) by {
            if i > 0 {
                assert(es.drop_first()[i - 1] == es[i]);
                assert(events_triple_fields(es)[3 * i] == events_triple_fields(es.drop_first())[3
                    * (i - 1)]);
                assert(events_triple_fields(es)[3 * i + 1] == events_triple_fields(
                    es.drop_first(),
                )[3 * (i - 1) + 1]);
                assert(events_triple_fields(es)[3 * i + 2] == events_triple_fields(
                    es.drop_first(),
                )[3 * (i - 1) + 2]);
            }
        }
    }
}

/// Reading range pairs laid out in the fields recovers the ranges.
proof fn lemma_parse_ranges_at(fs: Seq<Seq<u8>>, pos: int, rs: Seq<ColumnRange>)
    requires
        0 <= pos,
        pos + 2 * rs.len() <= fs.len(),
        forall|i: int| 0 <= i < rs.len() ==> fs[pos + 2 * i] == dec_bytes(
            (#[trigger] rs[i]).start as nat,
        ) && fs[pos + 2 * i + 1] == dec_bytes(rs[i].end as nat),
    ensures
        parse_ranges_from(fs, pos, rs.len()) == Some((rs, pos + 2 * rs.len())),
    decreases rs.len(),
{
    if rs.len() > 0 {
        lemma_parse_nat(rs[0].start as nat);
        lemma_parse_nat(rs[0].end as nat);
        assert(fs[pos] == dec_bytes(rs[0].start as nat));
        assert(fs[pos + 1] == dec_bytes(rs[0].end as nat));
        assert forall|i: int| 0 <= i < rs.drop_first().len() implies fs[pos + 2 + 2 * i]
            == dec_bytes((#[trigger] rs.drop_first()[i]).start as nat) && fs[pos + 2 + 2 * i + 1]
            == dec_bytes(rs.drop_first()[i].end as nat) by {
            assert(rs.drop_first()[i] == rs[i + 1]);
            assert(fs[pos + 2 * (i + 1)] == dec_bytes(rs[i + 1].start as nat));
            assert(fs[pos + 2 * (i + 1) + 1] == dec_bytes(rs[i + 1].end as nat));
            assert(pos + 2 + 2 * i == pos + 2 * (i + 1));
        }
        lemma_parse_ranges_at(fs, pos + 2, rs.drop_first());
        assert(seq![rs[0]] + rs.drop_first() =~= rs);
    }
}

/// Reading event triples laid out in the fields recovers the history.
proof fn lemma_parse_events_at(fs: Seq<Seq<u8>>, pos: int, es: Seq<AuditEventV>)
    requires
        0 <= pos,
        pos + 3 * es.len() <= fs.len(),
        forall|i: int| 0 <= i < es.len() ==> fs[pos + 3 * i] == int_bytes(
            (#[trigger] es[i]).timestamp as int,
        ) && fs[pos + 3 * i + 1] == esc(es[i].actor) && fs[pos + 3 * i + 2] == esc(es[i].action),
    ensures
        parse_events_from(fs, pos, es.len()) == Some((es, pos + 3 * es.len())),
    decreases es.len(),
{
    if es.len() > 0 {
        lemma_parse_int(es[0].timestamp as int);
        lemma_unesc_esc(es[0].actor);
        lemma_unesc_esc(es[0].action);
        assert(fs[pos] == int_bytes(es[0].timestamp as int));
        assert(fs[pos + 1] == esc(es[0].actor));
        assert(fs[pos + 2] == esc(es[0].action));
        assert forall|i: int| 0 <= i < es.drop_first().len() implies fs[pos + 3 + 3 * i]
            == int_bytes((#[trigger] es.drop_first()[i]).timestamp as int) && fs[pos + 3 + 3 * i
            + 1] == esc(es.drop_first()[i].actor) && fs[pos + 3 + 3 * i + 2] == esc(
            es.drop_first()[i].action,
        ) by {
            assert(es.drop_first()[i] == es[i + 1]);
            assert(fs[pos + 3 * (i + 1)] == int_bytes(es[i + 1].timestamp as int));
            assert(fs[pos + 3 * (i + 1) + 1] == esc(es[i + 1].actor));
            assert(fs[pos + 3 * (i + 1) + 2] == esc(es[i + 1].action));
            assert(pos + 3 + 3 * i == pos + 3 * (i + 1));
        }
        lemma_parse_events_at(fs, pos + 3, es.drop_first());
        assert(seq![es[0]] + es.drop_first() =~= es);
    }
}

/// Parse a header record from its field list.
pub open spec fn parse_header(fs: Seq<Seq<u8>>) -> Option<DeckHeaderV> {
    if fs.len() >= 6 && fs[0] == seq![72u8] {
        match (parse_nat(fs[1]), parse_int(fs[2]), parse_opt_field(fs[3]), parse_opt_field(
            fs[4],
        ), parse_nat(fs[5])) {
            (Some(version), Some(created), Some(language), Some(template), Some(k)) => {
                if version <= u8::MAX && i64::MIN <= created <= i64::MAX {
                    match parse_ranges_from(fs, 6, k) {
                        Some((ranges, pos)) => {
                            if pos + 2 <= fs.len() && (fs[pos] == seq![48u8] || fs[pos] == seq![
                                49u8,
                            ]) {
                                match parse_nat(fs[pos + 1]) {
                                    Some(m) => {
                                        match parse_events_from(fs, pos + 2, m) {
                                            Some((events, end_pos)) => {
                                                if end_pos == fs.len() {
                                                    Some(
                                                        DeckHeaderV {
                                                            version: version as u8,
                                                            created_at: created as i64,
                                                            language,
                                                            template,
                                                            protected_cols: ranges,
                                                            readonly: fs[pos] == seq![49u8],
                                                            history: events,
                                                        },
                                                    )
                                                } else {
                                                    None
                                                }
                                            },
                                            None => None,
                                        }
                                    },
                                    None => None,
                                }
                            } else {
                                None
                            }
                        },
                        None => None,
                    }
                } else {
                    None
                }
            },
            _ => None,
        }
    } else {
        None
    }
}

/// Parse a card record from its field list.
pub open spec fn parse_card(fs: Seq<Seq<u8>>) -> Option<CardRecordV> {
    if fs.len() >= 7 && fs[0] == seq![67u8] {
        match (parse_opt_field(fs[1]), parse_opt_field(fs[2]), parse_encoding(fs[3]),
        parse_opt_num(fs[4]), parse_card_type(fs[5]), parse_nat(fs[6])) {
            (Some(text), Some(punches), Some(encoding), Some(seqno), Some(card_type), Some(k)) => {
                if seqno matches Some(n) && n > usize::MAX {
                    None
                } else {
                    match parse_ranges_from(fs, 7, k) {
                        Some((ranges, pos)) => {
                            if pos + 2 == fs.len() {
                                match (parse_opt_field(fs[pos]), parse_opt_field(fs[pos + 1])) {
                                    (Some(color), Some(note)) => Some(
                                        CardRecordV {
                                            text,
                                            punches,
                                            encoding,
                                            seq: match seqno {
                                                Some(n) => Some(n as usize),
                                                None => None,
                                            },
                                            card_type,
                                            protected_cols: ranges,
                                            meta: crate::deck::CardMetaV { color, note },
                                        },
                                    ),
                                    _ => None,
                                }
                            } else {
                                None
                            }
                        },
                        None => None,
                    }
                }
            },
            _ => None,
        }
    } else {
        None
    }
}

/// Distinct bytes give distinct singleton fields.
proof fn lemma_single_neq(a: u8, b: u8)
    requires
        a != b,
    ensures
        seq![a] != seq![b],
{
    assert(seq![a][0] == a);
    assert(seq![b][0] == b);
}

/// The encoding tag reads back to the encoding.
proof fn lemma_parse_encoding(k: EncodingKind)
    ensures
        parse_encoding(seq![encoding_byte(k)]) == Some(k),
{
    lemma_single_neq(104, 97);
    lemma_single_neq(104, 101);
    lemma_single_neq(97, 101);
    lemma_single_neq(97, 104);
    lemma_single_neq(101, 104);
    lemma_single_neq(101, 97);
}

/// The card-type tag reads back to the card type.
proof fn lemma_parse_card_type_tag(t: CardType)
    ensures
        parse_card_type(seq![card_type_byte(t)]) == Some(t),
{
    lemma_single_neq(100, 99);
    lemma_single_neq(106, 99);
    lemma_single_neq(106, 100);
    lemma_single_neq(109, 99);
    lemma_single_neq(109, 100);
    lemma_single_neq(109, 106);
    lemma_single_neq(115, 99);
    lemma_single_neq(115, 100);
    lemma_single_neq(115, 106);
    lemma_single_neq(115, 109);
    lemma_single_neq(112, 99);
    lemma_single_neq(112, 100);
    lemma_single_neq(112, 106);
    lemma_single_neq(112, 109);
    lemma_single_neq(112, 115);
}

/// Sizes small enough to serialise: every list fits a machine word.
pub open spec fn header_bounded(h: DeckHeaderV) -> bool {
    &&& h.protected_cols.len() <= usize::MAX
    &&& h.history.len() <= usize::MAX
}

/// Sizes small enough to serialise.
pub open spec fn card_bounded(c: CardRecordV) -> bool {
    c.protected_cols.len() <= usize::MAX
}

/// Sizes small enough to serialise.
pub open spec fn deck_bounded(d: DeckV) -> bool {
    &&& header_bounded(d.header)
    &&& d.cards.len() <= usize::MAX
    &&& forall|i: int| 0 <= i < d.cards.len() ==> card_bounded(#[trigger] d.cards[i])
}

/// A header's fields are clean and parse back to the header.
#[verifier::rlimit(100)]
pub proof fn lemma_header_round_trip(h: DeckHeaderV)
    requires
        header_bounded(h),
    ensures
        parse_header(header_fields(h)) == Some(h),
        clean_fields(header_fields(h)),
        header_fields(h).len() >= 1,
        header_fields(h)[0] == seq![72u8],
{
    let fs = header_fields(h);
    let k = h.protected_cols.len() as int;
    let m = h.history.len() as int;
    lemma_ranges_pair_index(h.protected_cols);
    lemma_events_triple_index(h.history);
    assert(fs.len() == 8 + 2 * k + 3 * m);
    assert(fs[0] == seq![72u8]);
    assert(fs[1] == dec_bytes(h.version as nat));
    assert(fs[2] == int_bytes(h.created_at as int));
    assert(fs[3] == opt_field(h.language));
    assert(fs[4] == opt_field(h.template));
    assert(fs[5] == dec_bytes(h.protected_cols.len()));
    lemma_parse_nat(h.version as nat);
    lemma_parse_int(h.created_at as int);
    lemma_parse_opt_field(h.language);
    lemma_parse_opt_field(h.template);
    lemma_parse_nat(h.protected_cols.len());
    assert forall|i: int| 0 <= i < k implies fs[6 + 2 * i] == dec_bytes(
        (#[trigger] h.protected_cols[i]).start as nat,
    ) && fs[6 + 2 * i + 1] == dec_bytes(h.protected_cols[i].end as nat) by {
        assert(fs[6 + 2 * i] == ranges_pair_fields(h.protected_cols)[2 * i]);
        assert(fs[6 + 2 * i + 1] == ranges_pair_fields(h.protected_cols)[2 * i + 1]);
    }
    lemma_parse_ranges_at(fs, 6, h.protected_cols);
    let pos = 6 + 2 * k;
    assert(fs[pos] == seq![
        if h.readonly {
            49u8
        } else {
            48u8
        },
    ]);
    assert(fs[pos + 1] == dec_bytes(h.history.len()));
    lemma_parse_nat(h.history.len());
    assert forall|i: int| 0 <= i < m implies fs[pos + 2 + 3 * i] == int_bytes(
        (#[trigger] h.history[i]).timestamp as int,
    ) && fs[pos + 2 + 3 * i + 1] == esc(h.history[i].actor) && fs[pos + 2 + 3 * i + 2] == esc(
        h.history[i].action,
    ) by {
        assert(fs[pos + 2 + 3 * i] == events_triple_fields(h.history)[3 * i]);
        assert(fs[pos + 2 + 3 * i + 1] == events_triple_fields(h.history)[3 * i + 1]);
        assert(fs[pos + 2 + 3 * i + 2] == events_triple_fields(h.history)[3 * i + 2]);
    }
    lemma_parse_events_at(fs, pos + 2, h.history);
    lemma_single_neq(48, 49);
    lemma_single_neq(49, 48);
    assert(parse_header(fs) == Some(h));
    assert forall|i: int| 0 <= i < fs.len() implies clean_field(#[trigger] fs[i]) by {
        if i == 0 {
        } else if i == 1 {
            lemma_parse_nat(h.version as nat);
        } else if i == 2 {
        } else if i == 3 {
        } else if i == 4 {
        } else if i == 5 {
        } else if i < pos {
            let j = i - 6;
            if j % 2 == 0 {
                assert(fs[i] == dec_bytes(h.protected_cols[j / 2].start as nat));
                lemma_parse_nat(h.protected_cols[j / 2].start as nat);
            } else {
                assert(fs[i] == dec_bytes(h.protected_cols[j / 2].end as nat));
                lemma_parse_nat(h.protected_cols[j / 2].end as nat);
            }
        } else if i == pos {
        } else if i == pos + 1 {
            lemma_parse_nat(h.history.len());
        } else {
            let j = i - (pos + 2);
            if j % 3 == 0 {
                assert(fs[i] == int_bytes(h.history[j / 3].timestamp as int));
                lemma_parse_int(h.history[j / 3].timestamp as int);
            } else if j % 3 == 1 {
                assert(fs[i] == esc(h.history[j / 3].actor));
                lemma_esc_clean(h.history[j / 3].actor);
            } else {
                assert(fs[i] == esc(h.history[j / 3].action));
                lemma_esc_clean(h.history[j / 3].action);
            }
        }
    }
}

/// A card's fields are clean and parse back to the card.
#[verifier::rlimit(60)]
pub proof fn lemma_card_round_trip(c: CardRecordV)
    requires
        card_bounded(c),
    ensures
        parse_card(card_fields(c)) == Some(c),
        clean_fields(card_fields(c)),
        card_fields(c).len() >= 1,
        card_fields(c)[0] == seq![67u8],
{
    let fs = card_fields(c);
    let k = c.protected_cols.len() as int;
    lemma_ranges_pair_index(c.protected_cols);
    assert(fs.len() == 9 + 2 * k);
    assert(fs[0] == seq![67u8]);
    assert(fs[1] == opt_field(c.text));
    assert(fs[2] == opt_field(c.punches));
    assert(fs[3] == seq![encoding_byte(c.encoding)]);
    assert(fs[4] == opt_num_field(c.seq));
    assert(fs[5] == seq![card_type_byte(c.card_type)]);
    assert(fs[6] == dec_bytes(c.protected_cols.len()));
    lemma_parse_opt_field(c.text);
    lemma_parse_opt_field(c.punches);
    lemma_parse_opt_num(c.seq);
    lemma_parse_nat(c.protected_cols.len());
    lemma_parse_encoding(c.encoding);
    lemma_parse_card_type_tag(c.card_type);
    assert forall|i: int| 0 <= i < k implies fs[7 + 2 * i] == dec_bytes(
        (#[trigger] c.protected_cols[i]).start as nat,
    ) && fs[7 + 2 * i + 1] == dec_bytes(c.protected_cols[i].end as nat) by {
        assert(fs[7 + 2 * i] == ranges_pair_fields(c.protected_cols)[2 * i]);
        assert(fs[7 + 2 * i + 1] == ranges_pair_fields(c.protected_cols)[2 * i + 1]);
    }
    lemma_parse_ranges_at(fs, 7, c.protected_cols);
    let pos = 7 + 2 * k;
    assert(fs[pos] == opt_field(c.meta.color));
    assert(fs[pos + 1] == opt_field(c.meta.note));
    lemma_parse_opt_field(c.meta.color);
    lemma_parse_opt_field(c.meta.note);
    assert(parse_card(fs) == Some(c));
    assert forall|i: int| 0 <= i < fs.len() implies clean_field(#[trigger] fs[i]) by {
        if i == 6 {
            lemma_parse_nat(c.protected_cols.len());
        } else if 7 <= i < pos {
            let j = i - 7;
            if j % 2 == 0 {
                assert(fs[i] == dec_bytes(c.protected_cols[j / 2].start as nat));
                lemma_parse_nat(c.protected_cols[j / 2].start as nat);
            } else {
                assert(fs[i] == dec_bytes(c.protected_cols[j / 2].end as nat));
                lemma_parse_nat(c.protected_cols[j / 2].end as nat);
            }
        }
    }
}

/// A line is free of line separators and carriage returns.
pub open spec fn line_clean(l: Seq<u8>) -> bool {
    forall|i: int| 0 <= i < l.len() ==> #[trigger] l[i] != LINE_SEP && l[i] != 13
}

/// Joining clean fields yields a clean line.
pub proof fn lemma_join_clean(fs: Seq<Seq<u8>>)
    requires
        clean_fields(fs),
    ensures
        line_clean(join_fields(fs)),
    decreases fs.len(),
{
    if fs.len() == 0 {
    } else if fs.len() == 1 {
        assert(clean_field(fs[0]));
        assert forall|i: int| 0 <= i < join_fields(fs).len() implies #[trigger] join_fields(
            fs,
        )[i] != LINE_SEP && join_fields(fs)[i] != 13 by {
            assert(join_fields(fs)[i] == fs[0][i]);
        }
    } else {
        lemma_join_clean(fs.drop_first());
        assert(clean_field(fs[0]));
        let head = fs[0];
        let rest = join_fields(fs.drop_first());
        assert forall|i: int| 0 <= i < join_fields(fs).len() implies #[trigger] join_fields(
            fs,
        )[i] != LINE_SEP && join_fields(fs)[i] != 13 by {
            if i < head.len() {
                assert(join_fields(fs)[i] == head[i]);
            } else if i == head.len() {
                assert(join_fields(fs)[i] == FIELD_SEP);
            } else {
                assert(join_fields(fs)[i] == rest[i - head.len() - 1]);
            }
        }
    }
}

/// A byte stream cut at every line separator, with one trailing carriage
/// return stripped from each line.
pub open spec fn split_blines(bs: Seq<u8>) -> Seq<Seq<u8>>
    decreases bs.len(),
{
    if bs.len() == 0 {
        Seq::empty()
    } else {
        let i = find_byte(bs, LINE_SEP);
        if 0 <= i < bs.len() {
            seq![strip_cr_b(bs.take(i))] + split_blines(bs.skip(i + 1))
        } else {
            seq![strip_cr_b(bs)]
        }
    }
}

/// One trailing carriage return removed, if present.
pub open spec fn strip_cr_b(l: Seq<u8>) -> Seq<u8> {
    if l.len() > 0 && l.last() == 13 {
        l.drop_last()
    } else {
        l
    }
}

/// Whether a line holds nothing but blanks and tabs (or nothing at all).
pub open spec fn is_blank_line(l: Seq<u8>) -> bool {
    forall|i: int| 0 <= i < l.len() ==> #[trigger] l[i] == 32 || l[i] == 9
}

/// The lines that carry records: everything except blank lines.
pub open spec fn content_lines(ls: Seq<Seq<u8>>) -> Seq<Seq<u8>>
    decreases ls.len(),
{
    if ls.len() == 0 {
        Seq::empty()
    } else if is_blank_line(ls[0]) {
        content_lines(ls.drop_first())
    } else {
        seq![ls[0]] + content_lines(ls.drop_first())
    }
}

/// The one-based positions (among all lines, blank ones counted) of the
/// lines that carry records, counting from `base`.
pub open spec fn content_nums_from(ls: Seq<Seq<u8>>, base: int) -> Seq<int>
    decreases ls.len(),
{
    if ls.len() == 0 {
        Seq::empty()
    } else if is_blank_line(ls[0]) {
        content_nums_from(ls.drop_first(), base + 1)
    } else {
        seq![base] + content_nums_from(ls.drop_first(), base + 1)
    }
}

/// The original one-based line number of each record line.
pub open spec fn content_nums(ls: Seq<Seq<u8>>) -> Seq<int> {
    content_nums_from(ls, 1)
}

/// Filtering one more line keeps its number exactly when it is not blank.
proof fn lemma_content_nums_take(ls: Seq<Seq<u8>>, i: int, base: int)
    requires
        0 <= i < ls.len(),
    ensures
        content_nums_from(ls.take(i + 1), base) == content_nums_from(ls.take(i), base) + (
        if is_blank_line(ls[i]) {
            Seq::<int>::empty()
        } else {
            seq![base + i]
        }),
    decreases i,
{
    if i == 0 {
        assert(ls.take(1)[0] == ls[0]);
        assert(ls.take(1).drop_first() =~= Seq::<Seq<u8>>::empty());
        assert(ls.take(0) =~= Seq::<Seq<u8>>::empty());
        assert(content_nums_from(Seq::<Seq<u8>>::empty(), base) == Seq::<int>::empty());
        assert(content_nums_from(Seq::<Seq<u8>>::empty(), base + 1) == Seq::<int>::empty());
        if is_blank_line(ls[0]) {
            assert(content_nums_from(ls.take(1), base) =~= content_nums_from(ls.take(0), base));
        } else {
            assert(content_nums_from(ls.take(1), base) =~= content_nums_from(ls.take(0), base)
                + seq![base]);
        }
    } else {
        lemma_content_nums_take(ls.drop_first(), i - 1, base + 1);
        assert(ls.take(i + 1).drop_first() =~= ls.drop_first().take(i));
        assert(ls.take(i).drop_first() =~= ls.drop_first().take(i - 1));
        assert(ls.drop_first()[i - 1] == ls[i]);
        assert(ls.take(i + 1)[0] == ls[0]);
        assert(ls.take(i)[0] == ls[0]);
        if is_blank_line(ls[i]) {
            assert(content_nums_from(ls.take(i + 1), base) =~= content_nums_from(
                ls.take(i),
                base,
            ));
        } else {
            assert(content_nums_from(ls.take(i + 1), base) =~= content_nums_from(
                ls.take(i),
                base,
            ) + seq![base + i]);
        }
    }
}

/// The error kind one unreadable record line reports: a second header
/// record, or just a record that cannot be parsed.
pub open spec fn bad_record_kind(l: Seq<u8>) -> FormatErrorKind {
    if l.len() >= 2 && l[0] == 72 && l[1] == FIELD_SEP {
        FormatErrorKind::DuplicateHeader
    } else {
        FormatErrorKind::BadRecord
    }
}

/// Witness that record line `j` is the first that fails to parse as a
/// card (the header line at index zero aside).
pub open spec fn first_bad_card(cl: Seq<Seq<u8>>, j: int) -> bool {
    &&& 1 <= j < cl.len()
    &&& parse_card(split_fields(cl[j])) is None
    &&& forall|m: int| 1 <= m < j ==> parse_card(split_fields(#[trigger] cl[m])) is Some
}

/// Parse the card records on the lines from index `i` on.
pub open spec fn parse_cards_from(ls: Seq<Seq<u8>>, i: int) -> Option<Seq<CardRecordV>>
    decreases ls.len() - i,
{
    if i < 0 || i >= ls.len() {
        Some(Seq::empty())
    } else {
        match parse_card(split_fields(ls[i])) {
            Some(c) => {
                match parse_cards_from(ls, i + 1) {
                    Some(rest) => Some(seq![c] + rest),
                    None => None,
                }
            },
            None => None,
        }
    }
}

/// Parse a whole persisted deck: the first non-blank line must be a
/// header record, every further non-blank line a card record.
pub open spec fn parse_deck_spec(bs: Seq<u8>) -> Option<DeckV> {
    let ls = content_lines(split_blines(bs));
    if ls.len() == 0 {
        None
    } else {
        match parse_header(split_fields(ls[0])) {
            Some(h) => {
                match parse_cards_from(ls, 1) {
                    Some(cards) => Some(DeckV { header: h, cards }),
                    None => None,
                }
            },
            None => None,
        }
    }
}

/// Splitting after a clean line and its terminator yields that line and
/// the split of the remainder.
proof fn lemma_split_blines_cons(l: Seq<u8>, rest: Seq<u8>)
    requires
        line_clean(l),
    ensures
        split_blines(l + seq![LINE_SEP] + rest) == seq![l] + split_blines(rest),
{
    let bs = l + seq![LINE_SEP] + rest;
    assert forall|k: int| 0 <= k < l.len() implies bs[k] != LINE_SEP by {
        assert(bs[k] == l[k]);
    }
    assert(bs[l.len() as int] == LINE_SEP);
    lemma_find_byte_at(bs, LINE_SEP, l.len() as int);
    assert(bs.take(l.len() as int) =~= l);
    assert(bs.skip(l.len() as int + 1) =~= rest);
    if l.len() > 0 {
        assert(l.last() != 13);
    }
    assert(strip_cr_b(l) == l);
    assert(split_blines(bs) =~= seq![l] + split_blines(rest));
}

/// The serialised card lines split back into one line per card.
proof fn lemma_split_card_lines(cards: Seq<CardRecordV>)
    requires
        forall|i: int| 0 <= i < cards.len() ==> card_bounded(#[trigger] cards[i]),
    ensures
        split_blines(card_lines(cards)).len() == cards.len(),
        forall|i: int| 0 <= i < cards.len() ==> #[trigger] split_blines(card_lines(cards))[i]
            == card_line(cards[i]),
    decreases cards.len(),
{
    if cards.len() > 0 {
        lemma_card_round_trip(cards[0]);
        lemma_join_clean(card_fields(cards[0]));
        assert(forall|i: int| 0 <= i < cards.drop_first().len() ==> card_bounded(
            #[trigger] cards.drop_first()[i],
        ));
        lemma_split_card_lines(cards.drop_first());
        assert(card_line(cards[0]) + seq![LINE_SEP] + card_lines(cards.drop_first())
            =~= card_lines(cards));
        lemma_split_blines_cons(card_line(cards[0]), card_lines(cards.drop_first()));
        assert forall|i: int| 0 <= i < cards.len() implies #[trigger] split_blines(
            card_lines(cards),
        )[i] == card_line(cards[i]) by {
            if i > 0 {
                assert(split_blines(card_lines(cards))[i] == split_blines(
                    card_lines(cards.drop_first()),
                )[i - 1]);
                assert(cards.drop_first()[i - 1] == cards[i]);
            }
        }
    }
}

/// A record line is never blank: it starts with its record tag.
proof fn lemma_record_line_not_blank(fs: Seq<Seq<u8>>, tag: u8)
    requires
        fs.len() >= 1,
        fs[0] == seq![tag],
        tag != 32,
        tag != 9,
    ensures
        !is_blank_line(join_fields(fs)),
        join_fields(fs).len() >= 1,
        join_fields(fs)[0] == tag,
{
    if fs.len() == 1 {
        assert(join_fields(fs) == fs[0]);
        assert(join_fields(fs)[0] == tag);
    } else {
        assert(join_fields(fs)[0] == fs[0][0]);
        assert(join_fields(fs)[0] == tag);
    }
    assert(!(join_fields(fs)[0] == 32 || join_fields(fs)[0] == 9));
}

/// Serialising a deck and parsing the bytes back yields the same deck:
/// the persistence format loses nothing.
pub proof fn lemma_deck_round_trip(d: DeckV)
    requires
        deck_bounded(d),
    ensures
        parse_deck_spec(ser_deck(d)) == Some(d),
{
    let bs = ser_deck(d);
    lemma_header_round_trip(d.header);
    lemma_join_clean(header_fields(d.header));
    lemma_split_blines_cons(header_line(d.header), card_lines(d.cards));
    assert(header_line(d.header) + seq![LINE_SEP] + card_lines(d.cards) =~= bs);
    lemma_split_card_lines(d.cards);
    let ls0 = split_blines(bs);
    assert(ls0 == seq![header_line(d.header)] + split_blines(card_lines(d.cards)));
    lemma_record_line_not_blank(header_fields(d.header), 72);
    assert forall|i: int| 0 <= i < ls0.len() implies !is_blank_line(#[trigger] ls0[i]) by {
        if i > 0 {
            assert(ls0[i] == card_line(d.cards[i - 1]));
            lemma_card_round_trip(d.cards[i - 1]);
            lemma_record_line_not_blank(card_fields(d.cards[i - 1]), 67);
        }
    }
    lemma_content_lines_all(ls0);
    let ls = content_lines(ls0);
    assert(ls == ls0);
    lemma_split_join(header_fields(d.header));
    assert(parse_header(split_fields(ls[0])) == Some(d.header));
    lemma_parse_cards_all(ls0, d.cards);
    assert(parse_deck_spec(bs) == Some(d));
}

/// Filtering keeps everything when nothing is blank.
proof fn lemma_content_lines_all(ls: Seq<Seq<u8>>)
    requires
        forall|i: int| 0 <= i < ls.len() ==> !is_blank_line(#[trigger] ls[i]),
    ensures
        content_lines(ls) == ls,
    decreases ls.len(),
{
    if ls.len() > 0 {
        assert(forall|i: int| 0 <= i < ls.drop_first().len() ==> !is_blank_line(
            #[trigger] ls.drop_first()[i],
        ));
        lemma_content_lines_all(ls.drop_first());
        assert(content_lines(ls) =~= ls);
    }
}

/// The card lines from index one parse back to the cards.
proof fn lemma_parse_cards_all(ls: Seq<Seq<u8>>, cards: Seq<CardRecordV>)
    requires
        ls.len() == cards.len() + 1,
        forall|i: int| #![trigger cards[i]] 0 <= i < cards.len() ==> ls[i + 1] == card_line(
            cards[i],
        ) && card_bounded(cards[i]),
    ensures
        parse_cards_from(ls, 1) == Some(cards),
{
    assert forall|i: int| #![trigger cards[i]] 0 <= i < cards.len() implies ls[1 + i] == card_line(
        cards[i],
    ) && card_bounded(cards[i]) by {
        assert(ls[i + 1] == card_line(cards[i]));
    }
    lemma_parse_cards_from(ls, 1, cards);
}

/// The card lines from index `pos` parse back to the remaining cards.
proof fn lemma_parse_cards_from(ls: Seq<Seq<u8>>, pos: int, cards: Seq<CardRecordV>)
    requires
        1 <= pos,
        ls.len() == pos + cards.len(),
        forall|i: int| #![trigger cards[i]] 0 <= i < cards.len() ==> ls[pos + i] == card_line(
            cards[i],
        ) && card_bounded(cards[i]),
    ensures
        parse_cards_from(ls, pos) == Some(cards),
    decreases cards.len(),
{
    if cards.len() == 0 {
        assert(parse_cards_from(ls, pos) == Some(Seq::<CardRecordV>::empty()));
        assert(Seq::<CardRecordV>::empty() =~= cards);
    } else {
        assert(ls[pos + 0] == card_line(cards[0]) && card_bounded(cards[0]));
        assert(ls[pos] == card_line(cards[0]));
        lemma_card_round_trip(cards[0]);
        lemma_split_join(card_fields(cards[0]));
        assert(parse_card(split_fields(ls[pos])) == Some(cards[0]));
        assert forall|i: int| #![trigger cards.drop_first()[i]] 0 <= i < cards.drop_first().len()
            implies ls[pos + 1 + i] == card_line(cards.drop_first()[i]) && card_bounded(
            cards.drop_first()[i],
        ) by {
            assert(cards.drop_first()[i] == cards[i + 1]);
            assert(ls[pos + (i + 1)] == card_line(cards[i + 1]));
            assert(ls[pos + 1 + i] == ls[pos + (i + 1)]);
        }
        lemma_parse_cards_from(ls, pos + 1, cards.drop_first());
        assert(seq![cards[0]] + cards.drop_first() =~= cards);
    }
}

/// Taking one more character extends the escape by that character's bytes.
proof fn lemma_esc_take(s: Seq<char>, i: int)
    requires
        0 <= i < s.len(),
    ensures
        esc(s.take(i + 1)) == esc(s.take(i)) + esc_char(s[i]),
    decreases i,
{
    if i == 0 {
        assert(s.take(1)[0] == s[0]);
        assert(s.take(1).drop_first() =~= Seq::<char>::empty());
        assert(s.take(0) =~= Seq::<char>::empty());
        assert(esc(s.take(1)) =~= esc(s.take(0)) + esc_char(s[0]));
    } else {
        lemma_esc_take(s.drop_first(), i - 1);
        assert(s.take(i + 1).drop_first() =~= s.drop_first().take(i));
        assert(s.take(i).drop_first() =~= s.drop_first().take(i - 1));
        assert(s.drop_first()[i - 1] == s[i]);
        assert(s.take(i + 1)[0] == s[0]);
        assert(s.take(i)[0] == s[0]);
        assert(esc(s.take(i + 1)) == esc_char(s[0]) + esc(s.drop_first().take(i)));
        assert(esc(s.take(i)) == esc_char(s[0]) + esc(s.drop_first().take(i - 1)));
        assert(esc(s.take(i + 1)) =~= esc(s.take(i)) + esc_char(s[i]));
    }
}

/// Decimal digits of `n`, in executable form.
fn dec_bytes_exec(n: u64) -> (r: Vec<u8>)
    ensures
        r@ == dec_bytes(n as nat),
    decreases n,
{
    if n < 10 {
        let mut v: Vec<u8> = Vec::new();
        v.push(48 + (n as u8));
        assert(v@ =~= dec_bytes(n as nat));
        v
    } else {
        let mut v = dec_bytes_exec(n / 10);
        v.push(48 + ((n % 10) as u8));
        v
    }
}

/// Signed decimal digits, in executable form.
fn int_bytes_exec(v: i64) -> (r: Vec<u8>)
    ensures
        r@ == int_bytes(v as int),
{
    if v < 0 {
        let mag: u64 = ((-(v + 1)) as u64) + 1;
        assert(mag == -(v as int));
        let mut r: Vec<u8> = Vec::new();
        r.push(45);
        let mut d = dec_bytes_exec(mag);
        r.append(&mut d);
        assert(r@ =~= int_bytes(v as int));
        r
    } else {
        dec_bytes_exec(v as u64)
    }
}

/// Escape a character vector, in executable form.
#[verifier::loop_isolation(false)]
fn esc_exec(v: &Vec<char>) -> (r: Vec<u8>)
    ensures
        r@ == esc(v@),
{
    let mut out: Vec<u8> = Vec::new();
    let mut i: usize = 0;
    assert(v@.take(0) =~= Seq::<char>::empty());
    while i < v.len()
        invariant
            i <= v@.len(),
            out@ == esc(v@.take(i as int)),
        decreases v@.len() - i,
    {
        let c = v[i];
        let u = c as u32;
        proof {
            lemma_esc_take(v@, i as int);
        }
        if 32 <= u && u <= 126 && u != 92 && u != 124 {
            out.push(u as u8);
        } else {
            out.push(ESCAPE);
            let mut d = dec_bytes_exec(u as u64);
            out.append(&mut d);
            out.push(ESCAPE_END);
        }
        assert(out@ =~= esc(v@.take(i + 1)));
        i += 1;
    }
    assert(v@.take(v@.len() as int) =~= v@);
    out
}

/// Escape a string, in executable form.
fn esc_str(s: &String) -> (r: Vec<u8>)
    ensures
        r@ == esc(s@),
{
    let v = crate::text::str_chars(s.as_str());
    esc_exec(&v)
}

/// An optional string as a field, in executable form.
fn opt_field_str(o: &Option<String>) -> (r: Vec<u8>)
    ensures
        r@ == opt_field(view_opt_str(*o)),
{
    match o {
        None => {
            let mut v: Vec<u8> = Vec::new();
            v.push(45);
            assert(v@ =~= opt_field(None::<Seq<char>>));
            v
        },
        Some(s) => {
            let mut v: Vec<u8> = Vec::new();
            v.push(61);
            let mut e = esc_str(s);
            v.append(&mut e);
            assert(v@ =~= opt_field(Some(s@)));
            v
        },
    }
}

/// An optional character vector as a field, in executable form.
fn opt_field_chars(o: &Option<Vec<char>>) -> (r: Vec<u8>)
    ensures
        r@ == opt_field(view_opt_chars(*o)),
{
    match o {
        None => {
            let mut v: Vec<u8> = Vec::new();
            v.push(45);
            assert(v@ =~= opt_field(None::<Seq<char>>));
            v
        },
        Some(t) => {
            let mut v: Vec<u8> = Vec::new();
            v.push(61);
            let mut e = esc_exec(t);
            v.append(&mut e);
            assert(v@ =~= opt_field(Some(t@)));
            v
        },
    }
}

/// An optional number as a field, in executable form.
fn opt_num_field_exec(o: Option<usize>) -> (r: Vec<u8>)
    ensures
        r@ == opt_num_field(o),
{
    match o {
        None => {
            let mut v: Vec<u8> = Vec::new();
            v.push(45);
            assert(v@ =~= opt_num_field(None));
            v
        },
        Some(n) => {
            let mut v: Vec<u8> = Vec::new();
            v.push(61);
            let mut e = dec_bytes_exec(n as u64);
            v.append(&mut e);
            assert(v@ =~= opt_num_field(Some(n)));
            v
        },
    }
}

/// Appending a field extends the join by a separator and the field.
proof fn lemma_join_push(fs: Seq<Seq<u8>>, f: Seq<u8>)
    requires
        fs.len() >= 1,
    ensures
        join_fields(fs.push(f)) == join_fields(fs) + seq![FIELD_SEP] + f,
    decreases fs.len(),
{
    if fs.len() == 1 {
        assert(fs.push(f).drop_first() =~= seq![f]);
        assert(fs.push(f)[0] == fs[0]);
        assert(join_fields(seq![f]) == f);
        assert(join_fields(fs.push(f)) =~= join_fields(fs) + seq![FIELD_SEP] + f);
    } else {
        lemma_join_push(fs.drop_first(), f);
        assert(fs.push(f).drop_first() =~= fs.drop_first().push(f));
        assert(fs.push(f)[0] == fs[0]);
        assert(join_fields(fs.push(f)) == fs[0] + seq![FIELD_SEP] + join_fields(
            fs.drop_first().push(f),
        ));
        assert(join_fields(fs.push(f)) =~= join_fields(fs) + seq![FIELD_SEP] + f);
    }
}

/// Join a non-empty field list with separators, in executable form.
#[verifier::loop_isolation(false)]
fn join_fields_exec(fs: &Vec<Vec<u8>>) -> (r: Vec<u8>)
    requires
        fs@.len() >= 1,
    ensures
        r@ == join_fields(fs.deep_view()),
{
    let ghost dv = fs.deep_view();
    let mut out: Vec<u8> = Vec::new();
    let first = fs[0].clone();
    assert(first@ =~= dv[0]);
    let mut head = first;
    out.append(&mut head);
    assert(dv.take(1) =~= seq![dv[0]]);
    assert(join_fields(dv.take(1)) == dv[0]);
    let mut i: usize = 1;
    while i < fs.len()
        invariant
            1 <= i <= fs@.len(),
            dv == fs.deep_view(),
            out@ == join_fields(dv.take(i as int)),
        decreases fs@.len() - i,
    {
        out.push(FIELD_SEP);
        let fld = fs[i].clone();
        assert(fld@ =~= dv[i as int]);
        let mut fldm = fld;
        out.append(&mut fldm);
        proof {
            lemma_join_push(dv.take(i as int), dv[i as int]);
            assert(dv.take(i as int).push(dv[i as int]) =~= dv.take(i + 1));
        }
        i += 1;
    }
    assert(dv.take(dv.len() as int) =~= dv);
    out
}

/// Per-range fields of one more range.
proof fn lemma_ranges_pair_take(rs: Seq<ColumnRange>, i: int)
    requires
        0 <= i < rs.len(),
    ensures
        ranges_pair_fields(rs.take(i + 1)) == ranges_pair_fields(rs.take(i)) + seq![dec_bytes(
            rs[i].start as nat,
        ), dec_bytes(rs[i].end as nat)],
    decreases i,
{
    if i == 0 {
        assert(rs.take(1)[0] == rs[0]);
        assert(rs.take(1).drop_first() =~= Seq::<ColumnRange>::empty());
        assert(rs.take(0) =~= Seq::<ColumnRange>::empty());
        assert(ranges_pair_fields(rs.take(1)) =~= ranges_pair_fields(rs.take(0)) + seq![dec_bytes(
            rs[0].start as nat,
        ), dec_bytes(rs[0].end as nat)]);
    } else {
        lemma_ranges_pair_take(rs.drop_first(), i - 1);
        assert(rs.take(i + 1).drop_first() =~= rs.drop_first().take(i));
        assert(rs.take(i).drop_first() =~= rs.drop_first().take(i - 1));
        assert(rs.drop_first()[i - 1] == rs[i]);
        assert(rs.take(i + 1)[0] == rs[0]);
        assert(rs.take(i)[0] == rs[0]);
        assert(ranges_pair_fields(rs.take(i + 1)) =~= ranges_pair_fields(rs.take(i)) + seq![
            dec_bytes(rs[i].start as nat),
            dec_bytes(rs[i].end as nat),
        ]);
    }
}

/// Per-event fields of one more event.
proof fn lemma_events_triple_take(es: Seq<AuditEventV>, i: int)
    requires
        0 <= i < es.len(),
    ensures
        events_triple_fields(es.take(i + 1)) == events_triple_fields(es.take(i)) + seq![int_bytes(
            es[i].timestamp as int,
        ), esc(es[i].actor), esc(es[i].action)],
    decreases i,
{
    if i == 0 {
        assert(es.take(1)[0] == es[0]);
        assert(es.take(1).drop_first() =~= Seq::<AuditEventV>::empty());
        assert(es.take(0) =~= Seq::<AuditEventV>::empty());
        assert(events_triple_fields(es.take(1)) =~= events_triple_fields(es.take(0)) + seq![
            int_bytes(es[0].timestamp as int),
            esc(es[0].actor),
            esc(es[0].action),
        ]);
    } else {
        lemma_events_triple_take(es.drop_first(), i - 1);
        assert(es.take(i + 1).drop_first() =~= es.drop_first().take(i));
        assert(es.take(i).drop_first() =~= es.drop_first().take(i - 1));
        assert(es.drop_first()[i - 1] == es[i]);
        assert(es.take(i + 1)[0] == es[0]);
        assert(es.take(i)[0] == es[0]);
        assert(events_triple_fields(es.take(i + 1)) =~= events_triple_fields(es.take(i)) + seq![
            int_bytes(es[i].timestamp as int),
            esc(es[i].actor),
            esc(es[i].action),
        ]);
    }
}

/// The field list of a header record, in executable form.
#[verifier::loop_isolation(false)]
fn header_field_list(h: &DeckHeader) -> (r: Vec<Vec<u8>>)
    ensures
        r.deep_view() == header_fields(h@),
        r@.len() >= 1,
{
    let mut fs: Vec<Vec<u8>> = Vec::new();
    let mut tag: Vec<u8> = Vec::new();
    tag.push(72);
    assert(tag.deep_view() =~= seq![72u8]);
    let ghost d0 = fs.deep_view();
    fs.push(tag);
    assert(fs.deep_view() =~= seq![seq![72u8]]);
    let f = dec_bytes_exec(h.version as u64);
    let ghost d1 = fs.deep_view();
    assert(f.deep_view() =~= dec_bytes(h@.version as nat));
    fs.push(f);
    assert(fs.deep_view() =~= d1.push(dec_bytes(h@.version as nat)));
    let f = int_bytes_exec(h.created_at);
    let ghost d2 = fs.deep_view();
    assert(f.deep_view() =~= int_bytes(h@.created_at as int));
    fs.push(f);
    assert(fs.deep_view() =~= d2.push(int_bytes(h@.created_at as int)));
    let f = opt_field_str(&h.language);
    let ghost d3 = fs.deep_view();
    assert(f.deep_view() =~= opt_field(h@.language));
    fs.push(f);
    assert(fs.deep_view() =~= d3.push(opt_field(h@.language)));
    let f = opt_field_str(&h.template);
    let ghost d4 = fs.deep_view();
    assert(f.deep_view() =~= opt_field(h@.template));
    fs.push(f);
    assert(fs.deep_view() =~= d4.push(opt_field(h@.template)));
    let f = dec_bytes_exec(h.protected_cols.len() as u64);
    let ghost d5 = fs.deep_view();
    assert(f.deep_view() =~= dec_bytes(h@.protected_cols.len()));
    fs.push(f);
    assert(fs.deep_view() =~= d5.push(dec_bytes(h@.protected_cols.len())));
    let ghost base = fs.deep_view();
    let mut i: usize = 0;
    while i < h.protected_cols.len()
        invariant
            i <= h@.protected_cols.len(),
            fs.deep_view() == base + ranges_pair_fields(h@.protected_cols.take(i as int)),
        decreases h@.protected_cols.len() - i,
    {
        let rg = h.protected_cols[i];
        let f = dec_bytes_exec(rg.start as u64);
        let ghost da = fs.deep_view();
        assert(f.deep_view() =~= dec_bytes(rg.start as nat));
        fs.push(f);
        assert(fs.deep_view() =~= da.push(dec_bytes(rg.start as nat)));
        let f = dec_bytes_exec(rg.end as u64);
        let ghost db = fs.deep_view();
        assert(f.deep_view() =~= dec_bytes(rg.end as nat));
        fs.push(f);
        assert(fs.deep_view() =~= db.push(dec_bytes(rg.end as nat)));
        proof {
            lemma_ranges_pair_take(h@.protected_cols, i as int);
            assert(fs.deep_view() =~= base + ranges_pair_fields(
                h@.protected_cols.take(i + 1),
            ));
        }
        i += 1;
    }
    assert(h@.protected_cols.take(h@.protected_cols.len() as int) =~= h@.protected_cols);
    let mut ro: Vec<u8> = Vec::new();
    if h.readonly {
        ro.push(49);
        assert(ro.deep_view() =~= seq![49u8]);
    } else {
        ro.push(48);
        assert(ro.deep_view() =~= seq![48u8]);
    }
    let ghost d6 = fs.deep_view();
    fs.push(ro);
    assert(fs.deep_view() =~= d6.push(
        seq![
            if h@.readonly {
                49u8
            } else {
                48u8
            },
        ],
    ));
    let f = dec_bytes_exec(h.history.len() as u64);
    let ghost d7 = fs.deep_view();
    assert(f.deep_view() =~= dec_bytes(h@.history.len()));
    fs.push(f);
    assert(fs.deep_view() =~= d7.push(dec_bytes(h@.history.len())));
    let ghost base2 = fs.deep_view();
    let mut j: usize = 0;
    while j < h.history.len()
        invariant
            j <= h@.history.len(),
            fs.deep_view() == base2 + events_triple_fields(h@.history.take(j as int)),
        decreases h@.history.len() - j,
    {
        assert(h@.history[j as int] == h.history@[j as int]@);
        let f = int_bytes_exec(h.history[j].timestamp);
        let ghost da = fs.deep_view();
        assert(f.deep_view() =~= int_bytes(h@.history[j as int].timestamp as int));
        fs.push(f);
        assert(fs.deep_view() =~= da.push(int_bytes(h@.history[j as int].timestamp as int)));
        let f = esc_str(&h.history[j].actor);
        let ghost db = fs.deep_view();
        assert(f.deep_view() =~= esc(h@.history[j as int].actor));
        fs.push(f);
        assert(fs.deep_view() =~= db.push(esc(h@.history[j as int].actor)));
        let f = esc_str(&h.history[j].action);
        let ghost dc = fs.deep_view();
        assert(f.deep_view() =~= esc(h@.history[j as int].action));
        fs.push(f);
        assert(fs.deep_view() =~= dc.push(esc(h@.history[j as int].action)));
        proof {
            lemma_events_triple_take(h@.history, j as int);
            assert(fs.deep_view() =~= base2 + events_triple_fields(h@.history.take(j + 1)));
        }
        j += 1;
    }
    assert(h@.history.take(h@.history.len() as int) =~= h@.history);
    assert(fs.deep_view() =~= header_fields(h@));
    fs
}

/// The field list of a card record, in executable form.
#[verifier::loop_isolation(false)]
fn card_field_list(c: &CardRecord) -> (r: Vec<Vec<u8>>)
    ensures
        r.deep_view() == card_fields(c@),
        r@.len() >= 1,
{
    let mut fs: Vec<Vec<u8>> = Vec::new();
    let mut tag: Vec<u8> = Vec::new();
    tag.push(67);
    assert(tag.deep_view() =~= seq![67u8]);
    fs.push(tag);
    assert(fs.deep_view() =~= seq![seq![67u8]]);
    let f = opt_field_chars(&c.text);
    let ghost d1 = fs.deep_view();
    assert(f.deep_view() =~= opt_field(c@.text));
    fs.push(f);
    assert(fs.deep_view() =~= d1.push(opt_field(c@.text)));
    let f = opt_field_str(&c.punches);
    let ghost d2 = fs.deep_view();
    assert(f.deep_view() =~= opt_field(c@.punches));
    fs.push(f);
    assert(fs.deep_view() =~= d2.push(opt_field(c@.punches)));
    let mut enc: Vec<u8> = Vec::new();
    match c.encoding {
        EncodingKind::Hollerith => enc.push(104),
        EncodingKind::Ascii => enc.push(97),
        EncodingKind::Ebcdic => enc.push(101),
    }
    assert(enc.deep_view() =~= seq![encoding_byte(c@.encoding)]);
    let ghost d3 = fs.deep_view();
    fs.push(enc);
    assert(fs.deep_view() =~= d3.push(seq![encoding_byte(c@.encoding)]));
    let f = opt_num_field_exec(c.seq);
    let ghost d4 = fs.deep_view();
    assert(f.deep_view() =~= opt_num_field(c@.seq));
    fs.push(f);
    assert(fs.deep_view() =~= d4.push(opt_num_field(c@.seq)));
    let mut ty: Vec<u8> = Vec::new();
    match c.card_type {
        CardType::Code => ty.push(99),
        CardType::Data => ty.push(100),
        CardType::Jcl => ty.push(106),
        CardType::Comment => ty.push(109),
        CardType::Separator => ty.push(115),
        CardType::Patch => ty.push(112),
    }
    assert(ty.deep_view() =~= seq![card_type_byte(c@.card_type)]);
    let ghost d5 = fs.deep_view();
    fs.push(ty);
    assert(fs.deep_view() =~= d5.push(seq![card_type_byte(c@.card_type)]));
    let f = dec_bytes_exec(c.protected_cols.len() as u64);
    let ghost d6 = fs.deep_view();
    assert(f.deep_view() =~= dec_bytes(c@.protected_cols.len()));
    fs.push(f);
    assert(fs.deep_view() =~= d6.push(dec_bytes(c@.protected_cols.len())));
    let ghost base = fs.deep_view();
    let mut i: usize = 0;
    while i < c.protected_cols.len()
        invariant
            i <= c@.protected_cols.len(),
            fs.deep_view() == base + ranges_pair_fields(c@.protected_cols.take(i as int)),
        decreases c@.protected_cols.len() - i,
    {
        let rg = c.protected_cols[i];
        let f = dec_bytes_exec(rg.start as u64);
        let ghost da = fs.deep_view();
        assert(f.deep_view() =~= dec_bytes(rg.start as nat));
        fs.push(f);
        assert(fs.deep_view() =~= da.push(dec_bytes(rg.start as nat)));
        let f = dec_bytes_exec(rg.end as u64);
        let ghost db = fs.deep_view();
        assert(f.deep_view() =~= dec_bytes(rg.end as nat));
        fs.push(f);
        assert(fs.deep_view() =~= db.push(dec_bytes(rg.end as nat)));
        proof {
            lemma_ranges_pair_take(c@.protected_cols, i as int);
            assert(fs.deep_view() =~= base + ranges_pair_fields(
                c@.protected_cols.take(i + 1),
            ));
        }
        i += 1;
    }
    assert(c@.protected_cols.take(c@.protected_cols.len() as int) =~= c@.protected_cols);
    let f = opt_field_str(&c.meta.color);
    let ghost d7 = fs.deep_view();
    assert(f.deep_view() =~= opt_field(c@.meta.color));
    fs.push(f);
    assert(fs.deep_view() =~= d7.push(opt_field(c@.meta.color)));
    let f = opt_field_str(&c.meta.note);
    let ghost d8 = fs.deep_view();
    assert(f.deep_view() =~= opt_field(c@.meta.note));
    fs.push(f);
    assert(fs.deep_view() =~= d8.push(opt_field(c@.meta.note)));
    assert(fs.deep_view() =~= card_fields(c@));
    fs
}

/// Serialising one more card appends its line.
proof fn lemma_card_lines_take(cs: Seq<CardRecordV>, i: int)
    requires
        0 <= i < cs.len(),
    ensures
        card_lines(cs.take(i + 1)) == card_lines(cs.take(i)) + card_line(cs[i]) + seq![LINE_SEP],
    decreases i,
{
    if i == 0 {
        assert(cs.take(1)[0] == cs[0]);
        assert(cs.take(1).drop_first() =~= Seq::<CardRecordV>::empty());
        assert(cs.take(0) =~= Seq::<CardRecordV>::empty());
        assert(card_lines(cs.take(1)) =~= card_lines(cs.take(0)) + card_line(cs[0]) + seq![
            LINE_SEP,
        ]);
    } else {
        lemma_card_lines_take(cs.drop_first(), i - 1);
        assert(cs.take(i + 1).drop_first() =~= cs.drop_first().take(i));
        assert(cs.take(i).drop_first() =~= cs.drop_first().take(i - 1));
        assert(cs.drop_first()[i - 1] == cs[i]);
        assert(cs.take(i + 1)[0] == cs[0]);
        assert(cs.take(i)[0] == cs[0]);
        assert(card_lines(cs.take(i + 1)) =~= card_lines(cs.take(i)) + card_line(cs[i]) + seq![
            LINE_SEP,
        ]);
    }
}

/// A name for the SHA-256 digest of a byte sequence; the digest function
/// itself stays outside the library.
pub uninterp spec fn sha256_of(bytes: Seq<u8>) -> Seq<u8>;

/// Relies on sha2's `Sha256` through the `Digest` interface: the
/// thirty-two-byte digest depends on the input bytes alone.
#[verifier::external_body]
fn sha256_digest(bytes: &Vec<u8>) -> (r: Vec<u8>)
    ensures
        r@ == sha256_of(bytes@),
        r@.len() == 32,
{
    sha2::Sha256::digest(bytes.as_slice()).to_vec()
}

/// The lowercase hexadecimal digit of a value below sixteen.
pub open spec fn hex_digit(d: nat) -> char {
    if d < 10 {
        crate::text::digit_char(d)
    } else if d == 10 {
        'a'
    } else if d == 11 {
        'b'
    } else if d == 12 {
        'c'
    } else if d == 13 {
        'd'
    } else if d == 14 {
        'e'
    } else {
        'f'
    }
}

/// Lowercase hexadecimal rendering of bytes, two digits per byte.
pub open spec fn hex_of(bs: Seq<u8>) -> Seq<char>
    decreases bs.len(),
{
    if bs.len() == 0 {
        Seq::empty()
    } else {
        seq![hex_digit((bs[0] >> 4) as nat), hex_digit((bs[0] & 15) as nat)] + hex_of(
            bs.drop_first(),
        )
    }
}

/// One more byte extends the rendering by two digits.
proof fn lemma_hex_take(bs: Seq<u8>, i: int)
    requires
        0 <= i < bs.len(),
    ensures
        hex_of(bs.take(i + 1)) == hex_of(bs.take(i)) + seq![hex_digit((bs[i] >> 4) as nat),
            hex_digit((bs[i] & 15) as nat)],
    decreases i,
{
    if i == 0 {
        assert(bs.take(1)[0] == bs[0]);
        assert(bs.take(1).drop_first() =~= Seq::<u8>::empty());
        assert(bs.take(0) =~= Seq::<u8>::empty());
        assert(hex_of(bs.take(1)) =~= hex_of(bs.take(0)) + seq![hex_digit((bs[0] >> 4) as nat),
            hex_digit((bs[0] & 15) as nat)]);
    } else {
        lemma_hex_take(bs.drop_first(), i - 1);
        assert(bs.take(i + 1).drop_first() =~= bs.drop_first().take(i));
        assert(bs.take(i).drop_first() =~= bs.drop_first().take(i - 1));
        assert(bs.drop_first()[i - 1] == bs[i]);
        assert(bs.take(i + 1)[0] == bs[0]);
        assert(bs.take(i)[0] == bs[0]);
        assert(hex_of(bs.take(i + 1)) =~= hex_of(bs.take(i)) + seq![hex_digit(
            (bs[i] >> 4) as nat,
        ), hex_digit((bs[i] & 15) as nat)]);
    }
}

/// Hexadecimal digit of a value below sixteen, in executable form.
fn hex_digit_exec(d: u8) -> (r: char)
    requires
        d < 16,
    ensures
        r == hex_digit(d as nat),
{
    if d < 10 {
        crate::text::digit_to_char(d as u64)
    } else if d == 10 {
        'a'
    } else if d == 11 {
        'b'
    } else if d == 12 {
        'c'
    } else if d == 13 {
        'd'
    } else if d == 14 {
        'e'
    } else {
        'f'
    }
}

/// Lowercase hexadecimal rendering, in executable form.
#[verifier::loop_isolation(false)]
fn hex_chars(bs: &Vec<u8>) -> (r: Vec<char>)
    ensures
        r@ == hex_of(bs@),
{
    let mut out: Vec<char> = Vec::new();
    let mut i: usize = 0;
    assert(bs@.take(0) =~= Seq::<u8>::empty());
    while i < bs.len()
        invariant
            i <= bs@.len(),
            out@ == hex_of(bs@.take(i as int)),
        decreases bs@.len() - i,
    {
        let b = bs[i];
        proof {
            lemma_hex_take(bs@, i as int);
            assert((b >> 4) < 16 && (b & 15) < 16) by (bit_vector);
        }
        out.push(hex_digit_exec(b >> 4));
        out.push(hex_digit_exec(b & 15));
        assert(out@ =~= hex_of(bs@.take(i + 1)));
        i += 1;
    }
    assert(bs@.take(bs@.len() as int) =~= bs@);
    out
}

impl Deck {
    /// The deck in its persisted form: the header line, then one line per
    /// card, a pure function of the deck's content.
    #[verifier::loop_isolation(false)]
    pub fn to_bytes(&self) -> (r: Vec<u8>)
        ensures
            r@ == ser_deck(self@),
    {
        let hf = header_field_list(&self.header);
        let mut out = join_fields_exec(&hf);
        assert(out@ == header_line(self@.header));
        out.push(LINE_SEP);
        let ghost cs = self@.cards;
        assert(cs.take(0) =~= Seq::<CardRecordV>::empty());
        let mut i: usize = 0;
        while i < self.cards.len()
            invariant
                i <= cs.len(),
                cs == self@.cards,
                cs.len() == self.cards@.len(),
                out@ == header_line(self@.header) + seq![LINE_SEP] + card_lines(
                    cs.take(i as int),
                ),
            decreases cs.len() - i,
        {
            assert(cs[i as int] == self.cards@[i as int]@);
            let cf = card_field_list(&self.cards[i]);
            let mut line = join_fields_exec(&cf);
            out.append(&mut line);
            out.push(LINE_SEP);
            proof {
                lemma_card_lines_take(cs, i as int);
                assert(out@ =~= header_line(self@.header) + seq![LINE_SEP] + card_lines(
                    cs.take(i + 1),
                ));
            }
            i += 1;
        }
        assert(cs.take(cs.len() as int) =~= cs);
        out
    }

    /// A deterministic content digest: the lowercase hexadecimal SHA-256
    /// of the deck's persisted form. Decks of equal content (header,
    /// cards and history alike) always hash alike.
    pub fn hash(&self) -> (r: String)
        ensures
            r@ == hex_of(sha256_of(ser_deck(self@))),
            r@.len() == 64,
    {
        let bytes = self.to_bytes();
        let digest = sha256_digest(&bytes);
        let chars = hex_chars(&digest);
        proof {
            lemma_hex_len(sha256_of(ser_deck(self@)));
        }
        crate::text::chars_to_string(&chars)
    }
}

/// `find_byte` finds nothing before the first occurrence.
proof fn lemma_find_byte_lower(bs: Seq<u8>, b: u8, j: int)
    requires
        0 <= j <= bs.len(),
        forall|k: int| 0 <= k < j ==> bs[k] != b,
    ensures
        find_byte(bs, b) >= j,
        find_byte(bs, b) >= 0,
    decreases bs.len(),
{
    if bs.len() == 0 {
    } else if bs[0] == b {
        assert(j == 0);
    } else {
        if j > 0 {
            lemma_find_byte_lower(bs.drop_first(), b, j - 1);
        } else {
            lemma_find_byte_lower(bs.drop_first(), b, 0);
        }
    }
}

/// Cut a byte stream into lines, as [`split_blines`] describes.
#[verifier::loop_isolation(false)]
#[verifier::rlimit(60)]
fn split_blines_exec(bytes: &[u8]) -> (r: Vec<Vec<u8>>)
    ensures
        r.deep_view() == split_blines(bytes@),
{
    let mut r: Vec<Vec<u8>> = Vec::new();
    let mut pos: usize = 0;
    proof {
        assert(r.deep_view() =~= Seq::<Seq<u8>>::empty());
        assert(bytes@.skip(0) =~= bytes@);
    }
    while pos < bytes.len()
        invariant
            pos <= bytes@.len(),
            r.deep_view() + split_blines(bytes@.skip(pos as int)) == split_blines(bytes@),
        decreases bytes@.len() - pos,
    {
        let ghost suffix = bytes@.skip(pos as int);
        let mut j: usize = pos;
        while j < bytes.len() && bytes[j] != LINE_SEP
            invariant
                pos <= j <= bytes@.len(),
                forall|k: int| pos <= k < j ==> bytes@[k] != LINE_SEP,
            decreases bytes@.len() - j,
        {
            j += 1;
        }
        proof {
            lemma_find_byte_at(suffix, LINE_SEP, j - pos);
        }
        let end = if j > pos && bytes[j - 1] == 13 {
            j - 1
        } else {
            j
        };
        let mut line: Vec<u8> = Vec::new();
        let mut k: usize = pos;
        while k < end
            invariant
                pos <= k <= end,
                end <= bytes@.len(),
                line@ == bytes@.subrange(pos as int, k as int),
            decreases end - k,
        {
            line.push(bytes[k]);
            assert(line@ =~= bytes@.subrange(pos as int, k + 1));
            k += 1;
        }
        proof {
            let seg = suffix.take(j - pos);
            assert(seg =~= bytes@.subrange(pos as int, j as int));
            if j > pos && bytes@[j - 1] == 13 {
                assert(seg.last() == 13);
                assert(strip_cr_b(seg) =~= bytes@.subrange(pos as int, end as int));
            } else {
                assert(strip_cr_b(seg) =~= bytes@.subrange(pos as int, end as int));
            }
            assert(line@ == strip_cr_b(seg));
            if j == bytes@.len() {
                assert(suffix.take(j - pos) =~= suffix);
                assert(split_blines(suffix) == seq![strip_cr_b(suffix)]);
            } else {
                assert(split_blines(suffix) == seq![strip_cr_b(seg)] + split_blines(
                    suffix.skip(j - pos + 1),
                ));
                assert(suffix.skip(j - pos + 1) =~= bytes@.skip(j + 1));
            }
        }
        let ghost rdv = r.deep_view();
        assert(line.deep_view() =~= line@);
        r.push(line);
        assert(r.deep_view() =~= rdv.push(line@));
        if j < bytes.len() {
            pos = j + 1;
        } else {
            pos = bytes.len();
            assert(bytes@.skip(pos as int) =~= Seq::<u8>::empty());
        }
        assert(r.deep_view() + split_blines(bytes@.skip(pos as int)) =~= split_blines(bytes@));
    }
    assert(bytes@.skip(pos as int) =~= Seq::<u8>::empty());
    assert(r.deep_view() =~= split_blines(bytes@));
    r
}

/// Cut one record line into its fields, as [`split_fields`] describes.
#[verifier::loop_isolation(false)]
fn split_fields_exec(l: &Vec<u8>) -> (r: Vec<Vec<u8>>)
    ensures
        r.deep_view() == split_fields(l@),
        r@.len() >= 1,
{
    let mut r: Vec<Vec<u8>> = Vec::new();
    let mut pos: usize = 0;
    proof {
        assert(r.deep_view() =~= Seq::<Seq<u8>>::empty());
        assert(l@.skip(0) =~= l@);
    }
    loop
        invariant
            pos <= l@.len(),
            r.deep_view() + split_fields(l@.skip(pos as int)) == split_fields(l@),
        decreases l@.len() - pos + 1,
    {
        let ghost suffix = l@.skip(pos as int);
        let mut j: usize = pos;
        while j < l.len() && l[j] != FIELD_SEP
            invariant
                pos <= j <= l@.len(),
                forall|k: int| pos <= k < j ==> l@[k] != FIELD_SEP,
            decreases l@.len() - j,
        {
            j += 1;
        }
        proof {
            lemma_find_byte_at(suffix, FIELD_SEP, j - pos);
        }
        let mut field: Vec<u8> = Vec::new();
        let mut k: usize = pos;
        while k < j
            invariant
                pos <= k <= j,
                j <= l@.len(),
                field@ == l@.subrange(pos as int, k as int),
            decreases j - k,
        {
            field.push(l[k]);
            assert(field@ =~= l@.subrange(pos as int, k + 1));
            k += 1;
        }
        proof {
            assert(suffix.take(j - pos) =~= l@.subrange(pos as int, j as int));
            if j == l@.len() {
                assert(suffix.take(j - pos) =~= suffix);
                assert(split_fields(suffix) == seq![suffix]);
                assert(field@ == suffix);
            } else {
                assert(split_fields(suffix) == seq![suffix.take(j - pos)] + split_fields(
                    suffix.skip(j - pos + 1),
                ));
                assert(suffix.skip(j - pos + 1) =~= l@.skip(j + 1));
            }
        }
        let ghost rdv = r.deep_view();
        assert(field.deep_view() =~= field@);
        r.push(field);
        assert(r.deep_view() =~= rdv.push(field@));
        if j < l.len() {
            pos = j + 1;
            assert(r.deep_view() + split_fields(l@.skip(pos as int)) =~= split_fields(l@));
        } else {
            proof {
                assert(r.deep_view() + Seq::<Seq<u8>>::empty() =~= split_fields(l@));
            }
            break;
        }
    }
    r
}

/// Whether a line holds only blanks and tabs, in executable form.
fn is_blank_exec(l: &Vec<u8>) -> (r: bool)
    ensures
        r == is_blank_line(l@),
{
    let mut i: usize = 0;
    while i < l.len()
        invariant
            i <= l@.len(),
            forall|k: int| 0 <= k < i ==> #[trigger] l@[k] == 32 || l@[k] == 9,
        decreases l@.len() - i,
    {
        if l[i] != 32 && l[i] != 9 {
            return false;
        }
        i += 1;
    }
    true
}

/// Read a digit field, in executable form.
#[verifier::loop_isolation(false)]
fn parse_nat_exec(f: &Vec<u8>) -> (r: Option<u128>)
    ensures
        match r {
            Some(v) => parse_nat(f@) == Some(v as nat),
            None => parse_nat(f@) is None,
        },
{
    if f.len() < 1 || f.len() > 20 {
        return None;
    }
    if f.len() > 1 && f[0] == 48 {
        return None;
    }
    let mut acc: u128 = 0;
    let mut j: usize = 0;
    proof {
        assert(f@.take(0) =~= Seq::<u8>::empty());
        lemma_pow10_20();
    }
    while j < f.len()
        invariant
            j <= f@.len() <= 20,
            all_digits(f@.take(j as int)),
            acc == dec_val(f@.take(j as int)),
            acc < pow10(j as nat),
        decreases f@.len() - j,
    {
        let b = f[j];
        if b < 48 || b > 57 {
            assert(!all_digits(f@));
            return None;
        }
        proof {
            assert(f@.take(j + 1).drop_last() =~= f@.take(j as int));
            assert(f@.take(j + 1).last() == f@[j as int]);
            assert(pow10((j + 1) as nat) == 10 * pow10(j as nat));
            assert(acc * 10 + 9 < 10 * pow10(j as nat)) by (nonlinear_arith)
                requires
                    acc < pow10(j as nat),
            ;
            lemma_pow10_mono(j as nat);
        }
        acc = acc * 10 + ((b - 48) as u128);
        proof {
            assert(all_digits(f@.take(j + 1)));
        }
        j += 1;
    }
    assert(f@.take(f@.len() as int) =~= f@);
    Some(acc)
}

/// Powers of ten up to twenty digits fit well inside 128 bits.
proof fn lemma_pow10_mono(k: nat)
    requires
        k <= 19,
    ensures
        pow10((k + 1) as nat) <= pow10(20),
    decreases 20 - k,
{
    lemma_pow10_20();
    lemma_pow10_mono_rec((k + 1) as nat, 20);
}

/// Powers of ten grow with the exponent.
proof fn lemma_pow10_mono_rec(a: nat, b: nat)
    requires
        a <= b,
    ensures
        pow10(a) <= pow10(b),
    decreases b - a,
{
    if a < b {
        lemma_pow10_mono_rec(a, (b - 1) as nat);
        assert(pow10(b) == 10 * pow10((b - 1) as nat));
        assert(pow10(a) >= 1) by {
            lemma_pow10_pos(a);
        }
        lemma_pow10_pos((b - 1) as nat);
    }
}

/// Powers of ten are positive.
proof fn lemma_pow10_pos(k: nat)
    ensures
        pow10(k) >= 1,
    decreases k,
{
    if k > 0 {
        lemma_pow10_pos((k - 1) as nat);
    }
}

/// Read a signed decimal field, in executable form.
fn parse_int_exec(f: &Vec<u8>) -> (r: Option<i128>)
    ensures
        match r {
            Some(v) => parse_int(f@) == Some(v as int),
            None => parse_int(f@) is None,
        },
{
    if f.len() >= 1 && f[0] == 45 {
        let mut rest: Vec<u8> = Vec::new();
        let mut k: usize = 1;
        while k < f.len()
            invariant
                1 <= k <= f@.len(),
                rest@ == f@.subrange(1, k as int),
            decreases f@.len() - k,
        {
            rest.push(f[k]);
            assert(rest@ =~= f@.subrange(1, k + 1));
            k += 1;
        }
        assert(rest@ =~= f@.skip(1));
        match parse_nat_exec(&rest) {
            Some(v) => {
                proof {
                    lemma_pow10_20();
                    lemma_dec_val_bound(rest@);
                    assert(parse_nat(rest@) == Some(v as nat));
                    assert(rest@.len() <= 20);
                    lemma_pow10_mono_rec(rest@.len(), 20);
                    assert((v as nat) < 100000000000000000000);
                }
                Some(-(v as i128))
            },
            None => None,
        }
    } else {
        match parse_nat_exec(f) {
            Some(v) => {
                proof {
                    lemma_pow10_20();
                    lemma_dec_val_bound(f@);
                    assert(parse_nat(f@) == Some(v as nat));
                    assert(f@.len() <= 20);
                    lemma_pow10_mono_rec(f@.len(), 20);
                    assert((v as nat) < 100000000000000000000);
                }
                Some(v as i128)
            },
            None => None,
        }
    }
}

/// Relies on `char::from_u32` of std: it returns the character of a code
/// point exactly when the value is a Unicode scalar (not a surrogate, not
/// beyond the maximum code point).
#[verifier::external_body]
fn char_from_u32(u: u32) -> (r: Option<char>)
    ensures
        r is Some <==> valid_scalar_nat(u as nat),
        r matches Some(c) ==> c as u32 == u,
{
    char::from_u32(u)
}

/// Unescape a field back into characters, as [`unesc`] describes.
#[verifier::loop_isolation(false)]
#[verifier::rlimit(100)]
fn unesc_exec(f: &Vec<u8>) -> (r: Option<Vec<char>>)
    ensures
        match r {
            Some(v) => unesc(f@) == Some(v@),
            None => unesc(f@) is None,
        },
{
    let mut out: Vec<char> = Vec::new();
    let mut pos: usize = 0;
    proof {
        assert(f@.skip(0) =~= f@);
    }
    while pos < f.len()
        invariant
            pos <= f@.len(),
            unesc(f@) == (match unesc(f@.skip(pos as int)) {
                Some(rest) => Some(out@ + rest),
                None => None::<Seq<char>>,
            }),
        decreases f@.len() - pos,
    {
        let ghost suffix = f@.skip(pos as int);
        let b = f[pos];
        assert(suffix[0] == b);
        if b != ESCAPE {
            if 32 <= b && b <= 126 && b != FIELD_SEP {
                let ghost out0 = out@;
                out.push(b as char);
                proof {
                    assert(suffix.drop_first() =~= f@.skip(pos + 1));
                    assert(out@ =~= out0 + seq![b as char]);
                    match unesc(f@.skip(pos + 1)) {
                        Some(rest2) => {
                            assert(unesc(suffix) == Some(seq![b as char] + rest2));
                            assert(out0 + (seq![b as char] + rest2) =~= out@ + rest2);
                        },
                        None => {
                            assert(unesc(suffix) is None);
                        },
                    }
                }
                pos += 1;
            } else {
                assert(unesc(suffix) is None);
                return None;
            }
        } else {
            let mut j: usize = pos + 1;
            while j < f.len() && j - pos <= 8 && f[j] != ESCAPE_END
                invariant
                    pos + 1 <= j <= f@.len(),
                    j <= pos + 9,
                    forall|k: int| pos + 1 <= k < j ==> f@[k] != ESCAPE_END,
                decreases f@.len() - j,
            {
                j += 1;
            }
            if j >= f.len() {
                proof {
                    assert(forall|k: int| 0 <= k < j - pos ==> suffix[k] != ESCAPE_END);
                    lemma_find_byte_lower(suffix, ESCAPE_END, j - pos);
                    assert(find_byte(suffix, ESCAPE_END) >= suffix.len());
                    assert(unesc(suffix) is None);
                }
                return None;
            }
            if j - pos > 8 {
                proof {
                    assert(forall|k: int| 0 <= k < j - pos ==> suffix[k] != ESCAPE_END);
                    lemma_find_byte_lower(suffix, ESCAPE_END, j - pos);
                    assert(find_byte(suffix, ESCAPE_END) >= 9);
                    assert(unesc(suffix) is None);
                }
                return None;
            }
            assert(f@[j as int] == ESCAPE_END);
            proof {
                lemma_find_byte_at(suffix, ESCAPE_END, j - pos);
            }
            if j == pos + 1 {
                assert(unesc(suffix) is None);
                return None;
            }
            let ghost digits = suffix.subrange(1, j - pos);
            assert(digits =~= f@.subrange(pos + 1, j as int));
            let mut acc: u32 = 0;
            let mut k: usize = pos + 1;
            proof {
                assert(f@.subrange(pos + 1, pos + 1) =~= Seq::<u8>::empty());
                lemma_pow10_20();
            }
            while k < j
                invariant
                    pos + 1 <= k <= j,
                    j <= pos + 8,
                    j < f@.len(),
                    all_digits(f@.subrange(pos + 1, k as int)),
                    acc == dec_val(f@.subrange(pos + 1, k as int)),
                    acc < pow10((k - pos - 1) as nat),
                decreases j - k,
            {
                let d = f[k];
                if d < 48 || d > 57 {
                    proof {
                        assert(digits[k - pos - 1] == f@[k as int]);
                        assert(!all_digits(digits));
                        assert(unesc(suffix) is None);
                    }
                    return None;
                }
                proof {
                    assert(f@.subrange(pos + 1, k + 1).drop_last() =~= f@.subrange(
                        pos + 1,
                        k as int,
                    ));
                    assert(f@.subrange(pos + 1, k + 1).last() == f@[k as int]);
                    assert(pow10((k + 1 - pos - 1) as nat) == 10 * pow10((k - pos - 1) as nat));
                    assert(acc * 10 + 9 < 10 * pow10((k - pos - 1) as nat)) by (nonlinear_arith)
                        requires
                            acc < pow10((k - pos - 1) as nat),
                    ;
                    lemma_pow10_mono_rec((k + 1 - pos - 1) as nat, 7);
                    assert(all_digits(f@.subrange(pos + 1, k + 1)));
                }
                acc = acc * 10 + ((d - 48) as u32);
                k += 1;
            }
            assert(f@.subrange(pos + 1, j as int) =~= digits);
            assert(acc == dec_val(digits));
            assert(all_digits(digits));
            match char_from_u32(acc) {
                Some(c) => {
                    let ghost out0 = out@;
                    out.push(c);
                    proof {
                        assert(valid_scalar_nat(dec_val(digits)));
                        vstd::utf8::char_u32_cast(c, acc);
                        assert((dec_val(digits) as u32) as char == c);
                        assert(suffix.skip(j - pos + 1) =~= f@.skip(j + 1));
                        assert(out@ =~= out0 + seq![c]);
                        match unesc(f@.skip(j + 1)) {
                            Some(rest2) => {
                                assert(unesc(suffix) == Some(seq![c] + rest2));
                                assert(out0 + (seq![c] + rest2) =~= out@ + rest2);
                            },
                            None => {
                                assert(unesc(suffix) is None);
                            },
                        }
                    }
                    pos = j + 1;
                },
                None => {
                    proof {
                        assert(!valid_scalar_nat(dec_val(digits)));
                        assert(unesc(suffix) is None);
                    }
                    return None;
                },
            }
        }
    }
    proof {
        assert(f@.skip(pos as int) =~= Seq::<u8>::empty());
        assert(unesc(Seq::<u8>::empty()) == Some(Seq::<char>::empty()));
        assert(out@ + Seq::<char>::empty() =~= out@);
    }
    Some(out)
}

/// The bytes of `f` from `start` on.
fn tail_from(f: &Vec<u8>, start: usize) -> (r: Vec<u8>)
    requires
        start <= f@.len(),
    ensures
        r@ == f@.skip(start as int),
{
    let mut r: Vec<u8> = Vec::new();
    let mut k: usize = start;
    while k < f.len()
        invariant
            start <= k <= f@.len(),
            r@ == f@.subrange(start as int, k as int),
        decreases f@.len() - k,
    {
        r.push(f[k]);
        assert(r@ =~= f@.subrange(start as int, k + 1));
        k += 1;
    }
    assert(r@ =~= f@.skip(start as int));
    r
}

/// Read an optional-string field, in executable form.
fn parse_opt_field_exec(f: &Vec<u8>) -> (r: Option<Option<Vec<char>>>)
    ensures
        match r {
            Some(o) => parse_opt_field(f@) == Some(view_opt_chars(o)),
            None => parse_opt_field(f@) is None,
        },
{
    if f.len() == 1 && f[0] == 45 {
        assert(f@ =~= seq![45u8]);
        Some(None)
    } else if f.len() >= 1 && f[0] == 61 {
        proof {
            if f@ == seq![45u8] {
                assert(f@[0] == 45);
            }
        }
        let rest = tail_from(f, 1);
        match unesc_exec(&rest) {
            Some(v) => Some(Some(v)),
            None => None,
        }
    } else {
        proof {
            if f@ == seq![45u8] {
                assert(f@.len() == 1 && f@[0] == 45);
            }
        }
        None
    }
}

/// Read an optional-number field, in executable form.
fn parse_opt_num_exec(f: &Vec<u8>) -> (r: Option<Option<u128>>)
    ensures
        match r {
            Some(Some(v)) => parse_opt_num(f@) == Some(Some(v as nat)),
            Some(None) => parse_opt_num(f@) == Some(None::<nat>),
            None => parse_opt_num(f@) is None,
        },
{
    if f.len() == 1 && f[0] == 45 {
        assert(f@ =~= seq![45u8]);
        Some(None)
    } else if f.len() >= 2 && f[0] == 61 {
        proof {
            if f@ == seq![45u8] {
                assert(f@.len() == 1);
            }
        }
        let rest = tail_from(f, 1);
        match parse_nat_exec(&rest) {
            Some(v) => Some(Some(v)),
            None => None,
        }
    } else {
        proof {
            if f@ == seq![45u8] {
                assert(f@.len() == 1 && f@[0] == 45);
            }
        }
        None
    }
}

/// Read the range list starting at `pos`, in executable form.
#[verifier::loop_isolation(false)]
fn parse_ranges_exec(fs: &Vec<Vec<u8>>, pos0: usize, count0: u128) -> (r: Option<
    (Vec<ColumnRange>, usize),
>)
    requires
        pos0 <= fs@.len(),
    ensures
        match r {
            Some((v, p)) => parse_ranges_from(fs.deep_view(), pos0 as int, count0 as nat) == Some(
                (v@, p as int),
            ) && p <= fs@.len(),
            None => parse_ranges_from(fs.deep_view(), pos0 as int, count0 as nat) is None,
        },
{
    let ghost dv = fs.deep_view();
    let mut acc: Vec<ColumnRange> = Vec::new();
    let mut pos: usize = pos0;
    let mut count: u128 = count0;
    while count > 0
        invariant
            pos <= fs@.len(),
            dv == fs.deep_view(),
            dv.len() == fs@.len(),
            count <= count0,
            ({
                match parse_ranges_from(dv, pos as int, count as nat) {
                    Some((rest, e)) => parse_ranges_from(dv, pos0 as int, count0 as nat) == Some(
                        (acc@ + rest, e),
                    ),
                    None => parse_ranges_from(dv, pos0 as int, count0 as nat) is None,
                }
            }),
        decreases count,
    {
        if fs.len() - pos < 2 {
            assert(parse_ranges_from(dv, pos as int, count as nat) is None);
            return None;
        }
        assert(dv[pos as int] == fs@[pos as int]@);
        assert(dv[pos as int + 1] == fs@[pos as int + 1]@);
        let s = match parse_nat_exec(&fs[pos]) {
            Some(v) => v,
            None => {
                assert(fs[pos as int]@ == dv[pos as int]);
                assert(parse_ranges_from(dv, pos as int, count as nat) is None);
                return None;
            },
        };
        let e = match parse_nat_exec(&fs[pos + 1]) {
            Some(v) => v,
            None => {
                assert(parse_ranges_from(dv, pos as int, count as nat) is None);
                return None;
            },
        };
        if s > (usize::MAX as u128) || e > (usize::MAX as u128) {
            assert(parse_ranges_from(dv, pos as int, count as nat) is None);
            return None;
        }
        let ghost rng = ColumnRange { start: s as usize, end: e as usize };
        let ghost before = acc@;
        acc.push(ColumnRange { start: s as usize, end: e as usize });
        proof {
            assert(parse_ranges_from(dv, pos as int, count as nat) == (match parse_ranges_from(
                dv,
                pos + 2,
                (count - 1) as nat,
            ) {
                Some((rest, ep)) => Some((seq![rng] + rest, ep)),
                None => None,
            }));
            match parse_ranges_from(dv, pos + 2, (count - 1) as nat) {
                Some((rest, ep)) => {
                    assert(before + (seq![rng] + rest) =~= acc@ + rest);
                },
                None => {},
            }
        }
        pos = pos + 2;
        count = count - 1;
    }
    assert(parse_ranges_from(dv, pos as int, 0) == Some((Seq::<ColumnRange>::empty(), pos as int)));
    assert(acc@ + Seq::<ColumnRange>::empty() =~= acc@);
    Some((acc, pos))
}

/// Read the audit history starting at `pos`, in executable form.
#[verifier::loop_isolation(false)]
fn parse_events_exec(fs: &Vec<Vec<u8>>, pos0: usize, count0: u128) -> (r: Option<
    (Vec<AuditEvent>, usize),
>)
    requires
        pos0 <= fs@.len(),
    ensures
        match r {
            Some((v, p)) => parse_events_from(fs.deep_view(), pos0 as int, count0 as nat) == Some(
                (v@.map_values(|ev: AuditEvent| ev@), p as int),
            ) && p <= fs@.len(),
            None => parse_events_from(fs.deep_view(), pos0 as int, count0 as nat) is None,
        },
{
    let ghost dv = fs.deep_view();
    let mut acc: Vec<AuditEvent> = Vec::new();
    let mut pos: usize = pos0;
    let mut count: u128 = count0;
    while count > 0
        invariant
            pos <= fs@.len(),
            dv == fs.deep_view(),
            dv.len() == fs@.len(),
            ({
                match parse_events_from(dv, pos as int, count as nat) {
                    Some((rest, e)) => parse_events_from(dv, pos0 as int, count0 as nat) == Some(
                        (acc@.map_values(|ev: AuditEvent| ev@) + rest, e),
                    ),
                    None => parse_events_from(dv, pos0 as int, count0 as nat) is None,
                }
            }),
        decreases count,
    {
        if fs.len() - pos < 3 {
            assert(parse_events_from(dv, pos as int, count as nat) is None);
            return None;
        }
        assert(dv[pos as int] == fs@[pos as int]@);
        assert(dv[pos as int + 1] == fs@[pos as int + 1]@);
        assert(dv[pos as int + 2] == fs@[pos as int + 2]@);
        let ts = match parse_int_exec(&fs[pos]) {
            Some(v) => v,
            None => {
                assert(parse_events_from(dv, pos as int, count as nat) is None);
                return None;
            },
        };
        if ts < (i64::MIN as i128) || ts > (i64::MAX as i128) {
            assert(parse_events_from(dv, pos as int, count as nat) is None);
            return None;
        }
        let actor = match unesc_exec(&fs[pos + 1]) {
            Some(v) => v,
            None => {
                assert(parse_events_from(dv, pos as int, count as nat) is None);
                return None;
            },
        };
        let action = match unesc_exec(&fs[pos + 2]) {
            Some(v) => v,
            None => {
                assert(parse_events_from(dv, pos as int, count as nat) is None);
                return None;
            },
        };
        let ev = AuditEvent {
            timestamp: ts as i64,
            actor: crate::text::chars_to_string(&actor),
            action: crate::text::chars_to_string(&action),
        };
        let ghost evv = AuditEventV { timestamp: ts as i64, actor: actor@, action: action@ };
        assert(ev@ == evv);
        let ghost before = acc@.map_values(|x: AuditEvent| x@);
        acc.push(ev);
        proof {
            assert(acc@.map_values(|x: AuditEvent| x@) =~= before.push(evv));
            assert(parse_events_from(dv, pos as int, count as nat) == (match parse_events_from(
                dv,
                pos + 3,
                (count - 1) as nat,
            ) {
                Some((rest, ep)) => Some((seq![evv] + rest, ep)),
                None => None,
            }));
            match parse_events_from(dv, pos + 3, (count - 1) as nat) {
                Some((rest, ep)) => {
                    assert(before + (seq![evv] + rest) =~= acc@.map_values(
                        |x: AuditEvent| x@,
                    ) + rest);
                },
                None => {},
            }
        }
        pos = pos + 3;
        count = count - 1;
    }
    assert(parse_events_from(dv, pos as int, 0) == Some(
        (Seq::<AuditEventV>::empty(), pos as int),
    ));
    assert(acc@.map_values(|x: AuditEvent| x@) + Seq::<AuditEventV>::empty() =~= acc@.map_values(
        |x: AuditEvent| x@,
    ));
    Some((acc, pos))
}

/// Read a header record from its fields, in executable form.
#[verifier::loop_isolation(false)]
#[verifier::rlimit(60)]
fn parse_header_exec(fs: &Vec<Vec<u8>>) -> (r: Option<DeckHeader>)
    ensures
        match r {
            Some(h) => parse_header(fs.deep_view()) == Some(h@),
            None => parse_header(fs.deep_view()) is None,
        },
{
    let ghost dv = fs.deep_view();
    if fs.len() < 6 {
        return None;
    }
    assert(dv[0] == fs@[0]@);
    assert(dv[1] == fs@[1]@);
    assert(dv[2] == fs@[2]@);
    assert(dv[3] == fs@[3]@);
    assert(dv[4] == fs@[4]@);
    assert(dv[5] == fs@[5]@);
    if !(fs[0].len() == 1 && fs[0][0] == 72) {
        proof {
            if dv[0] == seq![72u8] {
                assert(dv[0].len() == 1 && dv[0][0] == 72);
            }
        }
        return None;
    }
    assert(dv[0] =~= seq![72u8]);
    let version = match parse_nat_exec(&fs[1]) {
        Some(v) => v,
        None => {
            return None;
        },
    };
    if version > (u8::MAX as u128) {
        return None;
    }
    let created = match parse_int_exec(&fs[2]) {
        Some(v) => v,
        None => {
            return None;
        },
    };
    if created < (i64::MIN as i128) || created > (i64::MAX as i128) {
        return None;
    }
    let language = match parse_opt_field_exec(&fs[3]) {
        Some(o) => o,
        None => {
            return None;
        },
    };
    let template = match parse_opt_field_exec(&fs[4]) {
        Some(o) => o,
        None => {
            return None;
        },
    };
    let k = match parse_nat_exec(&fs[5]) {
        Some(v) => v,
        None => {
            return None;
        },
    };
    let (ranges, pos) = match parse_ranges_exec(fs, 6, k) {
        Some(p) => p,
        None => {
            return None;
        },
    };
    if fs.len() - pos < 2 {
        return None;
    }
    assert(dv[pos as int] == fs@[pos as int]@);
    assert(dv[pos as int + 1] == fs@[pos as int + 1]@);
    if !(fs[pos].len() == 1 && (fs[pos][0] == 48 || fs[pos][0] == 49)) {
        proof {
            if dv[pos as int] == seq![48u8] {
                assert(dv[pos as int].len() == 1 && dv[pos as int][0] == 48);
            }
            if dv[pos as int] == seq![49u8] {
                assert(dv[pos as int].len() == 1 && dv[pos as int][0] == 49);
            }
        }
        return None;
    }
    let readonly = fs[pos][0] == 49;
    proof {
        if fs@[pos as int]@[0] == 49 {
            assert(dv[pos as int] =~= seq![49u8]);
        } else {
            assert(dv[pos as int] =~= seq![48u8]);
            lemma_single_neq(48, 49);
        }
    }
    let m = match parse_nat_exec(&fs[pos + 1]) {
        Some(v) => v,
        None => {
            return None;
        },
    };
    let (history, end_pos) = match parse_events_exec(fs, pos + 2, m) {
        Some(p) => p,
        None => {
            return None;
        },
    };
    if end_pos != fs.len() {
        return None;
    }
    let language_s = match language {
        Some(v) => Some(crate::text::chars_to_string(&v)),
        None => None,
    };
    let template_s = match template {
        Some(v) => Some(crate::text::chars_to_string(&v)),
        None => None,
    };
    let h = DeckHeader {
        version: version as u8,
        created_at: created as i64,
        language: language_s,
        template: template_s,
        protected_cols: ranges,
        readonly,
        history,
    };
    proof {
        assert(h@.history =~= history@.map_values(|ev: AuditEvent| ev@));
    }
    assert(parse_header(dv) == Some(h@));
    Some(h)
}

/// Read a card record from its fields, in executable form.
#[verifier::loop_isolation(false)]
#[verifier::rlimit(60)]
fn parse_card_exec(fs: &Vec<Vec<u8>>) -> (r: Option<CardRecord>)
    ensures
        match r {
            Some(c) => parse_card(fs.deep_view()) == Some(c@),
            None => parse_card(fs.deep_view()) is None,
        },
{
    let ghost dv = fs.deep_view();
    if fs.len() < 7 {
        return None;
    }
    assert(dv[0] == fs@[0]@);
    assert(dv[1] == fs@[1]@);
    assert(dv[2] == fs@[2]@);
    assert(dv[3] == fs@[3]@);
    assert(dv[4] == fs@[4]@);
    assert(dv[5] == fs@[5]@);
    assert(dv[6] == fs@[6]@);
    if !(fs[0].len() == 1 && fs[0][0] == 67) {
        proof {
            if dv[0] == seq![67u8] {
                assert(dv[0].len() == 1 && dv[0][0] == 67);
            }
        }
        return None;
    }
    assert(dv[0] =~= seq![67u8]);
    let text = match parse_opt_field_exec(&fs[1]) {
        Some(o) => o,
        None => {
            return None;
        },
    };
    let punches = match parse_opt_field_exec(&fs[2]) {
        Some(o) => o,
        None => {
            return None;
        },
    };
    let encoding = if fs[3].len() == 1 && fs[3][0] == 104 {
        assert(dv[3] =~= seq![104u8]);
        EncodingKind::Hollerith
    } else if fs[3].len() == 1 && fs[3][0] == 97 {
        assert(dv[3] =~= seq![97u8]);
        proof {
            lemma_single_neq(97, 104);
        }
        EncodingKind::Ascii
    } else if fs[3].len() == 1 && fs[3][0] == 101 {
        assert(dv[3] =~= seq![101u8]);
        proof {
            lemma_single_neq(101, 104);
            lemma_single_neq(101, 97);
        }
        EncodingKind::Ebcdic
    } else {
        proof {
            if dv[3] == seq![104u8] {
                assert(dv[3].len() == 1 && dv[3][0] == 104);
            }
            if dv[3] == seq![97u8] {
                assert(dv[3].len() == 1 && dv[3][0] == 97);
            }
            if dv[3] == seq![101u8] {
                assert(dv[3].len() == 1 && dv[3][0] == 101);
            }
        }
        return None;
    };
    assert(parse_encoding(dv[3]) == Some(encoding));
    let seqno = match parse_opt_num_exec(&fs[4]) {
        Some(o) => o,
        None => {
            return None;
        },
    };
    let seqno_usize = match seqno {
        Some(n) => {
            if n > (usize::MAX as u128) {
                return None;
            }
            Some(n as usize)
        },
        None => None,
    };
    let card_type = if fs[5].len() == 1 && fs[5][0] == 99 {
        assert(dv[5] =~= seq![99u8]);
        CardType::Code
    } else if fs[5].len() == 1 && fs[5][0] == 100 {
        assert(dv[5] =~= seq![100u8]);
        proof {
            lemma_single_neq(100, 99);
        }
        CardType::Data
    } else if fs[5].len() == 1 && fs[5][0] == 106 {
        assert(dv[5] =~= seq![106u8]);
        proof {
            lemma_single_neq(106, 99);
            lemma_single_neq(106, 100);
        }
        CardType::Jcl
    } else if fs[5].len() == 1 && fs[5][0] == 109 {
        assert(dv[5] =~= seq![109u8]);
        proof {
            lemma_single_neq(109, 99);
            lemma_single_neq(109, 100);
            lemma_single_neq(109, 106);
        }
        CardType::Comment
    } else if fs[5].len() == 1 && fs[5][0] == 115 {
        assert(dv[5] =~= seq![115u8]);
        proof {
            lemma_single_neq(115, 99);
            lemma_single_neq(115, 100);
            lemma_single_neq(115, 106);
            lemma_single_neq(115, 109);
        }
        CardType::Separator
    } else if fs[5].len() == 1 && fs[5][0] == 112 {
        assert(dv[5] =~= seq![112u8]);
        proof {
            lemma_single_neq(112, 99);
            lemma_single_neq(112, 100);
            lemma_single_neq(112, 106);
            lemma_single_neq(112, 109);
            lemma_single_neq(112, 115);
        }
        CardType::Patch
    } else {
        proof {
            if dv[5] == seq![99u8] {
                assert(dv[5].len() == 1 && dv[5][0] == 99);
            }
            if dv[5] == seq![100u8] {
                assert(dv[5].len() == 1 && dv[5][0] == 100);
            }
            if dv[5] == seq![106u8] {
                assert(dv[5].len() == 1 && dv[5][0] == 106);
            }
            if dv[5] == seq![109u8] {
                assert(dv[5].len() == 1 && dv[5][0] == 109);
            }
            if dv[5] == seq![115u8] {
                assert(dv[5].len() == 1 && dv[5][0] == 115);
            }
            if dv[5] == seq![112u8] {
                assert(dv[5].len() == 1 && dv[5][0] == 112);
            }
        }
        return None;
    };
    assert(parse_card_type(dv[5]) == Some(card_type));
    let k = match parse_nat_exec(&fs[6]) {
        Some(v) => v,
        None => {
            return None;
        },
    };
    let (ranges, pos) = match parse_ranges_exec(fs, 7, k) {
        Some(p) => p,
        None => {
            return None;
        },
    };
    if fs.len() - pos != 2 {
        return None;
    }
    assert(dv[pos as int] == fs@[pos as int]@);
    assert(dv[pos as int + 1] == fs@[pos as int + 1]@);
    let color = match parse_opt_field_exec(&fs[pos]) {
        Some(o) => o,
        None => {
            return None;
        },
    };
    let note = match parse_opt_field_exec(&fs[pos + 1]) {
        Some(o) => o,
        None => {
            return None;
        },
    };
    let c = CardRecord {
        text,
        punches: match punches {
            Some(v) => Some(crate::text::chars_to_string(&v)),
            None => None,
        },
        encoding,
        seq: seqno_usize,
        card_type,
        protected_cols: ranges,
        meta: crate::deck::CardMeta {
            color: match color {
                Some(v) => Some(crate::text::chars_to_string(&v)),
                None => None,
            },
            note: match note {
                Some(v) => Some(crate::text::chars_to_string(&v)),
                None => None,
            },
        },
    };
    assert(parse_card(dv) == Some(c@));
    Some(c)
}

/// Filtering one more line keeps it exactly when it is not blank.
proof fn lemma_content_lines_take(ls: Seq<Seq<u8>>, i: int)
    requires
        0 <= i < ls.len(),
    ensures
        content_lines(ls.take(i + 1)) == content_lines(ls.take(i)) + (if is_blank_line(ls[i]) {
            Seq::<Seq<u8>>::empty()
        } else {
            seq![ls[i]]
        }),
    decreases i,
{
    if i == 0 {
        assert(ls.take(1)[0] == ls[0]);
        assert(ls.take(1).drop_first() =~= Seq::<Seq<u8>>::empty());
        assert(ls.take(0) =~= Seq::<Seq<u8>>::empty());
        if is_blank_line(ls[0]) {
            assert(content_lines(ls.take(1)) =~= content_lines(ls.take(0)));
        } else {
            assert(content_lines(ls.take(1)) =~= content_lines(ls.take(0)) + seq![ls[0]]);
        }
    } else {
        lemma_content_lines_take(ls.drop_first(), i - 1);
        assert(ls.take(i + 1).drop_first() =~= ls.drop_first().take(i));
        assert(ls.take(i).drop_first() =~= ls.drop_first().take(i - 1));
        assert(ls.drop_first()[i - 1] == ls[i]);
        assert(ls.take(i + 1)[0] == ls[0]);
        assert(ls.take(i)[0] == ls[0]);
        if is_blank_line(ls[i]) {
            assert(content_lines(ls.take(i + 1)) =~= content_lines(ls.take(i)));
        } else {
            assert(content_lines(ls.take(i + 1)) =~= content_lines(ls.take(i)) + seq![ls[i]]);
        }
    }
}

impl Deck {
    /// Read a deck back from its persisted form. Blank lines are skipped;
    /// the first record must be the header, every further record a card.
    /// Succeeds exactly when the whole stream parses, and the parsed deck
    /// is exactly what the bytes describe; each failure names the
    /// offending one-based line and what is wrong with it.
    #[verifier::loop_isolation(false)]
    #[verifier::rlimit(60)]
    pub fn from_bytes(bytes: &[u8]) -> (r: Result<Deck, DeckError>)
        ensures
            r matches Ok(d) ==> parse_deck_spec(bytes@) == Some(d@),
            r is Ok <==> parse_deck_spec(bytes@) is Some,
            r matches Err(e) ==> e matches DeckError::DeckFormatError { line: _, kind: _ },
            content_lines(split_blines(bytes@)).len() == 0 ==> r == Err::<Deck, DeckError>(
                DeckError::DeckFormatError { line: 1, kind: FormatErrorKind::MissingHeader },
            ),
            ({
                let cl = content_lines(split_blines(bytes@));
                let nums = content_nums(split_blines(bytes@));
                &&& (cl.len() > 0 && parse_header(split_fields(cl[0])) is None ==> r == Err::<
                    Deck,
                    DeckError,
                >(
                    DeckError::DeckFormatError {
                        line: nums[0] as usize,
                        kind: FormatErrorKind::HeaderExpected,
                    },
                ))
                &&& (forall|j: int|
                    cl.len() > 0 && parse_header(split_fields(cl[0])) is Some
                        && #[trigger] first_bad_card(cl, j) ==> r == Err::<Deck, DeckError>(
                        DeckError::DeckFormatError {
                            line: nums[j] as usize,
                            kind: bad_record_kind(cl[j]),
                        },
                    ))
            }),
    {
        let ghost all = split_blines(bytes@);
        let lines = split_blines_exec(bytes);
        let mut content: Vec<Vec<u8>> = Vec::new();
        let mut nums: Vec<usize> = Vec::new();
        let mut i: usize = 0;
        proof {
            assert(all.take(0) =~= Seq::<Seq<u8>>::empty());
        }
        while i < lines.len()
            invariant
                i <= lines@.len(),
                lines.deep_view() == all,
                all.len() == lines@.len(),
                content.deep_view() == content_lines(all.take(i as int)),
                nums@.len() == content@.len(),
                nums@.map_values(|u: usize| u as int) == content_nums_from(all.take(i as int), 1),
            decreases lines@.len() - i,
        {
            assert(all[i as int] == lines@[i as int]@);
            proof {
                lemma_content_nums_take(all, i as int, 1);
                lemma_content_lines_take(all, i as int);
            }
            if !is_blank_exec(&lines[i]) {
                let line = lines[i].clone();
                assert(line@ =~= lines@[i as int]@);
                let ghost cdv = content.deep_view();
                let ghost ndv = nums@.map_values(|u: usize| u as int);
                assert(line.deep_view() =~= line@);
                content.push(line);
                assert(content.deep_view() =~= cdv.push(all[i as int]));
                nums.push(i + 1);
                proof {
                    assert(nums@.map_values(|u: usize| u as int) =~= ndv.push((i + 1) as int));
                    assert(ndv.push((i + 1) as int) =~= content_nums_from(all.take(i + 1), 1));
                }
            }
            assert(content.deep_view() =~= content_lines(all.take(i + 1)));
            assert(nums@.map_values(|u: usize| u as int) =~= content_nums_from(
                all.take(i + 1),
                1,
            ));
            i += 1;
        }
        assert(all.take(all.len() as int) =~= all);
        let ghost cl = content_lines(all);
        let ghost gnums = content_nums(all);
        assert(content.deep_view() == cl);
        assert(nums@.map_values(|u: usize| u as int) == gnums);
        if content.len() == 0 {
            return Err(
                DeckError::DeckFormatError { line: 1, kind: FormatErrorKind::MissingHeader },
            );
        }
        assert(cl[0] == content@[0]@);
        let hfields = split_fields_exec(&content[0]);
        let header = match parse_header_exec(&hfields) {
            Some(h) => h,
            None => {
                proof {
                    assert(gnums[0] == nums@[0] as int);
                    assert(gnums[0] as usize == nums@[0]);
                }
                return Err(
                    DeckError::DeckFormatError {
                        line: nums[0],
                        kind: FormatErrorKind::HeaderExpected,
                    },
                );
            },
        };
        let mut cards: Vec<CardRecord> = Vec::new();
        let mut j: usize = 1;
        while j < content.len()
            invariant
                1 <= j <= content@.len(),
                content.deep_view() == cl,
                cl.len() == content@.len(),
                nums@.len() == content@.len(),
                forall|m: int| 1 <= m < j ==> parse_card(split_fields(#[trigger] cl[m])) is Some,
                ({
                    match parse_cards_from(cl, j as int) {
                        Some(rest) => parse_cards_from(cl, 1) == Some(
                            cards@.map_values(|c: CardRecord| c@) + rest,
                        ),
                        None => parse_cards_from(cl, 1) is None,
                    }
                }),
            decreases content@.len() - j,
        {
            assert(cl[j as int] == content@[j as int]@);
            let cfields = split_fields_exec(&content[j]);
            match parse_card_exec(&cfields) {
                Some(card) => {
                    let ghost cv = card@;
                    let ghost before = cards@.map_values(|c: CardRecord| c@);
                    cards.push(card);
                    proof {
                        assert(cards@.map_values(|c: CardRecord| c@) =~= before.push(cv));
                        match parse_cards_from(cl, j + 1) {
                            Some(rest) => {
                                assert(parse_cards_from(cl, j as int) == Some(seq![cv] + rest));
                                assert(before + (seq![cv] + rest) =~= cards@.map_values(
                                    |c: CardRecord| c@,
                                ) + rest);
                            },
                            None => {
                                assert(parse_cards_from(cl, j as int) is None);
                            },
                        }
                    }
                },
                None => {
                    assert(parse_cards_from(cl, j as int) is None);
                    let kind = if content[j].len() >= 2 && content[j][0] == 72 && content[j][1]
                        == FIELD_SEP {
                        FormatErrorKind::DuplicateHeader
                    } else {
                        FormatErrorKind::BadRecord
                    };
                    proof {
                        assert(kind == bad_record_kind(cl[j as int]));
                        assert(first_bad_card(cl, j as int));
                        assert(gnums[j as int] == nums@[j as int] as int);
                        assert(gnums[j as int] as usize == nums@[j as int]);
                        assert forall|w: int| first_bad_card(cl, w) implies w == j as int by {
                            if w < j {
                                assert(parse_card(split_fields(cl[w])) is Some);
                            }
                            if w > j {
                                assert(parse_card(split_fields(cl[j as int])) is Some);
                            }
                        }
                    }
                    return Err(DeckError::DeckFormatError { line: nums[j], kind });
                },
            }
            j += 1;
        }
        proof {
            assert(parse_cards_from(cl, content@.len() as int) == Some(
                Seq::<CardRecordV>::empty(),
            ));
            assert(cards@.map_values(|c: CardRecord| c@) + Seq::<CardRecordV>::empty()
                =~= cards@.map_values(|c: CardRecord| c@));
            assert forall|w: int| !first_bad_card(cl, w) by {
                if 1 <= w < cl.len() {
                    assert(parse_card(split_fields(cl[w])) is Some);
                }
            }
        }
        let d = Deck { header, cards };
        assert(parse_deck_spec(bytes@) == Some(d@));
        Ok(d)
    }
}

/// Two digits per byte.
proof fn lemma_hex_len(bs: Seq<u8>)
    ensures
        hex_of(bs).len() == 2 * bs.len(),
    decreases bs.len(),
{
    if bs.len() > 0 {
        lemma_hex_len(bs.drop_first());
    }
}

} // verus!
