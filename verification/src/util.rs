//! Helpers shared by front ends: parsing column ranges written as
//! `START-END`, and cutting free text into fixed 80-column card lines.

use vstd::prelude::*;
use crate::deck::ColumnRange;
use crate::punchcards::{clip80, split_lines, split_lines_vec};
use crate::text::{blank_chars, pad_to, pad_left, dec_digits, dec_chars, pad_left_chars,
    chars_to_string, str_chars};

verus! {

/// Index of the first occurrence of `c` in `s`, or `s.len()` if absent.
pub open spec fn find_char(s: Seq<char>, c: char) -> int
    decreases s.len(),
{
    if s.len() == 0 {
        0
    } else if s[0] == c {
        0
    } else {
        1 + find_char(s.drop_first(), c)
    }
}

/// `find_char` returns the position of the first occurrence.
proof fn lemma_find_char_at(s: Seq<char>, c: char, j: int)
    requires
        0 <= j <= s.len(),
        forall|k: int| 0 <= k < j ==> s[k] != c,
        j == s.len() || s[j] == c,
    ensures
        find_char(s, c) == j,
    decreases j,
{
    if s.len() == 0 {
    } else if s[0] == c {
        assert(j <= 0);
    } else {
        assert(j >= 1);
        lemma_find_char_at(s.drop_first(), c, j - 1);
    }
}

/// Whether every character of `s` is a decimal digit.
pub open spec fn all_digit_chars(s: Seq<char>) -> bool {
    forall|i: int| 0 <= i < s.len() ==> 48 <= (#[trigger] s[i]) as u32 <= 57
}

/// The numeric value of a decimal digit string.
pub open spec fn dec_val_chars(s: Seq<char>) -> nat
    decreases s.len(),
{
    if s.len() == 0 {
        0
    } else {
        dec_val_chars(s.drop_last()) * 10 + (if 48 <= s.last() as u32 <= 57 {
            (s.last() as u32 - 48) as nat
        } else {
            0
        })
    }
}

/// The value a machine-word parse of `s` yields: an optional leading
/// plus sign, then at least one digit, with the value fitting the word.
pub open spec fn parse_usize_chars(s: Seq<char>) -> Option<usize> {
    let t = if s.len() >= 1 && s[0] == '+' {
        s.drop_first()
    } else {
        s
    };
    if t.len() >= 1 && all_digit_chars(t) && dec_val_chars(t) <= usize::MAX {
        Some(dec_val_chars(t) as usize)
    } else {
        None
    }
}

/// Parse a machine word from characters, as [`parse_usize_chars`]
/// describes.
#[verifier::loop_isolation(false)]
fn parse_usize_exec(v: &Vec<char>) -> (r: Option<usize>)
    ensures
        r == parse_usize_chars(v@),
{
    let start: usize = if v.len() >= 1 && v[0] == '+' {
        1
    } else {
        0
    };
    let ghost t = if v@.len() >= 1 && v@[0] == '+' {
        v@.drop_first()
    } else {
        v@
    };
    assert(t =~= v@.skip(start as int));
    if v.len() == start {
        return None;
    }
    let mut acc: u128 = 0;
    let mut sat: bool = false;
    let mut j: usize = start;
    proof {
        assert(t.take(0) =~= Seq::<char>::empty());
    }
    while j < v.len()
        invariant
            start <= j <= v@.len(),
            t == v@.skip(start as int),
            all_digit_chars(t.take(j - start)),
            !sat ==> acc == dec_val_chars(t.take(j - start)) && acc <= usize::MAX as u128,
            sat ==> dec_val_chars(t.take(j - start)) > usize::MAX,
        decreases v@.len() - j,
    {
        let c = v[j];
        let u = c as u32;
        if u < 48 || u > 57 {
            proof {
                assert(t[j - start] == v@[j as int]);
                assert(!all_digit_chars(t));
            }
            return None;
        }
        proof {
            assert(t.take(j - start + 1).drop_last() =~= t.take(j - start));
            assert(t.take(j - start + 1).last() == t[j - start]);
            assert(t[j - start] == v@[j as int]);
            assert(all_digit_chars(t.take(j - start + 1)));
        }
        let d = (u - 48) as u128;
        if !sat {
            let next = acc * 10 + d;
            if next > (usize::MAX as u128) {
                sat = true;
                proof {
                    assert(dec_val_chars(t.take(j - start + 1)) == acc * 10 + d);
                }
            } else {
                acc = next;
            }
        } else {
            proof {
                let prev = dec_val_chars(t.take(j - start));
                assert(dec_val_chars(t.take(j - start + 1)) >= prev * 10);
                assert(prev * 10 >= prev) by (nonlinear_arith)
                    requires
                        prev >= 0,
                ;
            }
        }
        j += 1;
    }
    assert(t.take(v@.len() - start) =~= t);
    if sat {
        None
    } else {
        Some(acc as usize)
    }
}

/// Parse a column range written `START-END` (one-based, inclusive);
/// exactly one dash, two numbers, and the range must satisfy
/// `1 <= start <= end <= 80`. Errors carry a human-readable message.
#[verifier::loop_isolation(false)]
pub fn parse_column_range(input: &str) -> (r: Result<ColumnRange, String>)
    ensures
        ({
            let s = input@;
            let j = find_char(s, '-');
            match r {
                Ok(c) => {
                    &&& 0 <= j < s.len()
                    &&& find_char(s.skip(j + 1), '-') == s.len() - j - 1
                    &&& parse_usize_chars(s.take(j)) == Some(c.start)
                    &&& parse_usize_chars(s.skip(j + 1)) == Some(c.end)
                    &&& c.wf()
                },
                Err(_) => {
                    ||| j >= s.len()
                    ||| find_char(s.skip(j + 1), '-') < s.len() - j - 1
                    ||| parse_usize_chars(s.take(j)) is None
                    ||| parse_usize_chars(s.skip(j + 1)) is None
                    ||| (parse_usize_chars(s.take(j)) matches Some(a)
                        && parse_usize_chars(s.skip(j + 1)) matches Some(b) && !(ColumnRange {
                        start: a,
                        end: b,
                    }).wf())
                },
            }
        }),
{
    let chars = str_chars(input);
    let mut j: usize = 0;
    while j < chars.len() && chars[j] != '-'
        invariant
            j <= chars@.len(),
            forall|k: int| 0 <= k < j ==> chars@[k] != '-',
        decreases chars@.len() - j,
    {
        j += 1;
    }
    proof {
        lemma_find_char_at(chars@, '-', j as int);
    }
    if j >= chars.len() {
        return Err(String::from_str("column range must be START-END"));
    }
    let mut k: usize = j + 1;
    while k < chars.len() && chars[k] != '-'
        invariant
            j + 1 <= k <= chars@.len(),
            forall|m: int| j + 1 <= m < k ==> chars@[m] != '-',
        decreases chars@.len() - k,
    {
        k += 1;
    }
    proof {
        assert forall|m: int| 0 <= m < k - j - 1 implies #[trigger] chars@.skip(j + 1)[m]
            != '-' by {
            assert(chars@.skip(j + 1)[m] == chars@[j + 1 + m]);
        }
        if k < chars@.len() {
            assert(chars@.skip(j + 1)[k - j - 1] == chars@[k as int]);
        }
        lemma_find_char_at(chars@.skip(j + 1), '-', k - j - 1);
    }
    if k < chars.len() {
        return Err(String::from_str("column range must be START-END"));
    }
    let mut start_part: Vec<char> = Vec::new();
    let mut m: usize = 0;
    while m < j
        invariant
            m <= j,
            j < chars@.len(),
            start_part@ == chars@.subrange(0, m as int),
        decreases j - m,
    {
        start_part.push(chars[m]);
        assert(start_part@ =~= chars@.subrange(0, m + 1));
        m += 1;
    }
    assert(start_part@ =~= chars@.take(j as int));
    let mut end_part: Vec<char> = Vec::new();
    let mut m2: usize = j + 1;
    while m2 < chars.len()
        invariant
            j + 1 <= m2 <= chars@.len(),
            end_part@ == chars@.subrange(j + 1, m2 as int),
        decreases chars@.len() - m2,
    {
        end_part.push(chars[m2]);
        assert(end_part@ =~= chars@.subrange(j + 1, m2 + 1));
        m2 += 1;
    }
    assert(end_part@ =~= chars@.skip(j + 1));
    let start = match parse_usize_exec(&start_part) {
        Some(v) => v,
        None => {
            return Err(String::from_str("start column must be a number"));
        },
    };
    let end = match parse_usize_exec(&end_part) {
        Some(v) => v,
        None => {
            return Err(String::from_str("end column must be a number"));
        },
    };
    match ColumnRange::new(start, end) {
        Ok(c) => Ok(c),
        Err(_) => Err(String::from_str("column range must satisfy 1 <= start <= end <= 80")),
    }
}

/// Cut free text into 80-column card lines: each input line truncated to
/// 80 characters and padded with trailing blanks; empty input yields one
/// blank line.
#[verifier::loop_isolation(false)]
pub fn split_lines_fixed(input: &str) -> (r: Vec<String>)
    ensures
        ({
            let ls = split_lines(input@);
            &&& r@.len() == (if ls.len() == 0 {
                1int
            } else {
                ls.len() as int
            })
            &&& (ls.len() == 0 ==> r@[0]@ == blank_chars(80))
            &&& (forall|i: int| 0 <= i < ls.len() ==> (#[trigger] r@[i])@ == pad_to(
                clip80(ls[i]),
                80,
            ))
        }),
{
    let chars = str_chars(input);
    let lines = split_lines_vec(&chars);
    let ghost ls = split_lines(input@);
    let mut r: Vec<String> = Vec::new();
    if lines.len() == 0 {
        let blanks = crate::text::blank_text(80);
        r.push(chars_to_string(&blanks));
        return r;
    }
    let mut i: usize = 0;
    while i < lines.len()
        invariant
            i <= lines@.len(),
            lines.deep_view() == ls,
            ls.len() == lines@.len(),
            r@.len() == i,
            forall|k: int| 0 <= k < i ==> (#[trigger] r@[k])@ == pad_to(clip80(ls[k]), 80),
        decreases lines@.len() - i,
    {
        assert(ls[i as int] == lines@[i as int]@);
        let mut line = lines[i].clone();
        assert(line@ =~= lines@[i as int]@);
        line.truncate(80);
        assert(line@ =~= clip80(ls[i as int]));
        while line.len() < 80
            invariant
                line@.len() <= 80,
                line@ == pad_to(clip80(ls[i as int]), 80).take(line@.len() as int),
                clip80(ls[i as int]).len() <= line@.len(),
            decreases 80 - line.len(),
        {
            let ghost len = line@.len() as int;
            assert(pad_to(clip80(ls[i as int]), 80)[len] == ' ');
            line.push(' ');
            assert(line@ =~= pad_to(clip80(ls[i as int]), 80).take(len + 1));
        }
        assert(line@ =~= pad_to(clip80(ls[i as int]), 80));
        r.push(chars_to_string(&line));
        i += 1;
    }
    r
}

/// A blank or tab.
pub open spec fn is_sp(c: char) -> bool {
    c == ' ' || c == '\t'
}

/// `s` without leading blanks and tabs.
pub open spec fn trim_start(s: Seq<char>) -> Seq<char>
    decreases s.len(),
{
    if s.len() > 0 && is_sp(s[0]) {
        trim_start(s.drop_first())
    } else {
        s
    }
}

/// `s` without trailing blanks and tabs.
pub open spec fn trim_end(s: Seq<char>) -> Seq<char>
    decreases s.len(),
{
    if s.len() > 0 && is_sp(s.last()) {
        trim_end(s.drop_last())
    } else {
        s
    }
}

/// `s` without leading or trailing blanks and tabs.
pub open spec fn trim_chars(s: Seq<char>) -> Seq<char> {
    trim_end(trim_start(s))
}

/// Trimming selects the subrange between the first and last non-blank.
proof fn lemma_trim_start_at(s: Seq<char>, a: int)
    requires
        0 <= a <= s.len(),
        forall|k: int| 0 <= k < a ==> is_sp(s[k]),
        a == s.len() || !is_sp(s[a]),
    ensures
        trim_start(s) == s.skip(a),
    decreases a,
{
    if a == 0 {
        assert(s.skip(0) =~= s);
    } else {
        lemma_trim_start_at(s.drop_first(), a - 1);
        assert(s.drop_first().skip(a - 1) =~= s.skip(a));
    }
}

/// Trimming from the right selects the prefix up to the last non-blank.
proof fn lemma_trim_end_at(s: Seq<char>, b: int)
    requires
        0 <= b <= s.len(),
        forall|k: int| b <= k < s.len() ==> is_sp(s[k]),
        b == 0 || !is_sp(s[b - 1]),
    ensures
        trim_end(s) == s.take(b),
    decreases s.len() - b,
{
    if b == s.len() {
        assert(s.take(b) =~= s);
    } else {
        assert(is_sp(s.last()));
        lemma_trim_end_at(s.drop_last(), b);
        assert(s.drop_last().take(b) =~= s.take(b));
    }
}

/// Trim blanks and tabs from both ends, in executable form.
#[verifier::loop_isolation(false)]
fn trim_exec(v: &Vec<char>) -> (r: Vec<char>)
    ensures
        r@ == trim_chars(v@),
{
    let mut a: usize = 0;
    while a < v.len() && (v[a] == ' ' || v[a] == '\t')
        invariant
            a <= v@.len(),
            forall|k: int| 0 <= k < a ==> is_sp(#[trigger] v@[k]),
        decreases v@.len() - a,
    {
        a += 1;
    }
    proof {
        lemma_trim_start_at(v@, a as int);
    }
    let mut b: usize = v.len();
    while b > a && (v[b - 1] == ' ' || v[b - 1] == '\t')
        invariant
            a <= b <= v@.len(),
            forall|k: int| b <= k < v@.len() ==> is_sp(#[trigger] v@[k]),
        decreases b,
    {
        b -= 1;
    }
    proof {
        let t = v@.skip(a as int);
        assert forall|k: int| b - a <= k < t.len() implies is_sp(#[trigger] t[k]) by {
            assert(t[k] == v@[a + k]);
        }
        if b > a {
            assert(t[b - a - 1] == v@[b - 1]);
        }
        lemma_trim_end_at(t, b - a);
    }
    let mut r: Vec<char> = Vec::new();
    let mut k: usize = a;
    while k < b
        invariant
            a <= k <= b,
            b <= v@.len(),
            r@ == v@.subrange(a as int, k as int),
        decreases b - k,
    {
        r.push(v[k]);
        assert(r@ =~= v@.subrange(a as int, k + 1));
        k += 1;
    }
    proof {
        assert(r@ =~= v@.skip(a as int).take(b - a));
    }
    r
}

/// The parts of `s` between commas; always at least one (possibly
/// empty) part.
pub open spec fn split_commas(s: Seq<char>) -> Seq<Seq<char>>
    decreases s.len(),
{
    let i = find_char(s, ',');
    if 0 <= i < s.len() {
        seq![s.take(i)] + split_commas(s.skip(i + 1))
    } else {
        seq![s]
    }
}

/// Cut a sequence at every comma, in executable form.
#[verifier::loop_isolation(false)]
fn split_commas_exec(v: &Vec<char>) -> (r: Vec<Vec<char>>)
    ensures
        r.deep_view() == split_commas(v@),
{
    let mut r: Vec<Vec<char>> = Vec::new();
    let mut pos: usize = 0;
    proof {
        assert(r.deep_view() =~= Seq::<Seq<char>>::empty());
        assert(v@.skip(0) =~= v@);
    }
    loop
        invariant
            pos <= v@.len(),
            r.deep_view() + split_commas(v@.skip(pos as int)) == split_commas(v@),
        decreases v@.len() - pos + 1,
    {
        let ghost suffix = v@.skip(pos as int);
        let mut j: usize = pos;
        while j < v.len() && v[j] != ','
            invariant
                pos <= j <= v@.len(),
                forall|k: int| pos <= k < j ==> v@[k] != ',',
            decreases v@.len() - j,
        {
            j += 1;
        }
        proof {
            lemma_find_char_at(suffix, ',', j - pos);
        }
        let mut part: Vec<char> = Vec::new();
        let mut k: usize = pos;
        while k < j
            invariant
                pos <= k <= j,
                j <= v@.len(),
                part@ == v@.subrange(pos as int, k as int),
            decreases j - k,
        {
            part.push(v[k]);
            assert(part@ =~= v@.subrange(pos as int, k + 1));
            k += 1;
        }
        proof {
            assert(suffix.take(j - pos) =~= v@.subrange(pos as int, j as int));
            if j == v@.len() {
                assert(suffix.take(j - pos) =~= suffix);
                assert(split_commas(suffix) == seq![suffix]);
                assert(part@ == suffix);
            } else {
                assert(split_commas(suffix) == seq![suffix.take(j - pos)] + split_commas(
                    suffix.skip(j - pos + 1),
                ));
                assert(suffix.skip(j - pos + 1) =~= v@.skip(j + 1));
            }
        }
        let ghost rdv = r.deep_view();
        assert(part.deep_view() =~= part@);
        r.push(part);
        assert(r.deep_view() =~= rdv.push(part@));
        if j < v.len() {
            pos = j + 1;
            assert(r.deep_view() + split_commas(v@.skip(pos as int)) =~= split_commas(v@));
        } else {
            proof {
                assert(r.deep_view() + Seq::<Seq<char>>::empty() =~= split_commas(v@));
            }
            break;
        }
    }
    r
}

/// Index of the first `..` at or after position `i`, or `s.len()` if
/// there is none.
pub open spec fn find_dotdot_from(s: Seq<char>, i: int) -> int
    decreases s.len() - i,
{
    if i < 0 || i + 2 > s.len() {
        s.len() as int
    } else if s[i] == '.' && s[i + 1] == '.' {
        i
    } else {
        find_dotdot_from(s, i + 1)
    }
}

/// One one-based bound of a range expression: `$` means the number of
/// cards (if there are any), otherwise a positive number.
pub open spec fn parse_bound(tok: Seq<char>, deck_len: nat) -> Option<nat> {
    if tok.len() == 0 {
        None
    } else if tok == seq!['$'] {
        if deck_len == 0 {
            None
        } else {
            Some(deck_len)
        }
    } else {
        match parse_usize_chars(tok) {
            Some(v) => if v == 0 {
                None
            } else {
                Some(v as nat)
            },
            None => None,
        }
    }
}

/// The zero-based indices one comma-separated part contributes: nothing
/// for a blank part, an inclusive range for `A..B`, a single index
/// otherwise.
pub open spec fn part_indices(part: Seq<char>, deck_len: nat) -> Option<Seq<nat>> {
    let p = trim_chars(part);
    if p.len() == 0 {
        Some(Seq::empty())
    } else if find_dotdot_from(p, 0) + 2 <= p.len() {
        let i = find_dotdot_from(p, 0);
        match (parse_bound(trim_chars(p.take(i)), deck_len), parse_bound(
            trim_chars(p.skip(i + 2)),
            deck_len,
        )) {
            (Some(x), Some(y)) => {
                if x <= y {
                    Some(Seq::new((y - x + 1) as nat, |k: int| (x - 1 + k) as nat))
                } else {
                    None
                }
            },
            _ => None,
        }
    } else {
        match parse_bound(p, deck_len) {
            Some(x) => Some(seq![(x - 1) as nat]),
            None => None,
        }
    }
}

/// The indices of all parts from index `i` on, in order.
pub open spec fn all_indices(parts: Seq<Seq<char>>, i: int, deck_len: nat) -> Option<Seq<nat>>
    decreases parts.len() - i,
{
    if i < 0 || i >= parts.len() {
        Some(Seq::empty())
    } else {
        match (part_indices(parts[i], deck_len), all_indices(parts, i + 1, deck_len)) {
            (Some(head), Some(rest)) => Some(head + rest),
            _ => None,
        }
    }
}

/// `s` with every repeated value removed, keeping first occurrences in
/// order.
pub open spec fn dedup_keep_first(s: Seq<nat>) -> Seq<nat>
    decreases s.len(),
{
    if s.len() == 0 {
        Seq::empty()
    } else if s.drop_last().contains(s.last()) {
        dedup_keep_first(s.drop_last())
    } else {
        dedup_keep_first(s.drop_last()).push(s.last())
    }
}

/// Deduplication keeps exactly the values of the input.
proof fn lemma_dedup_contains(s: Seq<nat>, x: nat)
    ensures
        dedup_keep_first(s).contains(x) <==> s.contains(x),
    decreases s.len(),
{
    if s.len() > 0 {
        let dl = s.drop_last();
        lemma_dedup_contains(dl, x);
        assert(s.contains(x) <==> dl.contains(x) || x == s.last()) by {
            if s.contains(x) {
                let w = choose|w: int| 0 <= w < s.len() && s[w] == x;
                if w < s.len() - 1 {
                    assert(dl[w] == x);
                    assert(dl.contains(x));
                }
            }
            if dl.contains(x) {
                let w = choose|w: int| 0 <= w < dl.len() && dl[w] == x;
                assert(s[w] == x);
                assert(s.contains(x));
            }
            if x == s.last() {
                assert(s[s.len() - 1] == x);
                assert(s.contains(x));
            }
        }
        let d = dedup_keep_first(s);
        let dd = dedup_keep_first(dl);
        if dl.contains(s.last()) {
            assert(d == dd);
        } else {
            assert(d == dd.push(s.last()));
            assert(d.contains(x) <==> dd.contains(x) || x == s.last()) by {
                if dd.contains(x) {
                    let w = choose|w: int| 0 <= w < dd.len() && dd[w] == x;
                    assert(d[w] == x);
                    assert(d.contains(x));
                }
                if x == s.last() {
                    assert(d[d.len() - 1] == x);
                    assert(d.contains(x));
                }
                if d.contains(x) {
                    let w = choose|w: int| 0 <= w < d.len() && d[w] == x;
                    if w < d.len() - 1 {
                        assert(dd[w] == x);
                        assert(dd.contains(x));
                    }
                }
            }
        }
    }
}

/// The full parse of a range expression against a deck of `deck_len`
/// cards: comma-separated parts, each a one-based index or inclusive
/// `A..B` range (`$` standing for the last card), blank parts skipped,
/// duplicates dropped keeping first occurrences, every index in bounds.
pub open spec fn parse_range_expr(s: Seq<char>, deck_len: nat) -> Option<Seq<nat>> {
    if trim_chars(s).len() == 0 {
        None
    } else {
        match all_indices(split_commas(s), 0, deck_len) {
            Some(idx) => {
                if idx.len() == 0 {
                    None
                } else if forall|k: int| 0 <= k < idx.len() ==> (#[trigger] idx[k]) < deck_len {
                    Some(dedup_keep_first(idx))
                } else {
                    None
                }
            },
            None => None,
        }
    }
}

/// One one-based bound, in executable form.
#[verifier::loop_isolation(false)]
fn parse_bound_exec(tok: &Vec<char>, deck_len: usize) -> (r: Option<usize>)
    ensures
        ({
            match r {
                Some(v) => parse_bound(tok@, deck_len as nat) == Some(v as nat) && v >= 1,
                None => parse_bound(tok@, deck_len as nat) is None,
            }
        }),
{
    if tok.len() == 0 {
        return None;
    }
    if tok.len() == 1 && tok[0] == '$' {
        assert(tok@ =~= seq!['$']);
        if deck_len == 0 {
            return None;
        }
        return Some(deck_len);
    }
    proof {
        if tok@ == seq!['$'] {
            assert(tok@.len() == 1 && tok@[0] == '$');
        }
    }
    match parse_usize_exec(tok) {
        Some(v) => {
            if v == 0 {
                None
            } else {
                Some(v)
            }
        },
        None => None,
    }
}

/// Expand a range expression such as `1..10,25,40..$` into zero-based
/// card indices, as [`parse_range_expr`] describes. Errors carry a
/// human-readable message.
#[verifier::loop_isolation(false)]
#[verifier::rlimit(100)]
pub fn parse_range_expression(expr: &str, deck_len: usize) -> (r: Result<Vec<usize>, String>)
    ensures
        r matches Ok(v) ==> parse_range_expr(expr@, deck_len as nat) == Some(
            v@.map_values(|u: usize| u as nat),
        ),
        r is Ok <==> parse_range_expr(expr@, deck_len as nat) is Some,
{
    let chars = str_chars(expr);
    let trimmed = trim_exec(&chars);
    if trimmed.len() == 0 {
        return Err(String::from_str("range expression cannot be empty"));
    }
    let parts = split_commas_exec(&chars);
    let ghost pdv = parts.deep_view();
    let mut indices: Vec<usize> = Vec::new();
    let mut i: usize = 0;
    while i < parts.len()
        invariant
            i <= parts@.len(),
            pdv == parts.deep_view(),
            pdv.len() == parts@.len(),
            deck_len <= usize::MAX,
            ({
                match all_indices(pdv, i as int, deck_len as nat) {
                    Some(rest) => all_indices(pdv, 0, deck_len as nat) == Some(
                        indices@.map_values(|u: usize| u as nat) + rest,
                    ),
                    None => all_indices(pdv, 0, deck_len as nat) is None,
                }
            }),
        decreases parts@.len() - i,
    {
        assert(pdv[i as int] == parts@[i as int]@);
        let p = trim_exec(&parts[i]);
        let ghost pt = trim_chars(pdv[i as int]);
        assert(p@ == pt);
        let ghost before = indices@.map_values(|u: usize| u as nat);
        if p.len() == 0 {
            proof {
                assert(part_indices(pdv[i as int], deck_len as nat) == Some(Seq::<nat>::empty()));
                match all_indices(pdv, i + 1, deck_len as nat) {
                    Some(rest) => {
                        assert(Seq::<nat>::empty() + rest =~= rest);
                    },
                    None => {},
                }
            }
            i += 1;
            continue;
        }
        let mut dd: usize = 0;
        while dd + 1 < p.len() && !(p[dd] == '.' && p[dd + 1] == '.')
            invariant
                dd + 1 <= p@.len() || dd == 0,
                dd <= p@.len(),
                find_dotdot_from(pt, 0) == find_dotdot_from(pt, dd as int),
            decreases p@.len() - dd,
        {
            dd += 1;
        }
        let has_dotdot = dd + 1 < p.len();
        if has_dotdot {
            proof {
                assert(find_dotdot_from(pt, dd as int) == dd);
                assert(find_dotdot_from(pt, 0) == dd);
            }
            let start_tok = {
                let mut t: Vec<char> = Vec::new();
                let mut k: usize = 0;
                while k < dd
                    invariant
                        k <= dd,
                        dd < p@.len(),
                        t@ == p@.subrange(0, k as int),
                    decreases dd - k,
                {
                    t.push(p[k]);
                    assert(t@ =~= p@.subrange(0, k + 1));
                    k += 1;
                }
                assert(t@ =~= pt.take(dd as int));
                trim_exec(&t)
            };
            let end_tok = {
                let mut t: Vec<char> = Vec::new();
                let mut k: usize = dd + 2;
                while k < p.len()
                    invariant
                        dd + 2 <= k <= p@.len(),
                        t@ == p@.subrange(dd + 2, k as int),
                    decreases p@.len() - k,
                {
                    t.push(p[k]);
                    assert(t@ =~= p@.subrange(dd + 2, k + 1));
                    k += 1;
                }
                assert(t@ =~= pt.skip(dd + 2));
                trim_exec(&t)
            };
            let x = match parse_bound_exec(&start_tok, deck_len) {
                Some(v) => v,
                None => {
                    assert(part_indices(pdv[i as int], deck_len as nat) is None);
                    return Err(String::from_str("range bound is not usable"));
                },
            };
            let y = match parse_bound_exec(&end_tok, deck_len) {
                Some(v) => v,
                None => {
                    assert(part_indices(pdv[i as int], deck_len as nat) is None);
                    return Err(String::from_str("range bound is not usable"));
                },
            };
            if x > y {
                assert(part_indices(pdv[i as int], deck_len as nat) is None);
                return Err(String::from_str("range start exceeds range end"));
            }
            let ghost head = Seq::new((y - x + 1) as nat, |k: int| (x - 1 + k) as nat);
            assert(part_indices(pdv[i as int], deck_len as nat) == Some(head));
            let mut val: usize = x;
            let ghost added: int = 0;
            while val <= y
                invariant
                    x <= val,
                    val <= y + 1,
                    y < usize::MAX || val <= y,
                    indices@.map_values(|u: usize| u as nat) =~= before + head.take(
                        val - x,
                    ),
                decreases y + 1 - val,
            {
                let ghost prev = indices@.map_values(|u: usize| u as nat);
                indices.push(val - 1);
                proof {
                    assert(head[val - x] == (val - 1) as nat);
                    assert(indices@.map_values(|u: usize| u as nat) =~= prev.push(
                        (val - 1) as nat,
                    ));
                    assert(head.take(val - x + 1) =~= head.take(val - x).push(head[val - x]));
                    assert(prev.push((val - 1) as nat) =~= before + head.take(val - x + 1));
                }
                if val == y {
                    proof {
                        assert(head.take(val + 1 - x) =~= head);
                    }
                    break;
                }
                val += 1;
            }
            assert(indices@.map_values(|u: usize| u as nat) =~= before + head);
            proof {
                match all_indices(pdv, i + 1, deck_len as nat) {
                    Some(rest) => {
                        assert(before + (head + rest) =~= (before + head) + rest);
                    },
                    None => {},
                }
            }
        } else {
            proof {
                assert(find_dotdot_from(pt, dd as int) == pt.len());
                assert(find_dotdot_from(pt, 0) + 2 > pt.len());
            }
            let x = match parse_bound_exec(&p, deck_len) {
                Some(v) => v,
                None => {
                    assert(part_indices(pdv[i as int], deck_len as nat) is None);
                    return Err(String::from_str("range bound is not usable"));
                },
            };
            let ghost head = seq![(x - 1) as nat];
            assert(part_indices(pdv[i as int], deck_len as nat) == Some(head));
            indices.push(x - 1);
            proof {
                assert(indices@.map_values(|u: usize| u as nat) =~= before + head);
                match all_indices(pdv, i + 1, deck_len as nat) {
                    Some(rest) => {
                        assert(before + (head + rest) =~= (before + head) + rest);
                    },
                    None => {},
                }
            }
        }
        i += 1;
    }
    let ghost allv = indices@.map_values(|u: usize| u as nat);
    proof {
        assert(all_indices(pdv, pdv.len() as int, deck_len as nat) == Some(Seq::<nat>::empty()));
        assert(allv + Seq::<nat>::empty() =~= allv);
        assert(all_indices(pdv, 0, deck_len as nat) == Some(allv));
    }
    if indices.len() == 0 {
        return Err(String::from_str("no indices resolved from the expression"));
    }
    let mut unique: Vec<usize> = Vec::new();
    let mut k: usize = 0;
    while k < indices.len()
        invariant
            k <= indices@.len(),
            allv == indices@.map_values(|u: usize| u as nat),
            allv.len() == indices@.len(),
            forall|m: int| 0 <= m < k ==> (#[trigger] allv[m]) < deck_len,
            unique@.map_values(|u: usize| u as nat) == dedup_keep_first(allv.take(k as int)),
        decreases indices@.len() - k,
    {
        let idx = indices[k];
        assert(allv[k as int] == idx as nat);
        if idx >= deck_len {
            proof {
                assert(!(allv[k as int] < deck_len));
                assert(parse_range_expr(expr@, deck_len as nat) is None);
            }
            return Err(String::from_str("card index out of range"));
        }
        let mut seen = false;
        let mut m: usize = 0;
        while m < unique.len()
            invariant
                m <= unique@.len(),
                seen ==> unique@.contains(idx),
                !seen ==> forall|w: int| 0 <= w < m ==> unique@[w] != idx,
            decreases unique@.len() - m,
        {
            if unique[m] == idx {
                seen = true;
            }
            m += 1;
        }
        proof {
            lemma_dedup_contains(allv.take(k as int), idx as nat);
            assert(allv.take(k + 1).drop_last() =~= allv.take(k as int));
            assert(allv.take(k + 1).last() == allv[k as int]);
            let du = unique@.map_values(|u: usize| u as nat);
            if seen {
                assert(unique@.contains(idx));
                let w = choose|w: int| 0 <= w < unique@.len() && unique@[w] == idx;
                assert(du[w] == idx as nat);
                assert(du.contains(idx as nat));
                assert(allv.take(k as int).contains(idx as nat));
            } else {
                if du.contains(idx as nat) {
                    let w = choose|w: int| 0 <= w < du.len() && du[w] == idx as nat;
                    assert(unique@[w] == idx);
                }
                assert(!allv.take(k as int).contains(idx as nat));
            }
        }
        if !seen {
            let ghost before = unique@.map_values(|u: usize| u as nat);
            unique.push(idx);
            assert(unique@.map_values(|u: usize| u as nat) =~= before.push(idx as nat));
        }
        k += 1;
    }
    proof {
        assert(allv.take(allv.len() as int) =~= allv);
        assert(forall|m: int| 0 <= m < allv.len() ==> (#[trigger] allv[m]) < deck_len);
    }
    Ok(unique)
}

} // verus!


verus! {

/// The highest column any mask range protects (zero when there is none).
pub open spec fn mask_end(mask: Seq<ColumnRange>) -> nat
    decreases mask.len(),
{
    if mask.len() == 0 {
        0
    } else if mask[0].end as nat >= mask_end(mask.drop_first()) {
        mask[0].end as nat
    } else {
        mask_end(mask.drop_first())
    }
}

/// The character at position `i` once the masked columns are blotted out.
pub open spec fn masked_char(l: Seq<char>, mask: Seq<ColumnRange>, i: int) -> char {
    if exists|ri: int| 0 <= ri < mask.len() && (#[trigger] mask[ri]).spec_contains(i + 1) {
        '_'
    } else {
        l[i]
    }
}

/// `l` with every masked column replaced by an underscore.
pub open spec fn masked(l: Seq<char>, mask: Seq<ColumnRange>) -> Seq<char> {
    Seq::new(l.len(), |i: int| masked_char(l, mask, i))
}

/// Whether two lines agree once both are padded to the masked width and
/// the masked columns are blotted out.
pub open spec fn lines_match_spec(e: Seq<char>, a: Seq<char>, mask: Seq<ColumnRange>) -> bool {
    masked(pad_to(e, mask_end(mask)), mask) == masked(pad_to(a, mask_end(mask)), mask)
}

/// Whether some mask range protects the one-based column `col`.
fn col_masked(mask: &[ColumnRange], col: usize) -> (r: bool)
    ensures
        r == exists|ri: int| 0 <= ri < mask@.len() && (#[trigger] mask@[ri]).spec_contains(
            col as int,
        ),
{
    let mut ri: usize = 0;
    while ri < mask.len()
        invariant
            ri <= mask@.len(),
            forall|k: int| 0 <= k < ri ==> !(#[trigger] mask@[k]).spec_contains(col as int),
        decreases mask@.len() - ri,
    {
        let r = mask[ri];
        if col >= r.start && col <= r.end {
            assert(mask@[ri as int].spec_contains(col as int));
            return true;
        }
        ri += 1;
    }
    false
}

/// The highest masked column, in executable form.
#[verifier::loop_isolation(false)]
fn mask_end_exec(mask: &[ColumnRange]) -> (r: usize)
    ensures
        r as nat == mask_end(mask@),
{
    let mut best: usize = 0;
    let mut ri: usize = mask.len();
    while ri > 0
        invariant
            ri <= mask@.len(),
            best as nat == mask_end(mask@.skip(ri as int)),
        decreases ri,
    {
        ri -= 1;
        let r = mask[ri];
        proof {
            assert(mask@.skip(ri as int)[0] == mask@[ri as int]);
            assert(mask@.skip(ri as int).drop_first() =~= mask@.skip(ri as int + 1));
        }
        if r.end > best {
            best = r.end;
        }
    }
    assert(mask@.skip(0) =~= mask@);
    best
}

/// Whether two lines of characters agree under the mask.
#[verifier::loop_isolation(false)]
fn lines_match_chars(e: &Vec<char>, a: &Vec<char>, mask: &[ColumnRange]) -> (r: bool)
    ensures
        r == lines_match_spec(e@, a@, mask@),
{
    let req = mask_end_exec(mask);
    let ghost pe = pad_to(e@, mask_end(mask@));
    let ghost pa = pad_to(a@, mask_end(mask@));
    let elen = if e.len() >= req {
        e.len()
    } else {
        req
    };
    let alen = if a.len() >= req {
        a.len()
    } else {
        req
    };
    assert(pe.len() == elen && pa.len() == alen);
    if elen != alen {
        assert(masked(pe, mask@).len() != masked(pa, mask@).len());
        return false;
    }
    let mut i: usize = 0;
    while i < elen
        invariant
            i <= elen,
            elen == alen,
            pe.len() == elen,
            pa.len() == alen,
            pe == pad_to(e@, mask_end(mask@)),
            pa == pad_to(a@, mask_end(mask@)),
            req as nat == mask_end(mask@),
            elen == (if e@.len() >= req {
                e@.len() as int
            } else {
                req as int
            }),
            alen == (if a@.len() >= req {
                a@.len() as int
            } else {
                req as int
            }),
            forall|k: int| 0 <= k < i ==> #[trigger] masked(pe, mask@)[k] == masked(pa, mask@)[k],
        decreases elen - i,
    {
        if i >= usize::MAX {
            proof {
                assert(false);
            }
        }
        let m = col_masked(mask, i + 1);
        if !m {
            let ce = if i < e.len() {
                e[i]
            } else {
                ' '
            };
            let ca = if i < a.len() {
                a[i]
            } else {
                ' '
            };
            assert(ce == pe[i as int] && ca == pa[i as int]);
            if ce != ca {
                assert(masked(pe, mask@)[i as int] != masked(pa, mask@)[i as int]);
                return false;
            }
        }
        assert(masked(pe, mask@)[i as int] == masked(pa, mask@)[i as int]);
        i += 1;
    }
    assert(masked(pe, mask@) =~= masked(pa, mask@));
    true
}

/// Whether two lines of text agree once the masked column ranges are
/// ignored, both lines padded with blanks to the masked width first.
pub fn lines_match_with_mask(expected: &str, actual: &str, mask: &[ColumnRange]) -> (r: bool)
    ensures
        r == lines_match_spec(expected@, actual@, mask@),
{
    let e = str_chars(expected);
    let a = str_chars(actual);
    lines_match_chars(&e, &a, mask)
}

/// The line of `ls` at `i`, or nothing past the end.
pub open spec fn line_at(ls: Seq<Seq<char>>, i: int) -> Seq<char> {
    if 0 <= i < ls.len() {
        ls[i]
    } else {
        Seq::empty()
    }
}

/// The report entry for one differing line.
pub open spec fn diff_entry(i: int, e: Seq<char>, a: Seq<char>) -> Seq<char> {
    "line "@ + pad_left(dec_digits((i + 1) as nat), 4) + ":\n  expected |"@ + e + "|\n  actual   |"@
        + a + "|\n"@
}

/// The report entries for all differing lines from index `i` on.
pub open spec fn diff_body(
    el: Seq<Seq<char>>,
    al: Seq<Seq<char>>,
    mask: Seq<ColumnRange>,
    i: int,
    n: int,
) -> Seq<char>
    decreases n - i,
{
    if i < 0 || i >= n {
        Seq::empty()
    } else {
        (if lines_match_spec(line_at(el, i), line_at(al, i), mask) {
            Seq::<char>::empty()
        } else {
            diff_entry(i, line_at(el, i), line_at(al, i))
        }) + diff_body(el, al, mask, i + 1, n)
    }
}

/// Whether any of the first `n` line pairs disagree under the mask.
pub open spec fn any_diff(
    el: Seq<Seq<char>>,
    al: Seq<Seq<char>>,
    mask: Seq<ColumnRange>,
    n: int,
) -> bool {
    exists|i: int| 0 <= i < n && !lines_match_spec(#[trigger] line_at(el, i), line_at(al, i), mask)
}

/// Compare two texts line by line, ignoring the masked column ranges,
/// and render a human-readable report: one entry per differing line, or
/// a single passed notice when nothing differs. The flag says whether
/// anything differed.
#[verifier::loop_isolation(false)]
#[verifier::rlimit(60)]
pub fn diff_text(expected: &str, actual: &str, mask: &[ColumnRange]) -> (r: (String, bool))
    ensures
        ({
            let el = split_lines(expected@);
            let al = split_lines(actual@);
            let n = if el.len() >= al.len() {
                el.len() as int
            } else {
                al.len() as int
            };
            &&& r.1 == any_diff(el, al, mask@, n)
            &&& r.0@ == diff_body(el, al, mask@, 0, n) + (if r.1 {
                Seq::<char>::empty()
            } else {
                "verification passed: no differences\n"@
            })
        }),
{
    let ghost el = split_lines(expected@);
    let ghost al = split_lines(actual@);
    let e_chars = str_chars(expected);
    let a_chars = str_chars(actual);
    let e_lines = split_lines_vec(&e_chars);
    let a_lines = split_lines_vec(&a_chars);
    let n = if e_lines.len() >= a_lines.len() {
        e_lines.len()
    } else {
        a_lines.len()
    };
    let ghost gn = n as int;
    let mut out: Vec<char> = Vec::new();
    let mut changed = false;
    let mut i: usize = 0;
    while i < n
        invariant
            i <= n,
            e_lines.deep_view() == el,
            a_lines.deep_view() == al,
            el.len() == e_lines@.len(),
            al.len() == a_lines@.len(),
            gn == n as int,
            n == (if el.len() >= al.len() {
                el.len() as int
            } else {
                al.len() as int
            }),
            changed == any_diff(el, al, mask@, i as int),
            out@ + diff_body(el, al, mask@, i as int, gn) == diff_body(el, al, mask@, 0, gn),
        decreases n - i,
    {
        let e_line = if i < e_lines.len() {
            e_lines[i].clone()
        } else {
            Vec::new()
        };
        let a_line = if i < a_lines.len() {
            a_lines[i].clone()
        } else {
            Vec::new()
        };
        proof {
            if i < e_lines@.len() {
                assert(el[i as int] == e_lines@[i as int]@);
            }
            if i < a_lines@.len() {
                assert(al[i as int] == a_lines@[i as int]@);
            }
            assert(e_line@ =~= line_at(el, i as int));
            assert(a_line@ =~= line_at(al, i as int));
        }
        let matches_here = lines_match_chars(&e_line, &a_line, mask);
        if !matches_here {
            changed = true;
            let mut seg = str_chars("line ");
            out.append(&mut seg);
            let mut num = pad_left_chars(&dec_chars((i + 1) as u64), 4);
            out.append(&mut num);
            let mut seg = str_chars(":\n  expected |");
            out.append(&mut seg);
            let mut e_copy = e_line;
            out.append(&mut e_copy);
            let mut seg = str_chars("|\n  actual   |");
            out.append(&mut seg);
            let mut a_copy = a_line;
            out.append(&mut a_copy);
            let mut seg = str_chars("|\n");
            out.append(&mut seg);
            proof {
                assert(":\n  expected |"@ =~= ":\n  expected |"@);
            }
        }
        proof {
            if changed {
                assert(!lines_match_spec(line_at(el, i as int), line_at(al, i as int), mask@)
                    || any_diff(el, al, mask@, i as int));
            }
            assert(changed == any_diff(el, al, mask@, i + 1));
            assert(diff_body(el, al, mask@, i as int, gn) == (if lines_match_spec(
                line_at(el, i as int),
                line_at(al, i as int),
                mask@,
            ) {
                Seq::<char>::empty()
            } else {
                diff_entry(i as int, line_at(el, i as int), line_at(al, i as int))
            }) + diff_body(el, al, mask@, i + 1, gn));
            assert(out@ + diff_body(el, al, mask@, i + 1, gn) =~= diff_body(
                el,
                al,
                mask@,
                0,
                gn,
            ));
        }
        i += 1;
    }
    assert(out@ =~= diff_body(el, al, mask@, 0, gn));
    if !changed {
        let mut seg = str_chars("verification passed: no differences\n");
        out.append(&mut seg);
    }
    (chars_to_string(&out), changed)
}

} // verus!
