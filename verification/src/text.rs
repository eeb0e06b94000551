//! Small helpers for working with card text as sequences of characters:
//! conversion between `&str`/`String` and `Vec<char>`, blank padding, and
//! decimal digit strings for sequence numbers and timestamps.

use vstd::prelude::*;
use vstd::string::StrSliceExecFns;

verus! {

/// `n` space characters.
pub open spec fn blank_chars(n: nat) -> Seq<char> {
    Seq::new(n, |i: int| ' ')
}

/// `t` padded with trailing spaces to length `n` (unchanged if already
/// at least that long).
pub open spec fn pad_to(t: Seq<char>, n: nat) -> Seq<char> {
    if t.len() >= n {
        t
    } else {
        t + blank_chars((n - t.len()) as nat)
    }
}

/// The digit character for a value below ten.
pub open spec fn digit_char(d: nat) -> char {
    if d == 0 {
        '0'
    } else if d == 1 {
        '1'
    } else if d == 2 {
        '2'
    } else if d == 3 {
        '3'
    } else if d == 4 {
        '4'
    } else if d == 5 {
        '5'
    } else if d == 6 {
        '6'
    } else if d == 7 {
        '7'
    } else if d == 8 {
        '8'
    } else if d == 9 {
        '9'
    } else {
        '?'
    }
}

/// Decimal representation of `n`, most significant digit first, with no
/// leading zeros (a single `'0'` for zero).
pub open spec fn dec_digits(n: nat) -> Seq<char>
    decreases n,
{
    if n < 10 {
        seq![digit_char(n)]
    } else {
        dec_digits(n / 10).push(digit_char(n % 10))
    }
}

/// `s` left-padded with spaces to width `n` (unchanged if already as wide).
pub open spec fn pad_left(s: Seq<char>, n: nat) -> Seq<char> {
    if s.len() >= n {
        s
    } else {
        blank_chars((n - s.len()) as nat) + s
    }
}

/// `n` zero characters.
pub open spec fn zero_chars(n: nat) -> Seq<char> {
    Seq::new(n, |i: int| '0')
}

/// `s` left-padded with zeros to width `n` (unchanged if already as wide).
pub open spec fn pad_left_zeros(s: Seq<char>, n: nat) -> Seq<char> {
    if s.len() >= n {
        s
    } else {
        zero_chars((n - s.len()) as nat) + s
    }
}

/// Normalising to a width is idempotent: already-wide-enough text is
/// unchanged, shorter text is padded with trailing blanks without
/// altering any existing character.
pub proof fn lemma_pad_to_idempotent(t: Seq<char>, n: nat)
    ensures
        pad_to(pad_to(t, n), n) == pad_to(t, n),
        t.len() >= n ==> pad_to(t, n) == t,
        t.len() <= n ==> pad_to(t, n).len() == n,
        pad_to(t, n).take(t.len() as int) == t,
        forall|k: int| t.len() <= k < n ==> pad_to(t, n)[k] == ' ',
{
    assert(pad_to(t, n).take(t.len() as int) =~= t);
    if t.len() < n {
        assert(pad_to(pad_to(t, n), n) == pad_to(t, n));
    }
}

/// The characters of `s`, in order.
pub fn str_chars(s: &str) -> (r: Vec<char>)
    ensures
        r@ == s@,
{
    let n = s.unicode_len();
    let mut v: Vec<char> = Vec::new();
    let mut i: usize = 0;
    while i < n
        invariant
            i <= n,
            n == s@.len(),
            v@ == s@.take(i as int),
        decreases n - i,
    {
        v.push(s.get_char(i));
        i += 1;
    }
    assert(s@.take(n as int) =~= s@);
    v
}

/// Relies on `String`'s `FromIterator<char>` implementation: collecting
/// characters yields a string holding exactly those characters in order.
#[verifier::external_body]
pub fn chars_to_string(v: &Vec<char>) -> (r: String)
    ensures
        r@ == v@,
{
    v.iter().collect()
}

/// A vector of `n` spaces.
pub fn blank_text(n: usize) -> (r: Vec<char>)
    ensures
        r@ == blank_chars(n as nat),
{
    let mut v: Vec<char> = Vec::new();
    let mut i: usize = 0;
    while i < n
        invariant
            i <= n,
            v@ == blank_chars(i as nat),
        decreases n - i,
    {
        v.push(' ');
        assert(v@ =~= blank_chars((i + 1) as nat));
        i += 1;
    }
    v
}

/// The digit character of a value below ten, in executable form.
pub fn digit_to_char(d: u64) -> (r: char)
    requires
        d < 10,
    ensures
        r == digit_char(d as nat),
{
    match d {
        0 => '0',
        1 => '1',
        2 => '2',
        3 => '3',
        4 => '4',
        5 => '5',
        6 => '6',
        7 => '7',
        8 => '8',
        _ => '9',
    }
}

/// Decimal digits of `n`, in executable form.
pub fn dec_chars(n: u64) -> (r: Vec<char>)
    ensures
        r@ == dec_digits(n as nat),
    decreases n,
{
    if n < 10 {
        let mut v: Vec<char> = Vec::new();
        v.push(digit_to_char(n));
        assert(v@ =~= dec_digits(n as nat));
        v
    } else {
        let mut v = dec_chars(n / 10);
        v.push(digit_to_char(n % 10));
        v
    }
}

/// `s` left-padded with spaces to width `n`, in executable form.
pub fn pad_left_chars(s: &Vec<char>, n: usize) -> (r: Vec<char>)
    ensures
        r@ == pad_left(s@, n as nat),
{
    if s.len() >= n {
        s.clone()
    } else {
        let mut r = blank_text(n - s.len());
        let mut t = s.clone();
        r.append(&mut t);
        r
    }
}

/// A vector of `n` zeros.
fn zero_text(n: usize) -> (r: Vec<char>)
    ensures
        r@ == zero_chars(n as nat),
{
    let mut v: Vec<char> = Vec::new();
    let mut i: usize = 0;
    while i < n
        invariant
            i <= n,
            v@ == zero_chars(i as nat),
        decreases n - i,
    {
        v.push('0');
        assert(v@ =~= zero_chars((i + 1) as nat));
        i += 1;
    }
    v
}

/// `s` left-padded with zeros to width `n`, in executable form.
pub fn pad_left_zeros_chars(s: &Vec<char>, n: usize) -> (r: Vec<char>)
    ensures
        r@ == pad_left_zeros(s@, n as nat),
{
    if s.len() >= n {
        s.clone()
    } else {
        let mut r = zero_text(n - s.len());
        let mut t = s.clone();
        r.append(&mut t);
        r
    }
}

} // verus!
