//! Shared character-level machinery: digit classification, base-10 values of
//! digit runs, and splitting raw text into lines.

use vstd::prelude::*;

verus! {

/// A decimal digit character `'0'`..`'9'`.
pub open spec fn is_digit(c: char) -> bool {
    48 <= c as int <= 57
}

/// The numeric value of a digit character; 0 for anything else.
pub open spec fn digit_val(c: char) -> nat {
    if is_digit(c) {
        (c as int - 48) as nat
    } else {
        0
    }
}

/// Base-10 value of a digit sequence, accumulated left to right.
pub open spec fn seq_value(digits: Seq<char>) -> nat
    decreases digits.len(),
{
    if digits.len() == 0 {
        0
    } else {
        seq_value(digits.drop_last()) * 10 + digit_val(digits.last())
    }
}

/// Length of the digit run in `s` that starts at position `c`
/// (0 when `s[c]` is out of bounds or not a digit).
pub open spec fn run_len(s: Seq<char>, c: int) -> nat
    decreases s.len() - c,
{
    if c < 0 || c >= s.len() || !is_digit(s[c]) {
        0
    } else {
        1 + run_len(s, c + 1)
    }
}

/// A digit run occupies exactly the digit positions that follow its start.
pub proof fn lemma_run_len_characterizes(s: Seq<char>, c: int, e: int)
    requires
        0 <= c <= e <= s.len(),
        forall|q: int| c <= q < e ==> is_digit(s[q]),
        e == s.len() || !is_digit(s[e]),
    ensures
        run_len(s, c) == e - c,
    decreases e - c,
{
    if c < e {
        lemma_run_len_characterizes(s, c + 1, e);
    }
}

/// Every position of a digit run holds a digit, and the run is maximal.
pub proof fn lemma_run_len_digits(s: Seq<char>, c: int)
    requires
        0 <= c <= s.len(),
    ensures
        c + run_len(s, c) <= s.len(),
        forall|q: int| c <= q < c + run_len(s, c) ==> is_digit(s[q]),
        c + run_len(s, c) == s.len() || !is_digit(s[c + run_len(s, c)]),
    decreases s.len() - c,
{
    if c < s.len() && is_digit(s[c]) {
        lemma_run_len_digits(s, c + 1);
    }
}

/// The value of a prefix of a digit sequence never exceeds the whole value.
pub proof fn lemma_seq_value_prefix(digits: Seq<char>, i: int)
    requires
        0 <= i <= digits.len(),
    ensures
        seq_value(digits.take(i)) <= seq_value(digits),
    decreases digits.len() - i,
{
    if i < digits.len() {
        lemma_seq_value_prefix(digits, i + 1);
        assert(digits.take(i + 1).drop_last() =~= digits.take(i));
        assert(seq_value(digits.take(i + 1)) == seq_value(digits.take(i)) * 10 + digit_val(
            digits.take(i + 1).last(),
        ));
    } else {
        assert(digits.take(i) =~= digits);
    }
}

/// Appending one digit multiplies the value by ten and adds that digit.
pub proof fn lemma_seq_value_step(s: Seq<char>, lo: int, hi: int)
    requires
        0 <= lo <= hi < s.len(),
    ensures
        seq_value(s.subrange(lo, hi + 1)) == seq_value(s.subrange(lo, hi)) * 10 + digit_val(s[hi]),
{
    assert(s.subrange(lo, hi + 1).drop_last() =~= s.subrange(lo, hi));
    assert(s.subrange(lo, hi + 1).last() == s[hi]);
}

/// The rows of a text: split at `'\n'`, with a `'\r'` immediately before a
/// `'\n'` dropped, and no empty final row after a trailing newline.
pub open spec fn spec_lines(s: Seq<char>) -> Seq<Seq<char>>
    decreases s.len(),
{
    if s.len() == 0 {
        Seq::empty()
    } else if s[0] == '\n' {
        seq![Seq::empty()] + spec_lines(s.skip(1))
    } else if s[0] == '\r' && s.len() >= 2 && s[1] == '\n' {
        seq![Seq::empty()] + spec_lines(s.skip(2))
    } else {
        let rest = spec_lines(s.skip(1));
        if rest.len() == 0 {
            seq![seq![s[0]]]
        } else {
            seq![seq![s[0]] + rest[0]] + rest.skip(1)
        }
    }
}

/// The characters of a string, as a vector.
///
/// Relies on `vstd`'s `str::get_char` and `str::unicode_len`.
pub fn str_to_chars(s: &str) -> (v: Vec<char>)
    ensures
        v@ == s@,
{
    let n: usize = s.unicode_len();
    let mut v: Vec<char> = Vec::new();
    let mut i: usize = 0;
    while i < n
        invariant
            n == s@.len(),
            0 <= i <= n,
            v@ =~= s@.take(i as int),
        decreases n - i,
    {
        let c = s.get_char(i);
        v.push(c);
        proof {
            assert(v@ =~= s@.take(i + 1 as int));
        }
        i += 1;
    }
    proof {
        assert(s@.take(n as int) =~= s@);
    }
    v
}

/// A three-character word occurs in `s` at position `i`.
pub open spec fn match3(s: Seq<char>, i: int, a: char, b: char, c: char) -> bool {
    i >= 0 && i + 3 <= s.len() && s[i] == a && s[i + 1] == b && s[i + 2] == c
}

/// A four-character word occurs in `s` at position `i`.
pub open spec fn match4(s: Seq<char>, i: int, a: char, b: char, c: char, d: char) -> bool {
    i >= 0 && i + 4 <= s.len() && s[i] == a && s[i + 1] == b && s[i + 2] == c && s[i + 3] == d
}

/// A five-character word occurs in `s` at position `i`.
pub open spec fn match5(s: Seq<char>, i: int, a: char, b: char, c: char, d: char, e: char) -> bool {
    i >= 0 && i + 5 <= s.len() && s[i] == a && s[i + 1] == b && s[i + 2] == c && s[i + 3] == d
        && s[i + 4] == e
}

/// Test a three-character word at position `i`.
pub fn word3(v: &Vec<char>, i: usize, a: char, b: char, c: char) -> (m: bool)
    ensures
        m == match3(v@, i as int, a, b, c),
{
    if v.len() < 3 || i > v.len() - 3 {
        false
    } else {
        v[i] == a && v[i + 1] == b && v[i + 2] == c
    }
}

/// Test a four-character word at position `i`.
pub fn word4(v: &Vec<char>, i: usize, a: char, b: char, c: char, d: char) -> (m: bool)
    ensures
        m == match4(v@, i as int, a, b, c, d),
{
    if v.len() < 4 || i > v.len() - 4 {
        false
    } else {
        v[i] == a && v[i + 1] == b && v[i + 2] == c && v[i + 3] == d
    }
}

/// Test a five-character word at position `i`.
pub fn word5(v: &Vec<char>, i: usize, a: char, b: char, c: char, d: char, e: char) -> (m: bool)
    ensures
        m == match5(v@, i as int, a, b, c, d, e),
{
    if v.len() < 5 || i > v.len() - 5 {
        false
    } else {
        v[i] == a && v[i + 1] == b && v[i + 2] == c && v[i + 3] == d && v[i + 4] == e
    }
}

/// Whether a character is a decimal digit.
pub fn digit_char(c: char) -> (b: bool)
    ensures
        b == is_digit(c),
{
    let u = c as u32;
    48 <= u && u <= 57
}

/// The numeric value of a digit character.
pub fn digit_char_val(c: char) -> (v: u32)
    requires
        is_digit(c),
    ensures
        v == digit_val(c),
{
    c as u32 - 48
}

} // verus!
