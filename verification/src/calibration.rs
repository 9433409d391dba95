//! Recovering calibration digits from a text line: every occurrence of a
//! digit character `1`..`9` or of a spelled-out digit word (`one` .. `nine`),
//! reported in order of position. Occurrences may overlap (`eightwo` holds
//! both an 8 and a 2), and `0` is not recognized.

use vstd::prelude::*;

use crate::text::match3;
use crate::text::match4;
use crate::text::match5;
use crate::text::str_to_chars;
use crate::text::word3;
use crate::text::word4;
use crate::text::word5;

verus! {

/// The spelled-out digit word starting at position `i`, if any.
pub open spec fn spelled_at(s: Seq<char>, i: int) -> Option<u32> {
    if match3(s, i, 'o', 'n', 'e') {
        Some(1u32)
    } else if match3(s, i, 't', 'w', 'o') {
        Some(2u32)
    } else if match5(s, i, 't', 'h', 'r', 'e', 'e') {
        Some(3u32)
    } else if match4(s, i, 'f', 'o', 'u', 'r') {
        Some(4u32)
    } else if match4(s, i, 'f', 'i', 'v', 'e') {
        Some(5u32)
    } else if match3(s, i, 's', 'i', 'x') {
        Some(6u32)
    } else if match5(s, i, 's', 'e', 'v', 'e', 'n') {
        Some(7u32)
    } else if match5(s, i, 'e', 'i', 'g', 'h', 't') {
        Some(8u32)
    } else if match4(s, i, 'n', 'i', 'n', 'e') {
        Some(9u32)
    } else {
        None
    }
}

/// The digit found at position `i`: a digit character `1`..`9`, or a
/// spelled-out digit word starting there.
pub open spec fn digit_at(s: Seq<char>, i: int) -> Option<u32> {
    if 0 <= i < s.len() && 49 <= s[i] as int <= 57 {
        Some((s[i] as int - 48) as u32)
    } else {
        spelled_at(s, i)
    }
}

/// The digits found at positions `i` and later, in order of position.
pub open spec fn real_digits_from(s: Seq<char>, i: int) -> Seq<u32>
    decreases s.len() - i,
{
    if i < 0 || i >= s.len() {
        Seq::empty()
    } else {
        match digit_at(s, i) {
            Some(d) => seq![d] + real_digits_from(s, i + 1),
            None => real_digits_from(s, i + 1),
        }
    }
}

/// All digits of the line, in order of position.
pub open spec fn spec_real_digits(s: Seq<char>) -> Seq<u32> {
    real_digits_from(s, 0)
}

/// The digit found at position `i`, as executable code.
fn digit_at_pos(v: &Vec<char>, i: usize) -> (r: Option<u32>)
    requires
        i < v@.len(),
    ensures
        r == digit_at(v@, i as int),
{
    let c = v[i];
    if crate::text::digit_char(c) && c != '0' {
        return Some(crate::text::digit_char_val(c));
    }
    if word3(v, i, 'o', 'n', 'e') {
        return Some(1);
    }
    if word3(v, i, 't', 'w', 'o') {
        return Some(2);
    }
    if word5(v, i, 't', 'h', 'r', 'e', 'e') {
        return Some(3);
    }
    if word4(v, i, 'f', 'o', 'u', 'r') {
        return Some(4);
    }
    if word4(v, i, 'f', 'i', 'v', 'e') {
        return Some(5);
    }
    if word3(v, i, 's', 'i', 'x') {
        return Some(6);
    }
    if word5(v, i, 's', 'e', 'v', 'e', 'n') {
        return Some(7);
    }
    if word5(v, i, 'e', 'i', 'g', 'h', 't') {
        return Some(8);
    }
    if word4(v, i, 'n', 'i', 'n', 'e') {
        return Some(9);
    }
    None
}

/// Every digit of the line — digit characters `1`..`9` and spelled-out
/// words `one` .. `nine` — in order of position.
pub fn real_digits(line: &str) -> (digits: Vec<u32>)
    ensures
        digits@ == spec_real_digits(line@),
{
    let v = str_to_chars(line);
    let ghost s = v@;
    let mut digits: Vec<u32> = Vec::new();
    let mut i: usize = 0;
    proof {
        assert(digits@ + real_digits_from(s, 0) =~= real_digits_from(s, 0));
    }
    while i < v.len()
        invariant
            s == v@,
            s == line@,
            i <= s.len(),
            spec_real_digits(s) == digits@ + real_digits_from(s, i as int),
        decreases s.len() - i,
    {
        let found = digit_at_pos(&v, i);
        let ghost digits_before = digits@;
        match found {
            Some(d) => {
                digits.push(d);
                proof {
                    assert(digits_before + (seq![d] + real_digits_from(s, i as int + 1))
                        =~= digits@ + real_digits_from(s, i as int + 1));
                }
            },
            None => {},
        }
        i += 1;
    }
    proof {
        assert(real_digits_from(s, i as int) =~= Seq::<u32>::empty());
        assert(digits@ + real_digits_from(s, i as int) =~= digits@);
    }
    digits
}

} // verus!
