//! Cube-game records: a game line names an id and a sequence of turns, each
//! turn a comma-separated list of `<count> <color>` draws. A turn keeps the
//! last count named for each color; colors not named count 0.

use vstd::prelude::*;

use crate::text::digit_char;
use crate::text::digit_char_val;
use crate::text::is_digit;
use crate::text::lemma_run_len_characterizes;
use crate::text::lemma_run_len_digits;
use crate::text::lemma_seq_value_prefix;
use crate::text::lemma_seq_value_step;
use crate::text::match3;
use crate::text::match4;
use crate::text::match5;
use crate::text::run_len;
use crate::text::seq_value;
use crate::text::str_to_chars;
use crate::text::word3;
use crate::text::word4;
use crate::text::word5;

verus! {

/// One turn of a game: how many cubes of each color were drawn.
#[derive(Clone, Copy, Debug, PartialEq, Eq, Structural)]
pub struct Turn {
    pub red: u32,
    pub green: u32,
    pub blue: u32,
}

/// A whole game: its id and its turns, in order.
#[derive(Debug)]
pub struct Game {
    pub id: u32,
    pub turns: Vec<Turn>,
}

/// The word `red`.
pub open spec fn red_word() -> Seq<char> {
    seq!['r', 'e', 'd']
}

/// The word `green`.
pub open spec fn green_word() -> Seq<char> {
    seq!['g', 'r', 'e', 'e', 'n']
}

/// The word `blue`.
pub open spec fn blue_word() -> Seq<char> {
    seq!['b', 'l', 'u', 'e']
}

/// Every entry names one of the three colors.
pub open spec fn valid_colors(input: Seq<(u32, &str)>) -> bool {
    forall|i: int|
        0 <= i < input.len() ==> {
            let w = (#[trigger] input[i]).1@;
            w == red_word() || w == green_word() || w == blue_word()
        }
}

/// The count the last entry for `word` names, or 0 when none does.
pub open spec fn color_of(input: Seq<(u32, &str)>, word: Seq<char>) -> u32
    decreases input.len(),
{
    if input.len() == 0 {
        0
    } else if input.last().1@ == word {
        input.last().0
    } else {
        color_of(input.drop_last(), word)
    }
}

/// A turn with no cubes drawn.
pub open spec fn zero_turn() -> Turn {
    Turn { red: 0, green: 0, blue: 0 }
}

/// The turn `t` with the color numbered `color` (1 red, 2 green, 3 blue)
/// set to `count`.
pub open spec fn with_color(t: Turn, color: int, count: u32) -> Turn {
    if color == 1 {
        Turn { red: count, green: t.green, blue: t.blue }
    } else if color == 2 {
        Turn { red: t.red, green: count, blue: t.blue }
    } else {
        Turn { red: t.red, green: t.green, blue: count }
    }
}

/// Parse one `<count> <color>` entry at position `i`: the count, the color
/// number (1 red, 2 green, 3 blue), and the position just past the entry.
pub open spec fn parse_entry(s: Seq<char>, i: int) -> Option<(u32, int, int)> {
    let l = run_len(s, i) as int;
    if l == 0 {
        None
    } else if seq_value(s.subrange(i, i + l)) > u32::MAX {
        None
    } else {
        let j = i + l;
        let cnt = seq_value(s.subrange(i, i + l)) as u32;
        if !(j < s.len() && s[j] == ' ') {
            None
        } else if match3(s, j + 1, 'r', 'e', 'd') {
            Some((cnt, 1int, j + 4))
        } else if match5(s, j + 1, 'g', 'r', 'e', 'e', 'n') {
            Some((cnt, 2int, j + 6))
        } else if match4(s, j + 1, 'b', 'l', 'u', 'e') {
            Some((cnt, 3int, j + 5))
        } else {
            None
        }
    }
}

/// The next parse position: two past `e`, clamped for termination.
pub open spec fn next_pos(e: int, i: int, len: int) -> int {
    let b = if e < i {
        i
    } else {
        e
    };
    if b + 2 <= len {
        b + 2
    } else {
        len
    }
}

/// Parse one turn starting at position `i`, over the accumulator `acc`:
/// entries separated by `", "`, ending at the string's end or before a `;`.
/// Later entries for a color override earlier ones.
pub open spec fn parse_turn(s: Seq<char>, i: int, acc: Turn) -> Option<(Turn, int)>
    decreases s.len() - i,
{
    if i < 0 || i >= s.len() {
        None
    } else {
        match parse_entry(s, i) {
            None => None,
            Some(entry) => {
                let acc2 = with_color(acc, entry.1, entry.0);
                let e = entry.2;
                if e >= s.len() || s[e] == ';' {
                    Some((acc2, e))
                } else if e + 1 < s.len() && s[e] == ',' && s[e + 1] == ' ' {
                    parse_turn(s, next_pos(e, i, s.len() as int), acc2)
                } else {
                    None
                }
            },
        }
    }
}

/// Parse the turns starting at position `i`, separated by `"; "`, appending
/// to `acc`.
pub open spec fn parse_turns(s: Seq<char>, i: int, acc: Seq<Turn>) -> Option<Seq<Turn>>
    decreases s.len() - i,
{
    if i < 0 || i >= s.len() {
        None
    } else {
        match parse_turn(s, i, zero_turn()) {
            None => None,
            Some(p) => {
                let e = p.1;
                if e >= s.len() {
                    Some(acc.push(p.0))
                } else if s[e] == ';' && e + 1 < s.len() && s[e + 1] == ' ' {
                    parse_turns(s, next_pos(e, i, s.len() as int), acc.push(p.0))
                } else {
                    None
                }
            },
        }
    }
}

/// Parse a whole game line: `Game <id>: <turn>; <turn>; ...`.
pub open spec fn parse_line(s: Seq<char>) -> Option<(u32, Seq<Turn>)> {
    if !match5(s, 0, 'G', 'a', 'm', 'e', ' ') {
        None
    } else {
        let l = run_len(s, 5) as int;
        if l == 0 {
            None
        } else if seq_value(s.subrange(5, 5 + l)) > u32::MAX {
            None
        } else {
            let j = 5 + l;
            if !(j + 1 < s.len() && s[j] == ':' && s[j + 1] == ' ') {
                None
            } else {
                match parse_turns(s, j + 2, Seq::empty()) {
                    None => None,
                    Some(ts) => Some((seq_value(s.subrange(5, 5 + l)) as u32, ts)),
                }
            }
        }
    }
}

/// A turn needing more of some color than the limit allows.
pub open spec fn exceeds(t: Turn, limit: Turn) -> bool {
    t.red > limit.red || t.green > limit.green || t.blue > limit.blue
}

/// The largest red count over the turns.
pub open spec fn max_red(ts: Seq<Turn>) -> u32
    decreases ts.len(),
{
    if ts.len() == 0 {
        0
    } else if ts.last().red > max_red(ts.drop_last()) {
        ts.last().red
    } else {
        max_red(ts.drop_last())
    }
}

/// The largest green count over the turns.
pub open spec fn max_green(ts: Seq<Turn>) -> u32
    decreases ts.len(),
{
    if ts.len() == 0 {
        0
    } else if ts.last().green > max_green(ts.drop_last()) {
        ts.last().green
    } else {
        max_green(ts.drop_last())
    }
}

/// The largest blue count over the turns.
pub open spec fn max_blue(ts: Seq<Turn>) -> u32
    decreases ts.len(),
{
    if ts.len() == 0 {
        0
    } else if ts.last().blue > max_blue(ts.drop_last()) {
        ts.last().blue
    } else {
        max_blue(ts.drop_last())
    }
}

/// Parse the digit run at position `i` as a `u32`, returning the value and
/// the position just past the run.
fn parse_number(v: &Vec<char>, i: usize) -> (r: (u32, usize))
    requires
        i < v@.len(),
        run_len(v@, i as int) >= 1,
        seq_value(v@.subrange(i as int, i as int + run_len(v@, i as int))) <= u32::MAX,
    ensures
        r.0 == seq_value(v@.subrange(i as int, i as int + run_len(v@, i as int))),
        r.1 == i + run_len(v@, i as int),
        r.1 <= v@.len(),
{
    let ghost s = v@;
    let n = v.len();
    proof {
        if !is_digit(s[i as int]) {
            assert(run_len(s, i as int) == 0);
        }
        let one = s.subrange(i as int, i as int + 1);
        assert(one.drop_last() =~= Seq::<char>::empty());
        assert(seq_value(one.drop_last()) == 0);
        assert(one.last() == s[i as int]);
        assert(seq_value(one) == crate::text::digit_val(s[i as int]));
    }
    let mut value: u32 = digit_char_val(v[i]);
    let mut j: usize = i + 1;
    while j < v.len() && digit_char(v[j])
        invariant
            s == v@,
            n == s.len(),
            i < j <= s.len(),
            run_len(s, i as int) >= 1,
            seq_value(s.subrange(i as int, i as int + run_len(s, i as int))) <= u32::MAX,
            forall|q: int| i <= q < j ==> is_digit(s[q]),
            value == seq_value(s.subrange(i as int, j as int)),
        decreases s.len() - j,
    {
        proof {
            lemma_run_len_digits(s, i as int);
            if run_len(s, i as int) < j - i + 1 {
                assert(is_digit(s[i + run_len(s, i as int)]));
                assert(false);
            }
            let full = s.subrange(i as int, i + run_len(s, i as int));
            lemma_seq_value_prefix(full, j - i + 1);
            assert(full.take(j - i + 1) =~= s.subrange(i as int, j as int + 1));
            lemma_seq_value_step(s, i as int, j as int);
            assert(seq_value(s.subrange(i as int, j as int + 1)) <= u32::MAX);
        }
        value = value * 10 + digit_char_val(v[j]);
        j += 1;
    }
    proof {
        lemma_run_len_characterizes(s, i as int, j as int);
    }
    (value, j)
}

/// Parse one `<count> <color>` entry, as executable code.
fn parse_entry_exec(v: &Vec<char>, i: usize) -> (r: (u32, u8, usize))
    requires
        parse_entry(v@, i as int) is Some,
    ensures
        parse_entry(v@, i as int) == Some((r.0, r.1 as int, r.2 as int)),
        r.2 > i,
{
    let ghost s = v@;
    let n = v.len();
    proof {
        if i as int >= s.len() {
            assert(run_len(s, i as int) == 0);
        }
        assert(run_len(s, i as int) >= 1);
        assert(seq_value(s.subrange(i as int, i as int + run_len(s, i as int))) <= u32::MAX);
    }
    let pr = parse_number(v, i);
    let cnt = pr.0;
    let j = pr.1;
    proof {
        if !((j as int) < s.len() && s[j as int] == ' ') {
            assert(parse_entry(s, i as int) is None);
        }
        assert(j < n);
    }
    if word3(v, j + 1, 'r', 'e', 'd') {
        (cnt, 1, j + 4)
    } else if word5(v, j + 1, 'g', 'r', 'e', 'e', 'n') {
        (cnt, 2, j + 6)
    } else {
        proof {
            assert(match4(s, j as int + 1, 'b', 'l', 'u', 'e'));
        }
        (cnt, 3, j + 5)
    }
}

/// Parse one turn, as executable code: the turn and the position at which
/// it ended (the string's end or a `;`).
fn parse_turn_exec(v: &Vec<char>, i0: usize) -> (r: (Turn, usize))
    requires
        parse_turn(v@, i0 as int, zero_turn()) is Some,
    ensures
        parse_turn(v@, i0 as int, zero_turn()) == Some((r.0, r.1 as int)),
        r.1 > i0,
{
    let ghost s = v@;
    let mut t = Turn { red: 0, green: 0, blue: 0 };
    let mut i: usize = i0;
    loop
        invariant
            s == v@,
            i0 <= i,
            parse_turn(s, i as int, t) == parse_turn(s, i0 as int, zero_turn()),
            parse_turn(s, i as int, t) is Some,
        decreases s.len() - i,
    {
        let er = parse_entry_exec(v, i);
        let cnt = er.0;
        let col = er.1;
        let e = er.2;
        let t2 = if col == 1 {
            Turn { red: cnt, green: t.green, blue: t.blue }
        } else if col == 2 {
            Turn { red: t.red, green: cnt, blue: t.blue }
        } else {
            Turn { red: t.red, green: t.green, blue: cnt }
        };
        proof {
            assert(t2 == with_color(t, col as int, cnt));
        }
        if e >= v.len() || v[e] == ';' {
            proof {
                assert(parse_turn(s, i as int, t) == Some((t2, e as int)));
            }
            return (t2, e);
        }
        proof {
            if !(e + 1 < s.len() && s[e as int] == ',' && s[e as int + 1] == ' ') {
                assert(parse_turn(s, i as int, t) is None);
                assert(false);
            }
            assert(next_pos(e as int, i as int, s.len() as int) == e + 2);
        }
        i = e + 2;
        t = t2;
    }
}

impl Turn {
    /// Build a turn from `<count, color-name>` entries; for each color the
    /// last entry wins, and unnamed colors stay 0.
    pub fn from(input: Vec<(u32, &str)>) -> (t: Turn)
        requires
            valid_colors(input@),
        ensures
            t.red == color_of(input@, red_word()),
            t.green == color_of(input@, green_word()),
            t.blue == color_of(input@, blue_word()),
    {
        let mut red: u32 = 0;
        let mut green: u32 = 0;
        let mut blue: u32 = 0;
        let mut i: usize = 0;
        proof {
            assert(input@.take(0) =~= Seq::<(u32, &str)>::empty());
        }
        while i < input.len()
            invariant
                valid_colors(input@),
                i <= input@.len(),
                red == color_of(input@.take(i as int), red_word()),
                green == color_of(input@.take(i as int), green_word()),
                blue == color_of(input@.take(i as int), blue_word()),
            decreases input@.len() - i,
        {
            let p = input[i];
            let cw = str_to_chars(p.1);
            proof {
                assert(input@.take(i as int + 1).last() == input@[i as int]);
                assert(input@.take(i as int + 1).drop_last() =~= input@.take(i as int));
            }
            let is_red = cw.len() == 3 && word3(&cw, 0, 'r', 'e', 'd');
            let is_green = cw.len() == 5 && word5(&cw, 0, 'g', 'r', 'e', 'e', 'n');
            let is_blue = cw.len() == 4 && word4(&cw, 0, 'b', 'l', 'u', 'e');
            proof {
                if is_red {
                    assert(cw@ =~= red_word());
                }
                if is_green {
                    assert(cw@ =~= green_word());
                }
                if is_blue {
                    assert(cw@ =~= blue_word());
                }
                if p.1@ == red_word() {
                    assert(is_red);
                }
                if p.1@ == green_word() {
                    assert(is_green);
                }
                if p.1@ == blue_word() {
                    assert(is_blue);
                }
            }
            if is_red {
                red = p.0;
            } else if is_green {
                green = p.0;
            } else if is_blue {
                blue = p.0;
            } else {
                proof {
                    assert(false);
                }
            }
            i += 1;
        }
        proof {
            assert(input@.take(i as int) =~= input@);
        }
        Turn { red, green, blue }
    }
}

impl Game {
    /// Parse a game line of the form `Game <id>: <turn>; <turn>; ...`.
    pub fn from_line(line: &str) -> (g: Game)
        requires
            parse_line(line@) is Some,
        ensures
            match parse_line(line@) {
                Some(p) => g.id == p.0 && g.turns@ == p.1,
                None => true,
            },
    {
        let v = str_to_chars(line);
        let ghost s = v@;
        let ghost expected: Seq<Turn> = match parse_line(s) {
            Some(p) => p.1,
            None => Seq::empty(),
        };
        proof {
            if run_len(s, 5) >= 1 && 5 >= s.len() {
                assert(run_len(s, 5) == 0);
            }
            assert(run_len(s, 5) >= 1);
            assert(5 < s.len());
        }
        let pr = parse_number(&v, 5);
        let id = pr.0;
        let j = pr.1;
        proof {
            assert(parse_turns(s, j as int + 2, Seq::empty()) == Some(expected));
        }
        let mut i: usize = j + 2;
        let mut turns: Vec<Turn> = Vec::new();
        loop
            invariant
                s == v@,
                s == line@,
                parse_line(s) is Some,
                parse_line(s).unwrap().0 == id,
                expected == parse_line(s).unwrap().1,
                parse_turns(s, i as int, turns@) == Some(expected),
            decreases s.len() - i,
        {
            proof {
                if i as int >= s.len() {
                    assert(parse_turns(s, i as int, turns@) is None);
                }
            }
            let tr = parse_turn_exec(&v, i);
            let t = tr.0;
            let e = tr.1;
            turns.push(t);
            if e >= v.len() {
                proof {
                    assert(turns@ == expected);
                }
                return Game { id, turns };
            }
            proof {
                if !(s[e as int] == ';' && e + 1 < s.len() && s[e as int + 1] == ' ') {
                    assert(parse_turns(s, i as int, turns@.drop_last()) is None);
                    assert(false);
                }
                assert(next_pos(e as int, i as int, s.len() as int) == e + 2);
            }
            i = e + 2;
        }
    }

    /// Whether some turn of the game needs more cubes of a color than
    /// `possible` allows.
    pub fn impossible(&self, possible: &Turn) -> (b: bool)
        ensures
            b == exists|i: int|
                0 <= i < self.turns@.len() && exceeds(#[trigger] self.turns@[i], *possible),
    {
        let mut i: usize = 0;
        while i < self.turns.len()
            invariant
                i <= self.turns@.len(),
                forall|j: int| 0 <= j < i ==> !exceeds(#[trigger] self.turns@[j], *possible),
            decreases self.turns@.len() - i,
        {
            let t = self.turns[i];
            if t.red > possible.red || t.green > possible.green || t.blue > possible.blue {
                proof {
                    assert(exceeds(self.turns@[i as int], *possible));
                }
                return true;
            }
            i += 1;
        }
        false
    }

    /// The power of the game: the product of the least numbers of red,
    /// green and blue cubes that make every turn possible.
    pub fn power(&self) -> (p: u32)
        requires
            self.turns@.len() > 0,
            max_red(self.turns@) * max_green(self.turns@) * max_blue(self.turns@) <= u32::MAX,
        ensures
            p == max_red(self.turns@) * max_green(self.turns@) * max_blue(self.turns@),
    {
        let ghost ts = self.turns@;
        let mut red: u32 = 0;
        let mut green: u32 = 0;
        let mut blue: u32 = 0;
        let mut i: usize = 0;
        proof {
            assert(ts.take(0) =~= Seq::<Turn>::empty());
        }
        while i < self.turns.len()
            invariant
                ts == self.turns@,
                i <= ts.len(),
                red == max_red(ts.take(i as int)),
                green == max_green(ts.take(i as int)),
                blue == max_blue(ts.take(i as int)),
            decreases ts.len() - i,
        {
            let t = self.turns[i];
            proof {
                assert(ts.take(i as int + 1).last() == ts[i as int]);
                assert(ts.take(i as int + 1).drop_last() =~= ts.take(i as int));
            }
            if t.red > red {
                red = t.red;
            }
            if t.green > green {
                green = t.green;
            }
            if t.blue > blue {
                blue = t.blue;
            }
            i += 1;
        }
        proof {
            assert(ts.take(i as int) =~= ts);
        }
        proof {
            assert(red as int * green as int <= 0xFFFF_FFFF * 0xFFFF_FFFF) by (nonlinear_arith)
                requires
                    red <= 0xFFFF_FFFFu32,
                    green <= 0xFFFF_FFFFu32,
            ;
        }
        let m: u64 = (red as u64) * (green as u64);
        proof {
            assert(red as int * green as int * blue as int <= u32::MAX as int);
            assert(m as int * blue as int <= u32::MAX as int);
        }
        let p64: u64 = m * (blue as u64);
        proof {
            assert(p64 <= u32::MAX);
        }
        p64 as u32
    }
}

} // verus!
