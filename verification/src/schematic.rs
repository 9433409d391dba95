//! The schematic grid engine: a character grid, extraction of the maximal
//! horizontal digit runs as `Number` records, Chebyshev-distance-1 adjacency
//! between numbers and symbol cells, and the two aggregate results (the part
//! sum and the gear-ratio sum).

use vstd::prelude::*;

use crate::text::is_digit;
use crate::text::run_len;
use crate::text::seq_value;
use crate::text::spec_lines;
use crate::text::str_to_chars;
use crate::text::digit_char;
use crate::text::digit_char_val;
use crate::text::lemma_run_len_characterizes;
use crate::text::lemma_run_len_digits;
use crate::text::lemma_seq_value_prefix;
use crate::text::lemma_seq_value_step;

verus! {

/// A maximal horizontal digit run: its base-10 value and its span,
/// `col_start..=col_end` on row `row`.
#[derive(Clone, Copy, Debug, PartialEq, Eq, Structural)]
pub struct Number {
    pub value: u64,
    pub row: usize,
    pub col_start: usize,
    pub col_end: usize,
}

/// The character grid. Rows may have differing lengths.
#[derive(Debug)]
pub struct Schematic {
    pub raw: Vec<Vec<char>>,
}

/// The mathematical content of a list of rows: each row as a `Seq<char>`.
pub open spec fn rows_view(rows: Seq<Vec<char>>) -> Seq<Seq<char>> {
    rows.map_values(|row: Vec<char>| row@)
}

impl View for Schematic {
    type V = Seq<Seq<char>>;

    open spec fn view(&self) -> Seq<Seq<char>> {
        rows_view(self.raw@)
    }
}

/// A filler cell: the character `.`.
pub open spec fn is_filler(c: char) -> bool {
    c == '.'
}

/// A symbol: any character that is neither a digit nor filler.
pub open spec fn is_symbol(c: char) -> bool {
    !is_digit(c) && !is_filler(c)
}

/// Position `(r, c)` lies inside the grid.
pub open spec fn in_grid(g: Seq<Seq<char>>, r: int, c: int) -> bool {
    0 <= r < g.len() && 0 <= c < g[r].len()
}

/// The grid holds a symbol at `(r, c)`.
pub open spec fn symbol_at(g: Seq<Seq<char>>, r: int, c: int) -> bool {
    in_grid(g, r, c) && is_symbol(g[r][c])
}

/// Position `c` starts a maximal digit run of `row`.
pub open spec fn is_run_start(row: Seq<char>, c: int) -> bool {
    0 <= c < row.len() && is_digit(row[c]) && !(c > 0 && is_digit(row[c - 1]))
}

/// The `Number` whose run starts at position `c` of `row` (row index `r`).
pub open spec fn number_at(row: Seq<char>, r: int, c: int) -> Number {
    let l = run_len(row, c) as int;
    Number {
        value: seq_value(row.subrange(c, c + l)) as u64,
        row: r as usize,
        col_start: c as usize,
        col_end: (c + l - 1) as usize,
    }
}

/// The numbers of row `r` whose runs start at position `c` or later,
/// in left-to-right order.
pub open spec fn row_numbers_from(row: Seq<char>, r: int, c: int) -> Seq<Number>
    decreases row.len() - c,
{
    if c < 0 || c >= row.len() {
        Seq::empty()
    } else if is_run_start(row, c) {
        seq![number_at(row, r, c)] + row_numbers_from(row, r, c + 1)
    } else {
        row_numbers_from(row, r, c + 1)
    }
}

/// The numbers of rows `r` and below, row by row, each row left to right.
pub open spec fn numbers_from_row(g: Seq<Seq<char>>, r: int) -> Seq<Number>
    decreases g.len() - r,
{
    if r < 0 || r >= g.len() {
        Seq::empty()
    } else {
        row_numbers_from(g[r], r, 0) + numbers_from_row(g, r + 1)
    }
}

/// Every number of the grid, in row-major scan order.
pub open spec fn spec_numbers(g: Seq<Seq<char>>) -> Seq<Number> {
    numbers_from_row(g, 0)
}

/// Every digit run of the grid has a value that fits in `u64`.
pub open spec fn fits(g: Seq<Seq<char>>) -> bool {
    forall|r: int, c: int|
        0 <= r < g.len() && #[trigger] is_run_start(g[r], c) ==> seq_value(
            g[r].subrange(c, c + run_len(g[r], c)),
        ) <= u64::MAX
}

/// The number's span lies inside the grid.
pub open spec fn number_in_bounds(g: Seq<Seq<char>>, n: Number) -> bool {
    n.row < g.len() && n.col_start <= n.col_end < g[n.row as int].len()
}

impl Schematic {
    /// Build the grid from raw text, one row per line.
    pub fn from_input(input: &str) -> (s: Self)
        ensures
            s@ == spec_lines(input@),
    {
        let v = str_to_chars(input);
        let mut raw: Vec<Vec<char>> = Vec::new();
        let mut i: usize = v.len();
        proof {
            assert(v@.skip(i as int) =~= Seq::<char>::empty());
            assert(rows_view(raw@) =~= spec_lines(v@.skip(i as int)));
        }
        while i > 0
            invariant
                i <= v.len(),
                v@ == input@,
                rows_view(raw@) == spec_lines(v@.skip(i as int)),
            decreases i,
        {
            let ghost s_prev = v@.skip(i as int);
            let ghost s_new = v@.skip(i - 1 as int);
            proof {
                assert(s_new[0] == v@[i - 1]);
                assert(s_new.skip(1) =~= s_prev);
            }
            let c = v[i - 1];
            if c == '\n' {
                raw.insert(0, Vec::new());
                proof {
                    assert(rows_view(raw@) =~= seq![Seq::<char>::empty()] + spec_lines(s_prev));
                }
            } else if c == '\r' && i < v.len() && v[i] == '\n' {
                proof {
                    assert(s_new.skip(2) =~= v@.skip(i + 1 as int));
                    assert(s_prev[0] == '\n');
                    assert(s_prev.skip(1) =~= v@.skip(i + 1 as int));
                    assert(spec_lines(s_prev) == seq![Seq::<char>::empty()] + spec_lines(
                        v@.skip(i + 1 as int),
                    ));
                    assert(spec_lines(s_new) == seq![Seq::<char>::empty()] + spec_lines(
                        v@.skip(i + 1 as int),
                    ));
                }
            } else {
                let ghost rest = spec_lines(s_prev);
                if raw.len() == 0 {
                    let mut row0: Vec<char> = Vec::new();
                    row0.push(c);
                    raw.push(row0);
                    proof {
                        assert(rest.len() == 0);
                        assert(raw@[0]@ =~= seq![s_new[0]]);
                        assert(rows_view(raw@) =~= seq![seq![s_new[0]]]);
                    }
                } else {
                    let mut row0 = raw.remove(0);
                    row0.insert(0, c);
                    raw.insert(0, row0);
                    proof {
                        assert(rest.len() > 0);
                        assert(row0@ =~= seq![s_new[0]] + rest[0]);
                        assert(rows_view(raw@) =~= seq![seq![s_new[0]] + rest[0]] + rest.skip(1));
                    }
                }
            }
            i -= 1;
        }
        proof {
            assert(v@.skip(0) =~= v@);
        }
        Schematic { raw }
    }

    /// Number of rows.
    pub fn height(&self) -> (h: usize)
        ensures
            h == self@.len(),
    {
        self.raw.len()
    }

    /// Number of cells in row `row`.
    pub fn row_width(&self, row: usize) -> (w: usize)
        requires
            row < self@.len(),
        ensures
            w == self@[row as int].len(),
    {
        self.raw[row].len()
    }

    /// The character at `(row, col)`.
    pub fn cell(&self, row: usize, col: usize) -> (c: char)
        requires
            in_grid(self@, row as int, col as int),
        ensures
            c == self@[row as int][col as int],
    {
        self.raw[row][col]
    }

    /// One forward pass over the grid, producing every maximal horizontal
    /// digit run as a `Number`, in row-major order.
    pub fn extract(&self) -> (numbers: Vec<Number>)
        requires
            fits(self@),
        ensures
            numbers@ == spec_numbers(self@),
    {
        let ghost g = self@;
        let mut numbers: Vec<Number> = Vec::new();
        let height = self.raw.len();
        let mut r: usize = 0;
        proof {
            assert(numbers@ + numbers_from_row(g, 0) =~= numbers_from_row(g, 0));
        }
        while r < height
            invariant
                height == g.len(),
                g == self@,
                fits(g),
                r <= height,
                spec_numbers(g) == numbers@ + numbers_from_row(g, r as int),
            decreases height - r,
        {
            let ghost row = g[r as int];
            let width = self.raw[r].len();
            proof {
                assert(row.len() == width);
                assert(numbers_from_row(g, r as int) == row_numbers_from(row, r as int, 0)
                    + numbers_from_row(g, r as int + 1));
                assert(numbers@ + (row_numbers_from(row, r as int, 0) + numbers_from_row(
                    g,
                    r as int + 1,
                )) =~= (numbers@ + row_numbers_from(row, r as int, 0)) + numbers_from_row(
                    g,
                    r as int + 1,
                ));
            }
            let mut c: usize = 0;
            while c < width
                invariant
                    height == g.len(),
                    g == self@,
                    fits(g),
                    r < height,
                    row == g[r as int],
                    width == row.len(),
                    c <= width,
                    0 < c < width ==> (is_digit(row[c as int]) ==> !is_digit(row[c as int - 1])),
                    spec_numbers(g) == (numbers@ + row_numbers_from(row, r as int, c as int))
                        + numbers_from_row(g, r as int + 1),
                decreases width - c,
            {
                if digit_char(self.raw[r][c]) {
                    let start = c;
                    proof {
                        assert(is_run_start(row, start as int));
                        let one = row.subrange(start as int, start as int + 1);
                        assert(one.drop_last() =~= Seq::<char>::empty());
                        assert(seq_value(one.drop_last()) == 0);
                        assert(one.last() == row[start as int]);
                        assert(seq_value(one) == crate::text::digit_val(row[start as int]));
                    }
                    let mut value: u64 = digit_char_val(self.raw[r][c]) as u64;
                    c += 1;
                    while c < width && digit_char(self.raw[r][c])
                        invariant
                            g == self@,
                            fits(g),
                            r < g.len(),
                            row == g[r as int],
                            width == row.len(),
                            start < c <= width,
                            is_run_start(row, start as int),
                            forall|q: int| start <= q < c ==> is_digit(row[q]),
                            value == seq_value(row.subrange(start as int, c as int)),
                        decreases width - c,
                    {
                        proof {
                            lemma_run_len_digits(row, start as int);
                            if run_len(row, start as int) < c - start + 1 {
                                assert(is_digit(row[start + run_len(row, start as int)]));
                                assert(false);
                            }
                            let full = row.subrange(
                                start as int,
                                start + run_len(row, start as int),
                            );
                            lemma_seq_value_prefix(full, c - start + 1);
                            assert(full.take(c - start + 1) =~= row.subrange(
                                start as int,
                                c as int + 1,
                            ));
                            assert(seq_value(full) <= u64::MAX);
                            lemma_seq_value_step(row, start as int, c as int);
                            assert(seq_value(row.subrange(start as int, c as int + 1)) <= u64::MAX);
                        }
                        value = value * 10 + digit_char_val(self.raw[r][c]) as u64;
                        c += 1;
                    }
                    proof {
                        lemma_run_len_characterizes(row, start as int, c as int);
                        let n = number_at(row, r as int, start as int);
                        assert(n.value == value && n.row == r && n.col_start == start && n.col_end
                            == c - 1) by {
                            assert(run_len(row, start as int) == c - start);
                            assert(row.subrange(
                                start as int,
                                start as int + run_len(row, start as int),
                            ) =~= row.subrange(start as int, c as int));
                        }
                        if start + 1 < c {
                            lemma_row_numbers_mid_run(row, r as int, start as int, c as int);
                        }
                        assert(row_numbers_from(row, r as int, start as int) == seq![n]
                            + row_numbers_from(row, r as int, c as int));
                    }
                    let n = Number { value, row: r, col_start: start, col_end: c - 1 };
                    let ghost nums_before = numbers@;
                    numbers.push(n);
                    proof {
                        assert((nums_before + (seq![n] + row_numbers_from(row, r as int, c as int)))
                            =~= (numbers@ + row_numbers_from(row, r as int, c as int)));
                        assert(nums_before + row_numbers_from(row, r as int, start as int)
                            =~= nums_before + (seq![n] + row_numbers_from(row, r as int, c as int)));
                    }
                } else {
                    proof {
                        assert(!is_run_start(row, c as int));
                        assert(row_numbers_from(row, r as int, c as int) == row_numbers_from(
                            row,
                            r as int,
                            c as int + 1,
                        ));
                    }
                    c += 1;
                }
            }
            proof {
                assert(row_numbers_from(row, r as int, c as int) =~= Seq::<Number>::empty());
                assert((numbers@ + row_numbers_from(row, r as int, c as int)) + numbers_from_row(
                    g,
                    r as int + 1,
                ) =~= numbers@ + numbers_from_row(g, r as int + 1));
            }
            r += 1;
        }
        proof {
            assert(numbers_from_row(g, r as int) =~= Seq::<Number>::empty());
            assert(numbers@ + numbers_from_row(g, r as int) =~= numbers@);
        }
        numbers
    }
}

/// The grid and each of its rows are small enough to index with `usize`.
pub open spec fn sized_grid(g: Seq<Seq<char>>) -> bool {
    g.len() <= usize::MAX && forall|r: int| 0 <= r < g.len() ==> (#[trigger] g[r]).len()
        <= usize::MAX
}

/// A number and a grid position are adjacent: the position lies in the
/// Chebyshev-distance-1 neighborhood of some digit of the number's span.
pub open spec fn adjacent(n: Number, r: int, c: int) -> bool {
    &&& n.row as int - 1 <= r <= n.row as int + 1
    &&& n.col_start as int - 1 <= c <= n.col_end as int + 1
}

/// Some symbol cell of the grid is adjacent to the number.
pub open spec fn has_adjacent_symbol(g: Seq<Seq<char>>, n: Number) -> bool {
    exists|r: int, c: int| #[trigger] symbol_at(g, r, c) && adjacent(n, r, c)
}

/// Sum of the values of the part numbers among `ns[i..]`: the numbers
/// adjacent to at least one symbol.
pub open spec fn part_sum_from(g: Seq<Seq<char>>, ns: Seq<Number>, i: int) -> nat
    decreases ns.len() - i,
{
    if i < 0 || i >= ns.len() {
        0
    } else {
        (if has_adjacent_symbol(g, ns[i]) {
            ns[i].value as nat
        } else {
            0
        }) + part_sum_from(g, ns, i + 1)
    }
}

/// The part sum of the grid: over all its numbers.
pub open spec fn spec_part_sum(g: Seq<Seq<char>>) -> nat {
    part_sum_from(g, spec_numbers(g), 0)
}

/// The members of `ns[i..]` adjacent to position `(r, c)`, in order.
pub open spec fn adj_from(ns: Seq<Number>, r: int, c: int, i: int) -> Seq<Number>
    decreases ns.len() - i,
{
    if i < 0 || i >= ns.len() {
        Seq::empty()
    } else if adjacent(ns[i], r, c) {
        seq![ns[i]] + adj_from(ns, r, c, i + 1)
    } else {
        adj_from(ns, r, c, i + 1)
    }
}

/// The members of `ns` adjacent to position `(r, c)`, in order. Distinctness
/// by spatial identity comes from `ns` itself: extraction emits each number
/// once, so each adjacent number appears here once however many of its
/// digits touch the position.
pub open spec fn adjacent_numbers(ns: Seq<Number>, r: int, c: int) -> Seq<Number> {
    adj_from(ns, r, c, 0)
}

/// What a `*` at `(r, c)` adds to the gear-ratio sum: the product of the two
/// adjacent numbers' values when exactly two are adjacent, otherwise 0.
pub open spec fn gear_contrib(g: Seq<Seq<char>>, ns: Seq<Number>, r: int, c: int) -> nat {
    if in_grid(g, r, c) && g[r][c] == '*' && adjacent_numbers(ns, r, c).len() == 2 {
        (adjacent_numbers(ns, r, c)[0].value * adjacent_numbers(ns, r, c)[1].value) as nat
    } else {
        0
    }
}

/// Gear contributions of the cells `(r, c..)` of one row.
pub open spec fn gear_row_sum_from(g: Seq<Seq<char>>, ns: Seq<Number>, r: int, c: int) -> nat
    decreases g[r].len() - c,
{
    if !(0 <= r < g.len()) || c < 0 || c >= g[r].len() {
        0
    } else {
        gear_contrib(g, ns, r, c) + gear_row_sum_from(g, ns, r, c + 1)
    }
}

/// Gear contributions of rows `r` and below.
pub open spec fn gear_sum_from(g: Seq<Seq<char>>, ns: Seq<Number>, r: int) -> nat
    decreases g.len() - r,
{
    if r < 0 || r >= g.len() {
        0
    } else {
        gear_row_sum_from(g, ns, r, 0) + gear_sum_from(g, ns, r + 1)
    }
}

/// The gear-ratio sum of the grid against the number list `ns`.
pub open spec fn gear_sum_spec(g: Seq<Seq<char>>, ns: Seq<Number>) -> nat {
    gear_sum_from(g, ns, 0)
}

/// The gear-ratio sum of the grid, against its own numbers.
pub open spec fn spec_gear_sum(g: Seq<Seq<char>>) -> nat {
    gear_sum_spec(g, spec_numbers(g))
}

/// Positions strictly inside a digit run start no number.
pub proof fn lemma_row_numbers_mid_run(row: Seq<char>, r: int, s: int, p: int)
    requires
        0 <= s,
        s + 1 < p <= row.len(),
        forall|q: int| s <= q < p ==> is_digit(row[q]),
    ensures
        row_numbers_from(row, r, s + 1) == row_numbers_from(row, r, p),
    decreases p - s,
{
    if p == s + 2 {
        assert(!is_run_start(row, s + 1));
    } else {
        lemma_row_numbers_mid_run(row, r, s, p - 1);
        assert(!is_run_start(row, p - 1));
    }
}

/// What the number starting at a run start looks like: it spans exactly the
/// maximal digit run, every cell of the span is a digit, and the span is
/// bounded by non-digits (or the row's ends).
pub proof fn lemma_number_at_props(row: Seq<char>, r: int, c: int)
    requires
        is_run_start(row, c),
        0 <= r <= usize::MAX,
        row.len() <= usize::MAX,
    ensures
        ({
            let n = number_at(row, r, c);
            &&& n.row == r
            &&& n.col_start == c
            &&& n.col_end == c + run_len(row, c) - 1
            &&& n.col_start <= n.col_end < row.len()
            &&& forall|q: int| n.col_start <= q <= n.col_end ==> is_digit(row[q])
            &&& (n.col_end + 1 == row.len() || !is_digit(row[n.col_end + 1]))
        }),
{
    lemma_run_len_digits(row, c);
    assert(run_len(row, c) >= 1);
}

/// Every emitted number of a row records a run start at or after the scan
/// position, and is exactly the number of that run.
pub proof fn lemma_row_numbers_content(row: Seq<char>, r: int, c0: int)
    requires
        0 <= c0,
        0 <= r <= usize::MAX,
        row.len() <= usize::MAX,
    ensures
        forall|i: int|
            0 <= i < row_numbers_from(row, r, c0).len() ==> {
                let n = #[trigger] row_numbers_from(row, r, c0)[i];
                &&& c0 <= n.col_start < row.len()
                &&& n.row == r
                &&& is_run_start(row, n.col_start as int)
                &&& n == number_at(row, r, n.col_start as int)
            },
    decreases row.len() - c0,
{
    if c0 < row.len() {
        lemma_row_numbers_content(row, r, c0 + 1);
        let rest = row_numbers_from(row, r, c0 + 1);
        assert forall|i: int| 0 <= i < row_numbers_from(row, r, c0).len() implies {
            let n = #[trigger] row_numbers_from(row, r, c0)[i];
            &&& c0 <= n.col_start < row.len()
            &&& n.row == r
            &&& is_run_start(row, n.col_start as int)
            &&& n == number_at(row, r, n.col_start as int)
        } by {
            if is_run_start(row, c0) {
                lemma_number_at_props(row, r, c0);
                if i == 0 {
                    assert(row_numbers_from(row, r, c0)[0] == number_at(row, r, c0));
                } else {
                    assert(row_numbers_from(row, r, c0)[i] == rest[i - 1]);
                }
            } else {
                assert(row_numbers_from(row, r, c0)[i] == rest[i]);
            }
        }
    }
}

/// Every number of the grid from row `r0` on: its row index is recorded
/// faithfully, and it is the number of a run start of that row.
pub proof fn lemma_numbers_from_row_content(g: Seq<Seq<char>>, r0: int)
    requires
        0 <= r0,
        sized_grid(g),
    ensures
        forall|i: int|
            0 <= i < numbers_from_row(g, r0).len() ==> {
                let n = #[trigger] numbers_from_row(g, r0)[i];
                &&& r0 <= n.row < g.len()
                &&& is_run_start(g[n.row as int], n.col_start as int)
                &&& n == number_at(g[n.row as int], n.row as int, n.col_start as int)
            },
    decreases g.len() - r0,
{
    if r0 < g.len() {
        lemma_numbers_from_row_content(g, r0 + 1);
        lemma_row_numbers_content(g[r0], r0, 0);
        let head = row_numbers_from(g[r0], r0, 0);
        let rest = numbers_from_row(g, r0 + 1);
        assert forall|i: int| 0 <= i < numbers_from_row(g, r0).len() implies {
            let n = #[trigger] numbers_from_row(g, r0)[i];
            &&& r0 <= n.row < g.len()
            &&& is_run_start(g[n.row as int], n.col_start as int)
            &&& n == number_at(g[n.row as int], n.row as int, n.col_start as int)
        } by {
            if i < head.len() {
                assert(numbers_from_row(g, r0)[i] == head[i]);
            } else {
                assert(numbers_from_row(g, r0)[i] == rest[i - head.len()]);
            }
        }
    }
}

/// Every extracted number lies inside the grid.
pub proof fn lemma_numbers_in_bounds(g: Seq<Seq<char>>)
    requires
        sized_grid(g),
    ensures
        forall|i: int|
            0 <= i < spec_numbers(g).len() ==> number_in_bounds(
                g,
                #[trigger] spec_numbers(g)[i],
            ),
{
    lemma_numbers_from_row_content(g, 0);
    assert forall|i: int| 0 <= i < spec_numbers(g).len() implies number_in_bounds(
        g,
        #[trigger] spec_numbers(g)[i],
    ) by {
        let n = spec_numbers(g)[i];
        lemma_number_at_props(g[n.row as int], n.row as int, n.col_start as int);
    }
}

/// A grid built from vectors is indexable by `usize`.
pub proof fn lemma_schematic_sized(s: &Schematic)
    ensures
        sized_grid(s@),
{
    assert(vstd::std_specs::vec::spec_vec_len(&s.raw) == s.raw@.len());
    assert forall|r: int| 0 <= r < s@.len() implies (#[trigger] s@[r]).len() <= usize::MAX by {
        let row_vec = s.raw@[r];
        assert(vstd::std_specs::vec::spec_vec_len(&row_vec) == row_vec@.len());
        assert(s@[r] == row_vec@);
    }
}

/// Whether number `n` is adjacent to grid position `(row, col)`.
pub fn is_adjacent(n: &Number, row: usize, col: usize) -> (b: bool)
    ensures
        b == adjacent(*n, row as int, col as int),
{
    let row_ok = if row >= n.row {
        row - n.row <= 1
    } else {
        n.row - row <= 1
    };
    let lo_ok = if col >= n.col_start {
        true
    } else {
        n.col_start - col <= 1
    };
    let hi_ok = if col <= n.col_end {
        true
    } else {
        col - n.col_end <= 1
    };
    row_ok && lo_ok && hi_ok
}

/// The distinct numbers of `numbers` adjacent to `(row, col)`, in order.
pub fn numbers_adjacent_to(numbers: &Vec<Number>, row: usize, col: usize) -> (v: Vec<Number>)
    ensures
        v@ == adjacent_numbers(numbers@, row as int, col as int),
{
    let ghost ns = numbers@;
    let mut v: Vec<Number> = Vec::new();
    let mut i: usize = 0;
    proof {
        assert(v@ + adj_from(ns, row as int, col as int, 0) =~= adj_from(
            ns,
            row as int,
            col as int,
            0,
        ));
    }
    while i < numbers.len()
        invariant
            ns == numbers@,
            i <= ns.len(),
            adjacent_numbers(ns, row as int, col as int) == v@ + adj_from(
                ns,
                row as int,
                col as int,
                i as int,
            ),
        decreases ns.len() - i,
    {
        let n = numbers[i];
        let ghost v_before = v@;
        if is_adjacent(&n, row, col) {
            v.push(n);
            proof {
                assert(v_before + (seq![ns[i as int]] + adj_from(
                    ns,
                    row as int,
                    col as int,
                    i as int + 1,
                )) =~= v@ + adj_from(ns, row as int, col as int, i as int + 1));
            }
        }
        i += 1;
    }
    proof {
        assert(adj_from(ns, row as int, col as int, i as int) =~= Seq::<Number>::empty());
        assert(v@ + adj_from(ns, row as int, col as int, i as int) =~= v@);
    }
    v
}

impl Schematic {
    /// Whether some symbol in row `rr` is adjacent to number `n`.
    fn row_has_adjacent_symbol(&self, n: &Number, rr: usize) -> (b: bool)
        requires
            number_in_bounds(self@, *n),
            rr < self@.len(),
            n.row as int - 1 <= rr as int <= n.row as int + 1,
        ensures
            b == exists|c: int| #[trigger] symbol_at(self@, rr as int, c) && adjacent(
                *n,
                rr as int,
                c,
            ),
    {
        let ghost g = self@;
        let width = self.raw[rr].len();
        let c_lo = if n.col_start == 0 {
            0
        } else {
            n.col_start - 1
        };
        if width == 0 || c_lo >= width {
            proof {
                assert forall|c: int| !(#[trigger] symbol_at(g, rr as int, c) && adjacent(
                    *n,
                    rr as int,
                    c,
                )) by {
                    if symbol_at(g, rr as int, c) {
                        assert(c < width);
                    }
                }
            }
            return false;
        }
        let c_hi = if n.col_end >= width - 1 {
            width - 1
        } else {
            n.col_end + 1
        };
        let mut cc = c_lo;
        while cc <= c_hi
            invariant
                g == self@,
                rr < g.len(),
                width == g[rr as int].len(),
                number_in_bounds(g, *n),
                n.row as int - 1 <= rr as int <= n.row as int + 1,
                c_lo == if n.col_start == 0 {
                    0
                } else {
                    n.col_start as int - 1
                },
                c_hi == if n.col_end as int >= width as int - 1 {
                    width as int - 1
                } else {
                    n.col_end as int + 1
                },
                0 < width,
                c_lo <= cc <= c_hi + 1,
                c_hi < width,
                forall|c: int|
                    #[trigger] symbol_at(g, rr as int, c) && adjacent(*n, rr as int, c) ==> c
                        >= cc,
            decreases c_hi + 1 - cc,
        {
            let ch = self.raw[rr][cc];
            if !digit_char(ch) && ch != '.' {
                proof {
                    assert(g[rr as int] == self.raw@[rr as int]@);
                    assert(g[rr as int][cc as int] == ch);
                    assert(is_symbol(ch));
                    assert(in_grid(g, rr as int, cc as int));
                    assert(symbol_at(g, rr as int, cc as int));
                    assert(adjacent(*n, rr as int, cc as int));
                }
                return true;
            }
            cc += 1;
        }
        proof {
            assert forall|c: int| !(#[trigger] symbol_at(g, rr as int, c) && adjacent(
                *n,
                rr as int,
                c,
            )) by {
                if symbol_at(g, rr as int, c) && adjacent(*n, rr as int, c) {
                    assert(c <= c_hi);
                    assert(c >= cc);
                }
            }
        }
        false
    }

    /// Whether any symbol cell of the grid is adjacent to number `n`.
    pub fn touches_symbol(&self, n: &Number) -> (b: bool)
        requires
            number_in_bounds(self@, *n),
        ensures
            b == has_adjacent_symbol(self@, *n),
    {
        let ghost g = self@;
        let height = self.raw.len();
        let r_lo = if n.row == 0 {
            0
        } else {
            n.row - 1
        };
        let r_hi = if n.row >= height - 1 {
            height - 1
        } else {
            n.row + 1
        };
        let mut rr = r_lo;
        while rr <= r_hi
            invariant
                g == self@,
                height == g.len(),
                number_in_bounds(g, *n),
                r_lo == if n.row == 0 {
                    0
                } else {
                    n.row as int - 1
                },
                r_hi == if n.row as int >= height as int - 1 {
                    height as int - 1
                } else {
                    n.row as int + 1
                },
                r_lo <= rr <= r_hi + 1,
                r_hi < height,
                forall|r: int, c: int|
                    #[trigger] symbol_at(g, r, c) && adjacent(*n, r, c) ==> r >= rr,
            decreases r_hi + 1 - rr,
        {
            if self.row_has_adjacent_symbol(n, rr) {
                return true;
            }
            rr += 1;
        }
        proof {
            if has_adjacent_symbol(g, *n) {
                let (r, c) = choose|r: int, c: int| symbol_at(g, r, c) && adjacent(*n, r, c);
                assert(r <= r_hi);
                assert(false);
            }
        }
        false
    }

    /// Sum of the values of the part numbers among `numbers`: those adjacent
    /// to at least one symbol.
    pub fn part_sum(&self, numbers: &Vec<Number>) -> (s: u64)
        requires
            forall|i: int|
                0 <= i < numbers@.len() ==> number_in_bounds(self@, #[trigger] numbers@[i]),
            part_sum_from(self@, numbers@, 0) <= u64::MAX,
        ensures
            s == part_sum_from(self@, numbers@, 0),
    {
        let ghost g = self@;
        let ghost ns = numbers@;
        let mut s: u64 = 0;
        let mut i: usize = 0;
        while i < numbers.len()
            invariant
                g == self@,
                ns == numbers@,
                i <= ns.len(),
                forall|j: int| 0 <= j < ns.len() ==> number_in_bounds(g, #[trigger] ns[j]),
                part_sum_from(g, ns, 0) <= u64::MAX,
                s + part_sum_from(g, ns, i as int) == part_sum_from(g, ns, 0),
            decreases ns.len() - i,
        {
            let n = numbers[i];
            if self.touches_symbol(&n) {
                s = s + n.value;
            }
            i += 1;
        }
        s
    }

    /// The part sum of the grid: extract every number, and sum those
    /// adjacent to at least one symbol.
    pub fn sum(&self) -> (s: u64)
        requires
            fits(self@),
            spec_part_sum(self@) <= u64::MAX,
        ensures
            s == spec_part_sum(self@),
    {
        let numbers = self.extract();
        proof {
            lemma_schematic_sized(self);
            lemma_numbers_in_bounds(self@);
        }
        self.part_sum(&numbers)
    }

    /// The gear-ratio sum of the grid against the number list `numbers`:
    /// for every `*` cell adjacent to exactly two of the numbers, the
    /// product of those two values.
    pub fn gear_ratio_sum(&self, numbers: &Vec<Number>) -> (s: u64)
        requires
            gear_sum_spec(self@, numbers@) <= u64::MAX,
        ensures
            s == gear_sum_spec(self@, numbers@),
    {
        let ghost g = self@;
        let ghost ns = numbers@;
        let mut s: u64 = 0;
        let height = self.raw.len();
        let mut r: usize = 0;
        while r < height
            invariant
                g == self@,
                ns == numbers@,
                height == g.len(),
                r <= height,
                gear_sum_spec(g, ns) <= u64::MAX,
                s + gear_sum_from(g, ns, r as int) == gear_sum_spec(g, ns),
            decreases height - r,
        {
            let width = self.raw[r].len();
            let mut c: usize = 0;
            while c < width
                invariant
                    g == self@,
                    ns == numbers@,
                    height == g.len(),
                    r < height,
                    width == g[r as int].len(),
                    c <= width,
                    gear_sum_spec(g, ns) <= u64::MAX,
                    s + gear_row_sum_from(g, ns, r as int, c as int) + gear_sum_from(
                        g,
                        ns,
                        r as int + 1,
                    ) == gear_sum_spec(g, ns),
                decreases width - c,
            {
                let ch = self.raw[r][c];
                if ch == '*' {
                    let adj = numbers_adjacent_to(numbers, r, c);
                    if adj.len() == 2 {
                        proof {
                            assert(gear_contrib(g, ns, r as int, c as int) == (adj@[0].value
                                * adj@[1].value) as nat);
                            assert(gear_contrib(g, ns, r as int, c as int) + s <= u64::MAX);
                        }
                        let prod = adj[0].value * adj[1].value;
                        s = s + prod;
                    } else {
                        proof {
                            assert(gear_contrib(g, ns, r as int, c as int) == 0);
                        }
                    }
                } else {
                    proof {
                        assert(gear_contrib(g, ns, r as int, c as int) == 0);
                    }
                }
                c += 1;
            }
            r += 1;
        }
        s
    }

    /// The gear-ratio sum of the grid: extract every number, then total the
    /// `*` cells adjacent to exactly two of them.
    pub fn gears(&self) -> (s: u64)
        requires
            fits(self@),
            spec_gear_sum(self@) <= u64::MAX,
        ensures
            s == spec_gear_sum(self@),
    {
        let numbers = self.extract();
        self.gear_ratio_sum(&numbers)
    }
}

} // verus!
