//! General properties of the schematic engine, proved once and for all:
//! symbol-free grids yield zero sums, extraction emits exactly the maximal
//! digit runs, adjacency is the per-digit Chebyshev-distance-1 relation, a
//! `*` contributes only when exactly two numbers touch it, and extraction is
//! deterministic.

use vstd::prelude::*;

use crate::text::is_digit;
use crate::text::run_len;
use crate::text::seq_value;
use crate::schematic::Number;
use crate::schematic::adjacent;
use crate::schematic::adjacent_numbers;
use crate::schematic::gear_contrib;
use crate::schematic::gear_row_sum_from;
use crate::schematic::gear_sum_from;
use crate::schematic::has_adjacent_symbol;
use crate::schematic::in_grid;
use crate::schematic::is_run_start;
use crate::schematic::is_symbol;
use crate::schematic::lemma_number_at_props;
use crate::schematic::lemma_row_numbers_content;
use crate::schematic::number_at;
use crate::schematic::part_sum_from;
use crate::schematic::row_numbers_from;
use crate::schematic::adj_from;
use crate::schematic::lemma_numbers_from_row_content;
use crate::schematic::numbers_from_row;
use crate::schematic::sized_grid;
use crate::schematic::spec_gear_sum;
use crate::schematic::spec_numbers;
use crate::schematic::spec_part_sum;
use crate::schematic::symbol_at;

verus! {

/// The grid holds no symbol cell at all.
pub open spec fn symbol_free(g: Seq<Seq<char>>) -> bool {
    forall|r: int, c: int| in_grid(g, r, c) ==> !is_symbol(#[trigger] g[r][c])
}

proof fn lemma_part_sum_no_symbols(g: Seq<Seq<char>>, ns: Seq<Number>, i: int)
    requires
        symbol_free(g),
    ensures
        part_sum_from(g, ns, i) == 0,
    decreases ns.len() - i,
{
    if 0 <= i < ns.len() {
        if has_adjacent_symbol(g, ns[i]) {
            let (r, c) = choose|r: int, c: int| symbol_at(g, r, c) && adjacent(ns[i], r, c);
            assert(!is_symbol(g[r][c]));
        }
        lemma_part_sum_no_symbols(g, ns, i + 1);
    }
}

proof fn lemma_gear_row_no_symbols(g: Seq<Seq<char>>, ns: Seq<Number>, r: int, c: int)
    requires
        symbol_free(g),
    ensures
        gear_row_sum_from(g, ns, r, c) == 0,
    decreases g[r].len() - c,
{
    if 0 <= r < g.len() && 0 <= c < g[r].len() {
        assert(is_symbol('*'));
        assert(g[r][c] != '*');
        lemma_gear_row_no_symbols(g, ns, r, c + 1);
    }
}

proof fn lemma_gear_sum_no_symbols(g: Seq<Seq<char>>, ns: Seq<Number>, r: int)
    requires
        symbol_free(g),
    ensures
        gear_sum_from(g, ns, r) == 0,
    decreases g.len() - r,
{
    if 0 <= r < g.len() {
        lemma_gear_row_no_symbols(g, ns, r, 0);
        lemma_gear_sum_no_symbols(g, ns, r + 1);
    }
}

/// A grid with no symbol characters at all has part sum 0 and gear-ratio
/// sum 0.
pub proof fn lemma_no_symbols_zero(g: Seq<Seq<char>>)
    requires
        symbol_free(g),
    ensures
        spec_part_sum(g) == 0,
        spec_gear_sum(g) == 0,
{
    lemma_part_sum_no_symbols(g, spec_numbers(g), 0);
    lemma_gear_sum_no_symbols(g, spec_numbers(g), 0);
}

proof fn lemma_row_numbers_complete(row: Seq<char>, r: int, c0: int)
    requires
        0 <= c0,
    ensures
        forall|c: int|
            c0 <= c && #[trigger] is_run_start(row, c) ==> exists|i: int|
                0 <= i < row_numbers_from(row, r, c0).len() && row_numbers_from(row, r, c0)[i]
                    == number_at(row, r, c),
    decreases row.len() - c0,
{
    if c0 < row.len() {
        lemma_row_numbers_complete(row, r, c0 + 1);
        let all = row_numbers_from(row, r, c0);
        let rest = row_numbers_from(row, r, c0 + 1);
        assert forall|c: int| c0 <= c && #[trigger] is_run_start(row, c) implies exists|i: int|
            0 <= i < all.len() && all[i] == number_at(row, r, c) by {
            if is_run_start(row, c0) {
                if c == c0 {
                    assert(all[0] == number_at(row, r, c0));
                } else {
                    let j = choose|j: int| 0 <= j < rest.len() && rest[j] == number_at(row, r, c);
                    assert(all[j + 1] == number_at(row, r, c));
                }
            } else {
                assert(c > c0);
                let j = choose|j: int| 0 <= j < rest.len() && rest[j] == number_at(row, r, c);
                assert(all[j] == number_at(row, r, c));
            }
        }
    }
}

/// Extraction from a row emits exactly its maximal digit runs: every emitted
/// number spans a whole run of digits bounded by non-digits or the row's
/// ends (one contiguous run is never split in two, and two runs separated by
/// a non-digit are never merged), and every maximal run is emitted.
pub proof fn lemma_extract_exact_runs(row: Seq<char>, r: int)
    requires
        0 <= r <= usize::MAX,
        row.len() <= usize::MAX,
    ensures
        forall|i: int|
            0 <= i < row_numbers_from(row, r, 0).len() ==> {
                let n = #[trigger] row_numbers_from(row, r, 0)[i];
                &&& n.row == r
                &&& n.col_start <= n.col_end < row.len()
                &&& forall|q: int| n.col_start <= q <= n.col_end ==> is_digit(row[q])
                &&& (n.col_start == 0 || !is_digit(row[n.col_start - 1]))
                &&& (n.col_end + 1 == row.len() || !is_digit(row[n.col_end + 1]))
                &&& n.value == seq_value(
                    row.subrange(n.col_start as int, n.col_end as int + 1),
                ) as u64
            },
        forall|c: int|
            #[trigger] is_run_start(row, c) ==> exists|i: int|
                0 <= i < row_numbers_from(row, r, 0).len() && row_numbers_from(row, r, 0)[i]
                    == number_at(row, r, c),
{
    lemma_row_numbers_content(row, r, 0);
    lemma_row_numbers_complete(row, r, 0);
    assert forall|i: int| 0 <= i < row_numbers_from(row, r, 0).len() implies {
        let n = #[trigger] row_numbers_from(row, r, 0)[i];
        &&& n.row == r
        &&& n.col_start <= n.col_end < row.len()
        &&& forall|q: int| n.col_start <= q <= n.col_end ==> is_digit(row[q])
        &&& (n.col_start == 0 || !is_digit(row[n.col_start - 1]))
        &&& (n.col_end + 1 == row.len() || !is_digit(row[n.col_end + 1]))
        &&& n.value == seq_value(row.subrange(n.col_start as int, n.col_end as int + 1)) as u64
    } by {
        let n = row_numbers_from(row, r, 0)[i];
        lemma_number_at_props(row, r, n.col_start as int);
        assert(row.subrange(
            n.col_start as int,
            n.col_start + run_len(row, n.col_start as int),
        ) =~= row.subrange(n.col_start as int, n.col_end as int + 1));
    }
}

proof fn lemma_row_numbers_ordered(row: Seq<char>, r: int, c0: int)
    requires
        0 <= c0,
        0 <= r <= usize::MAX,
        row.len() <= usize::MAX,
    ensures
        forall|i1: int, i2: int|
            0 <= i1 < i2 < row_numbers_from(row, r, c0).len() ==> (#[trigger] row_numbers_from(
                row,
                r,
                c0,
            )[i1]).col_start < (#[trigger] row_numbers_from(row, r, c0)[i2]).col_start,
    decreases row.len() - c0,
{
    if c0 < row.len() {
        lemma_row_numbers_ordered(row, r, c0 + 1);
        crate::schematic::lemma_row_numbers_content(row, r, c0 + 1);
        let all = row_numbers_from(row, r, c0);
        let rest = row_numbers_from(row, r, c0 + 1);
        if is_run_start(row, c0) {
            lemma_number_at_props(row, r, c0);
            assert forall|i1: int, i2: int| 0 <= i1 < i2 < all.len() implies (
            #[trigger] all[i1]).col_start < (#[trigger] all[i2]).col_start by {
                if i1 == 0 {
                    assert(all[0] == number_at(row, r, c0));
                    assert(all[i2] == rest[i2 - 1]);
                    assert(rest[i2 - 1].col_start >= c0 + 1);
                } else {
                    assert(all[i1] == rest[i1 - 1]);
                    assert(all[i2] == rest[i2 - 1]);
                }
            }
        }
    }
}

/// Two numbers of one row neither overlap nor touch: extraction emits
/// maximal runs, separated by at least one non-digit cell.
pub proof fn lemma_numbers_separated(row: Seq<char>, r: int, i1: int, i2: int)
    requires
        0 <= r <= usize::MAX,
        row.len() <= usize::MAX,
        0 <= i1 < i2 < row_numbers_from(row, r, 0).len(),
    ensures
        row_numbers_from(row, r, 0)[i1].col_end + 1 < row_numbers_from(row, r, 0)[i2].col_start,
{
    lemma_row_numbers_ordered(row, r, 0);
    crate::schematic::lemma_row_numbers_content(row, r, 0);
    let n1 = row_numbers_from(row, r, 0)[i1];
    let n2 = row_numbers_from(row, r, 0)[i2];
    lemma_number_at_props(row, r, n1.col_start as int);
    lemma_number_at_props(row, r, n2.col_start as int);
    if n2.col_start <= n1.col_end + 1 {
        assert(n1.col_start < n2.col_start);
        assert(is_digit(row[n2.col_start - 1]));
        assert(!is_run_start(row, n2.col_start as int));
        assert(false);
    }
}

/// Adjacency is the per-digit rule: a number and a position are adjacent
/// exactly when some digit position of the number's span is within
/// Chebyshev distance 1 of the position — any digit, not just an endpoint.
pub proof fn lemma_adjacent_per_digit(n: Number, r: int, c: int)
    requires
        n.col_start <= n.col_end,
    ensures
        adjacent(n, r, c) <==> exists|d: int|
            n.col_start <= d <= n.col_end && vstd::math::abs(n.row as int - r) <= 1
                && #[trigger] vstd::math::abs(d - c) <= 1,
{
    if adjacent(n, r, c) {
        let d: int = if c < n.col_start {
            n.col_start as int
        } else if c > n.col_end {
            n.col_end as int
        } else {
            c
        };
        assert(n.col_start <= d <= n.col_end && vstd::math::abs(n.row as int - r) <= 1
            && vstd::math::abs(d - c) <= 1);
    }
}

/// A `*` adjacent to one number, or to three or more, contributes nothing
/// to the gear-ratio sum: only exactly two adjacent numbers count.
pub proof fn lemma_gear_needs_exactly_two(
    g: Seq<Seq<char>>,
    ns: Seq<Number>,
    r: int,
    c: int,
)
    requires
        adjacent_numbers(ns, r, c).len() != 2,
    ensures
        gear_contrib(g, ns, r, c) == 0,
{
}

/// Extraction is deterministic: any two extraction results from the same
/// grid are the same list, with the same values, spans and order.
pub proof fn lemma_extract_idempotent(g: Seq<Seq<char>>, first: Seq<Number>, second: Seq<Number>)
    requires
        first == spec_numbers(g),
        second == spec_numbers(g),
    ensures
        first == second,
{
}

/// A row of filler only.
pub open spec fn filler_row(row: Seq<char>) -> bool {
    forall|c: int| 0 <= c < row.len() ==> #[trigger] row[c] == '.'
}

/// `h` is `g` with the row `filler` inserted at index `k`.
pub open spec fn inserted(g: Seq<Seq<char>>, h: Seq<Seq<char>>, k: int, filler: Seq<char>) -> bool {
    &&& 0 <= k <= g.len()
    &&& h.len() == g.len() + 1
    &&& (forall|i: int| 0 <= i < k ==> #[trigger] h[i] == g[i])
    &&& h[k] == filler
    &&& (forall|i: int| k <= i < g.len() ==> #[trigger] h[i + 1] == g[i])
}

/// The number, moved down one row.
pub open spec fn bump_row(n: Number) -> Number {
    Number { value: n.value, row: (n.row + 1) as usize, col_start: n.col_start, col_end: n.col_end }
}

/// The number as it appears after a row insertion at index `k`: rows below
/// the cut move down one.
pub open spec fn cond_bump(n: Number, k: int) -> Number {
    if (n.row as int) < k {
        n
    } else {
        bump_row(n)
    }
}

/// `ms` is `ns`, each number moved down one row where its row is `k` or
/// deeper.
pub open spec fn pointwise_bump(ns: Seq<Number>, ms: Seq<Number>, k: int) -> bool {
    ms.len() == ns.len() && forall|j: int|
        0 <= j < ns.len() ==> ms[j] == cond_bump(#[trigger] ns[j], k)
}

proof fn lemma_filler_no_numbers(row: Seq<char>, r: int, c0: int)
    requires
        filler_row(row),
        0 <= c0,
    ensures
        row_numbers_from(row, r, c0) == Seq::<Number>::empty(),
    decreases row.len() - c0,
{
    if c0 < row.len() {
        assert(!is_digit(row[c0]));
        lemma_filler_no_numbers(row, r, c0 + 1);
    }
}

proof fn lemma_row_reindex(row: Seq<char>, r: int, c0: int)
    requires
        0 <= r,
        r + 1 <= usize::MAX,
        row.len() <= usize::MAX,
        0 <= c0,
    ensures
        row_numbers_from(row, r + 1, c0).len() == row_numbers_from(row, r, c0).len(),
        forall|j: int|
            0 <= j < row_numbers_from(row, r, c0).len() ==> row_numbers_from(row, r + 1, c0)[j]
                == bump_row(#[trigger] row_numbers_from(row, r, c0)[j]),
    decreases row.len() - c0,
{
    if c0 < row.len() {
        lemma_row_reindex(row, r, c0 + 1);
        let a = row_numbers_from(row, r, c0);
        let b = row_numbers_from(row, r + 1, c0);
        let at = row_numbers_from(row, r, c0 + 1);
        let bt = row_numbers_from(row, r + 1, c0 + 1);
        if is_run_start(row, c0) {
            assert(number_at(row, r + 1, c0) == bump_row(number_at(row, r, c0)));
            assert forall|j: int| 0 <= j < a.len() implies b[j] == bump_row(a[j]) by {
                if j == 0 {
                    assert(a[0] == number_at(row, r, c0));
                    assert(b[0] == number_at(row, r + 1, c0));
                } else {
                    assert(a[j] == at[j - 1]);
                    assert(b[j] == bt[j - 1]);
                }
            }
        }
    }
}

proof fn lemma_numbers_high(g: Seq<Seq<char>>, h: Seq<Seq<char>>, k: int, filler: Seq<char>, r: int)
    requires
        inserted(g, h, k, filler),
        sized_grid(g),
        g.len() + 1 <= usize::MAX,
        k <= r <= g.len(),
    ensures
        numbers_from_row(h, r + 1).len() == numbers_from_row(g, r).len(),
        forall|j: int|
            0 <= j < numbers_from_row(g, r).len() ==> numbers_from_row(h, r + 1)[j] == bump_row(
                #[trigger] numbers_from_row(g, r)[j],
            ),
    decreases g.len() - r,
{
    if r < g.len() {
        lemma_numbers_high(g, h, k, filler, r + 1);
        assert(h[r + 1] == g[r]);
        lemma_row_reindex(g[r], r, 0);
        let a = numbers_from_row(g, r);
        let b = numbers_from_row(h, r + 1);
        let ah = row_numbers_from(g[r], r, 0);
        let bh = row_numbers_from(g[r], r + 1, 0);
        let at = numbers_from_row(g, r + 1);
        let bt = numbers_from_row(h, r + 2);
        assert(a == ah + at);
        assert(b == bh + bt);
        assert forall|j: int| 0 <= j < a.len() implies b[j] == bump_row(a[j]) by {
            if j < ah.len() {
                assert(a[j] == ah[j]);
                assert(b[j] == bh[j]);
            } else {
                assert(a[j] == at[j - ah.len()]);
                assert(b[j] == bt[j - ah.len()]);
            }
        }
    } else {
        assert(r + 1 >= h.len());
    }
}

proof fn lemma_numbers_low(g: Seq<Seq<char>>, h: Seq<Seq<char>>, k: int, filler: Seq<char>, r: int)
    requires
        inserted(g, h, k, filler),
        sized_grid(g),
        g.len() + 1 <= usize::MAX,
        filler_row(filler),
        0 <= r <= k,
    ensures
        numbers_from_row(h, r).len() == numbers_from_row(g, r).len(),
        forall|j: int|
            0 <= j < numbers_from_row(g, r).len() ==> numbers_from_row(h, r)[j] == cond_bump(
                #[trigger] numbers_from_row(g, r)[j],
                k,
            ),
    decreases k - r,
{
    if r == k {
        lemma_filler_no_numbers(filler, k, 0);
        lemma_numbers_high(g, h, k, filler, k);
        lemma_numbers_from_row_content(g, k);
        let a = numbers_from_row(g, k);
        let b = numbers_from_row(h, k);
        if k < g.len() {
            assert(b =~= row_numbers_from(h[k], k, 0) + numbers_from_row(h, k + 1));
            assert(b =~= numbers_from_row(h, k + 1));
            assert forall|j: int| 0 <= j < a.len() implies b[j] == cond_bump(a[j], k) by {
                assert(a[j].row >= k);
                assert(b[j] == bump_row(a[j]));
            }
        } else {
            assert(a =~= Seq::<Number>::empty());
            assert(k + 1 >= h.len());
            assert(numbers_from_row(h, k + 1) =~= Seq::<Number>::empty());
            assert(b =~= row_numbers_from(filler, k, 0) + numbers_from_row(h, k + 1));
            assert(b =~= Seq::<Number>::empty());
        }
    } else {
        lemma_numbers_low(g, h, k, filler, r + 1);
        assert(h[r] == g[r]);
        crate::schematic::lemma_row_numbers_content(g[r], r, 0);
        let a = numbers_from_row(g, r);
        let b = numbers_from_row(h, r);
        let ah = row_numbers_from(g[r], r, 0);
        let at = numbers_from_row(g, r + 1);
        let bt = numbers_from_row(h, r + 1);
        assert(a == ah + at);
        assert(b == ah + bt);
        assert forall|j: int| 0 <= j < a.len() implies b[j] == cond_bump(a[j], k) by {
            if j < ah.len() {
                assert(a[j] == ah[j]);
                assert(b[j] == ah[j]);
                assert(a[j].row == r);
                assert(cond_bump(a[j], k) == a[j]);
            } else {
                assert(a[j] == at[j - ah.len()]);
                assert(b[j] == bt[j - ah.len()]);
            }
        }
    }
}

proof fn lemma_flag_low(
    g: Seq<Seq<char>>,
    h: Seq<Seq<char>>,
    k: int,
    filler: Seq<char>,
    n: Number,
)
    requires
        inserted(g, h, k, filler),
        filler_row(filler),
        (n.row as int) < k,
        n.row as int == k - 1 ==> (k == g.len() || filler_row(g[k])),
    ensures
        has_adjacent_symbol(h, n) == has_adjacent_symbol(g, n),
{
    if has_adjacent_symbol(g, n) {
        let (r, c) = choose|r: int, c: int| symbol_at(g, r, c) && adjacent(n, r, c);
        if r < k {
            assert(h[r] == g[r]);
            assert(symbol_at(h, r, c));
        } else {
            assert(r == k && n.row as int == k - 1);
            assert(k < g.len());
            assert(filler_row(g[k]));
            assert(g[k][c] == '.');
            assert(false);
        }
        assert(has_adjacent_symbol(h, n));
    }
    if has_adjacent_symbol(h, n) {
        let (r, c) = choose|r: int, c: int| symbol_at(h, r, c) && adjacent(n, r, c);
        assert(r <= k);
        if r < k {
            assert(h[r] == g[r]);
            assert(symbol_at(g, r, c));
        } else {
            assert(h[k] == filler);
            assert(filler[c] == '.');
            assert(false);
        }
        assert(has_adjacent_symbol(g, n));
    }
}

proof fn lemma_flag_high(
    g: Seq<Seq<char>>,
    h: Seq<Seq<char>>,
    k: int,
    filler: Seq<char>,
    n: Number,
)
    requires
        inserted(g, h, k, filler),
        filler_row(filler),
        k <= n.row as int,
        n.row as int + 1 <= usize::MAX,
        n.row as int == k ==> (k == 0 || filler_row(g[k - 1])),
    ensures
        has_adjacent_symbol(h, bump_row(n)) == has_adjacent_symbol(g, n),
{
    assert(bump_row(n).row as int == n.row as int + 1);
    if has_adjacent_symbol(g, n) {
        let (r, c) = choose|r: int, c: int| symbol_at(g, r, c) && adjacent(n, r, c);
        if r >= k {
            assert(h[r + 1] == g[r]);
            assert(symbol_at(h, r + 1, c));
            assert(adjacent(bump_row(n), r + 1, c));
        } else {
            assert(r == k - 1 && n.row as int == k);
            assert(k >= 1);
            assert(filler_row(g[k - 1]));
            assert(g[k - 1][c] == '.');
            assert(false);
        }
        assert(has_adjacent_symbol(h, bump_row(n)));
    }
    if has_adjacent_symbol(h, bump_row(n)) {
        let (r, c) = choose|r: int, c: int| symbol_at(h, r, c) && adjacent(bump_row(n), r, c);
        assert(r >= n.row as int >= k);
        if r == k {
            assert(h[k] == filler);
            assert(filler[c] == '.');
            assert(false);
        }
        assert(r >= k + 1);
        assert(r - 1 < g.len());
        assert(h[(r - 1) + 1] == g[r - 1]);
        assert(symbol_at(g, r - 1, c));
        assert(adjacent(n, r - 1, c));
        assert(has_adjacent_symbol(g, n));
    }
}

proof fn lemma_ps_eq(
    g: Seq<Seq<char>>,
    h: Seq<Seq<char>>,
    ns: Seq<Number>,
    ms: Seq<Number>,
    i: int,
)
    requires
        ms.len() == ns.len(),
        forall|j: int|
            0 <= j < ns.len() ==> (#[trigger] ms[j]).value == ns[j].value && (has_adjacent_symbol(
                h,
                ms[j],
            ) == has_adjacent_symbol(g, ns[j])),
        0 <= i,
    ensures
        part_sum_from(h, ms, i) == part_sum_from(g, ns, i),
    decreases ns.len() - i,
{
    if i < ns.len() {
        lemma_ps_eq(g, h, ns, ms, i + 1);
    }
}

proof fn lemma_part_insertion(g: Seq<Seq<char>>, h: Seq<Seq<char>>, k: int, filler: Seq<char>)
    requires
        inserted(g, h, k, filler),
        sized_grid(g),
        g.len() + 1 <= usize::MAX,
        filler_row(filler),
        k == 0 || k == g.len() || filler_row(g[k - 1]) || filler_row(g[k]),
    ensures
        spec_part_sum(h) == spec_part_sum(g),
{
    lemma_numbers_low(g, h, k, filler, 0);
    lemma_numbers_from_row_content(g, 0);
    let ns = spec_numbers(g);
    let ms = spec_numbers(h);
    assert forall|j: int| 0 <= j < ns.len() implies (#[trigger] ms[j]).value == ns[j].value && (
    has_adjacent_symbol(h, ms[j]) == has_adjacent_symbol(g, ns[j])) by {
        let n = ns[j];
        assert(n.row < g.len());
        assert(is_run_start(g[n.row as int], n.col_start as int));
        if (n.row as int) < k {
            assert(ms[j] == n);
            if n.row as int == k - 1 && !(k == g.len() || filler_row(g[k])) {
                assert(filler_row(g[k - 1]));
                assert(g[n.row as int][n.col_start as int] == '.');
                assert(false);
            }
            lemma_flag_low(g, h, k, filler, n);
        } else {
            assert(ms[j] == bump_row(n));
            if n.row as int == k && !(k == 0) {
                if !filler_row(g[k - 1]) {
                    assert(k == g.len() || filler_row(g[k]));
                    if k == g.len() {
                        assert(false);
                    }
                    assert(filler_row(g[k]));
                    assert(g[n.row as int][n.col_start as int] == '.');
                    assert(false);
                }
            }
            lemma_flag_high(g, h, k, filler, n);
        }
    }
    lemma_ps_eq(g, h, ns, ms, 0);
}

proof fn lemma_adj_eq_low(ns: Seq<Number>, ms: Seq<Number>, k: int, r: int, c: int, i: int)
    requires
        pointwise_bump(ns, ms, k),
        forall|j: int| 0 <= j < ns.len() ==> (#[trigger] ns[j]).row as int + 1 <= usize::MAX,
        r <= k - 1,
        r == k - 1 ==> forall|j: int| 0 <= j < ns.len() ==> (#[trigger] ns[j]).row as int != k,
        0 <= i,
    ensures
        adj_from(ms, r, c, i) == adj_from(ns, r, c, i),
    decreases ns.len() - i,
{
    if i < ns.len() {
        lemma_adj_eq_low(ns, ms, k, r, c, i + 1);
        if (ns[i].row as int) < k {
            assert(ms[i] == cond_bump(ns[i], k));
            assert(ms[i] == ns[i]);
        } else {
            assert(ms[i] == bump_row(ns[i]));
            assert(ms[i].row as int == ns[i].row as int + 1);
            assert(!adjacent(ns[i], r, c));
            assert(!adjacent(ms[i], r, c));
        }
    }
}

proof fn lemma_adj_bump_high(ns: Seq<Number>, ms: Seq<Number>, k: int, r: int, c: int, i: int)
    requires
        pointwise_bump(ns, ms, k),
        forall|j: int| 0 <= j < ns.len() ==> (#[trigger] ns[j]).row as int + 1 <= usize::MAX,
        r >= k,
        r == k ==> forall|j: int| 0 <= j < ns.len() ==> (#[trigger] ns[j]).row as int != k - 1,
        0 <= i,
    ensures
        adj_from(ms, r + 1, c, i).len() == adj_from(ns, r, c, i).len(),
        forall|j: int|
            0 <= j < adj_from(ns, r, c, i).len() ==> adj_from(ms, r + 1, c, i)[j] == bump_row(
                #[trigger] adj_from(ns, r, c, i)[j],
            ),
    decreases ns.len() - i,
{
    if i < ns.len() {
        lemma_adj_bump_high(ns, ms, k, r, c, i + 1);
        let an = adj_from(ns, r, c, i);
        let am = adj_from(ms, r + 1, c, i);
        let at = adj_from(ns, r, c, i + 1);
        let bt = adj_from(ms, r + 1, c, i + 1);
        if (ns[i].row as int) < k {
            assert(ms[i] == cond_bump(ns[i], k));
            assert(ms[i] == ns[i]);
            assert(!adjacent(ns[i], r, c));
            assert(!adjacent(ms[i], r + 1, c));
        } else {
            assert(ms[i] == bump_row(ns[i]));
            assert(ms[i].row as int == ns[i].row as int + 1);
            assert(adjacent(ms[i], r + 1, c) == adjacent(ns[i], r, c));
            if adjacent(ns[i], r, c) {
                assert forall|j: int| 0 <= j < an.len() implies am[j] == bump_row(an[j]) by {
                    if j == 0 {
                        assert(an[0] == ns[i]);
                        assert(am[0] == ms[i]);
                    } else {
                        assert(an[j] == at[j - 1]);
                        assert(am[j] == bt[j - 1]);
                    }
                }
            }
        }
    }
}

proof fn lemma_gear_row_low(
    g: Seq<Seq<char>>,
    h: Seq<Seq<char>>,
    ns: Seq<Number>,
    ms: Seq<Number>,
    k: int,
    filler: Seq<char>,
    r: int,
    c: int,
)
    requires
        inserted(g, h, k, filler),
        filler_row(filler),
        pointwise_bump(ns, ms, k),
        forall|j: int| 0 <= j < ns.len() ==> (#[trigger] ns[j]).row as int + 1 <= usize::MAX,
        0 <= r < k,
        r == k - 1 ==> (filler_row(g[r]) || forall|j: int|
            0 <= j < ns.len() ==> (#[trigger] ns[j]).row as int != k),
        0 <= c,
    ensures
        gear_row_sum_from(h, ms, r, c) == gear_row_sum_from(g, ns, r, c),
    decreases g[r].len() - c,
{
    assert(h[r] == g[r]);
    if c < g[r].len() {
        lemma_gear_row_low(g, h, ns, ms, k, filler, r, c + 1);
        if g[r][c] == '*' {
            if r == k - 1 && filler_row(g[r]) {
                assert(g[r][c] == '.');
                assert(false);
            }
            lemma_adj_eq_low(ns, ms, k, r, c, 0);
            assert(gear_contrib(h, ms, r, c) == gear_contrib(g, ns, r, c));
        } else {
            assert(gear_contrib(h, ms, r, c) == 0);
            assert(gear_contrib(g, ns, r, c) == 0);
        }
    }
}

proof fn lemma_gear_row_high(
    g: Seq<Seq<char>>,
    h: Seq<Seq<char>>,
    ns: Seq<Number>,
    ms: Seq<Number>,
    k: int,
    filler: Seq<char>,
    r: int,
    c: int,
)
    requires
        inserted(g, h, k, filler),
        filler_row(filler),
        pointwise_bump(ns, ms, k),
        forall|j: int| 0 <= j < ns.len() ==> (#[trigger] ns[j]).row as int + 1 <= usize::MAX,
        k <= r < g.len(),
        r == k ==> (filler_row(g[k]) || forall|j: int|
            0 <= j < ns.len() ==> (#[trigger] ns[j]).row as int != k - 1),
        0 <= c,
    ensures
        gear_row_sum_from(h, ms, r + 1, c) == gear_row_sum_from(g, ns, r, c),
    decreases g[r].len() - c,
{
    assert(h[r + 1] == g[r]);
    if c < g[r].len() {
        lemma_gear_row_high(g, h, ns, ms, k, filler, r, c + 1);
        if g[r][c] == '*' {
            if r == k && filler_row(g[k]) {
                assert(g[r][c] == '.');
                assert(false);
            }
            lemma_adj_bump_high(ns, ms, k, r, c, 0);
            let an = adj_from(ns, r, c, 0);
            let am = adj_from(ms, r + 1, c, 0);
            if an.len() == 2 {
                assert(am[0] == bump_row(an[0]));
                assert(am[1] == bump_row(an[1]));
                assert(am[0].value == an[0].value);
                assert(am[1].value == an[1].value);
            }
            assert(gear_contrib(h, ms, r + 1, c) == gear_contrib(g, ns, r, c));
        } else {
            assert(gear_contrib(h, ms, r + 1, c) == 0);
            assert(gear_contrib(g, ns, r, c) == 0);
        }
    }
}

proof fn lemma_gear_high(
    g: Seq<Seq<char>>,
    h: Seq<Seq<char>>,
    ns: Seq<Number>,
    ms: Seq<Number>,
    k: int,
    filler: Seq<char>,
    r: int,
)
    requires
        inserted(g, h, k, filler),
        filler_row(filler),
        pointwise_bump(ns, ms, k),
        forall|j: int| 0 <= j < ns.len() ==> (#[trigger] ns[j]).row as int + 1 <= usize::MAX,
        k <= r <= g.len(),
        k < g.len() ==> (filler_row(g[k]) || forall|j: int|
            0 <= j < ns.len() ==> (#[trigger] ns[j]).row as int != k - 1),
    ensures
        gear_sum_from(h, ms, r + 1) == gear_sum_from(g, ns, r),
    decreases g.len() - r,
{
    if r < g.len() {
        lemma_gear_row_high(g, h, ns, ms, k, filler, r, 0);
        lemma_gear_high(g, h, ns, ms, k, filler, r + 1);
    } else {
        assert(r + 1 >= h.len());
    }
}

proof fn lemma_filler_row_zero(h: Seq<Seq<char>>, ms: Seq<Number>, k: int, c: int)
    requires
        0 <= k < h.len(),
        filler_row(h[k]),
        0 <= c,
    ensures
        gear_row_sum_from(h, ms, k, c) == 0,
    decreases h[k].len() - c,
{
    if c < h[k].len() {
        assert(h[k][c] == '.');
        lemma_filler_row_zero(h, ms, k, c + 1);
    }
}

proof fn lemma_gear_low(
    g: Seq<Seq<char>>,
    h: Seq<Seq<char>>,
    ns: Seq<Number>,
    ms: Seq<Number>,
    k: int,
    filler: Seq<char>,
    r: int,
)
    requires
        inserted(g, h, k, filler),
        filler_row(filler),
        pointwise_bump(ns, ms, k),
        forall|j: int| 0 <= j < ns.len() ==> (#[trigger] ns[j]).row as int + 1 <= usize::MAX,
        0 <= r <= k,
        k >= 1 ==> (filler_row(g[k - 1]) || forall|j: int|
            0 <= j < ns.len() ==> (#[trigger] ns[j]).row as int != k),
        k < g.len() ==> (filler_row(g[k]) || forall|j: int|
            0 <= j < ns.len() ==> (#[trigger] ns[j]).row as int != k - 1),
    ensures
        gear_sum_from(h, ms, r) == gear_sum_from(g, ns, r),
    decreases k - r,
{
    if r == k {
        assert(h[k] == filler);
        lemma_filler_row_zero(h, ms, k, 0);
        lemma_gear_high(g, h, ns, ms, k, filler, k);
        assert(gear_sum_from(h, ms, k) == gear_row_sum_from(h, ms, k, 0) + gear_sum_from(
            h,
            ms,
            k + 1,
        ));
        if k >= g.len() {
            assert(gear_sum_from(g, ns, k) == gear_sum_from(h, ms, k + 1));
        }
    } else {
        lemma_gear_row_low(g, h, ns, ms, k, filler, r, 0);
        lemma_gear_low(g, h, ns, ms, k, filler, r + 1);
    }
}

proof fn lemma_gear_insertion(g: Seq<Seq<char>>, h: Seq<Seq<char>>, k: int, filler: Seq<char>)
    requires
        inserted(g, h, k, filler),
        sized_grid(g),
        g.len() + 1 <= usize::MAX,
        filler_row(filler),
        k == 0 || k == g.len() || filler_row(g[k - 1]) || filler_row(g[k]),
    ensures
        spec_gear_sum(h) == spec_gear_sum(g),
{
    lemma_numbers_low(g, h, k, filler, 0);
    lemma_numbers_from_row_content(g, 0);
    let ns = spec_numbers(g);
    let ms = spec_numbers(h);
    assert forall|j: int| 0 <= j < ns.len() implies (#[trigger] ns[j]).row as int + 1
        <= usize::MAX by {
        assert(ns[j].row < g.len());
    }
    assert forall|j: int|
        0 <= j < ns.len() && 0 <= ns[j].row < g.len() && filler_row(
            g[ns[j].row as int],
        ) implies false by {
        let n = ns[j];
        assert(is_run_start(g[n.row as int], n.col_start as int));
        assert(g[n.row as int][n.col_start as int] == '.');
    }
    if k >= 1 && !filler_row(g[k - 1]) {
        assert(k == g.len() || filler_row(g[k]));
        assert forall|j: int| 0 <= j < ns.len() implies (#[trigger] ns[j]).row as int != k by {
            assert(ns[j].row < g.len());
            if ns[j].row as int == k {
                assert(filler_row(g[k]));
            }
        }
    }
    if k < g.len() && !filler_row(g[k]) {
        assert forall|j: int| 0 <= j < ns.len() implies (#[trigger] ns[j]).row as int != k - 1 by {
            if ns[j].row as int == k - 1 {
                assert(k != 0);
                assert(filler_row(g[k - 1]));
            }
        }
    }
    lemma_gear_low(g, h, ns, ms, k, filler, 0);
}

/// Adding an all-filler row anywhere in the grid changes neither the part
/// sum nor the gear-ratio sum, provided the insertion point does not
/// separate two rows that interact: one side of the cut is a grid end or an
/// all-filler row. (Cutting between a number and its only adjacent symbol
/// would remove that adjacency, so such cuts are excluded.)
pub proof fn lemma_filler_row_insertion(g: Seq<Seq<char>>, k: int, filler: Seq<char>)
    requires
        sized_grid(g),
        g.len() + 1 <= usize::MAX,
        0 <= k <= g.len(),
        filler_row(filler),
        k == 0 || k == g.len() || filler_row(g[k - 1]) || filler_row(g[k]),
    ensures
        spec_part_sum(g.insert(k, filler)) == spec_part_sum(g),
        spec_gear_sum(g.insert(k, filler)) == spec_gear_sum(g),
{
    let h = g.insert(k, filler);
    g.insert_ensures(k, filler);
    assert forall|i: int| 0 <= i < k implies h[i] == g[i] by {
        assert(g.insert(k, filler)[i] == g[i]);
    }
    assert forall|i: int| k <= i < g.len() implies h[i + 1] == g[i] by {
        assert(g.insert(k, filler)[i + 1] == g[i]);
    }
    assert(h[k] == filler);
    assert(inserted(g, h, k, filler));
    lemma_part_insertion(g, h, k, filler);
    lemma_gear_insertion(g, h, k, filler);
}

} // verus!
