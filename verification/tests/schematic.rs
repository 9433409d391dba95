use schematic_engine::schematic::Number;
use schematic_engine::schematic::Schematic;
use schematic_engine::schematic::numbers_adjacent_to;

const EXAMPLE: &str = "467..114..
...*......
..35..633.
......#...
617*......
.....+.58.
..592.....
......755.
...$.*....
.664.598..";

#[test]
fn test_sum() {
    let input = r#"467..114..
...*......
..35..633.
......#...
617*......
.....+.58.
..592.....
......755.
...$.*....
.664.598.."#;

    let s = Schematic::from_input(input);
    assert_eq!(s.sum(), 4361);
}

#[test]
fn test_gear_ratio_sum_example() {
    let s = Schematic::from_input(EXAMPLE);
    assert_eq!(s.gears(), 467835);
}

#[test]
fn test_no_symbols_zero_sums() {
    let s = Schematic::from_input("12..34\n..56..\n......");
    assert_eq!(s.sum(), 0);
    assert_eq!(s.gears(), 0);
}

#[test]
fn test_empty_grid() {
    let s = Schematic::from_input("");
    assert_eq!(s.height(), 0);
    assert_eq!(s.sum(), 0);
    assert_eq!(s.gears(), 0);
}

#[test]
fn test_extract_spans_and_values() {
    let s = Schematic::from_input("467..114..");
    let numbers = s.extract();
    assert_eq!(
        numbers,
        vec![
            Number { value: 467, row: 0, col_start: 0, col_end: 2 },
            Number { value: 114, row: 0, col_start: 5, col_end: 7 },
        ]
    );
}

#[test]
fn test_extract_never_splits_or_merges() {
    let s = Schematic::from_input("12.34");
    let numbers = s.extract();
    assert_eq!(numbers.len(), 2);
    assert_eq!(numbers[0].value, 12);
    assert_eq!(numbers[1].value, 34);

    let joined = Schematic::from_input("1234");
    let numbers = joined.extract();
    assert_eq!(numbers.len(), 1);
    assert_eq!(numbers[0].value, 1234);
}

#[test]
fn test_extract_idempotent() {
    let s = Schematic::from_input(EXAMPLE);
    let first = s.extract();
    let second = s.extract();
    assert_eq!(first, second);
}

#[test]
fn test_run_to_end_of_row() {
    let s = Schematic::from_input("..999");
    let numbers = s.extract();
    assert_eq!(
        numbers,
        vec![Number { value: 999, row: 0, col_start: 2, col_end: 4 }]
    );
}

#[test]
fn test_diagonal_at_last_digit_counts() {
    // The symbol touches only the last digit of 12, and only diagonally.
    let s = Schematic::from_input("12..\n..#.");
    assert_eq!(s.sum(), 12);
}

#[test]
fn test_diagonal_at_first_digit_counts() {
    let s = Schematic::from_input(".12.\n#...");
    assert_eq!(s.sum(), 12);
}

#[test]
fn test_gear_needs_exactly_two() {
    // Three numbers around the star: contributes nothing.
    let three = Schematic::from_input("1.2\n.*.\n3..");
    assert_eq!(three.gears(), 0);
    // One number around the star: contributes nothing.
    let one = Schematic::from_input("1..\n.*.\n...");
    assert_eq!(one.gears(), 0);
    // Exactly two: contributes their product.
    let two = Schematic::from_input("3..\n.*.\n..5");
    assert_eq!(two.gears(), 15);
}

#[test]
fn test_gears_distinct_by_identity_not_value() {
    // Two different numbers with the same value still form a gear.
    let s = Schematic::from_input("35.\n.*.\n35.");
    assert_eq!(s.gears(), 35 * 35);
}

#[test]
fn test_filler_row_insertion_changes_nothing() {
    // A filler row inserted beside an all-filler row changes neither sum.
    let before = Schematic::from_input("467..114..\n...*......\n..........\n..35..633.");
    let after = Schematic::from_input("467..114..\n...*......\n..........\n..........\n..35..633.");
    assert_eq!(before.sum(), after.sum());
    assert_eq!(before.gears(), after.gears());

    // A filler row that separates a number from its only symbol does not:
    // the insertion point cuts through interacting rows.
    let touching = Schematic::from_input("12.\n..#");
    let separated = Schematic::from_input("12.\n...\n..#");
    assert_eq!(touching.sum(), 12);
    assert_eq!(separated.sum(), 0);
}

#[test]
fn test_ragged_rows_are_clamped() {
    // Rows of different lengths: lookups clamp per row.
    let s = Schematic::from_input("12\n..#\n");
    assert_eq!(s.height(), 2);
    assert_eq!(s.row_width(0), 2);
    assert_eq!(s.row_width(1), 3);
    assert_eq!(s.sum(), 12);
}

#[test]
fn test_cell_lookup() {
    let s = Schematic::from_input("a.\n.1");
    assert_eq!(s.cell(0, 0), 'a');
    assert_eq!(s.cell(1, 1), '1');
}

#[test]
fn test_numbers_adjacent_to_position() {
    let s = Schematic::from_input("3..\n.*.\n..5");
    let numbers = s.extract();
    let adj = numbers_adjacent_to(&numbers, 1, 1);
    assert_eq!(adj.len(), 2);
    assert_eq!(adj[0].value, 3);
    assert_eq!(adj[1].value, 5);
    let none = numbers_adjacent_to(&numbers, 0, 2);
    assert_eq!(none.len(), 0);
}

#[test]
fn test_touches_symbol_per_number() {
    let s = Schematic::from_input("467..114..\n...*......");
    let numbers = s.extract();
    assert!(s.touches_symbol(&numbers[0]));
    assert!(!s.touches_symbol(&numbers[1]));
    assert_eq!(s.part_sum(&numbers), 467);
}
