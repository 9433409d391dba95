use schematic_engine::calibration::real_digits;

#[test]
fn test_real_digits() {
    assert_eq!(real_digits("oneoneone"), vec![1, 1, 1]);
    assert_eq!(real_digits("two1nine1"), vec![2, 1, 9, 1]);
    assert_eq!(real_digits("eightwothree"), vec![8, 2, 3]);
    assert_eq!(real_digits("abcone2threexyz"), vec![1, 2, 3]);
    assert_eq!(real_digits("xtwone3four"), vec![2, 1, 3, 4]);
    assert_eq!(real_digits("4nineeightseven2"), vec![4, 9, 8, 7, 2]);
    assert_eq!(real_digits("zoneight234"), vec![1, 8, 2, 3, 4]);
    assert_eq!(real_digits("7pqrstsixteen"), vec![7, 6]);
    assert_eq!(real_digits("fourthree73fiveseven"), vec![4, 3, 7, 3, 5, 7]);
    assert_eq!(real_digits("fourthree73fiveseven7"), vec![4, 3, 7, 3, 5, 7, 7]);
    assert_eq!(real_digits("9five9six8threet"), vec![9, 5, 9, 6, 8, 3]);
}

#[test]
fn test_real_digits_empty_and_zero() {
    assert_eq!(real_digits(""), Vec::<u32>::new());
    // `0` and `zero` are not calibration digits.
    assert_eq!(real_digits("zero0"), Vec::<u32>::new());
}
