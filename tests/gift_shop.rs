use advent_code_25::gift_shop::{
    is_invalid_id, nb_digits, parse_id, parse_id_range, ranges_from_input, solve_for,
    sum_invalid_ids_in_range, IdError, Range, SumError,
};

fn parse_input(input: &[u8]) -> Result<Vec<Range>, IdError> {
    ranges_from_input(input)
}

#[test]
fn test_parse_id() {
    assert!(matches!(parse_id(b"1"), Ok(1)));
    assert!(matches!(parse_id(b"123"), Ok(123)));
    assert!(matches!(parse_id(b"123!"), Err(_)));
}

#[test]
fn test_parse_id_range() {
    assert!(matches!(parse_id_range(b"1-2"), Ok(Range(1, 2))));
    assert!(matches!(parse_id_range(b"12-99"), Ok(Range(12, 99))));
    assert!(matches!(parse_id_range(b"12"), Err(_)));
    assert!(matches!(parse_id_range(b"12-"), Err(_)));
    assert!(matches!(parse_id_range(b"-12"), Err(_)));
}

#[test]
fn test_parse_ranges() {
    assert_eq!(parse_input(b"").unwrap(), vec![]);
    assert_eq!(parse_input(b"1-2").unwrap(), vec![Range(1, 2)]);
    assert_eq!(parse_input(b"1-2,3-4").unwrap(), vec![Range(1, 2), Range(3, 4)]);
}

#[test]
fn digits() {
    assert_eq!(nb_digits(0), 1);
    assert_eq!(nb_digits(9), 1);
    assert_eq!(nb_digits(10), 2);
    assert_eq!(nb_digits(99), 2);
    assert_eq!(nb_digits(100), 3);
    assert_eq!(nb_digits(999), 3);
}

#[test]
fn id_with_odd_number_of_digits_is_valid() {
    assert!(!is_invalid_id(1));
}

#[test]
fn id_without_repeating_sequence_is_valid() {
    assert!(!is_invalid_id(12));
    assert!(!is_invalid_id(1234));
}

#[test]
fn id_with_repeating_sequence_is_invalid() {
    assert!(is_invalid_id(11));
    assert!(is_invalid_id(1212));
    assert!(is_invalid_id(123123));
}

#[test]
fn digits_of_the_largest_id() {
    assert_eq!(nb_digits(usize::MAX), usize::MAX.to_string().len() as u32);
    assert!(!is_invalid_id(usize::MAX));
    assert!(!is_invalid_id(0));
    assert!(is_invalid_id(1010));
    assert!(!is_invalid_id(1001));
    assert!(!is_invalid_id(111));
}

#[test]
fn parse_errors_are_told_apart() {
    assert_eq!(parse_id(b""), Err(IdError::Empty));
    assert_eq!(parse_id(b"1a"), Err(IdError::NotDigit));
    assert_eq!(parse_id(b"99999999999999999999999"), Err(IdError::TooLarge));
    assert_eq!(parse_id_range(b"12"), Err(IdError::MissingDash));
    assert_eq!(parse_id_range(b"12-"), Err(IdError::Empty));
    assert_eq!(parse_id_range(b"1-2-3"), Err(IdError::NotDigit));
    assert_eq!(parse_input(b"1-2,x"), Err(IdError::MissingDash));
    assert_eq!(parse_input(b"1-2,"), Ok(vec![Range(1, 2)]));
}

#[test]
fn sums_of_doubled_ids() {
    assert_eq!(sum_invalid_ids_in_range(Range(11, 22)), Some(33));
    assert_eq!(sum_invalid_ids_in_range(Range(95, 115)), Some(99));
    assert_eq!(sum_invalid_ids_in_range(Range(998, 1012)), Some(1010));
    assert_eq!(sum_invalid_ids_in_range(Range(1698522, 1698528)), Some(0));
    assert_eq!(sum_invalid_ids_in_range(Range(22, 11)), Some(0));
    assert_eq!(sum_invalid_ids_in_range(Range(usize::MAX, usize::MAX)), Some(0));
}

#[test]
fn example_ranges_total() {
    let input = b"11-22,95-115,998-1012,1188511880-1188511890,222220-222224,1698522-1698528,446443-446449,38593856-38593862,565653-565659,824824821-824824827,2121212118-2121212124";
    assert_eq!(solve_for(input), Ok(1227775554));
    assert_eq!(solve_for(b"1-2,3"), Err(SumError::Range(IdError::MissingDash)));
}
