use advent_code_25::lobby::{from_digit, is_bank_valid, max_joltage_for_bank, solve_for, BankError, IteratorExt};

#[test]
fn test_first_max_position() {
    assert!(matches!(b""[..].first_max_position(), None));
    assert_eq!(b"1"[..].first_max_position().unwrap(), 0);
    assert_eq!(b"12"[..].first_max_position().unwrap(), 1);
    assert_eq!(b"21"[..].first_max_position().unwrap(), 0);
    assert_eq!(b"22"[..].first_max_position().unwrap(), 0);
    assert_eq!(b"212"[..].first_max_position().unwrap(), 0);
}

#[test]
fn test_is_bank_valid() {
    // too small
    assert!(!is_bank_valid(b""));
    assert!(!is_bank_valid(b"1"));
    assert!(!is_bank_valid(b"12345678901"));

    assert!(is_bank_valid(b"123456789012"));
    assert!(is_bank_valid(b"1234567890123"));

    // non-digits
    assert!(!is_bank_valid(b"123456789012@"));
}

#[test]
fn test_max_joltage_for_bank() {
    assert_eq!(max_joltage_for_bank(b"987654321111111"), 987654321111);
    assert_eq!(max_joltage_for_bank(b"811111111111119"), 811111111119);
    assert_eq!(max_joltage_for_bank(b"234234234234278"), 434234234278);
    assert_eq!(max_joltage_for_bank(b"818181911112111"), 888911112111);
}

#[test]
fn joltage_of_shortest_and_largest_banks() {
    assert_eq!(max_joltage_for_bank(b"123456789012"), 123456789012);
    assert_eq!(max_joltage_for_bank(b"999999999999999"), 999999999999);
    assert_eq!(max_joltage_for_bank(b"000000000000"), 0);
    assert_eq!(from_digit(b'7'), 7);
}

#[test]
fn example_banks_total() {
    let input = b"987654321111111\n811111111111119\n234234234234278\n818181911112111\n";
    assert_eq!(solve_for(input), Ok(3121910778619));
    assert_eq!(solve_for(b""), Ok(0));
    assert_eq!(solve_for(b"987654321111111\n12\n"), Err(BankError::IllFormed));
    assert_eq!(solve_for(b"98765432111x111\n"), Err(BankError::IllFormed));
}
