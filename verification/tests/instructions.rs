use grid_puzzles::instructions::{
    extract_sum_of_muls, get_all_muls, get_all_muls_with_enablers, join_groups, sum_of_products,
    InstructionError,
};
use grid_puzzles::numbers::{parse_i32, parse_i64};

fn groups(parts: &[Option<&str>]) -> Vec<Option<String>> {
    parts.iter().map(|p| p.map(|s| s.to_string())).collect()
}

#[test]
fn multiplications_are_found_and_added() {
    let text = "xmul(2,4)%&mul[3,7]!@^do_not_mul(5,5)+mul(32,64]then(mul(11,8)mul(8,5))";
    assert_eq!(extract_sum_of_muls(text), Ok(161));
    assert_eq!(get_all_muls(text), Ok(161));
}

#[test]
fn text_without_multiplication_sums_to_zero() {
    assert_eq!(extract_sum_of_muls(""), Ok(0));
    assert_eq!(extract_sum_of_muls("mul(1, 2) mul (3,4) mul(5,6"), Ok(0));
    assert_eq!(extract_sum_of_muls("mul(007,3)"), Ok(21));
}

#[test]
fn only_enabled_parts_count() {
    let text =
        "do()xmul(2,4)&mul[3,7]!^don't()_mul(5,5)+mul(32,64](mul(11,8)undo()?mul(8,5))don't()";
    assert_eq!(get_all_muls_with_enablers(text), Ok(48));
    assert_eq!(get_all_muls_with_enablers("mul(2,3)"), Ok(0));
    assert_eq!(get_all_muls_with_enablers("do()mul(2,3)"), Ok(0));
    assert_eq!(get_all_muls_with_enablers("do()mul(2,\n3)mul(2,3)\ndon't()mul(4,4)"), Ok(6));
}

#[test]
fn number_too_large_is_no_number() {
    assert_eq!(extract_sum_of_muls("mul(99999999999,1)"), Err(InstructionError::NotANumber));
    assert_eq!(extract_sum_of_muls("mul(٣,1)"), Err(InstructionError::NotANumber));
}

#[test]
fn product_or_sum_too_large_overflows() {
    assert_eq!(extract_sum_of_muls("mul(65536,65536)"), Err(InstructionError::Overflow));
    assert_eq!(
        extract_sum_of_muls("mul(2147483647,1)mul(1,1)"),
        Err(InstructionError::Overflow)
    );
    assert_eq!(extract_sum_of_muls("mul(2147483647,1)mul(0,1)"), Ok(2147483647));
}

#[test]
fn products_of_given_matches() {
    let matches = vec![
        groups(&[Some("mul(2,4)"), Some("2"), Some("4")]),
        groups(&[Some("mul(-3,5)"), Some("-3"), Some("+5")]),
    ];
    assert_eq!(sum_of_products(&matches), Ok(-7));
    assert_eq!(sum_of_products(&Vec::new()), Ok(0));
    let short = vec![groups(&[Some("x"), Some("2")])];
    assert_eq!(sum_of_products(&short), Err(InstructionError::MissingGroup));
    let absent = vec![groups(&[Some("x"), None, Some("2")])];
    assert_eq!(sum_of_products(&absent), Err(InstructionError::MissingGroup));
    let no_number = vec![groups(&[Some("x"), Some("2"), Some("two")])];
    assert_eq!(sum_of_products(&no_number), Err(InstructionError::NotANumber));
    let first_error = vec![
        groups(&[Some("x"), Some("2"), Some("two")]),
        groups(&[Some("x"), Some("2")]),
    ];
    assert_eq!(sum_of_products(&first_error), Err(InstructionError::NotANumber));
}

#[test]
fn groups_are_joined_with_spaces() {
    let matches = vec![
        groups(&[Some("do()ab don't()"), Some("ab ")]),
        groups(&[Some("do()don't()"), Some("")]),
        groups(&[Some("do()c don't()"), Some("c")]),
    ];
    assert_eq!(join_groups(&matches), Ok("ab   c".to_string()));
    assert_eq!(join_groups(&Vec::new()), Ok(String::new()));
    let absent = vec![groups(&[Some("x"), None])];
    assert_eq!(join_groups(&absent), Err(InstructionError::MissingGroup));
    let short = vec![groups(&[Some("x"), Some("a")]), groups(&[Some("x")])];
    assert_eq!(join_groups(&short), Err(InstructionError::MissingGroup));
}

#[test]
fn numbers_are_read_with_and_without_sign() {
    assert_eq!(parse_i64("0"), Some(0));
    assert_eq!(parse_i64("42"), Some(42));
    assert_eq!(parse_i64("+42"), Some(42));
    assert_eq!(parse_i64("-42"), Some(-42));
    assert_eq!(parse_i64("0042"), Some(42));
    assert_eq!(parse_i64("-0"), Some(0));
    assert_eq!(parse_i64("9223372036854775807"), Some(i64::MAX));
    assert_eq!(parse_i64("-9223372036854775808"), Some(i64::MIN));
    assert_eq!(parse_i32("2147483647"), Some(i32::MAX));
    assert_eq!(parse_i32("-2147483648"), Some(i32::MIN));
}

#[test]
fn what_is_no_number_is_refused() {
    for text in ["", "+", "-", "4 2", " 42", "42 ", "4-2", "--4", "+-4", "a", "1e3", "٣", "1.0"] {
        assert_eq!(parse_i64(text), None);
        assert_eq!(parse_i64(text), text.parse::<i64>().ok());
    }
    assert_eq!(parse_i64("9223372036854775808"), None);
    assert_eq!(parse_i64("-9223372036854775809"), None);
    assert_eq!(parse_i64("99999999999999999999999999999999999999999999"), None);
    assert_eq!(parse_i32("2147483648"), None);
    assert_eq!(parse_i32("-2147483649"), None);
}

#[test]
fn numbers_are_read_as_std_reads_them() {
    for text in ["7", "-7", "+7", "000", "-000123", "2147483648", "18446744073709551616"] {
        assert_eq!(parse_i64(text), text.parse::<i64>().ok());
        assert_eq!(parse_i32(text), text.parse::<i32>().ok());
    }
}
