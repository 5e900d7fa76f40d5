use threebit::machine::Registers;
use threebit::puzzle::{chars_of, parse_input, parse_numbers, part_one, part_two};

const EXAMPLE: &str = "Register A: 2024\nRegister B: 0\nRegister C: 0\n\nProgram: 0,3,5,4,3,0\n";

#[test]
fn test_part_one() {
    let result = part_one(EXAMPLE);
    assert_eq!(result, Some("5,7,3,0".to_string()));
}

#[test]
fn test_part_two() {
    let result = part_two(EXAMPLE);
    assert_eq!(result, Some(117440));
}

#[test]
fn part_one_first_example() {
    let input = "Register A: 729\nRegister B: 0\nRegister C: 0\n\nProgram: 0,1,5,4,3,0\n";
    assert_eq!(part_one(input), Some("4,6,3,5,6,3,5,2,1,0".to_string()));
}

#[test]
fn part_one_renders_empty_output_as_empty_text() {
    let input = "Register A: 0\nRegister B: 29\nRegister C: 0\n\nProgram: 1,7\n";
    assert_eq!(part_one(input), Some(String::new()));
}

#[test]
fn part_one_rejects_bad_program() {
    let input = "Register A: 1\nRegister B: 0\nRegister C: 0\n\nProgram: 9,0\n";
    assert_eq!(part_one(input), None);
    assert_eq!(part_two(input), None);
}

#[test]
fn part_one_rejects_endless_program() {
    let input = "Register A: 1\nRegister B: 0\nRegister C: 0\n\nProgram: 3,0\n";
    assert_eq!(part_one(input), None);
}

#[test]
fn parse_reads_registers_and_words() {
    let (regs, words) = parse_input(EXAMPLE).unwrap();
    assert_eq!(regs, Registers::new(2024, 0, 0));
    assert_eq!(words, vec![0, 3, 5, 4, 3, 0]);
}

#[test]
fn parse_needs_three_registers() {
    assert_eq!(parse_input("Register A: 1\nRegister B: 2\n"), None);
    assert_eq!(part_one("no numbers here"), None);
}

#[test]
fn parse_rejects_values_beyond_u64() {
    let input = "Register A: 18446744073709551616\nRegister B: 0\nRegister C: 0\n\nProgram: 5,4\n";
    assert_eq!(parse_input(input), None);
    let largest = "Register A: 18446744073709551615\nRegister B: 0\nRegister C: 0\n\nProgram: 5,4\n";
    assert_eq!(parse_input(largest).unwrap().0.a, u64::MAX);
}

#[test]
fn numbers_are_maximal_digit_runs() {
    let chars = chars_of("a12,3 x045\n7");
    assert_eq!(parse_numbers(&chars), Some(vec![12, 3, 45, 7]));
    assert_eq!(parse_numbers(&chars_of("")), Some(vec![]));
    assert_eq!(chars_of("ab"), vec!['a', 'b']);
}
