use threebit::claw::{self, solve_game_fast, Button, Game};
use threebit::lists::{self, count_occurrences, similarity_score, sort_values, total_distance};
use threebit::reports::{self, is_valid, is_valid_dampened};
use threebit::stones::{self, blink, blink_stone, blink_times, num_digits, power_of_ten};
use threebit::text::{parse_rows, split_lines};

const REPORTS: &str = "7 6 4 2 1\n1 2 7 8 9\n9 7 6 2 1\n1 3 2 4 5\n8 6 4 4 1\n1 3 6 7 9\n";
const LISTS: &str = "3   4\n4   3\n2   5\n1   3\n3   9\n3   3\n";
const MACHINES: &str = "Button A: X+94, Y+34\nButton B: X+22, Y+67\nPrize: X=8400, Y=5400\n\n\
Button A: X+26, Y+66\nButton B: X+67, Y+21\nPrize: X=12748, Y=12176\n\n\
Button A: X+17, Y+86\nButton B: X+84, Y+37\nPrize: X=7870, Y=6450\n\n\
Button A: X+69, Y+23\nButton B: X+27, Y+71\nPrize: X=18641, Y=10279\n";

#[test]
fn lines_split_at_newlines() {
    let chars: Vec<char> = "ab\n\nc".chars().collect();
    assert_eq!(split_lines(&chars), vec![vec!['a', 'b'], vec![], vec!['c']]);
    assert_eq!(parse_rows("1 2\n\nx\n3\n"), Some(vec![vec![1, 2], vec![3]]));
    assert_eq!(parse_rows("99999999999999999999 1\n"), None);
}

#[test]
fn report_safety() {
    assert!(is_valid(&vec![7, 6, 4, 2, 1]));
    assert!(!is_valid(&vec![1, 2, 7, 8, 9]));
    assert!(!is_valid(&vec![8, 6, 4, 4, 1]));
    assert!(is_valid(&vec![5]));
    assert!(is_valid_dampened(&vec![1, 3, 2, 4, 5]));
    assert!(!is_valid_dampened(&vec![9, 7, 6, 2, 1]));
}

#[test]
fn reports_example() {
    assert_eq!(reports::part_one(REPORTS), Some(2));
    assert_eq!(reports::part_two(REPORTS), Some(4));
}

#[test]
fn lists_helpers() {
    assert_eq!(sort_values(&vec![3, 1, 2, 1]), vec![1, 1, 2, 3]);
    assert_eq!(sort_values(&vec![]), Vec::<u64>::new());
    assert_eq!(total_distance(&vec![1, 5], &vec![4, 2]), Some(6));
    assert_eq!(total_distance(&vec![u64::MAX, 0], &vec![0, u64::MAX]), None);
    assert_eq!(count_occurrences(&vec![3, 4, 3], 3), 2);
    assert_eq!(similarity_score(&vec![3, 4], &vec![3, 3, 4]), Some(10));
}

#[test]
fn lists_example() {
    assert_eq!(lists::part_one(LISTS), Some(11));
    assert_eq!(lists::part_two(LISTS), Some(31));
    assert_eq!(lists::parse_input("1 2 3\n4 5\n"), Some((vec![4], vec![5])));
}

#[test]
fn stone_rules() {
    assert_eq!(num_digits(0), 1);
    assert_eq!(num_digits(1000), 4);
    assert_eq!(num_digits(u64::MAX), 20);
    assert_eq!(power_of_ten(3), 1000);
    let mut out = vec![];
    assert!(blink_stone(1000, &mut out));
    assert_eq!(out, vec![10, 0]);
    let mut out = vec![];
    assert!(!blink_stone(u64::MAX / 1000, &mut out));
    assert!(out.is_empty());
    assert_eq!(blink(&vec![0, 1, 10, 99, 999]), Some(vec![1, 2024, 1, 0, 9, 9, 2021976]));
    assert_eq!(blink_times(&vec![125, 17], 6).map(|v| v.len()), Some(22));
}

#[test]
fn stones_example() {
    assert_eq!(stones::parse_input("125 17\n"), Some(vec![125, 17]));
    assert_eq!(stones::part_one("125 17"), Some(55312));
}

fn game(ax: u64, ay: u64, bx: u64, by: u64, px: u64, py: u64) -> Game {
    Game {
        a: Button { x: ax, y: ay },
        b: Button { x: bx, y: by },
        prize: Button { x: px, y: py },
    }
}

#[test]
fn claw_solver() {
    assert_eq!(solve_game_fast(&game(94, 34, 22, 67, 8400, 5400)), Some(280));
    assert_eq!(solve_game_fast(&game(26, 66, 67, 21, 12748, 12176)), None);
    // Parallel moves are not solved.
    assert_eq!(solve_game_fast(&game(1, 1, 2, 2, 4, 4)), None);
    assert_eq!(
        solve_game_fast(&game(26, 66, 67, 21, 10000000012748, 10000000012176)),
        Some(459236326669)
    );
}

#[test]
fn claw_example() {
    let games = claw::parse_input(MACHINES).unwrap();
    assert_eq!(games.len(), 4);
    assert_eq!(games[3], game(69, 23, 27, 71, 18641, 10279));
    assert_eq!(claw::part_two(MACHINES), Some(875318608908));
}
