//! The worked examples for each puzzle, plus malformed and edge inputs.

use advent_of_code::day01;
use advent_of_code::day02;
use advent_of_code::day03;
use advent_of_code::day04;
use advent_of_code::day05;
use advent_of_code::day07;
use advent_of_code::day09;
use advent_of_code::day10;
use advent_of_code::day11;
use advent_of_code::day13;
use advent_of_code::day14;

const DAY01_EXAMPLE: &str = "3   4\n4   3\n2   5\n1   3\n3   9\n3   3\n";

#[test]
fn day01_test_part_one() {
    let result = day01::part_one(DAY01_EXAMPLE);
    assert_eq!(result, Some(11));
}

#[test]
fn day01_test_part_two() {
    let result = day01::part_two(DAY01_EXAMPLE);
    assert_eq!(result, Some(31));
}

#[test]
fn day01_malformed_line() {
    assert_eq!(day01::part_one("3 4\n7\n"), None);
    assert_eq!(day01::part_one("3 4\nx y\n"), None);
}

#[test]
fn day01_empty_input() {
    assert_eq!(day01::part_one(""), Some(0));
    assert_eq!(day01::part_two(""), Some(0));
}

const DAY02_EXAMPLE: &str =
    "7 6 4 2 1\n1 2 7 8 9\n9 7 6 2 1\n1 3 2 4 5\n8 6 4 4 1\n1 3 6 7 9\n";

#[test]
fn day02_test_part_one() {
    let result = day02::part_one(DAY02_EXAMPLE);
    assert_eq!(result, Some(2));
}

#[test]
fn day02_test_part_two() {
    let result = day02::part_two(DAY02_EXAMPLE);
    assert_eq!(result, Some(4));
}

#[test]
fn day02_short_line_rejected() {
    assert_eq!(day02::part_one("5\n"), None);
    // a two-level unsafe report leaves nothing to drop
    assert_eq!(day02::part_two("1 5\n"), None);
    // but a two-level safe report is fine
    assert_eq!(day02::part_two("1 2\n"), Some(1));
}

const DAY03_EXAMPLE_ONE: &str =
    "xmul(2,4)%&mul[3,7]!@^do_not_mul(5,5)+mul(32,64]then(mul(11,8)mul(8,5))";

const DAY03_EXAMPLE_TWO: &str =
    "xmul(2,4)&mul[3,7]!^don't()_mul(5,5)+mul(32,64](mul(11,8)undo()?mul(8,5))";

#[test]
fn day03_test_part_one() {
    let result = day03::part_one(DAY03_EXAMPLE_ONE);
    assert_eq!(result, Some(161));
}

#[test]
fn day03_test_part_two() {
    let result = day03::part_two(DAY03_EXAMPLE_TWO);
    assert_eq!(result, Some(48));
}

#[test]
fn day03_scanner_quirks() {
    assert_eq!(day03::part_one("mul(4,5)"), Some(20));
    // a failed attempt swallows the byte that ended it, so the overlapping
    // instruction inside is never seen
    assert_eq!(day03::part_one("mmul(4,5)"), Some(0));
    assert_eq!(day03::part_one("mul(4,5"), Some(0));
    assert_eq!(day03::part_one("mul(,5)"), Some(0));
    // an oversized number is where the original scanner gives out
    assert_eq!(day03::part_one("mul(9999999999,2)"), None);
}

#[test]
fn day03_toggles() {
    assert_eq!(day03::part_two("mul(2,3)don't()mul(4,5)do()mul(6,7)"), Some(48));
    // in the second machine a missing closing parenthesis at the end still counts
    assert_eq!(day03::part_two("mul(2,3"), Some(6));
    // and an empty first number reads as zero
    assert_eq!(day03::part_two("mul(,5)"), Some(0));
}

const DAY04_EXAMPLE: &str = "MMMSXXMASM\nMSAMXMSMSA\nAMXSXMAAMM\nMSAMASMSMX\nXMASAMXAMM\nXXAMMXXAMA\nSMSMSASXSS\nSAXAMASAAA\nMAMMMXMMMM\nMXMXAXMASX\n";

#[test]
fn day04_test_part_one() {
    let result = day04::part_one(DAY04_EXAMPLE);
    assert_eq!(result, Some(18));
}

#[test]
fn day04_test_part_two() {
    let result = day04::part_two(DAY04_EXAMPLE);
    assert_eq!(result, Some(9));
}

#[test]
fn day04_single_word() {
    assert_eq!(day04::part_one("XMAS\n"), Some(1));
    assert_eq!(day04::part_one("SAMX\n"), Some(1));
    assert_eq!(day04::part_one("XXXX\n"), Some(0));
    assert_eq!(day04::part_one(""), Some(0));
}

const DAY07_EXAMPLE: &str = "190: 10 19\n3267: 81 40 27\n83: 17 5\n156: 15 6\n7290: 6 8 6 15\n161011: 16 10 13\n192: 17 8 14\n21037: 9 7 18\n292: 11 6 16 20\n";

#[test]
fn day07_test_part_one() {
    let result = day07::part_one(DAY07_EXAMPLE);
    assert_eq!(result, Some(3749));
}

#[test]
fn day07_test_part_two() {
    let result = day07::part_two(DAY07_EXAMPLE);
    assert_eq!(result, Some(11387));
}

#[test]
fn day07_operator_checks() {
    assert_eq!(day07::check_mul(5, 35), Some(7));
    assert_eq!(day07::check_mul(4, 35), None);
    assert_eq!(day07::check_mul(0, 35), None);
    assert_eq!(day07::check_add(5, 35), Some(30));
    assert_eq!(day07::check_add(40, 35), None);
    assert_eq!(day07::check_append(15, 7815), Some(78));
    assert_eq!(day07::check_append(15, 7825), None);
    assert_eq!(day07::check_append(0, 780), Some(78));
}

#[test]
fn day07_malformed_line() {
    assert_eq!(day07::part_one("190 10 19\n"), None);
    assert_eq!(day07::part_one(": 10 19\n"), None);
}

const DAY09_EXAMPLE: &str = "2333133121414131402";

#[test]
fn day09_test_part_one() {
    let result = day09::part_one(DAY09_EXAMPLE);
    assert_eq!(result, Some(1928));
}

#[test]
fn day09_test_part_two() {
    let result = day09::part_two(DAY09_EXAMPLE);
    assert_eq!(result, Some(2858));
}

#[test]
fn day11_test_part_one() {
    let result = day11::part_one("125 17");
    assert_eq!(result, Some(55312));
}

#[test]
fn day11_test_part_two() {
    let result = day11::part_two("125 17");
    assert_eq!(result, None);
}

#[test]
fn day11_single_stone_and_bad_input() {
    assert_eq!(day11::part_one("0"), Some(19778));
    assert_eq!(day11::part_one("x"), None);
}

const DAY13_EXAMPLE: &str = "Button A: X+94, Y+34\nButton B: X+22, Y+67\nPrize: X=8400, Y=5400\n\nButton A: X+26, Y+66\nButton B: X+67, Y+21\nPrize: X=12748, Y=12176\n\nButton A: X+17, Y+86\nButton B: X+84, Y+37\nPrize: X=7870, Y=6450\n\nButton A: X+69, Y+23\nButton B: X+27, Y+71\nPrize: X=18641, Y=10279\n";

#[test]
fn day13_test_part_one() {
    let result = day13::part_one(DAY13_EXAMPLE);
    assert_eq!(result, Some(480));
}

#[test]
fn day13_test_part_two() {
    let result = day13::part_two(DAY13_EXAMPLE);
    assert_eq!(result, Some(875318608908));
}

#[test]
fn day13_malformed_machines() {
    // a machine of two lines, and a singular machine
    assert_eq!(day13::part_one("Button A: X+1, Y+1\nPrize: X=3, Y=3\n"), None);
    assert_eq!(
        day13::part_two("Button A: X+2, Y+4\nButton B: X+1, Y+2\nPrize: X=10, Y=20\n"),
        None
    );
}

const DAY14_EXAMPLE: &str = "p=0,4 v=3,-3\np=6,3 v=-1,-3\np=10,3 v=-1,2\np=2,0 v=2,-1\np=0,0 v=1,3\np=3,0 v=-2,-2\np=7,6 v=-1,-3\np=3,0 v=-1,-2\np=9,3 v=2,3\np=7,3 v=-1,2\np=2,4 v=2,-3\np=9,5 v=-3,-3\n";

#[test]
fn day14_test_part_one() {
    // the worked example plays out on an eleven by seven grid
    let result = day14::safety_factor(DAY14_EXAMPLE, 11, 7);
    assert_eq!(result, Some(12));
}

#[test]
fn day14_malformed_robot() {
    assert_eq!(day14::safety_factor("p=0,4 v=3\n", 11, 7), None);
}

const DAY05_EXAMPLE: &str = "47|53\n97|13\n97|61\n97|47\n75|29\n61|13\n75|53\n29|13\n97|29\n53|29\n61|53\n97|53\n61|29\n47|13\n75|47\n97|75\n47|61\n75|61\n47|29\n75|13\n53|13\n\n75,47,61,53,29\n97,61,53,29,13\n75,29,13\n75,97,47,61,53\n61,13,29\n97,13,75,29,47\n";

#[test]
fn day05_test_part_one() {
    let result = day05::part_one(DAY05_EXAMPLE);
    assert_eq!(result, Some(143));
}

#[test]
fn day05_test_part_two() {
    let result = day05::part_two(DAY05_EXAMPLE);
    assert_eq!(result, Some(123));
}

#[test]
fn day05_missing_separator() {
    assert_eq!(day05::part_one("47|53\n75,47\n"), None);
}

const DAY10_EXAMPLE: &str = "89010123\n78121874\n87430965\n96549874\n45678903\n32019012\n01329801\n10456732\n";

#[test]
fn day10_test_part_one() {
    let result = day10::part_one(DAY10_EXAMPLE);
    assert_eq!(result, Some(36));
}

#[test]
fn day10_test_part_two() {
    let result = day10::part_two(DAY10_EXAMPLE);
    assert_eq!(result, Some(81));
}

#[test]
fn day10_tiny_trails() {
    assert_eq!(day10::part_one("0123456789\n"), Some(1));
    assert_eq!(day10::part_one("01234X6789\n"), None);
}
