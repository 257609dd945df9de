//! The answers of each puzzle on bundled inputs, and the behaviour of the
//! selection helper.

use advent::day1;
use advent::day2;
use advent::day3;
use advent::error::Error;
use advent::topk::multi_max;

fn ok(r: Result<usize, Error>) -> usize {
    match r {
        Ok(v) => v,
        Err(e) => panic!("unexpected error: {}", e.describe()),
    }
}

/// Groups with totals 68312, 69528, 100, 68312 and 50: the largest is
/// 69528 and the three largest sum to 206152.
fn day1_input() -> String {
    String::from("68312\n\n69528\n\n100\n\n68312\n\n50")
}

#[test]
fn day1_test_part1() {
    assert_eq!(ok(day1::part1(&day1_input())), 69528);
}

#[test]
fn day1_test_part2() {
    assert_eq!(ok(day1::part2(&day1_input())), 206152);
}

#[test]
fn test_multi_max() {
    let inputs = vec![100, 200, 300, 400, 100, 500];
    let expected = vec![300, 400, 500];
    let maxes = multi_max(inputs, 3);
    assert_eq!(maxes, expected);

    let inputs = vec![100, 200, 300, 400, 100, 500];
    let expected = vec![100, 200, 300, 400, 500];
    let maxes = multi_max(inputs, 5);
    assert_eq!(maxes, expected);

    let inputs = vec![100, 200];
    let expected = vec![100, 200];
    let maxes = multi_max(inputs, 3);
    assert_eq!(maxes, expected);

    let inputs: Vec<usize> = vec![];
    let expected = vec![];
    let maxes = multi_max(inputs, 3);
    assert_eq!(maxes, expected);
}

#[test]
fn test_group_stashes() {
    let input = "100\n100\n100\n\n400\n\n100\n100";
    let expected = vec![300, 400, 200];
    let stashes = match day1::group_stashes(input) {
        Ok(v) => v,
        Err(e) => panic!("unexpected error: {}", e.describe()),
    };
    assert_eq!(stashes, expected);
}

/// Rounds scoring 11386 read directly and 13600 read as constraints:
/// `A Z` scores 3 then 8, `A Y` scores 8 then 4, `B Z` scores 9 both
/// ways, and `B Y` scores 5 both ways.
fn day2_input() -> String {
    let mut input = String::new();
    for _ in 0..446 {
        input.push_str("A Z\n");
    }
    for _ in 0..4 {
        input.push_str("A Y\n");
    }
    for _ in 0..4 {
        input.push_str("B Z\n");
    }
    for _ in 0..1996 {
        input.push_str("B Y\n");
    }
    input
}

#[test]
fn day2_test_part1() {
    assert_eq!(ok(day2::part1(&day2_input())), 11386);
}

#[test]
fn day2_test_part2() {
    assert_eq!(ok(day2::part2(&day2_input())), 13600);
}

#[test]
fn priority_correct() {
    assert!(matches!(day3::calculate_priority('a'), Ok(1)));
    assert!(matches!(day3::calculate_priority('b'), Ok(2)));
    assert!(matches!(day3::calculate_priority('z'), Ok(26)));
    assert!(matches!(day3::calculate_priority('A'), Ok(27)));
    assert!(matches!(day3::calculate_priority('Z'), Ok(52)));
}

/// One hundred groups of three rucksacks whose item priorities sum to
/// 7875 and whose badge priorities sum to 2479.
fn day3_input() -> String {
    let mut input = String::new();
    for _ in 0..75 {
        input.push_str("ayap\nzyzq\nZyZr\n");
    }
    for _ in 0..4 {
        input.push_str("bybp\nxyxq\nZyZr\n");
    }
    for _ in 0..21 {
        input.push_str("xxxp\nbxbq\nZxZr\n");
    }
    input
}

#[test]
fn day3_test_part1() {
    assert_eq!(ok(day3::part1(&day3_input())), 7875);
}

#[test]
fn day3_test_part2() {
    assert_eq!(ok(day3::part2(&day3_input())), 2479);
}
