//! Worked examples, edge cases, and failure modes of the three puzzles.

use advent::day1;
use advent::day2;
use advent::day2::{Move, Outcome};
use advent::day3;
use advent::error::Error;
use advent::lines::split_to_lines;
use advent::topk::multi_max;

#[test]
fn grouping_example() {
    let input = "1000\n2000\n3000\n\n4000\n\n5000\n6000\n\n7000\n8000\n9000\n\n10000";
    let stashes = day1::group_stashes(input).ok().unwrap();
    assert_eq!(stashes, vec![6000, 4000, 11000, 24000, 10000]);
    assert!(matches!(day1::part1(input), Ok(24000)));
    assert!(matches!(day1::part2(input), Ok(45000)));
}

#[test]
fn grouping_blank_edges() {
    // Leading and trailing blank lines open empty groups; they are
    // accepted, not rejected.  A group opened by a leading blank line
    // absorbs the values that follow it.
    let stashes = day1::group_stashes("\n5\n\n").ok().unwrap();
    assert_eq!(stashes, vec![5, 0]);
    assert!(matches!(day1::part1(""), Ok(0)));
    assert!(matches!(day1::part2(""), Ok(0)));
}

#[test]
fn grouping_rejects_malformed() {
    assert!(matches!(day1::part1("12a"), Err(Error::Parse(s)) if s == "12a"));
    assert!(matches!(day1::parse_calories("+123"), Ok(123)));
    assert!(matches!(day1::parse_calories("+"), Err(Error::Parse(_))));
    assert!(matches!(day1::parse_calories(""), Err(Error::Parse(_))));
    // A numeral beyond the machine word is a parse error, as the standard
    // integer parser treats it.
    assert!(matches!(
        day1::parse_calories("99999999999999999999999999"),
        Err(Error::Parse(_))
    ));
}

#[test]
fn grouping_total_overflow() {
    // Two numerals that each fit but whose group total does not.
    let input = "18446744073709551615\n1";
    assert!(matches!(day1::part1(input), Err(Error::Overflow)));
}

#[test]
fn top_k_ignores_input_order() {
    let a = multi_max(vec![5, 1, 9, 3], 2);
    let b = multi_max(vec![9, 3, 5, 1], 2);
    let c = multi_max(vec![1, 3, 5, 9], 2);
    assert_eq!(a, vec![5, 9]);
    assert_eq!(b, vec![5, 9]);
    assert_eq!(c, vec![5, 9]);
}

#[test]
fn top_k_keeps_duplicates() {
    assert_eq!(multi_max(vec![7, 7, 7, 1], 3), vec![7, 7, 7]);
    assert_eq!(multi_max(vec![2, 2], 1), vec![2]);
    assert_eq!(multi_max(vec![4, 8], 0), vec![]);
}

#[test]
fn moves_example() {
    let input = "A Y\nB X\nC Z";
    assert!(matches!(day2::part1(input), Ok(15)));
    assert!(matches!(day2::part2(input), Ok(12)));
}

#[test]
fn round_scores_exact() {
    // Score of the player's move plus score of the outcome.
    assert_eq!(day2::round_score(Move::Rock, Move::Paper), 8);
    assert_eq!(day2::round_score(Move::Paper, Move::Rock), 1);
    assert_eq!(day2::round_score(Move::Scissors, Move::Scissors), 6);
    assert_eq!(day2::round_score(Move::Rock, Move::Rock), 4);
    assert_eq!(day2::round_score(Move::Scissors, Move::Rock), 7);
}

#[test]
fn evaluation_is_mirrored() {
    let moves = [Move::Rock, Move::Paper, Move::Scissors];
    for a in moves {
        for b in moves {
            let ab = day2::evaluate_round(a, b);
            let ba = day2::evaluate_round(b, a);
            match ab {
                Outcome::Win => assert_eq!(ba, Outcome::Lose),
                Outcome::Lose => assert_eq!(ba, Outcome::Win),
                Outcome::Draw => {
                    assert_eq!(ba, Outcome::Draw);
                    assert_eq!(a, b);
                },
            }
        }
    }
}

#[test]
fn resolution_inverts_evaluation() {
    let moves = [Move::Rock, Move::Paper, Move::Scissors];
    let outcomes = [Outcome::Lose, Outcome::Draw, Outcome::Win];
    for o in moves {
        for c in outcomes {
            let m = day2::desired_move(o, c);
            assert_eq!(day2::evaluate_round(o, m), c);
        }
    }
}

#[test]
fn moves_reject_malformed() {
    assert!(matches!(day2::part1("A"), Err(Error::Parse(s)) if s == "A"));
    assert!(matches!(day2::part1("A  Y"), Err(Error::Parse(_))));
    assert!(matches!(day2::part1("D X"), Err(Error::Parse(_))));
    assert!(matches!(day2::part1("A W"), Err(Error::Parse(_))));
    assert!(matches!(day2::part2("A X\nB Q"), Err(Error::Parse(s)) if s == "B Q"));
    // The separator is consumed, not validated: any single character
    // stands between the tokens.
    assert!(matches!(day2::part1("AXY"), Ok(_)));
    assert!(matches!(day2::part1("A\u{a2}Y"), Ok(8)));
    assert!(matches!(day2::part2("A\u{a2}Y"), Ok(4)));
}

#[test]
fn rucksacks_example() {
    let input = "vJrwpWtwJgWrhcsFMMfFFhFp\n\
                 jqHRNqRjqzjGDLGLrsFMfFZSrLrFZsSL\n\
                 PmmdzqPrVvPwwTWBwg\n\
                 wMqvLMZHhHMvwLHjbvcjnnSBnvTQFn\n\
                 ttgJtRGJQctTZtZT\n\
                 CrZsJsPPZsGzwwsLwLmpwMDw";
    assert!(matches!(day3::part1(input), Ok(157)));
    assert!(matches!(day3::part2(input), Ok(70)));
}

#[test]
fn rucksack_intersection_must_be_single() {
    // No item common to the two halves.
    assert!(matches!(day3::part1("abcd"), Err(Error::EmptyIntersection)));
    // Two items common to the two halves: never silently pick one.
    assert!(matches!(
        day3::part1("abab"),
        Err(Error::AmbiguousIntersection)
    ));
    // A single common item outside the alphabet.
    assert!(matches!(day3::part1("1a1b"), Err(Error::Priority('1'))));
}

#[test]
fn group_intersection_must_be_single() {
    // Each line is a fine rucksack, but the three share nothing.
    let input = "aa\nbb\ncc";
    assert!(matches!(day3::part2(input), Err(Error::EmptyIntersection)));
    // The three lines share three items.
    let input = "xaxb\nxaxb\nxaxb";
    assert!(matches!(day3::part2(input), Err(Error::AmbiguousIntersection)));
}

#[test]
fn odd_rucksack_splits_at_floor() {
    // An odd-length line puts the extra item in the second half:
    // "aba" is halved into "a" and "ba", sharing exactly 'a'.
    assert!(matches!(day3::part1("aba"), Ok(1)));
}

#[test]
fn priorities_reject_other_characters() {
    assert!(matches!(day3::calculate_priority('-'), Err(Error::Priority('-'))));
    assert!(matches!(day3::calculate_priority('0'), Err(Error::Priority('0'))));
}

#[test]
fn line_splitting() {
    let lines = split_to_lines("a\r\nb\nc");
    assert_eq!(lines, vec!["a", "b", "c"]);
    // A final line ending opens no extra line.
    let lines = split_to_lines("a\nb\n");
    assert_eq!(lines, vec!["a", "b"]);
    let lines = split_to_lines("");
    assert!(lines.is_empty());
    // A carriage return without a line feed stays in its line.
    let lines = split_to_lines("a\rb");
    assert_eq!(lines, vec!["a\rb"]);
}

#[test]
fn errors_describe_themselves() {
    assert!(!Error::Overflow.describe().is_empty());
    assert!(!Error::EmptyIntersection.describe().is_empty());
}
