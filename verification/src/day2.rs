//! Scoring rounds of the cyclic three-move game.
//!
//! Each input line names the opponent's move and either the player's move
//! (part 1) or the outcome the round must reach (part 2).  A fixed cyclic
//! dominance rule decides each round, and a round is worth the score of the
//! player's move plus the score of the outcome.

use vstd::prelude::*;
use vstd::string::StringExecFns;
use crate::error::Error;
use crate::lines::{split_lines, split_to_lines, first_rejected, lemma_first_rejected_is};

verus! {

/// A move either participant can make.
#[derive(Copy, Clone, PartialEq, Eq, Structural, Debug)]
pub enum Move {
    Rock,
    Paper,
    Scissors,
}

/// How a round ends for the player; also the constraint a part-2 line puts
/// on the round.
#[derive(Copy, Clone, PartialEq, Eq, Structural, Debug)]
pub enum Outcome {
    Lose,
    Draw,
    Win,
}

/// The cyclic dominance rule: rock beats scissors, scissors beats paper,
/// paper beats rock.
pub open spec fn beats(a: Move, b: Move) -> bool {
    ||| (a == Move::Rock && b == Move::Scissors)
    ||| (a == Move::Scissors && b == Move::Paper)
    ||| (a == Move::Paper && b == Move::Rock)
}

/// How a round between `opponent` and `player` ends, seen from the player.
pub open spec fn eval_spec(opponent: Move, player: Move) -> Outcome {
    if beats(player, opponent) {
        Outcome::Win
    } else if beats(opponent, player) {
        Outcome::Lose
    } else {
        Outcome::Draw
    }
}

/// The player move the round must take to end as `constraint` demands,
/// searching the moves in their canonical order.
pub open spec fn resolve_spec(opponent: Move, constraint: Outcome) -> Move {
    if eval_spec(opponent, Move::Rock) == constraint {
        Move::Rock
    } else if eval_spec(opponent, Move::Paper) == constraint {
        Move::Paper
    } else {
        Move::Scissors
    }
}

/// The score of a move on its own.
pub open spec fn move_score_spec(m: Move) -> int {
    match m {
        Move::Rock => 1,
        Move::Paper => 2,
        Move::Scissors => 3,
    }
}

/// The score of an outcome on its own.
pub open spec fn outcome_score_spec(o: Outcome) -> int {
    match o {
        Outcome::Lose => 0,
        Outcome::Draw => 3,
        Outcome::Win => 6,
    }
}

/// The score of one round.
pub open spec fn round_score_spec(opponent: Move, player: Move) -> int {
    outcome_score_spec(eval_spec(opponent, player)) + move_score_spec(player)
}

/// The dominance rule is total and antisymmetric: every pair of moves is
/// decided exactly one way, a round draws exactly on equal moves, and
/// swapping the participants mirrors the outcome.
pub proof fn lemma_outcome_antisymmetric_total(a: Move, b: Move)
    ensures
        a == b ==> !beats(a, b) && !beats(b, a),
        a != b ==> (beats(a, b) <==> !beats(b, a)),
        eval_spec(a, b) == Outcome::Draw <==> a == b,
        eval_spec(a, b) == Outcome::Win <==> eval_spec(b, a) == Outcome::Lose,
        eval_spec(a, b) == Outcome::Lose <==> eval_spec(b, a) == Outcome::Win,
{
}

/// Resolution inverts evaluation: the move resolution picks reaches
/// exactly the demanded outcome, and no other move does.
pub proof fn lemma_resolution_inverts(opponent: Move, constraint: Outcome)
    ensures
        eval_spec(opponent, resolve_spec(opponent, constraint)) == constraint,
        forall|m: Move| eval_spec(opponent, m) == constraint
            ==> m == resolve_spec(opponent, constraint),
{
}

impl Move {
    /// Read an opponent token: `A`, `B` or `C`.
    pub fn parse_opponent(c: char) -> (r: Option<Move>)
        ensures
            r == opponent_of(c),
    {
        match c {
            'A' => Some(Move::Rock),
            'B' => Some(Move::Paper),
            'C' => Some(Move::Scissors),
            _ => None,
        }
    }

    /// Read a player token: `X`, `Y` or `Z`.
    pub fn parse_player(c: char) -> (r: Option<Move>)
        ensures
            r == player_of(c),
    {
        match c {
            'X' => Some(Move::Rock),
            'Y' => Some(Move::Paper),
            'Z' => Some(Move::Scissors),
            _ => None,
        }
    }

    /// The score of this move on its own.
    pub fn score(&self) -> (r: usize)
        ensures
            r as int == move_score_spec(*self),
    {
        match self {
            Move::Rock => 1,
            Move::Paper => 2,
            Move::Scissors => 3,
        }
    }
}

impl Outcome {
    /// Read a constraint token: `X` to lose, `Y` to draw, `Z` to win.
    pub fn parse_constraint(c: char) -> (r: Option<Outcome>)
        ensures
            r == constraint_of(c),
    {
        match c {
            'X' => Some(Outcome::Lose),
            'Y' => Some(Outcome::Draw),
            'Z' => Some(Outcome::Win),
            _ => None,
        }
    }

    /// The score of this outcome on its own.
    pub fn score(&self) -> (r: usize)
        ensures
            r as int == outcome_score_spec(*self),
    {
        match self {
            Outcome::Lose => 0,
            Outcome::Draw => 3,
            Outcome::Win => 6,
        }
    }
}

/// The move an opponent token names.
pub open spec fn opponent_of(c: char) -> Option<Move> {
    if c == 'A' {
        Some(Move::Rock)
    } else if c == 'B' {
        Some(Move::Paper)
    } else if c == 'C' {
        Some(Move::Scissors)
    } else {
        None
    }
}

/// The move a player token names.
pub open spec fn player_of(c: char) -> Option<Move> {
    if c == 'X' {
        Some(Move::Rock)
    } else if c == 'Y' {
        Some(Move::Paper)
    } else if c == 'Z' {
        Some(Move::Scissors)
    } else {
        None
    }
}

/// The constraint a player token names.
pub open spec fn constraint_of(c: char) -> Option<Outcome> {
    if c == 'X' {
        Some(Outcome::Lose)
    } else if c == 'Y' {
        Some(Outcome::Draw)
    } else if c == 'Z' {
        Some(Outcome::Win)
    } else {
        None
    }
}

/// A line is three characters: an opponent token, a separator that is
/// consumed but not validated, and a player token.
pub open spec fn valid_move_line(s: Seq<char>) -> bool {
    &&& s.len() == 3
    &&& opponent_of(s[0]) is Some
    &&& player_of(s[2]) is Some
}

/// As `valid_move_line`, with the third character read as a constraint.
pub open spec fn valid_constraint_line(s: Seq<char>) -> bool {
    &&& s.len() == 3
    &&& opponent_of(s[0]) is Some
    &&& constraint_of(s[2]) is Some
}

/// The round a valid part-1 line names.
pub open spec fn round_of_line(s: Seq<char>) -> (Move, Move) {
    (opponent_of(s[0])->0, player_of(s[2])->0)
}

/// The round a valid part-2 line comes to once its constraint is resolved.
pub open spec fn resolved_round_of_line(s: Seq<char>) -> (Move, Move) {
    let opponent = opponent_of(s[0])->0;
    (opponent, resolve_spec(opponent, constraint_of(s[2])->0))
}

/// Read one line as an (opponent move, player move) pair.
///
/// A line parses exactly when it has three characters, the first names an
/// opponent move and the third names a player move; the separator between
/// them is consumed, not validated.
pub fn parse_round(line: &str) -> (r: Result<(Move, Move), Error>)
    ensures
        match r {
            Ok(round) => valid_move_line(line@) && round == round_of_line(line@),
            Err(e) => {
                &&& !valid_move_line(line@)
                &&& e matches Error::Parse(t) && t@ == line@
            },
        },
{
    let n = line.unicode_len();
    if n != 3 {
        return Err(Error::Parse(String::from_str(line)));
    }
    let opponent = match Move::parse_opponent(line.get_char(0)) {
        Some(m) => m,
        None => {
            return Err(Error::Parse(String::from_str(line)));
        },
    };
    let player = match Move::parse_player(line.get_char(2)) {
        Some(m) => m,
        None => {
            return Err(Error::Parse(String::from_str(line)));
        },
    };
    Ok((opponent, player))
}

/// Read one line as an (opponent move, outcome constraint) pair.
pub fn parse_constraint(line: &str) -> (r: Result<(Move, Outcome), Error>)
    ensures
        match r {
            Ok(pair) => {
                &&& valid_constraint_line(line@)
                &&& pair.0 == opponent_of(line@[0])->0
                &&& pair.1 == constraint_of(line@[2])->0
            },
            Err(e) => {
                &&& !valid_constraint_line(line@)
                &&& e matches Error::Parse(t) && t@ == line@
            },
        },
{
    let n = line.unicode_len();
    if n != 3 {
        return Err(Error::Parse(String::from_str(line)));
    }
    let opponent = match Move::parse_opponent(line.get_char(0)) {
        Some(m) => m,
        None => {
            return Err(Error::Parse(String::from_str(line)));
        },
    };
    let constraint = match Outcome::parse_constraint(line.get_char(2)) {
        Some(c) => c,
        None => {
            return Err(Error::Parse(String::from_str(line)));
        },
    };
    Ok((opponent, constraint))
}

/// Decide a round: how it ends for the player.
pub fn evaluate_round(opponent: Move, player: Move) -> (r: Outcome)
    ensures
        r == eval_spec(opponent, player),
{
    match (opponent, player) {
        (Move::Rock, Move::Rock) => Outcome::Draw,
        (Move::Rock, Move::Paper) => Outcome::Win,
        (Move::Rock, Move::Scissors) => Outcome::Lose,
        (Move::Paper, Move::Rock) => Outcome::Lose,
        (Move::Paper, Move::Paper) => Outcome::Draw,
        (Move::Paper, Move::Scissors) => Outcome::Win,
        (Move::Scissors, Move::Rock) => Outcome::Win,
        (Move::Scissors, Move::Paper) => Outcome::Lose,
        (Move::Scissors, Move::Scissors) => Outcome::Draw,
    }
}

/// The move the player must make so the round ends as `constraint`
/// demands, found by trying the moves in their canonical order.  The
/// dominance rule is total, so some move always satisfies the constraint.
pub fn desired_move(opponent: Move, constraint: Outcome) -> (m: Move)
    ensures
        m == resolve_spec(opponent, constraint),
        eval_spec(opponent, m) == constraint,
{
    if evaluate_round(opponent, Move::Rock) == constraint {
        Move::Rock
    } else if evaluate_round(opponent, Move::Paper) == constraint {
        Move::Paper
    } else {
        proof {
            lemma_resolution_inverts(opponent, constraint);
        }
        Move::Scissors
    }
}

/// The score of one round.
pub fn round_score(opponent: Move, player: Move) -> (r: usize)
    ensures
        r as int == round_score_spec(opponent, player),
        1 <= r <= 9,
{
    evaluate_round(opponent, player).score() + player.score()
}

/// The total score of a list of rounds.
pub open spec fn rounds_sum(rs: Seq<(Move, Move)>) -> int
    decreases rs.len(),
{
    if rs.len() == 0 {
        0
    } else {
        rounds_sum(rs.drop_last()) + round_score_spec(rs.last().0, rs.last().1)
    }
}

/// A total over more rounds is never smaller.
proof fn lemma_rounds_sum_prefix(rs: Seq<(Move, Move)>, k: int)
    requires
        0 <= k <= rs.len(),
    ensures
        rounds_sum(rs.subrange(0, k)) <= rounds_sum(rs),
    decreases rs.len(),
{
    if k == rs.len() {
        assert(rs.subrange(0, k) =~= rs);
    } else {
        lemma_rounds_sum_prefix(rs.drop_last(), k);
        assert(rs.drop_last().subrange(0, k) =~= rs.subrange(0, k));
    }
}

/// Sum the scores of the given rounds.
pub fn score_rounds(rounds: &Vec<(Move, Move)>) -> (r: Result<usize, Error>)
    ensures
        if rounds_sum(rounds@) <= usize::MAX {
            r matches Ok(v) && v as int == rounds_sum(rounds@)
        } else {
            r matches Err(Error::Overflow)
        },
{
    let mut acc: usize = 0;
    let mut i: usize = 0;
    proof {
        assert(rounds@.subrange(0, 0) =~= Seq::<(Move, Move)>::empty());
    }
    while i < rounds.len()
        invariant
            i <= rounds@.len(),
            acc as int == rounds_sum(rounds@.subrange(0, i as int)),
        decreases rounds@.len() - i,
    {
        proof {
            assert(rounds@.subrange(0, i as int + 1).drop_last() =~= rounds@.subrange(
                0,
                i as int,
            ));
            assert(rounds@.subrange(0, i as int + 1).last() == rounds@[i as int]);
        }
        let (opponent, player) = rounds[i];
        let s = round_score(opponent, player);
        match acc.checked_add(s) {
            Some(t) => {
                acc = t;
            },
            None => {
                proof {
                    lemma_rounds_sum_prefix(rounds@, i as int + 1);
                }
                return Err(Error::Overflow);
            },
        }
        i = i + 1;
    }
    proof {
        assert(rounds@.subrange(0, rounds@.len() as int) =~= rounds@);
    }
    Ok(acc)
}

/// Replace each constraint by the move that satisfies it.
pub fn reconstruct_rounds(rounds: Vec<(Move, Outcome)>) -> (r: Vec<(Move, Move)>)
    ensures
        r@.len() == rounds@.len(),
        forall|i: int| 0 <= i < rounds@.len() ==> r@[i] == (
            rounds@[i].0,
            resolve_spec(rounds@[i].0, rounds@[i].1),
        ),
{
    let mut out: Vec<(Move, Move)> = Vec::new();
    let mut i: usize = 0;
    while i < rounds.len()
        invariant
            i <= rounds@.len(),
            out@.len() == i,
            forall|j: int| 0 <= j < i ==> out@[j] == (
                rounds@[j].0,
                resolve_spec(rounds@[j].0, rounds@[j].1),
            ),
        decreases rounds@.len() - i,
    {
        let (opponent, constraint) = rounds[i];
        let player = desired_move(opponent, constraint);
        out.push((opponent, player));
        i = i + 1;
    }
    out
}

/// The total score of the input read directly: each line names the
/// opponent's move and the player's move.
pub fn part1(input: &str) -> (r: Result<usize, Error>)
    ensures
        ({
            let ls = split_lines(input@);
            let bad = first_rejected(ls, |l: Seq<char>| valid_move_line(l));
            if bad < ls.len() {
                &&& r matches Err(e)
                &&& e matches Error::Parse(t) && t@ == ls[bad as int]
            } else {
                let sum = rounds_sum(ls.map_values(|l: Seq<char>| round_of_line(l)));
                if sum <= usize::MAX {
                    r matches Ok(v) && v as int == sum
                } else {
                    r matches Err(Error::Overflow)
                }
            }
        }),
{
    let lines = split_to_lines(input);
    let ghost ls = split_lines(input@);
    let ghost okf = |l: Seq<char>| valid_move_line(l);
    proof {
        assert(lines@.map_values(|l: &str| l@) =~= ls);
    }
    let mut rounds: Vec<(Move, Move)> = Vec::new();
    let mut i: usize = 0;
    while i < lines.len()
        invariant
            i <= lines@.len(),
            lines@.map_values(|l: &str| l@) == ls,
            ls == split_lines(input@),
            okf == (|l: Seq<char>| valid_move_line(l)),
            forall|j: int| 0 <= j < i ==> okf(ls[j]),
            rounds@.len() == i,
            forall|j: int| 0 <= j < i ==> rounds@[j] == round_of_line(ls[j]),
        decreases lines@.len() - i,
    {
        let line = lines[i];
        proof {
            assert(line@ == ls[i as int]);
        }
        match parse_round(line) {
            Ok(round) => {
                rounds.push(round);
            },
            Err(e) => {
                proof {
                    lemma_first_rejected_is(ls, okf, i as int);
                }
                return Err(e);
            },
        }
        i = i + 1;
    }
    proof {
        lemma_first_rejected_is(ls, okf, ls.len() as int);
        assert(rounds@ =~= ls.map_values(|l: Seq<char>| round_of_line(l)));
    }
    score_rounds(&rounds)
}

/// The total score of the input read as constraints: each line names the
/// opponent's move and the outcome the round must reach, and the player's
/// move is resolved from them.
pub fn part2(input: &str) -> (r: Result<usize, Error>)
    ensures
        ({
            let ls = split_lines(input@);
            let bad = first_rejected(ls, |l: Seq<char>| valid_constraint_line(l));
            if bad < ls.len() {
                &&& r matches Err(e)
                &&& e matches Error::Parse(t) && t@ == ls[bad as int]
            } else {
                let sum = rounds_sum(ls.map_values(|l: Seq<char>| resolved_round_of_line(l)));
                if sum <= usize::MAX {
                    r matches Ok(v) && v as int == sum
                } else {
                    r matches Err(Error::Overflow)
                }
            }
        }),
{
    let lines = split_to_lines(input);
    let ghost ls = split_lines(input@);
    let ghost okf = |l: Seq<char>| valid_constraint_line(l);
    proof {
        assert(lines@.map_values(|l: &str| l@) =~= ls);
    }
    let mut constraints: Vec<(Move, Outcome)> = Vec::new();
    let mut i: usize = 0;
    while i < lines.len()
        invariant
            i <= lines@.len(),
            lines@.map_values(|l: &str| l@) == ls,
            ls == split_lines(input@),
            okf == (|l: Seq<char>| valid_constraint_line(l)),
            forall|j: int| 0 <= j < i ==> okf(ls[j]),
            constraints@.len() == i,
            forall|j: int| 0 <= j < i ==> constraints@[j] == (
                opponent_of(ls[j][0])->0,
                constraint_of(ls[j][2])->0,
            ),
        decreases lines@.len() - i,
    {
        let line = lines[i];
        proof {
            assert(line@ == ls[i as int]);
        }
        match parse_constraint(line) {
            Ok(pair) => {
                constraints.push(pair);
            },
            Err(e) => {
                proof {
                    lemma_first_rejected_is(ls, okf, i as int);
                }
                return Err(e);
            },
        }
        i = i + 1;
    }
    proof {
        lemma_first_rejected_is(ls, okf, ls.len() as int);
    }
    let rounds = reconstruct_rounds(constraints);
    proof {
        assert(rounds@ =~= ls.map_values(|l: Seq<char>| resolved_round_of_line(l)));
    }
    score_rounds(&rounds)
}

} // verus!
