//! Fallible parsing of solution strings into directions.
//!
//! Each character of a solution string denotes one move, case-insensitively:
//! `u`/`U`, `d`/`D`, `l`/`L`, `r`/`R`. Any other character makes the whole
//! string invalid; parsing is the boundary at which bad input is rejected,
//! so the simulator itself only ever sees the closed `Direction` set.

use vstd::prelude::*;
use vstd::string::*;
use crate::checker::Direction;

verus! {

/// The direction a solution character denotes, in either case; `None` for
/// any other character.
pub open spec fn dir_of_char(c: char) -> Option<Direction> {
    if c == 'u' || c == 'U' {
        Some(Direction::Up)
    } else if c == 'd' || c == 'D' {
        Some(Direction::Down)
    } else if c == 'l' || c == 'L' {
        Some(Direction::Left)
    } else if c == 'r' || c == 'R' {
        Some(Direction::Right)
    } else {
        None
    }
}

/// Upper-case direction letters folded to lower case; every other character
/// kept as it is.
pub open spec fn fold_case(c: char) -> char {
    if c == 'U' {
        'u'
    } else if c == 'D' {
        'd'
    } else if c == 'L' {
        'l'
    } else if c == 'R' {
        'r'
    } else {
        c
    }
}

/// A character denotes the same direction as its case-folded form.
pub proof fn lemma_dir_of_char_folds(c: char)
    ensures
        dir_of_char(c) == dir_of_char(fold_case(c)),
{
}

/// The direction sequence a solution string denotes, or `None` when any
/// character is not a direction letter.
pub open spec fn spec_parse_solution(s: Seq<char>) -> Option<Seq<Direction>>
    decreases s.len(),
{
    if s.len() == 0 {
        Some(Seq::empty())
    } else {
        match spec_parse_solution(s.drop_last()) {
            None => None,
            Some(ds) => match dir_of_char(s.last()) {
                None => None,
                Some(d) => Some(ds.push(d)),
            },
        }
    }
}

/// One invalid character makes the whole string parse to `None`.
pub proof fn lemma_parse_none_propagates(s: Seq<char>, i: int)
    requires
        0 <= i < s.len(),
        dir_of_char(s[i]) == None::<Direction>,
    ensures
        spec_parse_solution(s) == None::<Seq<Direction>>,
    decreases s.len(),
{
    if i < s.len() - 1 {
        lemma_parse_none_propagates(s.drop_last(), i);
    }
}

/// Case insensitivity: two solution strings that agree character for
/// character up to the case of the direction letters parse to the same
/// direction sequence. Since the simulation is a function of the parsed
/// directions alone, such strings produce identical final grids.
pub proof fn lemma_parse_solution_case_insensitive(s1: Seq<char>, s2: Seq<char>)
    requires
        s1.len() == s2.len(),
        forall|i: int| 0 <= i < s1.len() ==> fold_case(#[trigger] s1[i]) == fold_case(s2[i]),
    ensures
        spec_parse_solution(s1) == spec_parse_solution(s2),
    decreases s1.len(),
{
    if s1.len() > 0 {
        assert(forall|i: int|
            0 <= i < s1.drop_last().len() ==> fold_case(#[trigger] s1.drop_last()[i]) == fold_case(
                s2.drop_last()[i],
            ));
        lemma_parse_solution_case_insensitive(s1.drop_last(), s2.drop_last());
        lemma_dir_of_char_folds(s1.last());
        lemma_dir_of_char_folds(s2.last());
        assert(fold_case(s1.last()) == fold_case(s2.last()));
    }
}

/// Decodes one solution character, case-insensitively; `None` for a
/// character that is no direction letter.
pub fn parse_direction(c: char) -> (r: Option<Direction>)
    ensures
        r == dir_of_char(c),
{
    match c {
        'u' | 'U' => Some(Direction::Up),
        'd' | 'D' => Some(Direction::Down),
        'l' | 'L' => Some(Direction::Left),
        'r' | 'R' => Some(Direction::Right),
        _ => None,
    }
}

/// Decodes a whole solution string, rejecting it when any character is not
/// a direction letter.
pub fn parse_solution(s: &str) -> (r: Option<Vec<Direction>>)
    ensures
        (match r {
            Some(v) => Some(v@),
            None => None::<Seq<Direction>>,
        }) == spec_parse_solution(s@),
{
    let n = s.unicode_len();
    let mut dirs: Vec<Direction> = Vec::new();
    let mut i: usize = 0;
    while i < n
        invariant
            n == s@.len(),
            i <= n,
            spec_parse_solution(s@.take(i as int)) == Some(dirs@),
        decreases n - i,
    {
        let c = s.get_char(i);
        match parse_direction(c) {
            Some(d) => {
                dirs.push(d);
            },
            None => {
                proof {
                    lemma_parse_none_propagates(s@, i as int);
                }
                return None;
            },
        }
        proof {
            assert(s@.take(i as int + 1).drop_last() =~= s@.take(i as int));
            assert(s@.take(i as int + 1).last() == s@[i as int]);
        }
        i = i + 1;
    }
    proof {
        assert(s@.take(n as int) =~= s@);
    }
    Some(dirs)
}

} // verus!
