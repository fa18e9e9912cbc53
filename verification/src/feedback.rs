//! Feedback: scoring one code against another into bulls and cows.

use crate::code::Code;
use crate::code::valid_code;
use vstd::prelude::*;

verus! {

/// Feedback on a guess: `bulls` counts positions that match exactly,
/// `cows` counts digits present in both codes at different positions.
#[derive(PartialEq, Eq, Structural, Debug, Clone, Copy, Hash)]
pub struct BC {
    pub bulls: u8,
    pub cows: u8,
}

/// 1 when digit `i` of `a` equals digit `j` of `b`, else 0.
pub open spec fn match_at(a: Code, b: Code, i: int, j: int) -> int {
    if a.digits[i] == b.digits[j] {
        1
    } else {
        0
    }
}

/// Number of positions where the two codes carry the same digit.
pub open spec fn bulls_spec(a: Code, b: Code) -> int {
    match_at(a, b, 0, 0) + match_at(a, b, 1, 1) + match_at(a, b, 2, 2) + match_at(a, b, 3, 3)
}

/// Number of cross-position digit matches between the two codes.
pub open spec fn cows_spec(a: Code, b: Code) -> int {
    match_at(a, b, 0, 1) + match_at(a, b, 0, 2) + match_at(a, b, 0, 3) + match_at(a, b, 1, 0)
        + match_at(a, b, 1, 2) + match_at(a, b, 1, 3) + match_at(a, b, 2, 0) + match_at(
        a,
        b,
        2,
        1,
    ) + match_at(a, b, 2, 3) + match_at(a, b, 3, 0) + match_at(a, b, 3, 1) + match_at(a, b, 3, 2)
}

/// The feedback one code earns against another.
pub open spec fn score(a: Code, b: Code) -> BC {
    BC { bulls: bulls_spec(a, b) as u8, cows: cows_spec(a, b) as u8 }
}

/// The counts behind a score are small, so the score reports them
/// exactly: bulls is at most 4 and cows at most 12 for any two codes.
pub proof fn lemma_score_exact(a: Code, b: Code)
    ensures
        0 <= bulls_spec(a, b) <= 4,
        0 <= cows_spec(a, b) <= 12,
        score(a, b).bulls == bulls_spec(a, b),
        score(a, b).cows == cows_spec(a, b),
{
}

/// When the first code is valid, each digit of the second matches at
/// most one of its pairwise-distinct digits, so bulls and cows
/// together never exceed four.
pub proof fn lemma_score_bounds(a: Code, b: Code)
    requires
        valid_code(a),
    ensures
        bulls_spec(a, b) + cows_spec(a, b) <= 4,
        score(a, b).bulls <= 4,
        score(a, b).cows <= 4,
{
    lemma_score_exact(a, b);
}

/// Scoring a code against itself yields four bulls and, the digits
/// being pairwise distinct, no cows.
pub proof fn lemma_score_self(c: Code)
    requires
        valid_code(c),
    ensures
        score(c, c) == (BC { bulls: 4, cows: 0 }),
{
}

/// Scoring is symmetric: either code scored against the other yields
/// the same bulls and the same cows.
pub proof fn lemma_score_symmetric(a: Code, b: Code)
    requires
        valid_code(a),
        valid_code(b),
    ensures
        score(a, b) == score(b, a),
{
}

/// Four bulls means the codes agree at every position and so are the
/// same code.
pub proof fn lemma_four_bulls_eq(a: Code, b: Code)
    ensures
        bulls_spec(a, b) == 4 <==> a == b,
        score(a, b).bulls == 4 <==> a == b,
{
    broadcast use vstd::array::group_array_axioms;

    lemma_score_exact(a, b);
    if bulls_spec(a, b) == 4 {
        assert(a.digits =~= b.digits);
    }
}

/// Score `c1` against `c0`: walk the sixteen position pairs, counting
/// equal digits at equal positions as bulls and the rest as cows.
pub fn bc(c0: &Code, c1: &Code) -> (r: BC)
    ensures
        r == score(*c0, *c1),
{
    let d0 = &c0.digits;
    let d1 = &c1.digits;
    let mut bulls: u8 = 0;
    let mut cows: u8 = 0;
    if d0[0] == d1[0] {
        bulls = bulls + 1;
    }
    if d0[1] == d1[1] {
        bulls = bulls + 1;
    }
    if d0[2] == d1[2] {
        bulls = bulls + 1;
    }
    if d0[3] == d1[3] {
        bulls = bulls + 1;
    }
    if d0[0] == d1[1] {
        cows = cows + 1;
    }
    if d0[0] == d1[2] {
        cows = cows + 1;
    }
    if d0[0] == d1[3] {
        cows = cows + 1;
    }
    if d0[1] == d1[0] {
        cows = cows + 1;
    }
    if d0[1] == d1[2] {
        cows = cows + 1;
    }
    if d0[1] == d1[3] {
        cows = cows + 1;
    }
    if d0[2] == d1[0] {
        cows = cows + 1;
    }
    if d0[2] == d1[1] {
        cows = cows + 1;
    }
    if d0[2] == d1[3] {
        cows = cows + 1;
    }
    if d0[3] == d1[0] {
        cows = cows + 1;
    }
    if d0[3] == d1[1] {
        cows = cows + 1;
    }
    if d0[3] == d1[2] {
        cows = cows + 1;
    }
    BC { bulls, cows }
}

} // verus!
