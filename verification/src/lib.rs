//! A verified deduction engine for the Bulls and Cows code-guessing game.
//!
//! A hidden code has four pairwise-distinct decimal digits.  A guess is
//! answered with a count of bulls (right digit, right place) and cows
//! (right digit, wrong place).  The engine enumerates the universe of
//! valid codes, scores guesses, prunes the candidate pool after each
//! answer, and picks the next guess by a minimax rule over worst-case
//! partition sizes.

pub mod breaker;
pub mod code;
pub mod feedback;
