//! A number-guessing game: picking the secret and judging a guess.

use rand::Rng;
use vstd::prelude::*;

verus! {

/// The smallest number that can be the secret.
pub const LOWEST: i32 = 1;

/// The largest number that can be the secret.
pub const HIGHEST: i32 = 100;

/// What the game answers to a guess.
#[derive(Clone, Copy, Debug, PartialEq, Eq, Structural)]
pub enum Reply {
    /// What was entered is no number.
    NotANumber,
    /// The secret is bigger than the guess.
    Bigger,
    /// The guess is the secret.
    NiceJob,
    /// The secret is less than the guess.
    Less,
}

/// The answer to `guess`, which is `None` where the player entered no
/// number, when the secret is `secret`.
pub open spec fn reply_to(guess: Option<i32>, secret: i32) -> Reply {
    match guess {
        None => Reply::NotANumber,
        Some(number) => if number < secret {
            Reply::Bigger
        } else if number == secret {
            Reply::NiceJob
        } else {
            Reply::Less
        },
    }
}

impl Reply {
    /// The words of the answer.
    pub open spec fn words(self) -> Seq<char> {
        match self {
            Reply::NotANumber => "Please enter a number."@,
            Reply::Bigger => "Bigger."@,
            Reply::NiceJob => "Nice job!"@,
            Reply::Less => "Less."@,
        }
    }

    /// The words of the answer.
    pub fn text(self) -> (text: &'static str)
        ensures
            text@ == self.words(),
    {
        match self {
            Reply::NotANumber => "Please enter a number.",
            Reply::Bigger => "Bigger.",
            Reply::NiceJob => "Nice job!",
            Reply::Less => "Less.",
        }
    }
}

/// Judges one guess, which is `None` where the player entered no number:
/// returns the answer, and whether the guess was the secret.
pub fn do_guess_round(guess: Option<i32>, secret_number: i32) -> (round: (Reply, bool))
    ensures
        round.0 == reply_to(guess, secret_number),
        round.1 == (guess == Some(secret_number)),
{
    match guess {
        None => (Reply::NotANumber, false),
        Some(number) => {
            if number < secret_number {
                (Reply::Bigger, false)
            } else if number == secret_number {
                (Reply::NiceJob, true)
            } else {
                (Reply::Less, false)
            }
        },
    }
}

/// A number drawn at random between `low` and `high`, both included.
///
/// Calls `rand::rng()` for the thread's generator and `Rng::random_range`
/// on it with the range `low..=high`. Of the number drawn nothing is claimed
/// but that it lies in the range. `random_range` does not accept an empty
/// range, and `rand::rng()` gives up where the operating system has no
/// randomness to seed the generator with.
#[verifier::external_body]
fn random_between(low: i32, high: i32) -> (number: i32)
    requires
        low <= high,
    ensures
        low <= number <= high,
{
    rand::rng().random_range(low..=high)
}

/// Picks the secret of a new game: a number from 1 to 100.
pub fn pick_secret() -> (secret: i32)
    ensures
        LOWEST <= secret <= HIGHEST,
{
    random_between(LOWEST, HIGHEST)
}

} // verus!
