//! The settings of a training run.

use vstd::prelude::*;

use crate::scalar::Scalar;

verus! {

/// The settings.
pub struct Config<T> {
    pub learning_rate: T,
    pub batch_size: usize,
    pub epochs: usize,
}

/// Which setting is not a number.
#[derive(Clone, Copy, PartialEq, Eq, Structural, Debug)]
pub enum ConfigError {
    LearningRate,
    BatchSize,
    Epochs,
}

impl ConfigError {
    /// What to tell a user.
    pub fn message(&self) -> (text: &'static str)
        ensures
            text@ == (match *self {
                ConfigError::LearningRate => "Invalid learning rate"@,
                ConfigError::BatchSize => "Invalid batch size"@,
                ConfigError::Epochs => "Invalid number of epochs"@,
            }),
    {
        match *self {
            ConfigError::LearningRate => "Invalid learning rate",
            ConfigError::BatchSize => "Invalid batch size",
            ConfigError::Epochs => "Invalid number of epochs",
        }
    }
}

/// The character is one of the ten digits.
pub open spec fn is_digit(x: char) -> bool {
    '0' <= x <= '9'
}

/// The number that digits spell.
pub open spec fn digits_value(digits: Seq<char>) -> int
    decreases digits.len(),
{
    if digits.len() == 0 {
        0
    } else {
        10 * digits_value(digits.drop_last()) + (digits.last() as int - '0' as int)
    }
}

/// What follows the sign, if the text begins with one.
pub open spec fn unsigned(text: Seq<char>) -> Seq<char> {
    if text.len() > 0 && text[0] == '+' {
        text.skip(1)
    } else {
        text
    }
}

/// The text is digits, at least one of them, with or without a plus sign before them, and spells
/// a number that can be counted.
pub open spec fn spells_count(text: Seq<char>) -> bool {
    let digits = unsigned(text);
    &&& digits.len() > 0
    &&& forall|i: int| 0 <= i < digits.len() ==> is_digit(#[trigger] digits[i])
    &&& digits_value(digits) <= usize::MAX
}

/// Calls `str::parse` of the standard library for a `usize`. Claimed: a plus sign may stand before
/// the digits, nothing else may, there must be a digit, the number must be one that can be
/// counted, and the result is that number.
#[verifier::external_body]
fn parse_count(text: &str) -> (r: Option<usize>)
    ensures
        match r {
            Some(n) => spells_count(text@) && n == digits_value(unsigned(text@)),
            None => !spells_count(text@),
        },
{
    text.parse().ok()
}

/// The characters of a text, if there is one.
pub open spec fn text_view(text: Option<&str>) -> Option<Seq<char>> {
    match text {
        Some(x) => Some(x@),
        None => None,
    }
}

/// The scalar type may read `text` as `r`.
pub open spec fn parses<T: Scalar>(text: Seq<char>, r: Option<T>) -> bool {
    exists|x: &str| x@ == text && #[trigger] call_ensures(T::parse, (x,), r)
}

/// The text that is given, or else `default`.
pub open spec fn given_or(given: Option<Seq<char>>, default: Seq<char>) -> Seq<char> {
    match given {
        Some(text) => text,
        None => default,
    }
}

fn text_or<'a>(given: Option<&'a str>, default: &'a str) -> (text: &'a str)
    ensures
        text@ == given_or(text_view(given), default@),
{
    match given {
        Some(x) => x,
        None => default,
    }
}

impl<T: Scalar> Config<T> {
    /// The settings that the given texts spell. Where no text is given, the learning rate is a
    /// thousandth, the batch size 32, and the number of epochs ten.
    pub fn from_args(
        learning_rate: Option<&str>,
        batch_size: Option<&str>,
        epochs: Option<&str>,
    ) -> (r: Result<Config<T>, ConfigError>)
        ensures
            ({
                let rate = given_or(text_view(learning_rate), "0.001"@);
                let size = given_or(text_view(batch_size), "32"@);
                let rounds = given_or(text_view(epochs), "10"@);
                match r {
                    Ok(config) => {
                        &&& parses(rate, Some(config.learning_rate))
                        &&& spells_count(size)
                        &&& config.batch_size == digits_value(unsigned(size))
                        &&& spells_count(rounds)
                        &&& config.epochs == digits_value(unsigned(rounds))
                    },
                    Err(ConfigError::LearningRate) => parses::<T>(rate, None),
                    Err(ConfigError::BatchSize) => {
                        &&& exists|x: T| #[trigger] parses(rate, Some(x))
                        &&& !spells_count(size)
                    },
                    Err(ConfigError::Epochs) => {
                        &&& exists|x: T| #[trigger] parses(rate, Some(x))
                        &&& spells_count(size)
                        &&& !spells_count(rounds)
                    },
                }
            }),
    {
        let text = text_or(learning_rate, "0.001");
        let parsed = T::parse(text);
        assert(parses(text@, parsed));
        let learning_rate = match parsed {
            Some(x) => x,
            None => return Err(ConfigError::LearningRate),
        };
        let batch_size = match parse_count(text_or(batch_size, "32")) {
            Some(x) => x,
            None => return Err(ConfigError::BatchSize),
        };
        let epochs = match parse_count(text_or(epochs, "10")) {
            Some(x) => x,
            None => return Err(ConfigError::Epochs),
        };
        Ok(Config { learning_rate, batch_size, epochs })
    }
}

} // verus!
