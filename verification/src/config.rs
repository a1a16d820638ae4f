//! What the program is asked to do: the file to read and the coefficient
//! budget, taken from the arguments of the program.

use vstd::prelude::*;

verus! {

/// The file to read and the coefficient budget.
pub struct Config {
    pub path: String,
    pub coefficient: isize,
}

/// Why the arguments give no configuration.
#[derive(Clone, Copy, Debug, PartialEq, Eq, Structural)]
pub enum ConfigError {
    /// There is no argument for the path.
    MissingPath,
    /// There is no argument for the coefficient budget.
    MissingCoefficient,
    /// The argument for the coefficient budget is no decimal number that an
    /// `isize` holds.
    InvalidCoefficient,
}

/// The number that `text` stands for in decimal notation, if it stands for
/// one that an `isize` holds: what `isize::from_str_radix` makes of it with
/// the radix ten.
pub uninterp spec fn decimal_isize(text: Seq<char>) -> Option<isize>;

/// Reads `text` as a decimal number with `isize::from_str_radix` of the
/// standard library. Nothing is proved of that function: the contract gives
/// its result a name, and `None` stands for each of its errors.
#[verifier::external_body]
fn parse_decimal(text: &str) -> (parsed: Option<isize>)
    ensures
        parsed == decimal_isize(text@),
{
    isize::from_str_radix(text, 10).ok()
}

impl ConfigError {
    /// The error in words.
    pub fn message(&self) -> (text: &'static str)
        ensures
            text@ == match *self {
                ConfigError::MissingPath => "Didn't get a path"@,
                ConfigError::MissingCoefficient => "Didn't get a coefficient"@,
                ConfigError::InvalidCoefficient => "not a valid number"@,
            },
    {
        match *self {
            ConfigError::MissingPath => "Didn't get a path",
            ConfigError::MissingCoefficient => "Didn't get a coefficient",
            ConfigError::InvalidCoefficient => "not a valid number",
        }
    }
}

impl Config {
    /// The configuration with the given path, if the coefficient budget was
    /// read as a number.
    pub fn with_coefficient(path: String, parsed: Option<isize>) -> (result: Result<
        Self,
        ConfigError,
    >)
        ensures
            match parsed {
                Some(coefficient) => result matches Ok(config) && config.path == path
                    && config.coefficient == coefficient,
                None => result matches Err(error) && error == ConfigError::InvalidCoefficient,
            },
    {
        match parsed {
            Some(coefficient) => Ok(Config { path, coefficient }),
            None => Err(ConfigError::InvalidCoefficient),
        }
    }

    /// The configuration that the arguments of the program give: after the
    /// name of the program come the path and the coefficient budget; further
    /// arguments are not looked at.
    pub fn new(args: &Vec<String>) -> (result: Result<Self, ConfigError>)
        ensures
            match result {
                Ok(config) => args@.len() >= 3 && config.path@ == args@[1]@ && decimal_isize(
                    args@[2]@,
                ) == Some(config.coefficient),
                Err(ConfigError::MissingPath) => args@.len() < 2,
                Err(ConfigError::MissingCoefficient) => args@.len() == 2,
                Err(ConfigError::InvalidCoefficient) => args@.len() >= 3 && decimal_isize(
                    args@[2]@,
                ).is_none(),
            },
    {
        if args.len() < 2 {
            return Err(ConfigError::MissingPath);
        }
        if args.len() < 3 {
            return Err(ConfigError::MissingCoefficient);
        }
        let path = args[1].clone();
        let parsed = parse_decimal(args[2].as_str());
        Config::with_coefficient(path, parsed)
    }
}

} // verus!
