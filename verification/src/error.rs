//! The errors of the library and their messages.
use vstd::prelude::*;
use vstd::string::StringExecFns;

verus! {

/// What can go wrong when building a rule set or a model, or when solving.
#[derive(Debug)]
pub enum WfcError {
    /// A grid dimension is outside the accepted range.
    InvalidDimensions { width: usize, height: usize },
    /// The rule set declares no tile.
    NoTilesDefined,
    /// No assignment satisfies the rules on the searched path.
    Contradiction,
    /// A rule names a tile that was never declared.
    InvalidTileId(String),
    /// A rule file could not be read as JSON of the expected shape.
    JsonParseError(String),
}

/// The decimal digit `d` as text.
pub open spec fn digit_text(d: nat) -> Seq<char> {
    if d == 0 {
        "0"@
    } else if d == 1 {
        "1"@
    } else if d == 2 {
        "2"@
    } else if d == 3 {
        "3"@
    } else if d == 4 {
        "4"@
    } else if d == 5 {
        "5"@
    } else if d == 6 {
        "6"@
    } else if d == 7 {
        "7"@
    } else if d == 8 {
        "8"@
    } else {
        "9"@
    }
}

/// The number `n` in decimal notation, without leading zeros.
pub open spec fn decimal_text(n: nat) -> Seq<char>
    decreases n,
{
    if n < 10 {
        digit_text(n)
    } else {
        decimal_text(n / 10) + digit_text(n % 10)
    }
}

/// The decimal digit `d` as text.
pub fn digit(d: usize) -> (r: &'static str)
    requires
        d < 10,
    ensures
        r@ == digit_text(d as nat),
{
    if d == 0 {
        "0"
    } else if d == 1 {
        "1"
    } else if d == 2 {
        "2"
    } else if d == 3 {
        "3"
    } else if d == 4 {
        "4"
    } else if d == 5 {
        "5"
    } else if d == 6 {
        "6"
    } else if d == 7 {
        "7"
    } else if d == 8 {
        "8"
    } else {
        "9"
    }
}

/// The number `n` in decimal notation.
pub fn decimal(n: usize) -> (r: String)
    ensures
        r@ == decimal_text(n as nat),
    decreases n,
{
    if n < 10 {
        String::from_str(digit(n))
    } else {
        decimal(n / 10).concat(digit(n % 10))
    }
}

impl WfcError {
    /// The message of the error.
    pub open spec fn spec_message(&self) -> Seq<char> {
        match self {
            WfcError::InvalidDimensions { width, height } => "Invalid dimensions: "@
                + decimal_text(*width as nat) + "x"@ + decimal_text(*height as nat),
            WfcError::NoTilesDefined => "No tiles defined in the rule set"@,
            WfcError::Contradiction => "Contradiction reached, generation failed"@,
            WfcError::InvalidTileId(id) => "Invalid tile ID: "@ + id@,
            WfcError::JsonParseError(msg) => "JSON parse error: "@ + msg@,
        }
    }

    /// The message of the error, as a person would read it.
    pub fn message(&self) -> (r: String)
        ensures
            r@ == self.spec_message(),
    {
        match self {
            WfcError::InvalidDimensions { width, height } => {
                let w = decimal(*width);
                let h = decimal(*height);
                String::from_str("Invalid dimensions: ").concat(w.as_str()).concat("x").concat(
                    h.as_str(),
                )
            },
            WfcError::NoTilesDefined => String::from_str("No tiles defined in the rule set"),
            WfcError::Contradiction => String::from_str("Contradiction reached, generation failed"),
            WfcError::InvalidTileId(id) => String::from_str("Invalid tile ID: ").concat(id.as_str()),
            WfcError::JsonParseError(msg) => String::from_str("JSON parse error: ").concat(
                msg.as_str(),
            ),
        }
    }
}

} // verus!
