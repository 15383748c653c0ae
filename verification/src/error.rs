use vstd::prelude::*;

use crate::dice::Dice;

verus! {

/// An error resulting from a dice operation
#[derive(Debug)]
pub enum Error {
    Overflow,
    InfiniteRolls(Dice),
    UnknownCondition(String),
}

impl Error {
    /// The message that describes the error.
    pub open spec fn text(self) -> Seq<char> {
        match self {
            Error::Overflow => "integer overflow"@,
            Error::InfiniteRolls(dice) => dice.text() + " would result in infinite rolls"@,
            Error::UnknownCondition(symbol) => "unknown condition symbol: "@ + symbol@,
        }
    }

    /// Writes the message that describes the error.
    pub fn to_string(&self) -> (res: String)
        ensures
            res@ == self.text(),
    {
        match self {
            Error::Overflow => String::from_str("integer overflow"),
            Error::InfiniteRolls(dice) => {
                let mut s = dice.to_string();
                s.append(" would result in infinite rolls");
                s
            },
            Error::UnknownCondition(symbol) => {
                let mut s = String::from_str("unknown condition symbol: ");
                s.append(symbol.as_str());
                s
            },
        }
    }
}

} // verus!
