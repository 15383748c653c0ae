use vstd::prelude::*;

use crate::error::Error;
use crate::text::{decimal, push_decimal, str_equals};

verus! {

/// A `Condition` is a test that die values can be checked against.
#[derive(Debug, PartialEq, Eq, Hash, Structural)]
pub enum Condition {
    Eq(u8),
    Gt(u8),
    Gte(u8),
    Lt(u8),
    Lte(u8),
}

impl Clone for Condition {
    fn clone(&self) -> (res: Self)
        ensures
            res == *self,
    {
        match self {
            Condition::Eq(v) => Condition::Eq(*v),
            Condition::Gt(v) => Condition::Gt(*v),
            Condition::Gte(v) => Condition::Gte(*v),
            Condition::Lt(v) => Condition::Lt(*v),
            Condition::Lte(v) => Condition::Lte(*v),
        }
    }
}

impl Condition {
    /// Whether a die value meets the condition.
    pub open spec fn holds(self, val: u8) -> bool {
        match self {
            Condition::Eq(expected) => val == expected,
            Condition::Gt(expected) => val > expected,
            Condition::Gte(expected) => val >= expected,
            Condition::Lt(expected) => val < expected,
            Condition::Lte(expected) => val <= expected,
        }
    }

    /// The value the condition compares against.
    pub open spec fn operand(self) -> u8 {
        match self {
            Condition::Eq(v) | Condition::Gt(v) | Condition::Gte(v) | Condition::Lt(v) | Condition::Lte(
                v,
            ) => v,
        }
    }

    /// Whether rerolling or exploding dice of `sides` sides recursively on this
    /// condition is refused because it would never end.
    pub open spec fn refused_as_endless(self, sides: u8) -> bool {
        match self {
            Condition::Eq(other) => other == 1 && sides == 1,
            Condition::Gt(other) => other == 0,
            Condition::Gte(other) => other <= 1,
            Condition::Lt(other) => other > sides,
            Condition::Lte(other) => other >= sides,
        }
    }

    /// The symbol that stands for the condition in dice notation.
    pub open spec fn symbol_view(self) -> Seq<char> {
        match self {
            Condition::Eq(..) => seq!['='],
            Condition::Gt(..) => seq!['>'],
            Condition::Gte(..) => seq!['>', '='],
            Condition::Lt(..) => seq!['<'],
            Condition::Lte(..) => seq!['<', '='],
        }
    }

    /// The condition that a symbol of dice notation and a value stand for, if the symbol is known.
    pub open spec fn for_symbol(symbol: Seq<char>, val: u8) -> Option<Condition> {
        if symbol == seq!['='] {
            Some(Condition::Eq(val))
        } else if symbol == seq!['>'] {
            Some(Condition::Gt(val))
        } else if symbol == seq!['>', '='] {
            Some(Condition::Gte(val))
        } else if symbol == seq!['<'] {
            Some(Condition::Lt(val))
        } else if symbol == seq!['<', '='] {
            Some(Condition::Lte(val))
        } else {
            None
        }
    }

    /// Creates a condition from its corresponding symbol and a given value.
    pub fn from_symbol_and_val(symbol: &str, val: u8) -> (res: Result<Self, Error>)
        ensures
            match Condition::for_symbol(symbol@, val) {
                Some(c) => res == Ok::<Condition, Error>(c),
                None => res matches Err(Error::UnknownCondition(s)) && s@ == symbol@,
            },
    {
        proof {
            reveal_strlit("=");
            reveal_strlit(">");
            reveal_strlit(">=");
            reveal_strlit("<");
            reveal_strlit("<=");
            assert("="@ =~= seq!['=']);
            assert(">"@ =~= seq!['>']);
            assert(">="@ =~= seq!['>', '=']);
            assert("<"@ =~= seq!['<']);
            assert("<="@ =~= seq!['<', '=']);
        }
        if str_equals(symbol, "=") {
            Ok(Condition::Eq(val))
        } else if str_equals(symbol, ">") {
            Ok(Condition::Gt(val))
        } else if str_equals(symbol, ">=") {
            Ok(Condition::Gte(val))
        } else if str_equals(symbol, "<") {
            Ok(Condition::Lt(val))
        } else if str_equals(symbol, "<=") {
            Ok(Condition::Lte(val))
        } else {
            Err(Error::UnknownCondition(symbol.to_owned()))
        }
    }

    /// Checks a value against the condition.
    pub fn check(&self, val: u8) -> (res: bool)
        ensures
            res == self.holds(val),
    {
        match self {
            Condition::Eq(expected) => val == *expected,
            Condition::Gt(expected) => val > *expected,
            Condition::Gte(expected) => val >= *expected,
            Condition::Lt(expected) => val < *expected,
            Condition::Lte(expected) => val <= *expected,
        }
    }

    /// Gets the symbol that represents the condition.
    pub fn symbol(&self) -> (res: &'static str)
        ensures
            res@ == self.symbol_view(),
    {
        proof {
            reveal_strlit("=");
            reveal_strlit(">");
            reveal_strlit(">=");
            reveal_strlit("<");
            reveal_strlit("<=");
            assert("="@ =~= seq!['=']);
            assert(">"@ =~= seq!['>']);
            assert(">="@ =~= seq!['>', '=']);
            assert("<"@ =~= seq!['<']);
            assert("<="@ =~= seq!['<', '=']);
        }
        match self {
            Condition::Eq(..) => "=",
            Condition::Gt(..) => ">",
            Condition::Gte(..) => ">=",
            Condition::Lt(..) => "<",
            Condition::Lte(..) => "<=",
        }
    }
}

impl Condition {
    /// The condition in dice notation: its symbol, then its value.
    pub open spec fn text(self) -> Seq<char> {
        self.symbol_view() + decimal(self.operand() as nat)
    }

    /// Writes the condition in dice notation, such as `>=5`.
    pub fn to_string(&self) -> (res: String)
        ensures
            res@ == self.text(),
    {
        let mut s = String::new();
        s.append(self.symbol());
        let expected = match self {
            Condition::Eq(expected)
            | Condition::Gt(expected)
            | Condition::Gte(expected)
            | Condition::Lt(expected)
            | Condition::Lte(expected) => *expected,
        };
        push_decimal(&mut s, expected as usize);
        assert(s@ =~= self.text());
        s
    }
}

} // verus!
