use vstd::prelude::*;
use vstd::string::*;

verus! {

/// Name of the weakest severity as it appears in a `to` argument.
pub const RESULT_TO: &'static str = "RESULT";

/// Name of the strongest severity as it appears in a `to` argument.
pub const NULL_TO: &'static str = "NULL";

/// Possible `to` values of `@catch`, ordered by severity.
#[derive(Clone, Copy, Debug, PartialEq, Eq, Structural, Hash)]
pub enum CatchTo {
    Result,
    Null,
}

impl CatchTo {
    /// Severity rank: `Result` is weaker than `Null`.
    pub open spec fn rank(self) -> nat {
        match self {
            CatchTo::Result => 0,
            CatchTo::Null => 1,
        }
    }

    /// The enum value name that denotes this severity.
    pub open spec fn spec_name(self) -> Seq<char> {
        match self {
            CatchTo::Result => RESULT_TO@,
            CatchTo::Null => NULL_TO@,
        }
    }

    /// Whether `self` is strictly less severe than `other`.
    pub fn is_less_severe_than(self, other: CatchTo) -> (r: bool)
        ensures
            r == (self.rank() < other.rank()),
    {
        match (self, other) {
            (CatchTo::Result, CatchTo::Null) => true,
            _ => false,
        }
    }

    /// The enum value name of this severity.
    pub fn into_name(self) -> (r: String)
        ensures
            r@ == self.spec_name(),
    {
        match self {
            CatchTo::Result => String::from_str(RESULT_TO),
            CatchTo::Null => String::from_str(NULL_TO),
        }
    }

    /// Decodes an enum value name; only the two severity names are accepted.
    pub fn from_name(name: &String) -> (r: CatchTo)
        requires
            name@ == RESULT_TO@ || name@ == NULL_TO@,
        ensures
            r.spec_name() == name@,
            r == (if name@ == NULL_TO@ {
                CatchTo::Null
            } else {
                CatchTo::Result
            }),
    {
        let null_name = String::from_str(NULL_TO);
        if *name == null_name {
            CatchTo::Null
        } else {
            CatchTo::Result
        }
    }
}

} // verus!
