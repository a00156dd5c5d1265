//! The tail that a test examines.

use vstd::prelude::*;

verus! {

/// Which tail of the Fisher ordering the test examines.
#[derive(Debug, Clone, Copy, PartialEq, Eq, Structural)]
pub enum Alternative {
    TwoSided,
    Less,
    Greater,
}

/// The tail as a command line names it.
#[derive(Debug, Clone, Copy, PartialEq, Eq, Structural)]
pub enum AlternativeArg {
    TwoSided,
    Less,
    Greater,
}

/// The tail that each command line value names.
pub open spec fn alternative_of(a: AlternativeArg) -> Alternative {
    match a {
        AlternativeArg::TwoSided => Alternative::TwoSided,
        AlternativeArg::Less => Alternative::Less,
        AlternativeArg::Greater => Alternative::Greater,
    }
}

impl From<AlternativeArg> for Alternative {
    fn from(a: AlternativeArg) -> (r: Alternative) {
        match a {
            AlternativeArg::TwoSided => Alternative::TwoSided,
            AlternativeArg::Less => Alternative::Less,
            AlternativeArg::Greater => Alternative::Greater,
        }
    }
}

impl vstd::std_specs::convert::FromSpecImpl<AlternativeArg> for Alternative {
    open spec fn obeys_from_spec() -> bool {
        true
    }

    open spec fn from_spec(a: AlternativeArg) -> Alternative {
        alternative_of(a)
    }
}

/// The command line value that names a tail.
pub open spec fn arg_naming(t: Alternative) -> AlternativeArg {
    match t {
        Alternative::TwoSided => AlternativeArg::TwoSided,
        Alternative::Less => AlternativeArg::Less,
        Alternative::Greater => AlternativeArg::Greater,
    }
}

/// Every tail is named by exactly one command line value: converting a
/// command line value to a tail is one-to-one and onto.
pub proof fn lemma_alternative_of_bijective()
    ensures
        forall|x: AlternativeArg, y: AlternativeArg|
            #[trigger] alternative_of(x) == #[trigger] alternative_of(y) ==> x == y,
        forall|t: Alternative| #[trigger] alternative_of(arg_naming(t)) == t,
        forall|x: AlternativeArg| #[trigger] arg_naming(alternative_of(x)) == x,
{
}

} // verus!
