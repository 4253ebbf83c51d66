//! Failures of the aggregation pipeline.

use crate::num::{dec_str, dec_text};
use vstd::prelude::*;

verus! {

/// Why a conversion request failed.
#[derive(Clone, Copy, PartialEq, Eq, Structural, Debug)]
pub enum Error {
    /// An address or count/prefix field could not be parsed; carries the
    /// 1-based line number, counting every line of the input.
    RIRStatsMalformed(usize),
    /// After filtering, no records were left.
    RoutesEmpty,
}

/// The user-facing wording of each failure.
pub open spec fn spec_message(e: Error) -> Seq<char> {
    match e {
        Error::RIRStatsMalformed(lineno) => "RIR stats is malformed at line "@ + dec_str(
            lineno as nat,
        ) + "."@,
        Error::RoutesEmpty => "Either the upstream stats is empty or all records are filtered out."@,
    }
}

impl Error {
    /// Renders the failure as text.
    pub fn message(&self) -> (r: String)
        ensures
            r@ == spec_message(*self),
    {
        match self {
            Error::RIRStatsMalformed(lineno) => {
                let head = String::from_str("RIR stats is malformed at line ");
                let r = head.concat(dec_text(*lineno as u128).as_str()).concat(".");
                proof {
                    assert(r@ =~= spec_message(*self));
                }
                r
            },
            Error::RoutesEmpty => String::from_str(
                "Either the upstream stats is empty or all records are filtered out.",
            ),
        }
    }
}

} // verus!
