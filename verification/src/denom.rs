//! Denomination existence checking. Whether a denomination exists is
//! answered by a bank query of the platform; the decision on the query's
//! outcome is made here.

use vstd::prelude::*;

verus! {

#[derive(PartialEq, Eq, Debug)]
pub enum DenomError {
    InvalidDenom { denom: String },
}

/// A denomination exists when the platform can answer a balance query for
/// it; a failed query means the denomination is invalid.
pub fn validate_denom_exists(balance_query_succeeded: bool, denom: &String) -> (r: Result<
    (),
    DenomError,
>)
    ensures
        r is Ok <==> balance_query_succeeded,
        !balance_query_succeeded ==> (r matches Err(e) && e matches DenomError::InvalidDenom {
            denom: d,
        } && d@ == denom@),
{
    if balance_query_succeeded {
        Ok(())
    } else {
        Err(DenomError::InvalidDenom { denom: denom.clone() })
    }
}

} // verus!
