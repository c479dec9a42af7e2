//! Plain values exchanged with the platform: token metadata, attached funds,
//! block information, account identifiers, and outbound transfer
//! instructions. Accounts are identified by the numeric index the platform
//! assigns them in its address table; listings page through accounts in
//! ascending order of that index.

use vstd::prelude::*;

verus! {

/// A token identifier plus display-decimals metadata.
#[derive(Debug)]
pub struct TokenDenom {
    pub denom: String,
    pub exponent: u32,
}

impl TokenDenom {
    /// A field-for-field copy.
    pub fn duplicate(&self) -> (r: TokenDenom)
        ensures
            r.denom@ == self.denom@,
            r.exponent == self.exponent,
    {
        TokenDenom { denom: self.denom.clone(), exponent: self.exponent }
    }
}

/// An amount of one denomination, attached to a call or sent out.
#[derive(Debug)]
pub struct Coin {
    pub denom: String,
    pub amount: u128,
}

/// The block at which the current transition executes. `time` counts
/// wall-clock seconds.
#[derive(Clone, Copy)]
pub struct BlockInfo {
    pub height: u64,
    pub time: u64,
}

/// An outbound bank-transfer instruction; the platform executes it
/// atomically with the rest of the transition.
#[derive(Debug)]
pub struct BankSend {
    pub to_account: u64,
    pub denom: String,
    pub amount: u128,
}

} // verus!
