//! Values of the wallet service.

use crate::state::WalletInfo;
use vstd::prelude::*;

verus! {

/// Result of generating a new wallet.
#[derive(Debug, Clone)]
pub struct GeneratedWallet {
    /// Wallet info.
    pub info: WalletInfo,
    /// Seed phrase of 24 words, to be shown once.
    pub seed_phrase: String,
}

} // verus!
