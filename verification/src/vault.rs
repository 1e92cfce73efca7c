//! The header of the encrypted wallet vault, and where the vault lies.

use vstd::prelude::*;
use vstd::string::*;

verus! {

/// Argon2id parameters.
#[derive(Debug, Clone, Copy, PartialEq, Eq)]
pub struct Argon2Params {
    /// Memory cost in KiB.
    pub m_cost: u32,
    /// Time cost (iterations).
    pub t_cost: u32,
    /// Parallelism.
    pub p_cost: u32,
    /// Output length in bytes.
    pub output_len: u32,
}

impl Default for Argon2Params {
    /// 256 MiB of memory, four iterations, four lanes, a key of 32 bytes.
    fn default() -> (params: Self)
        ensures
            params == (Argon2Params { m_cost: 262_144, t_cost: 4, p_cost: 4, output_len: 32 }),
    {
        Argon2Params { m_cost: 262_144, t_cost: 4, p_cost: 4, output_len: 32 }
    }
}

/// Vault file header: the metadata that is stored unencrypted.
#[derive(Debug, Clone)]
pub struct VaultHeader {
    /// Magic bytes: "SAORSAVLT".
    pub magic: [u8; 9],
    /// Format version.
    pub version: u32,
    /// Argon2id parameters.
    pub kdf_params: Argon2Params,
    /// Salt for the key derivation.
    pub kdf_salt: [u8; 32],
    /// Nonce for XChaCha20-Poly1305.
    pub nonce: [u8; 24],
    /// HMAC of the encrypted payload.
    pub hmac: [u8; 32],
    /// Last modification timestamp.
    pub modified_at: u64,
}

/// Names the file of an encrypted vault.
#[derive(Debug, Clone)]
pub struct Vault {
    path: String,
}

impl Vault {
    /// The path of the vault file, as characters.
    pub closed spec fn location(&self) -> Seq<char> {
        self.path@
    }

    /// A vault manager for the file at `path`.
    pub fn new(path: String) -> (vault: Self)
        ensures
            vault.location() == path@,
    {
        Vault { path }
    }

    /// The path of the vault file.
    pub fn path(&self) -> (path: &String)
        ensures
            path@ == self.location(),
    {
        &self.path
    }
}

} // verus!
