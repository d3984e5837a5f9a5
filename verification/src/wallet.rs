//! The operator's wallet: the keypair that pays for and signs every
//! trade, loaded from its JSON key file (a JSON array of the 64 keypair
//! bytes).

use crate::keys::{keypair_from_bytes, keypair_public_half};
use solana_sdk::signature::Keypair;
use vstd::prelude::*;

verus! {

/// Why a wallet could not be loaded.
#[derive(Debug, Clone, Copy, PartialEq, Eq, Structural)]
pub enum WalletError {
    /// The key file is not a JSON array of bytes.
    InvalidKeypairJson,
    /// The bytes are not a valid keypair.
    InvalidKeypair,
}

/// The bytes that `serde_json::from_str::<Vec<u8>>` reads from `text`, or
/// `None` where it refuses the text.
pub uninterp spec fn json_byte_array(text: Seq<char>) -> Option<Seq<u8>>;

/// `serde_json::from_str::<Vec<u8>>`, with its error reduced to `None`.
/// Claims that the result is `json_byte_array` of the text; the JSON
/// grammar is left to the name.
#[verifier::external_body]
fn parse_json_bytes(text: &str) -> (bytes: Option<Vec<u8>>)
    ensures
        match bytes {
            Some(b) => json_byte_array(text@) == Some(b@),
            None => json_byte_array(text@) is None,
        },
{
    serde_json::from_str::<Vec<u8>>(text).ok()
}

/// Holds the operator's keypair and its public key.
#[derive(Debug)]
pub struct WalletManager {
    keypair: Keypair,
    pubkey: [u8; 32],
}

impl View for WalletManager {
    type V = Seq<u8>;

    /// The wallet's public key.
    closed spec fn view(&self) -> Seq<u8> {
        self.pubkey@
    }
}

impl WalletManager {
    /// Loads the wallet from the contents of its JSON key file. Fails with
    /// `InvalidKeypairJson` when the text is not a JSON byte array, and with
    /// `InvalidKeypair` when the bytes are not a keypair (always so unless
    /// there are exactly 64 of them); succeeds otherwise. The wallet's public
    /// key is the second half of the bytes.
    pub fn from_keypair_json(json: &str) -> (r: Result<WalletManager, WalletError>)
        ensures
            match json_byte_array(json@) {
                None => r == Err::<WalletManager, WalletError>(WalletError::InvalidKeypairJson),
                Some(b) => match keypair_public_half(b) {
                    None => r == Err::<WalletManager, WalletError>(WalletError::InvalidKeypair),
                    Some(public) => r matches Ok(w) && w@ == public && b.len() == 64 && w@
                        == b.subrange(32, 64),
                },
            },
    {
        match parse_json_bytes(json) {
            None => Err(WalletError::InvalidKeypairJson),
            Some(bytes) => match keypair_from_bytes(bytes.as_slice()) {
                Some((keypair, pubkey)) => Ok(WalletManager { keypair, pubkey }),
                None => Err(WalletError::InvalidKeypair),
            },
        }
    }

    /// Returns the public key of the loaded wallet, as its bytes.
    pub fn pubkey(&self) -> (key: [u8; 32])
        ensures
            key@ == self@,
    {
        self.pubkey
    }

    /// The keypair the wallet signs with: the one loaded from its key file.
    pub closed spec fn signer(&self) -> Keypair {
        self.keypair
    }

    /// The keypair, for signing.
    pub fn keypair(&self) -> (keypair: &Keypair)
        ensures
            *keypair == self.signer(),
    {
        &self.keypair
    }
}

} // verus!
