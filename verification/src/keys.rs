//! Ed25519 keys and base58 public keys, as `solana_sdk` implements them.
//!
//! Public keys travel through the library as their 32 bytes; keypairs stay
//! opaque and are only carried to the code that signs with them.

use solana_sdk::pubkey::Pubkey;
use solana_sdk::signature::Keypair;
use solana_sdk::signer::Signer;
use std::str::FromStr;
use vstd::prelude::*;
use vstd::string::StringSliceAdditionalSpecFns;

verus! {

#[verifier::external_type_specification]
#[verifier::external_body]
pub struct ExKeypair(Keypair);

/// The 32 bytes that `Pubkey::from_str` decodes from `text`, or `None`
/// where it refuses the text.
pub uninterp spec fn pubkey_from_text(text: Seq<char>) -> Option<Seq<u8>>;

/// `Pubkey::from_str`, with the key taken as its bytes (`Pubkey::to_bytes`).
/// The result is `pubkey_from_text` of the text, and a text longer than 44
/// bytes (the longest base58 form of 32 bytes) is refused before any
/// decoding. How the base58 digits decode is left to the name.
#[verifier::external_body]
pub(crate) fn parse_pubkey(text: &str) -> (key: Option<[u8; 32]>)
    ensures
        match key {
            Some(bytes) => pubkey_from_text(text@) == Some(bytes@),
            None => pubkey_from_text(text@) is None,
        },
        text.spec_bytes().len() > 44 ==> key is None,
{
    Pubkey::from_str(text).ok().map(|k| k.to_bytes())
}

/// `Keypair::new`: a fresh keypair from the operating system's random
/// source. Nothing is promised of it.
#[verifier::external_body]
pub(crate) fn new_keypair() -> (k: Keypair) {
    Keypair::new()
}

/// `Signer::pubkey` of a keypair, as its 32 bytes. The keypair is opaque
/// here, so nothing is stated of which bytes come back.
#[verifier::external_body]
pub(crate) fn keypair_pubkey(keypair: &Keypair) -> (key: [u8; 32]) {
    keypair.pubkey().to_bytes()
}

/// The public half of a 64-byte keypair encoding that `Keypair::try_from`
/// accepts, or `None` where it refuses the bytes.
pub uninterp spec fn keypair_public_half(bytes: Seq<u8>) -> Option<Seq<u8>>;

/// `Keypair::try_from(&[u8])`, with its error reduced to `None`, together
/// with the keypair's public key (`Signer::pubkey`, as bytes). The call
/// depends on the bytes alone: it succeeds exactly where
/// `keypair_public_half` of them is `Some`. A keypair is encoded in 64
/// bytes, the secret half then the public half, so other lengths are
/// refused and the public key is the second half, as given. Which 64-byte
/// inputs are refused (a public half that is not a valid point or does not
/// belong to the secret half) is left to the name.
#[verifier::external_body]
pub(crate) fn keypair_from_bytes(bytes: &[u8]) -> (k: Option<(Keypair, [u8; 32])>)
    ensures
        match k {
            Some(pair) => keypair_public_half(bytes@) == Some(pair.1@),
            None => keypair_public_half(bytes@) is None,
        },
        bytes@.len() != 64 ==> k is None,
        k matches Some(pair) ==> pair.1@ == bytes@.subrange(32, 64),
{
    match Keypair::try_from(bytes) {
        Ok(keypair) => {
            let public = keypair.pubkey().to_bytes();
            Some((keypair, public))
        },
        Err(_) => None,
    }
}

} // verus!
