//! The calls into the host runtime that the engine makes.
//!
//! The library asks the host for two things: the digest of an account
//! identifier, under which the ledger files the account, and the time. Both
//! are asked only where a host is installed; without one the answer is
//! `None`. Who is calling is never asked here: whoever calls the library
//! hands the caller over as a plain value.

use vstd::prelude::*;

verus! {

/// The key under which the ledger files a principal: the host's SHA-256
/// digest of the bytes of its identifier.
pub uninterp spec fn principal_hash(id: Seq<char>) -> Seq<u8>;

/// Hashes an account identifier through `near_sdk::env::sha256`, which hands
/// the UTF-8 bytes of the identifier to the host and returns the digest that
/// the host computed. The host is taken out with
/// `near_sdk::env::take_blockchain_interface` and put back with
/// `near_sdk::env::set_blockchain_interface` first, to see that there is
/// one; without a host nothing is hashed and the result is `None`. What is
/// claimed: a digest that came back depends on the bytes alone. What the
/// digest is on given bytes is not stated.
#[verifier::external_body]
pub(crate) fn account_hash(id: &String) -> (hash: Option<Vec<u8>>)
    ensures
        hash matches Some(digest) ==> digest@ == principal_hash(id@),
{
    match near_sdk::env::take_blockchain_interface() {
        Some(host) => {
            near_sdk::env::set_blockchain_interface(host);
            Some(near_sdk::env::sha256(id.as_bytes()))
        },
        None => None,
    }
}

/// Reads the block timestamp through `near_sdk::env::block_timestamp`, after
/// the same look for a host as above; `None` without a host. Nothing is
/// claimed of the value: it is whatever the host reports.
#[verifier::external_body]
fn block_timestamp() -> (now: Option<u64>) {
    match near_sdk::env::take_blockchain_interface() {
        Some(host) => {
            near_sdk::env::set_blockchain_interface(host);
            Some(near_sdk::env::block_timestamp())
        },
        None => None,
    }
}

/// The current time as the host reports it, in nanoseconds, or `None` where
/// no host is installed.
pub fn get_current_time() -> (now: Option<u64>) {
    block_timestamp()
}

/// Who runs a call, on whose behalf, and when.
#[derive(Debug)]
pub struct CallContext {
    /// The account that made the call; the ledger checks its allowances.
    pub predecessor: String,
    /// The account that signed the transaction; orders are placed in its
    /// name.
    pub signer: String,
    /// The account of the exchange itself, which holds what is in escrow.
    pub current: String,
    /// The block timestamp.
    pub now: u64,
}

} // verus!
