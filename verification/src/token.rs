//! What the exchange knows of a tradable asset.

use crate::table::Replica;
use vstd::prelude::*;

verus! {

/// Name of the asset that prices are quoted in.
pub const STANDARD_TOKEN: &'static str = "XDHO";

/// Number of units of the quote asset that exist.
pub const STANDARD_SUPPLY: u128 = 100_000_000_000;

/// Number of units of the quote asset that one unit of the host's own
/// currency buys.
pub const STANDARD_PRICE: u128 = 52;

/// Free-form description of an asset.
#[derive(Debug, PartialEq)]
pub struct TokenMetadata {
    pub title: Option<String>,
    pub description: Option<String>,
    pub icon: Option<String>,
}

/// A copy of an optional text.
fn copy_text(text: &Option<String>) -> (copy: Option<String>)
    ensures
        copy == *text,
{
    match text {
        Some(words) => Some(words.clone()),
        None => None,
    }
}

impl Clone for TokenMetadata {
    fn clone(&self) -> (copy: Self)
        ensures
            copy == *self,
    {
        TokenMetadata {
            title: copy_text(&self.title),
            description: copy_text(&self.description),
            icon: copy_text(&self.icon),
        }
    }
}

/// A registered asset.
#[derive(Debug)]
pub struct Token {
    pub token_id: String,
    /// The account that the supply is credited to.
    pub owner_id: String,
    pub supply: u128,
    pub meta: Option<TokenMetadata>,
    /// Whether the asset is traded on the secondary market.
    pub launched: bool,
    /// When it was first traded.
    pub launched_time: u64,
}

impl Clone for Token {
    fn clone(&self) -> (copy: Self)
        ensures
            copy == *self,
    {
        Token {
            token_id: self.token_id.clone(),
            owner_id: self.owner_id.clone(),
            supply: self.supply,
            meta: match &self.meta {
                Some(meta) => Some(meta.clone()),
                None => None,
            },
            launched: self.launched,
            launched_time: self.launched_time,
        }
    }
}

impl PartialEq for Token {
    /// Two assets are the same if they have the same id.
    fn eq(&self, other: &Self) -> (equal: bool) {
        self.token_id == other.token_id
    }
}

impl vstd::std_specs::cmp::PartialEqSpecImpl for Token {
    open spec fn obeys_eq_spec() -> bool {
        true
    }

    open spec fn eq_spec(&self, other: &Self) -> bool {
        self.token_id@ == other.token_id@
    }
}

impl View for Token {
    type V = Token;

    open spec fn view(&self) -> Token {
        *self
    }
}

impl Replica for Token {
    fn replica(&self) -> (copy: Self) {
        self.clone()
    }
}

} // verus!
