//! A request to list a new asset, and a vote on it.

use crate::table::Replica;
use vstd::prelude::*;

verus! {

/// Where a request stands.
#[allow(non_camel_case_types)]
#[derive(Debug, Clone, Copy, PartialEq, Eq, Structural)]
pub enum RequestStatus {
    REJECTED,
    APPROVED,
    PENDING,
}

/// The number of a request.
pub type RequestId = u64;

/// The vote of one account on one request.
#[derive(Debug)]
pub struct Vote {
    pub owner_id: String,
    pub result: bool,
}

impl Clone for Vote {
    fn clone(&self) -> (copy: Self)
        ensures
            copy == *self,
    {
        Vote { owner_id: self.owner_id.clone(), result: self.result }
    }
}

impl PartialEq for Vote {
    /// Two votes are the same if the same account cast them.
    fn eq(&self, other: &Self) -> (equal: bool) {
        self.owner_id == other.owner_id
    }
}

impl vstd::std_specs::cmp::PartialEqSpecImpl for Vote {
    open spec fn obeys_eq_spec() -> bool {
        true
    }

    open spec fn eq_spec(&self, other: &Self) -> bool {
        self.owner_id@ == other.owner_id@
    }
}

/// A request to list a new asset.
#[derive(Debug, PartialEq)]
pub struct Request {
    pub id: RequestId,
    pub token_id: String,
    pub title: String,
    pub description: String,
    pub price: u128,
    pub supply: u128,
    pub status: RequestStatus,
    pub created_time: u64,
    pub owner_id: String,
    /// The full text of the request.
    pub hash: String,
}

impl Clone for Request {
    fn clone(&self) -> (copy: Self)
        ensures
            copy == *self,
    {
        Request {
            id: self.id,
            token_id: self.token_id.clone(),
            title: self.title.clone(),
            description: self.description.clone(),
            price: self.price,
            supply: self.supply,
            status: self.status,
            created_time: self.created_time,
            owner_id: self.owner_id.clone(),
            hash: self.hash.clone(),
        }
    }
}

impl View for Request {
    type V = Request;

    open spec fn view(&self) -> Request {
        *self
    }
}

impl Replica for Request {
    fn replica(&self) -> (copy: Self) {
        self.clone()
    }
}

} // verus!
