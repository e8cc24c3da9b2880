//! The requests to list new assets, the votes on them, and what an account
//! has staked to vote.

use crate::request::{Request, RequestId, RequestStatus, Vote};
use crate::sequence::{new_sequence_gen, resume_sequence_gen, TradeSequence};
use crate::table::{delete, lookup, put, Replica, Table};
use crate::token::Token;
use vstd::prelude::*;

verus! {

/// First number that a request gets.
pub const FIRST_REQUEST_ID: u64 = 0;

/// Last number that a request gets before the numbers start over.
pub const LAST_REQUEST_ID: u64 = 1000000;

/// What an account has staked, and since when.
#[derive(Debug, Clone, Copy)]
pub struct StakeInfo {
    pub staked: u128,
    pub created_time: u64,
}

impl View for StakeInfo {
    type V = StakeInfo;

    open spec fn view(&self) -> StakeInfo {
        *self
    }
}

impl Replica for StakeInfo {
    fn replica(&self) -> (copy: Self) {
        *self
    }
}

/// The first sale of an asset.
#[derive(Debug)]
pub struct LaunchPad {
    pub price: u128,
    /// What was sold so far.
    pub sell_supply: u128,
    pub launched_time: u64,
    pub token: Token,
}

/// What a user hands in to have an asset listed.
#[derive(Debug)]
pub struct UserRequest {
    pub token_id: String,
    pub title: String,
    pub description: String,
    pub price: u128,
    pub supply: u128,
    /// The full text of the request.
    pub hash: String,
}

/// The request that `owner` files at time `now` under the number `id`.
pub open spec fn filed(id: u64, owner: String, now: u64, request: UserRequest) -> Request {
    Request {
        id,
        token_id: request.token_id,
        title: request.title,
        description: request.description,
        price: request.price,
        supply: request.supply,
        status: RequestStatus::PENDING,
        created_time: now,
        owner_id: owner,
        hash: request.hash,
    }
}

/// Whether `votes` holds a vote of `owner` with the given result.
pub open spec fn has_cast(votes: Seq<Vote>, owner: Seq<char>, result: bool) -> bool {
    exists|i: int|
        0 <= i < votes.len() && (#[trigger] votes[i]).owner_id@ == owner && votes[i].result
            == result
}

/// Whether `votes` holds a vote of `owner`.
pub open spec fn has_voted(votes: Seq<Vote>, owner: Seq<char>) -> bool {
    exists|i: int| 0 <= i < votes.len() && (#[trigger] votes[i]).owner_id@ == owner
}

/// `votes` with `vote` added at the end, unless the same account has cast
/// the same vote before.
pub open spec fn cast(votes: Seq<Vote>, vote: Vote) -> Seq<Vote> {
    if has_cast(votes, vote.owner_id@, vote.result) {
        votes
    } else {
        votes.push(vote)
    }
}

/// What the ballot holds.
pub struct BallotState {
    /// The requests by their number.
    pub requests: Seq<(u64, Request)>,
    /// The votes on each request in the order in which they were cast.
    pub votes: Seq<(u64, Seq<Vote>)>,
    /// The number that the next request gets.
    pub next_id: u64,
    /// The first number of the range that the numbers are taken from.
    pub first_id: u64,
    /// The last number of that range.
    pub last_id: u64,
}

impl BallotState {
    /// The ballot without requests.
    pub open spec fn empty() -> BallotState {
        BallotState {
            requests: Seq::empty(),
            votes: Seq::empty(),
            next_id: FIRST_REQUEST_ID,
            first_id: FIRST_REQUEST_ID,
            last_id: LAST_REQUEST_ID,
        }
    }

    /// The votes on a request.
    pub open spec fn votes_on(self, request_id: u64) -> Seq<Vote> {
        match lookup(self.votes, request_id) {
            Some(votes) => votes,
            None => Seq::empty(),
        }
    }

    /// The ballot after `owner` filed `request` at time `now`.
    pub open spec fn request_added(self, owner: String, now: u64, request: UserRequest) -> BallotState {
        BallotState {
            requests: put(self.requests, self.next_id, filed(self.next_id, owner, now, request)),
            next_id: TradeSequence::successor(self.first_id, self.last_id, self.next_id),
            ..self
        }
    }

    /// The ballot after `voter` voted on a request.
    pub open spec fn vote_cast(self, voter: String, request_id: u64, vote: bool) -> BallotState {
        BallotState {
            votes: put(
                self.votes,
                request_id,
                cast(self.votes_on(request_id), Vote { owner_id: voter, result: vote }),
            ),
            ..self
        }
    }

    /// The ballot after a request was decided: it has its new status, and
    /// the votes on it are gone.
    pub open spec fn decided(self, request_id: u64, status: RequestStatus) -> BallotState {
        BallotState {
            requests: put(
                self.requests,
                request_id,
                Request { status, ..lookup(self.requests, request_id)->0 },
            ),
            votes: delete(self.votes, request_id),
            ..self
        }
    }
}

/// The requests and the votes on them.
pub struct BallotHandler {
    pub requests: Table<RequestId, Request>,
    pub votes: Table<RequestId, Vec<Vote>>,
    seq: TradeSequence,
}

impl View for BallotHandler {
    type V = BallotState;

    closed spec fn view(&self) -> BallotState {
        BallotState {
            requests: self.requests@,
            votes: self.votes@,
            next_id: self.seq.upcoming(),
            first_id: self.seq.lo(),
            last_id: self.seq.hi(),
        }
    }
}

impl BallotHandler {
    /// The ballot without requests.
    pub fn new() -> (handler: Self)
        ensures
            handler@ == BallotState::empty(),
    {
        BallotHandler {
            requests: Table::new(),
            votes: Table::new(),
            seq: new_sequence_gen(FIRST_REQUEST_ID, LAST_REQUEST_ID),
        }
    }

    /// The ballot that holds the given requests and votes and numbers the
    /// next request `next_id`, or `None` where that is no number of a
    /// request.
    pub fn from_parts(
        requests: Table<RequestId, Request>,
        votes: Table<RequestId, Vec<Vote>>,
        next_id: u64,
    ) -> (handler: Option<Self>)
        ensures
            match handler {
                Some(made) => made@ == (BallotState {
                    requests: requests@,
                    votes: votes@,
                    next_id,
                    ..BallotState::empty()
                }),
                None => !(FIRST_REQUEST_ID <= next_id <= LAST_REQUEST_ID),
            },
    {
        match resume_sequence_gen(FIRST_REQUEST_ID, LAST_REQUEST_ID, next_id) {
            Some(seq) => Some(BallotHandler { requests, votes, seq }),
            None => None,
        }
    }

    /// The number that the next request gets.
    pub fn next_request_id(&self) -> (id: u64)
        ensures
            id == self@.next_id,
    {
        self.seq.peek_id()
    }

    /// Files `request` in the name of `owner` at time `now`.
    pub fn add_new_request(&mut self, owner: String, now: u64, request: UserRequest)
        ensures
            final(self)@ == old(self)@.request_added(owner, now, request),
    {
        let id = self.seq.next_id();
        let request = Request {
            id,
            owner_id: owner,
            status: RequestStatus::PENDING,
            token_id: request.token_id,
            title: request.title,
            description: request.description,
            price: request.price,
            supply: request.supply,
            hash: request.hash,
            created_time: now,
        };
        self.requests.put(id, request);
    }

    /// Copies of all requests, in the order in which their numbers were
    /// first used.
    pub fn get_all_requests(&self) -> (requests: Vec<Request>)
        ensures
            requests@.len() == self@.requests.len(),
            forall|i: int|
                0 <= i < requests@.len() ==> requests@[i] == (#[trigger] self@.requests[i]).1,
    {
        let mut result: Vec<Request> = Vec::new();
        let mut i: usize = 0;
        while i < self.requests.len()
            invariant
                i <= self.requests@.len(),
                result@.len() == i,
                forall|k: int| 0 <= k < i ==> result@[k] == (#[trigger] self.requests@[k]).1,
            decreases self.requests@.len() - i,
        {
            result.push(self.requests.value_at(i).clone());
            i = i + 1;
        }
        result
    }

    /// A copy of the request of the given number, if there is one.
    pub fn get_request(&self, request_id: RequestId) -> (request: Option<Request>)
        ensures
            request == lookup(self@.requests, request_id),
    {
        match self.requests.get(&request_id) {
            Some(request) => Some(request.clone()),
            None => None,
        }
    }

    /// Copies of the votes on a request, in the order in which they were
    /// cast.
    pub fn get_all_votes(&self, request_id: RequestId) -> (votes: Vec<Vote>)
        ensures
            votes@ == self@.votes_on(request_id),
    {
        let mut result: Vec<Vote> = Vec::new();
        match self.votes.get(&request_id) {
            Some(votes) => {
                let mut i: usize = 0;
                while i < votes.len()
                    invariant
                        i <= votes@.len(),
                        result@ == votes@.take(i as int),
                    decreases votes@.len() - i,
                {
                    result.push(votes[i].clone());
                    assert(votes@.take(i + 1) =~= votes@.take(i as int).push(votes@[i as int]));
                    i = i + 1;
                }
                assert(votes@.take(i as int) =~= votes@);
            },
            None => {},
        }
        result
    }

    /// Whether `voter_id` has voted on a request.
    pub fn is_vote(&self, request_id: RequestId, voter_id: String) -> (voted: bool)
        ensures
            voted == has_voted(self@.votes_on(request_id), voter_id@),
    {
        match self.votes.get(&request_id) {
            Some(votes) => {
                let mut i: usize = 0;
                while i < votes.len()
                    invariant
                        i <= votes@.len(),
                        votes@ == self@.votes_on(request_id),
                        !has_voted(votes@.take(i as int), voter_id@),
                    decreases votes@.len() - i,
                {
                    if votes[i].owner_id == voter_id {
                        assert(self@.votes_on(request_id)[i as int].owner_id@ == voter_id@);
                        return true;
                    }
                    proof {
                        let seen = votes@.take(i + 1);
                        if has_voted(seen, voter_id@) {
                            let k = choose|k: int|
                                0 <= k < seen.len() && (#[trigger] seen[k]).owner_id@ == voter_id@;
                            if k < i {
                                assert(votes@.take(i as int)[k].owner_id@ == voter_id@);
                            }
                        }
                    }
                    i = i + 1;
                }
                assert(votes@.take(i as int) =~= votes@);
                false
            },
            None => false,
        }
    }

    /// Casts the vote of `voter` on a request: it joins the votes on the
    /// request unless `voter` has cast the same vote before.
    pub fn vote(&mut self, voter: String, request_id: RequestId, vote: bool)
        ensures
            final(self)@ == old(self)@.vote_cast(voter, request_id, vote),
    {
        let mut votes = self.get_all_votes(request_id);
        let mut known: bool = false;
        let mut i: usize = 0;
        while i < votes.len()
            invariant
                i <= votes@.len(),
                known == has_cast(votes@.take(i as int), voter@, vote),
            decreases votes@.len() - i,
        {
            proof {
                let seen = votes@.take(i + 1);
                let before = votes@.take(i as int);
                if has_cast(before, voter@, vote) {
                    let k = choose|k: int|
                        0 <= k < before.len() && (#[trigger] before[k]).owner_id@ == voter@
                            && before[k].result == vote;
                    assert(seen[k].owner_id@ == voter@ && seen[k].result == vote);
                }
                if has_cast(seen, voter@, vote) {
                    let k = choose|k: int|
                        0 <= k < seen.len() && (#[trigger] seen[k]).owner_id@ == voter@
                            && seen[k].result == vote;
                    if k < i {
                        assert(before[k].owner_id@ == voter@ && before[k].result == vote);
                    }
                }
                if votes@[i as int].owner_id@ == voter@ && votes@[i as int].result == vote {
                    assert(seen[i as int].owner_id@ == voter@ && seen[i as int].result == vote);
                }
            }
            if votes[i].owner_id == voter && votes[i].result == vote {
                known = true;
            }
            i = i + 1;
        }
        proof {
            assert(votes@.take(i as int) =~= votes@);
        }
        if !known {
            votes.push(Vote { owner_id: voter, result: vote });
        }
        self.votes.put(request_id, votes);
    }

    /// Turns a request down and drops the votes on it.
    pub fn reject_request(&mut self, request_id: RequestId)
        requires
            lookup(old(self)@.requests, request_id) is Some,
        ensures
            final(self)@ == old(self)@.decided(request_id, RequestStatus::REJECTED),
    {
        self.update_request_status(&request_id, RequestStatus::REJECTED);
        self.votes.delete(&request_id);
    }

    /// Accepts a request and drops the votes on it.
    pub fn approve_request(&mut self, request_id: RequestId)
        requires
            lookup(old(self)@.requests, request_id) is Some,
        ensures
            final(self)@ == old(self)@.decided(request_id, RequestStatus::APPROVED),
    {
        self.update_request_status(&request_id, RequestStatus::APPROVED);
        self.votes.delete(&request_id);
    }

    /// Gives a request another status.
    fn update_request_status(&mut self, request_id: &RequestId, new_status: RequestStatus)
        requires
            lookup(old(self)@.requests, *request_id) is Some,
        ensures
            final(self)@ == (BallotState {
                requests: put(
                    old(self)@.requests,
                    *request_id,
                    Request { status: new_status, ..lookup(old(self)@.requests, *request_id)->0 },
                ),
                ..old(self)@
            }),
    {
        if let Some(found) = self.requests.get(request_id) {
            let mut request = found.clone();
            request.status = new_status;
            self.requests.put(*request_id, request);
        }
    }
}

} // verus!
