use near_sdk::{MockedBlockchain, RuntimeFeesConfig, VMConfig, VMContext};
use orderbook::ballot::{BallotHandler, UserRequest};
use orderbook::request::{Request, RequestStatus, Vote};
use orderbook::table::Table;

fn alice() -> String {
    "alice.near".to_string()
}
fn bob() -> String {
    "bob.near".to_string()
}

fn test_user_request() -> UserRequest {
    UserRequest {
        token_id: "XDHO".to_string(),
        title: "Тестовое название".to_string(),
        description: "ПРИВЕТИКИ".to_string(),
        price: 23,
        supply: 100000,
        hash: "сосисочка".to_string(),
    }
}

fn test_request() -> Request {
    Request {
        id: 0,
        token_id: "XDHO".to_string(),
        title: "Тестовое название".to_string(),
        description: "ПРИВЕТИКИ".to_string(),
        price: 23,
        supply: 100000,
        status: RequestStatus::PENDING,
        created_time: 0,
        owner_id: bob(),
        hash: "сосисочка".to_string(),
    }
}

fn get_context(predecessor_account_id: String) -> VMContext {
    get_extend_context(predecessor_account_id, bob())
}

fn get_extend_context(predecessor_account_id: String, signer: String) -> VMContext {
    VMContext {
        current_account_id: alice(),
        signer_account_id: signer,
        signer_account_pk: vec![0, 1, 2],
        predecessor_account_id,
        input: vec![],
        block_index: 0,
        block_timestamp: 0,
        account_balance: 100,
        account_locked_balance: 0,
        storage_usage: 10u64.pow(6),
        attached_deposit: 0,
        prepaid_gas: 10u64.pow(18),
        random_seed: vec![0, 1, 2],
        is_view: false,
        output_data_receivers: vec![],
        epoch_height: 0,
    }
}

/// Puts a host with the given context behind the calls that the library
/// makes.
fn testing_env(context: VMContext) {
    near_sdk::env::set_blockchain_interface(Box::new(MockedBlockchain::new(
        context,
        VMConfig::default(),
        RuntimeFeesConfig::default(),
        vec![],
        Default::default(),
        Default::default(),
        None,
    )));
}

fn get_handler_with_requests() -> BallotHandler {
    let mut handler = BallotHandler::new();
    handler.add_new_request(
        near_sdk::env::predecessor_account_id(),
        near_sdk::env::block_timestamp(),
        test_user_request(),
    );
    handler
}

#[test]
fn get_new_request() {
    testing_env(get_context(bob()));
    let handler = get_handler_with_requests();
    assert_eq!(handler.get_all_requests()[0], test_request());
}

#[test]
fn get_new_vote() {
    testing_env(get_context(bob()));
    let mut handler = get_handler_with_requests();

    assert_eq!(handler.is_vote(0, bob()), false);

    handler.vote(near_sdk::env::predecessor_account_id(), 0, true);
    assert_eq!(
        handler.get_all_votes(0)[0],
        Vote {
            owner_id: bob(),
            result: true
        }
    );
    assert_eq!(handler.is_vote(0, bob()), true);

    handler.vote(near_sdk::env::predecessor_account_id(), 0, false);
    assert_eq!(
        handler.get_all_votes(0)[0],
        Vote {
            owner_id: bob(),
            result: true
        }
    );
    assert_eq!(handler.is_vote(0, bob()), true);
}

#[test]
fn test_reject_request() {
    testing_env(get_context(bob()));
    let mut handler = get_handler_with_requests();
    handler.vote(near_sdk::env::predecessor_account_id(), 0, true);

    assert_eq!(
        handler.get_request(0).unwrap().status,
        RequestStatus::PENDING
    );
    handler.reject_request(0);
    assert_eq!(
        handler.get_request(0).unwrap().status,
        RequestStatus::REJECTED
    );
    assert_eq!(handler.get_all_votes(0).len(), 0);
}

#[test]
fn test_approve_request() {
    testing_env(get_context(bob()));
    let mut handler = get_handler_with_requests();
    handler.vote(near_sdk::env::predecessor_account_id(), 0, true);

    assert_eq!(
        handler.get_request(0).unwrap().status,
        RequestStatus::PENDING
    );
    handler.approve_request(0);
    assert_eq!(
        handler.get_request(0).unwrap().status,
        RequestStatus::APPROVED
    );
    assert_eq!(handler.get_all_votes(0).len(), 0);
}

#[test]
fn requests_are_numbered_from_zero() {
    let mut handler = BallotHandler::new();
    assert_eq!(handler.next_request_id(), 0);
    handler.add_new_request(bob(), 7, test_user_request());
    handler.add_new_request(alice(), 9, test_user_request());
    let requests = handler.get_all_requests();
    assert_eq!(requests.len(), 2);
    assert_eq!((requests[0].id, requests[0].created_time), (0, 7));
    assert_eq!((requests[1].id, requests[1].created_time), (1, 9));
    assert_eq!(requests[1].owner_id, "alice.near");
    assert_eq!(requests[1].status, RequestStatus::PENDING);
    assert_eq!(handler.next_request_id(), 2);
    assert!(handler.get_request(2).is_none());
}

#[test]
fn votes_are_kept_in_the_order_in_which_they_were_cast() {
    let mut handler = BallotHandler::new();
    handler.add_new_request(bob(), 0, test_user_request());
    handler.vote(bob(), 0, false);
    handler.vote(alice(), 0, true);
    // the same vote again changes nothing
    handler.vote(bob(), 0, false);
    let votes = handler.get_all_votes(0);
    assert_eq!(votes.len(), 2);
    assert_eq!((votes[0].owner_id.as_str(), votes[0].result), ("bob.near", false));
    assert_eq!((votes[1].owner_id.as_str(), votes[1].result), ("alice.near", true));
    assert!(handler.is_vote(0, alice()));
    assert!(!handler.is_vote(0, "carol.near".to_string()));
    assert!(!handler.is_vote(1, bob()));
    assert!(handler.get_all_votes(1).is_empty());
}

#[test]
fn ballot_is_put_together_from_its_parts() {
    assert!(BallotHandler::from_parts(Table::new(), Table::new(), 1000001).is_none());
    let mut requests = Table::new();
    requests.put(4, test_request());
    let mut votes = Table::new();
    votes.put(4, vec![Vote { owner_id: bob(), result: true }]);
    let mut handler = BallotHandler::from_parts(requests, votes, 1000000).unwrap();
    assert!(handler.is_vote(4, bob()));
    assert_eq!(handler.next_request_id(), 1000000);
    handler.add_new_request(bob(), 0, test_user_request());
    // the numbers start over
    assert_eq!(handler.next_request_id(), 0);
    assert_eq!(handler.get_request(1000000).unwrap().owner_id, "bob.near");
}
