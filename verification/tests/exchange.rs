use near_sdk::{MockedBlockchain, Promise, RuntimeFeesConfig, VMConfig, VMContext};
use orderbook::account::TokenAccount;
use orderbook::ballot::UserRequest;
use orderbook::contract::Contract;
use orderbook::host::CallContext;
use orderbook::ballot::StakeInfo;
use std::ops::{Deref, DerefMut};
use orderbook::ledger::LedgerError;
use orderbook::domain::{OrderSide, OrderType};
use orderbook::orderbook::{Failed, QueueParts, Success};
use orderbook::settlement::{keyed_fills, Fill};
use orderbook::token::{Token, TokenMetadata};
use orderbook::wallet::TokenWallet;

fn standart_token() -> Token {
    Token {
        token_id: "XDHO".to_string(),
        owner_id: carol().to_string(),
        supply: 100_000_000_000,
        meta: None,
        launched: false,
        launched_time: 0,
    }
}

fn test_token() -> Token {
    Token {
        token_id: "TEST".to_string(),
        owner_id: bob(),
        supply: 10000,
        meta: None,
        launched: false,
        launched_time: 0,
    }
}

fn alice() -> String {
    "alice.near".to_string()
}

fn bob() -> String {
    "bob.near".to_string()
}

fn ivan() -> String {
    "ivan.near".to_string()
}

fn carol() -> String {
    "carol.near".to_string()
}

fn get_context(predecessor_account_id: String) -> VMContext {
    get_extend_context(predecessor_account_id, bob())
}

fn get_extend_context(predecessor_account_id: String, signer: String) -> VMContext {
    VMContext {
        current_account_id: alice(),
        signer_account_id: signer,
        signer_account_pk: vec![0, 1, 2],
        predecessor_account_id,
        input: vec![],
        block_index: 0,
        block_timestamp: 0,
        account_balance: 100,
        account_locked_balance: 0,
        storage_usage: 10u64.pow(6),
        attached_deposit: 0,
        prepaid_gas: 10u64.pow(18),
        random_seed: vec![0, 1, 2],
        is_view: false,
        output_data_receivers: vec![],
        epoch_height: 0,
    }
}

/// Puts a host with the given context behind the calls that the library
/// makes.
fn testing_env(context: VMContext) {
    near_sdk::env::set_blockchain_interface(Box::new(MockedBlockchain::new(
        context,
        VMConfig::default(),
        RuntimeFeesConfig::default(),
        vec![],
        Default::default(),
        Default::default(),
        None,
    )));
}

/// Price in ticks of a price in units.
fn ticks(price: f64) -> u128 {
    (price * 100.0).round() as u128
}

/// Who calls, in whose name and when, as the host has it.
fn call_context() -> CallContext {
    CallContext {
        predecessor: near_sdk::env::predecessor_account_id(),
        signer: near_sdk::env::signer_account_id(),
        current: near_sdk::env::current_account_id(),
        now: near_sdk::env::block_timestamp(),
    }
}

/// The exchange behind its entry points: each of them reads from the host
/// who calls and when, and hands that to the library.
struct Exchange {
    engine: Contract,
}

impl Deref for Exchange {
    type Target = Contract;

    fn deref(&self) -> &Contract {
        &self.engine
    }
}

impl DerefMut for Exchange {
    fn deref_mut(&mut self) -> &mut Contract {
        &mut self.engine
    }
}

type Events = Vec<Result<Success, Failed>>;

impl Exchange {
    fn new(owner_id: String) -> Exchange {
        Exchange {
            engine: Contract::new(owner_id).unwrap(),
        }
    }

    fn add_token(&mut self, token: Token) -> Result<(), LedgerError> {
        self.engine.add_token(&call_context().predecessor, token)
    }

    fn set_allowance(&mut self, escrow: String, token: String, allowance: u128) -> Result<(), LedgerError> {
        self.engine
            .set_allowance(&call_context().predecessor, &escrow, &token, allowance)
    }

    fn transfer_from(&mut self, owner: String, new_owner: String, token: String, amount: u128) -> Result<(), LedgerError> {
        self.engine
            .transfer_from(&call_context().predecessor, &owner, &new_owner, &token, amount)
    }

    fn transfer(&mut self, new_owner: String, token: String, amount: u128) -> Result<(), LedgerError> {
        self.engine
            .transfer(&call_context().predecessor, &new_owner, &token, amount)
    }

    fn pay_standard_token(&mut self, amount: u128, to: String) -> Result<(), LedgerError> {
        self.engine
            .pay_standard_token(&call_context().predecessor, amount, &to)
    }

    fn get_balance(&self, owner: String, token: String) -> u128 {
        self.engine.get_balance(owner, token).unwrap()
    }

    fn get_balances(&self, owner: String, tokens: Vec<String>) -> Vec<(String, u128)> {
        self.engine.get_balances(owner, tokens).unwrap()
    }

    fn get_allowance(&self, owner: String, escrow: String, token: String) -> u128 {
        self.engine.get_allowance(owner, escrow, token).unwrap()
    }

    fn get_wallet(&self, owner: &String) -> TokenWallet {
        self.engine.get_wallet(owner).unwrap()
    }

    fn new_limit_order(&mut self, token: String, price: u128, quantity: u128, side: String) -> Result<Events, LedgerError> {
        self.engine
            .new_limit_order(&call_context(), token, price, quantity, side)
    }

    fn new_ask_limit_order(&mut self, token: String, price: u128, quantity: u128) -> Result<Events, LedgerError> {
        self.engine
            .new_ask_limit_order(&call_context(), token, price, quantity)
    }

    fn new_bid_limit_order(&mut self, token: String, price: u128, quantity: u128) -> Result<Events, LedgerError> {
        self.engine
            .new_bid_limit_order(&call_context(), token, price, quantity)
    }

    fn new_market_order(&mut self, token: String, quantity: u128, side: String) -> Result<Events, LedgerError> {
        self.engine
            .new_market_order(&call_context(), token, quantity, side)
    }

    fn cancel_limit_order(&mut self, token: String, id: u64, side: String) -> Result<Events, LedgerError> {
        self.engine
            .cancel_limit_order(&call_context(), token, id, side)
    }

    fn stake(&mut self, amount: u128) -> Result<(), LedgerError> {
        let context = call_context();
        self.engine.stake(&context.predecessor, context.now, amount)
    }

    fn unstake(&mut self, payout: u128) -> Result<(), LedgerError> {
        self.engine.unstake(&call_context().predecessor, payout)
    }

    fn get_staking(&self, owner: String) -> StakeInfo {
        self.engine
            .get_staking(&owner, near_sdk::env::block_timestamp())
            .unwrap()
    }

    fn add_new_request(&mut self, request: UserRequest) -> Result<(), LedgerError> {
        let context = call_context();
        self.engine
            .add_new_request(context.predecessor, context.now, request)
    }

    fn vote(&mut self, request_id: u64, vote: bool) -> Result<(), LedgerError> {
        let context = call_context();
        self.engine
            .vote(context.predecessor, context.now, request_id, vote)
    }

    fn finalize(&mut self, request_id: u64) -> Result<(), LedgerError> {
        self.engine
            .finalize(near_sdk::env::block_timestamp(), request_id)
    }
}

fn init_contract_with_tokens() -> Exchange {
    let context = get_context(bob());
    testing_env(context);

    let mut contract = Exchange::new(bob());
    assert_eq!(
        contract.get_balance(bob(), standart_token().token_id),
        standart_token().supply
    );

    contract.add_token(test_token()).unwrap();
    let balance = contract.get_balance(bob(), test_token().token_id);
    assert_eq!(balance, 10000u128);
    contract
}

#[test]
fn test_new() {
    let context = get_context(carol());
    testing_env(context);

    let contract = Exchange::new(bob());
    assert_eq!(
        contract.get_balance(bob(), standart_token().token_id),
        standart_token().supply
    );
}

#[test]
fn test_transfer() {
    let context = get_context(carol());
    testing_env(context);
    let total_supply = standart_token().supply;
    let mut contract = Exchange::new(carol());
    let transfer_amount = total_supply / 3;
    contract
        .transfer(bob(), standart_token().token_id, transfer_amount)
        .unwrap();
    assert_eq!(
        contract.get_balance(carol(), standart_token().token_id),
        (total_supply - transfer_amount)
    );
    assert_eq!(
        contract.get_balance(bob(), standart_token().token_id),
        transfer_amount
    );
}

#[test]
fn test_wallets() {
    let context = get_context(carol());
    testing_env(context);
    let mut contract = Exchange::new(carol());

    contract.pay_standard_token(3, bob()).unwrap();
    // what the entry point of the exchange sends along through the host
    Promise::new(bob()).transfer(3);
    assert_eq!(near_sdk::env::account_balance(), 97);
    let balance = contract.get_balance(bob(), standart_token().token_id);
    let account = contract
        .get_wallet(&bob())
        .get_account(&standart_token().token_id);

    assert_eq!(account.unwrap().balance, 156u128);
    assert_eq!(balance, 156u128);
}

#[test]
fn test_pay() {
    let context = get_context(carol());
    testing_env(context);
    let mut contract = Exchange::new(carol());

    contract.pay_standard_token(3, bob()).unwrap();
    // what the entry point of the exchange sends along through the host
    Promise::new(bob()).transfer(3);
    assert_eq!(near_sdk::env::account_balance(), 97);
    let balance = contract.get_balance(bob(), standart_token().token_id);
    assert_eq!(balance, 156u128);
}

#[test]
fn test_self_allowance_fail() {
    let context = get_context(carol());
    testing_env(context);
    let total_supply = standart_token().supply;
    let mut contract = Exchange::new(carol());
    let refused = contract.set_allowance(carol(), standart_token().token_id, total_supply / 2);
    assert_eq!(refused, Err(LedgerError::SelfAllowance));
    // nothing was stored
    assert_eq!(
        contract.get_allowance(carol(), carol(), standart_token().token_id),
        0
    );
    assert_eq!(
        contract.get_balance(carol(), standart_token().token_id),
        total_supply
    );
}

#[test]
fn test_carol_add_new_token() {
    // Acting as carol
    testing_env(get_context(carol()));
    let total_supply = 10000;
    let mut contract = Exchange::new(carol());

    contract
        .add_token(Token {
            token_id: test_token().token_id,
            supply: test_token().supply,
            owner_id: carol(),
            meta: None,
            launched: false,
            launched_time: 0,
        })
        .unwrap();
    let balance = contract.get_balance(carol(), test_token().token_id);
    assert_eq!(balance, 10000u128);

    let allowance = total_supply / 3;
    let transfer_amount = allowance / 3;
    contract
        .set_allowance(bob(), test_token().token_id, allowance)
        .unwrap();
    assert_eq!(
        contract.get_allowance(carol(), bob(), test_token().token_id),
        allowance
    );
    // Acting as bob now
    testing_env(get_context(bob()));
    contract
        .transfer_from(carol(), alice(), test_token().token_id, transfer_amount)
        .unwrap();
    assert_eq!(
        contract.get_balance(carol(), test_token().token_id),
        total_supply - transfer_amount
    );
    assert_eq!(
        contract.get_balance(alice(), test_token().token_id),
        transfer_amount
    );
    // an allowance is one of the asset that it was set for
    assert_eq!(
        contract.get_allowance(carol(), bob(), test_token().token_id),
        allowance - transfer_amount
    );
    assert_eq!(
        contract.get_allowance(carol(), bob(), standart_token().token_id),
        0
    );
}

#[test]
fn test_carol_escrows_to_bob_transfers_to_alice() {
    // Acting as carol
    testing_env(get_context(carol()));
    let total_supply = standart_token().supply;
    let mut contract = Exchange::new(carol());
    assert_eq!(contract.get_total_supply(), total_supply);
    let allowance = total_supply / 3;
    let transfer_amount = allowance / 3;
    contract
        .set_allowance(bob(), standart_token().token_id, allowance)
        .unwrap();
    assert_eq!(
        contract.get_allowance(carol(), bob(), standart_token().token_id),
        allowance
    );
    // Acting as bob now
    testing_env(get_context(bob()));
    contract
        .transfer_from(carol(), alice(), standart_token().token_id, transfer_amount)
        .unwrap();
    assert_eq!(
        contract.get_balance(carol(), standart_token().token_id),
        total_supply - transfer_amount
    );
    assert_eq!(
        contract.get_balance(alice(), standart_token().token_id),
        transfer_amount
    );
    assert_eq!(
        contract.get_allowance(carol(), bob(), standart_token().token_id),
        allowance - transfer_amount
    );
}

fn print_all_balances(contract: &Exchange, account: String) {
    for (token, balance) in contract.get_balances(
        account.clone(),
        [standart_token().token_id, test_token().token_id].to_vec(),
    ) {
        println!("Acc:{} token: {} balance: {}", account, token, balance);
    }
}

fn init_contract_with_tokens_and_limit_bids() -> Exchange {
    let mut contract = init_contract_with_tokens();
    contract
        .new_limit_order(test_token().token_id, ticks(5.0), 100, "Ask".to_string())
        .unwrap();
    contract
        .new_limit_order(test_token().token_id, ticks(6.0), 200, "Ask".to_string())
        .unwrap();
    contract
        .new_limit_order(test_token().token_id, ticks(10.0), 300, "Ask".to_string())
        .unwrap();
    contract
        .new_limit_order(test_token().token_id, ticks(11.0), 500, "Ask".to_string())
        .unwrap();
    contract
        .new_limit_order(test_token().token_id, ticks(16.0), 1000, "Ask".to_string())
        .unwrap();
    contract
        .new_limit_order(test_token().token_id, ticks(3.0), 20, "Bid".to_string())
        .unwrap();
    contract
        .new_limit_order(test_token().token_id, ticks(2.0), 40, "Bid".to_string())
        .unwrap();
    contract
        .new_limit_order(test_token().token_id, ticks(1.0), 100, "Bid".to_string())
        .unwrap();

    contract
        .transfer(carol(), standart_token().token_id, 1000u128)
        .unwrap();
    contract
        .transfer(ivan(), standart_token().token_id, 1000u128)
        .unwrap();
    contract
        .transfer(carol(), test_token().token_id, 1000u128)
        .unwrap();
    contract
        .transfer(ivan(), test_token().token_id, 1000u128)
        .unwrap();

    let context = get_extend_context(carol(), carol());
    testing_env(context);
    contract
        .new_limit_order(test_token().token_id, ticks(5.0), 50, "Ask".to_string())
        .unwrap();
    contract
        .new_limit_order(test_token().token_id, ticks(4.0), 30, "Ask".to_string())
        .unwrap();
    contract
        .new_limit_order(test_token().token_id, ticks(1.0), 100, "Bid".to_string())
        .unwrap();

    let spread = contract
        .get_current_spread(test_token().token_id)
        .unwrap();
    println!("Spread => Ask: {}, Bid: {}", spread[1], spread[0]);
    assert_eq!(spread[1], ticks(4.0));
    assert_eq!(spread[0], ticks(3.0));
    contract
}

#[test]
fn new_limit_order() {
    testing_env(get_context(bob()));
    let mut contract = init_contract_with_tokens();

    // Currrent Spread
    let spread = contract
        .get_current_spread(test_token().token_id)
        .unwrap();
    println!("Spread => Ask: {}, Bid: {}", spread[1], spread[0]);
    assert_eq!(spread[1], ticks(0.0));
    assert_eq!(spread[0], ticks(0.0));

    let std_balance = contract.get_balance(bob(), standart_token().token_id);
    let test_balance = contract.get_balance(bob(), test_token().token_id);
    // Ask Order
    contract
        .new_limit_order(test_token().token_id, ticks(1.25), 2, "Ask".to_string())
        .unwrap();
    // Bid Order
    contract
        .new_limit_order(test_token().token_id, ticks(1.22), 50, "Bid".to_string())
        .unwrap();
    contract
        .new_limit_order(test_token().token_id, ticks(1.20), 50, "Bid".to_string())
        .unwrap();

    assert_eq!(
        contract.get_balance(alice(), standart_token().token_id)
            + contract.get_balance(bob(), standart_token().token_id),
        std_balance
    );
    assert_eq!(
        contract.get_balance(alice(), test_token().token_id)
            + contract.get_balance(bob(), test_token().token_id),
        test_balance
    );
    let spread = contract
        .get_current_spread(test_token().token_id)
        .unwrap();
    println!("Spread => Ask: {}, Bid: {}", spread[1], spread[0]);
    assert_eq!(spread[1], ticks(1.25));
    assert_eq!(spread[0], ticks(1.22));
}

#[test]
fn matching_limit_order() {
    let mut contract = init_contract_with_tokens_and_limit_bids();
    let context = get_extend_context(ivan(), ivan());
    testing_env(context);

    assert_eq!(
        contract.get_balance(ivan(), standart_token().token_id),
        1000u128
    );
    assert_eq!(contract.get_balance(bob(), test_token().token_id), 5900u128);
    contract
        .new_limit_order(test_token().token_id, ticks(1.0), 50, "Ask".to_string())
        .unwrap();
    assert_eq!(
        contract.get_balance(ivan(), standart_token().token_id),
        1120u128
    );
    assert_eq!(contract.get_balance(bob(), test_token().token_id), 5950u128);

    let spread = contract
        .get_current_spread(test_token().token_id)
        .unwrap();
    println!("Spread => Ask: {}, Bid: {}", spread[1], spread[0]);
    assert_eq!(spread[1], ticks(4.0));
    assert_eq!(spread[0], ticks(2.0));

    print_all_balances(&contract, ivan());
    contract
        .new_limit_order(test_token().token_id, ticks(5.0), 50, "Bid".to_string())
        .unwrap();
    print_all_balances(&contract, bob());
    print_all_balances(&contract, ivan());
    assert_eq!(
        contract.get_balance(bob(), standart_token().token_id),
        99999997860u128
    );
    assert_eq!(contract.get_balance(ivan(), test_token().token_id), 1000u128);
    let spread = contract
        .get_current_spread(test_token().token_id)
        .unwrap();
    println!("Spread => Ask: {}, Bid: {}", spread[1], spread[0]);
    assert_eq!(spread[1], ticks(5.0));
    assert_eq!(spread[0], ticks(2.0));
}

#[test]
fn matching_market_order() {
    let mut contract = init_contract_with_tokens_and_limit_bids();
    let context = get_extend_context(ivan(), ivan());
    testing_env(context);

    assert_eq!(
        contract.get_balance(ivan(), standart_token().token_id),
        1000u128
    );
    assert_eq!(contract.get_balance(bob(), test_token().token_id), 5900u128);
    contract
        .new_market_order(test_token().token_id, 50, "Ask".to_string())
        .unwrap();
    assert_eq!(
        contract.get_balance(ivan(), standart_token().token_id),
        1120u128
    );
    assert_eq!(contract.get_balance(bob(), test_token().token_id), 5950u128);
    print_all_balances(&contract, bob());
    print_all_balances(&contract, ivan());

    let spread = contract
        .get_current_spread(test_token().token_id)
        .unwrap();
    println!("Spread => Ask: {}, Bid: {}", spread[1], spread[0]);
    assert_eq!(spread[1], ticks(4.0));
    assert_eq!(spread[0], ticks(2.0));

    // the exchange draws the price of a market bid from the trader
    contract
        .set_allowance(alice(), standart_token().token_id, 220)
        .unwrap();
    contract
        .new_market_order(test_token().token_id, 50, "Bid".to_string())
        .unwrap();

    print_all_balances(&contract, ivan());
    let spread = contract
        .get_current_spread(test_token().token_id)
        .unwrap();
    println!("Spread => Ask: {}, Bid: {}", spread[1], spread[0]);
    assert_eq!(spread[1], ticks(5.0));
    assert_eq!(spread[0], ticks(2.0));
    assert_eq!(
        contract.get_balance(ivan(), standart_token().token_id),
        900u128
    );
    assert_eq!(contract.get_balance(ivan(), test_token().token_id), 1000u128);
    assert_eq!(
        contract.get_allowance(ivan(), alice(), standart_token().token_id),
        0
    );
}

#[test]
fn cansel_limit_order() {
    let mut contract = init_contract_with_tokens_and_limit_bids();

    let context = get_extend_context(bob(), bob());
    testing_env(context);

    contract
        .cancel_limit_order(test_token().token_id, 6, "Bid".to_string())
        .unwrap();

    let spread = contract
        .get_current_spread(test_token().token_id)
        .unwrap();
    println!("Spread => Ask: {}, Bid: {}", spread[1], spread[0]);
    assert_eq!(spread[1], ticks(4.0));
    assert_eq!(spread[0], ticks(2.0));
}

fn context(predecessor: &str, signer: &str, now: u64) -> CallContext {
    CallContext {
        predecessor: predecessor.to_string(),
        signer: signer.to_string(),
        current: alice(),
        now,
    }
}

fn xdho() -> String {
    "XDHO".to_string()
}

fn test_id() -> String {
    "TEST".to_string()
}

/// What the four accounts of these tests hold of an asset, taken together.
fn held(contract: &Exchange, token: &str) -> u128 {
    [alice(), bob(), carol(), ivan()]
        .into_iter()
        .map(|owner| contract.get_balance(owner, token.to_string()))
        .sum()
}

#[test]
fn account_files_allowances_under_the_hash_of_the_principal() {
    testing_env(get_context(carol()));
    let mut account = TokenAccount::new();
    assert_eq!(account.get_allowance(&bob()), Ok(0));
    account.set_allowance(&bob(), 5).unwrap();
    assert_eq!(account.allowances.len(), 1);
    let digest: Vec<u8> = vec![
        36, 52, 20, 40, 85, 50, 133, 225, 14, 116, 165, 242, 111, 70, 56, 172, 83, 175, 178, 140,
        3, 42, 255, 26, 4, 144, 14, 110, 177, 21, 164, 4,
    ];
    assert_eq!(account.allowances.key_at(0), &digest);
    assert_eq!(*account.allowances.value_at(0), 5);
    assert_eq!(account.get_allowance(&bob()), Ok(5));
    assert_eq!(account.get_allowance(&carol()), Ok(0));
    account.set_allowance(&bob(), 7).unwrap();
    assert_eq!(account.allowances.len(), 1);
    assert_eq!(account.get_allowance(&bob()), Ok(7));
    // an allowance of nothing takes the entry out
    account.set_allowance(&bob(), 0).unwrap();
    assert_eq!(account.allowances.len(), 0);
    assert_eq!(account.get_allowance(&bob()), Ok(0));
}

#[test]
fn wallet_reads_absent_accounts_as_empty() {
    testing_env(get_context(carol()));
    let mut wallet = TokenWallet::new();
    assert!(wallet.get_account(&xdho()).is_none());
    let mut account = TokenAccount::new();
    account.balance = 12;
    wallet.set_account(&xdho(), &account);
    assert_eq!(wallet.get_account(&xdho()).unwrap().balance, 12);
    assert_eq!(
        wallet.get_balances(vec![test_id(), xdho(), test_id()]),
        vec![(test_id(), 0), (xdho(), 12), (test_id(), 0)]
    );
}

#[test]
fn transfer_is_refused_for_each_broken_rule() {
    testing_env(get_context(carol()));
    let mut contract = Exchange::new(carol());
    let before = contract.get_balance(carol(), xdho());

    // nothing to move
    assert_eq!(
        contract.engine.transfer_from(&carol(), &carol(), &bob(), &xdho(), 0),
        Err(LedgerError::ZeroTransfer)
    );
    // more than the owner holds
    assert_eq!(
        contract.engine.transfer_from(&carol(), &carol(), &bob(), &xdho(), before + 1),
        Err(LedgerError::NotEnoughBalance)
    );
    assert_eq!(
        contract.engine.transfer_from(&bob(), &bob(), &carol(), &xdho(), 1),
        Err(LedgerError::NotEnoughBalance)
    );
    // without an allowance, and with one that is too small
    assert_eq!(
        contract.engine.transfer_from(&bob(), &carol(), &bob(), &xdho(), 1),
        Err(LedgerError::NotEnoughAllowance)
    );
    contract
        .engine.set_allowance(&carol(), &bob(), &xdho(), 300)
        .unwrap();
    assert_eq!(
        contract.engine.transfer_from(&bob(), &carol(), &bob(), &xdho(), 301),
        Err(LedgerError::NotEnoughAllowance)
    );
    // nothing has moved
    assert_eq!(contract.get_balance(carol(), xdho()), before);
    assert_eq!(contract.get_balance(bob(), xdho()), 0);
    assert_eq!(contract.get_allowance(carol(), bob(), xdho()), 300);
}

#[test]
fn transfer_is_refused_where_the_recipient_cannot_hold_more() {
    testing_env(get_context(carol()));
    let mut contract = Exchange::new(carol());
    let big = |owner: String, supply: u128| Token {
        token_id: "BIG".to_string(),
        owner_id: owner,
        supply,
        meta: Some(TokenMetadata {
            title: Some("big".to_string()),
            description: None,
            icon: None,
        }),
        launched: true,
        launched_time: 1,
    };
    contract.add_token(big(bob(), u128::MAX)).unwrap();
    contract.add_token(big(ivan(), 5)).unwrap();
    assert_eq!(
        contract.engine.transfer_from(&ivan(), &ivan(), &bob(), &"BIG".to_string(), 1),
        Err(LedgerError::BalanceOverflow)
    );
    assert_eq!(contract.get_balance(ivan(), "BIG".to_string()), 5);
    // a transfer to oneself moves nothing and always fits
    assert_eq!(
        contract.engine.transfer_from(&bob(), &bob(), &bob(), &"BIG".to_string(), 9),
        Ok(())
    );
    assert_eq!(contract.get_balance(bob(), "BIG".to_string()), u128::MAX);
}

#[test]
fn escrowed_transfer_draws_on_the_allowance() {
    testing_env(get_context(carol()));
    let mut contract = Exchange::new(carol());
    contract
        .add_token(Token {
            token_id: "X".to_string(),
            owner_id: carol(),
            supply: 1000,
            meta: None,
            launched: false,
            launched_time: 0,
        })
        .unwrap();
    let x = "X".to_string();
    contract
        .engine.set_allowance(&carol(), &bob(), &x, 300)
        .unwrap();
    contract
        .engine.set_allowance(&carol(), &ivan(), &x, 40)
        .unwrap();
    assert_eq!(
        contract.engine.transfer_from(&bob(), &carol(), &alice(), &x, 100),
        Ok(())
    );
    assert_eq!(contract.get_balance(carol(), x.clone()), 900);
    assert_eq!(contract.get_balance(alice(), x.clone()), 100);
    assert_eq!(contract.get_allowance(carol(), bob(), x.clone()), 200);
    assert_eq!(contract.get_allowance(carol(), ivan(), x.clone()), 40);
    // the owner itself moves its funds without an allowance
    assert_eq!(
        contract.engine.transfer_from(&carol(), &carol(), &alice(), &x, 100),
        Ok(())
    );
    assert_eq!(contract.get_balance(carol(), x.clone()), 800);
    assert_eq!(contract.get_allowance(carol(), bob(), x.clone()), 200);
    assert_eq!(contract.get_allowance(carol(), ivan(), x.clone()), 40);
    // an allowance that is used up is gone
    assert_eq!(
        contract.engine.transfer_from(&ivan(), &carol(), &ivan(), &x, 40),
        Ok(())
    );
    assert_eq!(contract.get_allowance(carol(), ivan(), x.clone()), 0);
    assert_eq!(
        contract.engine.transfer_from(&ivan(), &carol(), &ivan(), &x, 1),
        Err(LedgerError::NotEnoughAllowance)
    );
    assert_eq!(held(&contract, "X"), 1000);
}

#[test]
fn self_allowance_is_refused_whatever_the_amount() {
    testing_env(get_context(carol()));
    let mut contract = Exchange::new(carol());
    assert_eq!(
        contract.engine.set_allowance(&carol(), &carol(), &xdho(), 50),
        Err(LedgerError::SelfAllowance)
    );
    assert_eq!(
        contract.engine.set_allowance(&carol(), &carol(), &xdho(), 0),
        Err(LedgerError::SelfAllowance)
    );
    assert_eq!(contract.get_allowance(carol(), carol(), xdho()), 0);
}

#[test]
fn only_the_owner_registers_assets() {
    testing_env(get_context(carol()));
    let mut contract = Exchange::new(bob());
    assert_eq!(contract.add_token(test_token()), Err(LedgerError::NotOwner));
    assert_eq!(contract.get_balance(bob(), test_id()), 0);
    assert_eq!(contract.get_tokens().len(), 1);
    assert_eq!(contract.engine.add_token(&bob(), test_token()), Ok(()));
    let tokens = contract.get_tokens();
    assert_eq!(tokens.len(), 2);
    assert_eq!(tokens[0].token_id, "XDHO");
    assert_eq!(tokens[0].supply, 100_000_000_000);
    assert_eq!(tokens[1].token_id, "TEST");
    assert_eq!(contract.get_standard_token(), "XDHO");
    assert_eq!(contract.get_standard_price(), 52);
}

#[test]
fn orders_fail_for_a_bad_side_an_unknown_asset_and_a_price_out_of_range() {
    let mut contract = init_contract_with_tokens();
    let ctx = context("bob.near", "bob.near", 0);
    assert_eq!(Contract::parse_side(&"Ask".to_string()), Some(orderbook::domain::OrderSide::Ask));
    assert_eq!(Contract::parse_side(&"Bid".to_string()), Some(orderbook::domain::OrderSide::Bid));
    assert_eq!(Contract::parse_side(&"bid".to_string()), None);
    assert!(matches!(
        contract.engine.new_limit_order(&ctx, test_id(), 100, 1, "Buy".to_string()),
        Err(LedgerError::BadSide)
    ));
    assert!(matches!(
        contract.engine.new_market_order(&ctx, test_id(), 1, "".to_string()),
        Err(LedgerError::BadSide)
    ));
    assert!(matches!(
        contract.engine.cancel_limit_order(&ctx, test_id(), 1, "ask".to_string()),
        Err(LedgerError::BadSide)
    ));
    assert!(matches!(
        contract.engine.new_limit_order(&ctx, test_id(), u128::MAX, 2, "Bid".to_string()),
        Err(LedgerError::AmountOverflow)
    ));
    assert!(matches!(
        contract.engine.new_limit_order(&ctx, "NONE".to_string(), 100, 1, "Bid".to_string()),
        Err(LedgerError::UnknownToken)
    ));
    assert!(matches!(
        contract.engine.new_market_order(&ctx, "NONE".to_string(), 1, "Bid".to_string()),
        Err(LedgerError::UnknownToken)
    ));
    assert!(matches!(
        contract.engine.cancel_limit_order(&ctx, "NONE".to_string(), 1, "Bid".to_string()),
        Err(LedgerError::UnknownToken)
    ));
    assert!(matches!(
        contract.get_current_spread("NONE".to_string()),
        Err(LedgerError::UnknownToken)
    ));
    assert!(matches!(
        contract.get_ask_orders("NONE".to_string()),
        Err(LedgerError::UnknownToken)
    ));
    assert!(matches!(
        contract.get_orders(bob(), test_id(), "Sell".to_string()),
        Err(LedgerError::BadSide)
    ));
    // a bid that costs less than one unit has nothing to put in escrow
    assert!(matches!(
        contract.engine.new_limit_order(&ctx, test_id(), 1, 99, "Bid".to_string()),
        Err(LedgerError::ZeroTransfer)
    ));
    // an ask of more than the signer holds
    assert!(matches!(
        contract.engine.new_limit_order(&ctx, test_id(), 100, 10001, "Ask".to_string()),
        Err(LedgerError::NotEnoughBalance)
    ));
    // nothing was moved and no order was placed
    assert_eq!(contract.get_balance(bob(), test_id()), 10000);
    assert_eq!(contract.get_balance(alice(), test_id()), 0);
    assert!(contract.get_ask_orders(test_id()).unwrap().is_empty());
    assert!(contract.get_bid_orders(test_id()).unwrap().is_empty());
}

#[test]
fn cost_drops_what_is_left_of_a_unit() {
    assert_eq!(Contract::cost(125, 2), Some(2));
    assert_eq!(Contract::cost(122, 50), Some(61));
    assert_eq!(Contract::cost(99, 1), Some(0));
    assert_eq!(Contract::cost(0, 7), Some(0));
    assert_eq!(Contract::cost(u128::MAX, 1), Some(u128::MAX / 100));
    assert_eq!(Contract::cost(u128::MAX, 2), None);
}

#[test]
fn messages_of_the_ledger() {
    assert_eq!(LedgerError::ZeroTransfer.message(), "Can't transfer 0 tokens");
    assert_eq!(LedgerError::NotEnoughBalance.message(), "Not enough balance");
    assert_eq!(LedgerError::NotEnoughAllowance.message(), "Not enough allowance");
    assert_eq!(
        LedgerError::SelfAllowance.message(),
        "Can't set allowance for yourself"
    );
    assert_eq!(LedgerError::BalanceOverflow.message(), "Balance overflow");
    assert_eq!(LedgerError::AmountOverflow.message(), "Amount overflow");
    assert_eq!(LedgerError::UnknownToken.message(), "OrderBook not init!");
    assert_eq!(LedgerError::BadSide.message(), "Side not parsed!");
    assert_eq!(
        LedgerError::NotOwner.message(),
        "Only contract owner can sign transactions for this method."
    );
    assert_eq!(
        LedgerError::AlreadyStaked.message(),
        "You have staked tokens. First do the unstaking"
    );
    assert_eq!(
        LedgerError::NothingStaked.message(),
        "You did't have staked tokens. First do the staking"
    );
    assert_eq!(
        LedgerError::TokenExists.message(),
        "A token with this ID already exists"
    );
    assert_eq!(
        LedgerError::NoSuchRequest.message(),
        "There is no request with this id"
    );
    assert_eq!(LedgerError::VotingEnded.message(), "The voting has already ended");
    assert_eq!(
        LedgerError::AlreadyVoted.message(),
        "You have already voted for this request"
    );
    assert_eq!(LedgerError::VotingNotOver.message(), "The voting is not over yet");
}

#[test]
fn limit_orders_are_settled_through_the_escrow_of_the_exchange() {
    let mut contract = init_contract_with_tokens();
    contract.transfer(ivan(), xdho(), 1000).unwrap();
    let maker = context("bob.near", "bob.near", 1);
    let taker = context("ivan.near", "ivan.near", 2);

    let events = contract
        .engine.new_limit_order(&maker, test_id(), 500, 100, "Ask".to_string())
        .unwrap();
    assert_eq!(events.len(), 1);
    assert_eq!(contract.get_balance(bob(), test_id()), 9900);
    assert_eq!(contract.get_balance(alice(), test_id()), 100);

    // a bid at 6.00 for 30 reserves 180 and is filled at 5.00 for 150
    let events = contract
        .engine.new_limit_order(&taker, test_id(), 600, 30, "Bid".to_string())
        .unwrap();
    assert_eq!(events.len(), 3);
    assert!(matches!(&events[0], Ok(Success::Accepted { id: 2, ts: 2, .. })));
    assert!(matches!(
        &events[1],
        Ok(Success::Filled { order_id: 2, price: 500, qty: 30, order_creator, .. })
            if order_creator == "ivan.near"
    ));
    assert!(matches!(
        &events[2],
        Ok(Success::PartiallyFilled { order_id: 1, price: 500, qty: 30, order_creator, .. })
            if order_creator == "bob.near"
    ));
    assert_eq!(contract.get_balance(ivan(), xdho()), 1000 - 180);
    assert_eq!(contract.get_balance(ivan(), test_id()), 30);
    assert_eq!(contract.get_balance(bob(), xdho()), 100_000_000_000 - 1000 + 150);
    assert_eq!(contract.get_balance(alice(), xdho()), 30);
    assert_eq!(contract.get_balance(alice(), test_id()), 70);
    assert_eq!(held(&contract, "XDHO"), 100_000_000_000);
    assert_eq!(held(&contract, "TEST"), 10000);

    let asks = contract.get_ask_orders(test_id()).unwrap();
    assert_eq!(asks.len(), 1);
    assert_eq!((asks[0].order_id, asks[0].qty), (1, 70));
    let mine = contract
        .get_orders(bob(), test_id(), "Ask".to_string())
        .unwrap();
    assert_eq!(mine.len(), 1);
    assert!(contract
        .get_orders(ivan(), test_id(), "Ask".to_string())
        .unwrap()
        .is_empty());
}

#[test]
fn market_ask_on_an_empty_book_reports_no_match() {
    let mut contract = init_contract_with_tokens();
    let ctx = context("bob.near", "bob.near", 3);
    let events = contract
        .engine.new_market_order(&ctx, test_id(), 10, "Ask".to_string())
        .unwrap();
    assert_eq!(events.len(), 2);
    assert!(matches!(&events[0], Ok(Success::Accepted { id: 1, ts: 3, .. })));
    assert!(matches!(&events[1], Err(Failed::NoMatch(1))));
}

#[test]
fn market_bid_needs_the_allowance_of_the_trader() {
    let mut contract = init_contract_with_tokens();
    contract.transfer(ivan(), xdho(), 1000).unwrap();
    let maker = context("bob.near", "bob.near", 1);
    let taker = context("ivan.near", "ivan.near", 2);
    contract
        .engine.new_limit_order(&maker, test_id(), 500, 100, "Ask".to_string())
        .unwrap();

    assert!(matches!(
        contract.engine.new_market_order(&taker, test_id(), 10, "Bid".to_string()),
        Err(LedgerError::NotEnoughAllowance)
    ));
    // the failed call has left no trace
    assert_eq!(contract.get_balance(ivan(), xdho()), 1000);
    assert_eq!(contract.get_balance(ivan(), test_id()), 0);
    assert_eq!(contract.get_balance(alice(), test_id()), 100);
    let asks = contract.get_ask_orders(test_id()).unwrap();
    assert_eq!((asks.len(), asks[0].order_id, asks[0].qty), (1, 1, 100));

    contract
        .engine.set_allowance(&ivan(), &alice(), &xdho(), 60)
        .unwrap();
    let events = contract
        .engine.new_market_order(&taker, test_id(), 10, "Bid".to_string())
        .unwrap();
    assert_eq!(events.len(), 3);
    assert!(matches!(&events[0], Ok(Success::Accepted { id: 2, .. })));
    assert_eq!(contract.get_balance(ivan(), xdho()), 950);
    assert_eq!(contract.get_balance(ivan(), test_id()), 10);
    assert_eq!(contract.get_allowance(ivan(), alice(), xdho()), 10);
    assert_eq!(contract.get_balance(bob(), xdho()), 100_000_000_000 - 1000 + 50);
    assert_eq!(held(&contract, "XDHO"), 100_000_000_000);
    assert_eq!(held(&contract, "TEST"), 10000);
}

#[test]
fn failed_settlement_leaves_book_and_ledger_as_they_were() {
    let mut contract = init_contract_with_tokens();
    contract.transfer(ivan(), xdho(), 1000).unwrap();
    let maker = context("bob.near", "bob.near", 1);
    let taker = context("ivan.near", "ivan.near", 2);
    contract
        .engine.new_limit_order(&maker, test_id(), 500, 100, "Ask".to_string())
        .unwrap();
    contract
        .engine.new_limit_order(&maker, test_id(), 600, 100, "Ask".to_string())
        .unwrap();
    // enough for the first fill, not for the second
    contract
        .engine.set_allowance(&ivan(), &alice(), &xdho(), 500)
        .unwrap();
    assert!(matches!(
        contract.engine.new_market_order(&taker, test_id(), 150, "Bid".to_string()),
        Err(LedgerError::NotEnoughAllowance)
    ));
    assert_eq!(contract.get_balance(ivan(), xdho()), 1000);
    assert_eq!(contract.get_balance(ivan(), test_id()), 0);
    assert_eq!(contract.get_allowance(ivan(), alice(), xdho()), 500);
    assert_eq!(contract.get_balance(bob(), xdho()), 100_000_000_000 - 1000);
    let asks = contract.get_ask_orders(test_id()).unwrap();
    assert_eq!(asks.len(), 2);
    assert_eq!((asks[0].order_id, asks[0].qty), (1, 100));
    assert_eq!((asks[1].order_id, asks[1].qty), (2, 100));
    // the id of the failed order is handed out again
    let events = contract
        .engine.new_limit_order(&maker, test_id(), 700, 1, "Ask".to_string())
        .unwrap();
    assert!(matches!(&events[0], Ok(Success::Accepted { id: 3, .. })));
}

#[test]
fn order_that_the_book_refuses_reserves_nothing() {
    let mut contract = init_contract_with_tokens();
    let ctx = context("bob.near", "bob.near", 3);
    let events = contract
        .engine.new_limit_order(&ctx, test_id(), 0, 10, "Ask".to_string())
        .unwrap();
    assert_eq!(events.len(), 1);
    assert!(matches!(
        &events[0],
        Err(Failed::ValidationFailed(reason)) if reason == "price must be positive"
    ));
    assert_eq!(contract.get_balance(bob(), test_id()), 10000);
    assert_eq!(contract.get_balance(alice(), test_id()), 0);
    let events = contract
        .engine.new_market_order(&ctx, test_id(), 0, "Bid".to_string())
        .unwrap();
    assert!(matches!(
        &events[..],
        [Err(Failed::ValidationFailed(reason))] if reason == "quantity must be positive"
    ));
}

#[test]
fn limit_orders_by_side() {
    testing_env(get_context(bob()));
    let mut contract = init_contract_with_tokens();
    let events = contract
        .new_ask_limit_order(test_id(), ticks(2.5), 4)
        .unwrap();
    assert!(matches!(&events[..], [Ok(Success::Accepted { id: 1, .. })]));
    let events = contract
        .new_bid_limit_order(test_id(), ticks(1.5), 4)
        .unwrap();
    assert!(matches!(&events[..], [Ok(Success::Accepted { id: 2, .. })]));
    assert_eq!(
        contract.get_current_spread(test_id()).unwrap(),
        vec![150, 250]
    );
    assert_eq!(contract.get_ask_orders(test_id()).unwrap()[0].order_creator, "bob.near");
    assert_eq!(contract.get_bid_orders(test_id()).unwrap()[0].price, 150);
    // 1.50 times 4 is held for the bid, 4 units for the ask
    assert_eq!(contract.get_balance(alice(), xdho()), 6);
    assert_eq!(contract.get_balance(alice(), test_id()), 4);
}

#[test]
fn cancel_reports_whether_the_order_rested() {
    let mut contract = init_contract_with_tokens();
    let ctx = context("bob.near", "bob.near", 5);
    contract
        .engine.new_limit_order(&ctx, test_id(), 300, 7, "Ask".to_string())
        .unwrap();
    let events = contract
        .engine.cancel_limit_order(&ctx, test_id(), 1, "Bid".to_string())
        .unwrap();
    assert!(matches!(&events[..], [Err(Failed::OrderNotFound(1))]));
    let events = contract
        .engine.cancel_limit_order(&ctx, test_id(), 1, "Ask".to_string())
        .unwrap();
    assert!(matches!(&events[..], [Ok(Success::Cancelled { id: 1, ts: 5 })]));
    assert!(contract.get_ask_orders(test_id()).unwrap().is_empty());
}

#[test]
fn exchange_can_be_taken_apart_and_put_together() {
    let contract = init_contract_with_tokens_and_limit_bids();
    let mut rebuilt = Contract::empty(contract.owner_id().clone());
    for token in contract.get_tokens() {
        rebuilt.restore_token(token);
    }
    let wallets = contract.wallets();
    for w in 0..wallets.len() {
        let accounts = &wallets.value_at(w).accounts;
        for a in 0..accounts.len() {
            let account = accounts.value_at(a);
            let allowances = (0..account.allowances.len())
                .map(|i| {
                    (
                        account.allowances.key_at(i).clone(),
                        *account.allowances.value_at(i),
                    )
                })
                .collect();
            rebuilt.restore_account(
                wallets.key_at(w).clone(),
                accounts.key_at(a).clone(),
                account.balance,
                allowances,
            );
        }
    }
    let books = contract.order_books();
    for b in 0..books.len() {
        let book = books.value_at(b);
        let side = |side| {
            let queue = book.queue(side);
            QueueParts {
                op_counter: queue.op_counter(),
                index: queue.entries(),
                orders: queue
                    .live_index()
                    .into_iter()
                    .map(|key| (key.id, queue.get(key.id).unwrap().clone()))
                    .collect(),
            }
        };
        assert!(rebuilt.restore_book(
            books.key_at(b).clone(),
            book.next_order_id(),
            side(orderbook::domain::OrderSide::Bid),
            side(orderbook::domain::OrderSide::Ask),
        ));
    }
    for s in 0..contract.staking().len() {
        rebuilt.restore_stake(
            contract.staking().key_at(s).clone(),
            *contract.staking().value_at(s),
        );
    }
    let none = || QueueParts {
        op_counter: 0,
        index: vec![],
        orders: vec![],
    };
    assert!(!rebuilt.restore_book("BAD".to_string(), 0, none(), none()));
    assert!(!rebuilt.restore_book("BAD".to_string(), 1001, none(), none()));
    // an order without an entry in the index
    let lost = QueueParts {
        op_counter: 0,
        index: vec![],
        orders: contract.get_bid_orders(test_id()).unwrap().into_iter().map(|order| (order.order_id, order)).collect(),
    };
    assert!(!rebuilt.restore_book("BAD".to_string(), 1, lost, none()));
    assert!(rebuilt.order_books().get(&"BAD".to_string()).is_none());

    let show = |contract: &Exchange| {
        let mut log = Vec::new();
        for owner in [alice(), bob(), carol(), ivan()] {
            log.push(format!(
                "{:?}",
                contract.get_balances(owner, vec![xdho(), test_id()])
            ));
        }
        log.push(format!("{:?}", contract.get_ask_orders(test_id())));
        log.push(format!("{:?}", contract.get_bid_orders(test_id())));
        log.push(format!("{:?}", contract.get_ask_orders(xdho())));
        log.push(format!("{:?}", contract.get_tokens()));
        log.push(format!(
            "{:?}",
            contract
                .order_books()
                .get(&test_id())
                .map(|book| book.next_order_id())
        ));
        log
    };
    let rebuilt = Exchange { engine: rebuilt };
    assert_eq!(show(&contract), show(&rebuilt));
    assert!(contract.get_standard_token() == rebuilt.get_standard_token());
}

#[test]
fn same_calls_give_the_same_exchange() {
    let run = || {
        let contract = init_contract_with_tokens_and_limit_bids();
        let mut log = Vec::new();
        for owner in [alice(), bob(), carol(), ivan()] {
            log.push(format!(
                "{:?}",
                contract.get_balances(owner, vec![xdho(), test_id()])
            ));
        }
        log.push(format!("{:?}", contract.get_ask_orders(test_id())));
        log.push(format!("{:?}", contract.get_bid_orders(test_id())));
        log.push(format!("{:?}", contract.get_tokens()));
        log
    };
    assert_eq!(run(), run());
}

#[test]
fn ledger_moves_funds_between_keys() {
    // keys are taken as they are given: no host is asked
    let mut contract = Contract::empty(carol());
    let (a, b, c) = (vec![1u8], vec![2u8, 2], vec![]);
    let mut account = TokenAccount::new();
    account.balance = 1000;
    account.set_allowance_for(b.clone(), 300);
    contract.set_account_at(a.clone(), &account, &xdho());
    assert_eq!(contract.account_at(&a, &xdho()).balance, 1000);
    assert_eq!(contract.account_at(&a, &test_id()).balance, 0);
    assert_eq!(contract.wallet_at(&b).accounts.len(), 0);

    // drawn by b from a for c
    assert_eq!(
        contract.transfer_between(Some(b.clone()), a.clone(), c.clone(), &xdho(), 100),
        Ok(())
    );
    assert_eq!(contract.account_at(&a, &xdho()).balance, 900);
    assert_eq!(contract.account_at(&c, &xdho()).balance, 100);
    assert_eq!(contract.account_at(&a, &xdho()).allowance_for(&b), 200);
    // moved by a itself
    assert_eq!(
        contract.transfer_between(None, a.clone(), b.clone(), &xdho(), 50),
        Ok(())
    );
    assert_eq!(contract.account_at(&a, &xdho()).balance, 850);
    assert_eq!(contract.account_at(&b, &xdho()).balance, 50);
    assert_eq!(contract.account_at(&a, &xdho()).allowance_for(&b), 200);
    // refused
    assert_eq!(
        contract.transfer_check_between(&Some(c.clone()), &a, &b, &xdho(), 1),
        Some(LedgerError::NotEnoughAllowance)
    );
    assert_eq!(
        contract.transfer_between(Some(b.clone()), a.clone(), c.clone(), &xdho(), 201),
        Err(LedgerError::NotEnoughAllowance)
    );
    assert_eq!(
        contract.transfer_between(None, c.clone(), a.clone(), &xdho(), 101),
        Err(LedgerError::NotEnoughBalance)
    );
    assert_eq!(
        contract.transfer_between(None, c.clone(), a.clone(), &xdho(), 0),
        Err(LedgerError::ZeroTransfer)
    );
    assert_eq!(contract.account_at(&a, &xdho()).balance, 850);
    assert_eq!(contract.account_at(&c, &xdho()).balance, 100);
    assert_eq!(contract.account_at(&a, &xdho()).allowance_for(&b), 200);
    // an allowance that is used up is taken out
    assert_eq!(
        contract.transfer_between(Some(b.clone()), a.clone(), a.clone(), &xdho(), 200),
        Ok(())
    );
    assert_eq!(contract.account_at(&a, &xdho()).balance, 850);
    assert_eq!(contract.account_at(&a, &xdho()).allowances.len(), 0);
}

const NANOSEC_IN_DAY: u64 = 86_400_000_000_000;
const NANOSEC_IN_DAY_F64: f64 = 86_400_000_000_000.0;
const PERCENT_STAKING_PER_YEAR: f64 = 0.20;
const STAKING_PERCENT: f64 = PERCENT_STAKING_PER_YEAR / 365.0 / NANOSEC_IN_DAY_F64;

/// What the entry point of the exchange pays out for a stake.
fn payout(contract: &Exchange, staker: String) -> u128 {
    let stake = contract.get_staking(staker);
    let staked_for = near_sdk::env::block_timestamp() - stake.created_time;
    let mut amount = staked_for as f64 * STAKING_PERCENT + 1.0;
    amount *= stake.staked as f64;
    amount as u128
}

fn get_contract_with_request() -> Exchange {
    let mut contract = init_contract_with_tokens_and_limit_bids();
    contract
        .add_new_request(UserRequest {
            token_id: "SOSI".to_string(),
            title: "Тестовое название".to_string(),
            description: "ПРИВЕТИКИ".to_string(),
            price: 23,
            supply: 100000,
            hash: "сосисочка".to_string(),
        })
        .unwrap();
    contract
}

#[test]
fn test_failed_unstaking() {
    let mut contract = init_contract_with_tokens_and_limit_bids();
    let context = get_extend_context(carol(), carol());
    testing_env(context);

    let amount = payout(&contract, carol());
    assert_eq!(contract.unstake(amount), Err(LedgerError::NothingStaked));
}

#[test]
fn test_failed_staking() {
    let mut contract = init_contract_with_tokens_and_limit_bids();
    let context = get_extend_context(carol(), carol());
    testing_env(context);

    contract.stake(123).unwrap();
    assert_eq!(contract.stake(123), Err(LedgerError::AlreadyStaked));
}

#[test]
fn test_staking() {
    let mut contract = init_contract_with_tokens_and_limit_bids();
    let context = get_extend_context(carol(), carol());
    testing_env(context);
    let amount = 100;
    let old_balance = contract.get_balance(carol(), standart_token().token_id);
    contract.stake(amount).unwrap();
    assert_eq!(
        contract.get_balance(carol(), standart_token().token_id),
        old_balance - amount
    );
    assert_eq!(contract.get_staking(carol()).staked, amount);

    let mut context = get_extend_context(carol(), carol());
    context.block_timestamp = NANOSEC_IN_DAY * 365;
    testing_env(context);
    let due = payout(&contract, carol());
    contract.unstake(due).unwrap();
    assert_eq!(
        contract.get_balance(carol(), standart_token().token_id),
        old_balance + (amount as f64 * PERCENT_STAKING_PER_YEAR) as u128
    );
    assert_eq!(contract.get_staking(carol()).staked, 0);
}

#[test]
fn test_voting_without_staking() {
    let mut contract = get_contract_with_request();
    let context = get_extend_context(carol(), carol());
    testing_env(context);
    assert_eq!(contract.vote(0, true), Err(LedgerError::NothingStaked));
}

#[test]
fn test_voting_after_staking() {
    let mut contract = get_contract_with_request();
    let context = get_extend_context(carol(), carol());
    testing_env(context);
    let amount = 100;
    contract.stake(amount).unwrap();
    contract.vote(0, true).unwrap();
    assert!(contract.is_voting(carol(), 0));
}

#[test]
fn vote_is_refused_for_each_broken_rule() {
    let mut contract = get_contract_with_request();
    contract.engine.stake(&carol(), 5, 100).unwrap();
    assert_eq!(
        contract.engine.vote(carol(), 5, 1, true),
        Err(LedgerError::NoSuchRequest)
    );
    // the request was filed at time 0 and can be voted on for a day
    assert_eq!(
        contract.engine.vote(carol(), NANOSEC_IN_DAY + 1, 0, true),
        Err(LedgerError::VotingEnded)
    );
    assert_eq!(
        contract.engine.vote(ivan(), 5, 0, true),
        Err(LedgerError::NothingStaked)
    );
    assert_eq!(contract.engine.vote(carol(), NANOSEC_IN_DAY, 0, false), Ok(()));
    assert_eq!(
        contract.engine.vote(carol(), 5, 0, true),
        Err(LedgerError::AlreadyVoted)
    );
    assert!(contract.is_voting(carol(), 0));
    assert!(!contract.is_voting(ivan(), 0));
    assert_eq!(contract.ballot_handler().get_all_votes(0).len(), 1);

    assert_eq!(
        contract.engine.finalize(NANOSEC_IN_DAY - 1, 0),
        Err(LedgerError::VotingNotOver)
    );
    assert_eq!(contract.engine.finalize(NANOSEC_IN_DAY, 0), Ok(()));
    assert_eq!(contract.engine.finalize(0, 9), Err(LedgerError::NoSuchRequest));
    assert_eq!(contract.finalize(0), Err(LedgerError::VotingNotOver));
}

#[test]
fn request_for_a_registered_asset_is_refused() {
    let mut contract = init_contract_with_tokens();
    let ask_for = |token_id: &str| UserRequest {
        token_id: token_id.to_string(),
        title: "t".to_string(),
        description: "d".to_string(),
        price: 1,
        supply: 2,
        hash: "h".to_string(),
    };
    assert_eq!(
        contract.engine.add_new_request(bob(), 3, ask_for("TEST")),
        Err(LedgerError::TokenExists)
    );
    assert!(contract.get_all_requests().is_empty());
    assert_eq!(contract.engine.add_new_request(bob(), 3, ask_for("NEW")), Ok(()));
    let requests = contract.get_all_requests();
    assert_eq!(requests.len(), 1);
    assert_eq!((requests[0].id, requests[0].created_time), (0, 3));
    assert_eq!(requests[0].token_id, "NEW");
}

#[test]
fn stake_moves_funds_to_the_owner_and_back() {
    let mut contract = init_contract_with_tokens();
    contract.transfer(ivan(), xdho(), 1000).unwrap();
    let owner_had = contract.get_balance(bob(), xdho());
    assert_eq!(contract.engine.stake(&ivan(), 10, 0), Err(LedgerError::ZeroTransfer));
    assert_eq!(
        contract.engine.stake(&ivan(), 10, 1001),
        Err(LedgerError::NotEnoughBalance)
    );
    assert_eq!(contract.engine.get_staking(&ivan(), 44).unwrap().staked, 0);
    assert_eq!(contract.engine.get_staking(&ivan(), 44).unwrap().created_time, 44);
    assert_eq!(contract.engine.stake(&ivan(), 10, 400), Ok(()));
    assert_eq!(contract.engine.get_staking(&ivan(), 44).unwrap().staked, 400);
    assert_eq!(contract.engine.get_staking(&ivan(), 44).unwrap().created_time, 10);
    assert_eq!(contract.get_balance(ivan(), xdho()), 600);
    assert_eq!(contract.get_balance(bob(), xdho()), owner_had + 400);
    assert_eq!(contract.staking().len(), 1);

    assert_eq!(contract.engine.unstake(&carol(), 1), Err(LedgerError::NothingStaked));
    assert_eq!(contract.engine.unstake(&ivan(), 0), Err(LedgerError::ZeroTransfer));
    assert_eq!(contract.engine.get_staking(&ivan(), 44).unwrap().staked, 400);
    assert_eq!(contract.engine.unstake(&ivan(), 480), Ok(()));
    assert_eq!(contract.get_balance(ivan(), xdho()), 1080);
    assert_eq!(contract.get_balance(bob(), xdho()), owner_had - 80);
    assert_eq!(contract.staking().len(), 0);
    assert_eq!(held(&contract, "XDHO"), 100_000_000_000);
}

#[test]
fn assets_are_the_same_if_they_have_the_same_id() {
    let mut other = test_token();
    other.supply = 1;
    other.owner_id = ivan();
    assert!(test_token() == other);
    assert!(test_token() != standart_token());
}

#[test]
fn nothing_is_hashed_without_a_host() {
    assert!(matches!(Contract::new(bob()), Err(LedgerError::NoHost)));
    let mut account = TokenAccount::new();
    assert_eq!(account.set_allowance(&bob(), 5), Err(LedgerError::NoHost));
    assert_eq!(account.get_allowance(&bob()), Err(LedgerError::NoHost));
    assert_eq!(account.allowances.len(), 0);

    let mut contract = Contract::empty(carol());
    assert_eq!(
        contract.get_balance(carol(), xdho()),
        Err(LedgerError::NoHost)
    );
    assert_eq!(
        contract.transfer(&carol(), &bob(), &xdho(), 1),
        Err(LedgerError::NoHost)
    );
    assert_eq!(
        contract.set_allowance(&carol(), &bob(), &xdho(), 1),
        Err(LedgerError::NoHost)
    );
    assert_eq!(contract.stake(&carol(), 0, 1), Err(LedgerError::NoHost));
    assert!(matches!(
        contract.get_staking(&carol(), 0),
        Err(LedgerError::NoHost)
    ));
    // what needs no hash is answered all the same
    assert_eq!(
        contract.set_allowance(&carol(), &carol(), &xdho(), 1),
        Err(LedgerError::SelfAllowance)
    );
    assert_eq!(
        contract.add_token(&bob(), test_token()),
        Err(LedgerError::NotOwner)
    );
    assert!(contract.wallets().len() == 0);
    assert_eq!(LedgerError::NoHost.message(), "Blockchain interface not set.");
}

fn fill(side: OrderSide, order_type: OrderType, price: u128, qty: u128, trader: &[u8]) -> Fill {
    Fill {
        side,
        order_type,
        price,
        qty,
        trader: trader.to_vec(),
        own: false,
    }
}

/// An exchange without a host whose wallet, filed under `bank`, holds 1000
/// of each of the two assets.
fn exchange_between_keys(bank: &[u8]) -> Contract {
    let mut contract = Contract::empty(carol());
    let mut account = TokenAccount::new();
    account.balance = 1000;
    contract.set_account_at(bank.to_vec(), &account, &xdho());
    contract.set_account_at(bank.to_vec(), &account, &test_id());
    contract
}

#[test]
fn fills_are_settled_between_keys() {
    let (bank, trader) = (vec![7u8], vec![8u8, 8]);
    let mut contract = exchange_between_keys(&bank);
    // an ask is paid its price: 3 at 2.50 is 7 and a half, of which the half is dropped
    let ask = fill(OrderSide::Ask, OrderType::Limit, 250, 3, &trader);
    assert_eq!(contract.settle_fill(&bank, &test_id(), &ask), Ok(()));
    assert_eq!(contract.account_at(&bank, &xdho()).balance, 993);
    assert_eq!(contract.account_at(&trader, &xdho()).balance, 7);
    assert_eq!(contract.account_at(&bank, &test_id()).balance, 1000);
    // a limit bid is paid its quantity
    let bid = fill(OrderSide::Bid, OrderType::Limit, 250, 3, &trader);
    assert_eq!(contract.settle_fill(&bank, &test_id(), &bid), Ok(()));
    assert_eq!(contract.account_at(&bank, &test_id()).balance, 997);
    assert_eq!(contract.account_at(&trader, &test_id()).balance, 3);
    assert_eq!(contract.account_at(&trader, &xdho()).balance, 7);
    // a market bid pays its price first, which the exchange draws
    let market = fill(OrderSide::Bid, OrderType::Market, 200, 2, &trader);
    assert_eq!(
        contract.settle_fill(&bank, &test_id(), &market),
        Err(LedgerError::NotEnoughAllowance)
    );
    assert_eq!(contract.account_at(&trader, &xdho()).balance, 7);
    let mut account = contract.account_at(&trader, &xdho());
    account.set_allowance_for(bank.clone(), 5);
    contract.set_account_at(trader.clone(), &account, &xdho());
    assert_eq!(contract.settle_fill(&bank, &test_id(), &market), Ok(()));
    assert_eq!(contract.account_at(&trader, &xdho()).balance, 3);
    assert_eq!(contract.account_at(&trader, &xdho()).allowance_for(&bank), 1);
    assert_eq!(contract.account_at(&bank, &xdho()).balance, 997);
    assert_eq!(contract.account_at(&trader, &test_id()).balance, 5);
    assert_eq!(contract.account_at(&bank, &test_id()).balance, 995);
    // the exchange's own market bid needs no allowance
    let own = Fill {
        own: true,
        ..fill(OrderSide::Bid, OrderType::Market, 100, 4, &bank)
    };
    assert_eq!(contract.settle_fill(&bank, &test_id(), &own), Ok(()));
    assert_eq!(contract.account_at(&bank, &xdho()).balance, 997);
    assert_eq!(contract.account_at(&bank, &test_id()).balance, 995);
    // refusals
    let dust = fill(OrderSide::Ask, OrderType::Limit, 1, 99, &trader);
    assert_eq!(
        contract.settle_fill(&bank, &test_id(), &dust),
        Err(LedgerError::ZeroTransfer)
    );
    let huge = fill(OrderSide::Ask, OrderType::Limit, u128::MAX, 2, &trader);
    assert_eq!(
        contract.settle_fill(&bank, &test_id(), &huge),
        Err(LedgerError::AmountOverflow)
    );
    let dear = fill(OrderSide::Ask, OrderType::Limit, 100, 998, &trader);
    assert_eq!(
        contract.settle_fill(&bank, &test_id(), &dear),
        Err(LedgerError::NotEnoughBalance)
    );
    assert_eq!(contract.account_at(&bank, &xdho()).balance, 997);
    assert_eq!(contract.account_at(&trader, &xdho()).balance, 3);
}

#[test]
fn fills_are_settled_up_to_the_first_refusal() {
    let (bank, first, second) = (vec![7u8], vec![1u8], vec![2u8]);
    let mut contract = exchange_between_keys(&bank);
    let fills = vec![
        fill(OrderSide::Bid, OrderType::Limit, 100, 30, &first),
        fill(OrderSide::Ask, OrderType::Limit, 100, 30, &second),
        fill(OrderSide::Bid, OrderType::Limit, 100, 1000, &first),
        fill(OrderSide::Ask, OrderType::Limit, 100, 5, &second),
    ];
    assert_eq!(
        contract.settle_fills(&bank, &test_id(), &fills),
        Err(LedgerError::NotEnoughBalance)
    );
    assert_eq!(contract.account_at(&first, &test_id()).balance, 30);
    assert_eq!(contract.account_at(&second, &xdho()).balance, 30);
    assert_eq!(contract.account_at(&bank, &test_id()).balance, 970);
    assert_eq!(contract.account_at(&bank, &xdho()).balance, 970);
    // nothing is lost and nothing is made
    let total = |contract: &Contract, token: &String| -> u128 {
        [&bank, &first, &second]
            .into_iter()
            .map(|key| contract.account_at(key, token).balance)
            .sum()
    };
    assert_eq!(total(&contract, &xdho()), 1000);
    assert_eq!(total(&contract, &test_id()), 1000);
    let again = vec![
        fill(OrderSide::Bid, OrderType::Limit, 100, 30, &first),
        fill(OrderSide::Ask, OrderType::Limit, 100, 30, &second),
    ];
    assert_eq!(contract.settle_fills(&bank, &test_id(), &again), Ok(()));
    assert_eq!(contract.account_at(&first, &test_id()).balance, 60);
    assert_eq!(contract.account_at(&second, &xdho()).balance, 60);
    assert_eq!(contract.settle_fills(&bank, &test_id(), &vec![]), Ok(()));
    assert_eq!(total(&contract, &xdho()), 1000);
    assert_eq!(total(&contract, &test_id()), 1000);
}

fn events_with_fills() -> Events {
    vec![
        Ok(Success::Accepted {
            id: 4,
            order_type: OrderType::Limit,
            order_creator: bob(),
            ts: 1,
        }),
        Ok(Success::Filled {
            order_id: 4,
            side: OrderSide::Bid,
            order_type: OrderType::Limit,
            price: 150,
            qty: 2,
            order_creator: bob(),
            ts: 1,
        }),
        Err(Failed::NoMatch(4)),
        Ok(Success::PartiallyFilled {
            order_id: 3,
            side: OrderSide::Ask,
            order_type: OrderType::Limit,
            price: 150,
            qty: 2,
            order_creator: alice(),
            ts: 1,
        }),
    ]
}

fn events_without_fills() -> Events {
    vec![
        Ok(Success::Accepted {
            id: 1,
            order_type: OrderType::Market,
            order_creator: bob(),
            ts: 1,
        }),
        Err(Failed::NoMatch(1)),
        Ok(Success::Cancelled { id: 1, ts: 1 }),
        Ok(Success::Amended {
            id: 1,
            price: 1,
            qty: 1,
            ts: 1,
        }),
        Err(Failed::OrderNotFound(1)),
        Err(Failed::DuplicateOrderID(1)),
        Err(Failed::ValidationFailed("price must be non-negative".to_string())),
    ]
}

#[test]
fn creators_of_fills_are_looked_up_by_their_hash() {
    testing_env(get_context(carol()));
    let fills = keyed_fills(&alice(), &events_with_fills()).unwrap();
    assert_eq!(fills.len(), 2);
    assert_eq!(fills[0].trader, near_sdk::env::sha256(bob().as_bytes()));
    assert_ne!(fills[0].trader, bob().into_bytes());
    assert_eq!(fills[0].trader.len(), 32);
    assert_eq!(
        (fills[0].side, fills[0].order_type, fills[0].price, fills[0].qty, fills[0].own),
        (OrderSide::Bid, OrderType::Limit, 150, 2, false)
    );
    assert_eq!(fills[1].trader, near_sdk::env::sha256(alice().as_bytes()));
    assert_eq!(
        (fills[1].side, fills[1].order_type, fills[1].price, fills[1].qty, fills[1].own),
        (OrderSide::Ask, OrderType::Limit, 150, 2, true)
    );
    assert!(keyed_fills(&alice(), &events_without_fills()).unwrap().is_empty());
}

#[test]
fn events_are_settled_on_the_ledger() {
    let mut contract = init_contract_with_tokens();
    let ctx = context(&bob(), &bob(), 1);
    contract.transfer(alice(), test_id(), 10).unwrap();
    contract.transfer(alice(), xdho(), 10).unwrap();
    let (tokens, quote) = (held(&contract, "TEST"), held(&contract, "XDHO"));
    // events without a fill move nothing
    assert_eq!(
        contract.process_orderbook_result(&ctx, &test_id(), &events_without_fills()),
        Ok(())
    );
    assert_eq!(contract.get_balance(alice(), test_id()), 10);
    assert_eq!(contract.get_balance(alice(), xdho()), 10);
    // bob is paid 2 for his bid, the exchange 3 for its own ask
    let bob_held = contract.get_balance(bob(), test_id());
    assert_eq!(
        contract.process_orderbook_result(&ctx, &test_id(), &events_with_fills()),
        Ok(())
    );
    assert_eq!(contract.get_balance(alice(), test_id()), 8);
    assert_eq!(contract.get_balance(bob(), test_id()), bob_held + 2);
    assert_eq!(contract.get_balance(alice(), xdho()), 10);
    assert_eq!(held(&contract, "TEST"), tokens);
    assert_eq!(held(&contract, "XDHO"), quote);
    // a refusal ends the settlement; what was paid before stays paid
    let mut events = events_with_fills();
    events.push(Ok(Success::Filled {
        order_id: 9,
        side: OrderSide::Bid,
        order_type: OrderType::Limit,
        price: 150,
        qty: 7,
        order_creator: ivan(),
        ts: 1,
    }));
    assert_eq!(
        contract.process_orderbook_result(&ctx, &test_id(), &events),
        Err(LedgerError::NotEnoughBalance)
    );
    assert_eq!(contract.get_balance(alice(), test_id()), 6);
    assert_eq!(contract.get_balance(ivan(), test_id()), 0);
    assert_eq!(held(&contract, "TEST"), tokens);
    assert_eq!(held(&contract, "XDHO"), quote);
}

#[test]
fn what_needs_no_hash_needs_no_host() {
    let mut contract = init_contract_with_tokens();
    let ctx = context(&bob(), &bob(), 5);
    contract
        .engine
        .new_limit_order(&ctx, test_id(), 300, 7, "Ask".to_string())
        .unwrap();
    drop(near_sdk::env::take_blockchain_interface());

    // a cancel touches the book alone
    let events = contract
        .engine
        .cancel_limit_order(&ctx, test_id(), 1, "Ask".to_string())
        .unwrap();
    assert!(matches!(&events[..], [Ok(Success::Cancelled { id: 1, ts: 5 })]));
    let events = contract
        .engine
        .cancel_limit_order(&ctx, test_id(), 1, "Ask".to_string())
        .unwrap();
    assert!(matches!(&events[..], [Err(Failed::OrderNotFound(1))]));
    assert!(matches!(
        contract.engine.cancel_limit_order(&ctx, test_id(), 1, "Sell".to_string()),
        Err(LedgerError::BadSide)
    ));
    assert!(matches!(
        contract.engine.cancel_limit_order(&ctx, "NONE".to_string(), 1, "Ask".to_string()),
        Err(LedgerError::UnknownToken)
    ));
    // a market bid that finds no ask reserves and pays nothing
    let events = contract
        .engine
        .new_market_order(&ctx, test_id(), 5, "Bid".to_string())
        .unwrap();
    assert!(matches!(
        &events[..],
        [Ok(Success::Accepted { id: 2, ts: 5, .. }), Err(Failed::NoMatch(2))]
    ));
    // events without a fill are settled
    assert_eq!(
        contract
            .engine
            .process_orderbook_result(&ctx, &test_id(), &events_without_fills()),
        Ok(())
    );
    // the refusals of the library come first
    assert_eq!(
        contract.engine.transfer_from(&carol(), &bob(), &ivan(), &xdho(), 0),
        Err(LedgerError::ZeroTransfer)
    );
    assert_eq!(
        contract.engine.transfer(&carol(), &bob(), &xdho(), 0),
        Err(LedgerError::ZeroTransfer)
    );
    assert_eq!(
        contract.engine.pay_standard_token(&carol(), u128::MAX, &bob()),
        Err(LedgerError::AmountOverflow)
    );
    assert_eq!(
        contract.engine.pay_standard_token(&carol(), 0, &bob()),
        Err(LedgerError::ZeroTransfer)
    );
    assert!(matches!(
        contract.engine.new_limit_order(&ctx, test_id(), 300, 7, "Buy".to_string()),
        Err(LedgerError::BadSide)
    ));
    assert!(matches!(
        contract.engine.new_market_order(&ctx, test_id(), 7, "".to_string()),
        Err(LedgerError::BadSide)
    ));
    assert!(matches!(
        contract.engine.new_limit_order(&ctx, test_id(), u128::MAX, 7, "Bid".to_string()),
        Err(LedgerError::AmountOverflow)
    ));
    assert!(matches!(
        contract.engine.new_limit_order(&ctx, test_id(), 1, 7, "Bid".to_string()),
        Err(LedgerError::ZeroTransfer)
    ));
    assert!(matches!(
        contract.engine.vote(bob(), 0, 77, true),
        Err(LedgerError::NoSuchRequest)
    ));

    // what needs a hash fails, and changes nothing
    assert!(matches!(
        contract.engine.new_limit_order(&ctx, test_id(), 300, 7, "Ask".to_string()),
        Err(LedgerError::NoHost)
    ));
    assert!(matches!(
        contract.engine.new_market_order(&ctx, test_id(), 7, "Ask".to_string()),
        Err(LedgerError::NoHost)
    ));
    assert_eq!(
        contract
            .engine
            .process_orderbook_result(&ctx, &test_id(), &events_with_fills()),
        Err(LedgerError::NoHost)
    );
    assert!(keyed_fills(&alice(), &events_with_fills()).is_none());
    assert!(keyed_fills(&alice(), &events_without_fills()).unwrap().is_empty());
    assert!(contract.engine.get_ask_orders(test_id()).unwrap().is_empty());
    assert!(contract.engine.get_bid_orders(test_id()).unwrap().is_empty());
    assert_eq!(contract.engine.order_books().len(), 2);
}

#[test]
fn exchange_is_run_between_keys_without_a_host() {
    let (owner, staker, other) = (vec![1u8], vec![2u8], vec![3u8]);
    let mut contract = Contract::empty(carol());
    contract.add_token_at(owner.clone(), standart_token());
    contract.add_token_at(staker.clone(), test_token());
    assert_eq!(contract.account_at(&owner, &xdho()).balance, 100_000_000_000);
    assert_eq!(contract.account_at(&staker, &test_id()).balance, 10000);
    assert_eq!(contract.get_tokens().len(), 2);
    assert_eq!(contract.order_books().len(), 2);
    assert_eq!(contract.get_current_spread(test_id()), Ok(vec![0, 0]));

    // an allowance, and a transfer that uses it up
    contract.set_allowance_between(owner.clone(), other.clone(), &xdho(), 500);
    assert_eq!(contract.account_at(&owner, &xdho()).allowance_for(&other), 500);
    assert_eq!(contract.account_at(&owner, &test_id()).allowance_for(&other), 0);
    assert_eq!(
        contract.transfer_between(Some(other.clone()), owner.clone(), staker.clone(), &xdho(), 500),
        Ok(())
    );
    assert_eq!(contract.account_at(&staker, &xdho()).balance, 500);
    assert_eq!(contract.account_at(&owner, &xdho()).allowance_for(&other), 0);

    // a stake goes to the owner and comes back with what it earned
    assert_eq!(
        contract.unstake_between(staker.clone(), owner.clone(), 1),
        Err(LedgerError::NothingStaked)
    );
    assert_eq!(
        contract.stake_between(staker.clone(), owner.clone(), 9, 0),
        Err(LedgerError::ZeroTransfer)
    );
    assert_eq!(
        contract.stake_between(staker.clone(), owner.clone(), 9, 501),
        Err(LedgerError::NotEnoughBalance)
    );
    assert!(contract.staking().get(&staker).is_none());
    assert_eq!(contract.stake_between(staker.clone(), owner.clone(), 9, 400), Ok(()));
    let stake = contract.staking().get(&staker).unwrap();
    assert_eq!((stake.staked, stake.created_time), (400, 9));
    assert_eq!(contract.account_at(&staker, &xdho()).balance, 100);
    assert_eq!(contract.account_at(&owner, &xdho()).balance, 100_000_000_000 - 100);
    assert_eq!(
        contract.stake_between(staker.clone(), owner.clone(), 10, 1),
        Err(LedgerError::AlreadyStaked)
    );

    // only a staker votes, once
    contract
        .add_new_request(
            ivan(),
            20,
            UserRequest {
                token_id: "NEXT".to_string(),
                title: "next".to_string(),
                description: "the next asset".to_string(),
                price: 23,
                supply: 100000,
                hash: "0f".to_string(),
            },
        )
        .unwrap();
    assert_eq!(
        contract.vote_at(bob(), &staker, 21, 5, true),
        Err(LedgerError::NoSuchRequest)
    );
    assert_eq!(
        contract.vote_at(bob(), &staker, 21 + NANOSEC_IN_DAY, 0, true),
        Err(LedgerError::VotingEnded)
    );
    assert_eq!(
        contract.vote_at(bob(), &other, 21, 0, true),
        Err(LedgerError::NothingStaked)
    );
    assert_eq!(contract.vote_at(bob(), &staker, 20 + NANOSEC_IN_DAY, 0, true), Ok(()));
    assert_eq!(
        contract.vote_at(bob(), &staker, 21, 0, false),
        Err(LedgerError::AlreadyVoted)
    );
    assert!(contract.is_voting(bob(), 0));

    assert_eq!(
        contract.unstake_between(staker.clone(), owner.clone(), 0),
        Err(LedgerError::ZeroTransfer)
    );
    assert_eq!(contract.unstake_between(staker.clone(), owner.clone(), 410), Ok(()));
    assert!(contract.staking().get(&staker).is_none());
    assert_eq!(contract.account_at(&staker, &xdho()).balance, 510);
    assert_eq!(contract.account_at(&owner, &xdho()).balance, 100_000_000_000 - 510);
}
