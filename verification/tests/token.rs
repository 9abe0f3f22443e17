use escrow_core::Error;
use escrow_core::SimpleToken;
use escrow_core::TokenLedger;

const USDC: u64 = 10;
const ALICE: u64 = 1;
const BOB: u64 = 2;

#[test]
fn mint_and_balance() {
    let mut tok = SimpleToken::new(USDC);
    assert_eq!(tok.balance(ALICE), 0);
    tok.mint(ALICE, 100).unwrap();
    assert_eq!(tok.balance(ALICE), 100);
    assert_eq!(tok.balance(BOB), 0);
    assert_eq!(tok.asset(), USDC);
}

#[test]
fn transfer_moves_exact_amount() {
    let mut tok = SimpleToken::new(USDC);
    tok.mint(ALICE, 100).unwrap();
    tok.transfer(ALICE, BOB, 30).unwrap();
    assert_eq!(tok.balance(ALICE), 70);
    assert_eq!(tok.balance(BOB), 30);
}

#[test]
fn transfer_insufficient_balance() {
    let mut tok = SimpleToken::new(USDC);
    tok.mint(ALICE, 10).unwrap();
    assert_eq!(tok.transfer(ALICE, BOB, 11), Err(Error::InsufficientBalance));
    assert_eq!(tok.balance(ALICE), 10);
    assert_eq!(tok.balance(BOB), 0);
}

#[test]
fn transfer_negative_amount_rejected() {
    let mut tok = SimpleToken::new(USDC);
    tok.mint(ALICE, 10).unwrap();
    assert_eq!(tok.transfer(ALICE, BOB, -1), Err(Error::InvalidArgument));
}

#[test]
fn mint_overflow_rejected() {
    let mut tok = SimpleToken::new(USDC);
    tok.mint(ALICE, i128::MAX).unwrap();
    assert_eq!(tok.mint(ALICE, 1), Err(Error::Arithmetic));
    assert_eq!(tok.balance(ALICE), i128::MAX);
}

#[test]
fn token_initializes_once() {
    let mut tok = SimpleToken::new(USDC);
    tok.initialize(String::from("Dollar"), String::from("USDC"), 7).unwrap();
    let second = tok.initialize(String::from("Dollar"), String::from("USDC"), 7);
    assert_eq!(second, Err(Error::AlreadyInitialized));
}

#[test]
fn ledger_rejects_duplicate_asset() {
    let mut ledger = TokenLedger::new();
    ledger.register(SimpleToken::new(USDC)).unwrap();
    let dup = ledger.register(SimpleToken::new(USDC));
    assert_eq!(dup, Err(Error::AlreadyInitialized));
}

#[test]
fn ledger_transfer_unknown_asset() {
    let mut ledger = TokenLedger::new();
    assert_eq!(ledger.transfer(USDC, ALICE, BOB, 5), Err(Error::NotFound));
    assert!(!ledger.has(USDC));
}

#[test]
fn ledger_transfer_same_account_is_noop() {
    let mut ledger = TokenLedger::new();
    ledger.register(SimpleToken::new(USDC)).unwrap();
    ledger.mint(USDC, ALICE, 42).unwrap();
    ledger.transfer(USDC, ALICE, ALICE, 42).unwrap();
    assert_eq!(ledger.balance(USDC, ALICE), 42);
}
