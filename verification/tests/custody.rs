use escrow_core::Error;
use escrow_core::RwaYieldHarvester;
use escrow_core::SimpleToken;
use escrow_core::TokenLedger;

const HARVESTER: u64 = 101;
const ESCROW: u64 = 100;
const OWNER: u64 = 1;
const OTHER: u64 = 3;
const USDC: u64 = 10;

const YEAR: u64 = 31_536_000;

fn setup(owner_funds: i128) -> (RwaYieldHarvester, TokenLedger) {
    let harvester = RwaYieldHarvester::new(HARVESTER, ESCROW);
    let mut tokens = TokenLedger::new();
    tokens.register(SimpleToken::new(USDC)).unwrap();
    tokens.mint(USDC, OWNER, owner_funds).unwrap();
    (harvester, tokens)
}

#[test]
fn yield_after_one_year_is_five_percent() {
    let (mut harvester, mut tokens) = setup(1_000_0000000);
    harvester.deposit(&mut tokens, OWNER, 1_000_0000000, USDC, 0).unwrap();
    assert_eq!(harvester.calculate_yield(OWNER, YEAR), Ok(50_0000000));
}

#[test]
fn second_harvest_at_same_timestamp_returns_zero() {
    let (mut harvester, mut tokens) = setup(1_000_0000000);
    harvester.deposit(&mut tokens, OWNER, 1_000_0000000, USDC, 0).unwrap();
    let first = harvester.harvest_yield(OWNER, YEAR).unwrap();
    assert_eq!(first, 50_0000000);
    assert_eq!(harvester.harvest_yield(OWNER, YEAR), Ok(0));
}

#[test]
fn deposit_creates_position_and_moves_funds() {
    let (mut harvester, mut tokens) = setup(1000);
    let credited = harvester.deposit(&mut tokens, OWNER, 600, USDC, 7).unwrap();
    assert_eq!(credited, 600);
    assert_eq!(tokens.balance(USDC, OWNER), 400);
    assert_eq!(tokens.balance(USDC, HARVESTER), 600);
    let p = harvester.get_position(OWNER).unwrap();
    assert_eq!(p.owner, OWNER);
    assert_eq!(p.principal, 600);
    assert_eq!(p.ousg_balance, 600);
    assert_eq!(p.deposited_at, 7);
    assert_eq!(p.last_harvest_at, 7);
    assert_eq!(p.total_yield_earned, 0);
}

#[test]
fn withdraw_harvests_then_redeems() {
    let (mut harvester, mut tokens) = setup(1000);
    harvester.deposit(&mut tokens, OWNER, 1000, USDC, 0).unwrap();
    let paid = harvester.withdraw(&mut tokens, OWNER, 500, USDC, YEAR).unwrap();
    assert_eq!(paid, 500);
    assert_eq!(tokens.balance(USDC, OWNER), 500);
    let p = harvester.get_position(OWNER).unwrap();
    // one year of yield on 1000 units is 50; 500 units were redeemed
    assert_eq!(p.ousg_balance, 550);
    assert_eq!(p.principal, 550);
    assert_eq!(p.total_yield_earned, 50);
    assert_eq!(p.last_harvest_at, YEAR);
}

#[test]
fn withdraw_beyond_post_harvest_balance_fails() {
    let (mut harvester, mut tokens) = setup(1000);
    harvester.deposit(&mut tokens, OWNER, 1000, USDC, 0).unwrap();
    let r = harvester.withdraw(&mut tokens, OWNER, 1051, USDC, YEAR);
    assert_eq!(r, Err(Error::InsufficientBalance));
    assert_eq!(tokens.balance(USDC, OWNER), 0);
}

#[test]
fn withdraw_principal_leaves_accrual_clock_alone() {
    let (mut harvester, mut tokens) = setup(1000);
    harvester.deposit(&mut tokens, OWNER, 1000, USDC, 0).unwrap();
    let paid = harvester.withdraw_principal(&mut tokens, OWNER, 400, USDC).unwrap();
    assert_eq!(paid, 400);
    let p = harvester.get_position(OWNER).unwrap();
    assert_eq!(p.principal, 600);
    assert_eq!(p.ousg_balance, 600);
    assert_eq!(p.last_harvest_at, 0);
    assert_eq!(p.total_yield_earned, 0);
    assert_eq!(tokens.balance(USDC, OWNER), 400);
}

#[test]
fn withdraw_principal_beyond_principal_fails() {
    let (mut harvester, mut tokens) = setup(1000);
    harvester.deposit(&mut tokens, OWNER, 1000, USDC, 0).unwrap();
    let r = harvester.withdraw_principal(&mut tokens, OWNER, 1001, USDC);
    assert_eq!(r, Err(Error::InsufficientBalance));
}

#[test]
fn for_owner_variant_requires_the_trusted_caller() {
    let (mut harvester, mut tokens) = setup(1000);
    harvester.deposit(&mut tokens, OWNER, 1000, USDC, 0).unwrap();
    let r = harvester.withdraw_principal_for_owner(&mut tokens, OTHER, OWNER, 100, OTHER, USDC);
    assert_eq!(r, Err(Error::Unauthorized));
    let ok = harvester.withdraw_principal_for_owner(&mut tokens, ESCROW, OWNER, 100, ESCROW, USDC);
    assert_eq!(ok, Ok(100));
    assert_eq!(tokens.balance(USDC, ESCROW), 100);
}

#[test]
fn deposit_from_contract_needs_funds_in_custody() {
    let (mut harvester, tokens) = setup(0);
    let r = harvester.deposit_from_contract(&tokens, ESCROW, OWNER, 100, USDC, 0);
    assert_eq!(r, Err(Error::InsufficientBalance));
}

#[test]
fn deposit_from_contract_rejects_unknown_contracts() {
    let (mut harvester, tokens) = setup(0);
    let r = harvester.deposit_from_contract(&tokens, OTHER, OWNER, 0, USDC, 0);
    assert_eq!(r, Err(Error::Unauthorized));
}

#[test]
fn missing_position_is_not_found() {
    let (harvester, _) = setup(0);
    assert!(harvester.get_position(OWNER).is_err());
    assert_eq!(harvester.calculate_yield(OWNER, 0), Err(Error::NotFound));
}
