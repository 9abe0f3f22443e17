use escrow_core::Error;
use escrow_core::LiquidityRouter;
use escrow_core::SimpleToken;
use escrow_core::TokenLedger;

const ROUTER: u64 = 102;
const ALICE: u64 = 1;
const USDC: u64 = 10;
const XLM: u64 = 11;
const INR: u64 = 12;

fn funded_setup() -> (LiquidityRouter, TokenLedger) {
    let mut router = LiquidityRouter::new(ROUTER);
    router.initialize(XLM).unwrap();
    router.set_pool_reserves(USDC, XLM, 1_000_000, 10_000_000).unwrap();
    router.set_pool_reserves(XLM, INR, 10_000_000, 5_000_000).unwrap();
    let mut tokens = TokenLedger::new();
    tokens.register(SimpleToken::new(USDC)).unwrap();
    tokens.register(SimpleToken::new(XLM)).unwrap();
    tokens.register(SimpleToken::new(INR)).unwrap();
    (router, tokens)
}

#[test]
fn swap_output_matches_constant_product_formula() {
    let out = LiquidityRouter::calculate_swap_output(1000, 1_000_000, 10_000_000).unwrap();
    let expected = (1000i128 * 997 * 10_000_000) / (1_000_000i128 * 1000 + 1000 * 997);
    assert_eq!(out, expected);
    assert_eq!(out, 9960);
    assert!(out < 1000 * 10);
}

#[test]
fn swap_output_zero_reserves() {
    assert_eq!(LiquidityRouter::calculate_swap_output(1000, 0, 10_000_000), Ok(0));
    assert_eq!(LiquidityRouter::calculate_swap_output(1000, 1_000_000, 0), Ok(0));
}

#[test]
fn swap_output_overflow_rejected() {
    let r = LiquidityRouter::calculate_swap_output(i128::MAX / 2, i128::MAX / 2, i128::MAX / 2);
    assert_eq!(r, Err(Error::Arithmetic));
}

#[test]
fn pool_address_is_symmetric() {
    let p = LiquidityRouter::get_pool_address(USDC, XLM);
    let q = LiquidityRouter::get_pool_address(XLM, USDC);
    assert_eq!(p, q);
    assert_eq!(p.asset_lo, USDC);
    assert_eq!(p.asset_hi, XLM);
}

#[test]
fn reserves_are_oriented_to_the_asked_pair() {
    let (router, _) = funded_setup();
    assert_eq!(router.get_pool_reserves(USDC, XLM), Ok((1_000_000, 10_000_000)));
    assert_eq!(router.get_pool_reserves(XLM, USDC), Ok((10_000_000, 1_000_000)));
}

#[test]
fn reserves_missing_pool() {
    let (router, _) = funded_setup();
    assert_eq!(router.get_pool_reserves(USDC, INR), Err(Error::NotFound));
}

#[test]
fn set_pool_reserves_rejects_bad_input() {
    let mut router = LiquidityRouter::new(ROUTER);
    router.initialize(XLM).unwrap();
    assert_eq!(router.set_pool_reserves(USDC, USDC, 1, 1), Err(Error::InvalidArgument));
    assert_eq!(router.set_pool_reserves(USDC, XLM, -1, 1), Err(Error::InvalidArgument));
}

#[test]
fn router_initializes_once() {
    let mut router = LiquidityRouter::new(ROUTER);
    router.initialize(XLM).unwrap();
    assert_eq!(router.initialize(XLM), Err(Error::AlreadyInitialized));
}

#[test]
fn exchange_rate_same_asset_passes_through() {
    let (router, _) = funded_setup();
    assert_eq!(router.get_exchange_rate(USDC, USDC, 1234), Ok(1234));
}

#[test]
fn exchange_rate_single_hop() {
    let (router, _) = funded_setup();
    assert_eq!(router.get_exchange_rate(USDC, XLM, 1000), Ok(9960));
}

#[test]
fn exchange_rate_two_hop_routes_through_reference() {
    let (router, _) = funded_setup();
    let mid = 9960i128;
    let expected = (mid * 997 * 5_000_000) / (10_000_000i128 * 1000 + mid * 997);
    assert_eq!(router.get_exchange_rate(USDC, INR, 1000), Ok(expected));
    assert_eq!(expected, 4960);
}

#[test]
fn convert_and_send_pays_recipient_at_full_slippage_allowance() {
    let (router, mut tokens) = funded_setup();
    tokens.mint(USDC, ROUTER, 1000).unwrap();
    let out = router.convert_and_send(&mut tokens, USDC, INR, 1000, ALICE, 10_000).unwrap();
    assert_eq!(out, 4960);
    assert_eq!(tokens.balance(USDC, ROUTER), 0);
    assert_eq!(tokens.balance(INR, ALICE), 4960);
    assert_eq!(tokens.balance(XLM, ROUTER), 0);
}

#[test]
fn convert_negative_slippage_bound_is_exceeded() {
    let (router, mut tokens) = funded_setup();
    tokens.mint(USDC, ROUTER, 1000).unwrap();
    let r = router.convert_and_send(&mut tokens, USDC, XLM, 1000, ALICE, -10_000);
    assert_eq!(r, Err(Error::SlippageExceeded));
    assert_eq!(tokens.balance(USDC, ROUTER), 1000);
    assert_eq!(tokens.balance(XLM, ALICE), 0);
}

#[test]
fn convert_same_asset_is_a_direct_transfer() {
    let (router, mut tokens) = funded_setup();
    tokens.mint(USDC, ROUTER, 500).unwrap();
    let out = router.convert_and_send(&mut tokens, USDC, USDC, 500, ALICE, 100).unwrap();
    assert_eq!(out, 500);
    assert_eq!(tokens.balance(USDC, ALICE), 500);
    assert_eq!(tokens.balance(USDC, ROUTER), 0);
}

#[test]
fn convert_unfunded_router_fails_clean() {
    let (router, mut tokens) = funded_setup();
    let r = router.convert_and_send(&mut tokens, USDC, XLM, 1000, ALICE, 100);
    assert_eq!(r, Err(Error::InsufficientBalance));
    assert_eq!(tokens.balance(XLM, ALICE), 0);
}
