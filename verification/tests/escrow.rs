use escrow_core::Error;
use escrow_core::EscrowCore;
use escrow_core::JobStatus;
use escrow_core::LiquidityRouter;
use escrow_core::MilestoneStatus;
use escrow_core::RwaYieldHarvester;
use escrow_core::SimpleToken;
use escrow_core::TokenLedger;

const ESCROW: u64 = 100;
const HARVESTER: u64 = 101;
const ROUTER: u64 = 102;
const CLIENT: u64 = 1;
const FREELANCER: u64 = 2;
const USDC: u64 = 10;
const XLM: u64 = 11;
const INR: u64 = 12;
const OUSG: u64 = 13;

struct World {
    escrow: EscrowCore,
    harvester: RwaYieldHarvester,
    router: LiquidityRouter,
    tokens: TokenLedger,
}

fn world(client_funds: i128) -> World {
    let mut escrow = EscrowCore::new(ESCROW);
    escrow.initialize(HARVESTER, ROUTER, USDC, OUSG).unwrap();
    let harvester = RwaYieldHarvester::new(HARVESTER, ESCROW);
    let mut router = LiquidityRouter::new(ROUTER);
    router.initialize(XLM).unwrap();
    router.set_pool_reserves(USDC, XLM, 1_000_000, 10_000_000).unwrap();
    router.set_pool_reserves(XLM, INR, 10_000_000, 5_000_000).unwrap();
    let mut tokens = TokenLedger::new();
    tokens.register(SimpleToken::new(USDC)).unwrap();
    tokens.register(SimpleToken::new(XLM)).unwrap();
    tokens.register(SimpleToken::new(INR)).unwrap();
    tokens.mint(USDC, CLIENT, client_funds).unwrap();
    World { escrow, harvester, router, tokens }
}

#[test]
fn create_job_splits_total_with_bounded_remainder() {
    let mut w = world(10);
    let job_id = w
        .escrow
        .create_job(&mut w.harvester, &mut w.tokens, CLIENT, CLIENT, FREELANCER, 10, USDC, 3, 5)
        .unwrap();
    let job = w.escrow.get_job(job_id).unwrap();
    assert_eq!(job.milestones.len(), 3);
    let mut sum: i128 = 0;
    for m in &job.milestones {
        assert_eq!(m.amount, 3);
        assert!(matches!(m.status, MilestoneStatus::Pending));
        sum += m.amount;
    }
    assert!(sum <= job.total_amount);
    assert!(job.total_amount - sum < 3);
    assert_eq!(w.escrow.get_job_principal(job_id), 10);
    assert_eq!(w.tokens.balance(USDC, CLIENT), 0);
    assert_eq!(w.tokens.balance(USDC, HARVESTER), 10);
    assert!(matches!(job.status, JobStatus::Active));
    assert_eq!(job.created_at, 5);
}

#[test]
fn create_job_rejects_zero_milestones() {
    let mut w = world(10);
    let r = w
        .escrow
        .create_job(&mut w.harvester, &mut w.tokens, CLIENT, CLIENT, FREELANCER, 10, USDC, 0, 0);
    assert_eq!(r, Err(Error::InvalidArgument));
}

#[test]
fn create_job_rejects_component_accounts_as_parties() {
    let mut w = world(10);
    let r = w
        .escrow
        .create_job(&mut w.harvester, &mut w.tokens, HARVESTER, HARVESTER, FREELANCER, 10, USDC, 1, 0);
    assert_eq!(r, Err(Error::InvalidArgument));
}

#[test]
fn create_job_requires_client_authorization() {
    let mut w = world(10);
    let r = w
        .escrow
        .create_job(&mut w.harvester, &mut w.tokens, FREELANCER, CLIENT, FREELANCER, 10, USDC, 1, 0);
    assert_eq!(r, Err(Error::Unauthorized));
}

#[test]
fn create_job_needs_client_funds() {
    let mut w = world(5);
    let r = w
        .escrow
        .create_job(&mut w.harvester, &mut w.tokens, CLIENT, CLIENT, FREELANCER, 10, USDC, 2, 0);
    assert_eq!(r, Err(Error::InsufficientBalance));
    assert_eq!(w.tokens.balance(USDC, CLIENT), 5);
}

#[test]
fn escrow_initializes_once() {
    let mut w = world(0);
    let r = w.escrow.initialize(HARVESTER, ROUTER, USDC, OUSG);
    assert_eq!(r, Err(Error::AlreadyInitialized));
}

#[test]
fn get_job_unknown_id() {
    let w = world(0);
    assert!(w.escrow.get_job(99).is_err());
}

#[test]
fn submit_proof_is_gated_on_the_freelancer() {
    let mut w = world(10);
    let job_id = w
        .escrow
        .create_job(&mut w.harvester, &mut w.tokens, CLIENT, CLIENT, FREELANCER, 10, USDC, 2, 0)
        .unwrap();
    let r = w.escrow.submit_proof(CLIENT, job_id, 0, String::from("ipfs://proof"));
    assert_eq!(r, Err(Error::Unauthorized));
    w.escrow.submit_proof(FREELANCER, job_id, 0, String::from("ipfs://proof")).unwrap();
    let job = w.escrow.get_job(job_id).unwrap();
    assert!(matches!(job.milestones[0].status, MilestoneStatus::ProofSubmitted));
    assert_eq!(job.milestones[0].proof_url, String::from("ipfs://proof"));
    // a milestone that already left Pending cannot take a second proof
    let again = w.escrow.submit_proof(FREELANCER, job_id, 0, String::from("x"));
    assert_eq!(again, Err(Error::InvalidState));
}

#[test]
fn approve_missing_milestone_is_not_found() {
    let mut w = world(10);
    let job_id = w
        .escrow
        .create_job(&mut w.harvester, &mut w.tokens, CLIENT, CLIENT, FREELANCER, 10, USDC, 2, 0)
        .unwrap();
    assert_eq!(w.escrow.approve_milestone(CLIENT, job_id, 2), Err(Error::NotFound));
}

#[test]
fn release_unapproved_milestone_fails_with_invalid_state() {
    let mut w = world(10);
    let job_id = w
        .escrow
        .create_job(&mut w.harvester, &mut w.tokens, CLIENT, CLIENT, FREELANCER, 10, USDC, 2, 0)
        .unwrap();
    let r = w.escrow.release_payment(
        &mut w.harvester,
        &w.router,
        &mut w.tokens,
        CLIENT,
        job_id,
        0,
    );
    assert_eq!(r, Err(Error::InvalidState));
}

#[test]
fn release_twice_fails_the_second_time() {
    let mut w = world(10);
    let job_id = w
        .escrow
        .create_job(&mut w.harvester, &mut w.tokens, CLIENT, CLIENT, FREELANCER, 10, USDC, 2, 0)
        .unwrap();
    w.escrow.approve_milestone(CLIENT, job_id, 0).unwrap();
    w.escrow
        .release_payment(&mut w.harvester, &w.router, &mut w.tokens, CLIENT, job_id, 0)
        .unwrap();
    let again = w.escrow.release_payment(
        &mut w.harvester,
        &w.router,
        &mut w.tokens,
        CLIENT,
        job_id,
        0,
    );
    assert_eq!(again, Err(Error::InvalidState));
}

#[test]
fn end_to_end_release_pays_the_freelancer_exactly() {
    let mut w = world(10_000_0000000);
    let job_id = w
        .escrow
        .create_job(
            &mut w.harvester,
            &mut w.tokens,
            CLIENT,
            CLIENT,
            FREELANCER,
            10_000_0000000,
            USDC,
            2,
            0,
        )
        .unwrap();
    w.escrow.submit_proof(FREELANCER, job_id, 0, String::from("ipfs://work")).unwrap();
    w.escrow.approve_milestone(CLIENT, job_id, 0).unwrap();
    let paid = w
        .escrow
        .release_payment(&mut w.harvester, &w.router, &mut w.tokens, CLIENT, job_id, 0)
        .unwrap();
    assert_eq!(paid, 5_000_0000000);
    assert_eq!(w.tokens.balance(USDC, FREELANCER), 5_000_0000000);
    let job = w.escrow.get_job(job_id).unwrap();
    assert!(matches!(job.milestones[0].status, MilestoneStatus::Paid));
    assert!(matches!(job.status, JobStatus::Active));
    assert_eq!(w.escrow.get_job_principal(job_id), 5_000_0000000);
}

#[test]
fn releasing_every_milestone_completes_the_job() {
    let mut w = world(101);
    let job_id = w
        .escrow
        .create_job(&mut w.harvester, &mut w.tokens, CLIENT, CLIENT, FREELANCER, 101, USDC, 2, 0)
        .unwrap();
    w.escrow.approve_milestone(CLIENT, job_id, 0).unwrap();
    w.escrow.approve_milestone(CLIENT, job_id, 1).unwrap();
    w.escrow
        .release_payment(&mut w.harvester, &w.router, &mut w.tokens, CLIENT, job_id, 0)
        .unwrap();
    w.escrow
        .release_payment(&mut w.harvester, &w.router, &mut w.tokens, CLIENT, job_id, 1)
        .unwrap();
    let job = w.escrow.get_job(job_id).unwrap();
    assert!(matches!(job.status, JobStatus::Completed));
    assert_eq!(w.tokens.balance(USDC, FREELANCER), 100);
    // the split remainder is still tracked in custody
    assert_eq!(w.escrow.get_job_principal(job_id), 1);
}

#[test]
fn finalize_returns_the_residual_to_the_client() {
    let mut w = world(101);
    let job_id = w
        .escrow
        .create_job(&mut w.harvester, &mut w.tokens, CLIENT, CLIENT, FREELANCER, 101, USDC, 2, 0)
        .unwrap();
    w.escrow.approve_milestone(CLIENT, job_id, 0).unwrap();
    w.escrow.approve_milestone(CLIENT, job_id, 1).unwrap();
    w.escrow
        .release_payment(&mut w.harvester, &w.router, &mut w.tokens, CLIENT, job_id, 0)
        .unwrap();
    // finalizing an active job is rejected
    let early = w.escrow.finalize_job(&mut w.harvester, &mut w.tokens, CLIENT, job_id, 0);
    assert_eq!(early, Err(Error::InvalidState));
    w.escrow
        .release_payment(&mut w.harvester, &w.router, &mut w.tokens, CLIENT, job_id, 1)
        .unwrap();
    let withdrawn = w
        .escrow
        .finalize_job(&mut w.harvester, &mut w.tokens, CLIENT, job_id, 0)
        .unwrap();
    assert_eq!(withdrawn, 1);
    assert_eq!(w.tokens.balance(USDC, CLIENT), 1);
    assert_eq!(w.escrow.get_job_principal(job_id), 0);
    let job = w.escrow.get_job(job_id).unwrap();
    assert_eq!(job.yield_earned, 0);
}

#[test]
fn cancel_refunds_the_full_total_to_the_client() {
    let mut w = world(10_000);
    let job_id = w
        .escrow
        .create_job(&mut w.harvester, &mut w.tokens, CLIENT, CLIENT, FREELANCER, 10_000, USDC, 2, 0)
        .unwrap();
    assert_eq!(w.tokens.balance(USDC, CLIENT), 0);
    let refunded = w
        .escrow
        .cancel_job(&mut w.harvester, &mut w.tokens, CLIENT, job_id, 0)
        .unwrap();
    assert_eq!(refunded, 10_000);
    assert_eq!(w.tokens.balance(USDC, CLIENT), 10_000);
    let job = w.escrow.get_job(job_id).unwrap();
    assert!(matches!(job.status, JobStatus::Cancelled));
    assert_eq!(w.escrow.get_job_principal(job_id), 0);
}

#[test]
fn cancel_is_terminal() {
    let mut w = world(10_000);
    let job_id = w
        .escrow
        .create_job(&mut w.harvester, &mut w.tokens, CLIENT, CLIENT, FREELANCER, 10_000, USDC, 2, 0)
        .unwrap();
    w.escrow.cancel_job(&mut w.harvester, &mut w.tokens, CLIENT, job_id, 0).unwrap();
    let again = w.escrow.cancel_job(&mut w.harvester, &mut w.tokens, CLIENT, job_id, 0);
    assert_eq!(again, Err(Error::InvalidState));
    let approve = w.escrow.approve_milestone(CLIENT, job_id, 0);
    assert_eq!(approve, Err(Error::InvalidState));
}

#[test]
fn release_with_conversion_routes_through_the_reference_asset() {
    let mut w = world(1000);
    let job_id = w
        .escrow
        .create_job(&mut w.harvester, &mut w.tokens, CLIENT, CLIENT, FREELANCER, 1000, USDC, 1, 0)
        .unwrap();
    w.escrow.approve_milestone(CLIENT, job_id, 0).unwrap();
    let received = w
        .escrow
        .release_payment_with_conversion(
            &mut w.harvester,
            &w.router,
            &mut w.tokens,
            CLIENT,
            job_id,
            0,
            Some(INR),
        )
        .unwrap();
    assert_eq!(received, 4960);
    assert_eq!(w.tokens.balance(INR, FREELANCER), 4960);
    assert_eq!(w.tokens.balance(USDC, FREELANCER), 0);
    assert_eq!(w.tokens.balance(USDC, HARVESTER), 0);
    assert_eq!(w.tokens.balance(USDC, ESCROW), 0);
    assert_eq!(w.tokens.balance(USDC, ROUTER), 0);
    let job = w.escrow.get_job(job_id).unwrap();
    assert!(matches!(job.status, JobStatus::Completed));
}

#[test]
fn job_lists_filter_by_party() {
    let mut w = world(30);
    let a = w
        .escrow
        .create_job(&mut w.harvester, &mut w.tokens, CLIENT, CLIENT, FREELANCER, 10, USDC, 1, 0)
        .unwrap();
    let b = w
        .escrow
        .create_job(&mut w.harvester, &mut w.tokens, CLIENT, CLIENT, FREELANCER, 20, USDC, 2, 0)
        .unwrap();
    let client_jobs = w.escrow.get_client_jobs(CLIENT);
    assert_eq!(client_jobs.len(), 2);
    assert_eq!(client_jobs[0].job_id, a);
    assert_eq!(client_jobs[1].job_id, b);
    let lancer_jobs = w.escrow.get_freelancer_jobs(FREELANCER);
    assert_eq!(lancer_jobs.len(), 2);
    assert!(w.escrow.get_client_jobs(FREELANCER).is_empty());
}
