//! The escrow ledger: the Job/Milestone state machine.
//!
//! A client locks funds for a freelancer, optionally routed into yield
//! custody, and releases them milestone by milestone. Jobs move from
//! `Active` to `Completed` (every milestone paid) or `Cancelled`; both
//! ends are terminal. Milestones move forward only:
//! `Pending → ProofSubmitted → Approved → Paid`, each step gated on the
//! matching party. The acting account enters every operation as `caller`;
//! the host's authorization proof for that account is the platform's
//! business.

use vstd::prelude::*;

use crate::errors::Error;
use crate::AccountId;
use crate::AssetId;
use crate::JobId;

verus! {

/// Where a job stands in its lifecycle.
#[derive(Clone, Copy, Debug, PartialEq, Eq, Structural)]
pub enum JobStatus {
    Active,
    Completed,
    Disputed,
    Cancelled,
}

/// Where a milestone stands in its lifecycle.
#[derive(Clone, Copy, Debug, PartialEq, Eq, Structural)]
pub enum MilestoneStatus {
    Pending,
    ProofSubmitted,
    Approved,
    Paid,
}

/// One releasable slice of a job's total payment.
pub struct Milestone {
    /// Ordinal of this milestone within its job.
    pub milestone_id: u32,
    /// Amount payable on release, in the job's asset.
    pub amount: i128,
    /// Opaque reference to the submitted proof of work.
    pub proof_url: String,
    /// Lifecycle state.
    pub status: MilestoneStatus,
}

/// One escrow agreement between a client and a freelancer.
pub struct Job {
    /// Identifier within this escrow ledger.
    pub job_id: JobId,
    /// The paying account.
    pub client: AccountId,
    /// The account paid on milestone release.
    pub freelancer: AccountId,
    /// The full locked amount.
    pub total_amount: i128,
    /// The asset the job settles in.
    pub asset_address: AssetId,
    /// The milestones, in ordinal order.
    pub milestones: Vec<Milestone>,
    /// Lifecycle state.
    pub status: JobStatus,
    /// Ledger time of creation.
    pub created_at: u64,
    /// Yield recorded for the client at finalization (informational).
    pub yield_earned: i128,
}

impl Clone for Milestone {
    fn clone(&self) -> (res: Self)
        ensures
            res == *self,
    {
        Milestone {
            milestone_id: self.milestone_id,
            amount: self.amount,
            proof_url: self.proof_url.clone(),
            status: self.status,
        }
    }
}

impl Clone for Job {
    fn clone(&self) -> (res: Self)
        ensures
            job_like(*self, res),
    {
        let mut milestones: Vec<Milestone> = Vec::new();
        let mut i: usize = 0;
        while i < self.milestones.len()
            invariant
                i <= self.milestones@.len(),
                milestones@.len() == i,
                forall|k: int| 0 <= k < i ==> milestones@[k] == self.milestones@[k],
            decreases self.milestones@.len() - i,
        {
            milestones.push(self.milestones[i].clone());
            i = i + 1;
        }
        proof {
            assert(milestones@ =~= self.milestones@);
        }
        Job {
            job_id: self.job_id,
            client: self.client,
            freelancer: self.freelancer,
            total_amount: self.total_amount,
            asset_address: self.asset_address,
            milestones,
            status: self.status,
            created_at: self.created_at,
            yield_earned: self.yield_earned,
        }
    }
}

/// The sum of the first `k` milestone amounts.
pub open spec fn msum_prefix(s: Seq<Milestone>, k: int) -> int
    decreases k,
{
    if k <= 0 {
        0
    } else {
        msum_prefix(s, k - 1) + s[k - 1].amount
    }
}

/// The sum of the first `k` milestone amounts that are not yet paid: what
/// a cancellation at that point still owes the client.
pub open spec fn refund_prefix(s: Seq<Milestone>, k: int) -> int
    decreases k,
{
    if k <= 0 {
        0
    } else {
        refund_prefix(s, k - 1) + if s[k - 1].status != MilestoneStatus::Paid {
            s[k - 1].amount as int
        } else {
            0
        }
    }
}

/// Whether every milestone is paid.
pub open spec fn all_paid(s: Seq<Milestone>) -> bool {
    forall|i: int| 0 <= i < s.len() ==> (#[trigger] s[i]).status == MilestoneStatus::Paid
}

/// A job's internal invariant: a non-negative total split into ordinally
/// numbered, non-negative milestones whose sum never exceeds the total.
pub open spec fn job_wf(j: Job) -> bool {
    &&& 0 <= j.total_amount
    &&& j.milestones@.len() <= u32::MAX
    &&& forall|i: int|
        0 <= i < j.milestones@.len() ==> (#[trigger] j.milestones@[i]).milestone_id == i as u32
    &&& forall|i: int| 0 <= i < j.milestones@.len() ==> (#[trigger] j.milestones@[i]).amount >= 0
    &&& msum_prefix(j.milestones@, j.milestones@.len() as int) <= j.total_amount
}

proof fn lemma_refund_prefix_bounds(s: Seq<Milestone>, k: int)
    requires
        0 <= k <= s.len(),
        forall|i: int| 0 <= i < s.len() ==> (#[trigger] s[i]).amount >= 0,
    ensures
        0 <= refund_prefix(s, k),
        refund_prefix(s, k) <= msum_prefix(s, k),
        msum_prefix(s, k) >= 0,
    decreases k,
{
    if k > 0 {
        lemma_refund_prefix_bounds(s, k - 1);
    }
}

proof fn lemma_msum_prefix_monotonic(s: Seq<Milestone>, k: int, n: int)
    requires
        0 <= k <= n <= s.len(),
        forall|i: int| 0 <= i < s.len() ==> (#[trigger] s[i]).amount >= 0,
    ensures
        msum_prefix(s, k) <= msum_prefix(s, n),
    decreases n - k,
{
    if k < n {
        lemma_msum_prefix_monotonic(s, k, n - 1);
    }
}

/// Sums depend only on the amounts and paid flags of the summed prefix.
proof fn lemma_sum_prefix_congruent(s1: Seq<Milestone>, s2: Seq<Milestone>, k: int)
    requires
        0 <= k <= s1.len(),
        k <= s2.len(),
        forall|i: int|
            0 <= i < k ==> (#[trigger] s2[i]).amount == s1[i].amount && (s2[i].status
                == MilestoneStatus::Paid) == (s1[i].status == MilestoneStatus::Paid),
    ensures
        msum_prefix(s2, k) == msum_prefix(s1, k),
        refund_prefix(s2, k) == refund_prefix(s1, k),
    decreases k,
{
    if k > 0 {
        lemma_sum_prefix_congruent(s1, s2, k - 1);
    }
}

/// The milestone sum depends only on the amounts of the summed prefix.
proof fn lemma_msum_prefix_congruent(s1: Seq<Milestone>, s2: Seq<Milestone>, k: int)
    requires
        0 <= k <= s1.len(),
        k <= s2.len(),
        forall|i: int| 0 <= i < k ==> (#[trigger] s2[i]).amount == s1[i].amount,
    ensures
        msum_prefix(s2, k) == msum_prefix(s1, k),
    decreases k,
{
    if k > 0 {
        lemma_msum_prefix_congruent(s1, s2, k - 1);
    }
}

/// Whether `b` carries the same job as `a`: every field equal, the
/// milestone lists equal element for element.
pub open spec fn job_like(a: Job, b: Job) -> bool {
    &&& same_job_header(a, b)
    &&& b.status == a.status
    &&& b.milestones@ == a.milestones@
}

/// Whether `b` carries the same jobs as `a`, element for element.
pub open spec fn jobs_like(a: Seq<Job>, b: Seq<Job>) -> bool {
    &&& b.len() == a.len()
    &&& forall|i: int| 0 <= i < a.len() ==> job_like(#[trigger] a[i], #[trigger] b[i])
}

/// Whether `b` agrees with `a` on every job field except the milestone
/// list and the lifecycle status.
pub open spec fn same_job_header(a: Job, b: Job) -> bool {
    &&& b.job_id == a.job_id
    &&& b.client == a.client
    &&& b.freelancer == a.freelancer
    &&& b.total_amount == a.total_amount
    &&& b.asset_address == a.asset_address
    &&& b.created_at == a.created_at
    &&& b.yield_earned == a.yield_earned
}

spec fn jb_has(s: Seq<Job>, id: JobId) -> bool {
    exists|i: int| 0 <= i < s.len() && s[i].job_id == id
}

spec fn jb_index_of(s: Seq<Job>, id: JobId) -> int {
    choose|i: int| 0 <= i < s.len() && s[i].job_id == id
}

spec fn jb_wf(s: Seq<Job>) -> bool {
    &&& forall|i: int, j: int|
        0 <= i < j < s.len() ==> (#[trigger] s[i]).job_id != (#[trigger] s[j]).job_id
    &&& forall|i: int| 0 <= i < s.len() ==> job_wf(#[trigger] s[i])
}

proof fn jb_lemma_at(s: Seq<Job>, i: int)
    requires
        jb_wf(s),
        0 <= i < s.len(),
    ensures
        jb_has(s, s[i].job_id),
        jb_index_of(s, s[i].job_id) == i,
{
    assert(jb_has(s, s[i].job_id));
    let j = jb_index_of(s, s[i].job_id);
    assert(0 <= j < s.len() && s[j].job_id == s[i].job_id);
}

proof fn jb_lemma_update(pre: Seq<Job>, post: Seq<Job>, i: int)
    requires
        jb_wf(pre),
        0 <= i < pre.len(),
        post == pre.update(i, post[i]),
        post[i].job_id == pre[i].job_id,
        job_wf(post[i]),
    ensures
        jb_wf(post),
        forall|d: JobId| jb_has(post, d) == jb_has(pre, d),
        jb_index_of(post, post[i].job_id) == i,
        forall|d: JobId|
            jb_has(pre, d) && d != pre[i].job_id ==> post[jb_index_of(post, d)] == pre[jb_index_of(
                pre,
                d,
            )],
{
    assert forall|k: int| 0 <= k < pre.len() && k != i implies (#[trigger] post[k])
        == pre[k] by {}
    assert forall|d: JobId| jb_has(post, d) == jb_has(pre, d) by {
        if jb_has(pre, d) {
            let k = jb_index_of(pre, d);
            assert(post[k].job_id == d);
        }
        if jb_has(post, d) {
            let k = jb_index_of(post, d);
            assert(pre[k].job_id == d);
        }
    }
    jb_lemma_at(post, i);
    assert forall|d: JobId| jb_has(pre, d) && d != pre[i].job_id implies post[jb_index_of(post, d)]
        == pre[jb_index_of(pre, d)] by {
        let k = jb_index_of(pre, d);
        assert(0 <= k < pre.len() && pre[k].job_id == d);
        assert(k != i);
        assert(post[k].job_id == d);
        jb_lemma_at(post, k);
    }
}

proof fn jb_lemma_push(pre: Seq<Job>, post: Seq<Job>)
    requires
        jb_wf(pre),
        post == pre.push(post[pre.len() as int]),
        job_wf(post[pre.len() as int]),
        !jb_has(pre, post[pre.len() as int].job_id),
    ensures
        jb_wf(post),
        jb_has(post, post[pre.len() as int].job_id),
        jb_index_of(post, post[pre.len() as int].job_id) == pre.len(),
        forall|d: JobId|
            d != post[pre.len() as int].job_id ==> jb_has(post, d) == jb_has(pre, d),
        forall|d: JobId|
            jb_has(pre, d) ==> post[jb_index_of(post, d)] == pre[jb_index_of(pre, d)],
{
    let n = pre.len() as int;
    assert forall|k: int| 0 <= k < n implies (#[trigger] post[k]) == pre[k] by {}
    assert forall|k: int| 0 <= k < n implies (#[trigger] post[k]).job_id != post[n].job_id by {
        if post[k].job_id == post[n].job_id {
            assert(jb_has(pre, post[n].job_id));
        }
    }
    jb_lemma_at(post, n);
    assert forall|d: JobId| d != post[n].job_id implies jb_has(post, d) == jb_has(pre, d) by {
        if jb_has(pre, d) {
            let k = jb_index_of(pre, d);
            assert(post[k].job_id == d);
        }
        if jb_has(post, d) {
            let k = jb_index_of(post, d);
            assert(k != n);
            assert(pre[k].job_id == d);
        }
    }
    assert forall|d: JobId| jb_has(pre, d) implies post[jb_index_of(post, d)] == pre[jb_index_of(
        pre,
        d,
    )] by {
        let k = jb_index_of(pre, d);
        assert(0 <= k < n && pre[k].job_id == d);
        assert(post[k].job_id == d);
        jb_lemma_at(post, k);
        assert(k != n);
    }
}

spec fn pr_has(s: Seq<(JobId, i128)>, id: JobId) -> bool {
    exists|i: int| 0 <= i < s.len() && s[i].0 == id
}

spec fn pr_index_of(s: Seq<(JobId, i128)>, id: JobId) -> int {
    choose|i: int| 0 <= i < s.len() && s[i].0 == id
}

spec fn pr_value(s: Seq<(JobId, i128)>, id: JobId) -> int {
    if pr_has(s, id) {
        s[pr_index_of(s, id)].1 as int
    } else {
        0
    }
}

spec fn pr_wf(s: Seq<(JobId, i128)>) -> bool {
    &&& forall|i: int, j: int| 0 <= i < j < s.len() ==> (#[trigger] s[i]).0 != (#[trigger] s[j]).0
    &&& forall|i: int| 0 <= i < s.len() ==> (#[trigger] s[i]).1 >= 0
}

proof fn pr_lemma_at(s: Seq<(JobId, i128)>, i: int)
    requires
        pr_wf(s),
        0 <= i < s.len(),
    ensures
        pr_has(s, s[i].0),
        pr_value(s, s[i].0) == s[i].1,
{
    assert(pr_has(s, s[i].0));
    let j = pr_index_of(s, s[i].0);
    assert(0 <= j < s.len() && s[j].0 == s[i].0);
}

proof fn pr_lemma_update(pre: Seq<(JobId, i128)>, post: Seq<(JobId, i128)>, i: int)
    requires
        pr_wf(pre),
        0 <= i < pre.len(),
        post == pre.update(i, post[i]),
        post[i].0 == pre[i].0,
        post[i].1 >= 0,
    ensures
        pr_wf(post),
        pr_value(post, pre[i].0) == post[i].1,
        forall|d: JobId| d != pre[i].0 ==> pr_value(post, d) == pr_value(pre, d),
{
    assert forall|k: int| 0 <= k < pre.len() implies (#[trigger] post[k]).0 == pre[k].0 by {}
    pr_lemma_at(post, i);
    assert forall|d: JobId| d != pre[i].0 implies pr_value(post, d) == pr_value(pre, d) by {
        if pr_has(pre, d) {
            let k = pr_index_of(pre, d);
            assert(0 <= k < pre.len() && pre[k].0 == d);
            assert(post[k].0 == d);
            pr_lemma_at(post, k);
            pr_lemma_at(pre, k);
            assert(k != i);
        } else {
            if pr_has(post, d) {
                let k2 = pr_index_of(post, d);
                assert(pre[k2].0 == d);
            }
        }
    }
}

proof fn pr_lemma_push(pre: Seq<(JobId, i128)>, post: Seq<(JobId, i128)>)
    requires
        pr_wf(pre),
        post == pre.push(post[pre.len() as int]),
        post[pre.len() as int].1 >= 0,
        !pr_has(pre, post[pre.len() as int].0),
    ensures
        pr_wf(post),
        pr_value(post, post[pre.len() as int].0) == post[pre.len() as int].1,
        forall|d: JobId|
            d != post[pre.len() as int].0 ==> pr_value(post, d) == pr_value(pre, d),
{
    let n = pre.len() as int;
    let a = post[n].0;
    assert forall|k: int| 0 <= k < n implies (#[trigger] post[k]) == pre[k] by {}
    assert forall|k: int| 0 <= k < n implies (#[trigger] post[k]).0 != a by {
        if post[k].0 == a {
            assert(pr_has(pre, a));
        }
    }
    pr_lemma_at(post, n);
    assert forall|d: JobId| d != a implies pr_value(post, d) == pr_value(pre, d) by {
        if pr_has(pre, d) {
            let k = pr_index_of(pre, d);
            assert(0 <= k < n && pre[k].0 == d);
            assert(post[k].0 == d);
            pr_lemma_at(post, k);
            pr_lemma_at(pre, k);
        } else {
            if pr_has(post, d) {
                let k2 = pr_index_of(post, d);
                assert(k2 != n);
                assert(pre[k2].0 == d);
            }
        }
    }
}

#[derive(Clone, Copy)]
struct EscrowConfig {
    yield_harvester: AccountId,
    liquidity_router: AccountId,
    usdc_token: AssetId,
    ousg_token: AssetId,
}

/// Owns the jobs, the per-job principal trackers, and the init-once
/// configuration naming the collaborating components.
pub struct EscrowCore {
    account: AccountId,
    config: Option<EscrowConfig>,
    next_job_id: JobId,
    jobs: Vec<Job>,
    principals: Vec<(JobId, i128)>,
}

impl EscrowCore {
    /// The escrow's own custody account.
    pub closed spec fn spec_account(&self) -> AccountId {
        self.account
    }

    /// Whether the init-once configuration has been written.
    pub closed spec fn initialized(&self) -> bool {
        self.config is Some
    }

    /// The yield custody component's account.
    pub closed spec fn spec_yield_harvester(&self) -> AccountId {
        self.config->0.yield_harvester
    }

    /// The conversion router's account.
    pub closed spec fn spec_liquidity_router(&self) -> AccountId {
        self.config->0.liquidity_router
    }

    /// The settlement asset that is routed into yield custody.
    pub closed spec fn spec_usdc_token(&self) -> AssetId {
        self.config->0.usdc_token
    }

    /// The yield-bearing asset named at initialization (informational).
    pub closed spec fn spec_ousg_token(&self) -> AssetId {
        self.config->0.ousg_token
    }

    /// Whether a job with this id exists.
    pub closed spec fn has_job(&self, id: JobId) -> bool {
        jb_has(self.jobs@, id)
    }

    /// The job with this id (meaningful when it exists).
    pub closed spec fn job_of(&self, id: JobId) -> Job {
        self.jobs@[jb_index_of(self.jobs@, id)]
    }

    /// The principal still tracked in yield custody for this job.
    pub closed spec fn principal_of(&self, id: JobId) -> int {
        pr_value(self.principals@, id)
    }

    /// The id the next created job will get.
    pub closed spec fn spec_next_job_id(&self) -> JobId {
        self.next_job_id
    }

    /// Job ids are distinct and below the counter, every job and tracker
    /// is well-formed, jobs exist only once configured, and no job names
    /// a component custody account as a party.
    pub closed spec fn wf(&self) -> bool {
        &&& jb_wf(self.jobs@)
        &&& pr_wf(self.principals@)
        &&& forall|k: int|
            0 <= k < self.jobs@.len() ==> (#[trigger] self.jobs@[k]).job_id < self.next_job_id
        &&& forall|k: int|
            0 <= k < self.principals@.len() ==> (#[trigger] self.principals@[k]).0
                < self.next_job_id
        &&& self.jobs@.len() > 0 ==> self.config is Some
        &&& forall|k: int|
            0 <= k < self.jobs@.len() ==> !Self::reserved_account(
                self,
                (#[trigger] self.jobs@[k]).client,
            ) && !Self::reserved_account(self, self.jobs@[k].freelancer)
    }

    /// Whether `a` is one of the component custody accounts, which no job
    /// party may use.
    pub closed spec fn reserved_account(&self, a: AccountId) -> bool {
        a == self.account || (self.config is Some && (a == self.config->0.yield_harvester || a
            == self.config->0.liquidity_router))
    }

    /// In a well-formed ledger every existing job satisfies its
    /// invariant, its parties avoid the component accounts, and its
    /// tracker is non-negative.
    pub proof fn lemma_job_wf(&self, id: JobId)
        requires
            self.wf(),
            self.has_job(id),
        ensures
            job_wf(self.job_of(id)),
            self.job_of(id).job_id == id,
            self.initialized(),
            !self.reserved_account(self.job_of(id).client),
            !self.reserved_account(self.job_of(id).freelancer),
            0 <= self.principal_of(id),
    {
        let i = jb_index_of(self.jobs@, id);
        assert(0 <= i < self.jobs@.len() && self.jobs@[i].job_id == id);
        if pr_has(self.principals@, id) {
            let k = pr_index_of(self.principals@, id);
            assert(0 <= k < self.principals@.len() && self.principals@[k].0 == id);
        }
    }

    /// An empty escrow ledger whose custody account is `account`.
    pub fn new(account: AccountId) -> (r: Self)
        ensures
            r.wf(),
            r.spec_account() == account,
            !r.initialized(),
            forall|d: JobId| !r.has_job(d),
            forall|d: JobId| r.principal_of(d) == 0,
            r.spec_next_job_id() == 1,
    {
        EscrowCore {
            account,
            config: None,
            next_job_id: 1,
            jobs: Vec::new(),
            principals: Vec::new(),
        }
    }

    /// The escrow's custody account.
    pub fn address(&self) -> (r: AccountId)
        ensures
            r == self.spec_account(),
    {
        self.account
    }

    /// Records the collaborating components and assets, once.
    pub fn initialize(
        &mut self,
        yield_harvester: AccountId,
        liquidity_router: AccountId,
        usdc_token: AssetId,
        ousg_token: AssetId,
    ) -> (r: Result<(), Error>)
        requires
            old(self).wf(),
        ensures
            final(self).wf(),
            final(self).spec_account() == old(self).spec_account(),
            r is Ok <==> !old(self).initialized(),
            r is Err ==> *final(self) == *old(self) && r == Err::<(), Error>(
                Error::AlreadyInitialized,
            ),
            r is Ok ==> final(self).initialized() && final(self).spec_yield_harvester()
                == yield_harvester && final(self).spec_liquidity_router() == liquidity_router
                && final(self).spec_usdc_token() == usdc_token && final(self).spec_ousg_token()
                == ousg_token,
            forall|d: JobId| final(self).has_job(d) == old(self).has_job(d),
            forall|d: JobId| old(self).has_job(d) ==> final(self).job_of(d) == old(self).job_of(d),
            forall|d: JobId| final(self).principal_of(d) == old(self).principal_of(d),
    {
        if self.config.is_some() {
            return Err(Error::AlreadyInitialized);
        }
        proof {
            assert(self.jobs@.len() == 0);
        }
        self.config = Some(
            EscrowConfig { yield_harvester, liquidity_router, usdc_token, ousg_token },
        );
        Ok(())
    }

    fn find_job(&self, id: JobId) -> (r: Option<usize>)
        ensures
            match r {
                Some(i) => i < self.jobs@.len() && self.jobs@[i as int].job_id == id
                    && self.has_job(id) && (self.wf() ==> self.jobs@[i as int] == self.job_of(id)),
                None => !self.has_job(id),
            },
    {
        let mut i: usize = 0;
        while i < self.jobs.len()
            invariant
                i <= self.jobs@.len(),
                forall|j: int| 0 <= j < i ==> (#[trigger] self.jobs@[j]).job_id != id,
            decreases self.jobs@.len() - i,
        {
            let j = &self.jobs[i];
            if j.job_id == id {
                proof {
                    assert(jb_has(self.jobs@, id));
                    if jb_wf(self.jobs@) {
                        jb_lemma_at(self.jobs@, i as int);
                    }
                }
                return Some(i);
            }
            i = i + 1;
        }
        None
    }

    fn find_principal(&self, id: JobId) -> (r: Option<usize>)
        ensures
            match r {
                Some(i) => i < self.principals@.len() && self.principals@[i as int].0 == id
                    && pr_has(self.principals@, id),
                None => !pr_has(self.principals@, id),
            },
    {
        let mut i: usize = 0;
        while i < self.principals.len()
            invariant
                i <= self.principals@.len(),
                forall|j: int| 0 <= j < i ==> (#[trigger] self.principals@[j]).0 != id,
            decreases self.principals@.len() - i,
        {
            if self.principals[i].0 == id {
                proof {
                    assert(pr_has(self.principals@, id));
                }
                return Some(i);
            }
            i = i + 1;
        }
        None
    }

    /// The tracked custody principal of a job (zero when none is
    /// tracked).
    pub fn get_job_principal(&self, id: JobId) -> (r: i128)
        requires
            self.wf(),
        ensures
            r == self.principal_of(id),
    {
        match self.find_principal(id) {
            Some(i) => {
                proof {
                    pr_lemma_at(self.principals@, i as int);
                }
                self.principals[i].1
            },
            None => 0,
        }
    }

    /// Writes tracker value `v` for job `id`.
    fn set_job_principal(&mut self, id: JobId, v: i128)
        requires
            old(self).wf(),
            0 <= v,
            id < old(self).spec_next_job_id(),
        ensures
            final(self).wf(),
            final(self).principal_of(id) == v,
            forall|d: JobId| d != id ==> final(self).principal_of(d) == old(self).principal_of(d),
            final(self).spec_account() == old(self).spec_account(),
            final(self).initialized() == old(self).initialized(),
            final(self).config == old(self).config,
            final(self).jobs == old(self).jobs,
            final(self).next_job_id == old(self).next_job_id,
    {
        let ghost pre = self.principals@;
        match self.find_principal(id) {
            Some(i) => {
                self.principals[i] = (id, v);
                proof {
                    pr_lemma_update(pre, self.principals@, i as int);
                }
            },
            None => {
                self.principals.push((id, v));
                proof {
                    pr_lemma_push(pre, self.principals@);
                }
            },
        }
    }

    /// The job with this id.
    pub fn get_job(&self, job_id: JobId) -> (r: Result<Job, Error>)
        requires
            self.wf(),
        ensures
            r is Ok <==> self.has_job(job_id),
            r is Ok ==> job_like(self.job_of(job_id), r->Ok_0),
            r is Err ==> r == Err::<Job, Error>(Error::NotFound),
    {
        match self.find_job(job_id) {
            Some(i) => {
                let j = &self.jobs[i];
                Ok(j.clone())
            },
            None => Err(Error::NotFound),
        }
    }

    /// Every job whose client is `client`, in creation order.
    pub fn get_client_jobs(&self, client: AccountId) -> (r: Vec<Job>)
        requires
            self.wf(),
        ensures
            jobs_like(self.jobs_view().filter(|j: Job| j.client == client), r@),
    {
        let mut out: Vec<Job> = Vec::new();
        let mut i: usize = 0;
        proof {
            assert(self.jobs_view().take(0).filter(|j: Job| j.client == client) =~= out@);
        }
        while i < self.jobs.len()
            invariant
                self.wf(),
                i <= self.jobs@.len(),
                jobs_like(
                    self.jobs_view().take(i as int).filter(|j: Job| j.client == client),
                    out@,
                ),
            decreases self.jobs@.len() - i,
        {
            let ghost prefix = self.jobs_view().take(i as int);
            let j = &self.jobs[i];
            if j.client == client {
                out.push(j.clone());
            }
            proof {
                let next = self.jobs_view().take(i + 1 as int);
                assert(next.drop_last() =~= prefix);
                assert(next.last() == self.jobs@[i as int]);
                reveal_with_fuel(Seq::filter, 2);
            }
            i = i + 1;
        }
        proof {
            assert(self.jobs_view().take(self.jobs@.len() as int) =~= self.jobs_view());
        }
        out
    }

    /// Every job whose freelancer is `freelancer`, in creation order.
    pub fn get_freelancer_jobs(&self, freelancer: AccountId) -> (r: Vec<Job>)
        requires
            self.wf(),
        ensures
            jobs_like(self.jobs_view().filter(|j: Job| j.freelancer == freelancer), r@),
    {
        let mut out: Vec<Job> = Vec::new();
        let mut i: usize = 0;
        proof {
            assert(self.jobs_view().take(0).filter(|j: Job| j.freelancer == freelancer) =~= out@);
        }
        while i < self.jobs.len()
            invariant
                self.wf(),
                i <= self.jobs@.len(),
                jobs_like(
                    self.jobs_view().take(i as int).filter(|j: Job| j.freelancer == freelancer),
                    out@,
                ),
            decreases self.jobs@.len() - i,
        {
            let ghost prefix = self.jobs_view().take(i as int);
            let j = &self.jobs[i];
            if j.freelancer == freelancer {
                out.push(j.clone());
            }
            proof {
                let next = self.jobs_view().take(i + 1 as int);
                assert(next.drop_last() =~= prefix);
                assert(next.last() == self.jobs@[i as int]);
                reveal_with_fuel(Seq::filter, 2);
            }
            i = i + 1;
        }
        proof {
            assert(self.jobs_view().take(self.jobs@.len() as int) =~= self.jobs_view());
        }
        out
    }

    /// The stored jobs, in creation order.
    pub closed spec fn jobs_view(&self) -> Seq<Job> {
        self.jobs@
    }

    fn is_reserved(&self, a: AccountId) -> (r: bool)
        ensures
            r == self.reserved_account(a),
    {
        if a == self.account {
            return true;
        }
        match self.config {
            Some(c) => a == c.yield_harvester || a == c.liquidity_router,
            None => false,
        }
    }

    /// The exact outcome of `create_job`.
    pub open spec fn spec_create_job(
        &self,
        h: &crate::yield_custody::RwaYieldHarvester,
        t: &crate::token::TokenLedger,
        caller: AccountId,
        client: AccountId,
        freelancer: AccountId,
        total_amount: i128,
        asset_address: AssetId,
        milestone_count: u32,
    ) -> Result<JobId, Error> {
        if !self.initialized() {
            Err(Error::NotFound)
        } else if caller != client {
            Err(Error::Unauthorized)
        } else if milestone_count == 0 {
            Err(Error::InvalidArgument)
        } else if self.reserved_account(client) || self.reserved_account(freelancer) {
            Err(Error::InvalidArgument)
        } else if total_amount < 0 {
            Err(Error::InvalidArgument)
        } else if self.spec_next_job_id() == u64::MAX {
            Err(Error::Arithmetic)
        } else {
            let custody = asset_address == self.spec_usdc_token();
            if custody && t.bal(asset_address, self.spec_yield_harvester()) + total_amount
                > i128::MAX {
                Err(Error::Arithmetic)
            } else if custody && h.has_position(client) && h.position_of(client).principal
                + total_amount > i128::MAX {
                Err(Error::Arithmetic)
            } else if custody && h.has_position(client) && h.position_of(client).ousg_balance
                + total_amount > i128::MAX {
                Err(Error::Arithmetic)
            } else if !t.has_asset(asset_address) {
                Err(Error::NotFound)
            } else if t.bal(asset_address, client) < total_amount {
                Err(Error::InsufficientBalance)
            } else if t.bal(asset_address, self.spec_account()) + total_amount > i128::MAX {
                Err(Error::Arithmetic)
            } else {
                Ok(self.spec_next_job_id())
            }
        }
    }

    /// Locks `total_amount` of `asset_address` from the client, splits it
    /// into `milestone_count` equal pending milestones (integer division;
    /// the remainder stays in the tracked principal), and, when the asset
    /// is the custody settlement asset, routes the full amount into yield
    /// custody under the client's position. Returns the new job's id.
    #[verifier::rlimit(100)]
    pub fn create_job(
        &mut self,
        harvester: &mut crate::yield_custody::RwaYieldHarvester,
        tokens: &mut crate::token::TokenLedger,
        caller: AccountId,
        client: AccountId,
        freelancer: AccountId,
        total_amount: i128,
        asset_address: AssetId,
        milestone_count: u32,
        now: u64,
    ) -> (r: Result<JobId, Error>)
        requires
            old(self).wf(),
            old(harvester).wf(),
            old(tokens).wf(),
            old(self).initialized() ==> old(harvester).spec_account() == old(
                self,
            ).spec_yield_harvester() && old(harvester).spec_trusted_caller() == old(
                self,
            ).spec_account() && old(self).spec_yield_harvester() != old(self).spec_account(),
        ensures
            final(self).wf(),
            final(harvester).wf(),
            final(tokens).wf(),
            final(self).spec_account() == old(self).spec_account(),
            final(self).initialized() == old(self).initialized(),
            final(harvester).spec_account() == old(harvester).spec_account(),
            final(harvester).spec_trusted_caller() == old(harvester).spec_trusted_caller(),
            forall|x: AssetId| final(tokens).has_asset(x) == old(tokens).has_asset(x),
            r == old(self).spec_create_job(
                old(harvester),
                old(tokens),
                caller,
                client,
                freelancer,
                total_amount,
                asset_address,
                milestone_count,
            ),
            r is Err ==> *final(self) == *old(self) && *final(harvester) == *old(harvester)
                && *final(tokens) == *old(tokens),
            r is Ok ==> r->Ok_0 == old(self).spec_next_job_id() && final(self).spec_next_job_id()
                == old(self).spec_next_job_id() + 1,
            r is Ok ==> final(self).has_job(r->Ok_0) && !old(self).has_job(r->Ok_0),
            r is Ok ==> {
                let j = final(self).job_of(r->Ok_0);
                &&& j.job_id == r->Ok_0
                &&& j.client == client
                &&& j.freelancer == freelancer
                &&& j.total_amount == total_amount
                &&& j.asset_address == asset_address
                &&& j.status == JobStatus::Active
                &&& j.created_at == now
                &&& j.yield_earned == 0
                &&& j.milestones@.len() == milestone_count
                &&& forall|i: int|
                    0 <= i < milestone_count ==> (#[trigger] j.milestones@[i]).milestone_id == i
                        as u32 && j.milestones@[i].amount == total_amount as int / milestone_count
                        as int && j.milestones@[i].status == MilestoneStatus::Pending
                        && j.milestones@[i].proof_url@.len() == 0
                &&& msum_prefix(j.milestones@, j.milestones@.len() as int) <= total_amount
                &&& total_amount - msum_prefix(j.milestones@, j.milestones@.len() as int)
                    < milestone_count
            },
            r is Ok ==> final(self).principal_of(r->Ok_0) == (if asset_address == old(
                self,
            ).spec_usdc_token() {
                total_amount as int
            } else {
                0
            }),
            r is Ok ==> forall|d: JobId|
                d != r->Ok_0 ==> final(self).has_job(d) == old(self).has_job(d),
            r is Ok ==> forall|d: JobId|
                d != r->Ok_0 && old(self).has_job(d) ==> final(self).job_of(d) == old(self).job_of(
                    d,
                ),
            r is Ok ==> forall|d: JobId|
                d != r->Ok_0 ==> final(self).principal_of(d) == old(self).principal_of(d),
            r is Ok && asset_address != old(self).spec_usdc_token() ==> *final(harvester) == *old(
                harvester,
            ) && final(tokens).bal(asset_address, client) == old(tokens).bal(asset_address, client)
                - total_amount && final(tokens).bal(asset_address, old(self).spec_account()) == old(
                tokens,
            ).bal(asset_address, old(self).spec_account()) + total_amount && (forall|
                x: AssetId,
                a: AccountId,
            |
                !(x == asset_address && (a == client || a == old(self).spec_account()))
                    ==> final(tokens).bal(x, a) == old(tokens).bal(x, a)),
            r is Ok && asset_address == old(self).spec_usdc_token() ==> final(tokens).bal(
                asset_address,
                client,
            ) == old(tokens).bal(asset_address, client) - total_amount && final(tokens).bal(
                asset_address,
                old(self).spec_yield_harvester(),
            ) == old(tokens).bal(asset_address, old(self).spec_yield_harvester()) + total_amount
                && final(tokens).bal(asset_address, old(self).spec_account()) == old(tokens).bal(
                asset_address,
                old(self).spec_account(),
            ) && (forall|x: AssetId, a: AccountId|
                !(x == asset_address && (a == client || a == old(self).spec_account() || a == old(
                    self,
                ).spec_yield_harvester())) ==> final(tokens).bal(x, a) == old(tokens).bal(x, a)),
            r is Ok && asset_address == old(self).spec_usdc_token() && old(harvester).has_position(
                client,
            ) ==> final(harvester).has_position(client) && final(harvester).position_of(client)
                == (crate::yield_custody::YieldPosition {
                principal: (old(harvester).position_of(client).principal + total_amount) as i128,
                ousg_balance: (old(harvester).position_of(client).ousg_balance
                    + total_amount) as i128,
                ..old(harvester).position_of(client)
            }),
            r is Ok && asset_address == old(self).spec_usdc_token() && !old(
                harvester,
            ).has_position(client) ==> final(harvester).has_position(client) && final(harvester).position_of(client) == (crate::yield_custody::YieldPosition {
                owner: client,
                principal: total_amount,
                ousg_balance: total_amount,
                deposited_at: now,
                last_harvest_at: now,
                total_yield_earned: 0,
            }),
            r is Ok ==> forall|o: AccountId|
                o != client ==> final(harvester).has_position(o) == old(harvester).has_position(o),
            r is Ok ==> forall|o: AccountId|
                o != client && old(harvester).has_position(o) ==> final(harvester).position_of(o)
                    == old(harvester).position_of(o),
    {
        let cfg = match self.config {
            Some(c) => c,
            None => {
                return Err(Error::NotFound);
            },
        };
        if caller != client {
            return Err(Error::Unauthorized);
        }
        if milestone_count == 0 {
            return Err(Error::InvalidArgument);
        }
        if self.is_reserved(client) || self.is_reserved(freelancer) {
            return Err(Error::InvalidArgument);
        }
        if total_amount < 0 {
            return Err(Error::InvalidArgument);
        }
        if self.next_job_id == u64::MAX {
            return Err(Error::Arithmetic);
        }
        let custody = asset_address == cfg.usdc_token;
        if custody {
            let hb = tokens.balance(asset_address, cfg.yield_harvester);
            if hb > i128::MAX - total_amount {
                return Err(Error::Arithmetic);
            }
            match harvester.get_position(client) {
                Ok(p) => {
                    if p.principal > i128::MAX - total_amount {
                        return Err(Error::Arithmetic);
                    }
                    if p.ousg_balance > i128::MAX - total_amount {
                        return Err(Error::Arithmetic);
                    }
                },
                Err(_) => {},
            }
        }
        let ghost t0 = *tokens;
        let tr = tokens.transfer(asset_address, client, self.account, total_amount);
        match tr {
            Ok(_) => {},
            Err(e) => {
                return Err(e);
            },
        }
        let ghost t1 = *tokens;
        let job_id = self.next_job_id;
        self.next_job_id = self.next_job_id + 1;
        if custody {
            proof {
                t0.lemma_bal_nonneg(asset_address, self.spec_account());
                t0.lemma_bal_nonneg(asset_address, cfg.yield_harvester);
            }
            let tr2 = tokens.transfer(asset_address, self.account, cfg.yield_harvester, total_amount);
            match tr2 {
                Ok(_) => {},
                Err(_) => {
                    proof {
                        assert(false);
                    }
                },
            }
            let dep = harvester.deposit_from_contract(
                tokens,
                self.account,
                client,
                total_amount,
                asset_address,
                now,
            );
            match dep {
                Ok(_) => {},
                Err(_) => {
                    proof {
                        assert(false);
                    }
                },
            }
            let ghost s_pre = *self;
            self.set_job_principal(job_id, total_amount);
            let ghost s_mid = *self;
            proof {
                assert forall|d: JobId| d != job_id implies self.principal_of(d) == old(
                    self,
                ).principal_of(d) by {
                    assert(s_mid.principal_of(d) == s_pre.principal_of(d));
                    assert(s_pre.principals@ == old(self).principals@);
                    assert(self.principals@ == s_mid.principals@);
                }
            }
        }
        let per: i128 = crate::amount::div_floor(total_amount, milestone_count as i128);
        proof {
            vstd::arithmetic::div_mod::lemma_div_pos_is_pos(
                total_amount as int,
                milestone_count as int,
            );
        }
        let mut milestones: Vec<Milestone> = Vec::new();
        let mut i: u32 = 0;
        while i < milestone_count
            invariant
                i <= milestone_count,
                0 <= per,
                per == total_amount as int / milestone_count as int,
                milestones@.len() == i,
                forall|k: int|
                    0 <= k < i ==> (#[trigger] milestones@[k]).milestone_id == k as u32
                        && milestones@[k].amount == per && milestones@[k].status
                        == MilestoneStatus::Pending && milestones@[k].proof_url@.len() == 0,
                msum_prefix(milestones@, i as int) == i * per,
            decreases milestone_count - i,
        {
            let ghost pre_ms = milestones@;
            milestones.push(
                Milestone {
                    milestone_id: i,
                    amount: per,
                    proof_url: String::new(),
                    status: MilestoneStatus::Pending,
                },
            );
            proof {
                lemma_sum_prefix_congruent(pre_ms, milestones@, i as int);
                assert(msum_prefix(milestones@, i + 1 as int) == msum_prefix(milestones@, i as int)
                    + per);
                assert((i + 1) * per == i * per + per) by (nonlinear_arith);
            }
            i = i + 1;
        }
        proof {
            vstd::arithmetic::div_mod::lemma_fundamental_div_mod(
                total_amount as int,
                milestone_count as int,
            );
            vstd::arithmetic::div_mod::lemma_mod_bound(total_amount as int, milestone_count as int);
        }
        let job = Job {
            job_id,
            client,
            freelancer,
            total_amount,
            asset_address,
            milestones,
            status: JobStatus::Active,
            created_at: now,
            yield_earned: 0,
        };
        let ghost pre_jobs = self.jobs@;
        proof {
            if jb_has(pre_jobs, job_id) {
                let k = jb_index_of(pre_jobs, job_id);
                assert(0 <= k < pre_jobs.len() && pre_jobs[k].job_id == job_id);
            }
        }
        self.jobs.push(job);
        proof {
            jb_lemma_push(pre_jobs, self.jobs@);
            if pr_has(self.principals@, job_id) {
                let k = pr_index_of(self.principals@, job_id);
                assert(0 <= k < self.principals@.len() && self.principals@[k].0 == job_id);
            }
            if custody {
                assert(self.principal_of(job_id) == total_amount as int);
                assert(t1.bal(asset_address, client) == t0.bal(asset_address, client)
                    - total_amount);
                assert(tokens.bal(asset_address, client) == t1.bal(asset_address, client));
                assert(t1.bal(asset_address, cfg.yield_harvester) == t0.bal(
                    asset_address,
                    cfg.yield_harvester,
                ));
                assert(tokens.bal(asset_address, cfg.yield_harvester) == t1.bal(
                    asset_address,
                    cfg.yield_harvester,
                ) + total_amount);
                assert(t1.bal(asset_address, self.account) == t0.bal(asset_address, self.account)
                    + total_amount);
                assert(tokens.bal(asset_address, self.account) == t1.bal(
                    asset_address,
                    self.account,
                ) - total_amount);
                assert forall|x: AssetId, a: AccountId|
                    !(x == asset_address && (a == client || a == self.account || a
                        == cfg.yield_harvester)) implies tokens.bal(x, a) == t0.bal(x, a) by {
                    assert(t1.bal(x, a) == t0.bal(x, a));
                    assert(tokens.bal(x, a) == t1.bal(x, a));
                }
            } else {
                assert(self.principals@ == old(self).principals@);
                assert(self.principal_of(job_id) == 0);
            }
        }
        Ok(job_id)
    }

    /// The exact outcome of `submit_proof`.
    pub open spec fn spec_submit_proof(
        &self,
        caller: AccountId,
        job_id: JobId,
        milestone_id: u32,
    ) -> Result<(), Error> {
        if !self.has_job(job_id) {
            Err(Error::NotFound)
        } else {
            let j = self.job_of(job_id);
            if caller != j.freelancer {
                Err(Error::Unauthorized)
            } else if j.status != JobStatus::Active {
                Err(Error::InvalidState)
            } else if milestone_id >= j.milestones@.len() {
                Err(Error::NotFound)
            } else if j.milestones@[milestone_id as int].status != MilestoneStatus::Pending {
                Err(Error::InvalidState)
            } else {
                Ok(())
            }
        }
    }

    /// The freelancer attaches proof of work to a pending milestone,
    /// moving it to `ProofSubmitted`.
    pub fn submit_proof(
        &mut self,
        caller: AccountId,
        job_id: JobId,
        milestone_id: u32,
        proof_url: String,
    ) -> (r: Result<(), Error>)
        requires
            old(self).wf(),
        ensures
            final(self).wf(),
            final(self).spec_account() == old(self).spec_account(),
            r == old(self).spec_submit_proof(caller, job_id, milestone_id),
            r is Err ==> *final(self) == *old(self),
            r is Ok ==> same_job_header(old(self).job_of(job_id), final(self).job_of(job_id))
                && final(self).job_of(job_id).status == old(self).job_of(job_id).status
                && final(self).job_of(job_id).milestones@ == old(self).job_of(
                job_id,
            ).milestones@.update(
                milestone_id as int,
                (Milestone {
                    proof_url: proof_url,
                    status: MilestoneStatus::ProofSubmitted,
                    ..old(self).job_of(job_id).milestones@[milestone_id as int]
                }),
            ),
            forall|d: JobId| final(self).has_job(d) == old(self).has_job(d),
            forall|d: JobId|
                d != job_id && old(self).has_job(d) ==> final(self).job_of(d) == old(self).job_of(
                    d,
                ),
            forall|d: JobId| final(self).principal_of(d) == old(self).principal_of(d),
    {
        let ji = match self.find_job(job_id) {
            Some(i) => i,
            None => {
                return Err(Error::NotFound);
            },
        };
        proof {
            self.lemma_job_wf(job_id);
        }
        let allowed = {
            let j = &self.jobs[ji];
            if caller != j.freelancer {
                Err(Error::Unauthorized)
            } else if !matches!(j.status, JobStatus::Active) {
                Err(Error::InvalidState)
            } else if milestone_id as usize >= j.milestones.len() {
                Err(Error::NotFound)
            } else if !matches!(
                j.milestones[milestone_id as usize].status,
                MilestoneStatus::Pending,
            ) {
                Err(Error::InvalidState)
            } else {
                Ok(())
            }
        };
        if let Err(e) = allowed {
            return Err(e);
        }
        let ghost pre_jobs = self.jobs@;
        let ghost pre_job = self.jobs@[ji as int];
        let j = &mut self.jobs[ji];
        let ghost pre_ms = j.milestones@;
        let m = &mut j.milestones[milestone_id as usize];
        m.proof_url = proof_url;
        m.status = MilestoneStatus::ProofSubmitted;
        proof {
            assert(final(j).milestones@ =~= pre_ms.update(
                milestone_id as int,
                final(j).milestones@[milestone_id as int],
            ));
        }
        proof {
            let posted = self.jobs@[ji as int];
            lemma_sum_prefix_congruent(
                pre_job.milestones@,
                posted.milestones@,
                posted.milestones@.len() as int,
            );
            assert(job_wf(posted));
            jb_lemma_update(pre_jobs, self.jobs@, ji as int);
        }
        Ok(())
    }

    /// The exact outcome of `approve_milestone`.
    pub open spec fn spec_approve_milestone(
        &self,
        caller: AccountId,
        job_id: JobId,
        milestone_id: u32,
    ) -> Result<(), Error> {
        if !self.has_job(job_id) {
            Err(Error::NotFound)
        } else {
            let j = self.job_of(job_id);
            if caller != j.client {
                Err(Error::Unauthorized)
            } else if j.status != JobStatus::Active {
                Err(Error::InvalidState)
            } else if milestone_id >= j.milestones@.len() {
                Err(Error::NotFound)
            } else if j.milestones@[milestone_id as int].status == MilestoneStatus::Paid {
                Err(Error::InvalidState)
            } else {
                Ok(())
            }
        }
    }

    /// The client approves a milestone for release. Any prior state but
    /// `Paid` is accepted (approving twice is harmless); a paid milestone
    /// is immutable.
    pub fn approve_milestone(&mut self, caller: AccountId, job_id: JobId, milestone_id: u32) -> (r:
        Result<(), Error>)
        requires
            old(self).wf(),
        ensures
            final(self).wf(),
            final(self).spec_account() == old(self).spec_account(),
            r == old(self).spec_approve_milestone(caller, job_id, milestone_id),
            r is Err ==> *final(self) == *old(self),
            r is Ok ==> same_job_header(old(self).job_of(job_id), final(self).job_of(job_id))
                && final(self).job_of(job_id).status == old(self).job_of(job_id).status
                && final(self).job_of(job_id).milestones@ == old(self).job_of(
                job_id,
            ).milestones@.update(
                milestone_id as int,
                (Milestone {
                    status: MilestoneStatus::Approved,
                    ..old(self).job_of(job_id).milestones@[milestone_id as int]
                }),
            ),
            forall|d: JobId| final(self).has_job(d) == old(self).has_job(d),
            forall|d: JobId|
                d != job_id && old(self).has_job(d) ==> final(self).job_of(d) == old(self).job_of(
                    d,
                ),
            forall|d: JobId| final(self).principal_of(d) == old(self).principal_of(d),
    {
        let ji = match self.find_job(job_id) {
            Some(i) => i,
            None => {
                return Err(Error::NotFound);
            },
        };
        proof {
            self.lemma_job_wf(job_id);
        }
        let allowed = {
            let j = &self.jobs[ji];
            if caller != j.client {
                Err(Error::Unauthorized)
            } else if !matches!(j.status, JobStatus::Active) {
                Err(Error::InvalidState)
            } else if milestone_id as usize >= j.milestones.len() {
                Err(Error::NotFound)
            } else if matches!(j.milestones[milestone_id as usize].status, MilestoneStatus::Paid) {
                Err(Error::InvalidState)
            } else {
                Ok(())
            }
        };
        if let Err(e) = allowed {
            return Err(e);
        }
        let ghost pre_jobs = self.jobs@;
        let ghost pre_job = self.jobs@[ji as int];
        let j = &mut self.jobs[ji];
        let ghost pre_ms = j.milestones@;
        let m = &mut j.milestones[milestone_id as usize];
        m.status = MilestoneStatus::Approved;
        proof {
            assert(final(j).milestones@ =~= pre_ms.update(
                milestone_id as int,
                final(j).milestones@[milestone_id as int],
            ));
        }
        proof {
            let posted = self.jobs@[ji as int];
            lemma_sum_prefix_congruent(
                pre_job.milestones@,
                posted.milestones@,
                posted.milestones@.len() as int,
            );
            assert(job_wf(posted));
            jb_lemma_update(pre_jobs, self.jobs@, ji as int);
        }
        Ok(())
    }

    /// The exact outcome of a payment release.
    pub open spec fn spec_release(
        &self,
        h: &crate::yield_custody::RwaYieldHarvester,
        router: &crate::router::LiquidityRouter,
        t: &crate::token::TokenLedger,
        caller: AccountId,
        job_id: JobId,
        milestone_id: u32,
        to_asset: Option<AssetId>,
    ) -> Result<i128, Error> {
        if !self.has_job(job_id) {
            Err(Error::NotFound)
        } else {
            let j = self.job_of(job_id);
            if caller != j.client {
                Err(Error::Unauthorized)
            } else if j.status != JobStatus::Active {
                Err(Error::InvalidState)
            } else if milestone_id >= j.milestones@.len() {
                Err(Error::NotFound)
            } else if j.milestones@[milestone_id as int].status != MilestoneStatus::Approved {
                Err(Error::InvalidState)
            } else {
                let usdc = self.spec_usdc_token();
                let amount = j.milestones@[milestone_id as int].amount;
                let custody = j.asset_address == usdc && self.principal_of(job_id) > 0 && amount
                    <= self.principal_of(job_id);
                if custody {
                    if to_asset is Some && to_asset->0 != usdc {
                        match router.spec_convert_funded(t, usdc, to_asset->0, amount, j.freelancer, 100) {
                            Err(e) => Err(e),
                            Ok(out) => {
                                if t.bal(usdc, router.spec_account()) + amount > i128::MAX {
                                    Err(Error::Arithmetic)
                                } else {
                                    match h.spec_withdraw_principal(
                                        t,
                                        j.client,
                                        amount,
                                        self.spec_account(),
                                        usdc,
                                    ) {
                                        Err(e) => Err(e),
                                        Ok(_) => Ok(out),
                                    }
                                }
                            },
                        }
                    } else {
                        if j.freelancer != self.spec_account() && t.bal(usdc, j.freelancer)
                            + amount > i128::MAX {
                            Err(Error::Arithmetic)
                        } else {
                            match h.spec_withdraw_principal(
                                t,
                                j.client,
                                amount,
                                self.spec_account(),
                                usdc,
                            ) {
                                Err(e) => Err(e),
                                Ok(_) => Ok(amount),
                            }
                        }
                    }
                } else {
                    if !t.has_asset(j.asset_address) {
                        Err(Error::NotFound)
                    } else if t.bal(j.asset_address, self.spec_account()) < amount {
                        Err(Error::InsufficientBalance)
                    } else if self.spec_account() != j.freelancer && t.bal(
                        j.asset_address,
                        j.freelancer,
                    ) + amount > i128::MAX {
                        Err(Error::Arithmetic)
                    } else {
                        Ok(amount)
                    }
                }
            }
        }
    }

    /// Releases an approved milestone: the amount is withdrawn from the
    /// job's custody principal (or paid from the escrow account when the
    /// job is not in custody), optionally converted into `to_asset` at a
    /// fixed 1% maximum slippage, and paid to the freelancer. The
    /// milestone becomes `Paid`; when every milestone is paid the job
    /// completes. Returns the amount the freelancer received.
    #[verifier::rlimit(100)]
    pub fn release_payment_with_conversion(
        &mut self,
        harvester: &mut crate::yield_custody::RwaYieldHarvester,
        router: &crate::router::LiquidityRouter,
        tokens: &mut crate::token::TokenLedger,
        caller: AccountId,
        job_id: JobId,
        milestone_id: u32,
        to_asset: Option<AssetId>,
    ) -> (r: Result<i128, Error>)
        requires
            old(self).wf(),
            old(harvester).wf(),
            router.wf(),
            old(tokens).wf(),
            old(self).initialized() ==> old(harvester).spec_account() == old(
                self,
            ).spec_yield_harvester() && old(harvester).spec_trusted_caller() == old(
                self,
            ).spec_account() && router.spec_account() == old(self).spec_liquidity_router() && old(
                self,
            ).spec_yield_harvester() != old(self).spec_account() && router.spec_account() != old(
                self,
            ).spec_account() && router.spec_account() != old(self).spec_yield_harvester(),
        ensures
            final(self).wf(),
            final(harvester).wf(),
            final(tokens).wf(),
            final(self).spec_account() == old(self).spec_account(),
            final(self).initialized() == old(self).initialized(),
            final(harvester).spec_account() == old(harvester).spec_account(),
            final(harvester).spec_trusted_caller() == old(harvester).spec_trusted_caller(),
            forall|x: AssetId| final(tokens).has_asset(x) == old(tokens).has_asset(x),
            r == old(self).spec_release(
                old(harvester),
                router,
                old(tokens),
                caller,
                job_id,
                milestone_id,
                to_asset,
            ),
            r is Err ==> *final(self) == *old(self) && *final(harvester) == *old(harvester)
                && *final(tokens) == *old(tokens),
            r is Ok ==> 0 <= r->Ok_0,
            r is Ok ==> same_job_header(old(self).job_of(job_id), final(self).job_of(job_id))
                && final(self).job_of(job_id).milestones@ == old(self).job_of(
                job_id,
            ).milestones@.update(
                milestone_id as int,
                (Milestone {
                    status: MilestoneStatus::Paid,
                    ..old(self).job_of(job_id).milestones@[milestone_id as int]
                }),
            ) && final(self).job_of(job_id).status == (if all_paid(
                final(self).job_of(job_id).milestones@,
            ) {
                JobStatus::Completed
            } else {
                JobStatus::Active
            }),
            r is Ok ==> final(self).principal_of(job_id) == (if old(self).job_of(
                job_id,
            ).asset_address == old(self).spec_usdc_token() && old(self).principal_of(job_id) > 0
                && old(self).job_of(job_id).milestones@[milestone_id as int].amount <= old(
                self,
            ).principal_of(job_id) {
                old(self).principal_of(job_id) - old(self).job_of(job_id).milestones@[milestone_id as int].amount
            } else {
                old(self).principal_of(job_id)
            }),
            forall|d: JobId| final(self).has_job(d) == old(self).has_job(d),
            forall|d: JobId|
                d != job_id && old(self).has_job(d) ==> final(self).job_of(d) == old(self).job_of(
                    d,
                ),
            forall|d: JobId|
                d != job_id ==> final(self).principal_of(d) == old(self).principal_of(d),
            r is Ok ==> forall|o: AccountId|
                o != old(self).job_of(job_id).client ==> final(harvester).has_position(o) == old(
                    harvester,
                ).has_position(o),
            r is Ok ==> forall|o: AccountId|
                o != old(self).job_of(job_id).client && old(harvester).has_position(o) ==> final(harvester).position_of(o) == old(harvester).position_of(o),
    {
        let ji = match self.find_job(job_id) {
            Some(i) => i,
            None => {
                return Err(Error::NotFound);
            },
        };
        proof {
            self.lemma_job_wf(job_id);
        }
        let cfg = match self.config {
            Some(c) => c,
            None => {
                proof {
                    assert(false);
                }
                return Err(Error::NotFound);
            },
        };
        let (client, freelancer, asset, amount) = {
            let j = &self.jobs[ji];
            if caller != j.client {
                return Err(Error::Unauthorized);
            }
            if !matches!(j.status, JobStatus::Active) {
                return Err(Error::InvalidState);
            }
            if milestone_id as usize >= j.milestones.len() {
                return Err(Error::NotFound);
            }
            if !matches!(j.milestones[milestone_id as usize].status, MilestoneStatus::Approved) {
                return Err(Error::InvalidState);
            }
            (j.client, j.freelancer, j.asset_address, j.milestones[milestone_id as usize].amount)
        };
        proof {
            assert(amount >= 0);
        }
        let held = self.get_job_principal(job_id);
        let custody = asset == cfg.usdc_token && held > 0 && amount <= held;
        let realized: i128;
        let ghost t0 = *tokens;
        if custody {
            let convert_to: Option<AssetId> = match to_asset {
                Some(t) => if t != cfg.usdc_token {
                    Some(t)
                } else {
                    None
                },
                None => None,
            };
            match convert_to {
                Some(target) => {
                    let out = match router.preflight_convert(
                        tokens,
                        asset,
                        target,
                        amount,
                        freelancer,
                        100,
                    ) {
                        Ok(v) => v,
                        Err(e) => {
                            return Err(e);
                        },
                    };
                    let rb = tokens.balance(asset, router.address());
                    if rb > i128::MAX - amount {
                        return Err(Error::Arithmetic);
                    }
                    let wd = harvester.withdraw_principal_for_owner(
                        tokens,
                        self.account,
                        client,
                        amount,
                        self.account,
                        asset,
                    );
                    match wd {
                        Ok(_) => {},
                        Err(e) => {
                            return Err(e);
                        },
                    }
                    let ghost t1 = *tokens;
                    proof {
                        t0.lemma_bal_nonneg(asset, self.spec_account());
                        t0.lemma_bal_nonneg(asset, router.spec_account());
                        assert(t1.bal(asset, router.spec_account()) == t0.bal(
                            asset,
                            router.spec_account(),
                        ));
                    }
                    let tr = tokens.transfer(asset, self.account, router.address(), amount);
                    match tr {
                        Ok(_) => {},
                        Err(_) => {
                            proof {
                                assert(false);
                            }
                        },
                    }
                    let ghost t2 = *tokens;
                    proof {
                        assert forall|x: AssetId, a: AccountId| x != asset implies t2.bal(x, a)
                            == t0.bal(x, a) by {
                            assert(t1.bal(x, a) == t0.bal(x, a));
                            assert(t2.bal(x, a) == t1.bal(x, a));
                        }
                        assert(t2.bal(asset, router.spec_account()) >= amount);
                        router.lemma_convert_after_funding(
                            &t0,
                            &t2,
                            asset,
                            target,
                            amount,
                            freelancer,
                            100,
                        );
                    }
                    let cv = router.convert_and_send(tokens, asset, target, amount, freelancer, 100);
                    match cv {
                        Ok(v) => {
                            proof {
                                assert(v == out);
                            }
                            realized = v;
                        },
                        Err(_) => {
                            proof {
                                assert(false);
                            }
                            return Err(Error::Arithmetic);
                        },
                    }
                    proof {
                        assert forall|x: AssetId, a: AccountId|
                            !((x == asset && (a == old(harvester).spec_account() || a
                                == old(self).spec_account() || a == router.spec_account())) || (x
                                == target && (a == router.spec_account() || a
                                == freelancer))) implies tokens.bal(x, a) == t0.bal(x, a) by {
                            assert(t1.bal(x, a) == t0.bal(x, a));
                            assert(t2.bal(x, a) == t1.bal(x, a));
                            assert(tokens.bal(x, a) == t2.bal(x, a));
                        }
                    }
                },
                None => {
                    if freelancer != self.account {
                        let fb = tokens.balance(asset, freelancer);
                        if fb > i128::MAX - amount {
                            return Err(Error::Arithmetic);
                        }
                    }
                    let wd = harvester.withdraw_principal_for_owner(
                        tokens,
                        self.account,
                        client,
                        amount,
                        self.account,
                        asset,
                    );
                    match wd {
                        Ok(_) => {},
                        Err(e) => {
                            return Err(e);
                        },
                    }
                    let ghost t1 = *tokens;
                    proof {
                        t0.lemma_bal_nonneg(asset, self.spec_account());
                        if freelancer != self.account {
                            assert(t1.bal(asset, freelancer) == t0.bal(asset, freelancer));
                        }
                    }
                    let tr = tokens.transfer(asset, self.account, freelancer, amount);
                    match tr {
                        Ok(_) => {},
                        Err(_) => {
                            proof {
                                assert(false);
                            }
                        },
                    }
                    realized = amount;
                    proof {
                        assert forall|x: AssetId, a: AccountId|
                            !(x == asset && (a == old(harvester).spec_account() || a
                                == old(self).spec_account() || a == freelancer)) implies tokens.bal(
                            x,
                            a,
                        ) == t0.bal(x, a) by {
                            assert(t1.bal(x, a) == t0.bal(x, a));
                            assert(tokens.bal(x, a) == t1.bal(x, a));
                        }
                    }
                },
            }
            let ghost s_pre = *self;
            self.set_job_principal(job_id, held - amount);
            let ghost s_mid = *self;
            proof {
                assert forall|d: JobId| d != job_id implies self.principal_of(d) == old(
                    self,
                ).principal_of(d) by {
                    assert(s_mid.principal_of(d) == s_pre.principal_of(d));
                    assert(s_pre.principals@ == old(self).principals@);
                    assert(self.principals@ == s_mid.principals@);
                }
            }
        } else {
            let tr = tokens.transfer(asset, self.account, freelancer, amount);
            match tr {
                Ok(_) => {},
                Err(e) => {
                    return Err(e);
                },
            }
            realized = amount;
        }
        let ghost pre_jobs = self.jobs@;
        let ghost pre_job = self.jobs@[ji as int];
        let j = &mut self.jobs[ji];
        let ghost pre_ms = j.milestones@;
        {
            let m = &mut j.milestones[milestone_id as usize];
            m.status = MilestoneStatus::Paid;
        }
        proof {
            assert(j.milestones@ =~= pre_ms.update(
                milestone_id as int,
                j.milestones@[milestone_id as int],
            ));
        }
        let mut every_paid = true;
        let mut k: usize = 0;
        let nms = j.milestones.len();
        while k < nms
            invariant
                nms == j.milestones@.len(),
                k <= nms,
                every_paid == (forall|i: int|
                    0 <= i < k ==> (#[trigger] j.milestones@[i]).status == MilestoneStatus::Paid),
            decreases nms - k,
        {
            if !matches!(j.milestones[k].status, MilestoneStatus::Paid) {
                every_paid = false;
            }
            k = k + 1;
        }
        if every_paid {
            j.status = JobStatus::Completed;
        }
        proof {
            let posted = self.jobs@[ji as int];
            lemma_msum_prefix_congruent(
                pre_job.milestones@,
                posted.milestones@,
                posted.milestones@.len() as int,
            );
            assert(job_wf(posted));
            jb_lemma_update(pre_jobs, self.jobs@, ji as int);
        }
        Ok(realized)
    }

    /// Releases an approved milestone and pays the freelancer in the
    /// job's own asset, with no conversion.
    pub fn release_payment(
        &mut self,
        harvester: &mut crate::yield_custody::RwaYieldHarvester,
        router: &crate::router::LiquidityRouter,
        tokens: &mut crate::token::TokenLedger,
        caller: AccountId,
        job_id: JobId,
        milestone_id: u32,
    ) -> (r: Result<i128, Error>)
        requires
            old(self).wf(),
            old(harvester).wf(),
            router.wf(),
            old(tokens).wf(),
            old(self).initialized() ==> old(harvester).spec_account() == old(
                self,
            ).spec_yield_harvester() && old(harvester).spec_trusted_caller() == old(
                self,
            ).spec_account() && router.spec_account() == old(self).spec_liquidity_router() && old(
                self,
            ).spec_yield_harvester() != old(self).spec_account() && router.spec_account() != old(
                self,
            ).spec_account() && router.spec_account() != old(self).spec_yield_harvester(),
        ensures
            final(self).wf(),
            final(harvester).wf(),
            final(tokens).wf(),
            final(self).spec_account() == old(self).spec_account(),
            final(self).initialized() == old(self).initialized(),
            forall|x: AssetId| final(tokens).has_asset(x) == old(tokens).has_asset(x),
            r == old(self).spec_release(
                old(harvester),
                router,
                old(tokens),
                caller,
                job_id,
                milestone_id,
                None,
            ),
            r is Err ==> *final(self) == *old(self) && *final(harvester) == *old(harvester)
                && *final(tokens) == *old(tokens),
            r is Ok ==> same_job_header(old(self).job_of(job_id), final(self).job_of(job_id))
                && final(self).job_of(job_id).milestones@ == old(self).job_of(
                job_id,
            ).milestones@.update(
                milestone_id as int,
                (Milestone {
                    status: MilestoneStatus::Paid,
                    ..old(self).job_of(job_id).milestones@[milestone_id as int]
                }),
            ) && final(self).job_of(job_id).status == (if all_paid(
                final(self).job_of(job_id).milestones@,
            ) {
                JobStatus::Completed
            } else {
                JobStatus::Active
            }),
            forall|d: JobId| final(self).has_job(d) == old(self).has_job(d),
            forall|d: JobId|
                d != job_id && old(self).has_job(d) ==> final(self).job_of(d) == old(self).job_of(
                    d,
                ),
            forall|d: JobId|
                d != job_id ==> final(self).principal_of(d) == old(self).principal_of(d),
    {
        self.release_payment_with_conversion(
            harvester,
            router,
            tokens,
            caller,
            job_id,
            milestone_id,
            None,
        )
    }

    /// Releasing a milestone that is not in `Approved` state fails with
    /// `InvalidState`, whatever conversion target is asked for.
    pub proof fn lemma_release_requires_approval(
        &self,
        h: &crate::yield_custody::RwaYieldHarvester,
        router: &crate::router::LiquidityRouter,
        t: &crate::token::TokenLedger,
        caller: AccountId,
        job_id: JobId,
        milestone_id: u32,
        to_asset: Option<AssetId>,
    )
        requires
            self.wf(),
            self.has_job(job_id),
            caller == self.job_of(job_id).client,
            self.job_of(job_id).status == JobStatus::Active,
            milestone_id < self.job_of(job_id).milestones@.len(),
            self.job_of(job_id).milestones@[milestone_id as int].status
                != MilestoneStatus::Approved,
        ensures
            self.spec_release(h, router, t, caller, job_id, milestone_id, to_asset) == Err::<
                i128,
                Error,
            >(Error::InvalidState),
    {
    }

    /// Releasing the same milestone twice fails the second time with
    /// `InvalidState`: after a successful release the milestone is
    /// `Paid`, and a paid milestone can never be approved again, nor can
    /// a completed job accept further releases.
    pub proof fn lemma_release_twice_fails(
        &self,
        h: &crate::yield_custody::RwaYieldHarvester,
        router: &crate::router::LiquidityRouter,
        t: &crate::token::TokenLedger,
        caller: AccountId,
        job_id: JobId,
        milestone_id: u32,
        to_asset: Option<AssetId>,
    )
        requires
            self.wf(),
            self.has_job(job_id),
            caller == self.job_of(job_id).client,
            milestone_id < self.job_of(job_id).milestones@.len(),
            self.job_of(job_id).milestones@[milestone_id as int].status == MilestoneStatus::Paid,
        ensures
            self.spec_release(h, router, t, caller, job_id, milestone_id, to_asset) == Err::<
                i128,
                Error,
            >(Error::InvalidState),
    {
    }

    /// The exact outcome of `cancel_job`.
    pub open spec fn spec_cancel_job(
        &self,
        h: &crate::yield_custody::RwaYieldHarvester,
        t: &crate::token::TokenLedger,
        caller: AccountId,
        job_id: JobId,
        now: u64,
    ) -> Result<i128, Error> {
        if !self.has_job(job_id) {
            Err(Error::NotFound)
        } else {
            let j = self.job_of(job_id);
            if caller != j.client {
                Err(Error::Unauthorized)
            } else if j.status != JobStatus::Active {
                Err(Error::InvalidState)
            } else {
                let refund = refund_prefix(j.milestones@, j.milestones@.len() as int);
                if refund == 0 {
                    Ok(0)
                } else if j.asset_address == self.spec_usdc_token() && self.principal_of(job_id)
                    > 0 {
                    h.spec_withdraw(
                        t,
                        j.client,
                        self.principal_of(job_id) as i128,
                        j.asset_address,
                        now,
                    )
                } else {
                    if !t.has_asset(j.asset_address) {
                        Err(Error::NotFound)
                    } else if t.bal(j.asset_address, self.spec_account()) < refund {
                        Err(Error::InsufficientBalance)
                    } else if self.spec_account() != j.client && t.bal(j.asset_address, j.client)
                        + refund > i128::MAX {
                        Err(Error::Arithmetic)
                    } else {
                        Ok(refund as i128)
                    }
                }
            }
        }
    }

    /// Cancels an active job: the amounts of all unpaid milestones are
    /// owed back to the client. When the funds sit in yield custody the
    /// whole remaining tracked principal is redeemed (so the split
    /// remainder comes back too) and paid to the client; otherwise the
    /// owed refund is paid from the escrow account. Returns the realized
    /// refund.
    #[verifier::rlimit(100)]
    pub fn cancel_job(
        &mut self,
        harvester: &mut crate::yield_custody::RwaYieldHarvester,
        tokens: &mut crate::token::TokenLedger,
        caller: AccountId,
        job_id: JobId,
        now: u64,
    ) -> (r: Result<i128, Error>)
        requires
            old(self).wf(),
            old(harvester).wf(),
            old(tokens).wf(),
            old(self).initialized() ==> old(harvester).spec_account() == old(
                self,
            ).spec_yield_harvester() && old(self).spec_yield_harvester() != old(
                self,
            ).spec_account(),
        ensures
            final(self).wf(),
            final(harvester).wf(),
            final(tokens).wf(),
            final(self).spec_account() == old(self).spec_account(),
            final(self).initialized() == old(self).initialized(),
            final(harvester).spec_account() == old(harvester).spec_account(),
            final(harvester).spec_trusted_caller() == old(harvester).spec_trusted_caller(),
            forall|x: AssetId| final(tokens).has_asset(x) == old(tokens).has_asset(x),
            r == old(self).spec_cancel_job(old(harvester), old(tokens), caller, job_id, now),
            r is Err ==> *final(self) == *old(self) && *final(harvester) == *old(harvester)
                && *final(tokens) == *old(tokens),
            r is Ok ==> same_job_header(old(self).job_of(job_id), final(self).job_of(job_id))
                && final(self).job_of(job_id).milestones@ == old(self).job_of(job_id).milestones@
                && final(self).job_of(job_id).status == JobStatus::Cancelled,
            r is Ok ==> final(self).principal_of(job_id) == (if r->Ok_0 != 0 && old(
                self,
            ).job_of(job_id).asset_address == old(self).spec_usdc_token() && old(
                self,
            ).principal_of(job_id) > 0 {
                0
            } else {
                old(self).principal_of(job_id)
            }),
            forall|d: JobId| final(self).has_job(d) == old(self).has_job(d),
            forall|d: JobId|
                d != job_id && old(self).has_job(d) ==> final(self).job_of(d) == old(self).job_of(
                    d,
                ),
            forall|d: JobId|
                d != job_id ==> final(self).principal_of(d) == old(self).principal_of(d),
            r is Ok && r->Ok_0 == 0 ==> *final(harvester) == *old(harvester) && *final(tokens)
                == *old(tokens),
            r is Ok && r->Ok_0 != 0 && !(old(self).job_of(job_id).asset_address == old(
                self,
            ).spec_usdc_token() && old(self).principal_of(job_id) > 0) ==> *final(harvester)
                == *old(harvester) && r->Ok_0 == refund_prefix(
                old(self).job_of(job_id).milestones@,
                old(self).job_of(job_id).milestones@.len() as int,
            ) && final(tokens).bal(old(self).job_of(job_id).asset_address, old(self).spec_account())
                == old(tokens).bal(old(self).job_of(job_id).asset_address, old(self).spec_account())
                - r->Ok_0 && final(tokens).bal(
                old(self).job_of(job_id).asset_address,
                old(self).job_of(job_id).client,
            ) == old(tokens).bal(old(self).job_of(job_id).asset_address, old(self).job_of(job_id).client)
                + r->Ok_0 && (forall|x: AssetId, a: AccountId|
                !(x == old(self).job_of(job_id).asset_address && (a == old(self).spec_account() || a
                    == old(self).job_of(job_id).client)) ==> final(tokens).bal(x, a) == old(
                    tokens,
                ).bal(x, a)),
            r is Ok && r->Ok_0 != 0 && old(self).job_of(job_id).asset_address == old(
                self,
            ).spec_usdc_token() && old(self).principal_of(job_id) > 0 ==> r->Ok_0 == old(
                self,
            ).principal_of(job_id) && final(harvester).position_of(old(self).job_of(job_id).client)
                == crate::yield_custody::position_after_withdraw(
                old(harvester).position_of(old(self).job_of(job_id).client),
                old(harvester).spec_yield_of(old(self).job_of(job_id).client, now),
                old(self).principal_of(job_id) as i128,
                now,
            ) && final(tokens).bal(old(self).job_of(job_id).asset_address, old(
                harvester,
            ).spec_account()) == old(tokens).bal(
                old(self).job_of(job_id).asset_address,
                old(harvester).spec_account(),
            ) - r->Ok_0 && final(tokens).bal(
                old(self).job_of(job_id).asset_address,
                old(self).job_of(job_id).client,
            ) == old(tokens).bal(old(self).job_of(job_id).asset_address, old(self).job_of(job_id).client)
                + r->Ok_0 && (forall|x: AssetId, a: AccountId|
                !(x == old(self).job_of(job_id).asset_address && (a == old(
                    harvester,
                ).spec_account() || a == old(self).job_of(job_id).client)) ==> final(tokens).bal(
                    x,
                    a,
                ) == old(tokens).bal(x, a)),
            r is Ok ==> forall|o: AccountId|
                o != old(self).job_of(job_id).client ==> final(harvester).has_position(o) == old(
                    harvester,
                ).has_position(o),
            r is Ok ==> forall|o: AccountId|
                o != old(self).job_of(job_id).client && old(harvester).has_position(o) ==> final(harvester).position_of(o) == old(harvester).position_of(o),
    {
        let ji = match self.find_job(job_id) {
            Some(i) => i,
            None => {
                return Err(Error::NotFound);
            },
        };
        proof {
            self.lemma_job_wf(job_id);
        }
        let cfg = match self.config {
            Some(c) => c,
            None => {
                proof {
                    assert(false);
                }
                return Err(Error::NotFound);
            },
        };
        let (client, asset, nms) = {
            let j = &self.jobs[ji];
            if caller != j.client {
                return Err(Error::Unauthorized);
            }
            if !matches!(j.status, JobStatus::Active) {
                return Err(Error::InvalidState);
            }
            (j.client, j.asset_address, j.milestones.len())
        };
        let mut refund: i128 = 0;
        let mut k: usize = 0;
        let ghost ms = self.jobs@[ji as int].milestones@;
        let ghost total = self.jobs@[ji as int].total_amount;
        while k < nms
            invariant
                self.wf(),
                ji < self.jobs@.len(),
                ms == self.jobs@[ji as int].milestones@,
                total == self.jobs@[ji as int].total_amount,
                job_wf(self.jobs@[ji as int]),
                nms == ms.len(),
                k <= nms,
                refund == refund_prefix(ms, k as int),
                0 <= refund,
            decreases nms - k,
        {
            proof {
                lemma_refund_prefix_bounds(ms, k + 1 as int);
                lemma_msum_prefix_monotonic(ms, k + 1 as int, ms.len() as int);
            }
            let j = &self.jobs[ji];
            let m = &j.milestones[k];
            if !matches!(m.status, MilestoneStatus::Paid) {
                refund = refund + m.amount;
            }
            k = k + 1;
        }
        let held = self.get_job_principal(job_id);
        let realized: i128;
        if refund == 0 {
            realized = 0;
        } else if asset == cfg.usdc_token && held > 0 {
            let wd = harvester.withdraw(tokens, client, held, asset, now);
            match wd {
                Ok(v) => {
                    realized = v;
                },
                Err(e) => {
                    return Err(e);
                },
            }
            self.set_job_principal(job_id, 0);
        } else {
            let tr = tokens.transfer(asset, self.account, client, refund);
            match tr {
                Ok(_) => {
                    realized = refund;
                },
                Err(e) => {
                    return Err(e);
                },
            }
        }
        let ghost pre_jobs = self.jobs@;
        let ghost pre_job = self.jobs@[ji as int];
        let j = &mut self.jobs[ji];
        j.status = JobStatus::Cancelled;
        proof {
            let posted = self.jobs@[ji as int];
            lemma_sum_prefix_congruent(
                pre_job.milestones@,
                posted.milestones@,
                posted.milestones@.len() as int,
            );
            assert(job_wf(posted));
            jb_lemma_update(pre_jobs, self.jobs@, ji as int);
        }
        Ok(realized)
    }

    /// The exact outcome of `finalize_job`.
    pub open spec fn spec_finalize_job(
        &self,
        h: &crate::yield_custody::RwaYieldHarvester,
        t: &crate::token::TokenLedger,
        caller: AccountId,
        job_id: JobId,
        now: u64,
    ) -> Result<i128, Error> {
        if !self.has_job(job_id) {
            Err(Error::NotFound)
        } else {
            let j = self.job_of(job_id);
            if caller != j.client {
                Err(Error::Unauthorized)
            } else if j.status != JobStatus::Completed {
                Err(Error::InvalidState)
            } else if !(j.asset_address == self.spec_usdc_token() && self.principal_of(job_id)
                > 0) {
                Ok(0)
            } else {
                h.spec_withdraw(t, j.client, self.principal_of(job_id) as i128, j.asset_address, now)
            }
        }
    }

    /// After every milestone is paid, redeems whatever tracked balance is
    /// still in yield custody for this job and pays it to the client,
    /// recording the part above the residual principal as the job's
    /// yield. Returns the amount withdrawn.
    #[verifier::rlimit(100)]
    pub fn finalize_job(
        &mut self,
        harvester: &mut crate::yield_custody::RwaYieldHarvester,
        tokens: &mut crate::token::TokenLedger,
        caller: AccountId,
        job_id: JobId,
        now: u64,
    ) -> (r: Result<i128, Error>)
        requires
            old(self).wf(),
            old(harvester).wf(),
            old(tokens).wf(),
            old(self).initialized() ==> old(harvester).spec_account() == old(
                self,
            ).spec_yield_harvester() && old(self).spec_yield_harvester() != old(
                self,
            ).spec_account(),
        ensures
            final(self).wf(),
            final(harvester).wf(),
            final(tokens).wf(),
            final(self).spec_account() == old(self).spec_account(),
            final(self).initialized() == old(self).initialized(),
            final(harvester).spec_account() == old(harvester).spec_account(),
            final(harvester).spec_trusted_caller() == old(harvester).spec_trusted_caller(),
            forall|x: AssetId| final(tokens).has_asset(x) == old(tokens).has_asset(x),
            r == old(self).spec_finalize_job(old(harvester), old(tokens), caller, job_id, now),
            r is Err ==> *final(self) == *old(self) && *final(harvester) == *old(harvester)
                && *final(tokens) == *old(tokens),
            r is Ok && r->Ok_0 == 0 && old(self).principal_of(job_id) == 0 ==> *final(self) == *old(
                self,
            ) && *final(harvester) == *old(harvester) && *final(tokens) == *old(tokens),
            r is Ok ==> {
                let before = old(self).job_of(job_id);
                let after = final(self).job_of(job_id);
                &&& after.job_id == before.job_id
                &&& after.client == before.client
                &&& after.freelancer == before.freelancer
                &&& after.total_amount == before.total_amount
                &&& after.asset_address == before.asset_address
                &&& after.created_at == before.created_at
                &&& after.status == JobStatus::Completed
                &&& after.milestones@ == before.milestones@
            },
            r is Ok && old(self).job_of(job_id).asset_address == old(self).spec_usdc_token() && old(
                self,
            ).principal_of(job_id) > 0 ==> r->Ok_0 == old(self).principal_of(job_id) && final(self).principal_of(job_id) == 0 && final(self).job_of(job_id).yield_earned == r->Ok_0 - old(
                self,
            ).principal_of(job_id) && final(harvester).position_of(old(self).job_of(job_id).client)
                == crate::yield_custody::position_after_withdraw(
                old(harvester).position_of(old(self).job_of(job_id).client),
                old(harvester).spec_yield_of(old(self).job_of(job_id).client, now),
                old(self).principal_of(job_id) as i128,
                now,
            ) && final(tokens).bal(old(self).job_of(job_id).asset_address, old(
                harvester,
            ).spec_account()) == old(tokens).bal(
                old(self).job_of(job_id).asset_address,
                old(harvester).spec_account(),
            ) - r->Ok_0 && final(tokens).bal(
                old(self).job_of(job_id).asset_address,
                old(self).job_of(job_id).client,
            ) == old(tokens).bal(old(self).job_of(job_id).asset_address, old(self).job_of(job_id).client)
                + r->Ok_0 && (forall|x: AssetId, a: AccountId|
                !(x == old(self).job_of(job_id).asset_address && (a == old(
                    harvester,
                ).spec_account() || a == old(self).job_of(job_id).client)) ==> final(tokens).bal(
                    x,
                    a,
                ) == old(tokens).bal(x, a)),
            r is Ok && !(old(self).job_of(job_id).asset_address == old(self).spec_usdc_token()
                && old(self).principal_of(job_id) > 0) ==> r->Ok_0 == 0 && *final(harvester)
                == *old(harvester) && *final(tokens) == *old(tokens) && final(self).principal_of(
                job_id,
            ) == old(self).principal_of(job_id),
            forall|d: JobId| final(self).has_job(d) == old(self).has_job(d),
            forall|d: JobId|
                d != job_id && old(self).has_job(d) ==> final(self).job_of(d) == old(self).job_of(
                    d,
                ),
            forall|d: JobId|
                d != job_id ==> final(self).principal_of(d) == old(self).principal_of(d),
            r is Ok ==> forall|o: AccountId|
                o != old(self).job_of(job_id).client ==> final(harvester).has_position(o) == old(
                    harvester,
                ).has_position(o),
            r is Ok ==> forall|o: AccountId|
                o != old(self).job_of(job_id).client && old(harvester).has_position(o) ==> final(harvester).position_of(o) == old(harvester).position_of(o),
    {
        let ji = match self.find_job(job_id) {
            Some(i) => i,
            None => {
                return Err(Error::NotFound);
            },
        };
        proof {
            self.lemma_job_wf(job_id);
        }
        let cfg = match self.config {
            Some(c) => c,
            None => {
                proof {
                    assert(false);
                }
                return Err(Error::NotFound);
            },
        };
        let (client, asset) = {
            let j = &self.jobs[ji];
            if caller != j.client {
                return Err(Error::Unauthorized);
            }
            if !matches!(j.status, JobStatus::Completed) {
                return Err(Error::InvalidState);
            }
            (j.client, j.asset_address)
        };
        let residual = self.get_job_principal(job_id);
        if !(asset == cfg.usdc_token && residual > 0) {
            return Ok(0);
        }
        let wd = harvester.withdraw(tokens, client, residual, asset, now);
        let withdrawn = match wd {
            Ok(v) => v,
            Err(e) => {
                return Err(e);
            },
        };
        self.set_job_principal(job_id, 0);
        let ghost pre_jobs = self.jobs@;
        let ghost pre_job = self.jobs@[ji as int];
        let j = &mut self.jobs[ji];
        j.yield_earned = withdrawn - residual;
        proof {
            let posted = self.jobs@[ji as int];
            lemma_sum_prefix_congruent(
                pre_job.milestones@,
                posted.milestones@,
                posted.milestones@.len() as int,
            );
            assert(job_wf(posted));
            jb_lemma_update(pre_jobs, self.jobs@, ji as int);
        }
        Ok(withdrawn)
    }
}

} // verus!
