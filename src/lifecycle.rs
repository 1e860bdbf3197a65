use crate::address::{contains_address, Address};
use vstd::prelude::*;

verus! {

/// On-chain governance record of one vault group.
pub struct MultisigRecord {
    pub create_key: Address,
    pub rent_collector: Option<Address>,
    pub members: Vec<Address>,
    pub threshold: u16,
    /// Index of the most recently created proposal (zero before the first).
    pub transaction_index: u64,
}

/// On-chain record of one proposal.
pub struct ProposalRecord {
    pub multisig: Address,
    pub transaction_index: u64,
    pub timestamp: i64,
    pub deadline: i64,
    pub approved: Vec<Address>,
    /// Stored status code: 0 open, 1 approved, anything else executed.
    pub status: u8,
}

/// The lifecycle status of a proposal as seen at a given time.
#[derive(PartialEq, Eq, Structural, Clone, Copy, Debug)]
pub enum ProposalStatus {
    Active,
    Expired,
    Approved,
    Executed,
}

#[derive(PartialEq, Eq, Structural, Clone, Copy, Debug)]
pub enum LifecycleError {
    /// The member is already among the proposal's approvers.
    AlreadyApproved,
    /// The multisig's transaction counter cannot grow any further.
    IndexOverflow,
    /// The requested proposal account does not exist.
    ProposalNotFound,
}

/// Status derived from the stored code, the deadline and the current time.
pub open spec fn status_spec(code: u8, deadline: int, now: int) -> ProposalStatus {
    if code == 0 {
        if now > deadline {
            ProposalStatus::Expired
        } else {
            ProposalStatus::Active
        }
    } else if code == 1 {
        ProposalStatus::Approved
    } else {
        ProposalStatus::Executed
    }
}

impl ProposalRecord {
    /// The approver list holds no address twice.
    pub open spec fn wf(&self) -> bool {
        self.approved@.no_duplicates()
    }
}

/// Status of `proposal` at unix time `now` (seconds).
pub fn status_of(proposal: &ProposalRecord, now: u64) -> (r: ProposalStatus)
    ensures
        r == status_spec(proposal.status, proposal.deadline as int, now as int),
{
    if proposal.status == 0 {
        if proposal.deadline < 0 || now > proposal.deadline as u64 {
            ProposalStatus::Expired
        } else {
            ProposalStatus::Active
        }
    } else if proposal.status == 1 {
        ProposalStatus::Approved
    } else {
        ProposalStatus::Executed
    }
}

/// Status of a proposal that may not have been found in the account store.
pub fn status_of_fetched(proposal: &Option<ProposalRecord>, now: u64) -> (r: Result<
    ProposalStatus,
    LifecycleError,
>)
    ensures
        match proposal {
            Some(p) => r == Ok::<ProposalStatus, LifecycleError>(
                status_spec(p.status, p.deadline as int, now as int),
            ),
            None => r == Err::<ProposalStatus, LifecycleError>(LifecycleError::ProposalNotFound),
        },
{
    match proposal {
        Some(p) => Ok(status_of(p, now)),
        None => Err(LifecycleError::ProposalNotFound),
    }
}

/// Whether the approvals gathered reach the multisig's threshold.
pub fn can_execute(multisig: &MultisigRecord, proposal: &ProposalRecord) -> (r: bool)
    ensures
        r == (proposal.approved@.len() >= multisig.threshold as int),
{
    proposal.approved.len() >= multisig.threshold as usize
}

/// Whether `member` may still approve: it has not approved yet and the
/// proposal is active at time `now`.
pub fn can_approve(
    multisig: &MultisigRecord,
    proposal: &ProposalRecord,
    member: &Address,
    now: u64,
) -> (r: bool)
    ensures
        r == (!proposal.approved@.contains(*member) && status_spec(
            proposal.status,
            proposal.deadline as int,
            now as int,
        ) == ProposalStatus::Active),
{
    !contains_address(&proposal.approved, member) && status_of(proposal, now)
        == ProposalStatus::Active
}

/// Appends `member` to the approvers, refusing a second approval by the
/// same member.
pub fn record_approval(proposal: &mut ProposalRecord, member: &Address) -> (r: Result<
    (),
    LifecycleError,
>)
    requires
        old(proposal).wf(),
    ensures
        final(proposal).wf(),
        final(proposal).multisig == old(proposal).multisig,
        final(proposal).transaction_index == old(proposal).transaction_index,
        final(proposal).timestamp == old(proposal).timestamp,
        final(proposal).deadline == old(proposal).deadline,
        final(proposal).status == old(proposal).status,
        old(proposal).approved@.contains(*member) ==> r == Err::<(), LifecycleError>(
            LifecycleError::AlreadyApproved,
        ) && final(proposal).approved@ == old(proposal).approved@,
        !old(proposal).approved@.contains(*member) ==> r == Ok::<(), LifecycleError>(())
            && final(proposal).approved@ == old(proposal).approved@.push(*member),
{
    if contains_address(&proposal.approved, member) {
        return Err(LifecycleError::AlreadyApproved);
    }
    proposal.approved.push(*member);
    proof {
        let s = old(proposal).approved@;
        let t = proposal.approved@;
        assert forall|i: int, j: int| 0 <= i < t.len() && 0 <= j < t.len() && i != j implies t[i]
            != t[j] by {
            if i < s.len() && j < s.len() {
                assert(t[i] == s[i] && t[j] == s[j]);
            } else if i < s.len() {
                assert(s.contains(t[i]));
            } else {
                assert(s.contains(t[j]));
            }
        }
    }
    Ok(())
}

/// Counter of a multisig after `n` proposal creations starting from `prior`.
pub open spec fn counter_after(prior: int, n: nat) -> int
    decreases n,
{
    if n == 0 {
        prior
    } else {
        counter_after(prior, (n - 1) as nat) + 1
    }
}

/// Indices assigned by `n` successive proposal creations starting from a
/// counter of `prior`: each creation takes the counter plus one.
pub open spec fn assigned_indices(prior: int, n: nat) -> Seq<int> {
    Seq::new(n, |k: int| counter_after(prior, k as nat) + 1)
}

/// Index that the next proposal of `multisig` will carry, if the counter can
/// still grow.
pub fn next_transaction_index(multisig: &MultisigRecord) -> (r: Option<u64>)
    ensures
        r == (if multisig.transaction_index < u64::MAX {
            Some((multisig.transaction_index + 1) as u64)
        } else {
            None::<u64>
        }),
{
    multisig.transaction_index.checked_add(1)
}

/// Records the creation of a proposal: the counter grows by one and the new
/// value is the proposal's index.
pub fn record_proposal_created(multisig: &mut MultisigRecord) -> (r: Result<u64, LifecycleError>)
    ensures
        final(multisig).create_key == old(multisig).create_key,
        final(multisig).rent_collector == old(multisig).rent_collector,
        final(multisig).members@ == old(multisig).members@,
        final(multisig).threshold == old(multisig).threshold,
        old(multisig).transaction_index < u64::MAX ==> r == Ok::<u64, LifecycleError>(
            (old(multisig).transaction_index + 1) as u64,
        ) && final(multisig).transaction_index == counter_after(
            old(multisig).transaction_index as int,
            1,
        ),
        old(multisig).transaction_index == u64::MAX ==> r == Err::<u64, LifecycleError>(
            LifecycleError::IndexOverflow,
        ) && final(multisig).transaction_index == old(multisig).transaction_index,
{
    match next_transaction_index(multisig) {
        Some(i) => {
            proof {
                reveal_with_fuel(counter_after, 2);
            }
            multisig.transaction_index = i;
            Ok(i)
        },
        None => Err(LifecycleError::IndexOverflow),
    }
}

/// Successive proposal creations against one multisig are assigned
/// consecutive indices, starting at the prior counter plus one, and leave the
/// counter advanced by the number of creations.
pub proof fn lemma_indices_consecutive(prior: u64, n: nat)
    ensures
        assigned_indices(prior as int, n) =~= Seq::new(n, |k: int| prior + k + 1),
        counter_after(prior as int, n) == prior + n,
{
    lemma_counter_after(prior as int, n);
    assert forall|k: int| 0 <= k < n implies #[trigger] counter_after(prior as int, k as nat)
        == prior + k by {
        lemma_counter_after(prior as int, k as nat);
    }
}

proof fn lemma_counter_after(prior: int, k: nat)
    ensures
        counter_after(prior, k) == prior + k,
    decreases k,
{
    if k > 0 {
        lemma_counter_after(prior, (k - 1) as nat);
    }
}

/// The derived status is exactly the stored code refined by the deadline:
/// open and past the deadline is expired, open otherwise is active, code one
/// is approved and every other code is executed.
pub proof fn lemma_status_derivation(code: u8, deadline: i64, now: u64)
    ensures
        code == 0 && now > deadline ==> status_spec(code, deadline as int, now as int)
            == ProposalStatus::Expired,
        code == 0 && now <= deadline ==> status_spec(code, deadline as int, now as int)
            == ProposalStatus::Active,
        code == 1 ==> status_spec(code, deadline as int, now as int) == ProposalStatus::Approved,
        code != 0 && code != 1 ==> status_spec(code, deadline as int, now as int)
            == ProposalStatus::Executed,
{
}

} // verus!
