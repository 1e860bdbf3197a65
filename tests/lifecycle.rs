use fortis_cli::lifecycle::{
    can_approve, can_execute, next_transaction_index, record_approval, record_proposal_created,
    status_of, status_of_fetched, LifecycleError, MultisigRecord, ProposalRecord, ProposalStatus,
};

fn key(b: u8) -> [u8; 32] {
    [b; 32]
}

fn multisig(threshold: u16, index: u64) -> MultisigRecord {
    MultisigRecord {
        create_key: key(9),
        rent_collector: None,
        members: vec![key(1), key(2), key(3)],
        threshold,
        transaction_index: index,
    }
}

fn proposal(deadline: i64, status: u8, approved: Vec<[u8; 32]>) -> ProposalRecord {
    ProposalRecord {
        multisig: key(7),
        transaction_index: 1,
        timestamp: 1_000,
        deadline,
        approved,
        status,
    }
}

#[test]
fn open_proposal_before_deadline_is_active() {
    assert_eq!(status_of(&proposal(2_000, 0, vec![]), 1_500), ProposalStatus::Active);
    assert_eq!(status_of(&proposal(2_000, 0, vec![]), 2_000), ProposalStatus::Active);
}

#[test]
fn open_proposal_past_deadline_is_expired() {
    let now: u64 = 5_000;
    let p = proposal(now as i64 - 1, 0, vec![]);
    assert_eq!(p.status, 0);
    assert_eq!(status_of(&p, now), ProposalStatus::Expired);
}

#[test]
fn negative_deadline_is_expired() {
    assert_eq!(status_of(&proposal(-5, 0, vec![]), 0), ProposalStatus::Expired);
}

#[test]
fn approved_and_executed_codes() {
    assert_eq!(status_of(&proposal(0, 1, vec![]), 10), ProposalStatus::Approved);
    assert_eq!(status_of(&proposal(i64::MAX, 2, vec![]), 10), ProposalStatus::Executed);
    assert_eq!(status_of(&proposal(i64::MAX, 255, vec![]), 10), ProposalStatus::Executed);
}

#[test]
fn missing_proposal_is_reported() {
    assert_eq!(status_of_fetched(&None, 10), Err(LifecycleError::ProposalNotFound));
    assert_eq!(status_of_fetched(&Some(proposal(20, 0, vec![])), 10), Ok(ProposalStatus::Active));
}

#[test]
fn approval_threshold_scenario() {
    let m = multisig(2, 1);
    let mut p = proposal(i64::MAX, 0, vec![key(1)]);
    assert!(!can_execute(&m, &p));
    assert_eq!(record_approval(&mut p, &key(2)), Ok(()));
    assert_eq!(p.approved, vec![key(1), key(2)]);
    assert!(can_execute(&m, &p));
    assert_eq!(record_approval(&mut p, &key(2)), Err(LifecycleError::AlreadyApproved));
    assert_eq!(p.approved.len(), 2);
}

#[test]
fn approve_rules() {
    let m = multisig(2, 1);
    let p = proposal(100, 0, vec![key(1)]);
    assert!(can_approve(&m, &p, &key(2), 50));
    assert!(!can_approve(&m, &p, &key(1), 50));
    assert!(!can_approve(&m, &p, &key(2), 101));
    assert!(!can_approve(&m, &proposal(100, 1, vec![]), &key(2), 50));
}

#[test]
fn creations_take_consecutive_indices() {
    let mut m = multisig(1, 41);
    assert_eq!(record_proposal_created(&mut m), Ok(42));
    assert_eq!(record_proposal_created(&mut m), Ok(43));
    assert_eq!(record_proposal_created(&mut m), Ok(44));
    assert_eq!(m.transaction_index, 44);
}

#[test]
fn counter_overflow_is_refused() {
    let mut m = multisig(1, u64::MAX);
    assert_eq!(next_transaction_index(&m), None);
    assert_eq!(record_proposal_created(&mut m), Err(LifecycleError::IndexOverflow));
    assert_eq!(m.transaction_index, u64::MAX);
}

#[test]
fn same_snapshot_gives_same_index() {
    // Two creators reading one snapshot target the same index, hence the same
    // derived proposal and transaction accounts; the program accepts only one.
    let snapshot = multisig(2, 7);
    let first = next_transaction_index(&snapshot);
    let second = next_transaction_index(&snapshot);
    assert_eq!(first, Some(8));
    assert_eq!(first, second);
}
