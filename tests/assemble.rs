use fortis_cli::assemble::{
    budget_directives, check_signers, fee_payer, signer_keys, AssemblyError, BudgetDirective,
    CommandKind,
};
use fortis_cli::commands::{ProposalCreate, ProposalExecute};

fn key(b: u8) -> [u8; 32] {
    [b; 32]
}

#[test]
fn execute_sets_limit_then_price() {
    assert_eq!(
        budget_directives(CommandKind::ProposalExecute, None, None),
        vec![
            BudgetDirective::SetComputeUnitLimit(200_000),
            BudgetDirective::SetComputeUnitPrice(5000)
        ]
    );
    assert_eq!(
        budget_directives(CommandKind::ProposalExecute, Some(7), Some(9)),
        vec![BudgetDirective::SetComputeUnitLimit(9), BudgetDirective::SetComputeUnitPrice(7)]
    );
}

#[test]
fn other_commands_set_price_only() {
    assert_eq!(
        budget_directives(CommandKind::ProposalApprove, None, Some(9)),
        vec![BudgetDirective::SetComputeUnitPrice(5000)]
    );
    assert_eq!(
        budget_directives(CommandKind::InitiateTransfer, None, None),
        vec![BudgetDirective::SetComputeUnitPrice(200_000)]
    );
    assert_eq!(
        budget_directives(CommandKind::InitiateProgramUpgrade, Some(1), None),
        vec![BudgetDirective::SetComputeUnitPrice(1)]
    );
}

#[test]
fn fee_payer_and_signers() {
    assert_eq!(fee_payer(&key(1), &None), key(1));
    assert_eq!(fee_payer(&key(1), &Some(key(2))), key(2));
    assert_eq!(signer_keys(&key(1), &None, &None), vec![key(1)]);
    assert_eq!(signer_keys(&key(1), &Some(key(1)), &None), vec![key(1)]);
    assert_eq!(signer_keys(&key(1), &Some(key(2)), &Some(key(3))), vec![key(1), key(2), key(3)]);
}

#[test]
fn missing_signer_is_named() {
    let available = vec![key(1), key(2)];
    assert_eq!(check_signers(&vec![key(2), key(1)], &available), Ok(()));
    assert_eq!(
        check_signers(&vec![key(1), key(3), key(4)], &available),
        Err(AssemblyError::MissingSigner(key(3)))
    );
}

#[test]
fn command_arguments_give_budget_and_message() {
    let exec = ProposalExecute {
        rpc_url: None,
        keypair: "k".to_string(),
        transaction_index: 3,
        multisig_pubkey: "m".to_string(),
        priority_fee_lamports: Some(11),
        compute_unit_limit: None,
        extra_keypair: None,
        fee_payer_keypair: None,
    };
    assert_eq!(
        exec.budget(),
        vec![BudgetDirective::SetComputeUnitLimit(200_000), BudgetDirective::SetComputeUnitPrice(11)]
    );
    let create = ProposalCreate {
        rpc_url: None,
        keypair: "k".to_string(),
        multisig_pubkey: "m".to_string(),
        voting_deadline: 10,
        transaction_message: vec![0, 0, 0, 0, 0, 0, 0, 0, 0, 0, 0, 0, 0, 0, 0],
        priority_fee_lamports: None,
    };
    assert!(create.message().is_some());
    assert_eq!(create.budget(), vec![BudgetDirective::SetComputeUnitPrice(5000)]);
}
