use crate::assemble::{budget_directives, budget_spec, BudgetDirective, CommandKind};
use crate::message::{decode, encode_spec, fits, VaultTransactionMessage};
use vstd::prelude::*;

verus! {

/// Arguments of the command that prints a multisig and its proposals.
pub struct DisplayMultisig {
    pub rpc_url: Option<String>,
    pub multisig_address: String,
}

/// Arguments of the command that prints the vault of a multisig.
pub struct DisplayVault {
    pub multisig_address: String,
}

/// Arguments of the command that creates a multisig.
pub struct MultisigCreate {
    pub rpc_url: Option<String>,
    pub keypair: String,
    pub rent_collector: Option<String>,
    pub members: Vec<String>,
    pub threshold: u16,
    pub priority_fee_lamports: Option<u64>,
}

/// Arguments of the command that proposes a vault transaction given as bytes.
pub struct ProposalCreate {
    pub rpc_url: Option<String>,
    pub keypair: String,
    pub multisig_pubkey: String,
    pub voting_deadline: u64,
    pub transaction_message: Vec<u8>,
    pub priority_fee_lamports: Option<u64>,
}

/// Arguments of the command that approves a proposal.
pub struct ProposalApprove {
    pub rpc_url: Option<String>,
    pub keypair: String,
    pub transaction_index: u64,
    pub multisig_pubkey: String,
    pub priority_fee_lamports: Option<u64>,
    pub fee_payer_keypair: Option<String>,
}

/// Arguments of the command that executes an approved proposal.
pub struct ProposalExecute {
    pub rpc_url: Option<String>,
    pub keypair: String,
    pub transaction_index: u64,
    pub multisig_pubkey: String,
    pub priority_fee_lamports: Option<u64>,
    pub compute_unit_limit: Option<u32>,
    pub extra_keypair: Option<String>,
    pub fee_payer_keypair: Option<String>,
}

/// Arguments of the command that reclaims the rent of a finished proposal.
pub struct ProposalAccountsClose {
    pub rpc_url: Option<String>,
    pub keypair: String,
    pub multisig_pubkey: String,
    pub transaction_index: u64,
    pub rent_collector: String,
    pub priority_fee_lamports: Option<u64>,
}

/// Arguments of the command that proposes a token transfer from the vault.
pub struct InitiateTransfer {
    pub rpc_url: Option<String>,
    pub token_program_id: Option<String>,
    pub token_mint_address: String,
    pub token_amount_u64: u64,
    pub recipient: String,
    pub keypair: String,
    pub multisig_pubkey: String,
    pub voting_deadline: u64,
    pub priority_fee_lamports: Option<u64>,
}

/// Arguments of the command that proposes a program upgrade by the vault.
pub struct InitiateProgramUpgrade {
    pub rpc_url: Option<String>,
    pub buffer_address: String,
    pub keypair: String,
    pub multisig_pubkey: String,
    pub voting_deadline: u64,
    pub program_to_upgrade_id: String,
    pub spill_address: String,
    pub priority_fee_lamports: Option<u64>,
}

impl MultisigCreate {
    /// Compute-budget directives of the outer transaction.
    pub fn budget(&self) -> (r: Vec<BudgetDirective>)
        ensures
            r@ == budget_spec(CommandKind::MultisigCreate, self.priority_fee_lamports, None),
    {
        budget_directives(CommandKind::MultisigCreate, self.priority_fee_lamports, None)
    }
}

impl ProposalCreate {
    /// Compute-budget directives of the outer transaction.
    pub fn budget(&self) -> (r: Vec<BudgetDirective>)
        ensures
            r@ == budget_spec(CommandKind::ProposalCreate, self.priority_fee_lamports, None),
    {
        budget_directives(CommandKind::ProposalCreate, self.priority_fee_lamports, None)
    }

    /// The vault transaction message carried by the arguments, if the bytes
    /// are the encoding of one.
    pub fn message(&self) -> (r: Option<VaultTransactionMessage>)
        ensures
            r matches Some(m) ==> fits(m@) && encode_spec(m@) == self.transaction_message@,
            forall|mv|
                fits(mv) && #[trigger] encode_spec(mv) == self.transaction_message@ ==> (r matches Some(
                    m,
                ) && m@ == mv),
    {
        decode(self.transaction_message.as_slice())
    }
}

impl ProposalApprove {
    /// Compute-budget directives of the outer transaction.
    pub fn budget(&self) -> (r: Vec<BudgetDirective>)
        ensures
            r@ == budget_spec(CommandKind::ProposalApprove, self.priority_fee_lamports, None),
    {
        budget_directives(CommandKind::ProposalApprove, self.priority_fee_lamports, None)
    }
}

impl ProposalExecute {
    /// Compute-budget directives of the outer transaction: unit limit, then
    /// unit price.
    pub fn budget(&self) -> (r: Vec<BudgetDirective>)
        ensures
            r@ == budget_spec(
                CommandKind::ProposalExecute,
                self.priority_fee_lamports,
                self.compute_unit_limit,
            ),
    {
        budget_directives(
            CommandKind::ProposalExecute,
            self.priority_fee_lamports,
            self.compute_unit_limit,
        )
    }
}

impl ProposalAccountsClose {
    /// Compute-budget directives of the outer transaction.
    pub fn budget(&self) -> (r: Vec<BudgetDirective>)
        ensures
            r@ == budget_spec(CommandKind::ProposalAccountsClose, self.priority_fee_lamports, None),
    {
        budget_directives(CommandKind::ProposalAccountsClose, self.priority_fee_lamports, None)
    }
}

impl InitiateTransfer {
    /// Compute-budget directives of the outer transaction.
    pub fn budget(&self) -> (r: Vec<BudgetDirective>)
        ensures
            r@ == budget_spec(CommandKind::InitiateTransfer, self.priority_fee_lamports, None),
    {
        budget_directives(CommandKind::InitiateTransfer, self.priority_fee_lamports, None)
    }
}

impl InitiateProgramUpgrade {
    /// Compute-budget directives of the outer transaction.
    pub fn budget(&self) -> (r: Vec<BudgetDirective>)
        ensures
            r@ == budget_spec(CommandKind::InitiateProgramUpgrade, self.priority_fee_lamports, None),
    {
        budget_directives(CommandKind::InitiateProgramUpgrade, self.priority_fee_lamports, None)
    }
}

} // verus!
