use crate::address::{contains_address, same_address, Address};
use vstd::prelude::*;

verus! {

/// The domain instruction that an outer transaction carries.
#[derive(PartialEq, Eq, Structural, Clone, Copy, Debug)]
pub enum CommandKind {
    MultisigCreate,
    ProposalCreate,
    ProposalApprove,
    ProposalExecute,
    ProposalAccountsClose,
    InitiateTransfer,
    InitiateProgramUpgrade,
}

/// A compute-budget directive placed ahead of the domain instruction.
#[derive(PartialEq, Eq, Structural, Clone, Copy, Debug)]
pub enum BudgetDirective {
    SetComputeUnitLimit(u32),
    SetComputeUnitPrice(u64),
}

#[derive(PartialEq, Eq, Clone, Copy, Debug)]
pub enum AssemblyError {
    /// An account that the instruction declares as a signer has no signer.
    MissingSigner(Address),
}

/// Unit price used when the caller gives none.
pub const DEFAULT_UNIT_PRICE: u64 = 5000;

/// Unit price used by the commands that build and propose a vault transaction
/// in one step, when the caller gives none.
pub const INITIATION_UNIT_PRICE: u64 = 200_000;

/// Unit limit used for an execution when the caller gives none.
pub const DEFAULT_UNIT_LIMIT: u32 = 200_000;

pub open spec fn default_unit_price(kind: CommandKind) -> u64 {
    match kind {
        CommandKind::InitiateTransfer | CommandKind::InitiateProgramUpgrade => INITIATION_UNIT_PRICE,
        _ => DEFAULT_UNIT_PRICE,
    }
}

pub open spec fn or_default<T>(v: Option<T>, d: T) -> T {
    match v {
        Some(x) => x,
        None => d,
    }
}

/// The directives of a command, in order: an execution sets its unit limit
/// first; every command then sets its unit price.
pub open spec fn budget_spec(kind: CommandKind, unit_price: Option<u64>, unit_limit: Option<u32>) -> Seq<
    BudgetDirective,
> {
    let price = BudgetDirective::SetComputeUnitPrice(or_default(unit_price, default_unit_price(kind)));
    if kind == CommandKind::ProposalExecute {
        seq![BudgetDirective::SetComputeUnitLimit(or_default(unit_limit, DEFAULT_UNIT_LIMIT)), price]
    } else {
        seq![price]
    }
}

/// The compute-budget directives that precede the domain instruction of
/// `kind`; caller values are forwarded as given, defaults fill the gaps.
pub fn budget_directives(kind: CommandKind, unit_price: Option<u64>, unit_limit: Option<u32>) -> (r: Vec<
    BudgetDirective,
>)
    ensures
        r@ == budget_spec(kind, unit_price, unit_limit),
{
    let default_price = match kind {
        CommandKind::InitiateTransfer | CommandKind::InitiateProgramUpgrade => INITIATION_UNIT_PRICE,
        _ => DEFAULT_UNIT_PRICE,
    };
    let price = match unit_price {
        Some(p) => p,
        None => default_price,
    };
    let mut r: Vec<BudgetDirective> = Vec::new();
    if kind == CommandKind::ProposalExecute {
        let limit = match unit_limit {
            Some(l) => l,
            None => DEFAULT_UNIT_LIMIT,
        };
        r.push(BudgetDirective::SetComputeUnitLimit(limit));
    }
    r.push(BudgetDirective::SetComputeUnitPrice(price));
    assert(r@ =~= budget_spec(kind, unit_price, unit_limit));
    r
}

/// The account that pays the fee: the separate fee payer when one is given,
/// the acting member otherwise.
pub fn fee_payer(member: &Address, separate_payer: &Option<Address>) -> (r: Address)
    ensures
        r == or_default(*separate_payer, *member),
{
    match separate_payer {
        Some(p) => *p,
        None => *member,
    }
}

pub open spec fn signers_spec(member: Address, separate_payer: Option<Address>, extra: Option<Address>) -> Seq<
    Address,
> {
    let with_payer = match separate_payer {
        Some(p) => if p != member {
            seq![member, p]
        } else {
            seq![member]
        },
        None => seq![member],
    };
    match extra {
        Some(e) => with_payer.push(e),
        None => with_payer,
    }
}

/// The keys that sign an outer transaction, in order: the acting member, the
/// fee payer when it is another account, then any extra signer.
pub fn signer_keys(member: &Address, separate_payer: &Option<Address>, extra: &Option<Address>) -> (r:
    Vec<Address>)
    ensures
        r@ == signers_spec(*member, *separate_payer, *extra),
{
    let mut r: Vec<Address> = Vec::new();
    r.push(*member);
    if let Some(p) = separate_payer {
        if !same_address(p, member) {
            r.push(*p);
        }
    }
    if let Some(e) = extra {
        r.push(*e);
    }
    assert(r@ =~= signers_spec(*member, *separate_payer, *extra));
    r
}

/// Checks that every account that must sign has a signer. The error names
/// the first required account, in order, that has none.
pub fn check_signers(required: &Vec<Address>, available: &Vec<Address>) -> (r: Result<(), AssemblyError>)
    ensures
        r is Ok <==> forall|i: int| 0 <= i < required@.len() ==> available@.contains(required@[i]),
        r matches Err(AssemblyError::MissingSigner(a)) ==> exists|i: int|
            0 <= i < required@.len() && required@[i] == a && !available@.contains(a) && forall|j: int|
                0 <= j < i ==> available@.contains(#[trigger] required@[j]),
{
    let mut i: usize = 0;
    while i < required.len()
        invariant
            0 <= i <= required@.len(),
            forall|j: int| 0 <= j < i ==> available@.contains(#[trigger] required@[j]),
        decreases required@.len() - i,
    {
        if !contains_address(available, &required[i]) {
            return Err(AssemblyError::MissingSigner(required[i]));
        }
        i = i + 1;
    }
    Ok(())
}

} // verus!
