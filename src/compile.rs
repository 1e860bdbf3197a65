use crate::address::{contains_address, same_address, Address};
use crate::message::{
    all_ok, fits, instruction_ok, key_ok, u32_fits, CompiledInstruction, VaultTransactionMessage,
};
use vstd::prelude::*;

verus! {

/// An account that an instruction uses, with its roles.
#[derive(Clone, Copy, Debug)]
pub struct AccountMeta {
    pub pubkey: Address,
    pub is_signer: bool,
    pub is_writable: bool,
}

/// An instruction for the vault to execute, with its accounts given by
/// address.
pub struct Instruction {
    pub program_id: Address,
    pub accounts: Vec<AccountMeta>,
    pub data: Vec<u8>,
}

#[derive(PartialEq, Eq, Structural, Clone, Copy, Debug)]
pub enum CompileError {
    /// More distinct accounts than a one-byte index can address.
    TooManyAccounts,
}

/// Largest number of distinct accounts a message may reference.
pub const MAX_ACCOUNTS: usize = 255;

/// The account uses of one instruction: its program, neither signing nor
/// written, then its accounts.
pub open spec fn instruction_metas(ix: Instruction) -> Seq<AccountMeta> {
    seq![AccountMeta { pubkey: ix.program_id, is_signer: false, is_writable: false }]
        + ix.accounts@
}

/// Every account use of a bundle, in order: the vault as a writable signer,
/// then the uses of each instruction.
pub open spec fn flat_metas(vault: Address, ixs: Seq<Instruction>) -> Seq<AccountMeta>
    decreases ixs.len(),
{
    if ixs.len() == 0 {
        seq![AccountMeta { pubkey: vault, is_signer: true, is_writable: true }]
    } else {
        flat_metas(vault, ixs.drop_last()) + instruction_metas(ixs.last())
    }
}

/// The accounts used anywhere in `metas`.
pub open spec fn keys_of(metas: Seq<AccountMeta>) -> Set<Address> {
    pubkeys(metas).to_set()
}

pub open spec fn pubkeys(metas: Seq<AccountMeta>) -> Seq<Address> {
    metas.map_values(|m: AccountMeta| m.pubkey)
}

pub open spec fn signs(metas: Seq<AccountMeta>, k: Address) -> bool {
    exists|t: int| 0 <= t < metas.len() && #[trigger] metas[t].pubkey == k && metas[t].is_signer
}

pub open spec fn writes(metas: Seq<AccountMeta>, k: Address) -> bool {
    exists|t: int| 0 <= t < metas.len() && #[trigger] metas[t].pubkey == k && metas[t].is_writable
}

/// The accounts of `s` in order of first use, each once.
pub open spec fn first_uses(s: Seq<Address>) -> Seq<Address>
    decreases s.len(),
{
    if s.len() == 0 {
        Seq::empty()
    } else {
        let p = first_uses(s.drop_last());
        if s.drop_last().contains(s.last()) {
            p
        } else {
            p.push(s.last())
        }
    }
}

/// Whether an account is in position class `c`.
pub open spec fn in_class(metas: Seq<AccountMeta>, c: int) -> spec_fn(Address) -> bool {
    |k: Address| class_of(metas, k) == c
}

/// The account keys of a compiled message: the accounts in order of first
/// use, grouped by class, writable signers first.
pub open spec fn ordered_keys(metas: Seq<AccountMeta>) -> Seq<Address> {
    let u = first_uses(pubkeys(metas));
    u.filter(in_class(metas, 0)) + u.filter(in_class(metas, 1)) + u.filter(in_class(metas, 2))
        + u.filter(in_class(metas, 3))
}

/// Position class of an account: writable signers, read-only signers,
/// writable non-signers, read-only non-signers.
pub open spec fn class_of(metas: Seq<AccountMeta>, k: Address) -> int {
    if signs(metas, k) {
        if writes(metas, k) {
            0
        } else {
            1
        }
    } else if writes(metas, k) {
        2
    } else {
        3
    }
}

fn flatten(vault: &Address, ixs: &Vec<Instruction>) -> (r: Vec<AccountMeta>)
    ensures
        r@ == flat_metas(*vault, ixs@),
{
    let mut r: Vec<AccountMeta> = Vec::new();
    r.push(AccountMeta { pubkey: *vault, is_signer: true, is_writable: true });
    let mut i: usize = 0;
    while i < ixs.len()
        invariant
            0 <= i <= ixs@.len(),
            r@ == flat_metas(*vault, ixs@.take(i as int)),
        decreases ixs@.len() - i,
    {
        let ix = &ixs[i];
        let ghost before = r@;
        r.push(AccountMeta { pubkey: ix.program_id, is_signer: false, is_writable: false });
        let mut j: usize = 0;
        while j < ix.accounts.len()
            invariant
                0 <= j <= ix.accounts@.len(),
                r@ == before + seq![
                    AccountMeta { pubkey: ix.program_id, is_signer: false, is_writable: false },
                ] + ix.accounts@.take(j as int),
            decreases ix.accounts@.len() - j,
        {
            r.push(ix.accounts[j]);
            j = j + 1;
            assert(r@ =~= before + seq![
                AccountMeta { pubkey: ix.program_id, is_signer: false, is_writable: false },
            ] + ix.accounts@.take(j as int));
        }
        proof {
            assert(ix.accounts@.take(j as int) =~= ix.accounts@);
            assert(ixs@.take(i + 1).drop_last() =~= ixs@.take(i as int));
            assert(r@ =~= before + instruction_metas(ixs@[i as int]));
        }
        i = i + 1;
    }
    assert(ixs@.take(i as int) =~= ixs@);
    r
}

fn key_signs(metas: &Vec<AccountMeta>, k: &Address) -> (r: bool)
    ensures
        r == signs(metas@, *k),
{
    let mut t: usize = 0;
    while t < metas.len()
        invariant
            0 <= t <= metas@.len(),
            forall|u: int| 0 <= u < t ==> !(#[trigger] metas@[u].pubkey == *k && metas@[u].is_signer),
        decreases metas@.len() - t,
    {
        if metas[t].is_signer && same_address(&metas[t].pubkey, k) {
            return true;
        }
        t = t + 1;
    }
    false
}

fn key_writes(metas: &Vec<AccountMeta>, k: &Address) -> (r: bool)
    ensures
        r == writes(metas@, *k),
{
    let mut t: usize = 0;
    while t < metas.len()
        invariant
            0 <= t <= metas@.len(),
            forall|u: int|
                0 <= u < t ==> !(#[trigger] metas@[u].pubkey == *k && metas@[u].is_writable),
        decreases metas@.len() - t,
    {
        if metas[t].is_writable && same_address(&metas[t].pubkey, k) {
            return true;
        }
        t = t + 1;
    }
    false
}

/// The distinct accounts of `metas`, in order of first use.
fn distinct_keys(metas: &Vec<AccountMeta>) -> (r: Vec<Address>)
    requires
        metas@.len() > 0,
    ensures
        r@.no_duplicates(),
        r@.to_set() == keys_of(metas@),
        r@.len() > 0 && r@[0] == metas@[0].pubkey,
        r@ == first_uses(pubkeys(metas@)),
{
    let mut r: Vec<Address> = Vec::new();
    let mut t: usize = 0;
    while t < metas.len()
        invariant
            0 <= t <= metas@.len(),
            r@.no_duplicates(),
            forall|k: Address|
                r@.contains(k) <==> exists|u: int| 0 <= u < t && #[trigger] metas@[u].pubkey == k,
            t > 0 ==> r@.len() > 0 && r@[0] == metas@[0].pubkey,
            r@ == first_uses(pubkeys(metas@).take(t as int)),
        decreases metas@.len() - t,
    {
        let k = metas[t].pubkey;
        let ghost before = r@;
        proof {
            let s = pubkeys(metas@).take(t + 1);
            assert(s.drop_last() =~= pubkeys(metas@).take(t as int));
            assert(s.last() == k);
            if s.drop_last().contains(k) {
                let u = choose|u: int| 0 <= u < s.drop_last().len() && s.drop_last()[u] == k;
                assert(metas@[u].pubkey == k);
            }
            if before.contains(k) {
                let u = choose|u: int| 0 <= u < t && #[trigger] metas@[u].pubkey == k;
                assert(s.drop_last()[u] == k);
            }
        }
        if !contains_address(&r, &k) {
            r.push(k);
            proof {
                assert forall|i: int, j: int| 0 <= i < j < r@.len() implies r@[i] != r@[j] by {
                    if j == r@.len() - 1 {
                        assert(before.contains(r@[i]));
                    }
                }
            }
        }
        proof {
            if t == 0 && before.len() > 0 {
                assert(before.contains(before[0]));
            }
            if before.len() > 0 {
                assert(r@[0] == before[0]);
            }
            assert(r@.contains(k)) by {
                if before.contains(k) {
                    let idx = choose|i: int| 0 <= i < before.len() && before[i] == k;
                    assert(r@[idx] == k);
                } else {
                    assert(r@[r@.len() - 1] == k);
                }
            }
            assert forall|x: Address| r@.contains(x) <==> exists|u: int|
                0 <= u < t + 1 && #[trigger] metas@[u].pubkey == x by {
                if x == k {
                    assert(metas@[t as int].pubkey == x);
                } else {
                    if r@.contains(x) {
                        let idx = choose|i: int| 0 <= i < r@.len() && r@[i] == x;
                        assert(before.contains(x)) by {
                            assert(idx < before.len());
                            assert(before[idx] == x);
                        }
                    }
                    if before.contains(x) {
                        let idx = choose|i: int| 0 <= i < before.len() && before[i] == x;
                        assert(r@[idx] == x);
                    }
                    if exists|u: int| 0 <= u < t + 1 && #[trigger] metas@[u].pubkey == x {
                        let u = choose|u: int| 0 <= u < t + 1 && #[trigger] metas@[u].pubkey == x;
                        assert(u < t);
                    }
                }
            }
        }
        t = t + 1;
    }
    proof {
        assert(pubkeys(metas@).take(metas@.len() as int) =~= pubkeys(metas@));
        assert forall|k: Address| r@.to_set().contains(k) <==> keys_of(metas@).contains(k) by {
            if keys_of(metas@).contains(k) {
                let u = choose|u: int| 0 <= u < metas@.len() && #[trigger] pubkeys(metas@)[u] == k;
                assert(metas@[u].pubkey == k);
            }
            if r@.contains(k) {
                let u = choose|u: int| 0 <= u < metas@.len() && #[trigger] metas@[u].pubkey == k;
                assert(pubkeys(metas@)[u] == k);
            }
        }
        assert(r@.to_set() =~= keys_of(metas@));
    }
    r
}

fn key_class(metas: &Vec<AccountMeta>, k: &Address) -> (r: u8)
    ensures
        r as int == class_of(metas@, *k),
{
    let s = key_signs(metas, k);
    let w = key_writes(metas, k);
    if s {
        if w {
            0
        } else {
            1
        }
    } else if w {
        2
    } else {
        3
    }
}

/// The keys of `uniq` in class `c`, in their order.
fn collect_class(uniq: &Vec<Address>, metas: &Vec<AccountMeta>, c: u8) -> (r: Vec<Address>)
    requires
        uniq@.no_duplicates(),
    ensures
        r@.no_duplicates(),
        forall|k: Address| r@.contains(k) <==> uniq@.contains(k) && class_of(metas@, k) == c,
        forall|i: int| 0 <= i < r@.len() ==> class_of(metas@, #[trigger] r@[i]) == c,
        uniq@.len() > 0 && class_of(metas@, uniq@[0]) == c ==> r@.len() > 0 && r@[0] == uniq@[0],
        r@ == uniq@.filter(in_class(metas@, c as int)),
{
    let mut r: Vec<Address> = Vec::new();
    let mut i: usize = 0;
    while i < uniq.len()
        invariant
            0 <= i <= uniq@.len(),
            uniq@.no_duplicates(),
            r@.no_duplicates(),
            forall|k: Address|
                r@.contains(k) <==> (exists|u: int| 0 <= u < i && #[trigger] uniq@[u] == k)
                    && class_of(metas@, k) == c,
            forall|j: int| 0 <= j < r@.len() ==> class_of(metas@, #[trigger] r@[j]) == c,
            i > 0 && class_of(metas@, uniq@[0]) == c ==> r@.len() > 0 && r@[0] == uniq@[0],
            r@ == uniq@.take(i as int).filter(in_class(metas@, c as int)),
        decreases uniq@.len() - i,
    {
        let k = uniq[i];
        let ghost before = r@;
        proof {
            let s = uniq@.take(i + 1);
            assert(s.drop_last() =~= uniq@.take(i as int));
            assert(s.last() == k);
        }
        if key_class(metas, &k) == c {
            proof {
                if before.contains(k) {
                    let u = choose|u: int| 0 <= u < i && #[trigger] uniq@[u] == k;
                    assert(uniq@[u] == uniq@[i as int]);
                }
            }
            r.push(k);
            proof {
                assert forall|a: int, b: int| 0 <= a < b < r@.len() implies r@[a] != r@[b] by {
                    if b == r@.len() - 1 {
                        assert(before.contains(r@[a]));
                    }
                }
                if i == 0 && before.len() > 0 {
                    assert(before.contains(before[0]));
                }
                if before.len() > 0 {
                    assert(r@[0] == before[0]);
                }
            }
        }
        proof {
            let pred = in_class(metas@, c as int);
            let s = uniq@.take(i + 1);
            reveal(Seq::filter);
            assert(s.len() == i + 1);
            assert(pred(k) == (class_of(metas@, k) == c));
            assert(s.filter(pred) == (if pred(s.last()) {
                s.drop_last().filter(pred).push(s.last())
            } else {
                s.drop_last().filter(pred)
            }));
            assert(r@ =~= s.filter(pred));
            assert forall|x: Address| r@.contains(x) <==> (exists|u: int|
                0 <= u < i + 1 && #[trigger] uniq@[u] == x) && class_of(metas@, x) == c by {
                if x == k {
                    assert(uniq@[i as int] == x);
                    if class_of(metas@, x) == c {
                        assert(r@[r@.len() - 1] == x);
                    }
                } else {
                    if r@.contains(x) {
                        let idx = choose|j: int| 0 <= j < r@.len() && r@[j] == x;
                        assert(before[idx] == x);
                    }
                    if before.contains(x) {
                        let idx = choose|j: int| 0 <= j < before.len() && before[j] == x;
                        assert(r@[idx] == x);
                    }
                    if exists|u: int| 0 <= u < i + 1 && #[trigger] uniq@[u] == x {
                        let u = choose|u: int| 0 <= u < i + 1 && #[trigger] uniq@[u] == x;
                        assert(u < i);
                    }
                }
            }
        }
        i = i + 1;
    }
    proof {
        assert(uniq@.take(uniq@.len() as int) =~= uniq@);
        assert forall|k: Address| r@.contains(k) <==> uniq@.contains(k) && class_of(metas@, k) == c by {
            if uniq@.contains(k) {
                let u = choose|u: int| 0 <= u < uniq@.len() && uniq@[u] == k;
                assert(uniq@[u] == k);
            }
        }
    }
    r
}

/// Position of `k` in `keys`.
fn find_index(keys: &Vec<Address>, k: &Address) -> (r: Option<usize>)
    ensures
        r matches Some(i) ==> i < keys@.len() && keys@[i as int] == *k,
        r is None ==> !keys@.contains(*k),
{
    let mut i: usize = 0;
    while i < keys.len()
        invariant
            0 <= i <= keys@.len(),
            forall|j: int| 0 <= j < i ==> keys@[j] != *k,
        decreases keys@.len() - i,
    {
        if same_address(&keys[i], k) {
            return Some(i);
        }
        i = i + 1;
    }
    None
}

proof fn lemma_concat_no_dup(a: Seq<Address>, b: Seq<Address>)
    requires
        a.no_duplicates(),
        b.no_duplicates(),
        forall|x: Address| a.contains(x) ==> !b.contains(x),
    ensures
        (a + b).no_duplicates(),
        forall|x: Address| (a + b).contains(x) <==> a.contains(x) || b.contains(x),
{
    let s = a + b;
    assert forall|i: int, j: int| 0 <= i < j < s.len() implies s[i] != s[j] by {
        if i < a.len() && j >= a.len() {
            assert(a.contains(s[i]));
            assert(b.contains(s[j]));
        }
    }
    assert forall|x: Address| s.contains(x) <==> a.contains(x) || b.contains(x) by {
        if s.contains(x) {
            let i = choose|i: int| 0 <= i < s.len() && s[i] == x;
            if i < a.len() {
                assert(a[i] == x);
            } else {
                assert(b[i - a.len()] == x);
            }
        }
        if a.contains(x) {
            let i = choose|i: int| 0 <= i < a.len() && a[i] == x;
            assert(s[i] == x);
        }
        if b.contains(x) {
            let i = choose|i: int| 0 <= i < b.len() && b[i] == x;
            assert(s[i + a.len()] == x);
        }
    }
}

proof fn lemma_in_flat(vault: Address, ixs: Seq<Instruction>, i: int, k: Address)
    requires
        0 <= i < ixs.len(),
        pubkeys(instruction_metas(ixs[i])).contains(k),
    ensures
        keys_of(flat_metas(vault, ixs)).contains(k),
    decreases ixs.len(),
{
    let f = flat_metas(vault, ixs);
    if i == ixs.len() - 1 {
        let im = instruction_metas(ixs[i]);
        let t = choose|t: int| 0 <= t < im.len() && pubkeys(im)[t] == k;
        assert(f[flat_metas(vault, ixs.drop_last()).len() + t] == im[t]);
        assert(pubkeys(f)[flat_metas(vault, ixs.drop_last()).len() + t] == k);
    } else {
        assert(ixs.drop_last()[i] == ixs[i]);
        lemma_in_flat(vault, ixs.drop_last(), i, k);
        let g = flat_metas(vault, ixs.drop_last());
        let t = choose|t: int| 0 <= t < g.len() && pubkeys(g)[t] == k;
        assert(f[t] == g[t]);
        assert(pubkeys(f)[t] == k);
    }
}

proof fn lemma_flat_first(vault: Address, ixs: Seq<Instruction>)
    ensures
        flat_metas(vault, ixs).len() > 0,
        flat_metas(vault, ixs)[0] == (AccountMeta { pubkey: vault, is_signer: true, is_writable: true }),
    decreases ixs.len(),
{
    if ixs.len() > 0 {
        lemma_flat_first(vault, ixs.drop_last());
    }
}

/// `c` is `ix` with its program and accounts replaced by their positions in
/// `keys`.
pub open spec fn instruction_compiled(keys: Seq<Address>, ix: Instruction, c: CompiledInstruction) -> bool {
    &&& c.program_id_index < keys.len()
    &&& keys[c.program_id_index as int] == ix.program_id
    &&& c.account_indexes@.len() == ix.accounts@.len()
    &&& forall|j: int|
        0 <= j < ix.accounts@.len() ==> #[trigger] c.account_indexes@[j] < keys.len()
            && keys[c.account_indexes@[j] as int] == ix.accounts@[j].pubkey
    &&& c.data@ == ix.data@
}

/// `m` is the message of the vault `vault` running `ixs`: each distinct
/// account once, the vault first, ordered writable signers, read-only signers,
/// writable non-signers, read-only non-signers, each group in order of first
/// use, with counts that mark those regions; each instruction refers to its accounts by position; no lookup
/// table is referenced.
pub open spec fn compiled_from(vault: Address, ixs: Seq<Instruction>, m: VaultTransactionMessage) -> bool {
    let metas = flat_metas(vault, ixs);
    let keys = m.account_keys@;
    let ns = m.num_signers as int;
    let nws = m.num_writable_signers as int;
    let nwn = m.num_writable_non_signers as int;
    &&& keys == ordered_keys(metas)
    &&& nws == first_uses(pubkeys(metas)).filter(in_class(metas, 0)).len()
    &&& ns == nws + first_uses(pubkeys(metas)).filter(in_class(metas, 1)).len()
    &&& nwn == first_uses(pubkeys(metas)).filter(in_class(metas, 2)).len()
    &&& keys.len() <= MAX_ACCOUNTS
    &&& keys.no_duplicates()
    &&& keys.to_set() == keys_of(metas)
    &&& keys.len() > 0 && keys[0] == vault
    &&& nws <= ns && ns + nwn <= keys.len()
    &&& forall|i: int|
        0 <= i < keys.len() ==> (i < ns <==> signs(metas, #[trigger] keys[i])) && (writes(
            metas,
            keys[i],
        ) <==> (i < nws || (ns <= i && i < ns + nwn)))
    &&& m.instructions@.len() == ixs.len()
    &&& forall|i: int|
        0 <= i < ixs.len() ==> instruction_compiled(keys, ixs[i], #[trigger] m.instructions@[i])
    &&& m.address_table_lookups@.len() == 0
}

/// Compiles the instructions that the vault `vault` is to run into a vault
/// transaction message.
pub fn compile(vault: &Address, instructions: &Vec<Instruction>) -> (r: Result<
    VaultTransactionMessage,
    CompileError,
>)
    ensures
        r is Err <==> keys_of(flat_metas(*vault, instructions@)).len() > MAX_ACCOUNTS,
        r matches Err(e) ==> e == CompileError::TooManyAccounts,
        r matches Ok(m) ==> compiled_from(*vault, instructions@, m),
{
    let metas = flatten(vault, instructions);
    let uniq = distinct_keys(&metas);
    proof {
        uniq@.unique_seq_to_set();
    }
    if uniq.len() > MAX_ACCOUNTS {
        return Err(CompileError::TooManyAccounts);
    }
    let mut keys = collect_class(&uniq, &metas, 0);
    let mut c1 = collect_class(&uniq, &metas, 1);
    let mut c2 = collect_class(&uniq, &metas, 2);
    let mut c3 = collect_class(&uniq, &metas, 3);
    let ghost s0 = keys@;
    let ghost s1 = c1@;
    let ghost s2 = c2@;
    let ghost s3 = c3@;
    let n0 = keys.len();
    let n1 = c1.len();
    let n2 = c2.len();
    keys.append(&mut c1);
    keys.append(&mut c2);
    keys.append(&mut c3);
    proof {
        lemma_concat_no_dup(s0, s1);
        lemma_concat_no_dup(s0 + s1, s2);
        lemma_concat_no_dup(s0 + s1 + s2, s3);
        assert(keys@ == s0 + s1 + s2 + s3);
        assert forall|k: Address| keys@.contains(k) <==> uniq@.contains(k) by {
            if uniq@.contains(k) {
                assert(0 <= class_of(metas@, k) <= 3);
            }
        }
        assert(keys@.to_set() =~= uniq@.to_set());
        keys@.unique_seq_to_set();
        assert(s0.len() + s1.len() + s2.len() + s3.len() == keys@.len());
        lemma_flat_first(*vault, instructions@);
        let f = metas@[0];
        assert(f.pubkey == *vault && f.is_signer && f.is_writable);
        assert(signs(metas@, f.pubkey));
        assert(writes(metas@, f.pubkey));
        assert forall|i: int| 0 <= i < keys@.len() implies (i < n0 + n1 <==> signs(
            metas@,
            #[trigger] keys@[i],
        )) && (writes(metas@, keys@[i]) <==> (i < n0 || (n0 + n1 <= i && i < n0 + n1 + n2))) by {
            if i < n0 {
                assert(keys@[i] == s0[i]);
            } else if i < n0 + n1 {
                assert(keys@[i] == s1[i - n0]);
            } else if i < n0 + n1 + n2 {
                assert(keys@[i] == s2[i - n0 - n1]);
            } else {
                assert(keys@[i] == s3[i - n0 - n1 - n2]);
            }
        }
    }
    let mut compiled: Vec<CompiledInstruction> = Vec::new();
    let mut i: usize = 0;
    while i < instructions.len()
        invariant
            0 <= i <= instructions@.len(),
            compiled@.len() == i,
            keys@.to_set() == keys_of(flat_metas(*vault, instructions@)),
            keys@.len() <= MAX_ACCOUNTS,
            forall|t: int|
                0 <= t < i ==> instruction_compiled(keys@, instructions@[t], #[trigger] compiled@[t]),
        decreases instructions@.len() - i,
    {
        let ix = &instructions[i];
        proof {
            let im = instruction_metas(*ix);
            assert(pubkeys(im)[0] == ix.program_id);
            lemma_in_flat(*vault, instructions@, i as int, ix.program_id);
            assert(keys@.to_set().contains(ix.program_id));
        }
        let program_id_index = match find_index(&keys, &ix.program_id) {
            Some(p) => p,
            None => {
                return Err(CompileError::TooManyAccounts);
            },
        };
        let mut account_indexes: Vec<u8> = Vec::new();
        let mut j: usize = 0;
        while j < ix.accounts.len()
            invariant
                0 <= j <= ix.accounts@.len(),
                ix == instructions@[i as int],
                0 <= i < instructions@.len(),
                account_indexes@.len() == j,
                keys@.to_set() == keys_of(flat_metas(*vault, instructions@)),
                keys@.len() <= MAX_ACCOUNTS,
                forall|t: int|
                    0 <= t < j ==> #[trigger] account_indexes@[t] < keys@.len() && keys@[account_indexes@[t] as int]
                        == ix.accounts@[t].pubkey,
            decreases ix.accounts@.len() - j,
        {
            proof {
                let im = instruction_metas(*ix);
                assert(pubkeys(im)[j + 1] == ix.accounts@[j as int].pubkey);
                lemma_in_flat(*vault, instructions@, i as int, ix.accounts@[j as int].pubkey);
                assert(keys@.to_set().contains(ix.accounts@[j as int].pubkey));
            }
            let a = match find_index(&keys, &ix.accounts[j].pubkey) {
                Some(p) => p,
                None => {
                    return Err(CompileError::TooManyAccounts);
                },
            };
            account_indexes.push(a as u8);
            j = j + 1;
        }
        let data = ix.data.clone();
        compiled.push(CompiledInstruction { program_id_index: program_id_index as u8, account_indexes, data });
        i = i + 1;
    }
    Ok(
        VaultTransactionMessage {
            num_signers: (n0 + n1) as u8,
            num_writable_signers: n0 as u8,
            num_writable_non_signers: n2 as u8,
            account_keys: keys,
            instructions: compiled,
            address_table_lookups: Vec::new(),
        },
    )
}

/// Compiling is deterministic: any two messages that compile one vault and
/// one instruction list are the same message, so their encodings are
/// byte-identical.
pub proof fn lemma_compile_deterministic(
    vault: Address,
    ixs: Seq<Instruction>,
    m1: VaultTransactionMessage,
    m2: VaultTransactionMessage,
)
    requires
        compiled_from(vault, ixs, m1),
        compiled_from(vault, ixs, m2),
    ensures
        m1@ == m2@,
{
    let keys = m1.account_keys@;
    assert(keys == m2.account_keys@);
    assert forall|i: int| 0 <= i < ixs.len() implies m1.instructions@[i]@ == m2.instructions@[i]@ by {
        let c1 = m1.instructions@[i];
        let c2 = m2.instructions@[i];
        assert(instruction_compiled(keys, ixs[i], c1));
        assert(instruction_compiled(keys, ixs[i], c2));
        assert(c1.program_id_index == c2.program_id_index) by {
            if c1.program_id_index != c2.program_id_index {
                assert(keys[c1.program_id_index as int] == keys[c2.program_id_index as int]);
            }
        }
        assert forall|j: int| 0 <= j < c1.account_indexes@.len() implies c1.account_indexes@[j]
            == c2.account_indexes@[j] by {
            assert(c1.account_indexes@[j] < keys.len());
            assert(c2.account_indexes@[j] < keys.len());
            if c1.account_indexes@[j] != c2.account_indexes@[j] {
                assert(keys[c1.account_indexes@[j] as int] == keys[c2.account_indexes@[j] as int]);
            }
        }
        assert(c1.account_indexes@ =~= c2.account_indexes@);
    }
    assert(m1@.instructions =~= m2@.instructions);
    assert(m1@.address_table_lookups =~= m2@.address_table_lookups);
    assert(m1@.account_keys =~= m2@.account_keys);
}

/// Every list and byte vector of the instructions fits a 32-bit length.
pub open spec fn bundle_fits(ixs: Seq<Instruction>) -> bool {
    &&& u32_fits(ixs.len())
    &&& forall|i: int|
        0 <= i < ixs.len() ==> u32_fits((#[trigger] ixs[i]).accounts@.len()) && u32_fits(
            ixs[i].data@.len(),
        )
}

/// A compiled message of instructions whose lists fit 32-bit lengths fits
/// its own length prefixes, so `decode` gives back exactly the message that
/// `encode` wrote for it.
pub proof fn lemma_compiled_fits(vault: Address, ixs: Seq<Instruction>, m: VaultTransactionMessage)
    requires
        compiled_from(vault, ixs, m),
        bundle_fits(ixs),
    ensures
        fits(m@),
{
    assert forall|i: int| 0 <= i < m@.account_keys.len() implies key_ok()(
        #[trigger] m@.account_keys[i],
    ) by {
        assert(m@.account_keys[i] == m.account_keys@[i]@);
    }
    assert forall|i: int| 0 <= i < m@.instructions.len() implies instruction_ok()(
        #[trigger] m@.instructions[i],
    ) by {
        assert(m@.instructions[i] == m.instructions@[i]@);
        assert(instruction_compiled(m.account_keys@, ixs[i], m.instructions@[i]));
    }
    assert(all_ok(m@.address_table_lookups, crate::message::lookup_ok()));
}

} // verus!
