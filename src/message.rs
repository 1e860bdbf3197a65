use crate::address::{address_views, Address};
use vstd::prelude::*;

verus! {

/// One instruction of a vault transaction message, with its program and
/// accounts given as indexes into the message's account keys.
pub struct CompiledInstruction {
    pub program_id_index: u8,
    pub account_indexes: Vec<u8>,
    pub data: Vec<u8>,
}

/// A reference to an address-lookup table, with the positions taken from it
/// as writable and as read-only accounts.
pub struct AddressTableLookup {
    pub account_key: Address,
    pub writable_indexes: Vec<u8>,
    pub readonly_indexes: Vec<u8>,
}

/// The instruction bundle that a vault executes once its proposal passes.
pub struct VaultTransactionMessage {
    pub num_signers: u8,
    pub num_writable_signers: u8,
    pub num_writable_non_signers: u8,
    pub account_keys: Vec<Address>,
    pub instructions: Vec<CompiledInstruction>,
    pub address_table_lookups: Vec<AddressTableLookup>,
}

pub ghost struct InstructionView {
    pub program_id_index: u8,
    pub account_indexes: Seq<u8>,
    pub data: Seq<u8>,
}

pub ghost struct LookupView {
    pub account_key: Seq<u8>,
    pub writable_indexes: Seq<u8>,
    pub readonly_indexes: Seq<u8>,
}

pub ghost struct MessageView {
    pub num_signers: u8,
    pub num_writable_signers: u8,
    pub num_writable_non_signers: u8,
    pub account_keys: Seq<Seq<u8>>,
    pub instructions: Seq<InstructionView>,
    pub address_table_lookups: Seq<LookupView>,
}

pub open spec fn instruction_views(s: Seq<CompiledInstruction>) -> Seq<InstructionView> {
    s.map_values(|i: CompiledInstruction| i@)
}

pub open spec fn lookup_views(s: Seq<AddressTableLookup>) -> Seq<LookupView> {
    s.map_values(|l: AddressTableLookup| l@)
}

impl View for CompiledInstruction {
    type V = InstructionView;

    open spec fn view(&self) -> InstructionView {
        InstructionView {
            program_id_index: self.program_id_index,
            account_indexes: self.account_indexes@,
            data: self.data@,
        }
    }
}

impl View for AddressTableLookup {
    type V = LookupView;

    open spec fn view(&self) -> LookupView {
        LookupView {
            account_key: self.account_key@,
            writable_indexes: self.writable_indexes@,
            readonly_indexes: self.readonly_indexes@,
        }
    }
}

impl View for VaultTransactionMessage {
    type V = MessageView;

    open spec fn view(&self) -> MessageView {
        MessageView {
            num_signers: self.num_signers,
            num_writable_signers: self.num_writable_signers,
            num_writable_non_signers: self.num_writable_non_signers,
            account_keys: address_views(self.account_keys@),
            instructions: instruction_views(self.instructions@),
            address_table_lookups: lookup_views(self.address_table_lookups@),
        }
    }
}

/// Little-endian bytes of a 32-bit length.
pub open spec fn le_u32(n: nat) -> Seq<u8> {
    seq![
        (n % 256) as u8,
        ((n / 256) % 256) as u8,
        ((n / 65536) % 256) as u8,
        ((n / 16777216) % 256) as u8,
    ]
}

/// A byte vector: its length, then its bytes.
pub open spec fn enc_bytes(b: Seq<u8>) -> Seq<u8> {
    le_u32(b.len()) + b
}

pub open spec fn enc_instruction(i: InstructionView) -> Seq<u8> {
    seq![i.program_id_index] + enc_bytes(i.account_indexes) + enc_bytes(i.data)
}

pub open spec fn enc_lookup(l: LookupView) -> Seq<u8> {
    l.account_key + enc_bytes(l.writable_indexes) + enc_bytes(l.readonly_indexes)
}

/// The encodings of the items of `s`, one after the other.
pub open spec fn concat_enc<T>(s: Seq<T>, f: spec_fn(T) -> Seq<u8>) -> Seq<u8>
    decreases s.len(),
{
    if s.len() == 0 {
        Seq::empty()
    } else {
        concat_enc(s.drop_last(), f) + f(s.last())
    }
}

/// Whether every item of `s` satisfies `ok`.
pub open spec fn all_ok<T>(s: Seq<T>, ok: spec_fn(T) -> bool) -> bool {
    forall|i: int| 0 <= i < s.len() ==> ok(#[trigger] s[i])
}

pub open spec fn key_enc() -> spec_fn(Seq<u8>) -> Seq<u8> {
    |k: Seq<u8>| k
}

pub open spec fn key_ok() -> spec_fn(Seq<u8>) -> bool {
    |k: Seq<u8>| k.len() == 32
}

pub open spec fn instruction_enc() -> spec_fn(InstructionView) -> Seq<u8> {
    |i: InstructionView| enc_instruction(i)
}

pub open spec fn instruction_ok() -> spec_fn(InstructionView) -> bool {
    |i: InstructionView| u32_fits(i.account_indexes.len()) && u32_fits(i.data.len())
}

pub open spec fn lookup_enc() -> spec_fn(LookupView) -> Seq<u8> {
    |l: LookupView| enc_lookup(l)
}

pub open spec fn lookup_ok() -> spec_fn(LookupView) -> bool {
    |l: LookupView|
        l.account_key.len() == 32 && u32_fits(l.writable_indexes.len()) && u32_fits(
            l.readonly_indexes.len(),
        )
}

pub open spec fn concat_keys(s: Seq<Seq<u8>>) -> Seq<u8> {
    concat_enc(s, key_enc())
}

pub open spec fn concat_instructions(s: Seq<InstructionView>) -> Seq<u8> {
    concat_enc(s, instruction_enc())
}

pub open spec fn concat_lookups(s: Seq<LookupView>) -> Seq<u8> {
    concat_enc(s, lookup_enc())
}

pub open spec fn enc_key_list(s: Seq<Seq<u8>>) -> Seq<u8> {
    le_u32(s.len()) + concat_keys(s)
}

pub open spec fn enc_instruction_list(s: Seq<InstructionView>) -> Seq<u8> {
    le_u32(s.len()) + concat_instructions(s)
}

pub open spec fn enc_lookup_list(s: Seq<LookupView>) -> Seq<u8> {
    le_u32(s.len()) + concat_lookups(s)
}

pub open spec fn header(m: MessageView) -> Seq<u8> {
    seq![m.num_signers, m.num_writable_signers, m.num_writable_non_signers]
}

/// The byte encoding of a message: the three signer counts, then the account
/// keys, the instructions and the table lookups, each list preceded by its
/// length as a little-endian 32-bit integer and each byte vector likewise.
pub open spec fn encode_spec(m: MessageView) -> Seq<u8> {
    header(m) + enc_key_list(m.account_keys) + enc_instruction_list(m.instructions)
        + enc_lookup_list(m.address_table_lookups)
}

pub open spec fn u32_fits(n: nat) -> bool {
    n <= u32::MAX
}

/// Every list and byte vector of the message has a length that its 32-bit
/// prefix can hold, and every key is 32 bytes long.
pub open spec fn fits(m: MessageView) -> bool {
    &&& u32_fits(m.account_keys.len())
    &&& u32_fits(m.instructions.len())
    &&& u32_fits(m.address_table_lookups.len())
    &&& all_ok(m.account_keys, key_ok())
    &&& all_ok(m.instructions, instruction_ok())
    &&& all_ok(m.address_table_lookups, lookup_ok())
}

fn push_u32(out: &mut Vec<u8>, n: u32)
    ensures
        final(out)@ == old(out)@ + le_u32(n as nat),
{
    out.push((n % 256) as u8);
    out.push(((n / 256) % 256) as u8);
    out.push(((n / 65536) % 256) as u8);
    out.push(((n / 16777216) % 256) as u8);
    assert(final(out)@ =~= old(out)@ + le_u32(n as nat));
}

fn push_slice(out: &mut Vec<u8>, b: &[u8])
    ensures
        final(out)@ == old(out)@ + b@,
{
    let mut i: usize = 0;
    while i < b.len()
        invariant
            0 <= i <= b@.len(),
            out@ == old(out)@ + b@.subrange(0, i as int),
        decreases b@.len() - i,
    {
        out.push(b[i]);
        i = i + 1;
        assert(out@ =~= old(out)@ + b@.subrange(0, i as int));
    }
    assert(b@.subrange(0, b@.len() as int) =~= b@);
}

fn push_bytes(out: &mut Vec<u8>, b: &Vec<u8>)
    requires
        u32_fits(b@.len()),
    ensures
        final(out)@ == old(out)@ + enc_bytes(b@),
{
    push_u32(out, b.len() as u32);
    push_slice(out, b.as_slice());
    assert(final(out)@ =~= old(out)@ + enc_bytes(b@));
}

/// Encodes a message into bytes.
pub fn encode(m: &VaultTransactionMessage) -> (r: Vec<u8>)
    requires
        fits(m@),
    ensures
        r@ == encode_spec(m@),
{
    let mut out: Vec<u8> = Vec::new();
    out.push(m.num_signers);
    out.push(m.num_writable_signers);
    out.push(m.num_writable_non_signers);
    let ghost head = out@;
    assert(head =~= seq![m.num_signers, m.num_writable_signers, m.num_writable_non_signers]);

    push_u32(&mut out, m.account_keys.len() as u32);
    let ghost start = out@;
    let mut i: usize = 0;
    while i < m.account_keys.len()
        invariant
            0 <= i <= m.account_keys@.len(),
            out@ == start + concat_keys(m@.account_keys.take(i as int)),
        decreases m.account_keys@.len() - i,
    {
        push_slice(&mut out, m.account_keys[i].as_slice());
        proof {
            let s = m@.account_keys;
            assert(s.take(i + 1).drop_last() =~= s.take(i as int));
        }
        i = i + 1;
    }
    assert(m@.account_keys.take(i as int) =~= m@.account_keys);

    push_u32(&mut out, m.instructions.len() as u32);
    let ghost start = out@;
    let mut i: usize = 0;
    while i < m.instructions.len()
        invariant
            0 <= i <= m.instructions@.len(),
            fits(m@),
            out@ == start + concat_instructions(m@.instructions.take(i as int)),
        decreases m.instructions@.len() - i,
    {
        let ix = &m.instructions[i];
        assert(m@.instructions[i as int] == ix@);
        let ghost before = out@;
        out.push(ix.program_id_index);
        push_bytes(&mut out, &ix.account_indexes);
        push_bytes(&mut out, &ix.data);
        proof {
            let s = m@.instructions;
            assert(s.take(i + 1).drop_last() =~= s.take(i as int));
            assert(out@ =~= before + enc_instruction(ix@));
        }
        i = i + 1;
    }
    assert(m@.instructions.take(i as int) =~= m@.instructions);

    push_u32(&mut out, m.address_table_lookups.len() as u32);
    let ghost start = out@;
    let mut i: usize = 0;
    while i < m.address_table_lookups.len()
        invariant
            0 <= i <= m.address_table_lookups@.len(),
            fits(m@),
            out@ == start + concat_lookups(m@.address_table_lookups.take(i as int)),
        decreases m.address_table_lookups@.len() - i,
    {
        let l = &m.address_table_lookups[i];
        assert(m@.address_table_lookups[i as int] == l@);
        let ghost before = out@;
        push_slice(&mut out, l.account_key.as_slice());
        push_bytes(&mut out, &l.writable_indexes);
        push_bytes(&mut out, &l.readonly_indexes);
        proof {
            let s = m@.address_table_lookups;
            assert(s.take(i + 1).drop_last() =~= s.take(i as int));
            assert(out@ =~= before + enc_lookup(l@));
        }
        i = i + 1;
    }
    assert(m@.address_table_lookups.take(i as int) =~= m@.address_table_lookups);
    assert(out@ =~= encode_spec(m@));
    out
}

/// Whether `e` occurs in `b` starting at position `pos`.
pub open spec fn prefix_at(b: Seq<u8>, pos: int, e: Seq<u8>) -> bool {
    0 <= pos && pos + e.len() <= b.len() && b.subrange(pos, pos + e.len()) == e
}

/// Whether items that satisfy `ok` are told apart by the first bytes of what
/// follows: two of them whose encodings both start at one position are equal.
pub open spec fn enc_unique<T>(f: spec_fn(T) -> Seq<u8>, ok: spec_fn(T) -> bool) -> bool {
    forall|b: Seq<u8>, pos: int, x: T, y: T|
        ok(x) && ok(y) && #[trigger] prefix_at(b, pos, f(x)) && #[trigger] prefix_at(b, pos, f(y))
            ==> x == y
}

proof fn lemma_prefix_split(b: Seq<u8>, pos: int, x: Seq<u8>, y: Seq<u8>)
    ensures
        prefix_at(b, pos, x + y) <==> (prefix_at(b, pos, x) && prefix_at(b, pos + x.len(), y)),
{
    if prefix_at(b, pos, x + y) {
        let w = b.subrange(pos, pos + (x + y).len());
        assert forall|i: int| 0 <= i < x.len() implies b.subrange(pos, pos + x.len())[i]
            == x[i] by {
            assert(w[i] == (x + y)[i]);
        }
        assert(b.subrange(pos, pos + x.len()) =~= x);
        assert forall|i: int| 0 <= i < y.len() implies b.subrange(
            pos + x.len(),
            pos + x.len() + y.len(),
        )[i] == y[i] by {
            assert(w[i + x.len()] == (x + y)[i + x.len()]);
        }
        assert(b.subrange(pos + x.len(), pos + x.len() + y.len()) =~= y);
    }
    if prefix_at(b, pos, x) && prefix_at(b, pos + x.len(), y) {
        assert forall|i: int| 0 <= i < (x + y).len() implies b.subrange(pos, pos + (x + y).len())[i]
            == (x + y)[i] by {
            if i < x.len() {
                assert(b.subrange(pos, pos + x.len())[i] == x[i]);
            } else {
                assert(b.subrange(pos + x.len(), pos + x.len() + y.len())[i - x.len()] == y[i
                    - x.len()]);
            }
        }
        assert(b.subrange(pos, pos + (x + y).len()) =~= x + y);
    }
}

proof fn lemma_concat_append<T>(a: Seq<T>, c: Seq<T>, f: spec_fn(T) -> Seq<u8>)
    ensures
        concat_enc(a + c, f) == concat_enc(a, f) + concat_enc(c, f),
    decreases c.len(),
{
    if c.len() == 0 {
        assert(a + c =~= a);
        assert(concat_enc(a, f) + concat_enc(c, f) =~= concat_enc(a, f));
    } else {
        lemma_concat_append(a, c.drop_last(), f);
        assert((a + c).drop_last() =~= a + c.drop_last());
        assert((a + c).last() == c.last());
        assert(concat_enc(a + c, f) =~= concat_enc(a, f) + concat_enc(c, f));
    }
}

proof fn lemma_concat_front<T>(s: Seq<T>, f: spec_fn(T) -> Seq<u8>)
    requires
        s.len() > 0,
    ensures
        concat_enc(s, f) == f(s[0]) + concat_enc(s.drop_first(), f),
{
    lemma_concat_append(seq![s[0]], s.drop_first(), f);
    assert(seq![s[0]] + s.drop_first() =~= s);
    assert(seq![s[0]].drop_last() =~= Seq::<T>::empty());
    assert(concat_enc(Seq::<T>::empty(), f) =~= Seq::<u8>::empty());
    assert(concat_enc(seq![s[0]], f) =~= f(s[0]));
}

/// Two lists of equal length whose encodings start at one position are equal.
proof fn lemma_list_unique<T>(
    f: spec_fn(T) -> Seq<u8>,
    ok: spec_fn(T) -> bool,
    b: Seq<u8>,
    pos: int,
    s1: Seq<T>,
    s2: Seq<T>,
)
    requires
        enc_unique(f, ok),
        all_ok(s1, ok),
        all_ok(s2, ok),
        s1.len() == s2.len(),
        prefix_at(b, pos, concat_enc(s1, f)),
        prefix_at(b, pos, concat_enc(s2, f)),
    ensures
        s1 == s2,
    decreases s1.len(),
{
    if s1.len() == 0 {
        assert(s1 =~= s2);
    } else {
        lemma_concat_front(s1, f);
        lemma_concat_front(s2, f);
        lemma_prefix_split(b, pos, f(s1[0]), concat_enc(s1.drop_first(), f));
        lemma_prefix_split(b, pos, f(s2[0]), concat_enc(s2.drop_first(), f));
        assert(ok(s1[0]) && ok(s2[0]));
        assert(s1[0] == s2[0]);
        assert forall|i: int| 0 <= i < s1.drop_first().len() implies ok(
            #[trigger] s1.drop_first()[i],
        ) by {
            assert(s1.drop_first()[i] == s1[i + 1]);
        }
        assert forall|i: int| 0 <= i < s2.drop_first().len() implies ok(
            #[trigger] s2.drop_first()[i],
        ) by {
            assert(s2.drop_first()[i] == s2[i + 1]);
        }
        lemma_list_unique(
            f,
            ok,
            b,
            pos + f(s1[0]).len(),
            s1.drop_first(),
            s2.drop_first(),
        );
        assert forall|i: int| 0 <= i < s1.len() implies s1[i] == s2[i] by {
            if i > 0 {
                assert(s1[i] == s1.drop_first()[i - 1]);
                assert(s2[i] == s2.drop_first()[i - 1]);
            }
        }
        assert(s1 =~= s2);
    }
}

/// When the encoding of `s` starts at `start` and that of `done`, as long as
/// the first `k` items of `s`, does too, the encoding of item `k` follows it.
proof fn lemma_list_step<T>(
    f: spec_fn(T) -> Seq<u8>,
    ok: spec_fn(T) -> bool,
    b: Seq<u8>,
    start: int,
    done: Seq<T>,
    s: Seq<T>,
)
    requires
        enc_unique(f, ok),
        all_ok(done, ok),
        all_ok(s, ok),
        done.len() < s.len(),
        prefix_at(b, start, concat_enc(s, f)),
        prefix_at(b, start, concat_enc(done, f)),
    ensures
        ok(s[done.len() as int]),
        prefix_at(b, start + concat_enc(done, f).len(), f(s[done.len() as int])),
{
    let k = done.len() as int;
    let head = s.take(k);
    let tail = s.skip(k);
    assert(head + tail =~= s);
    lemma_concat_append(head, tail, f);
    lemma_prefix_split(b, start, concat_enc(head, f), concat_enc(tail, f));
    assert forall|i: int| 0 <= i < head.len() implies ok(#[trigger] head[i]) by {
        assert(head[i] == s[i]);
    }
    lemma_list_unique(f, ok, b, start, done, head);
    lemma_concat_front(tail, f);
    lemma_prefix_split(
        b,
        start + concat_enc(head, f).len(),
        f(tail[0]),
        concat_enc(tail.drop_first(), f),
    );
    assert(tail[0] == s[k]);
}

proof fn lemma_u32_digits(n: u32, b0: u32, b1: u32, b2: u32, b3: u32)
    requires
        b0 < 256,
        b1 < 256,
        b2 < 256,
        b3 < 256,
        n == b0 + b1 * 256 + b2 * 65536 + b3 * 16777216,
    ensures
        n % 256 == b0,
        (n / 256) % 256 == b1,
        (n / 65536) % 256 == b2,
        (n / 16777216) % 256 == b3,
{
    assert(n % 256 == b0 && (n / 256) % 256 == b1 && (n / 65536) % 256 == b2 && (n / 16777216)
        % 256 == b3) by (bit_vector)
        requires
            b0 < 256,
            b1 < 256,
            b2 < 256,
            b3 < 256,
            n == b0 + b1 * 256 + b2 * 65536 + b3 * 16777216,
    ;
}

proof fn lemma_le_u32_injective(a: nat, c: nat)
    requires
        u32_fits(a),
        u32_fits(c),
        le_u32(a) == le_u32(c),
    ensures
        a == c,
{
    let x = a as u32;
    let y = c as u32;
    assert(le_u32(a)[0] == le_u32(c)[0]);
    assert(le_u32(a)[1] == le_u32(c)[1]);
    assert(le_u32(a)[2] == le_u32(c)[2]);
    assert(le_u32(a)[3] == le_u32(c)[3]);
    assert(x % 256 == y % 256);
    assert((x / 256) % 256 == (y / 256) % 256);
    assert((x / 65536) % 256 == (y / 65536) % 256);
    assert((x / 16777216) % 256 == (y / 16777216) % 256);
    assert(x == y) by (bit_vector)
        requires
            x % 256 == y % 256,
            (x / 256) % 256 == (y / 256) % 256,
            (x / 65536) % 256 == (y / 65536) % 256,
            (x / 16777216) % 256 == (y / 16777216) % 256,
    ;
}

proof fn lemma_bytes_unique(b: Seq<u8>, pos: int, x: Seq<u8>, y: Seq<u8>)
    requires
        u32_fits(x.len()),
        u32_fits(y.len()),
        prefix_at(b, pos, enc_bytes(x)),
        prefix_at(b, pos, enc_bytes(y)),
    ensures
        x == y,
{
    lemma_prefix_split(b, pos, le_u32(x.len()), x);
    lemma_prefix_split(b, pos, le_u32(y.len()), y);
    lemma_le_u32_injective(x.len(), y.len());
}

fn read_u32(b: &[u8], pos: usize) -> (r: Option<(u32, usize)>)
    ensures
        r matches Some((n, p)) ==> p == pos + 4 && prefix_at(b@, pos as int, le_u32(n as nat)),
        r is None ==> pos + 4 > b@.len(),
{
    if pos > b.len() || b.len() - pos < 4 {
        return None;
    }
    let b0 = b[pos] as u32;
    let b1 = b[pos + 1] as u32;
    let b2 = b[pos + 2] as u32;
    let b3 = b[pos + 3] as u32;
    let n: u32 = b0 + b1 * 256 + b2 * 65536 + b3 * 16777216;
    proof {
        lemma_u32_digits(n, b0, b1, b2, b3);
        assert(b@.subrange(pos as int, pos + 4) =~= le_u32(n as nat));
    }
    Some((n, pos + 4))
}

fn read_bytes(b: &[u8], pos: usize) -> (r: Option<(Vec<u8>, usize)>)
    ensures
        r matches Some((v, p)) ==> u32_fits(v@.len()) && p == pos + enc_bytes(v@).len()
            && prefix_at(b@, pos as int, enc_bytes(v@)),
        r is None ==> forall|v: Seq<u8>|
            u32_fits(v.len()) ==> !(#[trigger] prefix_at(b@, pos as int, enc_bytes(v))),
{
    match read_u32(b, pos) {
        None => None,
        Some((n, p)) => {
            if n as usize > b.len() - p {
                proof {
                    assert forall|v: Seq<u8>| u32_fits(v.len()) implies !(#[trigger] prefix_at(
                        b@,
                        pos as int,
                        enc_bytes(v),
                    )) by {
                        if prefix_at(b@, pos as int, enc_bytes(v)) {
                            lemma_prefix_split(b@, pos as int, le_u32(v.len()), v);
                            lemma_le_u32_injective(v.len(), n as nat);
                        }
                    }
                }
                return None;
            }
            let mut v: Vec<u8> = Vec::new();
            let mut i: usize = 0;
            while i < n as usize
                invariant
                    0 <= i <= n,
                    p + n <= b@.len(),
                    b@.len() <= usize::MAX,
                    v@ == b@.subrange(p as int, p + i),
                decreases n - i,
            {
                v.push(b[p + i]);
                i = i + 1;
                assert(v@ =~= b@.subrange(p as int, p + i));
            }
            proof {
                lemma_prefix_split(b@, pos as int, le_u32(n as nat), v@);
            }
            Some((v, p + i))
        },
    }
}

fn read_key(b: &[u8], pos: usize) -> (r: Option<(Address, usize)>)
    ensures
        r matches Some((k, p)) ==> p == pos + 32 && prefix_at(b@, pos as int, k@),
        r is None ==> pos + 32 > b@.len(),
{
    if pos > b.len() || b.len() - pos < 32 {
        return None;
    }
    let mut k: Address = [0u8; 32];
    let mut i: usize = 0;
    while i < 32
        invariant
            0 <= i <= 32,
            pos + 32 <= b@.len(),
            b@.len() <= usize::MAX,
            forall|j: int| 0 <= j < i ==> k@[j] == b@[pos + j],
        decreases 32 - i,
    {
        k[i] = b[pos + i];
        i = i + 1;
    }
    assert(b@.subrange(pos as int, pos + 32) =~= k@);
    Some((k, pos + 32))
}

proof fn lemma_byte_at(b: Seq<u8>, pos: int, x: u8)
    requires
        prefix_at(b, pos, seq![x]),
    ensures
        b[pos] == x,
{
    assert(b.subrange(pos, pos + 1)[0] == x);
}

proof fn lemma_key_enc_unique()
    ensures
        enc_unique(key_enc(), key_ok()),
{
    assert forall|b: Seq<u8>, pos: int, x: Seq<u8>, y: Seq<u8>|
        key_ok()(x) && key_ok()(y) && #[trigger] prefix_at(b, pos, key_enc()(x))
            && #[trigger] prefix_at(b, pos, key_enc()(y)) implies x == y by {}
}

proof fn lemma_instruction_enc_unique()
    ensures
        enc_unique(instruction_enc(), instruction_ok()),
{
    assert forall|b: Seq<u8>, pos: int, x: InstructionView, y: InstructionView|
        instruction_ok()(x) && instruction_ok()(y) && #[trigger] prefix_at(
            b,
            pos,
            instruction_enc()(x),
        ) && #[trigger] prefix_at(b, pos, instruction_enc()(y)) implies x == y by {
        lemma_prefix_split(
            b,
            pos,
            seq![x.program_id_index] + enc_bytes(x.account_indexes),
            enc_bytes(x.data),
        );
        lemma_prefix_split(b, pos, seq![x.program_id_index], enc_bytes(x.account_indexes));
        lemma_prefix_split(
            b,
            pos,
            seq![y.program_id_index] + enc_bytes(y.account_indexes),
            enc_bytes(y.data),
        );
        lemma_prefix_split(b, pos, seq![y.program_id_index], enc_bytes(y.account_indexes));
        lemma_byte_at(b, pos, x.program_id_index);
        lemma_byte_at(b, pos, y.program_id_index);
        lemma_bytes_unique(b, pos + 1, x.account_indexes, y.account_indexes);
        lemma_bytes_unique(
            b,
            pos + 1 + enc_bytes(x.account_indexes).len(),
            x.data,
            y.data,
        );
    }
}

proof fn lemma_lookup_enc_unique()
    ensures
        enc_unique(lookup_enc(), lookup_ok()),
{
    assert forall|b: Seq<u8>, pos: int, x: LookupView, y: LookupView|
        lookup_ok()(x) && lookup_ok()(y) && #[trigger] prefix_at(b, pos, lookup_enc()(x))
            && #[trigger] prefix_at(b, pos, lookup_enc()(y)) implies x == y by {
        lemma_prefix_split(
            b,
            pos,
            x.account_key + enc_bytes(x.writable_indexes),
            enc_bytes(x.readonly_indexes),
        );
        lemma_prefix_split(b, pos, x.account_key, enc_bytes(x.writable_indexes));
        lemma_prefix_split(
            b,
            pos,
            y.account_key + enc_bytes(y.writable_indexes),
            enc_bytes(y.readonly_indexes),
        );
        lemma_prefix_split(b, pos, y.account_key, enc_bytes(y.writable_indexes));
        lemma_bytes_unique(b, pos + 32, x.writable_indexes, y.writable_indexes);
        lemma_bytes_unique(
            b,
            pos + 32 + enc_bytes(x.writable_indexes).len(),
            x.readonly_indexes,
            y.readonly_indexes,
        );
    }
}

/// Two counted lists whose encodings start at one position are equal.
proof fn lemma_counted_list_unique<T>(
    f: spec_fn(T) -> Seq<u8>,
    ok: spec_fn(T) -> bool,
    b: Seq<u8>,
    pos: int,
    s1: Seq<T>,
    s2: Seq<T>,
)
    requires
        enc_unique(f, ok),
        all_ok(s1, ok),
        all_ok(s2, ok),
        u32_fits(s1.len()),
        u32_fits(s2.len()),
        prefix_at(b, pos, le_u32(s1.len()) + concat_enc(s1, f)),
        prefix_at(b, pos, le_u32(s2.len()) + concat_enc(s2, f)),
    ensures
        s1 == s2,
{
    lemma_prefix_split(b, pos, le_u32(s1.len()), concat_enc(s1, f));
    lemma_prefix_split(b, pos, le_u32(s2.len()), concat_enc(s2, f));
    lemma_le_u32_injective(s1.len(), s2.len());
    lemma_list_unique(f, ok, b, pos + 4, s1, s2);
}

fn read_instruction(b: &[u8], pos: usize) -> (r: Option<(CompiledInstruction, usize)>)
    ensures
        r matches Some((ix, p)) ==> instruction_ok()(ix@) && p == pos + enc_instruction(ix@).len()
            && prefix_at(b@, pos as int, enc_instruction(ix@)),
        r is None ==> forall|iv: InstructionView|
            instruction_ok()(iv) ==> !(#[trigger] prefix_at(b@, pos as int, enc_instruction(iv))),
{
    if pos >= b.len() {
        return None;
    }
    let program_id_index = b[pos];
    assert(b@.subrange(pos as int, pos + 1) =~= seq![program_id_index]);
    let (account_indexes, first_end) = match read_bytes(b, pos + 1) {
        Some(x) => x,
        None => {
            proof {
                assert forall|iv: InstructionView| instruction_ok()(iv) implies !(
                #[trigger] prefix_at(b@, pos as int, enc_instruction(iv))) by {
                    if prefix_at(b@, pos as int, enc_instruction(iv)) {
                        lemma_prefix_split(
                            b@,
                            pos as int,
                            seq![iv.program_id_index] + enc_bytes(iv.account_indexes),
                            enc_bytes(iv.data),
                        );
                        lemma_prefix_split(
                            b@,
                            pos as int,
                            seq![iv.program_id_index],
                            enc_bytes(iv.account_indexes),
                        );
                    }
                }
            }
            return None;
        },
    };
    let (data, second_end) = match read_bytes(b, first_end) {
        Some(x) => x,
        None => {
            proof {
                assert forall|iv: InstructionView| instruction_ok()(iv) implies !(
                #[trigger] prefix_at(b@, pos as int, enc_instruction(iv))) by {
                    if prefix_at(b@, pos as int, enc_instruction(iv)) {
                        lemma_prefix_split(
                            b@,
                            pos as int,
                            seq![iv.program_id_index] + enc_bytes(iv.account_indexes),
                            enc_bytes(iv.data),
                        );
                        lemma_prefix_split(
                            b@,
                            pos as int,
                            seq![iv.program_id_index],
                            enc_bytes(iv.account_indexes),
                        );
                        lemma_bytes_unique(b@, pos + 1, iv.account_indexes, account_indexes@);
                    }
                }
            }
            return None;
        },
    };
    let ix = CompiledInstruction { program_id_index, account_indexes, data };
    proof {
        lemma_prefix_split(b@, pos as int, seq![program_id_index], enc_bytes(ix.account_indexes@));
        lemma_prefix_split(
            b@,
            pos as int,
            seq![program_id_index] + enc_bytes(ix.account_indexes@),
            enc_bytes(ix.data@),
        );
    }
    Some((ix, second_end))
}

fn read_lookup(b: &[u8], pos: usize) -> (r: Option<(AddressTableLookup, usize)>)
    ensures
        r matches Some((l, p)) ==> lookup_ok()(l@) && p == pos + enc_lookup(l@).len() && prefix_at(
            b@,
            pos as int,
            enc_lookup(l@),
        ),
        r is None ==> forall|lv: LookupView|
            lookup_ok()(lv) ==> !(#[trigger] prefix_at(b@, pos as int, enc_lookup(lv))),
{
    let (account_key, key_end) = match read_key(b, pos) {
        Some(x) => x,
        None => {
            proof {
                assert forall|lv: LookupView| lookup_ok()(lv) implies !(#[trigger] prefix_at(
                    b@,
                    pos as int,
                    enc_lookup(lv),
                )) by {
                    if prefix_at(b@, pos as int, enc_lookup(lv)) {
                        lemma_prefix_split(
                            b@,
                            pos as int,
                            lv.account_key + enc_bytes(lv.writable_indexes),
                            enc_bytes(lv.readonly_indexes),
                        );
                        lemma_prefix_split(
                            b@,
                            pos as int,
                            lv.account_key,
                            enc_bytes(lv.writable_indexes),
                        );
                    }
                }
            }
            return None;
        },
    };
    let (writable_indexes, first_end) = match read_bytes(b, key_end) {
        Some(x) => x,
        None => {
            proof {
                assert forall|lv: LookupView| lookup_ok()(lv) implies !(#[trigger] prefix_at(
                    b@,
                    pos as int,
                    enc_lookup(lv),
                )) by {
                    if prefix_at(b@, pos as int, enc_lookup(lv)) {
                        lemma_prefix_split(
                            b@,
                            pos as int,
                            lv.account_key + enc_bytes(lv.writable_indexes),
                            enc_bytes(lv.readonly_indexes),
                        );
                        lemma_prefix_split(
                            b@,
                            pos as int,
                            lv.account_key,
                            enc_bytes(lv.writable_indexes),
                        );
                    }
                }
            }
            return None;
        },
    };
    let (readonly_indexes, second_end) = match read_bytes(b, first_end) {
        Some(x) => x,
        None => {
            proof {
                assert forall|lv: LookupView| lookup_ok()(lv) implies !(#[trigger] prefix_at(
                    b@,
                    pos as int,
                    enc_lookup(lv),
                )) by {
                    if prefix_at(b@, pos as int, enc_lookup(lv)) {
                        lemma_prefix_split(
                            b@,
                            pos as int,
                            lv.account_key + enc_bytes(lv.writable_indexes),
                            enc_bytes(lv.readonly_indexes),
                        );
                        lemma_prefix_split(
                            b@,
                            pos as int,
                            lv.account_key,
                            enc_bytes(lv.writable_indexes),
                        );
                        lemma_bytes_unique(b@, pos + 32, lv.writable_indexes, writable_indexes@);
                    }
                }
            }
            return None;
        },
    };
    let l = AddressTableLookup { account_key, writable_indexes, readonly_indexes };
    proof {
        lemma_prefix_split(b@, pos as int, account_key@, enc_bytes(l.writable_indexes@));
        lemma_prefix_split(
            b@,
            pos as int,
            account_key@ + enc_bytes(l.writable_indexes@),
            enc_bytes(l.readonly_indexes@),
        );
    }
    Some((l, second_end))
}

fn read_instructions(b: &[u8], pos: usize) -> (r: Option<(Vec<CompiledInstruction>, usize)>)
    ensures
        r matches Some((v, p)) ==> u32_fits(v@.len()) && all_ok(instruction_views(v@), instruction_ok()) && p == pos
            + enc_instruction_list(instruction_views(v@)).len() && prefix_at(b@, pos as int, enc_instruction_list(instruction_views(v@))),
        r is None ==> forall|s: Seq<InstructionView>|
            u32_fits(s.len()) && all_ok(s, instruction_ok()) ==> !(#[trigger] prefix_at(
                b@,
                pos as int,
                enc_instruction_list(s),
            )),
{
    let (n, start) = match read_u32(b, pos) {
        Some(x) => x,
        None => {
            proof {
                assert forall|s: Seq<InstructionView>| u32_fits(s.len()) && all_ok(s, instruction_ok()) implies !(
                #[trigger] prefix_at(b@, pos as int, enc_instruction_list(s))) by {
                    lemma_prefix_split(b@, pos as int, le_u32(s.len()), concat_instructions(s));
                }
            }
            return None;
        },
    };
    proof {
        lemma_instruction_enc_unique();
    }
    let mut v: Vec<CompiledInstruction> = Vec::new();
    let mut cur: usize = start;
    let mut k: u32 = 0;
    proof {
        assert(instruction_views(v@) =~= Seq::<InstructionView>::empty());
        assert(b@.subrange(start as int, start as int) =~= Seq::<u8>::empty());
    }
    while k < n
        invariant
            0 <= k <= n,
            v@.len() == k,
            start == pos + 4,
            prefix_at(b@, pos as int, le_u32(n as nat)),
            enc_unique(instruction_enc(), instruction_ok()),
            all_ok(instruction_views(v@), instruction_ok()),
            prefix_at(b@, start as int, concat_instructions(instruction_views(v@))),
            cur == start + concat_instructions(instruction_views(v@)).len(),
        decreases n - k,
    {
        match read_instruction(b, cur) {
            None => {
                proof {
                    assert forall|s: Seq<InstructionView>| u32_fits(s.len()) && all_ok(s, instruction_ok()) implies !(
                    #[trigger] prefix_at(b@, pos as int, enc_instruction_list(s))) by {
                        if prefix_at(b@, pos as int, enc_instruction_list(s)) {
                            lemma_prefix_split(b@, pos as int, le_u32(s.len()), concat_instructions(s));
                            lemma_le_u32_injective(s.len(), n as nat);
                            lemma_list_step(instruction_enc(), instruction_ok(), b@, start as int, instruction_views(v@), s);
                        }
                    }
                }
                return None;
            },
            Some((item, p)) => {
                let ghost old_views = instruction_views(v@);
                v.push(item);
                proof {
                    assert(instruction_views(v@) =~= old_views.push(item@));
                    assert(instruction_views(v@).drop_last() =~= old_views);
                    lemma_prefix_split(b@, start as int, concat_instructions(old_views), enc_instruction(item@));
                    assert forall|i: int| 0 <= i < instruction_views(v@).len() implies instruction_ok()(
                        #[trigger] instruction_views(v@)[i],
                    ) by {
                        if i < old_views.len() {
                            assert(instruction_views(v@)[i] == old_views[i]);
                        }
                    }
                }
                cur = p;
                k = k + 1;
            },
        }
    }
    proof {
        lemma_prefix_split(b@, pos as int, le_u32(n as nat), concat_instructions(instruction_views(v@)));
    }
    Some((v, cur))
}

fn read_lookups(b: &[u8], pos: usize) -> (r: Option<(Vec<AddressTableLookup>, usize)>)
    ensures
        r matches Some((v, p)) ==> u32_fits(v@.len()) && all_ok(lookup_views(v@), lookup_ok()) && p == pos
            + enc_lookup_list(lookup_views(v@)).len() && prefix_at(b@, pos as int, enc_lookup_list(lookup_views(v@))),
        r is None ==> forall|s: Seq<LookupView>|
            u32_fits(s.len()) && all_ok(s, lookup_ok()) ==> !(#[trigger] prefix_at(
                b@,
                pos as int,
                enc_lookup_list(s),
            )),
{
    let (n, start) = match read_u32(b, pos) {
        Some(x) => x,
        None => {
            proof {
                assert forall|s: Seq<LookupView>| u32_fits(s.len()) && all_ok(s, lookup_ok()) implies !(
                #[trigger] prefix_at(b@, pos as int, enc_lookup_list(s))) by {
                    lemma_prefix_split(b@, pos as int, le_u32(s.len()), concat_lookups(s));
                }
            }
            return None;
        },
    };
    proof {
        lemma_lookup_enc_unique();
    }
    let mut v: Vec<AddressTableLookup> = Vec::new();
    let mut cur: usize = start;
    let mut k: u32 = 0;
    proof {
        assert(lookup_views(v@) =~= Seq::<LookupView>::empty());
        assert(b@.subrange(start as int, start as int) =~= Seq::<u8>::empty());
    }
    while k < n
        invariant
            0 <= k <= n,
            v@.len() == k,
            start == pos + 4,
            prefix_at(b@, pos as int, le_u32(n as nat)),
            enc_unique(lookup_enc(), lookup_ok()),
            all_ok(lookup_views(v@), lookup_ok()),
            prefix_at(b@, start as int, concat_lookups(lookup_views(v@))),
            cur == start + concat_lookups(lookup_views(v@)).len(),
        decreases n - k,
    {
        match read_lookup(b, cur) {
            None => {
                proof {
                    assert forall|s: Seq<LookupView>| u32_fits(s.len()) && all_ok(s, lookup_ok()) implies !(
                    #[trigger] prefix_at(b@, pos as int, enc_lookup_list(s))) by {
                        if prefix_at(b@, pos as int, enc_lookup_list(s)) {
                            lemma_prefix_split(b@, pos as int, le_u32(s.len()), concat_lookups(s));
                            lemma_le_u32_injective(s.len(), n as nat);
                            lemma_list_step(lookup_enc(), lookup_ok(), b@, start as int, lookup_views(v@), s);
                        }
                    }
                }
                return None;
            },
            Some((item, p)) => {
                let ghost old_views = lookup_views(v@);
                v.push(item);
                proof {
                    assert(lookup_views(v@) =~= old_views.push(item@));
                    assert(lookup_views(v@).drop_last() =~= old_views);
                    lemma_prefix_split(b@, start as int, concat_lookups(old_views), enc_lookup(item@));
                    assert forall|i: int| 0 <= i < lookup_views(v@).len() implies lookup_ok()(
                        #[trigger] lookup_views(v@)[i],
                    ) by {
                        if i < old_views.len() {
                            assert(lookup_views(v@)[i] == old_views[i]);
                        }
                    }
                }
                cur = p;
                k = k + 1;
            },
        }
    }
    proof {
        lemma_prefix_split(b@, pos as int, le_u32(n as nat), concat_lookups(lookup_views(v@)));
    }
    Some((v, cur))
}

fn read_keys(b: &[u8], pos: usize) -> (r: Option<(Vec<Address>, usize)>)
    ensures
        r matches Some((v, p)) ==> u32_fits(v@.len()) && all_ok(address_views(v@), key_ok()) && p == pos
            + enc_key_list(address_views(v@)).len() && prefix_at(b@, pos as int, enc_key_list(address_views(v@))),
        r is None ==> forall|s: Seq<Seq<u8>>|
            u32_fits(s.len()) && all_ok(s, key_ok()) ==> !(#[trigger] prefix_at(
                b@,
                pos as int,
                enc_key_list(s),
            )),
{
    let (n, start) = match read_u32(b, pos) {
        Some(x) => x,
        None => {
            proof {
                assert forall|s: Seq<Seq<u8>>| u32_fits(s.len()) && all_ok(s, key_ok()) implies !(
                #[trigger] prefix_at(b@, pos as int, enc_key_list(s))) by {
                    lemma_prefix_split(b@, pos as int, le_u32(s.len()), concat_keys(s));
                }
            }
            return None;
        },
    };
    proof {
        lemma_key_enc_unique();
    }
    let mut v: Vec<Address> = Vec::new();
    let mut cur: usize = start;
    let mut k: u32 = 0;
    proof {
        assert(address_views(v@) =~= Seq::<Seq<u8>>::empty());
        assert(b@.subrange(start as int, start as int) =~= Seq::<u8>::empty());
    }
    while k < n
        invariant
            0 <= k <= n,
            v@.len() == k,
            start == pos + 4,
            prefix_at(b@, pos as int, le_u32(n as nat)),
            enc_unique(key_enc(), key_ok()),
            all_ok(address_views(v@), key_ok()),
            prefix_at(b@, start as int, concat_keys(address_views(v@))),
            cur == start + concat_keys(address_views(v@)).len(),
        decreases n - k,
    {
        match read_key(b, cur) {
            None => {
                proof {
                    assert forall|s: Seq<Seq<u8>>| u32_fits(s.len()) && all_ok(s, key_ok()) implies !(
                    #[trigger] prefix_at(b@, pos as int, enc_key_list(s))) by {
                        if prefix_at(b@, pos as int, enc_key_list(s)) {
                            lemma_prefix_split(b@, pos as int, le_u32(s.len()), concat_keys(s));
                            lemma_le_u32_injective(s.len(), n as nat);
                            lemma_list_step(key_enc(), key_ok(), b@, start as int, address_views(v@), s);
                        }
                    }
                }
                return None;
            },
            Some((item, p)) => {
                let ghost old_views = address_views(v@);
                v.push(item);
                proof {
                    assert(address_views(v@) =~= old_views.push(item@));
                    assert(address_views(v@).drop_last() =~= old_views);
                    lemma_prefix_split(b@, start as int, concat_keys(old_views), item@);
                    assert forall|i: int| 0 <= i < address_views(v@).len() implies key_ok()(
                        #[trigger] address_views(v@)[i],
                    ) by {
                        if i < old_views.len() {
                            assert(address_views(v@)[i] == old_views[i]);
                        }
                    }
                }
                cur = p;
                k = k + 1;
            },
        }
    }
    proof {
        lemma_prefix_split(b@, pos as int, le_u32(n as nat), concat_keys(address_views(v@)));
    }
    Some((v, cur))
}

proof fn lemma_parts(b: Seq<u8>, mv: MessageView)
    requires
        encode_spec(mv) == b,
    ensures
        header(mv).len() == 3,
        prefix_at(b, 0, header(mv)),
        prefix_at(b, 3, enc_key_list(mv.account_keys)),
        prefix_at(
            b,
            3 + enc_key_list(mv.account_keys).len() as int,
            enc_instruction_list(mv.instructions),
        ),
        prefix_at(
            b,
            (3 + enc_key_list(mv.account_keys).len() + enc_instruction_list(mv.instructions).len()) as int,
            enc_lookup_list(mv.address_table_lookups),
        ),
        b.len() == 3 + enc_key_list(mv.account_keys).len() + enc_instruction_list(
            mv.instructions,
        ).len() + enc_lookup_list(mv.address_table_lookups).len(),
{
    let h = header(mv);
    let k = enc_key_list(mv.account_keys);
    let i = enc_instruction_list(mv.instructions);
    let l = enc_lookup_list(mv.address_table_lookups);
    assert(b.subrange(0, b.len() as int) =~= b);
    lemma_prefix_split(b, 0, h + k + i, l);
    lemma_prefix_split(b, 0, h + k, i);
    lemma_prefix_split(b, 0, h, k);
}

/// A message that fits its length prefixes is determined by its encoding:
/// two such messages with the same bytes are the same message, so decoding
/// the bytes that `encode` produced gives back exactly the message encoded,
/// with its vault keys, instructions and table lookups in their order.
#[verifier::spinoff_prover]
pub proof fn lemma_encoding_injective(m1: MessageView, m2: MessageView)
    requires
        fits(m1),
        fits(m2),
        encode_spec(m1) == encode_spec(m2),
    ensures
        m1 == m2,
{
    let b = encode_spec(m1);
    lemma_parts(b, m1);
    lemma_parts(b, m2);
    assert(header(m1) == header(m2));
    assert(header(m1)[0] == header(m2)[0]);
    assert(header(m1)[1] == header(m2)[1]);
    assert(header(m1)[2] == header(m2)[2]);
    assert(m1.account_keys == m2.account_keys) by {
        lemma_key_enc_unique();
        lemma_counted_list_unique(key_enc(), key_ok(), b, 3, m1.account_keys, m2.account_keys);
    }
    let first_end = 3 + enc_key_list(m1.account_keys).len() as int;
    assert(m1.instructions == m2.instructions) by {
        lemma_instruction_enc_unique();
        lemma_counted_list_unique(
            instruction_enc(),
            instruction_ok(),
            b,
            first_end,
            m1.instructions,
            m2.instructions,
        );
    }
    let second_end = first_end + enc_instruction_list(m1.instructions).len() as int;
    assert(m1.address_table_lookups == m2.address_table_lookups) by {
        lemma_lookup_enc_unique();
        lemma_counted_list_unique(
            lookup_enc(),
            lookup_ok(),
            b,
            second_end,
            m1.address_table_lookups,
            m2.address_table_lookups,
        );
    }
}

/// Decodes a message from bytes. The result is the one message that fits its
/// length prefixes and encodes to exactly these bytes; there is none when no
/// such message exists (too short, a wrong length, trailing bytes).
pub fn decode(b: &[u8]) -> (r: Option<VaultTransactionMessage>)
    ensures
        r matches Some(m) ==> fits(m@) && encode_spec(m@) == b@,
        forall|mv: MessageView|
            fits(mv) && #[trigger] encode_spec(mv) == b@ ==> (r matches Some(m) && m@ == mv),
{
    proof {
        lemma_key_enc_unique();
        lemma_instruction_enc_unique();
        lemma_lookup_enc_unique();
    }
    if b.len() < 3 {
        proof {
            assert forall|mv: MessageView| fits(mv) && #[trigger] encode_spec(mv) == b@ implies false by {
                lemma_parts(b@, mv);
            }
        }
        return None;
    }
    let num_signers = b[0];
    let num_writable_signers = b[1];
    let num_writable_non_signers = b[2];
    // Each part that is read is the matching part of any message that encodes
    // to `b`, so a later failure rules every such message out.
    let (account_keys, first_end) = match read_keys(b, 3) {
        Some(x) => x,
        None => {
            proof {
                assert forall|mv: MessageView| fits(mv) && #[trigger] encode_spec(mv) == b@ implies false by {
                    lemma_parts(b@, mv);
                }
            }
            return None;
        },
    };
    proof {
        assert forall|mv: MessageView| fits(mv) && #[trigger] encode_spec(mv) == b@ implies mv.account_keys
            == address_views(account_keys@) by {
            lemma_parts(b@, mv);
            lemma_counted_list_unique(
                key_enc(),
                key_ok(),
                b@,
                3,
                mv.account_keys,
                address_views(account_keys@),
            );
        }
    }
    let (instructions, second_end) = match read_instructions(b, first_end) {
        Some(x) => x,
        None => {
            proof {
                assert forall|mv: MessageView| fits(mv) && #[trigger] encode_spec(mv) == b@ implies false by {
                    lemma_parts(b@, mv);
                }
            }
            return None;
        },
    };
    proof {
        assert forall|mv: MessageView| fits(mv) && #[trigger] encode_spec(mv) == b@ implies mv.instructions
            == instruction_views(instructions@) by {
            lemma_parts(b@, mv);
            lemma_counted_list_unique(
                instruction_enc(),
                instruction_ok(),
                b@,
                first_end as int,
                mv.instructions,
                instruction_views(instructions@),
            );
        }
    }
    let (address_table_lookups, third_end) = match read_lookups(b, second_end) {
        Some(x) => x,
        None => {
            proof {
                assert forall|mv: MessageView| fits(mv) && #[trigger] encode_spec(mv) == b@ implies false by {
                    lemma_parts(b@, mv);
                }
            }
            return None;
        },
    };
    proof {
        assert forall|mv: MessageView| fits(mv) && #[trigger] encode_spec(mv) == b@ implies mv.address_table_lookups
            == lookup_views(address_table_lookups@) by {
            lemma_parts(b@, mv);
            lemma_counted_list_unique(
                lookup_enc(),
                lookup_ok(),
                b@,
                second_end as int,
                mv.address_table_lookups,
                lookup_views(address_table_lookups@),
            );
        }
    }
    if third_end != b.len() {
        proof {
            assert forall|mv: MessageView| fits(mv) && #[trigger] encode_spec(mv) == b@ implies false by {
                lemma_parts(b@, mv);
            }
        }
        return None;
    }
    let m = VaultTransactionMessage {
        num_signers,
        num_writable_signers,
        num_writable_non_signers,
        account_keys,
        instructions,
        address_table_lookups,
    };
    proof {
        let h = header(m@);
        let k = enc_key_list(m@.account_keys);
        let i = enc_instruction_list(m@.instructions);
        let l = enc_lookup_list(m@.address_table_lookups);
        assert(b@.subrange(0, 3) =~= h);
        lemma_prefix_split(b@, 0, h, k);
        lemma_prefix_split(b@, 0, h + k, i);
        lemma_prefix_split(b@, 0, h + k + i, l);
        assert(b@.subrange(0, b@.len() as int) =~= b@);
        assert forall|mv: MessageView| fits(mv) && #[trigger] encode_spec(mv) == b@ implies m@
            == mv by {
            lemma_encoding_injective(m@, mv);
        }
    }
    Some(m)
}

} // verus!
