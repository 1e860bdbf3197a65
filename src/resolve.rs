use crate::address::{address_views, Address};
use crate::message::VaultTransactionMessage;
use solana_address_lookup_table_interface::state::AddressLookupTable;
use vstd::prelude::*;

verus! {

/// Size of the metadata header that precedes the addresses of a lookup table
/// account.
pub const LOOKUP_TABLE_META_SIZE: usize = 56;

/// The current address list of one lookup table.
pub struct ResolvedTable {
    pub key: Address,
    pub addresses: Vec<Address>,
}

#[derive(PartialEq, Eq, Clone, Copy, Debug)]
pub enum ResolveError {
    /// This table could not be resolved: no account data was fetched for it,
    /// or its data is not an initialized lookup table.
    MissingTable(Address),
}

/// Whether `data` is an initialized lookup table: the 56-byte metadata
/// header starts with the state tag 1 (a little-endian 32-bit integer), its
/// authority option tag at byte 21 is 0 or 1, and the rest is a whole number
/// of 32-byte addresses.
pub open spec fn lookup_table_accepts(data: Seq<u8>) -> bool {
    &&& data.len() >= LOOKUP_TABLE_META_SIZE
    &&& (data.len() - LOOKUP_TABLE_META_SIZE) % 32 == 0
    &&& data[0] == 1 && data[1] == 0 && data[2] == 0 && data[3] == 0
    &&& (data[21] == 0 || data[21] == 1)
}

/// The addresses stored after the metadata header, 32 bytes each.
pub open spec fn address_chunks(data: Seq<u8>) -> Seq<Seq<u8>> {
    Seq::new(
        ((data.len() - LOOKUP_TABLE_META_SIZE) / 32) as nat,
        |j: int| data.subrange(56 + 32 * j, 56 + 32 * j + 32),
    )
}

/// Relies on `AddressLookupTable::deserialize` of the lookup-table interface:
/// the header is read with bincode's fixed-width encoding (trailing bytes
/// allowed), which needs the state tag 1 and an option tag of 0 or 1, and the
/// bytes after the 56-byte header are cast to 32-byte addresses, which fails
/// unless their length is a multiple of 32.
#[verifier::external_body]
fn decode_lookup_table(data: &[u8]) -> (r: Option<Vec<Address>>)
    ensures
        r.is_some() == lookup_table_accepts(data@),
        r matches Some(a) ==> address_views(a@) == address_chunks(data@),
{
    AddressLookupTable::deserialize(data).ok().map(
        |t| t.addresses.iter().map(|pk| pk.to_bytes()).collect(),
    )
}

/// What was fetched for the table at position `i`; positions past the end of
/// `fetched` count as not fetched.
pub open spec fn fetched_at(fetched: Seq<Option<Vec<u8>>>, i: int) -> Option<Seq<u8>> {
    if 0 <= i < fetched.len() {
        match fetched[i] {
            Some(d) => Some(d@),
            None => None,
        }
    } else {
        None
    }
}

/// The data fetched for the table at position `i` (empty when none was).
pub open spec fn fetched_data(fetched: Seq<Option<Vec<u8>>>, i: int) -> Seq<u8> {
    match fetched_at(fetched, i) {
        Some(d) => d,
        None => Seq::empty(),
    }
}

/// Whether the table at position `i` was fetched and decodes.
pub open spec fn table_usable(fetched: Seq<Option<Vec<u8>>>, i: int) -> bool {
    fetched_at(fetched, i) matches Some(d) && lookup_table_accepts(d)
}


/// Resolves every referenced table, in reference order, from the account data
/// fetched for each (`fetched[i]` belongs to `table_keys[i]`). Either every
/// table resolves, or the result is the error of the first that does not and
/// nothing partial is returned.
pub fn resolve_tables(table_keys: &Vec<Address>, fetched: &Vec<Option<Vec<u8>>>) -> (r: Result<
    Vec<ResolvedTable>,
    ResolveError,
>)
    ensures
        r is Ok <==> forall|i: int| 0 <= i < table_keys@.len() ==> table_usable(fetched@, i),
        r matches Ok(v) ==> v@.len() == table_keys@.len() && forall|i: int|
            0 <= i < v@.len() ==> (#[trigger] v@[i]).key == table_keys@[i] && address_views(
                v@[i].addresses@,
            ) == address_chunks(fetched_data(fetched@, i)),
        r matches Err(e) ==> exists|i: int|
            0 <= i < table_keys@.len() && !table_usable(fetched@, i) && (forall|j: int|
                0 <= j < i ==> table_usable(fetched@, j)) && e == ResolveError::MissingTable(
                table_keys@[i],
            ),
{
    let mut out: Vec<ResolvedTable> = Vec::new();
    let mut i: usize = 0;
    while i < table_keys.len()
        invariant
            0 <= i <= table_keys@.len(),
            out@.len() == i,
            forall|j: int| 0 <= j < i ==> table_usable(fetched@, j),
            forall|j: int|
                0 <= j < i ==> (#[trigger] out@[j]).key == table_keys@[j] && address_views(
                    out@[j].addresses@,
                ) == address_chunks(fetched_data(fetched@, j)),
        decreases table_keys@.len() - i,
    {
        let key = table_keys[i];
        if i >= fetched.len() {
            proof {
                assert(!table_usable(fetched@, i as int));
            }
            return Err(ResolveError::MissingTable(key));
        }
        match &fetched[i] {
            None => {
                proof {
                    assert(!table_usable(fetched@, i as int));
                }
                return Err(ResolveError::MissingTable(key));
            },
            Some(data) => match decode_lookup_table(data.as_slice()) {
                None => {
                    proof {
                        assert(!table_usable(fetched@, i as int));
                    }
                    return Err(ResolveError::MissingTable(key));
                },
                Some(addresses) => {
                    out.push(ResolvedTable { key, addresses });
                },
            },
        }
        i = i + 1;
    }
    Ok(out)
}

/// The tables that a message references, in reference order.
pub fn table_keys(message: &VaultTransactionMessage) -> (r: Vec<Address>)
    ensures
        r@.len() == message.address_table_lookups@.len(),
        forall|i: int|
            0 <= i < r@.len() ==> #[trigger] r@[i] == message.address_table_lookups@[i].account_key,
{
    let mut r: Vec<Address> = Vec::new();
    let mut i: usize = 0;
    while i < message.address_table_lookups.len()
        invariant
            0 <= i <= message.address_table_lookups@.len(),
            r@.len() == i,
            forall|j: int|
                0 <= j < i ==> #[trigger] r@[j] == message.address_table_lookups@[j].account_key,
        decreases message.address_table_lookups@.len() - i,
    {
        r.push(message.address_table_lookups[i].account_key);
        i = i + 1;
    }
    r
}

/// Resolves the lookup tables that `message` references from the account
/// data fetched for each of them (`fetched[i]` for the `i`-th reference): all
/// of them in reference order, or the error of the first that is missing or
/// not a lookup table.
pub fn get_necessary_alt(message: &VaultTransactionMessage, fetched: &Vec<Option<Vec<u8>>>) -> (r:
    Result<Vec<ResolvedTable>, ResolveError>)
    ensures
        r is Ok <==> forall|i: int|
            0 <= i < message.address_table_lookups@.len() ==> table_usable(fetched@, i),
        r matches Ok(v) ==> v@.len() == message.address_table_lookups@.len() && forall|i: int|
            0 <= i < v@.len() ==> (#[trigger] v@[i]).key
                == message.address_table_lookups@[i].account_key && address_views(
                v@[i].addresses@,
            ) == address_chunks(fetched_data(fetched@, i)),
        r matches Err(e) ==> exists|i: int|
            0 <= i < message.address_table_lookups@.len() && !table_usable(fetched@, i) && (forall|
                j: int,
            | 0 <= j < i ==> table_usable(fetched@, j)) && e == ResolveError::MissingTable(
                message.address_table_lookups@[i].account_key,
            ),
{
    let keys = table_keys(message);
    resolve_tables(&keys, fetched)
}

} // verus!
