use fortis_cli::message::{AddressTableLookup, VaultTransactionMessage};
use fortis_cli::resolve::{get_necessary_alt, resolve_tables, ResolveError};

fn key(b: u8) -> [u8; 32] {
    [b; 32]
}

fn table_data(addresses: &[[u8; 32]]) -> Vec<u8> {
    let mut d = vec![1u8, 0, 0, 0];
    d.extend_from_slice(&u64::MAX.to_le_bytes());
    d.extend_from_slice(&0u64.to_le_bytes());
    d.push(0);
    d.push(0);
    d.extend_from_slice(&0u16.to_le_bytes());
    d.resize(56, 0);
    for a in addresses {
        d.extend_from_slice(a);
    }
    d
}

#[test]
fn all_tables_resolve_in_order() {
    let keys = vec![key(1), key(2), key(3)];
    let fetched = vec![
        Some(table_data(&[key(10), key(11)])),
        Some(table_data(&[])),
        Some(table_data(&[key(12)])),
    ];
    let r = resolve_tables(&keys, &fetched).expect("resolves");
    assert_eq!(r.len(), 3);
    assert_eq!(r[0].key, key(1));
    assert_eq!(r[0].addresses, vec![key(10), key(11)]);
    assert_eq!(r[1].key, key(2));
    assert!(r[1].addresses.is_empty());
    assert_eq!(r[2].key, key(3));
    assert_eq!(r[2].addresses, vec![key(12)]);
}

#[test]
fn one_missing_table_fails_the_whole_resolution() {
    let keys = vec![key(1), key(2), key(3)];
    let fetched = vec![Some(table_data(&[key(10)])), None, Some(table_data(&[key(12)]))];
    assert_eq!(resolve_tables(&keys, &fetched).err(), Some(ResolveError::MissingTable(key(2))));
    let short = vec![Some(table_data(&[key(10)]))];
    assert_eq!(resolve_tables(&keys, &short).err(), Some(ResolveError::MissingTable(key(2))));
}

#[test]
fn undecodable_tables_are_refused() {
    let keys = vec![key(1)];
    let mut uninitialized = table_data(&[key(10)]);
    uninitialized[0] = 0;
    assert_eq!(
        resolve_tables(&keys, &vec![Some(uninitialized)]).err(),
        Some(ResolveError::MissingTable(key(1)))
    );
    let mut ragged = table_data(&[key(10)]);
    ragged.pop();
    assert_eq!(
        resolve_tables(&keys, &vec![Some(ragged)]).err(),
        Some(ResolveError::MissingTable(key(1)))
    );
}

#[test]
fn header_tags_decide_acceptance() {
    let keys = vec![key(1)];
    let mut with_authority = table_data(&[key(10)]);
    with_authority[21] = 1;
    let r = resolve_tables(&keys, &vec![Some(with_authority)]).expect("resolves");
    assert_eq!(r[0].addresses, vec![key(10)]);
    let mut bad_option = table_data(&[key(10)]);
    bad_option[21] = 2;
    assert_eq!(
        resolve_tables(&keys, &vec![Some(bad_option)]).err(),
        Some(ResolveError::MissingTable(key(1)))
    );
    let mut bad_state = table_data(&[key(10)]);
    bad_state[0] = 2;
    assert_eq!(
        resolve_tables(&keys, &vec![Some(bad_state)]).err(),
        Some(ResolveError::MissingTable(key(1)))
    );
    assert_eq!(
        resolve_tables(&keys, &vec![Some(vec![1, 0, 0, 0])]).err(),
        Some(ResolveError::MissingTable(key(1)))
    );
}

#[test]
fn no_tables_resolve_to_nothing() {
    assert_eq!(resolve_tables(&vec![], &vec![]).map(|v| v.len()), Ok(0));
}

#[test]
fn message_tables_resolve_in_reference_order() {
    let m = VaultTransactionMessage {
        num_signers: 1,
        num_writable_signers: 1,
        num_writable_non_signers: 0,
        account_keys: vec![key(1)],
        instructions: vec![],
        address_table_lookups: vec![
            AddressTableLookup { account_key: key(5), writable_indexes: vec![0], readonly_indexes: vec![] },
            AddressTableLookup { account_key: key(4), writable_indexes: vec![], readonly_indexes: vec![0] },
        ],
    };
    let fetched = vec![Some(table_data(&[key(20)])), Some(table_data(&[key(21)]))];
    let r = get_necessary_alt(&m, &fetched).expect("resolves");
    assert_eq!(r[0].key, key(5));
    assert_eq!(r[0].addresses, vec![key(20)]);
    assert_eq!(r[1].key, key(4));
    assert_eq!(r[1].addresses, vec![key(21)]);
    assert_eq!(
        get_necessary_alt(&m, &vec![Some(table_data(&[key(20)])), None]).err(),
        Some(ResolveError::MissingTable(key(4)))
    );
}
