use fortis_cli::compile::{compile, AccountMeta, CompileError, Instruction};
use fortis_cli::message::{
    decode, encode, AddressTableLookup, CompiledInstruction, VaultTransactionMessage,
};

fn key(b: u8) -> [u8; 32] {
    [b; 32]
}

fn meta(b: u8, is_signer: bool, is_writable: bool) -> AccountMeta {
    AccountMeta { pubkey: key(b), is_signer, is_writable }
}

fn sample() -> VaultTransactionMessage {
    VaultTransactionMessage {
        num_signers: 1,
        num_writable_signers: 1,
        num_writable_non_signers: 1,
        account_keys: vec![key(1), key(2), key(3)],
        instructions: vec![CompiledInstruction {
            program_id_index: 2,
            account_indexes: vec![0, 1],
            data: vec![9, 8, 7],
        }],
        address_table_lookups: vec![
            AddressTableLookup {
                account_key: key(4),
                writable_indexes: vec![0],
                readonly_indexes: vec![1, 2],
            },
            AddressTableLookup {
                account_key: key(5),
                writable_indexes: vec![],
                readonly_indexes: vec![3],
            },
        ],
    }
}

fn same(a: &VaultTransactionMessage, b: &VaultTransactionMessage) -> bool {
    a.num_signers == b.num_signers
        && a.num_writable_signers == b.num_writable_signers
        && a.num_writable_non_signers == b.num_writable_non_signers
        && a.account_keys == b.account_keys
        && a.instructions.len() == b.instructions.len()
        && a.instructions.iter().zip(b.instructions.iter()).all(|(x, y)| {
            x.program_id_index == y.program_id_index
                && x.account_indexes == y.account_indexes
                && x.data == y.data
        })
        && a.address_table_lookups.len() == b.address_table_lookups.len()
        && a.address_table_lookups.iter().zip(b.address_table_lookups.iter()).all(|(x, y)| {
            x.account_key == y.account_key
                && x.writable_indexes == y.writable_indexes
                && x.readonly_indexes == y.readonly_indexes
        })
}

#[test]
fn encoding_layout() {
    let bytes = encode(&sample());
    assert_eq!(&bytes[0..3], &[1, 1, 1]);
    assert_eq!(&bytes[3..7], &[3, 0, 0, 0]);
    assert_eq!(&bytes[7..39], &key(1));
    let ix = 7 + 96;
    assert_eq!(&bytes[ix..ix + 4], &[1, 0, 0, 0]);
    assert_eq!(&bytes[ix + 4..ix + 5], &[2]);
    assert_eq!(&bytes[ix + 5..ix + 11], &[2, 0, 0, 0, 0, 1]);
    assert_eq!(&bytes[ix + 11..ix + 18], &[3, 0, 0, 0, 9, 8, 7]);
    assert_eq!(bytes.len(), 3 + 4 + 96 + 4 + 1 + 6 + 7 + 4 + (32 + 5 + 6) + (32 + 4 + 5));
}

#[test]
fn round_trip_keeps_message() {
    let m = sample();
    let bytes = encode(&m);
    let back = decode(&bytes).expect("decodes");
    assert!(same(&m, &back));
    assert_eq!(encode(&back), bytes);
    assert_eq!(back.address_table_lookups[0].account_key, key(4));
    assert_eq!(back.address_table_lookups[1].account_key, key(5));
}

#[test]
fn decode_refuses_bad_bytes() {
    let bytes = encode(&sample());
    assert!(decode(&bytes[..bytes.len() - 1]).is_none());
    let mut longer = bytes.clone();
    longer.push(0);
    assert!(decode(&longer).is_none());
    assert!(decode(&[]).is_none());
    assert!(decode(&[1, 1, 0, 9, 0, 0, 0]).is_none());
}

#[test]
fn empty_message_round_trip() {
    let bytes = [0u8, 0, 0, 0, 0, 0, 0, 0, 0, 0, 0, 0, 0, 0, 0];
    let m = decode(&bytes).expect("decodes");
    assert!(m.account_keys.is_empty() && m.instructions.is_empty());
    assert_eq!(encode(&m), bytes.to_vec());
}

#[test]
fn compile_orders_and_dedups_accounts() {
    let vault = key(1);
    let ixs = vec![
        Instruction {
            program_id: key(10),
            accounts: vec![meta(3, false, false), meta(2, false, true), meta(1, true, true)],
            data: vec![5],
        },
        Instruction {
            program_id: key(11),
            accounts: vec![meta(4, true, false), meta(2, false, true), meta(3, false, true)],
            data: vec![],
        },
    ];
    let m = compile(&vault, &ixs).expect("compiles");
    assert_eq!(m.account_keys, vec![key(1), key(4), key(3), key(2), key(10), key(11)]);
    assert_eq!(m.num_signers, 2);
    assert_eq!(m.num_writable_signers, 1);
    assert_eq!(m.num_writable_non_signers, 2);
    assert_eq!(m.instructions[0].program_id_index, 4);
    assert_eq!(m.instructions[0].account_indexes, vec![2, 3, 0]);
    assert_eq!(m.instructions[0].data, vec![5]);
    assert_eq!(m.instructions[1].program_id_index, 5);
    assert_eq!(m.instructions[1].account_indexes, vec![1, 3, 2]);
    assert!(m.address_table_lookups.is_empty());
    let back = decode(&encode(&m)).expect("decodes");
    assert!(same(&m, &back));
}

#[test]
fn compile_without_instructions_holds_the_vault() {
    let m = compile(&key(7), &vec![]).expect("compiles");
    assert_eq!(m.account_keys, vec![key(7)]);
    assert_eq!(m.num_signers, 1);
    assert_eq!(m.num_writable_signers, 1);
    assert!(m.instructions.is_empty());
}

#[test]
fn compile_refuses_too_many_accounts() {
    let mut accounts = Vec::new();
    for i in 0..255u32 {
        let mut k = [0u8; 32];
        k[0] = (i % 256) as u8;
        k[1] = 1;
        accounts.push(AccountMeta { pubkey: k, is_signer: false, is_writable: false });
    }
    let ix = Instruction { program_id: key(2), accounts, data: vec![] };
    assert_eq!(compile(&key(1), &vec![ix]).err(), Some(CompileError::TooManyAccounts));

    let mut accounts = Vec::new();
    for i in 0..252u32 {
        let mut k = [0u8; 32];
        k[0] = i as u8;
        k[1] = 1;
        accounts.push(AccountMeta { pubkey: k, is_signer: false, is_writable: false });
    }
    let ix = Instruction { program_id: key(2), accounts, data: vec![] };
    let m = compile(&key(1), &vec![ix]).expect("254 accounts fit");
    assert_eq!(m.account_keys.len(), 254);
}

#[test]
fn compiling_twice_is_byte_identical() {
    let ixs = || {
        vec![
            Instruction {
                program_id: key(20),
                accounts: vec![meta(5, false, true), meta(6, true, false), meta(7, false, true)],
                data: vec![1, 2, 3],
            },
            Instruction {
                program_id: key(21),
                accounts: vec![meta(7, false, false), meta(8, true, true), meta(5, false, false)],
                data: vec![4],
            },
        ]
    };
    let a = compile(&key(1), &ixs()).expect("compiles");
    let b = compile(&key(1), &ixs()).expect("compiles");
    assert_eq!(encode(&a), encode(&b));
    assert_eq!(a.account_keys, vec![key(1), key(8), key(6), key(5), key(7), key(20), key(21)]);
    let back = decode(&encode(&a)).expect("decodes");
    assert!(same(&a, &back));
}
