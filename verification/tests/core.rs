use base64::Engine;
use tx_pipeline::codec::encode_then_decode;
use tx_pipeline::compile::compile;
use tx_pipeline::errors::{CompileError, DecodeError, OrderError, SubmitError};
use tx_pipeline::instructions::{
    decode, decode_bundle, AccessMode, AccountRef, DescriptorSet, InstructionDescriptor,
};
use tx_pipeline::keys::{Blockhash, PubKey};
use tx_pipeline::pipeline::{create_order_outcome, integrator_fee, parse_table_addresses};
use tx_pipeline::submit::{classify_outcome, NodeReport};
use tx_pipeline::tables::{parse_lookup_table, resolve_tables, LookupTableAccount};
use tx_pipeline::wire::{push_compact_u16, serialize_message};

const WSOL: &str = "So11111111111111111111111111111111111111112";

fn key(v: u8) -> PubKey {
    PubKey { bytes: vec![v; 32] }
}

fn hash32() -> Blockhash {
    Blockhash { bytes: vec![9; 32] }
}

fn alt_bytes(addrs: &[PubKey]) -> Vec<u8> {
    let mut d = vec![1u8, 0, 0, 0];
    d.extend_from_slice(&[0u8; 16]);
    d.push(0); // last-extension start index
    d.push(1); // authority tag
    d.extend_from_slice(&[0u8; 32]); // authority
    d.extend_from_slice(&[0u8; 2]); // padding
    for a in addrs {
        d.extend_from_slice(&a.bytes);
    }
    d
}

fn structured(program: &PubKey, accounts: Vec<(PubKey, bool, bool)>, data: &[u8]) -> InstructionDescriptor {
    InstructionDescriptor::Structured {
        program_id: bs58::encode(&program.bytes).into_string(),
        accounts: accounts
            .into_iter()
            .map(|(k, s, w)| AccountRef {
                address: bs58::encode(&k.bytes).into_string(),
                is_signer: s,
                is_writable: w,
            })
            .collect(),
        data: base64::engine::general_purpose::STANDARD.encode(data),
    }
}

#[test]
fn round_trip_codec() {
    assert_eq!(encode_then_decode(&vec![]), Vec::<u8>::new());
    assert_eq!(encode_then_decode(&vec![0]), vec![0]);
    assert_eq!(encode_then_decode(&vec![1, 2, 3, 255, 0, 128]), vec![1, 2, 3, 255, 0, 128]);
}

#[test]
fn parse_pubkey_accepts_wsol_mint() {
    let pk = PubKey::parse(WSOL).unwrap();
    assert_eq!(pk.bytes.len(), 32);
    assert_eq!(
        pk.bytes,
        bs58::decode(WSOL).into_vec().unwrap()
    );
}

#[test]
fn parse_pubkey_rejects_bad_text() {
    assert!(matches!(PubKey::parse("not base58 0OIl"), Err(DecodeError::InvalidAddress)));
    assert!(matches!(PubKey::parse("abc"), Err(DecodeError::InvalidAddress)));
    assert!(matches!(PubKey::parse(""), Err(DecodeError::InvalidAddress)));
}

#[test]
fn decode_structured_preserves_order_and_modes() {
    let d = structured(
        &key(7),
        vec![(key(1), true, true), (key(2), true, false), (key(3), false, true), (key(4), false, false)],
        &[5, 6, 7],
    );
    let ins = decode(&d).unwrap();
    assert_eq!(ins.program_id.bytes, vec![7; 32]);
    assert_eq!(ins.accounts.len(), 4);
    assert_eq!(ins.accounts[0].key.bytes, vec![1; 32]);
    assert!(matches!(ins.accounts[0].mode, AccessMode::SignerWritable));
    assert!(matches!(ins.accounts[1].mode, AccessMode::SignerReadonly));
    assert!(matches!(ins.accounts[2].mode, AccessMode::Writable));
    assert!(matches!(ins.accounts[3].mode, AccessMode::Readonly));
    assert_eq!(ins.data, vec![5, 6, 7]);
}

#[test]
fn decode_rejects_bad_address_and_bad_payload() {
    let d = InstructionDescriptor::Structured {
        program_id: "zz!!".to_string(),
        accounts: vec![],
        data: "AA==".to_string(),
    };
    assert!(matches!(decode(&d), Err(DecodeError::InvalidAddress)));
    let d2 = InstructionDescriptor::Structured {
        program_id: WSOL.to_string(),
        accounts: vec![],
        data: "not base64 !!!".to_string(),
    };
    assert!(matches!(decode(&d2), Err(DecodeError::InvalidEncoding)));
}

#[test]
fn legacy_descriptor_always_refused() {
    let d = InstructionDescriptor::LegacyEncoded { blob: "AQID".to_string() };
    assert!(matches!(decode(&d), Err(DecodeError::UnsupportedFormat)));
}

#[test]
fn empty_bundle_fails_with_empty_instruction_set() {
    let b = DescriptorSet {
        token_ledger: None,
        compute_budget: vec![],
        setup: vec![],
        swap: None,
        cleanup: None,
    };
    assert!(matches!(decode_bundle(&b), Err(DecodeError::EmptyInstructionSet)));
}

#[test]
fn missing_swap_fails_even_with_other_sections() {
    let b = DescriptorSet {
        token_ledger: None,
        compute_budget: vec![structured(&key(7), vec![(key(1), true, true)], &[1])],
        setup: vec![],
        swap: None,
        cleanup: None,
    };
    assert!(matches!(decode_bundle(&b), Err(DecodeError::EmptyInstructionSet)));
}

#[test]
fn bundle_concatenates_sections_in_fixed_order() {
    let b = DescriptorSet {
        token_ledger: Some(structured(&key(7), vec![(key(1), true, true)], &[1])),
        compute_budget: vec![structured(&key(7), vec![(key(1), true, true)], &[2])],
        setup: vec![structured(&key(7), vec![(key(1), true, true)], &[3])],
        swap: Some(structured(&key(7), vec![(key(1), true, true)], &[4])),
        cleanup: Some(structured(&key(7), vec![(key(1), true, true)], &[5])),
    };
    let v = decode_bundle(&b).unwrap();
    let datas: Vec<u8> = v.iter().map(|i| i.data[0]).collect();
    assert_eq!(datas, vec![1, 2, 3, 4, 5]);
}

#[test]
fn lookup_table_parses_addresses() {
    let data = alt_bytes(&[key(11), key(12)]);
    let t = parse_lookup_table(key(99), &data).unwrap();
    assert_eq!(t.key.bytes, vec![99; 32]);
    assert_eq!(t.addresses.len(), 2);
    assert_eq!(t.addresses[0].bytes, vec![11; 32]);
    assert_eq!(t.addresses[1].bytes, vec![12; 32]);
}

#[test]
fn lookup_table_rejects_uninitialized_and_ragged() {
    let mut data = alt_bytes(&[key(11)]);
    data[0] = 0; // uninitialized discriminant
    assert!(parse_lookup_table(key(99), &data).is_none());
    let mut ragged = alt_bytes(&[key(11)]);
    ragged.push(7);
    assert!(parse_lookup_table(key(99), &ragged).is_none());
    assert!(parse_lookup_table(key(99), &vec![1, 0, 0, 0]).is_none());
}

#[test]
fn failed_fetch_is_skipped_in_order() {
    let addrs = vec![key(1), key(2), key(3)];
    let fetched = vec![
        Some(alt_bytes(&[key(11)])),
        None,
        Some(alt_bytes(&[key(13)])),
    ];
    let tables = resolve_tables(&addrs, &fetched);
    assert_eq!(tables.len(), 2);
    assert_eq!(tables[0].key.bytes, vec![1; 32]);
    assert_eq!(tables[0].addresses[0].bytes, vec![11; 32]);
    assert_eq!(tables[1].key.bytes, vec![3; 32]);
    assert_eq!(tables[1].addresses[0].bytes, vec![13; 32]);
}

#[test]
fn compile_buckets_dedups_and_indexes() {
    let payer = key(1);
    let d = structured(
        &key(7),
        vec![(key(1), true, true), (key(2), false, false), (key(2), false, true)],
        &[9],
    );
    let ins = decode(&d).unwrap();
    let msg = compile(&payer, &vec![ins], &vec![], &hash32()).unwrap();
    // payer first; the repeated account keeps one slot with merged (writable) access
    assert_eq!(msg.num_required_signatures, 1);
    assert_eq!(msg.num_readonly_signed, 0);
    assert_eq!(msg.num_readonly_unsigned, 1); // the program
    let statics: Vec<Vec<u8>> = msg.static_keys.iter().map(|k| k.bytes.clone()).collect();
    assert_eq!(statics, vec![vec![1; 32], vec![2; 32], vec![7; 32]]);
    assert_eq!(msg.instructions.len(), 1);
    assert_eq!(msg.instructions[0].program_id_index, 2);
    assert_eq!(msg.instructions[0].account_indexes, vec![0, 1, 1]);
    assert_eq!(msg.instructions[0].data, vec![9]);
    assert!(msg.lookups.is_empty());
}

#[test]
fn compile_requires_payer_reference() {
    let payer = key(8);
    let d = structured(&key(7), vec![(key(1), true, true)], &[9]);
    let ins = decode(&d).unwrap();
    assert!(matches!(
        compile(&payer, &vec![ins], &vec![], &hash32()),
        Err(CompileError::MissingPayer)
    ));
}

#[test]
fn compile_is_idempotent_on_equal_inputs() {
    let payer = key(1);
    let mk = || {
        let d = structured(&key(7), vec![(key(1), true, true), (key(2), false, true)], &[9]);
        let ins = decode(&d).unwrap();
        compile(&payer, &vec![ins], &vec![], &hash32()).unwrap()
    };
    let a = serialize_message(&mk());
    let b = serialize_message(&mk());
    assert_eq!(a, b);
}

#[test]
fn compile_compresses_non_signers_through_tables() {
    let payer = key(1);
    let d = structured(
        &key(7),
        vec![(key(1), true, true), (key(2), false, true), (key(3), false, false)],
        &[9],
    );
    let ins = decode(&d).unwrap();
    let table = LookupTableAccount { key: key(50), addresses: vec![key(2), key(3)] };
    let msg = compile(&payer, &vec![ins], &vec![table], &hash32()).unwrap();
    // the two non-signer keys leave the static list; the payer and the
    // invoked program stay
    let statics: Vec<Vec<u8>> = msg.static_keys.iter().map(|k| k.bytes.clone()).collect();
    assert_eq!(statics, vec![vec![1; 32], vec![7; 32]]);
    assert_eq!(msg.lookups.len(), 1);
    assert_eq!(msg.lookups[0].table_key.bytes, vec![50; 32]);
    assert_eq!(msg.lookups[0].writable_indexes, vec![0]);
    assert_eq!(msg.lookups[0].readonly_indexes, vec![1]);
    // combined key order: statics, loaded writable, loaded readonly
    assert_eq!(msg.instructions[0].program_id_index, 1);
    assert_eq!(msg.instructions[0].account_indexes, vec![0, 2, 3]);
}

#[test]
fn compile_never_compresses_signers() {
    let payer = key(1);
    let d = structured(&key(7), vec![(key(1), true, true), (key(2), true, false)], &[9]);
    let ins = decode(&d).unwrap();
    // both signers appear in the table, yet stay static
    let table = LookupTableAccount { key: key(50), addresses: vec![key(1), key(2)] };
    let msg = compile(&payer, &vec![ins], &vec![table], &hash32()).unwrap();
    assert_eq!(msg.num_required_signatures, 2);
    let statics: Vec<Vec<u8>> = msg.static_keys.iter().map(|k| k.bytes.clone()).collect();
    assert_eq!(statics, vec![vec![1; 32], vec![2; 32], vec![7; 32]]);
    assert!(msg.lookups.is_empty());
}

#[test]
fn serialized_message_layout_is_exact() {
    let payer = key(1);
    let d = structured(&key(7), vec![(key(1), true, true)], &[5, 6]);
    let ins = decode(&d).unwrap();
    let msg = compile(&payer, &vec![ins], &vec![], &hash32()).unwrap();
    let bytes = serialize_message(&msg);
    let mut expect = vec![128u8, 1, 0, 1];
    expect.push(2); // two static keys
    expect.extend_from_slice(&[1; 32]);
    expect.extend_from_slice(&[7; 32]);
    expect.extend_from_slice(&[9; 32]); // freshness token
    expect.push(1); // one instruction
    expect.push(1); // program index
    expect.push(1); // one account index
    expect.push(0);
    expect.push(2); // two data bytes
    expect.extend_from_slice(&[5, 6]);
    expect.push(0); // no table references
    assert_eq!(bytes, expect);
}

#[test]
fn serialized_lookup_section_is_exact() {
    let payer = key(1);
    let d = structured(
        &key(7),
        vec![(key(1), true, true), (key(2), false, true), (key(3), false, false)],
        &[9],
    );
    let ins = decode(&d).unwrap();
    let table = LookupTableAccount { key: key(50), addresses: vec![key(2), key(3)] };
    let msg = compile(&payer, &vec![ins], &vec![table], &hash32()).unwrap();
    let bytes = serialize_message(&msg);
    let mut expect = vec![128u8, 1, 0, 1];
    expect.push(2); // two static keys: payer, program
    expect.extend_from_slice(&[1; 32]);
    expect.extend_from_slice(&[7; 32]);
    expect.extend_from_slice(&[9; 32]); // freshness token
    expect.push(1); // one instruction
    expect.push(1); // program index
    expect.push(3); // three account indexes
    expect.extend_from_slice(&[0, 2, 3]);
    expect.push(1); // one data byte
    expect.push(9);
    expect.push(1); // one table reference
    expect.extend_from_slice(&[50; 32]);
    expect.push(1); // one writable position
    expect.push(0);
    expect.push(1); // one readonly position
    expect.push(1);
    assert_eq!(bytes, expect);
}

#[test]
fn compact_lengths_encode_exactly() {
    let mut v: Vec<u8> = Vec::new();
    push_compact_u16(&mut v, 0);
    push_compact_u16(&mut v, 127);
    push_compact_u16(&mut v, 128);
    push_compact_u16(&mut v, 16383);
    push_compact_u16(&mut v, 16384);
    push_compact_u16(&mut v, 65535);
    assert_eq!(
        v,
        vec![0, 127, 0x80, 1, 0xFF, 0x7F, 0x80, 0x80, 1, 0xFF, 0xFF, 3]
    );
}

#[test]
fn stale_token_is_rejected_not_timed_out() {
    let sig = vec![4u8; 64];
    let r = classify_outcome(&sig, &NodeReport::Rejected { stale_token: true });
    assert!(matches!(r, Err(SubmitError::Rejected)));
    assert!(!matches!(r, Err(SubmitError::Timeout)));
}

#[test]
fn outcomes_classify_exactly() {
    let sig = vec![4u8; 64];
    let ok = classify_outcome(&sig, &NodeReport::Confirmed { slot: 17 }).unwrap();
    assert_eq!(ok.signature, sig);
    assert_eq!(ok.slot, 17);
    assert!(matches!(
        classify_outcome(&sig, &NodeReport::Rejected { stale_token: false }),
        Err(SubmitError::Rejected)
    ));
    assert!(matches!(
        classify_outcome(&sig, &NodeReport::NoConfirmation),
        Err(SubmitError::Timeout)
    ));
    assert!(matches!(
        classify_outcome(&sig, &NodeReport::TransportFailure),
        Err(SubmitError::TransportError)
    ));
}

#[test]
fn integrator_fee_policy_is_uniform() {
    assert_eq!(integrator_fee(None, Some(10)), None);
    assert_eq!(integrator_fee(Some("acc".to_string()), None), None);
    assert_eq!(integrator_fee(Some(String::new()), Some(10)), None);
    assert_eq!(integrator_fee(Some("acc".to_string()), Some(0)), None);
    assert_eq!(integrator_fee(Some("acc".to_string()), Some(10)), Some(("acc".to_string(), 50)));
    assert_eq!(integrator_fee(Some("acc".to_string()), Some(80)), Some(("acc".to_string(), 80)));
}

#[test]
fn create_order_requires_nonempty_transaction() {
    assert_eq!(
        create_order_outcome(None, Some("r".to_string())),
        Err(OrderError::MissingTransaction)
    );
    assert_eq!(
        create_order_outcome(Some(String::new()), Some("r".to_string())),
        Err(OrderError::MissingTransaction)
    );
    assert_eq!(
        create_order_outcome(Some("AQID".to_string()), Some("r".to_string())),
        Ok(("AQID".to_string(), "r".to_string()))
    );
    assert_eq!(
        create_order_outcome(Some("AQID".to_string()), None),
        Ok(("AQID".to_string(), String::new()))
    );
}

#[test]
fn failure_wording_names_the_remedy() {
    assert_eq!(
        DecodeError::UnsupportedFormat.describe(),
        "legacy pre-compiled instruction returned; request the structured representation instead"
    );
    assert_eq!(DecodeError::InvalidAddress.describe(), "malformed public key string");
}

#[test]
fn table_addresses_parse_in_order() {
    let addrs = vec![WSOL.to_string(), bs58::encode(&vec![5u8; 32]).into_string()];
    let keys = parse_table_addresses(&addrs).unwrap();
    assert_eq!(keys.len(), 2);
    assert_eq!(keys[1].bytes, vec![5; 32]);
    let bad = vec![WSOL.to_string(), "??".to_string()];
    assert!(matches!(parse_table_addresses(&bad), Err(DecodeError::InvalidAddress)));
}
