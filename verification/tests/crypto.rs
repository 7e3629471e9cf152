use base64::Engine;
use solana_sdk::signature::Signer;
use tx_pipeline::compile::compile;
use tx_pipeline::errors::{PipelineError, SignError};
use tx_pipeline::instructions::{AccountRef, DescriptorSet, InstructionDescriptor};
use tx_pipeline::keys::{Blockhash, PubKey};
use tx_pipeline::pipeline::{build_swap_transaction, resign_prebuilt};
use tx_pipeline::sign::{sign, Keypair};
use tx_pipeline::wire::serialize_message;

fn new_keypair() -> (Keypair, Vec<u8>) {
    let kp = solana_sdk::signature::Keypair::new();
    let pubkey = kp.pubkey().to_bytes().to_vec();
    (Keypair { bytes: kp.to_bytes().to_vec() }, pubkey)
}

fn swap_descriptor(payer_pub: &[u8]) -> InstructionDescriptor {
    InstructionDescriptor::Structured {
        program_id: bs58::encode(&vec![7u8; 32]).into_string(),
        accounts: vec![
            AccountRef {
                address: bs58::encode(payer_pub).into_string(),
                is_signer: true,
                is_writable: true,
            },
            AccountRef {
                address: bs58::encode(&vec![2u8; 32]).into_string(),
                is_signer: false,
                is_writable: true,
            },
        ],
        data: base64::engine::general_purpose::STANDARD.encode([1u8, 2, 3]),
    }
}

fn verify_sig(sig: &[u8], pubkey: &[u8], msg: &[u8]) -> bool {
    match solana_sdk::signature::Signature::try_from(sig) {
        Ok(s) => s.verify(pubkey, msg),
        Err(_) => false,
    }
}

#[test]
fn signing_twice_both_signatures_verify() {
    let (kp, pubkey) = new_keypair();
    let payer = PubKey { bytes: pubkey.clone() };
    let d = swap_descriptor(&pubkey);
    let ins = tx_pipeline::instructions::decode(&d).unwrap();
    let hash = Blockhash { bytes: vec![9; 32] };
    let msg1 = compile(&payer, &vec![ins], &vec![], &hash).unwrap();
    let bytes = serialize_message(&msg1);
    let kp2 = Keypair { bytes: kp.bytes.clone() };
    let tx1 = sign(msg1, &vec![kp]).unwrap();
    let d2 = swap_descriptor(&pubkey);
    let ins2 = tx_pipeline::instructions::decode(&d2).unwrap();
    let msg2 = compile(&payer, &vec![ins2], &vec![], &Blockhash { bytes: vec![9; 32] }).unwrap();
    let tx2 = sign(msg2, &vec![kp2]).unwrap();
    assert_eq!(tx1.signatures.len(), 1);
    assert_eq!(tx2.signatures.len(), 1);
    assert!(verify_sig(&tx1.signatures[0], &pubkey, &bytes));
    assert!(verify_sig(&tx2.signatures[0], &pubkey, &bytes));
}

#[test]
fn unknown_signer_is_refused() {
    let (kp, pubkey) = new_keypair();
    let (stranger, _) = new_keypair();
    let payer = PubKey { bytes: pubkey.clone() };
    let d = swap_descriptor(&pubkey);
    let ins = tx_pipeline::instructions::decode(&d).unwrap();
    let msg = compile(&payer, &vec![ins], &vec![], &Blockhash { bytes: vec![9; 32] }).unwrap();
    assert!(matches!(sign(msg, &vec![stranger]), Err(SignError::UnknownSigner)));
    let _ = kp;
}

#[test]
fn full_pipeline_produces_verifiable_wire_bytes() {
    let (kp, pubkey) = new_keypair();
    let payer = PubKey { bytes: pubkey.clone() };
    let bundle = DescriptorSet {
        token_ledger: None,
        compute_budget: vec![],
        setup: vec![],
        swap: Some(swap_descriptor(&pubkey)),
        cleanup: None,
    };
    let hash = Blockhash { bytes: vec![9; 32] };
    let out = build_swap_transaction(&payer, &bundle, &vec![], &hash, &vec![kp]).unwrap();
    // one signature, then the 64 signature bytes, then the message
    assert_eq!(out[0], 1);
    let sig = &out[1..65];
    let msg = &out[65..];
    assert_eq!(msg[0], 128); // versioned message marker
    assert!(verify_sig(sig, &pubkey, msg));
}

#[test]
fn resign_prebuilt_replaces_signature_section() {
    let (kp, pubkey) = new_keypair();
    // a pre-built transaction: one blank signature slot, then message bytes
    let fake_msg = vec![128u8, 1, 0, 0, 1, 3, 3, 3];
    let mut raw = vec![1u8];
    raw.extend_from_slice(&[0u8; 64]);
    raw.extend_from_slice(&fake_msg);
    let b64 = base64::engine::general_purpose::STANDARD.encode(&raw);
    let signed_b64 = resign_prebuilt(&b64, &kp).unwrap();
    let signed = base64::engine::general_purpose::STANDARD.decode(&signed_b64).unwrap();
    assert_eq!(signed[0], 1);
    assert_eq!(&signed[65..], &fake_msg[..]);
    assert!(verify_sig(&signed[1..65], &pubkey, &fake_msg));
}

#[test]
fn resign_rejects_bad_encoding_and_truncated_bytes() {
    let (kp, _) = new_keypair();
    assert!(matches!(
        resign_prebuilt("not base64 !!!", &kp),
        Err(PipelineError::Decode(_))
    ));
    // claims two signatures but holds none
    let raw = vec![2u8, 0, 0];
    let b64 = base64::engine::general_purpose::STANDARD.encode(&raw);
    assert!(matches!(resign_prebuilt(&b64, &kp), Err(PipelineError::Decode(_))));
    // a non-minimal length prefix is an alias the wire format refuses
    let mut aliased = vec![0x80u8, 0x00];
    aliased.extend_from_slice(&[7u8; 8]);
    let b64 = base64::engine::general_purpose::STANDARD.encode(&aliased);
    assert!(matches!(resign_prebuilt(&b64, &kp), Err(PipelineError::Decode(_))));
}

#[test]
fn resign_rejects_inconsistent_keypair_bytes() {
    // 64 bytes whose public half does not match the secret half
    let bad = Keypair { bytes: vec![3u8; 64] };
    let raw = {
        let mut r = vec![1u8];
        r.extend_from_slice(&[0u8; 64]);
        r.extend_from_slice(&[128u8, 1, 0, 0]);
        r
    };
    let b64 = base64::engine::general_purpose::STANDARD.encode(&raw);
    assert!(matches!(
        resign_prebuilt(&b64, &bad),
        Err(PipelineError::Sign(SignError::InvalidKeypair))
    ));
}
