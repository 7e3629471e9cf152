use vstd::prelude::*;
use crate::codec::{b64_decode, b64_decoded, b64_encode, b64_of, b64_ok};
use crate::compile::{compile, compile_spec};
use crate::errors::{CompileError, DecodeError, OrderError, PipelineError, SignError};
use crate::instructions::{bundle_spec, decode_bundle, instr_views, DescriptorSet};
use crate::keys::{Blockhash, PubKey};
use crate::sign::{kp_views, kp_usable, sig_of, sig_verifies, sign, sign_spec, Keypair};
use crate::tables::{table_views, LookupTableAccount};
use crate::wire::{compact_u16, msg_bytes, push_bytes, push_compact_u16, tx_wire_bytes};
use crate::submit::prepare_submission;

verus! {

/// The integrator-fee policy, applied uniformly in every flow: the fee is
/// enabled only when both a non-empty fee account and a positive
/// basis-point value are supplied, and the basis points are raised to the
/// floor of 50 where a smaller positive value was configured.
pub fn integrator_fee(account: Option<String>, bps: Option<u64>) -> (r: Option<(String, u64)>)
    ensures
        r is Some <==> ((account matches Some(a) && a@.len() > 0) && (bps matches Some(b) && b
            > 0)),
        r matches Some(pair) ==> (account matches Some(a) && pair.0 == a) && (bps matches Some(b)
            && pair.1 == (if b < 50 {
                50u64
            } else {
                b
            })),
{
    match (account, bps) {
        (Some(a), Some(b)) => {
            if a.as_str().unicode_len() > 0 && b > 0 {
                let floored = if b < 50 {
                    50
                } else {
                    b
                };
                Some((a, floored))
            } else {
                None
            }
        },
        _ => None,
    }
}

/// The decision on a create-order response: an order is usable only when
/// the response carries a non-empty pre-built transaction, and a response
/// without one is a typed failure, never a silent success; the request
/// identifier defaults to the empty string.
pub fn create_order_outcome(transaction: Option<String>, request_id: Option<String>) -> (r:
    Result<(String, String), OrderError>)
    ensures
        r is Ok <==> (transaction matches Some(t) && t@.len() > 0),
        r matches Ok(pair) ==> (transaction matches Some(t) && pair.0 == t) && (match request_id {
            Some(q) => pair.1 == q,
            None => pair.1@.len() == 0,
        }),
        r matches Err(e) ==> e == OrderError::MissingTransaction,
{
    match transaction {
        Some(t) => {
            if t.as_str().unicode_len() > 0 {
                match request_id {
                    Some(q) => Ok((t, q)),
                    None => Ok((t, String::new())),
                }
            } else {
                Err(OrderError::MissingTransaction)
            }
        },
        None => Err(OrderError::MissingTransaction),
    }
}

/// Parses the text-encoded lookup-table addresses of a trade-execution
/// response, in order; the first malformed address fails the whole list.
#[verifier::loop_isolation(false)]
pub fn parse_table_addresses(addrs: &Vec<String>) -> (r: Result<Vec<PubKey>, DecodeError>)
    ensures
        r matches Ok(v) ==> v@.len() == addrs@.len() && (forall|i: int|
            0 <= i < v@.len() ==> (#[trigger] v@[i]).wf() && PubKey::is_pubkey_str(addrs@[i]@)
                && v@[i]@ == PubKey::pk_bytes(addrs@[i]@)),
        r matches Err(e) ==> e == DecodeError::InvalidAddress && (exists|i: int|
            0 <= i < addrs@.len() && !PubKey::is_pubkey_str((#[trigger] addrs@[i])@)),
{
    let mut out: Vec<PubKey> = Vec::new();
    let n = addrs.len();
    let mut i: usize = 0;
    while i < n
        invariant
            i <= n,
            n == addrs@.len(),
            out@.len() == i,
            forall|j: int|
                0 <= j < i ==> (#[trigger] out@[j]).wf() && PubKey::is_pubkey_str(addrs@[j]@)
                    && out@[j]@ == PubKey::pk_bytes(addrs@[j]@),
        decreases n - i,
    {
        match PubKey::parse(addrs[i].as_str()) {
            Ok(pk) => {
                out.push(pk);
            },
            Err(e) => {
                return Err(e);
            },
        }
        i += 1;
    }
    Ok(out)
}

/// Assembles and signs one transaction: decodes the descriptor bundle,
/// compiles the message over the resolved tables and the freshness token,
/// signs its exact serialized bytes, and serializes the whole signed
/// transaction into the raw bytes ready for submission. Each stage fails
/// fast with its own typed error.
pub fn build_swap_transaction(
    payer: &PubKey,
    bundle: &DescriptorSet,
    tables: &Vec<LookupTableAccount>,
    hash: &Blockhash,
    keys: &Vec<Keypair>,
) -> (r: Result<Vec<u8>, PipelineError>)
    requires
        payer.wf(),
        hash.wf(),
        bundle.compute_budget@.len() + bundle.setup@.len() + 3 <= 65535,
        tables@.len() <= 256,
        forall|i: int| 0 <= i < tables@.len() ==> (#[trigger] tables@[i]).wf(),
        forall|i: int| 0 <= i < keys@.len() ==> (#[trigger] keys@[i]).wf(),
    ensures
        r matches Ok(out) ==> (bundle_spec(*bundle) matches Ok(ivs) && compile_spec(
            payer@,
            ivs,
            table_views(tables@),
            hash@,
        ) matches Ok(m) && sign_spec(m, kp_views(keys@)) matches Ok(tx) && out@ == tx_wire_bytes(
            tx.signatures,
            msg_bytes(m),
        )),
        r matches Err(e) ==> match e {
            PipelineError::Decode(d) => bundle_spec(*bundle) == Err::<
                Seq<crate::instructions::InstructionV>,
                DecodeError,
            >(d),
            PipelineError::Compile(c) => bundle_spec(*bundle) matches Ok(ivs) && compile_spec(
                payer@,
                ivs,
                table_views(tables@),
                hash@,
            ) == Err::<crate::compile::MessageV, CompileError>(c),
            PipelineError::Sign(sg) => (bundle_spec(*bundle) matches Ok(ivs) && compile_spec(
                payer@,
                ivs,
                table_views(tables@),
                hash@,
            ) matches Ok(m) && (sg == SignError::UnknownSigner ==> sign_spec(m, kp_views(keys@))
                == Err::<crate::sign::TransactionV, SignError>(SignError::UnknownSigner)) && (sg
                == SignError::InvalidKeypair ==> exists|i: int|
                0 <= i < keys@.len() && !kp_usable((#[trigger] keys@[i]).bytes@))),
        },
        (bundle_spec(*bundle) matches Ok(ivs) && compile_spec(
            payer@,
            ivs,
            table_views(tables@),
            hash@,
        ) matches Ok(m) && !crate::sign::has_unknown_signer(kp_views(keys@), m) && (forall|i: int|
            0 <= i < keys@.len() ==> kp_usable((#[trigger] keys@[i]).bytes@))) ==> r is Ok,
{
    let instrs = match decode_bundle(bundle) {
        Ok(v) => v,
        Err(e) => {
            return Err(PipelineError::Decode(e));
        },
    };
    let msg = match compile(payer, &instrs, tables, hash) {
        Ok(m) => m,
        Err(e) => {
            return Err(PipelineError::Compile(e));
        },
    };
    proof {
        assert(msg@.instructions.len() == instr_views(instrs@).len());
        assert(msg@.num_required_signatures as int <= msg@.static_keys.len());
    }
    let tx = match sign(msg, keys) {
        Ok(t) => t,
        Err(e) => {
            return Err(PipelineError::Sign(e));
        },
    };
    proof {
        assert(tx@.signatures.len() <= 65535);
    }
    let out = prepare_submission(&tx);
    Ok(out)
}

/// What one position of the pre-built transaction's shortened length prefix
/// parses to: the value and the position after it, or nothing on malformed,
/// truncated, or non-minimal bytes. A continuation sequence whose last byte
/// is zero could have been written shorter; such aliases are rejected, as
/// the wire format demands.
pub open spec fn parse_compact(v: Seq<u8>, pos: int) -> Option<(int, int)> {
    if pos < v.len() && v[pos] < 128 {
        Some((v[pos] as int, pos + 1))
    } else if pos + 1 < v.len() && v[pos] >= 128 && 0 < v[pos + 1] < 128 {
        Some(((v[pos] as int - 128) + 128 * (v[pos + 1] as int), pos + 2))
    } else if pos + 2 < v.len() && v[pos] >= 128 && v[pos + 1] >= 128 && 0 < v[pos + 2] < 4 {
        Some(
            (
                (v[pos] as int - 128) + 128 * (v[pos + 1] as int - 128) + 16384 * (v[pos
                    + 2] as int),
                pos + 3,
            ),
        )
    } else {
        None
    }
}

/// Reads one shortened length prefix.
pub fn read_compact(v: &Vec<u8>, pos: usize) -> (r: Option<(u16, usize)>)
    requires
        pos <= v@.len(),
    ensures
        r matches Some(pair) ==> parse_compact(v@, pos as int) == Some(
            (pair.0 as int, pair.1 as int),
        ) && pair.1 <= v@.len(),
        r is None ==> parse_compact(v@, pos as int) is None,
{
    let rem = v.len() - pos;
    if rem >= 1 && v[pos] < 128 {
        Some((v[pos] as u16, pos + 1))
    } else if rem >= 2 && v[pos] >= 128 && 0 < v[pos + 1] && v[pos + 1] < 128 {
        let n = (v[pos] as u16 - 128) + 128 * (v[pos + 1] as u16);
        Some((n, pos + 2))
    } else if rem >= 3 && v[pos] >= 128 && v[pos + 1] >= 128 && 0 < v[pos + 2] && v[pos + 2] < 4 {
        let n = (v[pos] as u16 - 128) + 128 * (v[pos + 1] as u16 - 128) + 16384 * (v[pos
            + 2] as u16);
        Some((n, pos + 3))
    } else {
        None
    }
}

/// The message part of a pre-built transaction: what follows its signature
/// section.
pub open spec fn resign_msg_part(tx: Seq<u8>) -> Seq<u8> {
    match parse_compact(tx, 0) {
        Some(pair) => tx.subrange(pair.1 + 64 * pair.0, tx.len() as int),
        None => Seq::<u8>::empty(),
    }
}

/// What re-signing a pre-built transaction yields: the bytes split after
/// the existing signature section, the message part signed with the given
/// keypair, and the result reassembled with exactly that one signature.
pub open spec fn resign_spec(tx: Seq<u8>, kp: Seq<u8>) -> Option<Seq<u8>> {
    match parse_compact(tx, 0) {
        Some(pair) => {
            if pair.1 + 64 * pair.0 <= tx.len() {
                Some(compact_u16(1) + sig_of(kp, resign_msg_part(tx)) + resign_msg_part(tx))
            } else {
                None
            }
        },
        None => None,
    }
}

/// Re-signs a pre-built transaction: strips the existing signature section,
/// signs the remaining message bytes — exactly once, over exactly those
/// bytes — and reassembles the transaction with that one signature.
#[verifier::loop_isolation(false)]
pub fn resign_transaction(tx: &Vec<u8>, kp: &Keypair) -> (r: Result<Vec<u8>, PipelineError>)
    requires
        kp.wf(),
    ensures
        r matches Ok(out) ==> resign_spec(tx@, kp.bytes@) == Some(out@) && sig_verifies(
            sig_of(kp.bytes@, resign_msg_part(tx@)),
            kp.bytes@.subrange(32, 64),
            resign_msg_part(tx@),
        ),
        r matches Err(e) ==> (e == PipelineError::Decode(DecodeError::InvalidEncoding)
            && resign_spec(tx@, kp.bytes@) is None) || (e == PipelineError::Sign(
            SignError::InvalidKeypair,
        ) && !kp_usable(kp.bytes@)),
        (resign_spec(tx@, kp.bytes@) is Some && kp_usable(kp.bytes@)) ==> r is Ok,
{
    let (nsig, p) = match read_compact(tx, 0) {
        Some(pair) => pair,
        None => {
            return Err(PipelineError::Decode(DecodeError::InvalidEncoding));
        },
    };
    let skip = 64 * (nsig as usize);
    if skip > tx.len() - p {
        return Err(PipelineError::Decode(DecodeError::InvalidEncoding));
    }
    let start = p + skip;
    let mut msgpart: Vec<u8> = Vec::new();
    let n = tx.len();
    let mut i: usize = start;
    while i < n
        invariant
            start <= i <= n,
            n == tx@.len(),
            msgpart@ == tx@.subrange(start as int, i as int),
        decreases n - i,
    {
        msgpart.push(tx[i]);
        proof {
            assert(msgpart@ =~= tx@.subrange(start as int, i as int + 1));
        }
        i += 1;
    }
    proof {
        assert(msgpart@ == resign_msg_part(tx@));
    }
    let sig = match crate::sign::ed25519_sign(&kp.bytes, &msgpart) {
        Some(s) => s,
        None => {
            return Err(PipelineError::Sign(SignError::InvalidKeypair));
        },
    };
    let mut out: Vec<u8> = Vec::new();
    push_compact_u16(&mut out, 1);
    push_bytes(&mut out, &sig);
    push_bytes(&mut out, &msgpart);
    proof {
        assert(out@ =~= compact_u16(1) + sig_of(kp.bytes@, msgpart@) + msgpart@);
    }
    Ok(out)
}

/// Re-signs a pre-built transaction delivered in the transport text
/// encoding, and returns the signed transaction in the same encoding.
pub fn resign_prebuilt(tx_b64: &str, kp: &Keypair) -> (r: Result<String, PipelineError>)
    requires
        kp.wf(),
    ensures
        r matches Ok(s) ==> b64_ok(tx_b64@) && (resign_spec(b64_decoded(tx_b64@), kp.bytes@)
            matches Some(outb) && s@ == b64_of(outb)) && sig_verifies(
            sig_of(kp.bytes@, resign_msg_part(b64_decoded(tx_b64@))),
            kp.bytes@.subrange(32, 64),
            resign_msg_part(b64_decoded(tx_b64@)),
        ),
        r matches Err(e) ==> match e {
            PipelineError::Decode(d) => d == DecodeError::InvalidEncoding && (!b64_ok(tx_b64@)
                || resign_spec(b64_decoded(tx_b64@), kp.bytes@) is None),
            PipelineError::Sign(sg) => sg == SignError::InvalidKeypair && !kp_usable(kp.bytes@),
            PipelineError::Compile(_) => false,
        },
        (b64_ok(tx_b64@) && resign_spec(b64_decoded(tx_b64@), kp.bytes@) is Some && kp_usable(
            kp.bytes@,
        )) ==> r is Ok,
{
    let raw = match b64_decode(tx_b64) {
        Some(v) => v,
        None => {
            return Err(PipelineError::Decode(DecodeError::InvalidEncoding));
        },
    };
    let signed = match resign_transaction(&raw, kp) {
        Ok(v) => v,
        Err(e) => {
            return Err(e);
        },
    };
    Ok(b64_encode(&signed))
}

} // verus!
