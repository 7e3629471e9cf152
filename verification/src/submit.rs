use vstd::prelude::*;
use crate::errors::SubmitError;
use crate::keys::clone_bytes;
use crate::sign::SignedTransaction;
use crate::wire::{flat, msg_bytes, push_bytes, push_compact_u16, serialize_message, tx_wire_bytes};

verus! {

/// What the ledger node reported for one submission attempt. The transport
/// layer produces a report; classification into the typed outcome happens
/// here.
pub enum NodeReport {
    /// The node confirmed the transaction at the given slot.
    Confirmed { slot: u64 },
    /// The node rejected the transaction outright: bad signature, failed
    /// simulation, or — when `stale_token` holds — an expired freshness
    /// token.
    Rejected { stale_token: bool },
    /// No confirmation arrived within the node's polling horizon.
    NoConfirmation,
    /// The network failed before any node response was received.
    TransportFailure,
}

/// Proof that the node confirmed a transaction: the transaction's first
/// signature and the slot the node named. Reported distinctly from every
/// not-submitted outcome.
pub struct ConfirmationReceipt {
    pub signature: Vec<u8>,
    pub slot: u64,
}

/// Serializes a signed transaction into the raw bytes sent to the node. A
/// transaction without at least one executable instruction is never
/// prepared for submission.
#[verifier::loop_isolation(false)]
pub fn prepare_submission(tx: &SignedTransaction) -> (r: Vec<u8>)
    requires
        tx.message.wf(),
        tx@.message.instructions.len() >= 1,
        tx.signatures@.len() <= 65535,
    ensures
        r@ == tx_wire_bytes(tx@.signatures, msg_bytes(tx@.message)),
{
    let mut out: Vec<u8> = Vec::new();
    push_compact_u16(&mut out, tx.signatures.len());
    let ghost pre = out@;
    let n = tx.signatures.len();
    let mut i: usize = 0;
    while i < n
        invariant
            i <= n,
            n == tx.signatures@.len(),
            out@ == pre + flat(tx@.signatures.subrange(0, i as int)),
        decreases n - i,
    {
        proof {
            let sub = tx@.signatures.subrange(0, i as int + 1);
            assert(sub.drop_last() =~= tx@.signatures.subrange(0, i as int));
            assert(sub.last() == tx@.signatures[i as int]);
        }
        push_bytes(&mut out, &tx.signatures[i]);
        proof {
            assert(out@ =~= pre + flat(tx@.signatures.subrange(0, i as int + 1)));
        }
        i += 1;
    }
    proof {
        assert(tx@.signatures.subrange(0, n as int) =~= tx@.signatures);
    }
    let mb = serialize_message(&tx.message);
    push_bytes(&mut out, &mb);
    proof {
        assert(out@ =~= tx_wire_bytes(tx@.signatures, msg_bytes(tx@.message)));
    }
    out
}

/// Classifies the node's report on one submission into the typed outcome: a
/// confirmation becomes a receipt carrying the transaction's first
/// signature; an outright rejection — a stale freshness token included — is
/// the rejection error, never the timeout; silence within the polling
/// horizon is the timeout; a network failure before any response is the
/// transport error.
pub fn classify_outcome(first_signature: &Vec<u8>, report: &NodeReport) -> (r: Result<
    ConfirmationReceipt,
    SubmitError,
>)
    ensures
        *report is Confirmed ==> (r matches Ok(c) && c.signature@ == first_signature@ && c.slot
            == report->Confirmed_slot),
        (*report matches NodeReport::Rejected { .. }) ==> r == Err::<
            ConfirmationReceipt,
            SubmitError,
        >(SubmitError::Rejected),
        *report is NoConfirmation ==> r == Err::<ConfirmationReceipt, SubmitError>(
            SubmitError::Timeout,
        ),
        *report is TransportFailure ==> r == Err::<ConfirmationReceipt, SubmitError>(
            SubmitError::TransportError,
        ),
{
    match report {
        NodeReport::Confirmed { slot } => Ok(
            ConfirmationReceipt { signature: clone_bytes(first_signature), slot: *slot },
        ),
        NodeReport::Rejected { .. } => Err(SubmitError::Rejected),
        NodeReport::NoConfirmation => Err(SubmitError::Timeout),
        NodeReport::TransportFailure => Err(SubmitError::TransportError),
    }
}

} // verus!
