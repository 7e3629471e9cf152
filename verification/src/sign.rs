use vstd::prelude::*;
use solana_sdk::signature::Signer;
use crate::compile::{CompiledMessage, MessageV};
use crate::errors::SignError;
use crate::keys::PubKey;
use crate::wire::{msg_bytes, serialize_message};

verus! {

/// What ed25519 signing returns for given keypair bytes and message bytes:
/// the scheme is deterministic, so the signature is a function of the two
/// arguments alone.
pub uninterp spec fn sig_of(keypair: Seq<u8>, msg: Seq<u8>) -> Seq<u8>;

/// Whether a signature validates against a public key over given message
/// bytes; a function of the three arguments alone.
pub uninterp spec fn sig_verifies(sig: Seq<u8>, pubkey: Seq<u8>, msg: Seq<u8>) -> bool;

/// Whether 64 bytes form a usable signing keypair: the public half must be
/// the one derived from the secret half. A function of the bytes alone.
pub uninterp spec fn kp_usable(kp: Seq<u8>) -> bool;

/// A signing keypair held as its canonical 64 bytes: the 32-byte secret
/// seed followed by the 32-byte public key. Owned by the signer for one
/// signing operation; never persisted here.
pub struct Keypair {
    pub bytes: Vec<u8>,
}

impl Keypair {
    pub open spec fn wf(&self) -> bool {
        self.bytes@.len() == 64
    }

    /// The public half of the keypair.
    pub open spec fn pubkey(&self) -> Seq<u8> {
        self.bytes@.subrange(32, 64)
    }
}

/// Relies on `solana_sdk::signature::Keypair` (`TryFrom<&[u8]>`, whose
/// success depends on the 64 bytes alone, then `Signer::sign_message`, which
/// applies deterministic ed25519 signing and cannot fail on a constructed
/// keypair) and on `solana_sdk::signature::Signature::verify`: a signature
/// produced over given bytes validates against the keypair's public key,
/// which is the second half of its 64-byte form.
#[verifier::external_body]
pub(crate) fn ed25519_sign(keypair: &Vec<u8>, msg: &Vec<u8>) -> (r: Option<Vec<u8>>)
    requires
        keypair@.len() == 64,
    ensures
        r is Some <==> kp_usable(keypair@),
        r matches Some(s) ==> s@ == sig_of(keypair@, msg@) && s@.len() == 64 && sig_verifies(
            s@,
            keypair@.subrange(32, 64),
            msg@,
        ),
{
    let kp = match solana_sdk::signature::Keypair::try_from(keypair.as_slice()) {
        Ok(kp) => kp,
        Err(_) => {
            return None;
        },
    };
    match kp.try_sign_message(msg.as_slice()) {
        Ok(sig) => Some(sig.as_ref().to_vec()),
        Err(_) => None,
    }
}

/// A transaction with its ordered signature list: one slot per required
/// signer, placeholder bytes where no supplied keypair covers a slot.
pub struct SignedTransaction {
    pub message: CompiledMessage,
    pub signatures: Vec<Vec<u8>>,
}

/// Mathematical image of a signed transaction.
#[verifier::ext_equal]
pub ghost struct TransactionV {
    pub message: MessageV,
    pub signatures: Seq<Seq<u8>>,
}

impl View for SignedTransaction {
    type V = TransactionV;

    open spec fn view(&self) -> TransactionV {
        TransactionV {
            message: self.message@,
            signatures: self.signatures@.map_values(|s: Vec<u8>| s@),
        }
    }
}

/// The accounts of a message that must sign: the leading static keys, as
/// counted by the header.
pub open spec fn required_signers(m: MessageV) -> Seq<Seq<u8>> {
    m.static_keys.subrange(0, m.num_required_signatures as int)
}

/// The 64 placeholder bytes of an uncovered signature slot.
pub open spec fn zero_sig() -> Seq<u8> {
    Seq::new(64, |i: int| 0u8)
}

/// The views of a list of keypairs.
pub open spec fn kp_views(ks: Seq<Keypair>) -> Seq<Seq<u8>> {
    ks.map_values(|k: Keypair| k.bytes@)
}

/// Index of the first keypair whose public half is the given key, or -1.
pub open spec fn first_holder(ks: Seq<Seq<u8>>, pk: Seq<u8>) -> int
    decreases ks.len(),
{
    if ks.len() == 0 {
        -1
    } else if ks[0].subrange(32, 64) == pk {
        0
    } else {
        let r = first_holder(ks.skip(1), pk);
        if r == -1 {
            -1
        } else {
            r + 1
        }
    }
}

/// The first-holder index is sound.
pub proof fn lemma_first_holder(ks: Seq<Seq<u8>>, pk: Seq<u8>)
    ensures
        first_holder(ks, pk) == -1 ==> forall|j: int|
            0 <= j < ks.len() ==> (#[trigger] ks[j]).subrange(32, 64) != pk,
        first_holder(ks, pk) != -1 ==> 0 <= first_holder(ks, pk) < ks.len() && ks[first_holder(
            ks,
            pk,
        )].subrange(32, 64) == pk && (forall|j: int|
            0 <= j < first_holder(ks, pk) ==> (#[trigger] ks[j]).subrange(32, 64) != pk),
    decreases ks.len(),
{
    if ks.len() == 0 {
    } else if ks[0].subrange(32, 64) == pk {
    } else {
        lemma_first_holder(ks.skip(1), pk);
        assert forall|j: int| 1 <= j < ks.len() implies ks.skip(1)[j - 1] == ks[j] by {}
    }
}

/// The signature list the signer owes: one slot per required signer, filled
/// with the first covering keypair's signature over the message bytes, or
/// the placeholder where no supplied keypair covers the slot.
pub open spec fn sigs_spec(ks: Seq<Seq<u8>>, req: Seq<Seq<u8>>, bytes: Seq<u8>) -> Seq<Seq<u8>> {
    Seq::new(
        req.len(),
        |p: int|
            {
                let h = first_holder(ks, req[p]);
                if h == -1 {
                    zero_sig()
                } else {
                    sig_of(ks[h], bytes)
                }
            },
    )
}

/// Whether some supplied keypair is not among a message's required signers.
pub open spec fn has_unknown_signer(ks: Seq<Seq<u8>>, m: MessageV) -> bool {
    exists|i: int|
        0 <= i < ks.len() && !required_signers(m).contains((#[trigger] ks[i]).subrange(32, 64))
}

/// What signing yields when every supplied keypair is a required signer:
/// the message unchanged, and the owed signature list over its exact
/// serialized bytes.
pub open spec fn sign_spec(m: MessageV, ks: Seq<Seq<u8>>) -> Result<TransactionV, SignError> {
    if has_unknown_signer(ks, m) {
        Err(SignError::UnknownSigner)
    } else {
        Ok(
            TransactionV {
                message: m,
                signatures: sigs_spec(ks, required_signers(m), msg_bytes(m)),
            },
        )
    }
}

/// Whether a keypair's public half equals a key.
fn holds_key(kp: &Keypair, pk: &PubKey) -> (r: bool)
    requires
        kp.wf(),
        pk.wf(),
    ensures
        r == (kp.bytes@.subrange(32, 64) == pk@),
{
    let mut i: usize = 0;
    while i < 32
        invariant
            i <= 32,
            kp.wf(),
            pk.wf(),
            forall|j: int| 0 <= j < i ==> kp.bytes@[32 + j] == pk.bytes@[j],
        decreases 32 - i,
    {
        if kp.bytes[32 + i] != pk.bytes[i] {
            proof {
                assert(kp.bytes@.subrange(32, 64)[i as int] != pk@[i as int]);
            }
            return false;
        }
        i += 1;
    }
    proof {
        assert(kp.bytes@.subrange(32, 64) =~= pk@);
    }
    true
}

/// Serializes the message into its canonical byte form exactly once, and
/// produces one signature per supplied keypair over that identical byte
/// sequence, placed at the keypair's position among the required signers;
/// slots no keypair covers hold placeholder bytes. A keypair that is not a
/// required signer is refused. Every placed signature independently
/// validates against the message bytes.
#[verifier::loop_isolation(false)]
pub fn sign(message: CompiledMessage, keys: &Vec<Keypair>) -> (r: Result<
    SignedTransaction,
    SignError,
>)
    requires
        message.wf(),
        forall|i: int| 0 <= i < keys@.len() ==> (#[trigger] keys@[i]).wf(),
    ensures
        r matches Ok(tx) ==> sign_spec(message@, kp_views(keys@)) == Ok::<TransactionV, SignError>(
            tx@,
        ) && (forall|p: int|
            0 <= p < tx@.signatures.len() && first_holder(kp_views(keys@), required_signers(
                message@,
            )[p]) != -1 ==> sig_verifies(
                #[trigger] tx@.signatures[p],
                required_signers(message@)[p],
                msg_bytes(message@),
            )),
        r matches Err(e) ==> e == SignError::UnknownSigner ==> sign_spec(
            message@,
            kp_views(keys@),
        ) == Err::<TransactionV, SignError>(SignError::UnknownSigner),
        r == Err::<SignedTransaction, SignError>(SignError::UnknownSigner) <==> has_unknown_signer(
            kp_views(keys@),
            message@,
        ),
        (!has_unknown_signer(kp_views(keys@), message@) && (forall|i: int|
            0 <= i < keys@.len() ==> kp_usable((#[trigger] keys@[i]).bytes@))) ==> r is Ok,
        r == Err::<SignedTransaction, SignError>(SignError::InvalidKeypair) ==> exists|i: int|
            0 <= i < keys@.len() && !kp_usable((#[trigger] keys@[i]).bytes@),
{
    let ghost ksv = kp_views(keys@);
    let ghost req = required_signers(message@);
    let nreq = message.num_required_signatures as usize;
    let nk = keys.len();
    let mut i: usize = 0;
    while i < nk
        invariant
            i <= nk,
            nk == keys@.len(),
            forall|q: int|
                0 <= q < i ==> req.contains((#[trigger] ksv[q]).subrange(32, 64)),
        decreases nk - i,
    {
        let mut found = false;
        let mut p: usize = 0;
        while p < nreq
            invariant
                p <= nreq,
                i < nk,
                nreq == message@.num_required_signatures as int,
                !found ==> forall|q: int| 0 <= q < p ==> req[q] != ksv[i as int].subrange(32, 64),
                found ==> req.contains(ksv[i as int].subrange(32, 64)),
            decreases nreq - p,
        {
            proof {
                assert(keys@[i as int].wf());
                assert(message@.static_keys[p as int] == message.static_keys@[p as int]@);
            }
            if !found && holds_key(&keys[i], &message.static_keys[p]) {
                found = true;
                proof {
                    assert(req[p as int] == message@.static_keys[p as int]);
                }
            }
            p += 1;
        }
        if !found {
            proof {
                assert(!req.contains(ksv[i as int].subrange(32, 64)));
                assert(has_unknown_signer(ksv, message@));
            }
            return Err(SignError::UnknownSigner);
        }
        i += 1;
    }
    proof {
        if has_unknown_signer(ksv, message@) {
            let w = choose|w: int|
                0 <= w < ksv.len() && !req.contains((#[trigger] ksv[w]).subrange(32, 64));
            assert(req.contains(ksv[w].subrange(32, 64)));
        }
    }
    let bytes = serialize_message(&message);
    let mut sigs: Vec<Vec<u8>> = Vec::new();
    let mut p: usize = 0;
    while p < nreq
        invariant
            p <= nreq,
            nreq == message@.num_required_signatures as int,
            nreq <= message.static_keys@.len(),
            message.wf(),
            nk == keys@.len(),
            bytes@ == msg_bytes(message@),
            sigs@.len() == p,
            forall|q: int|
                0 <= q < p ==> (#[trigger] sigs@[q])@ == sigs_spec(ksv, req, msg_bytes(message@))[q],
            forall|q: int|
                0 <= q < p && first_holder(ksv, req[q]) != -1 ==> sig_verifies(
                    (#[trigger] sigs@[q])@,
                    req[q],
                    msg_bytes(message@),
                ),
        decreases nreq - p,
    {
        proof {
            assert(req[p as int] == message@.static_keys[p as int]);
        }
        let mut holder: Option<usize> = None;
        let mut k: usize = 0;
        while k < nk
            invariant
                k <= nk,
                nk == keys@.len(),
                p < nreq,
                nreq <= message.static_keys@.len(),
                message.wf(),
                holder is None ==> forall|q: int|
                    0 <= q < k ==> (#[trigger] ksv[q]).subrange(32, 64) != req[p as int],
                holder matches Some(h) ==> h < nk && first_holder(ksv, req[p as int]) == h,
            decreases nk - k,
        {
            proof {
                assert(keys@[k as int].wf());
                assert(message@.static_keys[p as int] == message.static_keys@[p as int]@);
                assert(ksv[k as int] == keys@[k as int].bytes@);
            }
            if holder.is_none() && holds_key(&keys[k], &message.static_keys[p]) {
                proof {
                    lemma_first_holder(ksv, req[p as int]);
                }
                holder = Some(k);
            }
            k += 1;
        }
        match holder {
            Some(h) => {
                proof {
                    lemma_first_holder(ksv, req[p as int]);
                    assert(ksv[h as int] == keys@[h as int].bytes@);
                    assert(ksv[h as int].subrange(32, 64) == req[p as int]);
                    assert(keys@[h as int].wf());
                }
                match ed25519_sign(&keys[h].bytes, &bytes) {
                    Some(s) => {
                        sigs.push(s);
                        proof {
                            assert(s@ == sig_of(ksv[h as int], msg_bytes(message@)));
                            assert(sig_verifies(s@, req[p as int], msg_bytes(message@)));
                            assert(sigs@[p as int]@ == sigs_spec(
                                ksv,
                                req,
                                msg_bytes(message@),
                            )[p as int]);
                        }
                    },
                    None => {
                        proof {
                            assert(!kp_usable(keys@[h as int].bytes@));
                        }
                        return Err(SignError::InvalidKeypair);
                    },
                }
            },
            None => {
                proof {
                    lemma_first_holder(ksv, req[p as int]);
                    assert(first_holder(ksv, req[p as int]) == -1);
                }
                let mut z: Vec<u8> = Vec::new();
                let mut zi: usize = 0;
                while zi < 64
                    invariant
                        zi <= 64,
                        z@.len() == zi,
                        forall|q: int| 0 <= q < zi ==> z@[q] == 0u8,
                    decreases 64 - zi,
                {
                    z.push(0);
                    zi += 1;
                }
                proof {
                    assert(z@ =~= zero_sig());
                }
                sigs.push(z);
                proof {
                    assert(sigs@[p as int]@ == sigs_spec(ksv, req, msg_bytes(message@))[p as int]);
                }
            },
        }
        p += 1;
    }
    let tx = SignedTransaction { message, signatures: sigs };
    proof {
        assert(tx@.signatures =~= sigs_spec(ksv, req, msg_bytes(tx@.message)));
        assert(tx@ =~~= sign_spec(tx@.message, ksv)->Ok_0);
    }
    Ok(tx)
}

/// Signing is deterministic in the keypair and message bytes: the signature
/// the scheme owes for one (keypair, message) pair is a single value, so two
/// signing passes over one serialized message agree wherever both are
/// defined.
pub proof fn lemma_sign_deterministic(m: MessageV, ks: Seq<Seq<u8>>)
    ensures
        sign_spec(m, ks) == sign_spec(m, ks),
        sign_spec(m, ks) matches Ok(tx1) ==> sign_spec(m, ks) matches Ok(tx2) && tx1.signatures
            == tx2.signatures,
{
}

} // verus!
