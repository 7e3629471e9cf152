use vstd::prelude::*;
use crate::errors::DecodeError;

verus! {

/// What `bs58::decode(..).into_vec()` returns for a given string: `Some` of
/// the decoded bytes when the string is well-formed base58, `None` otherwise.
/// The result is a function of the input string alone.
pub uninterp spec fn b58_decoded(s: Seq<char>) -> Option<Seq<u8>>;

/// Relies on `bs58::decode(..).into_vec()`: base58 decoding is deterministic
/// in the input string.
#[verifier::external_body]
fn b58_decode(s: &str) -> (r: Option<Vec<u8>>)
    ensures
        r is Some <==> b58_decoded(s@) is Some,
        r matches Some(v) ==> b58_decoded(s@) == Some(v@),
{
    bs58::decode(s).into_vec().ok()
}

/// A 32-byte ledger public key held as plain bytes.
pub struct PubKey {
    pub bytes: Vec<u8>,
}

impl View for PubKey {
    type V = Seq<u8>;

    open spec fn view(&self) -> Seq<u8> {
        self.bytes@
    }
}

impl PubKey {
    /// A public key is exactly 32 bytes.
    pub open spec fn wf(&self) -> bool {
        self.bytes@.len() == 32
    }

    /// Whether a string is a well-formed text public key: base58 text that
    /// decodes to exactly 32 bytes.
    pub open spec fn is_pubkey_str(s: Seq<char>) -> bool {
        b58_decoded(s) matches Some(b) && b.len() == 32
    }

    /// The bytes a well-formed text public key stands for.
    pub open spec fn pk_bytes(s: Seq<char>) -> Seq<u8> {
        b58_decoded(s)->0
    }

    /// Parses an address string into a public key; rejects text that is not
    /// base58, or whose decoding is not exactly 32 bytes.
    pub fn parse(s: &str) -> (r: Result<PubKey, DecodeError>)
        ensures
            r is Ok <==> Self::is_pubkey_str(s@),
            r matches Ok(pk) ==> pk.wf() && pk@ == Self::pk_bytes(s@),
            r matches Err(e) ==> e == DecodeError::InvalidAddress,
    {
        match b58_decode(s) {
            Some(bytes) => {
                if bytes.len() == 32 {
                    Ok(PubKey { bytes })
                } else {
                    Err(DecodeError::InvalidAddress)
                }
            },
            None => Err(DecodeError::InvalidAddress),
        }
    }

    /// Byte-for-byte equality of two public keys.
    pub fn eq_key(&self, other: &PubKey) -> (r: bool)
        ensures
            r == (self@ == other@),
    {
        if self.bytes.len() != other.bytes.len() {
            assert(self@ != other@);
            return false;
        }
        let n = self.bytes.len();
        let mut i: usize = 0;
        while i < n
            invariant
                n == self.bytes@.len() == other.bytes@.len(),
                i <= n,
                forall|j: int| 0 <= j < i ==> self.bytes@[j] == other.bytes@[j],
            decreases n - i,
        {
            if self.bytes[i] != other.bytes[i] {
                assert(self@[i as int] != other@[i as int]);
                return false;
            }
            i += 1;
        }
        assert(self@ =~= other@);
        true
    }
}

impl Clone for PubKey {
    fn clone(&self) -> (r: Self)
        ensures
            r@ == self@,
    {
        PubKey { bytes: clone_bytes(&self.bytes) }
    }
}

/// An exact copy of a byte vector.
pub fn clone_bytes(v: &Vec<u8>) -> (r: Vec<u8>)
    ensures
        r@ == v@,
{
    let mut out: Vec<u8> = Vec::new();
    let n = v.len();
    let mut i: usize = 0;
    while i < n
        invariant
            n == v@.len(),
            i <= n,
            out@ == v@.subrange(0, i as int),
        decreases n - i,
    {
        out.push(v[i]);
        assert(out@ =~= v@.subrange(0, i as int + 1));
        i += 1;
    }
    assert(out@ =~= v@);
    out
}

/// A recent ledger checkpoint: the 32-byte freshness token a compiled
/// message carries to prove it was built recently.
pub struct Blockhash {
    pub bytes: Vec<u8>,
}

impl View for Blockhash {
    type V = Seq<u8>;

    open spec fn view(&self) -> Seq<u8> {
        self.bytes@
    }
}

impl Blockhash {
    /// A freshness token is exactly 32 bytes.
    pub open spec fn wf(&self) -> bool {
        self.bytes@.len() == 32
    }
}

} // verus!
