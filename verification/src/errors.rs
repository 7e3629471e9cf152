use vstd::prelude::*;

verus! {

/// Failure of decoding one instruction descriptor, or of assembling the
/// ordered descriptor bundle into an executable instruction list.
#[derive(Debug, Clone, PartialEq, Eq)]
pub enum DecodeError {
    /// A program identifier or account address string is not a well-formed
    /// public key.
    InvalidAddress,
    /// The opaque payload is not valid transport text encoding.
    InvalidEncoding,
    /// The descriptor is a pre-compiled legacy blob, which this pipeline
    /// refuses to execute because per-account access flags cannot be
    /// re-derived from it safely.
    UnsupportedFormat,
    /// The mandatory swap instruction is absent, or the concatenated
    /// instruction list came out empty.
    EmptyInstructionSet,
}

impl DecodeError {
    /// The exact wording each failure carries, with the remedy for the
    /// legacy-format refusal.
    pub open spec fn describe_text(&self) -> Seq<char> {
        match self {
            DecodeError::InvalidAddress => "malformed public key string"@,
            DecodeError::InvalidEncoding => "payload is not valid base64 text"@,
            DecodeError::UnsupportedFormat => "legacy pre-compiled instruction returned; request the structured representation instead"@,
            DecodeError::EmptyInstructionSet => "no executable instruction was produced"@,
        }
    }

    /// A human-readable account of the failure, with the remedy for the
    /// legacy-format refusal.
    pub fn describe(&self) -> (r: String)
        ensures
            r@ == self.describe_text(),
    {
        match self {
            DecodeError::InvalidAddress => "malformed public key string".to_string(),
            DecodeError::InvalidEncoding => "payload is not valid base64 text".to_string(),
            DecodeError::UnsupportedFormat => {
                "legacy pre-compiled instruction returned; request the structured representation instead".to_string()
            },
            DecodeError::EmptyInstructionSet => "no executable instruction was produced".to_string(),
        }
    }
}

/// Failure of compiling a versioned message.
#[derive(Debug, Clone, PartialEq, Eq)]
pub enum CompileError {
    /// The deduplicated account set exceeds the protocol addressing limit.
    TooManyAccounts,
    /// The fee payer is absent from the instruction account set it must
    /// implicitly sign.
    MissingPayer,
}

/// Failure of attaching signatures to a compiled message.
#[derive(Debug, Clone, PartialEq, Eq)]
pub enum SignError {
    /// A supplied keypair is not among the message's required signers.
    UnknownSigner,
    /// A supplied keypair's byte material does not form a usable signing key.
    InvalidKeypair,
}

/// Failure of turning a create-order response into an executable order.
#[derive(Debug, Clone, PartialEq, Eq)]
pub enum OrderError {
    /// The response carries no usable pre-built transaction.
    MissingTransaction,
}

/// Failure of one whole assembly run, tagged with the stage that failed;
/// every stage fails fast and no later stage runs.
#[derive(Debug, Clone, PartialEq, Eq)]
pub enum PipelineError {
    Decode(DecodeError),
    Compile(CompileError),
    Sign(SignError),
}

/// Failure of submitting a signed transaction to the ledger node.
#[derive(Debug, Clone, PartialEq, Eq)]
pub enum SubmitError {
    /// The node rejected the transaction: bad signature, stale freshness
    /// token, or failed simulation.
    Rejected,
    /// No confirmation arrived within the node's polling horizon.
    Timeout,
    /// The network failed before any node response was received.
    TransportError,
}

} // verus!
