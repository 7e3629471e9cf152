use vstd::prelude::*;
use crate::codec::{b64_decode, b64_decoded, b64_ok};
use crate::errors::DecodeError;
use crate::keys::PubKey;

verus! {

/// The four account access-mode tags an instruction can demand.
#[derive(Clone, Copy, Debug, PartialEq, Eq, Structural)]
pub enum AccessMode {
    SignerWritable,
    SignerReadonly,
    Writable,
    Readonly,
}

/// The access-mode tag a (signer, writable) flag pair maps to.
pub open spec fn mode_of(is_signer: bool, is_writable: bool) -> AccessMode {
    if is_signer && is_writable {
        AccessMode::SignerWritable
    } else if is_signer {
        AccessMode::SignerReadonly
    } else if is_writable {
        AccessMode::Writable
    } else {
        AccessMode::Readonly
    }
}

/// Whether an access mode demands a signature.
pub open spec fn mode_signs(m: AccessMode) -> bool {
    m == AccessMode::SignerWritable || m == AccessMode::SignerReadonly
}

/// Whether an access mode demands write access.
pub open spec fn mode_writes(m: AccessMode) -> bool {
    m == AccessMode::SignerWritable || m == AccessMode::Writable
}

/// One externally-supplied account reference: address text plus access flags.
/// Order among references is significant and preserved verbatim.
pub struct AccountRef {
    pub address: String,
    pub is_signer: bool,
    pub is_writable: bool,
}

/// One externally-supplied instruction description. `Structured` carries a
/// program identifier, ordered account references, and a text-encoded
/// payload. `LegacyEncoded` carries only an opaque pre-compiled blob and is
/// never executable here.
pub enum InstructionDescriptor {
    Structured { program_id: String, accounts: Vec<AccountRef>, data: String },
    LegacyEncoded { blob: String },
}

/// A decoded account reference: 32-byte key plus access-mode tag.
pub struct AccountAccess {
    pub key: PubKey,
    pub mode: AccessMode,
}

/// Mathematical image of a decoded account reference.
pub ghost struct AccountAccessV {
    pub key: Seq<u8>,
    pub mode: AccessMode,
}

impl View for AccountAccess {
    type V = AccountAccessV;

    open spec fn view(&self) -> AccountAccessV {
        AccountAccessV { key: self.key@, mode: self.mode }
    }
}

/// A canonical executable instruction: program key, ordered decoded account
/// references, and raw payload bytes.
pub struct ExecutableInstruction {
    pub program_id: PubKey,
    pub accounts: Vec<AccountAccess>,
    pub data: Vec<u8>,
}

/// Mathematical image of an executable instruction.
pub ghost struct InstructionV {
    pub program_id: Seq<u8>,
    pub accounts: Seq<AccountAccessV>,
    pub data: Seq<u8>,
}

impl View for ExecutableInstruction {
    type V = InstructionV;

    open spec fn view(&self) -> InstructionV {
        InstructionV {
            program_id: self.program_id@,
            accounts: self.accounts@.map_values(|a: AccountAccess| a@),
            data: self.data@,
        }
    }
}

/// Well-formedness of an instruction image: every key is 32 bytes.
pub open spec fn instr_wf(v: InstructionV) -> bool {
    &&& v.program_id.len() == 32
    &&& forall|i: int| 0 <= i < v.accounts.len() ==> (#[trigger] v.accounts[i]).key.len() == 32
}

impl ExecutableInstruction {
    pub open spec fn wf(&self) -> bool {
        instr_wf(self@)
    }
}

/// Whether every account reference in a list carries a well-formed address.
pub open spec fn accounts_ok(accs: Seq<AccountRef>) -> bool {
    forall|i: int| 0 <= i < accs.len() ==> PubKey::is_pubkey_str((#[trigger] accs[i]).address@)
}

/// The decoded image of a list of well-formed account references, in input
/// order.
pub open spec fn decoded_accounts(accs: Seq<AccountRef>) -> Seq<AccountAccessV> {
    accs.map_values(
        |a: AccountRef|
            AccountAccessV {
                key: PubKey::pk_bytes(a.address@),
                mode: mode_of(a.is_signer, a.is_writable),
            },
    )
}

/// What decoding one descriptor yields: the structured variant decodes field
/// by field, in order, and the legacy variant is always refused.
pub open spec fn decode_spec(d: InstructionDescriptor) -> Result<InstructionV, DecodeError> {
    match d {
        InstructionDescriptor::Structured { program_id, accounts, data } => {
            if !PubKey::is_pubkey_str(program_id@) || !accounts_ok(accounts@) {
                Err(DecodeError::InvalidAddress)
            } else if !b64_ok(data@) {
                Err(DecodeError::InvalidEncoding)
            } else {
                Ok(
                    InstructionV {
                        program_id: PubKey::pk_bytes(program_id@),
                        accounts: decoded_accounts(accounts@),
                        data: b64_decoded(data@),
                    },
                )
            }
        },
        InstructionDescriptor::LegacyEncoded { .. } => Err(DecodeError::UnsupportedFormat),
    }
}

/// A pre-compiled legacy descriptor is always refused with the format error,
/// never skipped and never turned into an empty instruction.
pub proof fn lemma_legacy_always_refused(d: InstructionDescriptor)
    requires
        d is LegacyEncoded,
    ensures
        decode_spec(d) == Err::<InstructionV, DecodeError>(DecodeError::UnsupportedFormat),
{
}

/// Converts one externally-supplied instruction description into a canonical
/// executable instruction, preserving account order verbatim; pure in its
/// input.
#[verifier::loop_isolation(false)]
pub fn decode(d: &InstructionDescriptor) -> (r: Result<ExecutableInstruction, DecodeError>)
    ensures
        r matches Ok(ins) ==> decode_spec(*d) == Ok::<InstructionV, DecodeError>(ins@) && ins.wf(),
        r matches Err(e) ==> decode_spec(*d) == Err::<InstructionV, DecodeError>(e),
{
    match d {
        InstructionDescriptor::Structured { program_id, accounts, data } => {
            let pid = match PubKey::parse(program_id.as_str()) {
                Ok(pk) => pk,
                Err(e) => {
                    return Err(e);
                },
            };
            let mut out: Vec<AccountAccess> = Vec::new();
            let n = accounts.len();
            let mut i: usize = 0;
            while i < n
                invariant
                    n == accounts@.len(),
                    i <= n,
                    out@.len() == i,
                    forall|j: int|
                        0 <= j < i ==> PubKey::is_pubkey_str(
                            (#[trigger] accounts@[j]).address@,
                        ),
                    forall|j: int|
                        0 <= j < i ==> (#[trigger] out@[j])@ == (AccountAccessV {
                            key: PubKey::pk_bytes(accounts@[j].address@),
                            mode: mode_of(accounts@[j].is_signer, accounts@[j].is_writable),
                        }),
                decreases n - i,
            {
                let acc = &accounts[i];
                let key = match PubKey::parse(acc.address.as_str()) {
                    Ok(pk) => pk,
                    Err(e) => {
                        proof {
                            assert(!PubKey::is_pubkey_str(accounts@[i as int].address@));
                            assert(!accounts_ok(accounts@));
                            assert(e == DecodeError::InvalidAddress);
                            assert(decode_spec(*d) == Err::<InstructionV, DecodeError>(
                                DecodeError::InvalidAddress,
                            ));
                        }
                        return Err(e);
                    },
                };
                let mode = if acc.is_signer && acc.is_writable {
                    AccessMode::SignerWritable
                } else if acc.is_signer {
                    AccessMode::SignerReadonly
                } else if acc.is_writable {
                    AccessMode::Writable
                } else {
                    AccessMode::Readonly
                };
                proof {
                    assert(mode == mode_of(acc.is_signer, acc.is_writable));
                }
                out.push(AccountAccess { key, mode });
                proof {
                    assert(out@[i as int]@ == AccountAccessV {
                        key: PubKey::pk_bytes(accounts@[i as int].address@),
                        mode: mode_of(
                            accounts@[i as int].is_signer,
                            accounts@[i as int].is_writable,
                        ),
                    });
                }
                i += 1;
            }
            proof {
                assert(accounts_ok(accounts@));
                assert(out@.map_values(|a: AccountAccess| a@) =~= decoded_accounts(accounts@));
            }
            let bytes = match b64_decode(data.as_str()) {
                Some(v) => v,
                None => {
                    return Err(DecodeError::InvalidEncoding);
                },
            };
            Ok(ExecutableInstruction { program_id: pid, accounts: out, data: bytes })
        },
        InstructionDescriptor::LegacyEncoded { .. } => Err(DecodeError::UnsupportedFormat),
    }
}

/// The ordered sections of one trade-execution response: an optional
/// ledger-bookkeeping instruction, optional fee/compute-budget instructions,
/// optional setup instructions, the mandatory swap instruction, and an
/// optional cleanup instruction, concatenated in that fixed order.
pub struct DescriptorSet {
    pub token_ledger: Option<InstructionDescriptor>,
    pub compute_budget: Vec<InstructionDescriptor>,
    pub setup: Vec<InstructionDescriptor>,
    pub swap: Option<InstructionDescriptor>,
    pub cleanup: Option<InstructionDescriptor>,
}

/// The images of a list of decoded instructions, in order.
pub open spec fn instr_views(v: Seq<ExecutableInstruction>) -> Seq<InstructionV> {
    v.map_values(|x: ExecutableInstruction| x@)
}

/// What decoding an optional descriptor yields: nothing when absent, a
/// one-element list when present and well-formed.
pub open spec fn decode_opt_spec(d: Option<InstructionDescriptor>) -> Result<
    Seq<InstructionV>,
    DecodeError,
> {
    match d {
        Some(x) => match decode_spec(x) {
            Ok(v) => Ok(seq![v]),
            Err(e) => Err(e),
        },
        None => Ok(Seq::<InstructionV>::empty()),
    }
}

/// What decoding an ordered descriptor list yields: each element decoded in
/// order, stopping at the first failure.
pub open spec fn decode_list_spec(ds: Seq<InstructionDescriptor>) -> Result<
    Seq<InstructionV>,
    DecodeError,
>
    decreases ds.len(),
{
    if ds.len() == 0 {
        Ok(Seq::<InstructionV>::empty())
    } else {
        match decode_spec(ds[0]) {
            Ok(v) => match decode_list_spec(ds.skip(1)) {
                Ok(rest) => Ok(seq![v] + rest),
                Err(e) => Err(e),
            },
            Err(e) => Err(e),
        }
    }
}

/// What decoding a whole descriptor bundle yields: the five sections decoded
/// independently, in their fixed order, stopping at the first failure; a
/// missing swap instruction fails with the empty-set error.
pub open spec fn bundle_spec(b: DescriptorSet) -> Result<Seq<InstructionV>, DecodeError> {
    match decode_opt_spec(b.token_ledger) {
        Err(e) => Err(e),
        Ok(s1) => match decode_list_spec(b.compute_budget@) {
            Err(e) => Err(e),
            Ok(s2) => match decode_list_spec(b.setup@) {
                Err(e) => Err(e),
                Ok(s3) => match b.swap {
                    None => Err(DecodeError::EmptyInstructionSet),
                    Some(sw) => match decode_spec(sw) {
                        Err(e) => Err(e),
                        Ok(v4) => match decode_opt_spec(b.cleanup) {
                            Err(e) => Err(e),
                            Ok(s5) => Ok(s1 + s2 + s3 + seq![v4] + s5),
                        },
                    },
                },
            },
        },
    }
}

/// A bundle holding no descriptors at all is refused with the empty-set
/// error: a transaction with zero instructions can never reach the compiler.
pub proof fn lemma_empty_bundle_rejected(b: DescriptorSet)
    requires
        b.token_ledger is None,
        b.compute_budget@.len() == 0,
        b.setup@.len() == 0,
        b.swap is None,
        b.cleanup is None,
    ensures
        bundle_spec(b) == Err::<Seq<InstructionV>, DecodeError>(DecodeError::EmptyInstructionSet),
{
}

/// No bundle that lacks the mandatory swap instruction ever decodes
/// successfully, whatever the other sections hold.
pub proof fn lemma_missing_swap_rejected(b: DescriptorSet)
    requires
        b.swap is None,
    ensures
        !(bundle_spec(b) is Ok),
{
}

/// Decodes one ordered section of descriptors, preserving order and stopping
/// at the first failure.
#[verifier::loop_isolation(false)]
pub fn decode_section(ds: &Vec<InstructionDescriptor>) -> (r: Result<
    Vec<ExecutableInstruction>,
    DecodeError,
>)
    ensures
        r matches Ok(v) ==> decode_list_spec(ds@) == Ok::<Seq<InstructionV>, DecodeError>(
            instr_views(v@),
        ) && v@.len() == ds@.len() && (forall|i: int| 0 <= i < v@.len() ==> (#[trigger] v@[i]).wf()),
        r matches Err(e) ==> decode_list_spec(ds@) == Err::<Seq<InstructionV>, DecodeError>(e),
{
    let mut out: Vec<ExecutableInstruction> = Vec::new();
    let n = ds.len();
    let mut i: usize = 0;
    proof {
        assert(ds@.skip(0) =~= ds@);
        assert(instr_views(out@) =~= Seq::<InstructionV>::empty());
        if decode_list_spec(ds@) is Ok {
            let whole = decode_list_spec(ds@)->Ok_0;
            assert(instr_views(out@) + whole =~= whole);
        }
    }
    while i < n
        invariant
            i <= n,
            out@.len() == i,
            forall|j: int| 0 <= j < out@.len() ==> (#[trigger] out@[j]).wf(),
            decode_list_spec(ds@) == (match decode_list_spec(ds@.skip(i as int)) {
                Ok(rest) => Ok::<Seq<InstructionV>, DecodeError>(instr_views(out@) + rest),
                Err(e) => Err::<Seq<InstructionV>, DecodeError>(e),
            }),
        decreases n - i,
    {
        proof {
            assert(ds@.skip(i as int).len() > 0);
            assert(ds@.skip(i as int)[0] == ds@[i as int]);
            assert(ds@.skip(i as int).skip(1) =~= ds@.skip(i as int + 1));
        }
        match decode(&ds[i]) {
            Ok(ins) => {
                let ghost old_out = out@;
                out.push(ins);
                proof {
                    assert(instr_views(out@) =~= instr_views(old_out) + seq![ins@]);
                    if decode_list_spec(ds@.skip(i as int + 1)) is Ok {
                        let rest = decode_list_spec(ds@.skip(i as int + 1))->Ok_0;
                        assert((instr_views(old_out) + (seq![ins@] + rest)) =~= (instr_views(
                            out@,
                        ) + rest));
                    }
                }
            },
            Err(e) => {
                return Err(e);
            },
        }
        i += 1;
    }
    proof {
        assert(ds@.skip(n as int) =~= Seq::<InstructionDescriptor>::empty());
        assert(instr_views(out@) + Seq::<InstructionV>::empty() =~= instr_views(out@));
    }
    Ok(out)
}

/// Decodes an optional descriptor into at most one instruction.
pub fn decode_opt(d: &Option<InstructionDescriptor>) -> (r: Result<
    Vec<ExecutableInstruction>,
    DecodeError,
>)
    ensures
        r matches Ok(v) ==> decode_opt_spec(*d) == Ok::<Seq<InstructionV>, DecodeError>(
            instr_views(v@),
        ) && v@.len() <= 1 && (forall|i: int| 0 <= i < v@.len() ==> (#[trigger] v@[i]).wf()),
        r matches Err(e) ==> decode_opt_spec(*d) == Err::<Seq<InstructionV>, DecodeError>(e),
{
    let mut out: Vec<ExecutableInstruction> = Vec::new();
    match d {
        Some(x) => {
            match decode(x) {
                Ok(ins) => {
                    out.push(ins);
                    proof {
                        assert(instr_views(out@) =~= seq![ins@]);
                    }
                    Ok(out)
                },
                Err(e) => Err(e),
            }
        },
        None => {
            proof {
                assert(instr_views(out@) =~= Seq::<InstructionV>::empty());
            }
            Ok(out)
        },
    }
}

/// Applies the decoder, in order, to each section of a trade-execution
/// response and concatenates the results in the fixed section order; fails
/// with the empty-set error when the mandatory swap instruction is absent.
pub fn decode_bundle(b: &DescriptorSet) -> (r: Result<Vec<ExecutableInstruction>, DecodeError>)
    ensures
        r matches Ok(v) ==> bundle_spec(*b) == Ok::<Seq<InstructionV>, DecodeError>(
            instr_views(v@),
        ) && 1 <= v@.len() <= 3 + b.compute_budget@.len() + b.setup@.len() && (forall|i: int|
            0 <= i < v@.len() ==> (#[trigger] v@[i]).wf()),
        r matches Err(e) ==> bundle_spec(*b) == Err::<Seq<InstructionV>, DecodeError>(e),
{
    let mut out: Vec<ExecutableInstruction> = match decode_opt(&b.token_ledger) {
        Ok(v) => v,
        Err(e) => {
            return Err(e);
        },
    };
    let ghost s1 = instr_views(out@);
    let mut sec2 = match decode_section(&b.compute_budget) {
        Ok(v) => v,
        Err(e) => {
            return Err(e);
        },
    };
    let ghost s2 = instr_views(sec2@);
    out.append(&mut sec2);
    let mut sec3 = match decode_section(&b.setup) {
        Ok(v) => v,
        Err(e) => {
            return Err(e);
        },
    };
    let ghost s3 = instr_views(sec3@);
    out.append(&mut sec3);
    proof {
        assert(instr_views(out@) =~= s1 + s2 + s3);
    }
    let swap_ins = match &b.swap {
        Some(x) => match decode(x) {
            Ok(ins) => ins,
            Err(e) => {
                return Err(e);
            },
        },
        None => {
            return Err(DecodeError::EmptyInstructionSet);
        },
    };
    out.push(swap_ins);
    let ghost s4 = seq![swap_ins@];
    let mut sec5 = match decode_opt(&b.cleanup) {
        Ok(v) => v,
        Err(e) => {
            return Err(e);
        },
    };
    let ghost s5 = instr_views(sec5@);
    out.append(&mut sec5);
    proof {
        assert(instr_views(out@) =~= s1 + s2 + s3 + s4 + s5);
    }
    Ok(out)
}

} // verus!
