use vstd::prelude::*;
use crate::compile::{CompiledIxV, CompiledMessage, MessageV, TableLookupV};

verus! {

/// The one- to three-byte shortened length prefix of the wire format: seven
/// value bits per byte, least significant first, high bit set on every byte
/// but the last.
pub open spec fn compact_u16(n: nat) -> Seq<u8> {
    if n < 128 {
        seq![n as u8]
    } else if n < 16384 {
        seq![(n % 128 + 128) as u8, (n / 128) as u8]
    } else {
        seq![(n % 128 + 128) as u8, ((n / 128) % 128 + 128) as u8, (n / 16384) as u8]
    }
}

/// Appends the shortened length prefix of a count.
pub fn push_compact_u16(out: &mut Vec<u8>, n: usize)
    requires
        n <= 65535,
    ensures
        final(out)@ == old(out)@ + compact_u16(n as nat),
{
    if n < 128 {
        out.push(n as u8);
        proof {
            assert(out@ =~= old(out)@ + compact_u16(n as nat));
        }
    } else if n < 16384 {
        out.push((n % 128 + 128) as u8);
        out.push((n / 128) as u8);
        proof {
            assert(out@ =~= old(out)@ + compact_u16(n as nat));
        }
    } else {
        out.push((n % 128 + 128) as u8);
        out.push(((n / 128) % 128 + 128) as u8);
        out.push((n / 16384) as u8);
        proof {
            assert(out@ =~= old(out)@ + compact_u16(n as nat));
        }
    }
}

/// The concatenation of a list of byte strings, in order.
pub open spec fn flat(bss: Seq<Seq<u8>>) -> Seq<u8>
    decreases bss.len(),
{
    if bss.len() == 0 {
        Seq::<u8>::empty()
    } else {
        flat(bss.drop_last()) + bss.last()
    }
}

/// The wire bytes of one compiled instruction: program index, then the
/// length-prefixed account indexes, then the length-prefixed payload.
pub open spec fn ix_bytes(ix: CompiledIxV) -> Seq<u8> {
    seq![ix.program_id_index] + compact_u16(ix.account_indexes.len()) + ix.account_indexes
        + compact_u16(ix.data.len()) + ix.data
}

/// The wire bytes of a list of compiled instructions, in order.
pub open spec fn ixs_bytes(ixs: Seq<CompiledIxV>) -> Seq<u8>
    decreases ixs.len(),
{
    if ixs.len() == 0 {
        Seq::<u8>::empty()
    } else {
        ixs_bytes(ixs.drop_last()) + ix_bytes(ixs.last())
    }
}

/// The wire bytes of one table reference: the table key, then the
/// length-prefixed writable positions, then the length-prefixed readonly
/// positions.
pub open spec fn lookup_bytes(l: TableLookupV) -> Seq<u8> {
    l.table_key + compact_u16(l.writable_indexes.len()) + l.writable_indexes + compact_u16(
        l.readonly_indexes.len(),
    ) + l.readonly_indexes
}

/// The wire bytes of a list of table references, in order.
pub open spec fn lookups_bytes(ls: Seq<TableLookupV>) -> Seq<u8>
    decreases ls.len(),
{
    if ls.len() == 0 {
        Seq::<u8>::empty()
    } else {
        lookups_bytes(ls.drop_last()) + lookup_bytes(ls.last())
    }
}

/// The canonical wire bytes of a compiled versioned message: the version
/// marker, the three header counts, the length-prefixed static keys, the
/// freshness token, the length-prefixed instructions, and the
/// length-prefixed table references. These are exactly the bytes that get
/// signed.
pub open spec fn msg_bytes(m: MessageV) -> Seq<u8> {
    seq![128u8, m.num_required_signatures, m.num_readonly_signed, m.num_readonly_unsigned]
        + compact_u16(m.static_keys.len()) + flat(m.static_keys) + m.recent_blockhash
        + compact_u16(m.instructions.len()) + ixs_bytes(m.instructions) + compact_u16(
        m.lookups.len(),
    ) + lookups_bytes(m.lookups)
}

/// The wire bytes of a whole signed transaction: the length-prefixed
/// signature list followed by the message bytes.
pub open spec fn tx_wire_bytes(sigs: Seq<Seq<u8>>, msg: Seq<u8>) -> Seq<u8> {
    compact_u16(sigs.len()) + flat(sigs) + msg
}

/// Appends a byte string.
pub fn push_bytes(out: &mut Vec<u8>, bs: &Vec<u8>)
    ensures
        final(out)@ == old(out)@ + bs@,
{
    let n = bs.len();
    let mut i: usize = 0;
    while i < n
        invariant
            i <= n,
            n == bs@.len(),
            out@ == old(out)@ + bs@.subrange(0, i as int),
        decreases n - i,
    {
        out.push(bs[i]);
        proof {
            assert(out@ =~= old(out)@ + bs@.subrange(0, i as int + 1));
        }
        i += 1;
    }
    proof {
        assert(bs@.subrange(0, n as int) =~= bs@);
    }
}

/// Serializes a compiled message into its canonical byte form.
#[verifier::loop_isolation(false)]
pub fn serialize_message(m: &CompiledMessage) -> (r: Vec<u8>)
    requires
        m.wf(),
    ensures
        r@ == msg_bytes(m@),
{
    let mut out: Vec<u8> = Vec::new();
    out.push(128);
    out.push(m.num_required_signatures);
    out.push(m.num_readonly_signed);
    out.push(m.num_readonly_unsigned);
    let ghost header = seq![
        128u8,
        m@.num_required_signatures,
        m@.num_readonly_signed,
        m@.num_readonly_unsigned,
    ];
    proof {
        assert(out@ =~= header);
    }
    push_compact_u16(&mut out, m.static_keys.len());
    let nk = m.static_keys.len();
    let mut i: usize = 0;
    let ghost pre_keys = out@;
    while i < nk
        invariant
            i <= nk,
            nk == m.static_keys@.len(),
            out@ == pre_keys + flat(m@.static_keys.subrange(0, i as int)),
        decreases nk - i,
    {
        proof {
            let pre = m@.static_keys.subrange(0, i as int + 1);
            assert(pre.drop_last() =~= m@.static_keys.subrange(0, i as int));
            assert(pre.last() == m@.static_keys[i as int]);
        }
        push_bytes(&mut out, &m.static_keys[i].bytes);
        proof {
            assert(out@ =~= pre_keys + flat(m@.static_keys.subrange(0, i as int + 1)));
        }
        i += 1;
    }
    proof {
        assert(m@.static_keys.subrange(0, nk as int) =~= m@.static_keys);
    }
    push_bytes(&mut out, &m.recent_blockhash.bytes);
    push_compact_u16(&mut out, m.instructions.len());
    let ni = m.instructions.len();
    let mut j: usize = 0;
    let ghost pre_ixs = out@;
    while j < ni
        invariant
            j <= ni,
            ni == m.instructions@.len(),
            out@ == pre_ixs + ixs_bytes(m@.instructions.subrange(0, j as int)),
        decreases ni - j,
    {
        proof {
            let pre = m@.instructions.subrange(0, j as int + 1);
            assert(pre.drop_last() =~= m@.instructions.subrange(0, j as int));
            assert(pre.last() == m@.instructions[j as int]);
        }
        let ix = &m.instructions[j];
        let ghost before = out@;
        out.push(ix.program_id_index);
        proof {
            assert(out@ =~= before + seq![m@.instructions[j as int].program_id_index]);
        }
        push_compact_u16(&mut out, ix.account_indexes.len());
        push_bytes(&mut out, &ix.account_indexes);
        push_compact_u16(&mut out, ix.data.len());
        push_bytes(&mut out, &ix.data);
        proof {
            assert(out@ =~= before + ix_bytes(m@.instructions[j as int]));
            assert(out@ =~= pre_ixs + ixs_bytes(m@.instructions.subrange(0, j as int + 1)));
        }
        j += 1;
    }
    proof {
        assert(m@.instructions.subrange(0, ni as int) =~= m@.instructions);
    }
    push_compact_u16(&mut out, m.lookups.len());
    let nl = m.lookups.len();
    let mut q: usize = 0;
    let ghost pre_lks = out@;
    while q < nl
        invariant
            q <= nl,
            nl == m.lookups@.len(),
            out@ == pre_lks + lookups_bytes(m@.lookups.subrange(0, q as int)),
        decreases nl - q,
    {
        proof {
            let pre = m@.lookups.subrange(0, q as int + 1);
            assert(pre.drop_last() =~= m@.lookups.subrange(0, q as int));
            assert(pre.last() == m@.lookups[q as int]);
        }
        let l = &m.lookups[q];
        let ghost before = out@;
        push_bytes(&mut out, &l.table_key.bytes);
        push_compact_u16(&mut out, l.writable_indexes.len());
        push_bytes(&mut out, &l.writable_indexes);
        push_compact_u16(&mut out, l.readonly_indexes.len());
        push_bytes(&mut out, &l.readonly_indexes);
        proof {
            assert(out@ =~= before + lookup_bytes(m@.lookups[q as int]));
            assert(out@ =~= pre_lks + lookups_bytes(m@.lookups.subrange(0, q as int + 1)));
        }
        q += 1;
    }
    proof {
        assert(m@.lookups.subrange(0, nl as int) =~= m@.lookups);
        assert(out@ =~= msg_bytes(m@));
    }
    out
}

} // verus!
