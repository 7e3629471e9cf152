use vstd::prelude::*;
use crate::compile::{
    all_keys_spec, compile_spec, entries, first_pos, first_tbl, full_stream,
    index_ix, keep_static, keys_of, lemma_all_keys_complete, lemma_entries_distinct,
    lemma_first_pos, lemma_first_pos_exists, lemma_keep_static_sub, lemma_loaded_sub,
    lemma_look_member, lemma_look_sub, lemma_same_key, lemma_sel_member, lemma_sel_sub,
    lemma_stream_has_account, loaded_keys, look_keys, sel, static_keys_spec, stream_has, stream_of,
    EntryV, MessageV,
};
use crate::errors::CompileError;
use crate::tables::LookupTableV;
use crate::instructions::InstructionV;
use crate::sign::required_signers;
use crate::wire::msg_bytes;

verus! {

/// Compiling one (payer, instructions, tables, freshness token) tuple is one
/// mathematical function: two compilations of the same tuple yield one
/// message, and so byte-identical serialized forms.
pub proof fn lemma_compile_idempotent(
    payer: Seq<u8>,
    instrs: Seq<InstructionV>,
    tables: Seq<LookupTableV>,
    hash: Seq<u8>,
    m1: MessageV,
    m2: MessageV,
)
    requires
        compile_spec(payer, instrs, tables, hash) == Ok::<MessageV, CompileError>(m1),
        compile_spec(payer, instrs, tables, hash) == Ok::<MessageV, CompileError>(m2),
    ensures
        m1 == m2,
        msg_bytes(m1) == msg_bytes(m2),
{
}

/// Decoding followed by compilation preserves instruction and account order
/// exactly as received: the compiled list is as long as the input, each
/// compiled instruction keeps its payload, and the j-th account index of the
/// i-th compiled instruction points at exactly the j-th account key of the
/// i-th input instruction within the combined account key list.
pub proof fn lemma_compile_preserves_order(
    payer: Seq<u8>,
    instrs: Seq<InstructionV>,
    tables: Seq<LookupTableV>,
    hash: Seq<u8>,
    m: MessageV,
)
    requires
        compile_spec(payer, instrs, tables, hash) == Ok::<MessageV, CompileError>(m),
    ensures
        m.instructions.len() == instrs.len(),
        forall|i: int|
            0 <= i < instrs.len() ==> (#[trigger] m.instructions[i]).data == instrs[i].data
                && m.instructions[i].account_indexes.len() == instrs[i].accounts.len(),
        forall|i: int, j: int|
            0 <= i < instrs.len() && 0 <= j < (#[trigger] instrs[i]).accounts.len()
                ==> all_keys_spec(payer, instrs, tables)[(#[trigger] m.instructions[
            i].account_indexes[j]) as int] == instrs[i].accounts[j].key,
{
    let all = all_keys_spec(payer, instrs, tables);
    assert(m.instructions == instrs.map_values(|x: InstructionV| index_ix(x, all)));
    assert(all.len() <= 256);
    assert forall|i: int, j: int|
        0 <= i < instrs.len() && 0 <= j < (#[trigger] instrs[i]).accounts.len() implies all_keys_spec(
        payer,
        instrs,
        tables,
    )[(#[trigger] m.instructions[i].account_indexes[j]) as int] == instrs[i].accounts[j].key by {
        let k = instrs[i].accounts[j].key;
        lemma_stream_has_account(instrs, i, j);
        let p = choose|p: int|
            0 <= p < stream_of(instrs).len() && (#[trigger] stream_of(instrs)[p]).key == k;
        assert(full_stream(payer, instrs)[p + 1].key == k);
        assert(stream_has(full_stream(payer, instrs), k));
        lemma_all_keys_complete(payer, instrs, tables, k);
        lemma_first_pos_exists(all, k);
        lemma_first_pos(all, k);
        let fp = first_pos(all, k);
        assert(0 <= fp < all.len());
        assert(m.instructions[i] == index_ix(instrs[i], all));
        assert(m.instructions[i].account_indexes[j] == (fp as u8));
        assert(((fp as u8) as int) == fp);
        assert(all[fp] == k);
    }
}

/// Lookup-table compression applies exactly where it may: every referenced
/// non-signer account that no instruction invokes and that some supplied
/// table stores leaves the static key list and is served — as a table index
/// — by its first matching table; a signer account always stays among the
/// leading static keys and never enters any table's served list.
pub proof fn lemma_table_compression(
    payer: Seq<u8>,
    instrs: Seq<InstructionV>,
    tables: Seq<LookupTableV>,
    hash: Seq<u8>,
    m: MessageV,
    e: EntryV,
)
    requires
        compile_spec(payer, instrs, tables, hash) == Ok::<MessageV, CompileError>(m),
        entries(full_stream(payer, instrs)).contains(e),
    ensures
        !e.signer && !e.invoked && first_tbl(tables, e.key) != -1 ==> !m.static_keys.contains(
            e.key,
        ) && look_keys(
            sel(entries(full_stream(payer, instrs)), false, e.writable),
            tables,
            first_tbl(tables, e.key),
        ).contains(e.key),
        e.signer ==> required_signers(m).contains(e.key) && !loaded_keys(
            sel(entries(full_stream(payer, instrs)), false, true),
            tables,
            0,
        ).contains(e.key) && !loaded_keys(
            sel(entries(full_stream(payer, instrs)), false, false),
            tables,
            0,
        ).contains(e.key),
{
    let fs = full_stream(payer, instrs);
    let es = entries(fs);
    lemma_entries_distinct(fs);
    let ws = sel(es, true, true);
    let rs = sel(es, true, false);
    let wn = sel(es, false, true);
    let rn = sel(es, false, false);
    let statics = static_keys_spec(payer, instrs, tables);
    assert(m.static_keys == statics);
    let l1 = keys_of(ws).len() as int;
    let l2 = keys_of(rs).len() as int;
    let l3 = keys_of(keep_static(wn, tables)).len() as int;
    if !e.signer && !e.invoked && first_tbl(tables, e.key) != -1 {
        lemma_sel_member(es, e);
        lemma_look_member(sel(es, false, e.writable), tables, e);
        if m.static_keys.contains(e.key) {
            let q = choose|q: int| 0 <= q < statics.len() && statics[q] == e.key;
            if q < l1 {
                assert(keys_of(ws)[q] == e.key);
                assert(ws.contains(ws[q]));
                lemma_sel_sub(es, true, true, ws[q]);
                lemma_same_key(es, e, ws[q]);
            } else if q < l1 + l2 {
                assert(keys_of(rs)[q - l1] == e.key);
                assert(rs.contains(rs[q - l1]));
                lemma_sel_sub(es, true, false, rs[q - l1]);
                lemma_same_key(es, e, rs[q - l1]);
            } else if q < l1 + l2 + l3 {
                let x = keep_static(wn, tables)[q - l1 - l2];
                assert(keys_of(keep_static(wn, tables))[q - l1 - l2] == e.key);
                assert(keep_static(wn, tables).contains(x));
                lemma_keep_static_sub(wn, tables, x);
                lemma_sel_sub(es, false, true, x);
                lemma_same_key(es, e, x);
            } else {
                let x = keep_static(rn, tables)[q - l1 - l2 - l3];
                assert(keys_of(keep_static(rn, tables))[q - l1 - l2 - l3] == e.key);
                assert(keep_static(rn, tables).contains(x));
                lemma_keep_static_sub(rn, tables, x);
                lemma_sel_sub(es, false, false, x);
                lemma_same_key(es, e, x);
            }
        }
    }
    if e.signer {
        lemma_sel_member(es, e);
        let nsign = m.num_required_signatures as int;
        assert(nsign == l1 + l2);
        if e.writable {
            let j = choose|j: int| 0 <= j < ws.len() && ws[j] == e;
            assert(keys_of(ws)[j] == e.key);
            assert(statics[j] == e.key);
            assert(required_signers(m)[j] == e.key);
            assert(required_signers(m).contains(e.key));
        } else {
            let j = choose|j: int| 0 <= j < rs.len() && rs[j] == e;
            assert(keys_of(rs)[j] == e.key);
            assert(statics[l1 + j] == e.key);
            assert(required_signers(m)[l1 + j] == e.key);
            assert(required_signers(m).contains(e.key));
        }
        if loaded_keys(wn, tables, 0).contains(e.key) {
            lemma_loaded_sub(wn, tables, 0, e.key);
            let t = choose|t: int|
                0 <= t < tables.len() && #[trigger] look_keys(wn, tables, t).contains(e.key);
            lemma_look_sub(wn, tables, t, e.key);
            let i = choose|i: int|
                0 <= i < wn.len() && (#[trigger] wn[i]).key == e.key && !wn[i].invoked && first_tbl(
                    tables,
                    wn[i].key,
                ) == t;
            assert(wn.contains(wn[i]));
            lemma_sel_sub(es, false, true, wn[i]);
            lemma_same_key(es, e, wn[i]);
        }
        if loaded_keys(rn, tables, 0).contains(e.key) {
            lemma_loaded_sub(rn, tables, 0, e.key);
            let t = choose|t: int|
                0 <= t < tables.len() && #[trigger] look_keys(rn, tables, t).contains(e.key);
            lemma_look_sub(rn, tables, t, e.key);
            let i = choose|i: int|
                0 <= i < rn.len() && (#[trigger] rn[i]).key == e.key && !rn[i].invoked && first_tbl(
                    tables,
                    rn[i].key,
                ) == t;
            assert(rn.contains(rn[i]));
            lemma_sel_sub(es, false, false, rn[i]);
            lemma_same_key(es, e, rn[i]);
        }
    }
}

} // verus!
