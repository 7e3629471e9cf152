use vstd::prelude::*;
use vstd::pervasive::VecAdditionalExecFns;
use crate::errors::CompileError;
use crate::instructions::{
    mode_signs, mode_writes, AccountAccessV, ExecutableInstruction, InstructionV, instr_views,
};
use crate::keys::{clone_bytes, Blockhash, PubKey};
use crate::tables::{table_views, table_wf, LookupTableAccount, LookupTableV};

verus! {

/// One account reference occurrence: key, demanded access flags, and whether
/// the occurrence is as an invoked program.
#[verifier::ext_equal]
pub ghost struct RefV {
    pub key: Seq<u8>,
    pub signer: bool,
    pub writable: bool,
    pub invoked: bool,
}

/// One deduplicated referenced account with its merged access flags.
pub struct Entry {
    pub key: PubKey,
    pub signer: bool,
    pub writable: bool,
    pub invoked: bool,
}

/// Mathematical image of a deduplicated referenced account.
#[verifier::ext_equal]
pub ghost struct EntryV {
    pub key: Seq<u8>,
    pub signer: bool,
    pub writable: bool,
    pub invoked: bool,
}

impl View for Entry {
    type V = EntryV;

    open spec fn view(&self) -> EntryV {
        EntryV { key: self.key@, signer: self.signer, writable: self.writable, invoked: self.invoked }
    }
}

pub open spec fn entry_views(es: Seq<Entry>) -> Seq<EntryV> {
    es.map_values(|e: Entry| e@)
}

pub open spec fn keys_of(es: Seq<EntryV>) -> Seq<Seq<u8>> {
    es.map_values(|e: EntryV| e.key)
}

pub open spec fn pk_views(ks: Seq<PubKey>) -> Seq<Seq<u8>> {
    ks.map_values(|p: PubKey| p@)
}

/// Index of the first occurrence of a key in a key list, or -1 when absent.
pub open spec fn first_pos(keys: Seq<Seq<u8>>, k: Seq<u8>) -> int
    decreases keys.len(),
{
    if keys.len() == 0 {
        -1
    } else if keys[0] == k {
        0
    } else {
        let r = first_pos(keys.skip(1), k);
        if r == -1 {
            -1
        } else {
            r + 1
        }
    }
}

/// The first occurrence index is sound: -1 means the key is absent, and a
/// non-negative result points at the first occurrence.
pub proof fn lemma_first_pos(keys: Seq<Seq<u8>>, k: Seq<u8>)
    ensures
        first_pos(keys, k) == -1 ==> forall|j: int| 0 <= j < keys.len() ==> keys[j] != k,
        first_pos(keys, k) != -1 ==> 0 <= first_pos(keys, k) < keys.len() && keys[first_pos(
            keys,
            k,
        )] == k && (forall|j: int| 0 <= j < first_pos(keys, k) ==> keys[j] != k),
    decreases keys.len(),
{
    if keys.len() == 0 {
    } else if keys[0] == k {
    } else {
        lemma_first_pos(keys.skip(1), k);
        assert forall|j: int| 1 <= j < keys.len() implies keys.skip(1)[j - 1] == keys[j] by {}
    }
}

/// The first occurrence index is -1 exactly when the key list does not
/// contain the key.
pub proof fn lemma_first_pos_exists(keys: Seq<Seq<u8>>, k: Seq<u8>)
    ensures
        (first_pos(keys, k) != -1) <==> keys.contains(k),
{
    lemma_first_pos(keys, k);
    if keys.contains(k) {
        let j = choose|j: int| 0 <= j < keys.len() && keys[j] == k;
        assert(keys[j] == k);
    }
}

/// The merge of one reference occurrence into the deduplicated account list:
/// a repeated key keeps its place and accumulates the strongest access mode
/// seen; a new key is appended.
pub open spec fn upsert(es: Seq<EntryV>, r: RefV) -> Seq<EntryV> {
    let p = first_pos(keys_of(es), r.key);
    if p == -1 {
        es.push(EntryV { key: r.key, signer: r.signer, writable: r.writable, invoked: r.invoked })
    } else {
        es.update(
            p,
            EntryV {
                key: r.key,
                signer: es[p].signer || r.signer,
                writable: es[p].writable || r.writable,
                invoked: es[p].invoked || r.invoked,
            },
        )
    }
}

/// The reference occurrences of a list of decoded account references, in
/// order.
pub open spec fn acc_refs(accs: Seq<AccountAccessV>) -> Seq<RefV> {
    accs.map_values(
        |a: AccountAccessV|
            RefV {
                key: a.key,
                signer: mode_signs(a.mode),
                writable: mode_writes(a.mode),
                invoked: false,
            },
    )
}

/// The reference occurrences one instruction contributes: its accounts in
/// order, then its program as an invoked, readonly, non-signing reference.
pub open spec fn instr_refs(ins: InstructionV) -> Seq<RefV> {
    acc_refs(ins.accounts) + seq![
        RefV { key: ins.program_id, signer: false, writable: false, invoked: true },
    ]
}

/// The reference occurrences of a whole instruction list, in order.
pub open spec fn stream_of(instrs: Seq<InstructionV>) -> Seq<RefV>
    decreases instrs.len(),
{
    if instrs.len() == 0 {
        Seq::<RefV>::empty()
    } else {
        stream_of(instrs.drop_last()) + instr_refs(instrs.last())
    }
}

/// The fee payer's implicit reference: first, writable, and signing.
pub open spec fn payer_ref(payer: Seq<u8>) -> RefV {
    RefV { key: payer, signer: true, writable: true, invoked: false }
}

/// The deduplicated account list of a reference stream, in first-seen order,
/// with merged access flags.
pub open spec fn entries(s: Seq<RefV>) -> Seq<EntryV>
    decreases s.len(),
{
    if s.len() == 0 {
        Seq::<EntryV>::empty()
    } else {
        upsert(entries(s.drop_last()), s.last())
    }
}

/// Whether a reference stream mentions a key.
pub open spec fn stream_has(s: Seq<RefV>, k: Seq<u8>) -> bool {
    exists|i: int| 0 <= i < s.len() && (#[trigger] s[i]).key == k
}

/// The deduplicated account list holds exactly the keys the stream mentions.
pub proof fn lemma_entries_has(s: Seq<RefV>, k: Seq<u8>)
    ensures
        keys_of(entries(s)).contains(k) <==> stream_has(s, k),
    decreases s.len(),
{
    if s.len() == 0 {
    } else {
        lemma_entries_has(s.drop_last(), k);
        let es = entries(s.drop_last());
        let r = s.last();
        let p = first_pos(keys_of(es), r.key);
        lemma_first_pos(keys_of(es), r.key);
        if p == -1 {
            assert(keys_of(upsert(es, r)) =~= keys_of(es).push(r.key));
        } else {
            assert(keys_of(upsert(es, r)) =~= keys_of(es).update(p, r.key));
            assert(keys_of(es)[p] == r.key);
            assert(keys_of(upsert(es, r)) =~= keys_of(es));
        }
        if stream_has(s, k) {
            let i = choose|i: int| 0 <= i < s.len() && (#[trigger] s[i]).key == k;
            if i < s.len() - 1 {
                assert(s.drop_last()[i].key == k);
                assert(stream_has(s.drop_last(), k));
            }
            if r.key == k {
                if p == -1 {
                    assert(keys_of(entries(s))[keys_of(es).len() as int] == k);
                } else {
                    assert(keys_of(es)[p] == k);
                }
                assert(keys_of(entries(s)).contains(k));
            } else {
                assert(stream_has(s.drop_last(), k));
                assert(keys_of(es).contains(k));
                let j = choose|j: int| 0 <= j < keys_of(es).len() && keys_of(es)[j] == k;
                assert(keys_of(entries(s))[j] == k);
                assert(keys_of(entries(s)).contains(k));
            }
        }
        if keys_of(entries(s)).contains(k) {
            if r.key == k {
                assert(s[s.len() - 1].key == k);
                assert(stream_has(s, k));
            } else {
                assert(keys_of(es).contains(k));
                let i = choose|i: int| 0 <= i < s.drop_last().len() && (#[trigger] s.drop_last()[i]).key == k;
                assert(s[i].key == k);
                assert(stream_has(s, k));
            }
        }
    }
}

/// The entries a bucket selection keeps: those whose merged flags match the
/// wanted class, in first-seen order.
pub open spec fn sel(es: Seq<EntryV>, want_signer: bool, want_writable: bool) -> Seq<EntryV>
    decreases es.len(),
{
    if es.len() == 0 {
        Seq::<EntryV>::empty()
    } else {
        sel(es.drop_last(), want_signer, want_writable) + (if es.last().signer == want_signer
            && es.last().writable == want_writable {
            seq![es.last()]
        } else {
            Seq::<EntryV>::empty()
        })
    }
}

/// Every deduplicated account lands in the bucket of its own flag class.
pub proof fn lemma_sel_member(es: Seq<EntryV>, e: EntryV)
    requires
        es.contains(e),
    ensures
        sel(es, e.signer, e.writable).contains(e),
    decreases es.len(),
{
    let i = choose|i: int| 0 <= i < es.len() && es[i] == e;
    if i < es.len() - 1 {
        assert(es.drop_last()[i] == e);
        lemma_sel_member(es.drop_last(), e);
        let s0 = sel(es.drop_last(), e.signer, e.writable);
        let j = choose|j: int| 0 <= j < s0.len() && s0[j] == e;
        assert(sel(es, e.signer, e.writable)[j] == e);
    } else {
        assert(es.last() == e);
        let s0 = sel(es.drop_last(), e.signer, e.writable);
        assert(sel(es, e.signer, e.writable)[s0.len() as int] == e);
    }
}

/// Whether a lookup table stores a key.
pub open spec fn in_table(t: LookupTableV, k: Seq<u8>) -> bool {
    t.addresses.contains(k)
}

/// Index of the first supplied table that stores a key, or -1.
pub open spec fn first_tbl(tables: Seq<LookupTableV>, k: Seq<u8>) -> int
    decreases tables.len(),
{
    if tables.len() == 0 {
        -1
    } else if in_table(tables[0], k) {
        0
    } else {
        let r = first_tbl(tables.skip(1), k);
        if r == -1 {
            -1
        } else {
            r + 1
        }
    }
}

/// The first-table index is sound: -1 means no table stores the key, and a
/// non-negative result points at the first table that does.
pub proof fn lemma_first_tbl(tables: Seq<LookupTableV>, k: Seq<u8>)
    ensures
        first_tbl(tables, k) == -1 ==> forall|j: int|
            0 <= j < tables.len() ==> !in_table(#[trigger] tables[j], k),
        first_tbl(tables, k) != -1 ==> 0 <= first_tbl(tables, k) < tables.len() && in_table(
            tables[first_tbl(tables, k)],
            k,
        ) && (forall|j: int| 0 <= j < first_tbl(tables, k) ==> !in_table(#[trigger] tables[j], k)),
    decreases tables.len(),
{
    if tables.len() == 0 {
    } else if in_table(tables[0], k) {
    } else {
        lemma_first_tbl(tables.skip(1), k);
        assert forall|j: int| 1 <= j < tables.len() implies tables.skip(1)[j - 1] == tables[j] by {}
    }
}

/// Whether compression applies to a deduplicated account: it is not an
/// invoked program and some supplied table stores it.
pub open spec fn compressible(e: EntryV, tables: Seq<LookupTableV>) -> bool {
    !e.invoked && first_tbl(tables, e.key) != -1
}

/// The entries of a non-signer bucket that stay in the static key list:
/// those compression does not apply to, in first-seen order.
pub open spec fn keep_static(es: Seq<EntryV>, tables: Seq<LookupTableV>) -> Seq<EntryV>
    decreases es.len(),
{
    if es.len() == 0 {
        Seq::<EntryV>::empty()
    } else {
        keep_static(es.drop_last(), tables) + (if !compressible(es.last(), tables) {
            seq![es.last()]
        } else {
            Seq::<EntryV>::empty()
        })
    }
}

/// The keys of one bucket that a given table serves: compressible entries
/// whose first matching table is that one, in first-seen order.
pub open spec fn look_keys(es: Seq<EntryV>, tables: Seq<LookupTableV>, t: int) -> Seq<Seq<u8>>
    decreases es.len(),
{
    if es.len() == 0 {
        Seq::<Seq<u8>>::empty()
    } else {
        look_keys(es.drop_last(), tables, t) + (if !es.last().invoked && first_tbl(
            tables,
            es.last().key,
        ) == t {
            seq![es.last().key]
        } else {
            Seq::<Seq<u8>>::empty()
        })
    }
}

/// The keys of one bucket served by any table from index t on, grouped by
/// table, in table order.
pub open spec fn loaded_keys(es: Seq<EntryV>, tables: Seq<LookupTableV>, t: int) -> Seq<Seq<u8>>
    decreases tables.len() - t,
{
    if t < 0 || t >= tables.len() {
        Seq::<Seq<u8>>::empty()
    } else {
        look_keys(es, tables, t) + loaded_keys(es, tables, t + 1)
    }
}

/// The within-table positions of a list of stored keys.
pub open spec fn idxs_of(ks: Seq<Seq<u8>>, t: LookupTableV) -> Seq<u8> {
    ks.map_values(|k: Seq<u8>| first_pos(t.addresses, k) as u8)
}

/// Mathematical image of one table reference of a compiled message.
#[verifier::ext_equal]
pub ghost struct TableLookupV {
    pub table_key: Seq<u8>,
    pub writable_indexes: Seq<u8>,
    pub readonly_indexes: Seq<u8>,
}

/// The table references of a compiled message, from table index t on: one
/// per supplied table that serves at least one key, in table order.
pub open spec fn mk_lookups(
    tables: Seq<LookupTableV>,
    wn: Seq<EntryV>,
    rn: Seq<EntryV>,
    t: int,
) -> Seq<TableLookupV>
    decreases tables.len() - t,
{
    if t < 0 || t >= tables.len() {
        Seq::<TableLookupV>::empty()
    } else {
        let w = idxs_of(look_keys(wn, tables, t), tables[t]);
        let r = idxs_of(look_keys(rn, tables, t), tables[t]);
        let rest = mk_lookups(tables, wn, rn, t + 1);
        if w.len() == 0 && r.len() == 0 {
            rest
        } else {
            seq![
                TableLookupV { table_key: tables[t].key, writable_indexes: w, readonly_indexes: r },
            ] + rest
        }
    }
}

/// Entries that compression does not apply to land in the static remainder
/// of their bucket.
pub proof fn lemma_keep_static_member(es: Seq<EntryV>, tables: Seq<LookupTableV>, e: EntryV)
    requires
        es.contains(e),
        !compressible(e, tables),
    ensures
        keep_static(es, tables).contains(e),
    decreases es.len(),
{
    let i = choose|i: int| 0 <= i < es.len() && es[i] == e;
    if i < es.len() - 1 {
        assert(es.drop_last()[i] == e);
        lemma_keep_static_member(es.drop_last(), tables, e);
        let s0 = keep_static(es.drop_last(), tables);
        let j = choose|j: int| 0 <= j < s0.len() && s0[j] == e;
        assert(keep_static(es, tables)[j] == e);
    } else {
        assert(es.last() == e);
        let s0 = keep_static(es.drop_last(), tables);
        assert(keep_static(es, tables)[s0.len() as int] == e);
    }
}

/// The static remainder of a bucket holds only bucket entries that
/// compression does not apply to.
pub proof fn lemma_keep_static_sub(es: Seq<EntryV>, tables: Seq<LookupTableV>, e: EntryV)
    requires
        keep_static(es, tables).contains(e),
    ensures
        es.contains(e),
        !compressible(e, tables),
    decreases es.len(),
{
    if es.len() == 0 {
    } else {
        let s0 = keep_static(es.drop_last(), tables);
        let j = choose|j: int|
            0 <= j < keep_static(es, tables).len() && keep_static(es, tables)[j] == e;
        if j < s0.len() {
            assert(s0[j] == e);
            lemma_keep_static_sub(es.drop_last(), tables, e);
            let i = choose|i: int| 0 <= i < es.drop_last().len() && es.drop_last()[i] == e;
            assert(es[i] == e);
        } else {
            assert(es.last() == e);
            assert(es[es.len() - 1] == e);
        }
    }
}

/// A compressible entry's key is served by its first matching table.
pub proof fn lemma_look_member(es: Seq<EntryV>, tables: Seq<LookupTableV>, e: EntryV)
    requires
        es.contains(e),
        !e.invoked,
        first_tbl(tables, e.key) != -1,
    ensures
        look_keys(es, tables, first_tbl(tables, e.key)).contains(e.key),
    decreases es.len(),
{
    let t = first_tbl(tables, e.key);
    let i = choose|i: int| 0 <= i < es.len() && es[i] == e;
    if i < es.len() - 1 {
        assert(es.drop_last()[i] == e);
        lemma_look_member(es.drop_last(), tables, e);
        let s0 = look_keys(es.drop_last(), tables, t);
        let j = choose|j: int| 0 <= j < s0.len() && s0[j] == e.key;
        assert(look_keys(es, tables, t)[j] == e.key);
    } else {
        assert(es.last() == e);
        let s0 = look_keys(es.drop_last(), tables, t);
        assert(look_keys(es, tables, t)[s0.len() as int] == e.key);
    }
}

/// A key of one table's served list belongs to the bucket, is not invoked,
/// and has that table as its first match.
pub proof fn lemma_look_sub(es: Seq<EntryV>, tables: Seq<LookupTableV>, t: int, k: Seq<u8>)
    requires
        look_keys(es, tables, t).contains(k),
    ensures
        exists|i: int|
            0 <= i < es.len() && (#[trigger] es[i]).key == k && !es[i].invoked && first_tbl(
                tables,
                es[i].key,
            ) == t,
    decreases es.len(),
{
    if es.len() == 0 {
    } else {
        let s0 = look_keys(es.drop_last(), tables, t);
        let j = choose|j: int|
            0 <= j < look_keys(es, tables, t).len() && look_keys(es, tables, t)[j] == k;
        if j < s0.len() {
            assert(s0[j] == k);
            lemma_look_sub(es.drop_last(), tables, t, k);
            let i = choose|i: int|
                0 <= i < es.drop_last().len() && (#[trigger] es.drop_last()[i]).key == k
                    && !es.drop_last()[i].invoked && first_tbl(tables, es.drop_last()[i].key) == t;
            assert(es[i] == es.drop_last()[i]);
            assert(es[i].key == k && !es[i].invoked && first_tbl(tables, es[i].key) == t);
        } else {
            assert(es.last().key == k && !es.last().invoked && first_tbl(tables, es.last().key)
                == t);
            assert(es[es.len() - 1].key == k);
        }
    }
}

/// A key served by some table appears in the loaded key list.
pub proof fn lemma_loaded_member(
    es: Seq<EntryV>,
    tables: Seq<LookupTableV>,
    u: int,
    t: int,
    k: Seq<u8>,
)
    requires
        0 <= u <= t < tables.len(),
        look_keys(es, tables, t).contains(k),
    ensures
        loaded_keys(es, tables, u).contains(k),
    decreases t - u,
{
    if u == t {
        let j = choose|j: int|
            0 <= j < look_keys(es, tables, t).len() && look_keys(es, tables, t)[j] == k;
        assert(loaded_keys(es, tables, u)[j] == k);
    } else {
        lemma_loaded_member(es, tables, u + 1, t, k);
        let w0 = look_keys(es, tables, u);
        let j = choose|j: int|
            0 <= j < loaded_keys(es, tables, u + 1).len() && #[trigger] loaded_keys(
                es,
                tables,
                u + 1,
            )[j] == k;
        assert(loaded_keys(es, tables, u)[w0.len() + j] == k);
    }
}

/// A bucket holds only entries of its own flag class, drawn from the
/// deduplicated list.
pub proof fn lemma_sel_sub(es: Seq<EntryV>, a: bool, b: bool, e: EntryV)
    requires
        sel(es, a, b).contains(e),
    ensures
        es.contains(e),
        e.signer == a,
        e.writable == b,
    decreases es.len(),
{
    if es.len() == 0 {
    } else {
        let s0 = sel(es.drop_last(), a, b);
        let j = choose|j: int| 0 <= j < sel(es, a, b).len() && sel(es, a, b)[j] == e;
        if j < s0.len() {
            assert(s0[j] == e);
            lemma_sel_sub(es.drop_last(), a, b, e);
            let i = choose|i: int| 0 <= i < es.drop_last().len() && es.drop_last()[i] == e;
            assert(es[i] == e);
        } else {
            assert(es.last() == e);
            assert(es[es.len() - 1] == e);
        }
    }
}

/// Whether no two deduplicated entries share a key.
pub open spec fn distinct_keys(es: Seq<EntryV>) -> bool {
    forall|i: int, j: int|
        0 <= i < j < es.len() ==> (#[trigger] es[i]).key != (#[trigger] es[j]).key
}

/// Deduplication really deduplicates: the account list of any reference
/// stream holds each key at most once.
pub proof fn lemma_entries_distinct(s: Seq<RefV>)
    ensures
        distinct_keys(entries(s)),
    decreases s.len(),
{
    if s.len() == 0 {
    } else {
        lemma_entries_distinct(s.drop_last());
        let es = entries(s.drop_last());
        let r = s.last();
        let p = first_pos(keys_of(es), r.key);
        lemma_first_pos(keys_of(es), r.key);
        if p == -1 {
            assert forall|i: int, j: int| 0 <= i < j < entries(s).len() implies (#[trigger] entries(
                s,
            )[i]).key != (#[trigger] entries(s)[j]).key by {
                if j < es.len() as int {
                } else {
                    assert(entries(s)[j].key == r.key);
                    assert(keys_of(es)[i] == es[i].key);
                }
            }
        } else {
            assert forall|i: int, j: int| 0 <= i < j < entries(s).len() implies (#[trigger] entries(
                s,
            )[i]).key != (#[trigger] entries(s)[j]).key by {
                assert(entries(s)[i].key == es[i].key);
                assert(entries(s)[j].key == es[j].key);
            }
        }
    }
}

/// Two deduplicated entries with one key are one entry.
pub proof fn lemma_same_key(es: Seq<EntryV>, e1: EntryV, e2: EntryV)
    requires
        distinct_keys(es),
        es.contains(e1),
        es.contains(e2),
        e1.key == e2.key,
    ensures
        e1 == e2,
{
    let i1 = choose|i: int| 0 <= i < es.len() && es[i] == e1;
    let i2 = choose|i: int| 0 <= i < es.len() && es[i] == e2;
    if i1 != i2 {
        assert(es[i1].key != es[i2].key);
    }
}

/// A key of the loaded list is served by some table.
pub proof fn lemma_loaded_sub(es: Seq<EntryV>, tables: Seq<LookupTableV>, u: int, k: Seq<u8>)
    requires
        loaded_keys(es, tables, u).contains(k),
    ensures
        exists|t: int| u <= t < tables.len() && #[trigger] look_keys(es, tables, t).contains(k),
    decreases tables.len() - u,
{
    if u < 0 || u >= tables.len() {
    } else {
        let j = choose|j: int|
            0 <= j < loaded_keys(es, tables, u).len() && loaded_keys(es, tables, u)[j] == k;
        let w0 = look_keys(es, tables, u);
        if j < w0.len() {
            assert(look_keys(es, tables, u).contains(k));
        } else {
            assert(loaded_keys(es, tables, u + 1)[j - w0.len()] == k);
            lemma_loaded_sub(es, tables, u + 1, k);
            let t = choose|t: int|
                u + 1 <= t < tables.len() && #[trigger] look_keys(es, tables, t).contains(k);
            assert(look_keys(es, tables, t).contains(k));
        }
    }
}

/// One compiled instruction: indexes into the message's combined account
/// key list plus the raw payload.
pub struct CompiledInstruction {
    pub program_id_index: u8,
    pub account_indexes: Vec<u8>,
    pub data: Vec<u8>,
}

/// Mathematical image of a compiled instruction.
#[verifier::ext_equal]
pub ghost struct CompiledIxV {
    pub program_id_index: u8,
    pub account_indexes: Seq<u8>,
    pub data: Seq<u8>,
}

impl View for CompiledInstruction {
    type V = CompiledIxV;

    open spec fn view(&self) -> CompiledIxV {
        CompiledIxV {
            program_id_index: self.program_id_index,
            account_indexes: self.account_indexes@,
            data: self.data@,
        }
    }
}

/// One table reference of a compiled message: the table key and the
/// within-table positions of the writable and readonly keys it serves.
pub struct TableLookup {
    pub table_key: PubKey,
    pub writable_indexes: Vec<u8>,
    pub readonly_indexes: Vec<u8>,
}

impl View for TableLookup {
    type V = TableLookupV;

    open spec fn view(&self) -> TableLookupV {
        TableLookupV {
            table_key: self.table_key@,
            writable_indexes: self.writable_indexes@,
            readonly_indexes: self.readonly_indexes@,
        }
    }
}

/// A compiled versioned message: header counts, static keys, freshness
/// token, compiled instructions, and table references. Immutable once
/// produced; it fully determines the bytes that will be signed.
pub struct CompiledMessage {
    pub num_required_signatures: u8,
    pub num_readonly_signed: u8,
    pub num_readonly_unsigned: u8,
    pub static_keys: Vec<PubKey>,
    pub recent_blockhash: Blockhash,
    pub instructions: Vec<CompiledInstruction>,
    pub lookups: Vec<TableLookup>,
}

/// Mathematical image of a compiled message.
#[verifier::ext_equal]
pub ghost struct MessageV {
    pub num_required_signatures: u8,
    pub num_readonly_signed: u8,
    pub num_readonly_unsigned: u8,
    pub static_keys: Seq<Seq<u8>>,
    pub recent_blockhash: Seq<u8>,
    pub instructions: Seq<CompiledIxV>,
    pub lookups: Seq<TableLookupV>,
}

impl View for CompiledMessage {
    type V = MessageV;

    open spec fn view(&self) -> MessageV {
        MessageV {
            num_required_signatures: self.num_required_signatures,
            num_readonly_signed: self.num_readonly_signed,
            num_readonly_unsigned: self.num_readonly_unsigned,
            static_keys: pk_views(self.static_keys@),
            recent_blockhash: self.recent_blockhash@,
            instructions: self.instructions@.map_values(|i: CompiledInstruction| i@),
            lookups: self.lookups@.map_values(|l: TableLookup| l@),
        }
    }
}

/// Well-formedness of a message image: sizes fit the wire format's one- and
/// two-byte length fields, and every key is 32 bytes.
pub open spec fn msg_wf(m: MessageV) -> bool {
    &&& m.static_keys.len() <= 256
    &&& m.num_required_signatures as int <= m.static_keys.len()
    &&& forall|i: int| 0 <= i < m.static_keys.len() ==> (#[trigger] m.static_keys[i]).len() == 32
    &&& m.recent_blockhash.len() == 32
    &&& m.instructions.len() <= 65535
    &&& forall|i: int|
        0 <= i < m.instructions.len() ==> (#[trigger] m.instructions[i]).account_indexes.len()
            <= 65535 && m.instructions[i].data.len() <= 65535
    &&& m.lookups.len() <= 256
    &&& forall|i: int|
        0 <= i < m.lookups.len() ==> (#[trigger] m.lookups[i]).table_key.len() == 32
            && m.lookups[i].writable_indexes.len() <= 65535 && m.lookups[i].readonly_indexes.len()
            <= 65535
}

impl CompiledMessage {
    pub open spec fn wf(&self) -> bool {
        msg_wf(self@)
    }
}

/// Whether some instruction exceeds the wire format's per-instruction
/// limits: more account references or payload bytes than a two-byte length
/// field can carry.
pub open spec fn too_large(instrs: Seq<InstructionV>) -> bool {
    exists|i: int|
        0 <= i < instrs.len() && ((#[trigger] instrs[i]).accounts.len() > 65535
            || instrs[i].data.len() > 65535)
}

/// Whether some instruction's account list references the payer.
pub open spec fn payer_referenced(instrs: Seq<InstructionV>, payer: Seq<u8>) -> bool {
    exists|i: int, j: int|
        0 <= i < instrs.len() && 0 <= j < (#[trigger] instrs[i]).accounts.len()
            && (#[trigger] instrs[i].accounts[j]).key == payer
}

/// The full reference stream of one compilation: the payer's implicit
/// reference followed by every instruction's references in order.
pub open spec fn full_stream(payer: Seq<u8>, instrs: Seq<InstructionV>) -> Seq<RefV> {
    seq![payer_ref(payer)] + stream_of(instrs)
}

/// The static key list of a compilation: writable signers (payer first),
/// readonly signers, then the uncompressed non-signer keys.
pub open spec fn static_keys_spec(
    payer: Seq<u8>,
    instrs: Seq<InstructionV>,
    tables: Seq<LookupTableV>,
) -> Seq<Seq<u8>> {
    let es = entries(full_stream(payer, instrs));
    keys_of(sel(es, true, true)) + keys_of(sel(es, true, false)) + keys_of(
        keep_static(sel(es, false, true), tables),
    ) + keys_of(keep_static(sel(es, false, false), tables))
}

/// The combined account key list of a compilation: static keys, then every
/// table-served writable key, then every table-served readonly key.
pub open spec fn all_keys_spec(
    payer: Seq<u8>,
    instrs: Seq<InstructionV>,
    tables: Seq<LookupTableV>,
) -> Seq<Seq<u8>> {
    let es = entries(full_stream(payer, instrs));
    static_keys_spec(payer, instrs, tables) + loaded_keys(sel(es, false, true), tables, 0)
        + loaded_keys(sel(es, false, false), tables, 0)
}

/// One instruction indexed against the combined key list: its account order
/// is preserved verbatim.
pub open spec fn index_ix(ins: InstructionV, all: Seq<Seq<u8>>) -> CompiledIxV {
    CompiledIxV {
        program_id_index: first_pos(all, ins.program_id) as u8,
        account_indexes: ins.accounts.map_values(|a: AccountAccessV| first_pos(all, a.key) as u8),
        data: ins.data,
    }
}

/// What compiling a message yields: a deterministic function of the payer,
/// the instruction list, the resolved tables, and the freshness token.
pub open spec fn compile_spec(
    payer: Seq<u8>,
    instrs: Seq<InstructionV>,
    tables: Seq<LookupTableV>,
    hash: Seq<u8>,
) -> Result<MessageV, CompileError> {
    if too_large(instrs) {
        Err(CompileError::TooManyAccounts)
    } else if !payer_referenced(instrs, payer) {
        Err(CompileError::MissingPayer)
    } else {
        let es = entries(full_stream(payer, instrs));
        let ws = sel(es, true, true);
        let rs = sel(es, true, false);
        let wn = sel(es, false, true);
        let rn = sel(es, false, false);
        let statics = static_keys_spec(payer, instrs, tables);
        let all = all_keys_spec(payer, instrs, tables);
        if all.len() > 256 || ws.len() + rs.len() > 255 || keep_static(rn, tables).len() > 255 {
            Err(CompileError::TooManyAccounts)
        } else {
            Ok(
                MessageV {
                    num_required_signatures: (ws.len() + rs.len()) as u8,
                    num_readonly_signed: rs.len() as u8,
                    num_readonly_unsigned: keep_static(rn, tables).len() as u8,
                    static_keys: statics,
                    recent_blockhash: hash,
                    instructions: instrs.map_values(|i: InstructionV| index_ix(i, all)),
                    lookups: mk_lookups(tables, wn, rn, 0),
                },
            )
        }
    }
}

/// Every key an instruction's account list mentions occurs in the reference
/// stream.
pub proof fn lemma_stream_has_account(instrs: Seq<InstructionV>, i: int, j: int)
    requires
        0 <= i < instrs.len(),
        0 <= j < instrs[i].accounts.len(),
    ensures
        stream_has(stream_of(instrs), instrs[i].accounts[j].key),
    decreases instrs.len(),
{
    if i == instrs.len() - 1 {
        let refs = instr_refs(instrs.last());
        assert(refs[j].key == instrs[i].accounts[j].key);
        let pos = stream_of(instrs.drop_last()).len() + j;
        assert(stream_of(instrs)[pos as int].key == instrs[i].accounts[j].key);
    } else {
        lemma_stream_has_account(instrs.drop_last(), i, j);
        assert(instrs.drop_last()[i] == instrs[i]);
        let p = choose|p: int|
            0 <= p < stream_of(instrs.drop_last()).len() && (#[trigger] stream_of(
                instrs.drop_last(),
            )[p]).key == instrs[i].accounts[j].key;
        assert(stream_of(instrs)[p] == stream_of(instrs.drop_last())[p]);
    }
}

/// Every program an instruction invokes occurs in the reference stream.
pub proof fn lemma_stream_has_program(instrs: Seq<InstructionV>, i: int)
    requires
        0 <= i < instrs.len(),
    ensures
        stream_has(stream_of(instrs), instrs[i].program_id),
    decreases instrs.len(),
{
    if i == instrs.len() - 1 {
        let refs = instr_refs(instrs.last());
        let j = instrs[i].accounts.len() as int;
        assert(refs[j].key == instrs[i].program_id);
        let pos = stream_of(instrs.drop_last()).len() + j;
        assert(stream_of(instrs)[pos].key == instrs[i].program_id);
    } else {
        lemma_stream_has_program(instrs.drop_last(), i);
        assert(instrs.drop_last()[i] == instrs[i]);
        let p = choose|p: int|
            0 <= p < stream_of(instrs.drop_last()).len() && (#[trigger] stream_of(
                instrs.drop_last(),
            )[p]).key == instrs[i].program_id;
        assert(stream_of(instrs)[p] == stream_of(instrs.drop_last())[p]);
    }
}

/// Every key the reference stream mentions occurs in the combined account
/// key list: nothing an instruction touches is lost by bucketing or by
/// table compression.
pub proof fn lemma_all_keys_complete(
    payer: Seq<u8>,
    instrs: Seq<InstructionV>,
    tables: Seq<LookupTableV>,
    k: Seq<u8>,
)
    requires
        stream_has(full_stream(payer, instrs), k),
    ensures
        all_keys_spec(payer, instrs, tables).contains(k),
{
    let fs = full_stream(payer, instrs);
    let es = entries(fs);
    lemma_entries_has(fs, k);
    let i = choose|i: int| 0 <= i < keys_of(es).len() && keys_of(es)[i] == k;
    let e = es[i];
    assert(es.contains(e));
    lemma_sel_member(es, e);
    let bucket = sel(es, e.signer, e.writable);
    let bj = choose|bj: int| 0 <= bj < bucket.len() && bucket[bj] == e;
    let ws = sel(es, true, true);
    let rs = sel(es, true, false);
    let wn = sel(es, false, true);
    let rn = sel(es, false, false);
    let statics = static_keys_spec(payer, instrs, tables);
    let all = all_keys_spec(payer, instrs, tables);
    if e.signer {
        if e.writable {
            assert(all[bj] == k);
        } else {
            assert(all[keys_of(ws).len() + bj] == k);
        }
    } else {
        if !compressible(e, tables) {
            lemma_keep_static_member(bucket, tables, e);
            let sj = choose|sj: int|
                0 <= sj < keep_static(bucket, tables).len() && keep_static(bucket, tables)[sj]
                    == e;
            if e.writable {
                assert(all[keys_of(ws).len() + keys_of(rs).len() + sj] == k);
            } else {
                assert(all[keys_of(ws).len() + keys_of(rs).len() + keys_of(
                    keep_static(wn, tables),
                ).len() + sj] == k);
            }
        } else {
            let t = first_tbl(tables, e.key);
            lemma_first_tbl(tables, e.key);
            lemma_look_member(bucket, tables, e);
            lemma_loaded_member(bucket, tables, 0, t, e.key);
            let lj = choose|lj: int|
                0 <= lj < loaded_keys(bucket, tables, 0).len() && #[trigger] loaded_keys(
                    bucket,
                    tables,
                    0,
                )[lj] == k;
            if e.writable {
                assert(all[statics.len() + lj] == k);
            } else {
                assert(all[statics.len() + loaded_keys(wn, tables, 0).len() + lj] == k);
            }
        }
    }
}

/// First position of a key in a key vector, by byte equality.
#[verifier::loop_isolation(false)]
fn find_pos(keys: &Vec<PubKey>, k: &PubKey) -> (r: Option<usize>)
    ensures
        r matches Some(p) ==> first_pos(pk_views(keys@), k@) == p && p < keys@.len(),
        r is None ==> first_pos(pk_views(keys@), k@) == -1,
{
    let n = keys.len();
    let mut i: usize = 0;
    while i < n
        invariant
            i <= n,
            forall|j: int| 0 <= j < i ==> pk_views(keys@)[j] != k@,
        decreases n - i,
    {
        if keys[i].eq_key(k) {
            proof {
                assert(pk_views(keys@)[i as int] == k@);
                lemma_first_pos(pk_views(keys@), k@);
            }
            return Some(i);
        }
        i += 1;
    }
    proof {
        lemma_first_pos(pk_views(keys@), k@);
        if first_pos(pk_views(keys@), k@) != -1 {
            assert(pk_views(keys@)[first_pos(pk_views(keys@), k@)] == k@);
        }
    }
    None
}

/// First position of a key among the deduplicated entries.
#[verifier::loop_isolation(false)]
fn find_entry(es: &Vec<Entry>, k: &PubKey) -> (r: Option<usize>)
    ensures
        r matches Some(p) ==> first_pos(keys_of(entry_views(es@)), k@) == p && p < es@.len(),
        r is None ==> first_pos(keys_of(entry_views(es@)), k@) == -1,
{
    let n = es.len();
    let mut i: usize = 0;
    while i < n
        invariant
            i <= n,
            forall|j: int| 0 <= j < i ==> keys_of(entry_views(es@))[j] != k@,
        decreases n - i,
    {
        if es[i].key.eq_key(k) {
            proof {
                assert(keys_of(entry_views(es@))[i as int] == k@);
                lemma_first_pos(keys_of(entry_views(es@)), k@);
            }
            return Some(i);
        }
        i += 1;
    }
    proof {
        lemma_first_pos(keys_of(entry_views(es@)), k@);
        if first_pos(keys_of(entry_views(es@)), k@) != -1 {
            assert(keys_of(entry_views(es@))[first_pos(keys_of(entry_views(es@)), k@)] == k@);
        }
    }
    None
}

/// Merges one reference occurrence into the deduplicated account list.
fn upsert_exec(es: &mut Vec<Entry>, key: &PubKey, signer: bool, writable: bool, invoked: bool)
    requires
        key.wf(),
        forall|i: int| 0 <= i < old(es)@.len() ==> (#[trigger] old(es)@[i]).key.wf(),
    ensures
        entry_views(final(es)@) == upsert(
            entry_views(old(es)@),
            RefV { key: key@, signer, writable, invoked },
        ),
        forall|i: int| 0 <= i < final(es)@.len() ==> (#[trigger] final(es)@[i]).key.wf(),
{
    let ghost r = RefV { key: key@, signer, writable, invoked };
    match find_entry(es, key) {
        Some(p) => {
            let merged = Entry {
                key: key.clone(),
                signer: es[p].signer || signer,
                writable: es[p].writable || writable,
                invoked: es[p].invoked || invoked,
            };
            proof {
                lemma_first_pos(keys_of(entry_views(es@)), key@);
                assert(entry_views(es@)[p as int].key == key@);
            }
            es.set(p, merged);
            proof {
                assert(entry_views(es@) =~= upsert(entry_views(old(es)@), r));
            }
        },
        None => {
            es.push(Entry { key: key.clone(), signer, writable, invoked });
            proof {
                assert(entry_views(es@) =~= upsert(entry_views(old(es)@), r));
            }
        },
    }
}

/// Collects the deduplicated account list of the payer's reference followed
/// by every instruction's references, in order, with merged access flags.
#[verifier::loop_isolation(false)]
fn build_entries(payer: &PubKey, instrs: &Vec<ExecutableInstruction>) -> (r: Vec<Entry>)
    requires
        payer.wf(),
        forall|i: int| 0 <= i < instrs@.len() ==> (#[trigger] instrs@[i]).wf(),
    ensures
        entry_views(r@) == entries(full_stream(payer@, instr_views(instrs@))),
        forall|i: int| 0 <= i < r@.len() ==> (#[trigger] r@[i]).key.wf(),
{
    let ghost iv = instr_views(instrs@);
    let mut es: Vec<Entry> = Vec::new();
    let ghost mut s: Seq<RefV> = Seq::<RefV>::empty();
    proof {
        assert(entry_views(es@) =~= entries(s));
    }
    upsert_exec(&mut es, payer, true, true, false);
    proof {
        let s2 = s.push(payer_ref(payer@));
        assert(s2.drop_last() =~= s);
        assert(entry_views(es@) == entries(s2));
        s = s2;
    }
    let n = instrs.len();
    let mut i: usize = 0;
    proof {
        assert(iv.subrange(0, 0) =~= Seq::<InstructionV>::empty());
        assert(s =~= seq![payer_ref(payer@)] + stream_of(iv.subrange(0, 0)));
    }
    while i < n
        invariant
            i <= n,
            iv == instr_views(instrs@),
            n == instrs@.len(),
            s == seq![payer_ref(payer@)] + stream_of(iv.subrange(0, i as int)),
            entry_views(es@) == entries(s),
            forall|q: int| 0 <= q < es@.len() ==> (#[trigger] es@[q]).key.wf(),
        decreases n - i,
    {
        let ins = &instrs[i];
        let m = ins.accounts.len();
        let mut j: usize = 0;
        while j < m
            invariant
                j <= m,
                m == ins.accounts@.len(),
                i < n,
                ins == instrs@[i as int],
                s == seq![payer_ref(payer@)] + stream_of(iv.subrange(0, i as int)) + acc_refs(
                    iv[i as int].accounts.subrange(0, j as int),
                ),
                entry_views(es@) == entries(s),
                forall|q: int| 0 <= q < es@.len() ==> (#[trigger] es@[q]).key.wf(),
            decreases m - j,
        {
            let acc = &ins.accounts[j];
            let signs = acc.mode == crate::instructions::AccessMode::SignerWritable || acc.mode
                == crate::instructions::AccessMode::SignerReadonly;
            let writes = acc.mode == crate::instructions::AccessMode::SignerWritable || acc.mode
                == crate::instructions::AccessMode::Writable;
            proof {
                assert(signs == mode_signs(acc.mode));
                assert(writes == mode_writes(acc.mode));
                assert(iv[i as int].accounts[j as int] == acc@);
            }
            upsert_exec(&mut es, &acc.key, signs, writes, false);
            proof {
                let r = RefV { key: acc.key@, signer: signs, writable: writes, invoked: false };
                let s2 = s.push(r);
                assert(s2.drop_last() =~= s);
                assert(entry_views(es@) == entries(s2));
                assert(s2 =~= seq![payer_ref(payer@)] + stream_of(iv.subrange(0, i as int))
                    + acc_refs(iv[i as int].accounts.subrange(0, j as int + 1)));
                s = s2;
            }
            j += 1;
        }
        upsert_exec(&mut es, &ins.program_id, false, false, true);
        proof {
            let r = RefV { key: ins.program_id@, signer: false, writable: false, invoked: true };
            let s2 = s.push(r);
            assert(s2.drop_last() =~= s);
            assert(entry_views(es@) == entries(s2));
            assert(iv[i as int].accounts.subrange(0, m as int) =~= iv[i as int].accounts);
            assert(s2 =~= seq![payer_ref(payer@)] + stream_of(iv.subrange(0, i as int))
                + instr_refs(iv[i as int]));
            let pre = iv.subrange(0, i as int + 1);
            assert(pre.drop_last() =~= iv.subrange(0, i as int));
            assert(pre.last() == iv[i as int]);
            assert(stream_of(pre) == stream_of(iv.subrange(0, i as int)) + instr_refs(
                iv[i as int],
            ));
            assert(s2 =~= seq![payer_ref(payer@)] + stream_of(pre));
            s = s2;
        }
        i += 1;
    }
    proof {
        assert(iv.subrange(0, n as int) =~= iv);
    }
    es
}

/// Whether the payer occurs in some instruction's account list.
#[verifier::loop_isolation(false)]
fn payer_in_accounts(instrs: &Vec<ExecutableInstruction>, payer: &PubKey) -> (r: bool)
    ensures
        r == payer_referenced(instr_views(instrs@), payer@),
{
    let ghost iv = instr_views(instrs@);
    let n = instrs.len();
    let mut i: usize = 0;
    while i < n
        invariant
            i <= n,
            n == instrs@.len(),
            iv == instr_views(instrs@),
            forall|a: int, b: int|
                0 <= a < i && 0 <= b < iv[a].accounts.len() ==> (#[trigger] iv[a].accounts[b]).key
                    != payer@,
        decreases n - i,
    {
        let ins = &instrs[i];
        let m = ins.accounts.len();
        let mut j: usize = 0;
        while j < m
            invariant
                j <= m,
                i < n,
                m == ins.accounts@.len(),
                ins == instrs@[i as int],
                forall|b: int|
                    0 <= b < j ==> (#[trigger] iv[i as int].accounts[b]).key != payer@,
            decreases m - j,
        {
            if ins.accounts[j].key.eq_key(payer) {
                proof {
                    assert(iv[i as int].accounts[j as int].key == payer@);
                }
                return true;
            }
            proof {
                assert(iv[i as int].accounts[j as int] == ins.accounts@[j as int]@);
            }
            j += 1;
        }
        i += 1;
    }
    proof {
        if payer_referenced(iv, payer@) {
            let (a, b) = choose|a: int, b: int|
                0 <= a < iv.len() && 0 <= b < (#[trigger] iv[a]).accounts.len() && (#[trigger] iv[a].accounts[b]).key == payer@;
            assert(iv[a].accounts[b].key != payer@);
        }
    }
    false
}

/// The entries of one access-flag class, in first-seen order.
#[verifier::loop_isolation(false)]
fn bucket(es: &Vec<Entry>, want_signer: bool, want_writable: bool) -> (r: Vec<Entry>)
    requires
        forall|i: int| 0 <= i < es@.len() ==> (#[trigger] es@[i]).key.wf(),
    ensures
        entry_views(r@) == sel(entry_views(es@), want_signer, want_writable),
        forall|i: int| 0 <= i < r@.len() ==> (#[trigger] r@[i]).key.wf(),
{
    let mut out: Vec<Entry> = Vec::new();
    let n = es.len();
    let mut i: usize = 0;
    proof {
        assert(entry_views(out@) =~= sel(
            entry_views(es@).subrange(0, 0),
            want_signer,
            want_writable,
        ));
    }
    while i < n
        invariant
            i <= n,
            n == es@.len(),
            entry_views(out@) == sel(
                entry_views(es@).subrange(0, i as int),
                want_signer,
                want_writable,
            ),
            forall|q: int| 0 <= q < out@.len() ==> (#[trigger] out@[q]).key.wf(),
        decreases n - i,
    {
        proof {
            let pre = entry_views(es@).subrange(0, i as int + 1);
            assert(pre.drop_last() =~= entry_views(es@).subrange(0, i as int));
            assert(pre.last() == entry_views(es@)[i as int]);
        }
        let e = &es[i];
        if e.signer == want_signer && e.writable == want_writable {
            let copy = Entry {
                key: e.key.clone(),
                signer: e.signer,
                writable: e.writable,
                invoked: e.invoked,
            };
            let ghost old_views = entry_views(out@);
            out.push(copy);
            proof {
                assert(entry_views(out@) =~= old_views + seq![entry_views(es@)[i as int]]);
            }
        } else {
            proof {
                assert(entry_views(out@) =~= entry_views(out@) + Seq::<EntryV>::empty());
            }
        }
        i += 1;
    }
    proof {
        assert(entry_views(es@).subrange(0, n as int) =~= entry_views(es@));
    }
    out
}

/// Index of the first supplied table that stores a key.
#[verifier::loop_isolation(false)]
fn first_tbl_exec(tables: &Vec<LookupTableAccount>, k: &PubKey) -> (r: Option<usize>)
    ensures
        r matches Some(p) ==> first_tbl(table_views(tables@), k@) == p && p < tables@.len(),
        r is None ==> first_tbl(table_views(tables@), k@) == -1,
{
    let ghost tv = table_views(tables@);
    let n = tables.len();
    let mut i: usize = 0;
    while i < n
        invariant
            i <= n,
            n == tables@.len(),
            tv == table_views(tables@),
            forall|j: int| 0 <= j < i ==> !in_table(#[trigger] tv[j], k@),
        decreases n - i,
    {
        let hit = match find_pos(&tables[i].addresses, k) {
            Some(_) => true,
            None => false,
        };
        proof {
            assert(pk_views(tables@[i as int].addresses@) =~= tv[i as int].addresses);
            lemma_first_pos_exists(tv[i as int].addresses, k@);
        }
        if hit {
            proof {
                lemma_first_tbl(tv, k@);
            }
            return Some(i);
        }
        i += 1;
    }
    proof {
        lemma_first_tbl(tv, k@);
    }
    None
}

/// The entries of a non-signer bucket that stay static: invoked programs and
/// keys no supplied table stores.
#[verifier::loop_isolation(false)]
fn keep_static_exec(es: &Vec<Entry>, tables: &Vec<LookupTableAccount>) -> (r: Vec<Entry>)
    requires
        forall|i: int| 0 <= i < es@.len() ==> (#[trigger] es@[i]).key.wf(),
    ensures
        entry_views(r@) == keep_static(entry_views(es@), table_views(tables@)),
        forall|i: int| 0 <= i < r@.len() ==> (#[trigger] r@[i]).key.wf(),
{
    let ghost tv = table_views(tables@);
    let mut out: Vec<Entry> = Vec::new();
    let n = es.len();
    let mut i: usize = 0;
    proof {
        assert(entry_views(out@) =~= keep_static(entry_views(es@).subrange(0, 0), tv));
    }
    while i < n
        invariant
            i <= n,
            n == es@.len(),
            tv == table_views(tables@),
            entry_views(out@) == keep_static(entry_views(es@).subrange(0, i as int), tv),
            forall|q: int| 0 <= q < out@.len() ==> (#[trigger] out@[q]).key.wf(),
        decreases n - i,
    {
        proof {
            let pre = entry_views(es@).subrange(0, i as int + 1);
            assert(pre.drop_last() =~= entry_views(es@).subrange(0, i as int));
            assert(pre.last() == entry_views(es@)[i as int]);
        }
        let e = &es[i];
        let served = match first_tbl_exec(tables, &e.key) {
            Some(_) => true,
            None => false,
        };
        if e.invoked || !served {
            let copy = Entry {
                key: e.key.clone(),
                signer: e.signer,
                writable: e.writable,
                invoked: e.invoked,
            };
            let ghost old_views = entry_views(out@);
            out.push(copy);
            proof {
                assert(!compressible(entry_views(es@)[i as int], tv));
                assert(entry_views(out@) =~= old_views + seq![entry_views(es@)[i as int]]);
            }
        } else {
            proof {
                assert(compressible(entry_views(es@)[i as int], tv));
                assert(entry_views(out@) =~= entry_views(out@) + Seq::<EntryV>::empty());
            }
        }
        i += 1;
    }
    proof {
        assert(entry_views(es@).subrange(0, n as int) =~= entry_views(es@));
    }
    out
}

/// The keys of one bucket that the given table serves, in first-seen order.
#[verifier::loop_isolation(false)]
fn look_keys_exec(es: &Vec<Entry>, tables: &Vec<LookupTableAccount>, t: usize) -> (r: Vec<PubKey>)
    requires
        t < tables@.len(),
        forall|i: int| 0 <= i < es@.len() ==> (#[trigger] es@[i]).key.wf(),
    ensures
        pk_views(r@) == look_keys(entry_views(es@), table_views(tables@), t as int),
        forall|i: int| 0 <= i < r@.len() ==> (#[trigger] r@[i]).wf(),
{
    let ghost tv = table_views(tables@);
    let mut out: Vec<PubKey> = Vec::new();
    let n = es.len();
    let mut i: usize = 0;
    proof {
        assert(pk_views(out@) =~= look_keys(entry_views(es@).subrange(0, 0), tv, t as int));
    }
    while i < n
        invariant
            i <= n,
            n == es@.len(),
            tv == table_views(tables@),
            t < tables@.len(),
            pk_views(out@) == look_keys(entry_views(es@).subrange(0, i as int), tv, t as int),
            forall|q: int| 0 <= q < out@.len() ==> (#[trigger] out@[q]).wf(),
        decreases n - i,
    {
        proof {
            let pre = entry_views(es@).subrange(0, i as int + 1);
            assert(pre.drop_last() =~= entry_views(es@).subrange(0, i as int));
            assert(pre.last() == entry_views(es@)[i as int]);
        }
        let e = &es[i];
        let here = if e.invoked {
            false
        } else {
            match first_tbl_exec(tables, &e.key) {
                Some(p) => p == t,
                None => false,
            }
        };
        if here {
            let ghost old_views = pk_views(out@);
            out.push(e.key.clone());
            proof {
                assert(pk_views(out@) =~= old_views + seq![entry_views(es@)[i as int].key]);
            }
        } else {
            proof {
                assert(!(!entry_views(es@)[i as int].invoked && first_tbl(
                    tv,
                    entry_views(es@)[i as int].key,
                ) == t));
                assert(pk_views(out@) =~= pk_views(out@) + Seq::<Seq<u8>>::empty());
            }
        }
        i += 1;
    }
    proof {
        assert(entry_views(es@).subrange(0, n as int) =~= entry_views(es@));
    }
    out
}

/// The within-table positions of a list of keys the table stores.
#[verifier::loop_isolation(false)]
fn idxs_exec(ks: &Vec<PubKey>, table: &LookupTableAccount) -> (r: Vec<u8>)
    requires
        table.wf(),
        forall|i: int| 0 <= i < ks@.len() ==> table@.addresses.contains(#[trigger] pk_views(ks@)[i]),
    ensures
        r@ == idxs_of(pk_views(ks@), table@),
        r@.len() == ks@.len(),
{
    let mut out: Vec<u8> = Vec::new();
    let n = ks.len();
    let mut i: usize = 0;
    while i < n
        invariant
            i <= n,
            n == ks@.len(),
            out@.len() == i,
            forall|j: int| 0 <= j < i ==> out@[j] == idxs_of(pk_views(ks@), table@)[j],
        decreases n - i,
    {
        proof {
            lemma_first_pos_exists(table@.addresses, pk_views(ks@)[i as int]);
            assert(pk_views(table.addresses@) =~= table@.addresses);
        }
        let p = match find_pos(&table.addresses, &ks[i]) {
            Some(p) => p,
            None => {
                proof {
                    assert(false);
                }
                0
            },
        };
        out.push(p as u8);
        proof {
            assert(out@[i as int] == idxs_of(pk_views(ks@), table@)[i as int]);
        }
        i += 1;
    }
    proof {
        assert(out@ =~= idxs_of(pk_views(ks@), table@));
    }
    out
}

/// Appends the keys of a list of entries to a key vector.
#[verifier::loop_isolation(false)]
fn push_keys(dst: &mut Vec<PubKey>, es: &Vec<Entry>)
    requires
        forall|i: int| 0 <= i < es@.len() ==> (#[trigger] es@[i]).key.wf(),
        forall|i: int| 0 <= i < old(dst)@.len() ==> (#[trigger] old(dst)@[i]).wf(),
    ensures
        pk_views(final(dst)@) == pk_views(old(dst)@) + keys_of(entry_views(es@)),
        forall|i: int| 0 <= i < final(dst)@.len() ==> (#[trigger] final(dst)@[i]).wf(),
{
    let n = es.len();
    let mut i: usize = 0;
    while i < n
        invariant
            i <= n,
            n == es@.len(),
            pk_views(dst@) == pk_views(old(dst)@) + keys_of(entry_views(es@)).subrange(
                0,
                i as int,
            ),
            forall|q: int| 0 <= q < dst@.len() ==> (#[trigger] dst@[q]).wf(),
        decreases n - i,
    {
        let ghost old_views = pk_views(dst@);
        dst.push(es[i].key.clone());
        proof {
            assert(pk_views(dst@) =~= old_views + seq![keys_of(entry_views(es@))[i as int]]);
            assert(pk_views(dst@) =~= pk_views(old(dst)@) + keys_of(entry_views(es@)).subrange(
                0,
                i as int + 1,
            ));
        }
        i += 1;
    }
    proof {
        assert(keys_of(entry_views(es@)).subrange(0, n as int) =~= keys_of(entry_views(es@)));
        assert(pk_views(dst@) =~= pk_views(old(dst)@) + keys_of(entry_views(es@)));
    }
}

/// One table's served key list is never longer than the whole loaded list.
pub proof fn lemma_look_len(es: Seq<EntryV>, tables: Seq<LookupTableV>, u: int, t: int)
    requires
        0 <= u <= t < tables.len(),
    ensures
        look_keys(es, tables, t).len() <= loaded_keys(es, tables, u).len(),
    decreases t - u,
{
    if u == t {
    } else {
        lemma_look_len(es, tables, u + 1, t);
    }
}

/// The images of a list of compiled instructions.
pub open spec fn cix_views(v: Seq<CompiledInstruction>) -> Seq<CompiledIxV> {
    v.map_values(|c: CompiledInstruction| c@)
}

/// The images of a list of table references.
pub open spec fn lookup_views(v: Seq<TableLookup>) -> Seq<TableLookupV> {
    v.map_values(|l: TableLookup| l@)
}

/// Appends copies of one key vector to another.
#[verifier::loop_isolation(false)]
fn append_keys(dst: &mut Vec<PubKey>, src: &Vec<PubKey>)
    requires
        forall|i: int| 0 <= i < src@.len() ==> (#[trigger] src@[i]).wf(),
        forall|i: int| 0 <= i < old(dst)@.len() ==> (#[trigger] old(dst)@[i]).wf(),
    ensures
        pk_views(final(dst)@) == pk_views(old(dst)@) + pk_views(src@),
        forall|i: int| 0 <= i < final(dst)@.len() ==> (#[trigger] final(dst)@[i]).wf(),
{
    let n = src.len();
    let mut i: usize = 0;
    while i < n
        invariant
            i <= n,
            n == src@.len(),
            pk_views(dst@) == pk_views(old(dst)@) + pk_views(src@).subrange(0, i as int),
            forall|q: int| 0 <= q < dst@.len() ==> (#[trigger] dst@[q]).wf(),
        decreases n - i,
    {
        let ghost old_views = pk_views(dst@);
        dst.push(src[i].clone());
        proof {
            assert(pk_views(dst@) =~= old_views + seq![pk_views(src@)[i as int]]);
            assert(pk_views(dst@) =~= pk_views(old(dst)@) + pk_views(src@).subrange(
                0,
                i as int + 1,
            ));
        }
        i += 1;
    }
    proof {
        assert(pk_views(src@).subrange(0, n as int) =~= pk_views(src@));
    }
}

/// Compiles the fee payer, the ordered executable instructions, the
/// resolved lookup tables, and the freshness token into a versioned message:
/// referenced accounts are deduplicated into four buckets with their
/// strongest access mode, non-signer non-invoked keys stored in a supplied
/// table are replaced by table indexes, and every instruction is rewritten
/// over the combined key list with its account order preserved verbatim.
#[verifier::loop_isolation(false)]
#[verifier::rlimit(80)]
pub fn compile(
    payer: &PubKey,
    instrs: &Vec<ExecutableInstruction>,
    tables: &Vec<LookupTableAccount>,
    hash: &Blockhash,
) -> (r: Result<CompiledMessage, CompileError>)
    requires
        payer.wf(),
        hash.wf(),
        instrs@.len() <= 65535,
        forall|i: int| 0 <= i < instrs@.len() ==> (#[trigger] instrs@[i]).wf(),
        tables@.len() <= 256,
        forall|i: int| 0 <= i < tables@.len() ==> (#[trigger] tables@[i]).wf(),
    ensures
        r matches Ok(m) ==> compile_spec(payer@, instr_views(instrs@), table_views(tables@), hash@)
            == Ok::<MessageV, CompileError>(m@) && m.wf(),
        r matches Err(e) ==> compile_spec(payer@, instr_views(instrs@), table_views(tables@), hash@)
            == Err::<MessageV, CompileError>(e),
{
    let ghost iv = instr_views(instrs@);
    let ghost tv = table_views(tables@);
    let nck = instrs.len();
    let mut ck: usize = 0;
    while ck < nck
        invariant
            ck <= nck,
            nck == instrs@.len(),
            forall|q: int|
                0 <= q < ck ==> (#[trigger] iv[q]).accounts.len() <= 65535 && iv[q].data.len()
                    <= 65535,
        decreases nck - ck,
    {
        proof {
            assert(iv[ck as int] == instrs@[ck as int]@);
        }
        if instrs[ck].accounts.len() > 65535 || instrs[ck].data.len() > 65535 {
            proof {
                assert(too_large(iv));
            }
            return Err(CompileError::TooManyAccounts);
        }
        ck += 1;
    }
    proof {
        if too_large(iv) {
            let w = choose|w: int|
                0 <= w < iv.len() && ((#[trigger] iv[w]).accounts.len() > 65535 || iv[w].data.len()
                    > 65535);
            assert(iv[w].accounts.len() <= 65535 && iv[w].data.len() <= 65535);
        }
    }
    if !payer_in_accounts(instrs, payer) {
        return Err(CompileError::MissingPayer);
    }
    let es = build_entries(payer, instrs);
    let ghost esv = entry_views(es@);
    let ws = bucket(&es, true, true);
    let rs = bucket(&es, true, false);
    let wn = bucket(&es, false, true);
    let rn = bucket(&es, false, false);
    let ghost wsv = sel(esv, true, true);
    let ghost rsv = sel(esv, true, false);
    let ghost wnv = sel(esv, false, true);
    let ghost rnv = sel(esv, false, false);
    let wn_st = keep_static_exec(&wn, tables);
    let rn_st = keep_static_exec(&rn, tables);
    let mut statics: Vec<PubKey> = Vec::new();
    push_keys(&mut statics, &ws);
    push_keys(&mut statics, &rs);
    push_keys(&mut statics, &wn_st);
    push_keys(&mut statics, &rn_st);
    let ghost base = static_keys_spec(payer@, iv, tv);
    proof {
        assert(pk_views(statics@) =~= base);
    }
    let mut all: Vec<PubKey> = Vec::new();
    append_keys(&mut all, &statics);
    proof {
        assert(pk_views(all@) =~= base);
    }
    let tn = tables.len();
    let mut t: usize = 0;
    while t < tn
        invariant
            t <= tn,
            tn == tables@.len(),
            pk_views(all@) + loaded_keys(wnv, tv, t as int) == base + loaded_keys(wnv, tv, 0),
            forall|q: int| 0 <= q < all@.len() ==> (#[trigger] all@[q]).wf(),
        decreases tn - t,
    {
        let wl = look_keys_exec(&wn, tables, t);
        let ghost before = pk_views(all@);
        append_keys(&mut all, &wl);
        proof {
            assert(pk_views(all@) =~= before + look_keys(wnv, tv, t as int));
            assert(pk_views(all@) + loaded_keys(wnv, tv, t as int + 1) =~= before + loaded_keys(
                wnv,
                tv,
                t as int,
            ));
        }
        t += 1;
    }
    proof {
        assert(pk_views(all@) =~= base + loaded_keys(wnv, tv, 0));
    }
    let ghost base2 = base + loaded_keys(wnv, tv, 0);
    let mut t2: usize = 0;
    while t2 < tn
        invariant
            t2 <= tn,
            tn == tables@.len(),
            pk_views(all@) + loaded_keys(rnv, tv, t2 as int) == base2 + loaded_keys(rnv, tv, 0),
            forall|q: int| 0 <= q < all@.len() ==> (#[trigger] all@[q]).wf(),
        decreases tn - t2,
    {
        let rl = look_keys_exec(&rn, tables, t2);
        let ghost before = pk_views(all@);
        append_keys(&mut all, &rl);
        proof {
            assert(pk_views(all@) =~= before + look_keys(rnv, tv, t2 as int));
            assert(pk_views(all@) + loaded_keys(rnv, tv, t2 as int + 1) =~= before + loaded_keys(
                rnv,
                tv,
                t2 as int,
            ));
        }
        t2 += 1;
    }
    let ghost allv = all_keys_spec(payer@, iv, tv);
    proof {
        assert(pk_views(all@) =~= allv);
    }
    let total = all.len();
    proof {
        assert(total == allv.len());
    }
    if total > 256 {
        return Err(CompileError::TooManyAccounts);
    }
    proof {
        assert(ws@.len() + rs@.len() <= pk_views(statics@).len());
        assert(pk_views(statics@).len() <= allv.len());
    }
    let nsign = ws.len() + rs.len();
    if nsign > 255 {
        return Err(CompileError::TooManyAccounts);
    }
    if rn_st.len() > 255 {
        return Err(CompileError::TooManyAccounts);
    }
    let mut cixs: Vec<CompiledInstruction> = Vec::new();
    let ni = instrs.len();
    let mut i: usize = 0;
    while i < ni
        invariant
            i <= ni,
            ni == instrs@.len(),
            cixs@.len() == i,
            forall|q: int| 0 <= q < i ==> (#[trigger] cixs@[q])@ == index_ix(iv[q], allv),
        decreases ni - i,
    {
        let ins = &instrs[i];
        proof {
            lemma_stream_has_program(iv, i as int);
            let p = choose|p: int|
                0 <= p < stream_of(iv).len() && (#[trigger] stream_of(iv)[p]).key
                    == iv[i as int].program_id;
            assert(full_stream(payer@, iv)[p + 1].key == iv[i as int].program_id);
            assert(stream_has(full_stream(payer@, iv), iv[i as int].program_id));
            lemma_all_keys_complete(payer@, iv, tv, iv[i as int].program_id);
            lemma_first_pos_exists(allv, iv[i as int].program_id);
        }
        let pidx = match find_pos(&all, &ins.program_id) {
            Some(p) => p,
            None => {
                proof {
                    assert(false);
                }
                0
            },
        };
        let m = ins.accounts.len();
        let mut aidx: Vec<u8> = Vec::new();
        let mut j: usize = 0;
        while j < m
            invariant
                j <= m,
                m == ins.accounts@.len(),
                ins == instrs@[i as int],
                i < ni,
                aidx@.len() == j,
                forall|q: int|
                    0 <= q < j ==> aidx@[q] == index_ix(iv[i as int], allv).account_indexes[q],
            decreases m - j,
        {
            proof {
                assert(iv[i as int].accounts[j as int] == ins.accounts@[j as int]@);
                lemma_stream_has_account(iv, i as int, j as int);
                let p = choose|p: int|
                    0 <= p < stream_of(iv).len() && (#[trigger] stream_of(iv)[p]).key
                        == iv[i as int].accounts[j as int].key;
                assert(full_stream(payer@, iv)[p + 1].key == iv[i as int].accounts[j as int].key);
                assert(stream_has(full_stream(payer@, iv), iv[i as int].accounts[j as int].key));
                lemma_all_keys_complete(payer@, iv, tv, iv[i as int].accounts[j as int].key);
                lemma_first_pos_exists(allv, iv[i as int].accounts[j as int].key);
            }
            let kidx = match find_pos(&all, &ins.accounts[j].key) {
                Some(p) => p,
                None => {
                    proof {
                        assert(false);
                    }
                    0
                },
            };
            aidx.push(kidx as u8);
            proof {
                assert(aidx@[j as int] == index_ix(iv[i as int], allv).account_indexes[j as int]);
            }
            j += 1;
        }
        let ci = CompiledInstruction {
            program_id_index: pidx as u8,
            account_indexes: aidx,
            data: clone_bytes(&ins.data),
        };
        proof {
            assert(ci@.account_indexes =~= index_ix(iv[i as int], allv).account_indexes);
            assert(ci@.data =~= index_ix(iv[i as int], allv).data);
            assert(ci@ =~~= index_ix(iv[i as int], allv));
        }
        cixs.push(ci);
        i += 1;
    }
    proof {
        assert(cix_views(cixs@) =~= iv.map_values(|x: InstructionV| index_ix(x, allv)));
    }
    let mut lookups: Vec<TableLookup> = Vec::new();
    let mut t3: usize = 0;
    proof {
        assert(lookup_views(lookups@) + mk_lookups(tv, wnv, rnv, 0) =~= mk_lookups(
            tv,
            wnv,
            rnv,
            0,
        ));
    }
    while t3 < tn
        invariant
            t3 <= tn,
            tn == tables@.len(),
            lookups@.len() <= t3,
            lookup_views(lookups@) + mk_lookups(tv, wnv, rnv, t3 as int) == mk_lookups(
                tv,
                wnv,
                rnv,
                0,
            ),
            forall|q: int|
                0 <= q < lookups@.len() ==> (#[trigger] lookups@[q]).table_key@.len() == 32
                    && lookups@[q].writable_indexes@.len() <= 65535
                    && lookups@[q].readonly_indexes@.len() <= 65535,
        decreases tn - t3,
    {
        let wl = look_keys_exec(&wn, tables, t3);
        let rl = look_keys_exec(&rn, tables, t3);
        proof {
            assert forall|x: int| 0 <= x < wl@.len() implies tables@[t3 as int]@.addresses.contains(
                #[trigger] pk_views(wl@)[x],
            ) by {
                assert(look_keys(wnv, tv, t3 as int).contains(pk_views(wl@)[x]));
                lemma_look_sub(wnv, tv, t3 as int, pk_views(wl@)[x]);
                lemma_first_tbl(tv, pk_views(wl@)[x]);
            }
            assert forall|x: int| 0 <= x < rl@.len() implies tables@[t3 as int]@.addresses.contains(
                #[trigger] pk_views(rl@)[x],
            ) by {
                assert(look_keys(rnv, tv, t3 as int).contains(pk_views(rl@)[x]));
                lemma_look_sub(rnv, tv, t3 as int, pk_views(rl@)[x]);
                lemma_first_tbl(tv, pk_views(rl@)[x]);
            }
        }
        let wi = idxs_exec(&wl, &tables[t3]);
        let ri = idxs_exec(&rl, &tables[t3]);
        let ghost wspec = idxs_of(look_keys(wnv, tv, t3 as int), tv[t3 as int]);
        let ghost rspec = idxs_of(look_keys(rnv, tv, t3 as int), tv[t3 as int]);
        proof {
            assert(wi@ =~= wspec);
            assert(ri@ =~= rspec);
        }
        if wi.len() == 0 && ri.len() == 0 {
            proof {
                assert(mk_lookups(tv, wnv, rnv, t3 as int) == mk_lookups(
                    tv,
                    wnv,
                    rnv,
                    t3 as int + 1,
                ));
            }
        } else {
            let tl = TableLookup {
                table_key: tables[t3].key.clone(),
                writable_indexes: wi,
                readonly_indexes: ri,
            };
            let ghost old_views = lookup_views(lookups@);
            proof {
                assert(tl@ =~~= (TableLookupV {
                    table_key: tv[t3 as int].key,
                    writable_indexes: wspec,
                    readonly_indexes: rspec,
                }));
                if t3 as int + 1 <= tn as int {
                    lemma_look_len(wnv, tv, 0, t3 as int);
                    lemma_look_len(rnv, tv, 0, t3 as int);
                }
            }
            lookups.push(tl);
            proof {
                assert(lookup_views(lookups@) =~= old_views + seq![tl@]);
                assert(mk_lookups(tv, wnv, rnv, t3 as int) == seq![tl@] + mk_lookups(
                    tv,
                    wnv,
                    rnv,
                    t3 as int + 1,
                ));
                assert(lookup_views(lookups@) + mk_lookups(tv, wnv, rnv, t3 as int + 1)
                    =~= old_views + mk_lookups(tv, wnv, rnv, t3 as int));
            }
        }
        t3 += 1;
    }
    proof {
        assert(lookup_views(lookups@) =~= mk_lookups(tv, wnv, rnv, 0));
    }
    let msg = CompiledMessage {
        num_required_signatures: nsign as u8,
        num_readonly_signed: rs.len() as u8,
        num_readonly_unsigned: rn_st.len() as u8,
        static_keys: statics,
        recent_blockhash: Blockhash { bytes: clone_bytes(&hash.bytes) },
        instructions: cixs,
        lookups,
    };
    proof {
        let spec_r = compile_spec(payer@, iv, tv, hash@);
        assert(spec_r is Ok);
        let sm = spec_r->Ok_0;
        assert(msg@.static_keys =~= sm.static_keys);
        assert(msg@.instructions =~= sm.instructions);
        assert(msg@.lookups =~= sm.lookups);
        assert(msg@.recent_blockhash =~= sm.recent_blockhash);
        assert(msg@ =~~= sm);
        assert(msg.wf());
    }
    Ok(msg)
}

} // verus!
