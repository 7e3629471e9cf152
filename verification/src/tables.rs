use vstd::prelude::*;
use crate::keys::PubKey;

verus! {

/// One resolved address-lookup table: its on-chain key and the ordered list
/// of addresses it stores. Read-only after fetch; used only to compress the
/// compiled message, never to alter transaction semantics.
pub struct LookupTableAccount {
    pub key: PubKey,
    pub addresses: Vec<PubKey>,
}

/// Mathematical image of a resolved lookup table.
#[verifier::ext_equal]
pub ghost struct LookupTableV {
    pub key: Seq<u8>,
    pub addresses: Seq<Seq<u8>>,
}

impl View for LookupTableAccount {
    type V = LookupTableV;

    open spec fn view(&self) -> LookupTableV {
        LookupTableV { key: self.key@, addresses: self.addresses@.map_values(|p: PubKey| p@) }
    }
}

/// Well-formedness of a table image: 32-byte keys throughout, and no more
/// entries than the protocol lets a table hold.
pub open spec fn table_wf(t: LookupTableV) -> bool {
    &&& t.key.len() == 32
    &&& t.addresses.len() <= 256
    &&& forall|i: int| 0 <= i < t.addresses.len() ==> (#[trigger] t.addresses[i]).len() == 32
}

impl LookupTableAccount {
    pub open spec fn wf(&self) -> bool {
        table_wf(self@)
    }
}

/// The images of a list of resolved tables, in order.
pub open spec fn table_views(v: Seq<LookupTableAccount>) -> Seq<LookupTableV> {
    v.map_values(|t: LookupTableAccount| t@)
}

/// Whether raw account bytes hold an initialized lookup table.
///
/// On-chain account layout:
///   bytes 0..4    state discriminant, little endian; 1 means initialized
///   bytes 4..20   deactivation and last-extension slot bookkeeping
///   byte  20      last-extension start index
///   byte  21      authority tag: 0 = none, 1 = a 32-byte authority follows
///   bytes 22..54  authority key when the tag is 1
///   bytes 54..56  padding
///   bytes 56..    the stored addresses, 32 bytes each, at most 256 of them
pub open spec fn table_data_ok(d: Seq<u8>) -> bool {
    &&& d.len() >= 56
    &&& d[0] == 1u8
    &&& d[1] == 0u8
    &&& d[2] == 0u8
    &&& d[3] == 0u8
    &&& (d[21] == 0u8 || d[21] == 1u8)
    &&& (d.len() - 56) % 32 == 0
    &&& d.len() <= 56 + 256 * 32
}

/// The i-th stored address of a well-formed table account.
pub open spec fn table_addr(d: Seq<u8>, i: int) -> Seq<u8> {
    d.subrange(56 + 32 * i, 56 + 32 * i + 32)
}

/// Parses raw account bytes as a lookup table; `None` on anything that is not
/// an initialized, well-sized table account.
#[verifier::loop_isolation(false)]
pub fn parse_lookup_table(key: PubKey, data: &Vec<u8>) -> (r: Option<LookupTableAccount>)
    requires
        key.wf(),
    ensures
        r is Some <==> table_data_ok(data@),
        r matches Some(t) ==> t.wf() && t@.key == key@ && t@.addresses.len() == (data@.len() - 56)
            / 32 && (forall|i: int|
            0 <= i < t@.addresses.len() ==> #[trigger] t@.addresses[i] == table_addr(data@, i)),
{
    let len = data.len();
    if len < 56 || len > 56 + 256 * 32 {
        return None;
    }
    if !(data[0] == 1 && data[1] == 0 && data[2] == 0 && data[3] == 0) {
        return None;
    }
    if !(data[21] == 0 || data[21] == 1) {
        return None;
    }
    if (len - 56) % 32 != 0 {
        return None;
    }
    let count = (len - 56) / 32;
    let mut addresses: Vec<PubKey> = Vec::new();
    let mut i: usize = 0;
    while i < count
        invariant
            addresses@.len() == i,
            i <= count,
            forall|j: int| 0 <= j < i ==> (#[trigger] addresses@[j])@ == table_addr(data@, j),
            forall|j: int| 0 <= j < i ==> (#[trigger] addresses@[j]).wf(),
        decreases count - i,
    {
        let mut bytes: Vec<u8> = Vec::new();
        let base = 56 + 32 * i;
        let mut j: usize = 0;
        while j < 32
            invariant
                j <= 32,
                base == 56 + 32 * i,
                i < count,
                bytes@ == data@.subrange(base as int, base as int + j as int),
            decreases 32 - j,
        {
            bytes.push(data[base + j]);
            proof {
                assert(bytes@ =~= data@.subrange(base as int, base as int + j as int + 1));
            }
            j += 1;
        }
        addresses.push(PubKey { bytes });
        i += 1;
    }
    let t = LookupTableAccount { key, addresses };
    proof {
        assert(t@.addresses.len() == count);
        assert(forall|j: int|
            0 <= j < count ==> #[trigger] t@.addresses[j] == table_addr(data@, j));
    }
    Some(t)
}

/// The image of the table a key and well-formed account bytes stand for.
pub open spec fn table_of(key: Seq<u8>, d: Seq<u8>) -> LookupTableV {
    LookupTableV {
        key,
        addresses: Seq::new((((d.len() - 56) / 32) as nat), |i: int| table_addr(d, i)),
    }
}

/// What best-effort resolution yields: each address whose fetch produced
/// bytes that parse as a table contributes one entry, in input order; a
/// failed fetch or an unparsable account is skipped without aborting the
/// rest.
pub open spec fn resolve_spec(addrs: Seq<PubKey>, fetched: Seq<Option<Vec<u8>>>) -> Seq<
    LookupTableV,
>
    decreases addrs.len(),
{
    if addrs.len() == 0 {
        Seq::<LookupTableV>::empty()
    } else {
        resolve_spec(addrs.drop_last(), fetched.drop_last()) + (match fetched.last() {
            Some(d) => if table_data_ok(d@) {
                seq![table_of(addrs.last()@, d@)]
            } else {
                Seq::<LookupTableV>::empty()
            },
            None => Seq::<LookupTableV>::empty(),
        })
    }
}

/// Resolves lookup tables from per-address fetch outcomes: one attempt per
/// address, failures skipped, successes kept in input order.
#[verifier::loop_isolation(false)]
pub fn resolve_tables(addrs: &Vec<PubKey>, fetched: &Vec<Option<Vec<u8>>>) -> (r: Vec<
    LookupTableAccount,
>)
    requires
        addrs@.len() == fetched@.len(),
        forall|i: int| 0 <= i < addrs@.len() ==> (#[trigger] addrs@[i]).wf(),
    ensures
        table_views(r@) == resolve_spec(addrs@, fetched@),
        forall|i: int| 0 <= i < r@.len() ==> (#[trigger] r@[i]).wf(),
{
    let mut out: Vec<LookupTableAccount> = Vec::new();
    let n = addrs.len();
    let mut i: usize = 0;
    proof {
        assert(table_views(out@) =~= resolve_spec(
            addrs@.subrange(0, 0),
            fetched@.subrange(0, 0),
        ));
    }
    while i < n
        invariant
            i <= n,
            table_views(out@) == resolve_spec(
                addrs@.subrange(0, i as int),
                fetched@.subrange(0, i as int),
            ),
            forall|j: int| 0 <= j < out@.len() ==> (#[trigger] out@[j]).wf(),
        decreases n - i,
    {
        let ghost ap = addrs@.subrange(0, i as int + 1);
        let ghost fp = fetched@.subrange(0, i as int + 1);
        proof {
            assert(ap.drop_last() =~= addrs@.subrange(0, i as int));
            assert(fp.drop_last() =~= fetched@.subrange(0, i as int));
            assert(ap.last() == addrs@[i as int]);
            assert(fp.last() == fetched@[i as int]);
        }
        match &fetched[i] {
            Some(d) => {
                match parse_lookup_table(addrs[i].clone(), d) {
                    Some(t) => {
                        let ghost old_views = table_views(out@);
                        proof {
                            assert(t@.addresses =~~= table_of(addrs@[i as int]@, d@).addresses);
                            assert(t@ =~~= table_of(addrs@[i as int]@, d@));
                        }
                        out.push(t);
                        proof {
                            assert(table_views(out@) =~= old_views + seq![t@]);
                        }
                    },
                    None => {
                    },
                }
            },
            None => {
            },
        }
        i += 1;
    }
    proof {
        assert(addrs@.subrange(0, n as int) =~= addrs@);
        assert(fetched@.subrange(0, n as int) =~= fetched@);
    }
    out
}

} // verus!
