//! Decoding, deduplicating and re-encoding OTLP export requests.
//!
//! Every signal's export request has the same envelope: a list of
//! resource-scoped entries (field 1), each holding an optional resource
//! (field 1), scope entries (field 2, kept opaque) and a schema URL
//! (field 3). The merger groups entries by resource identity — the
//! canonically sorted attributes plus the schema URL — appending scope
//! entries of like entries in arrival order, first-seen identity first.

use std::collections::VecDeque;

use vstd::prelude::*;

use crate::payload::{bytes_to_vec, bytes_view};
use crate::wire::{field_enc, fields_dec, fields_view, get_fields, put_field};

verus! {

/// One resource attribute as it stood on the wire: its key, and its whole
/// encoded key-value message, which canonicalization concatenates.
pub struct EncodedAttribute {
    pub key: Vec<u8>,
    pub encoded: Vec<u8>,
}

/// One resource-scoped entry of an export request.
pub struct ResourceEntry {
    /// The encoded resource message, if the entry had one.
    pub resource: Option<Vec<u8>>,
    /// The resource's attributes, parsed out of `resource` for identity.
    pub attributes: Vec<EncodedAttribute>,
    /// The encoded scope-level entries, in arrival order; opaque here.
    pub scopes: Vec<Vec<u8>>,
    /// The entry's schema URL, as UTF-8 bytes; empty when absent.
    pub schema_url: Vec<u8>,
}

/// The spec-level shape of an entry.
pub ghost struct EntryModel {
    pub resource: Option<Seq<u8>>,
    pub attributes: Seq<(Seq<u8>, Seq<u8>)>,
    pub scopes: Seq<Seq<u8>>,
    pub schema_url: Seq<u8>,
}

impl View for EncodedAttribute {
    type V = (Seq<u8>, Seq<u8>);

    open spec fn view(&self) -> (Seq<u8>, Seq<u8>) {
        (self.key@, self.encoded@)
    }
}

pub open spec fn attrs_view(v: Seq<EncodedAttribute>) -> Seq<(Seq<u8>, Seq<u8>)> {
    v.map_values(|a: EncodedAttribute| a@)
}

pub open spec fn bytes_list_view(v: Seq<Vec<u8>>) -> Seq<Seq<u8>> {
    v.map_values(|x: Vec<u8>| x@)
}

impl View for ResourceEntry {
    type V = EntryModel;

    open spec fn view(&self) -> EntryModel {
        EntryModel {
            resource: match self.resource {
                Some(r) => Some(r@),
                None => None,
            },
            attributes: attrs_view(self.attributes@),
            scopes: bytes_list_view(self.scopes@),
            schema_url: self.schema_url@,
        }
    }
}

pub open spec fn entries_view(v: Seq<ResourceEntry>) -> Seq<EntryModel> {
    v.map_values(|e: ResourceEntry| e@)
}

/// Concatenation of the payloads of every occurrence of `field`, in order.
/// Protobuf merges repeated singular message fields by concatenation.
pub open spec fn concat_field(fs: Seq<(nat, Seq<u8>)>, field: nat) -> Seq<u8>
    decreases fs.len(),
{
    if fs.len() == 0 {
        Seq::empty()
    } else {
        concat_field(fs.drop_last(), field) + if fs.last().0 == field {
            fs.last().1
        } else {
            Seq::empty()
        }
    }
}

/// How many times `field` occurs.
pub open spec fn count_field(fs: Seq<(nat, Seq<u8>)>, field: nat) -> nat
    decreases fs.len(),
{
    if fs.len() == 0 {
        0
    } else {
        count_field(fs.drop_last(), field) + if fs.last().0 == field {
            1nat
        } else {
            0nat
        }
    }
}

/// The payloads of every occurrence of `field`, in order.
pub open spec fn payloads_of(fs: Seq<(nat, Seq<u8>)>, field: nat) -> Seq<Seq<u8>>
    decreases fs.len(),
{
    if fs.len() == 0 {
        Seq::empty()
    } else {
        payloads_of(fs.drop_last(), field) + if fs.last().0 == field {
            seq![fs.last().1]
        } else {
            Seq::empty()
        }
    }
}

/// The payload of the last occurrence of `field`, or empty: for singular
/// string fields the last occurrence wins, and absence means the default.
pub open spec fn last_field_or_empty(fs: Seq<(nat, Seq<u8>)>, field: nat) -> Seq<u8>
    decreases fs.len(),
{
    if fs.len() == 0 {
        Seq::empty()
    } else if fs.last().0 == field {
        fs.last().1
    } else {
        last_field_or_empty(fs.drop_last(), field)
    }
}

/// One attribute from its encoded key-value message: the key is the last
/// key field (field 1), empty when absent; the whole message is kept.
pub open spec fn spec_decode_kv(kv: Seq<u8>) -> Option<(Seq<u8>, Seq<u8>)> {
    match fields_dec(kv) {
        None => None,
        Some(kfs) => Some((last_field_or_empty(kfs, 1), kv)),
    }
}

pub open spec fn spec_decode_kvs(kvs: Seq<Seq<u8>>) -> Option<Seq<(Seq<u8>, Seq<u8>)>>
    decreases kvs.len(),
{
    if kvs.len() == 0 {
        Some(Seq::empty())
    } else {
        match spec_decode_kv(kvs[0]) {
            None => None,
            Some(a) => match spec_decode_kvs(kvs.drop_first()) {
                None => None,
                Some(rest) => Some(seq![a] + rest),
            },
        }
    }
}

/// The attributes of an encoded resource message (its field 1 occurrences).
pub open spec fn spec_decode_attrs(rb: Seq<u8>) -> Option<Seq<(Seq<u8>, Seq<u8>)>> {
    match fields_dec(rb) {
        None => None,
        Some(fs) => spec_decode_kvs(payloads_of(fs, 1)),
    }
}

/// One resource-scoped entry from its encoded form.
pub open spec fn spec_decode_entry(bytes: Seq<u8>) -> Option<EntryModel> {
    match fields_dec(bytes) {
        None => None,
        Some(fs) => {
            let resource = if count_field(fs, 1) > 0 {
                Some(concat_field(fs, 1))
            } else {
                None
            };
            let attrs = match resource {
                Some(rb) => spec_decode_attrs(rb),
                None => Some(Seq::empty()),
            };
            match attrs {
                None => None,
                Some(ats) => Some(
                    EntryModel {
                        resource,
                        attributes: ats,
                        scopes: payloads_of(fs, 2),
                        schema_url: last_field_or_empty(fs, 3),
                    },
                ),
            }
        },
    }
}

pub open spec fn spec_decode_entries(payloads: Seq<Seq<u8>>) -> Option<Seq<EntryModel>>
    decreases payloads.len(),
{
    if payloads.len() == 0 {
        Some(Seq::empty())
    } else {
        match spec_decode_entry(payloads[0]) {
            None => None,
            Some(e) => match spec_decode_entries(payloads.drop_first()) {
                None => None,
                Some(rest) => Some(seq![e] + rest),
            },
        }
    }
}

/// A whole export request: the models of its entries (field 1), in order.
pub open spec fn spec_decode_request(bytes: Seq<u8>) -> Option<Seq<EntryModel>> {
    match fields_dec(bytes) {
        None => None,
        Some(fs) => spec_decode_entries(payloads_of(fs, 1)),
    }
}

proof fn lemma_spec_decode_kvs_concat(a: Seq<Seq<u8>>, b: Seq<Seq<u8>>)
    ensures
        spec_decode_kvs(a + b) == match (spec_decode_kvs(a), spec_decode_kvs(b)) {
            (Some(x), Some(y)) => Some::<Seq<(Seq<u8>, Seq<u8>)>>(x + y),
            _ => None::<Seq<(Seq<u8>, Seq<u8>)>>,
        },
    decreases a.len(),
{
    if a.len() == 0 {
        assert(a + b =~= b);
        if spec_decode_kvs(b) is Some {
            assert(Seq::<(Seq<u8>, Seq<u8>)>::empty() + spec_decode_kvs(b)->Some_0 =~= spec_decode_kvs(b)->Some_0);
        }
    } else {
        assert((a + b)[0] == a[0]);
        assert((a + b).drop_first() =~= a.drop_first() + b);
        lemma_spec_decode_kvs_concat(a.drop_first(), b);
        if spec_decode_kv(a[0]) is Some && spec_decode_kvs(a.drop_first()) is Some
            && spec_decode_kvs(b) is Some {
            let h = spec_decode_kv(a[0])->Some_0;
            let x1 = spec_decode_kvs(a.drop_first())->Some_0;
            let y = spec_decode_kvs(b)->Some_0;
            assert(seq![h] + (x1 + y) =~= (seq![h] + x1) + y);
        }
    }
}

proof fn lemma_spec_decode_entries_concat(a: Seq<Seq<u8>>, b: Seq<Seq<u8>>)
    ensures
        spec_decode_entries(a + b) == match (spec_decode_entries(a), spec_decode_entries(b)) {
            (Some(x), Some(y)) => Some::<Seq<EntryModel>>(x + y),
            _ => None::<Seq<EntryModel>>,
        },
    decreases a.len(),
{
    if a.len() == 0 {
        assert(a + b =~= b);
        if spec_decode_entries(b) is Some {
            assert(Seq::<EntryModel>::empty() + spec_decode_entries(b)->Some_0 =~= spec_decode_entries(b)->Some_0);
        }
    } else {
        assert((a + b)[0] == a[0]);
        assert((a + b).drop_first() =~= a.drop_first() + b);
        lemma_spec_decode_entries_concat(a.drop_first(), b);
        if spec_decode_entry(a[0]) is Some && spec_decode_entries(a.drop_first()) is Some
            && spec_decode_entries(b) is Some {
            let h = spec_decode_entry(a[0])->Some_0;
            let x1 = spec_decode_entries(a.drop_first())->Some_0;
            let y = spec_decode_entries(b)->Some_0;
            assert(seq![h] + (x1 + y) =~= (seq![h] + x1) + y);
        }
    }
}

/// Split the fields of a message into what the entry reads: concatenated
/// resource bytes (if any), scope payloads, and the last schema field.
fn split_fields(fs: Vec<(u64, Vec<u8>)>) -> (r: (Option<Vec<u8>>, Vec<Vec<u8>>, Vec<u8>))
    ensures
        ({
            let v = fields_view(fs@);
            &&& match r.0 {
                Some(rb) => count_field(v, 1) > 0 && rb@ == concat_field(v, 1),
                None => count_field(v, 1) == 0,
            }
            &&& bytes_list_view(r.1@) == payloads_of(v, 2)
            &&& r.2@ == last_field_or_empty(v, 3)
        }),
{
    let mut fs = fs;
    let ghost all = fields_view(fs@);
    let mut res_bytes: Vec<u8> = Vec::new();
    let mut has_res = false;
    let mut scopes: Vec<Vec<u8>> = Vec::new();
    let mut schema: Vec<u8> = Vec::new();
    let ghost mut seen: Seq<(nat, Seq<u8>)> = Seq::empty();
    proof {
        assert(concat_field(seen, 1) =~= res_bytes@);
        assert(payloads_of(seen, 2) =~= bytes_list_view(scopes@));
        assert(last_field_or_empty(seen, 3) =~= schema@);
    }
    while fs.len() > 0
        invariant
            all == seen + fields_view(fs@),
            has_res == (count_field(seen, 1) > 0),
            res_bytes@ == concat_field(seen, 1),
            bytes_list_view(scopes@) == payloads_of(seen, 2),
            schema@ == last_field_or_empty(seen, 3),
        decreases fs.len(),
    {
        let ghost fs_pre = fs@;
        let (num, mut payload) = fs.remove(0);
        proof {
            assert(fields_view(fs_pre)[0] == (num as nat, payload@));
            assert(fields_view(fs@) =~= fields_view(fs_pre).drop_first());
            assert(seen.push((num as nat, payload@)).drop_last() =~= seen);
            assert((seen.push((num as nat, payload@))) + fields_view(fs@) =~= all);
        }
        let ghost seen_next = seen.push((num as nat, payload@));
        if num == 1 {
            has_res = true;
            res_bytes.append(&mut payload);
            proof {
                assert(res_bytes@ =~= concat_field(seen_next, 1));
            }
        } else if num == 2 {
            scopes.push(payload);
            proof {
                assert(bytes_list_view(scopes@) =~= payloads_of(seen_next, 2));
            }
        } else if num == 3 {
            schema = payload;
        } else {
            proof {
                assert(res_bytes@ =~= concat_field(seen_next, 1));
                assert(bytes_list_view(scopes@) =~= payloads_of(seen_next, 2));
            }
        }
        proof {
            if num != 1 {
                assert(res_bytes@ =~= concat_field(seen_next, 1));
            }
            if num != 2 {
                assert(bytes_list_view(scopes@) =~= payloads_of(seen_next, 2));
            }
            seen = seen_next;
        }
    }
    proof {
        assert(fields_view(fs@) =~= Seq::<(nat, Seq<u8>)>::empty());
        assert(seen =~= all);
    }
    let r0 = if has_res {
        Some(res_bytes)
    } else {
        None
    };
    (r0, scopes, schema)
}

/// The attributes of an encoded resource message; `None` if it is not
/// well-formed protobuf.
fn decode_attrs(rb: &Vec<u8>) -> (r: Option<Vec<EncodedAttribute>>)
    ensures
        match r {
            Some(ats) => spec_decode_attrs(rb@) == Some(attrs_view(ats@)),
            None => spec_decode_attrs(rb@) is None,
        },
{
    let fs = match get_fields(rb) {
        Some(fs) => fs,
        None => {
            return None;
        },
    };
    let mut kvs: Vec<Vec<u8>> = Vec::new();
    let mut fs = fs;
    let ghost all = fields_view(fs@);
    let ghost mut seen: Seq<(nat, Seq<u8>)> = Seq::empty();
    proof {
        assert(payloads_of(seen, 1) =~= bytes_list_view(kvs@));
    }
    while fs.len() > 0
        invariant
            all == seen + fields_view(fs@),
            bytes_list_view(kvs@) == payloads_of(seen, 1),
        decreases fs.len(),
    {
        let ghost fs_pre = fs@;
        let (num, payload) = fs.remove(0);
        proof {
            assert(fields_view(fs_pre)[0] == (num as nat, payload@));
            assert(fields_view(fs@) =~= fields_view(fs_pre).drop_first());
            assert(seen.push((num as nat, payload@)).drop_last() =~= seen);
            assert((seen.push((num as nat, payload@))) + fields_view(fs@) =~= all);
        }
        let ghost seen_next = seen.push((num as nat, payload@));
        if num == 1 {
            kvs.push(payload);
            proof {
                assert(bytes_list_view(kvs@) =~= payloads_of(seen_next, 1));
            }
        } else {
            proof {
                assert(bytes_list_view(kvs@) =~= payloads_of(seen_next, 1));
            }
        }
        proof {
            seen = seen_next;
        }
    }
    proof {
        assert(fields_view(fs@) =~= Seq::<(nat, Seq<u8>)>::empty());
        assert(seen =~= all);
    }
    let ghost kv_seq = payloads_of(all, 1);
    let mut out: Vec<EncodedAttribute> = Vec::new();
    let mut kvs = kvs;
    let ghost mut done: Seq<Seq<u8>> = Seq::empty();
    proof {
        assert(spec_decode_kvs(done) == Some(attrs_view(out@))) by {
            assert(attrs_view(out@) =~= Seq::<(Seq<u8>, Seq<u8>)>::empty());
        }
    }
    while kvs.len() > 0
        invariant
            fields_dec(rb@) == Some(all),
            kv_seq == payloads_of(all, 1),
            kv_seq == done + bytes_list_view(kvs@),
            spec_decode_kvs(done) == Some(attrs_view(out@)),
        decreases kvs.len(),
    {
        let ghost kvs_pre = kvs@;
        let kv = kvs.remove(0);
        proof {
            assert(bytes_list_view(kvs_pre)[0] == kv@);
            assert(bytes_list_view(kvs@) =~= bytes_list_view(kvs_pre).drop_first());
        }
        let kfs = match get_fields(&kv) {
            Some(kfs) => kfs,
            None => {
                proof {
                    assert(spec_decode_kv(kv@) is None);
                    assert((done + seq![kv@])[done.len() as int] == kv@);
                    lemma_spec_decode_kvs_none(done + seq![kv@], done.len() as int);
                    assert((done + seq![kv@]) + bytes_list_view(kvs@) =~= kv_seq);
                    lemma_spec_decode_kvs_concat(done + seq![kv@], bytes_list_view(kvs@));
                }
                return None;
            },
        };
        let key = last_payload_of(kfs, 1);
        proof {
            assert(spec_decode_kv(kv@) == Some((key@, kv@)));
        }
        let ghost done_next = done + seq![kv@];
        let ghost ka = (key@, kv@);
        out.push(EncodedAttribute { key, encoded: kv });
        proof {
            lemma_spec_decode_kvs_concat(done, seq![kv@]);
            assert(spec_decode_kvs(seq![kv@]) == Some(seq![ka])) by {
                assert(seq![kv@][0] == kv@);
                assert(seq![kv@].drop_first() =~= Seq::<Seq<u8>>::empty());
                assert(spec_decode_kvs(Seq::<Seq<u8>>::empty()) == Some(
                    Seq::<(Seq<u8>, Seq<u8>)>::empty(),
                ));
                assert(seq![ka] + Seq::<(Seq<u8>, Seq<u8>)>::empty() =~= seq![ka]);
            }
            assert(out@.last()@ == ka);
            assert(attrs_view(out@) =~= spec_decode_kvs(done)->Some_0 + seq![ka]);
            assert(done_next + bytes_list_view(kvs@) =~= kv_seq);
            done = done_next;
        }
    }
    proof {
        assert(bytes_list_view(kvs@) =~= Seq::<Seq<u8>>::empty());
        assert(done =~= kv_seq);
    }
    Some(out)
}

/// If any element fails to decode, the whole key-value list fails.
proof fn lemma_spec_decode_kvs_none(kvs: Seq<Seq<u8>>, i: int)
    requires
        0 <= i < kvs.len(),
        spec_decode_kv(kvs[i]) is None,
    ensures
        spec_decode_kvs(kvs) is None,
    decreases kvs.len(),
{
    if kvs.len() > 0 {
        if i == 0 {
        } else {
            assert(kvs.drop_first()[i - 1] == kvs[i]);
            lemma_spec_decode_kvs_none(kvs.drop_first(), i - 1);
        }
    }
}

/// The payload of the last occurrence of `field`, or an empty vector.
fn last_payload_of(fs: Vec<(u64, Vec<u8>)>, field: u64) -> (r: Vec<u8>)
    ensures
        r@ == last_field_or_empty(fields_view(fs@), field as nat),
{
    let mut fs = fs;
    let mut r: Vec<u8> = Vec::new();
    let ghost all = fields_view(fs@);
    let ghost mut seen: Seq<(nat, Seq<u8>)> = Seq::empty();
    while fs.len() > 0
        invariant
            all == seen + fields_view(fs@),
            r@ == last_field_or_empty(seen, field as nat),
        decreases fs.len(),
    {
        let ghost fs_pre = fs@;
        let (num, payload) = fs.remove(0);
        proof {
            assert(fields_view(fs_pre)[0] == (num as nat, payload@));
            assert(fields_view(fs@) =~= fields_view(fs_pre).drop_first());
            assert(seen.push((num as nat, payload@)).drop_last() =~= seen);
            assert((seen.push((num as nat, payload@))) + fields_view(fs@) =~= all);
        }
        let ghost seen_next = seen.push((num as nat, payload@));
        if num == field {
            r = payload;
        }
        proof {
            seen = seen_next;
        }
    }
    proof {
        assert(fields_view(fs@) =~= Seq::<(nat, Seq<u8>)>::empty());
        assert(seen =~= all);
    }
    r
}

/// One resource-scoped entry from its encoded form; `None` when the entry or
/// its resource is not well-formed protobuf.
pub fn decode_entry(bytes: &Vec<u8>) -> (r: Option<ResourceEntry>)
    ensures
        match r {
            Some(e) => spec_decode_entry(bytes@) == Some(e@),
            None => spec_decode_entry(bytes@) is None,
        },
{
    let fs = match get_fields(bytes) {
        Some(fs) => fs,
        None => {
            return None;
        },
    };
    let (resource, scopes, schema_url) = split_fields(fs);
    let attributes = match &resource {
        Some(rb) => match decode_attrs(rb) {
            Some(ats) => ats,
            None => {
                return None;
            },
        },
        None => Vec::new(),
    };
    proof {
        if resource is None {
            assert(attrs_view(attributes@) =~= Seq::<(Seq<u8>, Seq<u8>)>::empty());
        }
    }
    Some(ResourceEntry { resource, attributes, scopes, schema_url })
}

/// Strict lexicographic order on byte strings.
pub open spec fn lex_lt(a: Seq<u8>, b: Seq<u8>) -> bool
    decreases a.len(),
{
    if b.len() == 0 {
        false
    } else if a.len() == 0 {
        true
    } else if a[0] < b[0] {
        true
    } else if a[0] > b[0] {
        false
    } else {
        lex_lt(a.drop_first(), b.drop_first())
    }
}

pub fn bytes_lt(a: &Vec<u8>, b: &Vec<u8>) -> (r: bool)
    ensures
        r == lex_lt(a@, b@),
{
    let la = a.len();
    let lb = b.len();
    let mut i: usize = 0;
    proof {
        assert(a@.skip(0) =~= a@);
        assert(b@.skip(0) =~= b@);
    }
    loop
        invariant
            la == a@.len(),
            lb == b@.len(),
            i <= la,
            i <= lb,
            lex_lt(a@, b@) == lex_lt(a@.skip(i as int), b@.skip(i as int)),
        ensures
            lex_lt(a@, b@) == lex_lt(a@.skip(i as int), b@.skip(i as int)),
            i <= la && i <= lb,
            i == la || i == lb || a@[i as int] != b@[i as int],
        decreases la - i,
    {
        if i == la || i == lb {
            break;
        }
        if a[i] != b[i] {
            break;
        }
        proof {
            assert(a@.skip(i as int).drop_first() =~= a@.skip(i as int + 1));
            assert(b@.skip(i as int).drop_first() =~= b@.skip(i as int + 1));
        }
        i = i + 1;
    }
    proof {
        assert(a@.skip(i as int).len() == la - i);
        assert(b@.skip(i as int).len() == lb - i);
    }
    if i == lb {
        return false;
    }
    if i == la {
        return true;
    }
    a[i] < b[i]
}

pub fn bytes_eq(a: &Vec<u8>, b: &Vec<u8>) -> (r: bool)
    ensures
        r == (a@ == b@),
{
    if a.len() != b.len() {
        return false;
    }
    let mut i: usize = 0;
    while i < a.len()
        invariant
            a@.len() == b@.len(),
            i <= a@.len(),
            forall|j: int| 0 <= j < i ==> a@[j] == b@[j],
        decreases a@.len() - i,
    {
        if a[i] != b[i] {
            return false;
        }
        i = i + 1;
    }
    proof {
        assert(a@ =~= b@);
    }
    true
}

fn clone_bytes(v: &Vec<u8>) -> (r: Vec<u8>)
    ensures
        r@ == v@,
{
    proof {
        assert(v@.subrange(0, v@.len() as int) =~= v@);
    }
    crate::wire::copy_range(v, 0, v.len())
}

/// Canonical identity of a resource: its attributes sorted by key with
/// last-write-wins on duplicates, concatenated, plus the schema URL.
pub struct ResourceIdentity {
    pub attributes: Vec<u8>,
    pub schema_url: Vec<u8>,
}

/// Insert an attribute into a key-sorted list, replacing an equal key.
pub open spec fn insert_sorted(
    list: Seq<(Seq<u8>, Seq<u8>)>,
    kv: (Seq<u8>, Seq<u8>),
) -> Seq<(Seq<u8>, Seq<u8>)>
    decreases list.len(),
{
    if list.len() == 0 {
        seq![kv]
    } else if lex_lt(kv.0, list[0].0) {
        seq![kv] + list
    } else if kv.0 == list[0].0 {
        seq![kv] + list.drop_first()
    } else {
        seq![list[0]] + insert_sorted(list.drop_first(), kv)
    }
}

/// The canonical (sorted, deduplicated) form of an attribute list; later
/// entries win on duplicate keys.
pub open spec fn canon_attrs(attrs: Seq<(Seq<u8>, Seq<u8>)>) -> Seq<(Seq<u8>, Seq<u8>)>
    decreases attrs.len(),
{
    if attrs.len() == 0 {
        Seq::empty()
    } else {
        insert_sorted(canon_attrs(attrs.drop_last()), attrs.last())
    }
}

/// The encoded bytes of an attribute list, concatenated in order.
pub open spec fn concat_encoded(list: Seq<(Seq<u8>, Seq<u8>)>) -> Seq<u8>
    decreases list.len(),
{
    if list.len() == 0 {
        Seq::empty()
    } else {
        concat_encoded(list.drop_last()) + list.last().1
    }
}

/// The identity key of a resource: canonical attribute bytes and schema URL.
pub open spec fn spec_identity(attrs: Seq<(Seq<u8>, Seq<u8>)>, schema: Seq<u8>) -> (
    Seq<u8>,
    Seq<u8>,
) {
    (concat_encoded(canon_attrs(attrs)), schema)
}

pub open spec fn entry_id(e: EntryModel) -> (Seq<u8>, Seq<u8>) {
    spec_identity(e.attributes, e.schema_url)
}

fn clone_attr(a: &EncodedAttribute) -> (r: EncodedAttribute)
    ensures
        r@ == a@,
{
    EncodedAttribute { key: clone_bytes(&a.key), encoded: clone_bytes(&a.encoded) }
}

fn insert_attr_sorted(list: Vec<EncodedAttribute>, kv: EncodedAttribute) -> (r: Vec<
    EncodedAttribute,
>)
    ensures
        attrs_view(r@) == insert_sorted(attrs_view(list@), kv@),
    decreases list@.len(),
{
    if list.len() == 0 {
        let mut r: Vec<EncodedAttribute> = Vec::new();
        r.push(kv);
        proof {
            assert(attrs_view(r@) =~= seq![kv@]);
        }
        r
    } else if bytes_lt(&kv.key, &list[0].key) {
        proof {
            assert(attrs_view(list@)[0] == list@[0]@);
        }
        let mut r = list;
        let ghost l0 = r@;
        r.insert(0, kv);
        proof {
            assert(r@.drop_first() =~= l0);
            assert(attrs_view(r@) =~= seq![kv@] + attrs_view(l0));
        }
        r
    } else if bytes_eq(&kv.key, &list[0].key) {
        proof {
            assert(attrs_view(list@)[0] == list@[0]@);
        }
        let mut r = list;
        let ghost l0 = r@;
        let first = r.remove(0);
        let ghost l1 = r@;
        r.insert(0, kv);
        proof {
            assert(l1 =~= l0.drop_first());
            assert(attrs_view(l1) =~= attrs_view(l0).drop_first());
            assert(attrs_view(r@) =~= seq![kv@] + attrs_view(l1));
        }
        r
    } else {
        proof {
            assert(attrs_view(list@)[0] == list@[0]@);
        }
        let mut l = list;
        let ghost l0 = l@;
        let head = l.remove(0);
        proof {
            assert(l@ =~= l0.drop_first());
            assert(attrs_view(l@) =~= attrs_view(l0).drop_first());
        }
        let mut r = insert_attr_sorted(l, kv);
        let ghost r0 = r@;
        r.insert(0, head);
        proof {
            assert(attrs_view(r@) =~= seq![head@] + attrs_view(r0));
            assert(seq![attrs_view(l0)[0]] + insert_sorted(
                attrs_view(l0).drop_first(),
                kv@,
            ) =~= attrs_view(r@));
        }
        r
    }
}

impl ResourceIdentity {
    /// The identity of a resource with the given attributes and schema URL.
    /// Attribute order never matters; duplicate keys take the last value.
    pub fn new(attributes: &Vec<EncodedAttribute>, schema_url: &Vec<u8>) -> (r: Self)
        ensures
            (r.attributes@, r.schema_url@) == spec_identity(attrs_view(attributes@), schema_url@),
    {
        let mut sorted: Vec<EncodedAttribute> = Vec::new();
        let mut i: usize = 0;
        proof {
            assert(attrs_view(sorted@) =~= Seq::<(Seq<u8>, Seq<u8>)>::empty());
            assert(attrs_view(attributes@.subrange(0, 0)) =~= Seq::<(Seq<u8>, Seq<u8>)>::empty());
            assert(canon_attrs(attrs_view(attributes@.subrange(0, 0)))
                =~= Seq::<(Seq<u8>, Seq<u8>)>::empty());
        }
        while i < attributes.len()
            invariant
                i <= attributes@.len(),
                attrs_view(sorted@) == canon_attrs(attrs_view(attributes@.subrange(0, i as int))),
            decreases attributes@.len() - i,
        {
            let a = clone_attr(&attributes[i]);
            proof {
                let pre = attrs_view(attributes@.subrange(0, i as int));
                let nxt = attrs_view(attributes@.subrange(0, i as int + 1));
                assert(nxt.drop_last() =~= pre);
                assert(nxt.last() == a@);
            }
            sorted = insert_attr_sorted(sorted, a);
            i = i + 1;
        }
        proof {
            assert(attributes@.subrange(0, attributes@.len() as int) =~= attributes@);
        }
        let mut out: Vec<u8> = Vec::new();
        let mut k: usize = 0;
        let ghost canon = attrs_view(sorted@);
        proof {
            assert(out@ =~= concat_encoded(canon.subrange(0, 0)));
        }
        while k < sorted.len()
            invariant
                k <= sorted@.len(),
                canon == attrs_view(sorted@),
                out@ == concat_encoded(canon.subrange(0, k as int)),
            decreases sorted@.len() - k,
        {
            let mut enc = clone_bytes(&sorted[k].encoded);
            proof {
                let pre = canon.subrange(0, k as int);
                let nxt = canon.subrange(0, k as int + 1);
                assert(nxt.drop_last() =~= pre);
                assert(nxt.last() == canon[k as int]);
                assert(canon[k as int] == sorted@[k as int]@);
            }
            out.append(&mut enc);
            k = k + 1;
        }
        proof {
            assert(canon.subrange(0, canon.len() as int) =~= canon);
        }
        ResourceIdentity { attributes: out, schema_url: clone_bytes(schema_url) }
    }
}

/// Index of the first entry with the given identity, or -1.
pub open spec fn find_id(s: Seq<EntryModel>, id: (Seq<u8>, Seq<u8>)) -> int
    decreases s.len(),
{
    if s.len() == 0 {
        -1
    } else if entry_id(s[0]) == id {
        0
    } else {
        let r = find_id(s.drop_first(), id);
        if r < 0 {
            -1
        } else {
            r + 1
        }
    }
}

proof fn lemma_find_id_hit(s: Seq<EntryModel>, id: (Seq<u8>, Seq<u8>), k: int)
    requires
        0 <= k < s.len(),
        entry_id(s[k]) == id,
        forall|m: int| 0 <= m < k ==> entry_id(#[trigger] s[m]) != id,
    ensures
        find_id(s, id) == k,
    decreases k,
{
    if k > 0 {
        assert(forall|m: int|
            0 <= m < k - 1 ==> s.drop_first()[m] == s[m + 1] && entry_id(#[trigger] s.drop_first()[m])
                != id);
        assert(s.drop_first()[k - 1] == s[k]);
        lemma_find_id_hit(s.drop_first(), id, k - 1);
    }
}

proof fn lemma_find_id_miss(s: Seq<EntryModel>, id: (Seq<u8>, Seq<u8>))
    requires
        forall|m: int| 0 <= m < s.len() ==> entry_id(#[trigger] s[m]) != id,
    ensures
        find_id(s, id) == -1,
    decreases s.len(),
{
    if s.len() > 0 {
        assert(forall|m: int|
            0 <= m < s.len() - 1 ==> s.drop_first()[m] == s[m + 1] && entry_id(
                #[trigger] s.drop_first()[m],
            ) != id);
        lemma_find_id_miss(s.drop_first(), id);
    }
}

/// Merging entry by entry: a new identity is appended, a seen identity has
/// its scope entries appended to the first entry that carried it.
pub open spec fn merge_spec(es: Seq<EntryModel>) -> Seq<EntryModel>
    decreases es.len(),
{
    if es.len() == 0 {
        Seq::empty()
    } else {
        let prev = merge_spec(es.drop_last());
        let e = es.last();
        let j = find_id(prev, entry_id(e));
        if j < 0 {
            prev.push(e)
        } else {
            prev.update(
                j,
                EntryModel {
                    resource: prev[j].resource,
                    attributes: prev[j].attributes,
                    scopes: prev[j].scopes + e.scopes,
                    schema_url: prev[j].schema_url,
                },
            )
        }
    }
}

/// Group entries by resource identity: first-seen order, scope entries of
/// like entries appended in arrival order.
pub fn merge_entries(entries: Vec<ResourceEntry>) -> (r: Vec<ResourceEntry>)
    ensures
        entries_view(r@) == merge_spec(entries_view(entries@)),
{
    let ghost all = entries_view(entries@);
    let mut entries = entries;
    let mut out: Vec<ResourceEntry> = Vec::new();
    let mut ids: Vec<ResourceIdentity> = Vec::new();
    let ghost mut done: Seq<EntryModel> = Seq::empty();
    proof {
        assert(merge_spec(done) =~= entries_view(out@));
    }
    while entries.len() > 0
        invariant
            all == done + entries_view(entries@),
            entries_view(out@) == merge_spec(done),
            ids@.len() == out@.len(),
            forall|k: int|
                0 <= k < ids@.len() ==> (ids@[k].attributes@, ids@[k].schema_url@) == entry_id(
                    #[trigger] entries_view(out@)[k],
                ),
        decreases entries.len(),
    {
        let ghost es_pre = entries@;
        let e = entries.remove(0);
        proof {
            assert(entries_view(es_pre)[0] == e@);
            assert(entries_view(entries@) =~= entries_view(es_pre).drop_first());
            assert((done.push(e@)) + entries_view(entries@) =~= all);
            assert(done.push(e@).drop_last() =~= done);
        }
        let id = ResourceIdentity::new(&e.attributes, &e.schema_url);
        proof {
            assert((id.attributes@, id.schema_url@) == entry_id(e@));
        }
        let mut j: usize = 0;
        let mut found = false;
        while j < ids.len()
            invariant
                ids@.len() == out@.len(),
                j <= ids@.len(),
                forall|k: int|
                    0 <= k < ids@.len() ==> (ids@[k].attributes@, ids@[k].schema_url@) == entry_id(
                        #[trigger] entries_view(out@)[k],
                    ),
                (id.attributes@, id.schema_url@) == entry_id(e@),
                !found ==> forall|m: int|
                    0 <= m < j ==> entry_id(#[trigger] entries_view(out@)[m]) != entry_id(e@),
                found ==> j < ids@.len() && entry_id(entries_view(out@)[j as int]) == entry_id(e@)
                    && forall|m: int|
                    0 <= m < j ==> entry_id(#[trigger] entries_view(out@)[m]) != entry_id(e@),
            ensures
                found ==> j < ids@.len() && entry_id(entries_view(out@)[j as int]) == entry_id(e@)
                    && forall|m: int|
                    0 <= m < j ==> entry_id(#[trigger] entries_view(out@)[m]) != entry_id(e@),
                !found ==> forall|m: int|
                    0 <= m < ids@.len() ==> entry_id(#[trigger] entries_view(out@)[m]) != entry_id(
                        e@,
                    ),
            decreases ids@.len() - j,
        {
            if bytes_eq(&ids[j].attributes, &id.attributes) && bytes_eq(
                &ids[j].schema_url,
                &id.schema_url,
            ) {
                found = true;
                break ;
            }
            j = j + 1;
        }
        let ghost done_next = done.push(e@);
        if found {
            proof {
                lemma_find_id_hit(entries_view(out@), entry_id(e@), j as int);
            }
            let ghost out_pre = out@;
            let ghost ev = e@;
            let mut cur = out.remove(j);
            let mut e = e;
            cur.scopes.append(&mut e.scopes);
            out.insert(j, cur);
            proof {
                assert(out@ =~= out_pre.update(j as int, out@[j as int]));
                assert(entries_view(out@) =~= merge_spec(done_next)) by {
                    assert(entries_view(out@).len() == entries_view(out_pre).len());
                    assert(forall|k: int|
                        0 <= k < out@.len() && k != j ==> entries_view(out@)[k]
                            == #[trigger] entries_view(out_pre)[k]);
                    assert(bytes_list_view(out@[j as int].scopes@) =~= bytes_list_view(
                        out_pre[j as int].scopes@,
                    ) + ev.scopes);
                    assert(entries_view(out@)[j as int] == merge_spec(done_next)[j as int]);
                    assert(merge_spec(done_next) =~= merge_spec(done).update(
                        j as int,
                        merge_spec(done_next)[j as int],
                    ));
                }
                assert(forall|k: int|
                    0 <= k < ids@.len() ==> (ids@[k].attributes@, ids@[k].schema_url@) == entry_id(
                        #[trigger] entries_view(out@)[k],
                    ));
            }
        } else {
            proof {
                lemma_find_id_miss(entries_view(out@), entry_id(e@));
            }
            out.push(e);
            ids.push(id);
            proof {
                assert(entries_view(out@) =~= merge_spec(done) + seq![e@]);
                assert(merge_spec(done_next) =~= merge_spec(done).push(e@));
            }
        }
        proof {
            done = done_next;
        }
    }
    proof {
        assert(entries_view(entries@) =~= Seq::<EntryModel>::empty());
        assert(done =~= all);
    }
    out
}

/// All scope entries of a run of entries, in arrival order.
pub open spec fn all_scopes(es: Seq<EntryModel>) -> Seq<Seq<u8>>
    decreases es.len(),
{
    if es.len() == 0 {
        Seq::empty()
    } else {
        all_scopes(es.drop_last()) + es.last().scopes
    }
}

/// Merging entries that all share one resource identity yields a single
/// entry: the first one, now carrying every scope entry in arrival order.
pub proof fn lemma_merge_shared_identity(es: Seq<EntryModel>)
    requires
        es.len() >= 1,
        forall|i: int| 0 <= i < es.len() ==> entry_id(#[trigger] es[i]) == entry_id(es[0]),
    ensures
        merge_spec(es).len() == 1,
        merge_spec(es)[0].scopes == all_scopes(es),
        merge_spec(es)[0].resource == es[0].resource,
        merge_spec(es)[0].attributes == es[0].attributes,
        merge_spec(es)[0].schema_url == es[0].schema_url,
    decreases es.len(),
{
    if es.len() == 1 {
        assert(es.drop_last() =~= Seq::<EntryModel>::empty());
        assert(merge_spec(es) =~= seq![es[0]]);
        assert(all_scopes(es) == all_scopes(es.drop_last()) + es.last().scopes);
        assert(all_scopes(Seq::<EntryModel>::empty()) + es[0].scopes =~= es[0].scopes);
    } else {
        let head = es.drop_last();
        assert(forall|i: int|
            0 <= i < head.len() ==> head[i] == es[i] && entry_id(#[trigger] head[i]) == entry_id(
                head[0],
            ));
        lemma_merge_shared_identity(head);
        let prev = merge_spec(head);
        let e = es.last();
        assert(entry_id(prev[0]) == entry_id(head[0])) by {
            assert(prev[0].attributes == head[0].attributes);
            assert(prev[0].schema_url == head[0].schema_url);
        }
        assert(entry_id(e) == entry_id(prev[0]));
        assert(find_id(prev, entry_id(e)) == 0);
        assert(merge_spec(es)[0].scopes =~= all_scopes(es));
    }
}

/// Decode a whole export request into its entries, in order; `None` when the
/// request or any entry in it is not well-formed protobuf.
pub fn decode_request(bytes: &Vec<u8>) -> (r: Option<Vec<ResourceEntry>>)
    ensures
        match r {
            Some(es) => spec_decode_request(bytes@) == Some(entries_view(es@)),
            None => spec_decode_request(bytes@) is None,
        },
{
    let fs = match get_fields(bytes) {
        Some(fs) => fs,
        None => {
            return None;
        },
    };
    let mut raw: Vec<Vec<u8>> = Vec::new();
    let mut fs = fs;
    let ghost all = fields_view(fs@);
    let ghost mut seen: Seq<(nat, Seq<u8>)> = Seq::empty();
    proof {
        assert(payloads_of(seen, 1) =~= bytes_list_view(raw@));
    }
    while fs.len() > 0
        invariant
            all == seen + fields_view(fs@),
            bytes_list_view(raw@) == payloads_of(seen, 1),
        decreases fs.len(),
    {
        let ghost fs_pre = fs@;
        let (num, payload) = fs.remove(0);
        proof {
            assert(fields_view(fs_pre)[0] == (num as nat, payload@));
            assert(fields_view(fs@) =~= fields_view(fs_pre).drop_first());
            assert(seen.push((num as nat, payload@)).drop_last() =~= seen);
            assert((seen.push((num as nat, payload@))) + fields_view(fs@) =~= all);
        }
        let ghost seen_next = seen.push((num as nat, payload@));
        if num == 1 {
            raw.push(payload);
            proof {
                assert(bytes_list_view(raw@) =~= payloads_of(seen_next, 1));
            }
        } else {
            proof {
                assert(bytes_list_view(raw@) =~= payloads_of(seen_next, 1));
            }
        }
        proof {
            seen = seen_next;
        }
    }
    proof {
        assert(fields_view(fs@) =~= Seq::<(nat, Seq<u8>)>::empty());
        assert(seen =~= all);
    }
    let ghost entry_seq = payloads_of(all, 1);
    let mut out: Vec<ResourceEntry> = Vec::new();
    let mut raw = raw;
    let ghost mut done: Seq<Seq<u8>> = Seq::empty();
    proof {
        assert(spec_decode_entries(done) == Some(entries_view(out@))) by {
            assert(entries_view(out@) =~= Seq::<EntryModel>::empty());
        }
    }
    while raw.len() > 0
        invariant
            fields_dec(bytes@) == Some(all),
            entry_seq == payloads_of(all, 1),
            entry_seq == done + bytes_list_view(raw@),
            spec_decode_entries(done) == Some(entries_view(out@)),
        decreases raw.len(),
    {
        let ghost raw_pre = raw@;
        let eb = raw.remove(0);
        proof {
            assert(bytes_list_view(raw_pre)[0] == eb@);
            assert(bytes_list_view(raw@) =~= bytes_list_view(raw_pre).drop_first());
        }
        let entry = match decode_entry(&eb) {
            Some(entry) => entry,
            None => {
                proof {
                    assert((done + seq![eb@])[done.len() as int] == eb@);
                    lemma_spec_decode_entries_none(done + seq![eb@], done.len() as int);
                    assert((done + seq![eb@]) + bytes_list_view(raw@) =~= entry_seq);
                    lemma_spec_decode_entries_concat(done + seq![eb@], bytes_list_view(raw@));
                }
                return None;
            },
        };
        let ghost done_next = done + seq![eb@];
        let ghost ev = entry@;
        out.push(entry);
        proof {
            lemma_spec_decode_entries_concat(done, seq![eb@]);
            assert(spec_decode_entries(seq![eb@]) == Some(seq![ev])) by {
                assert(seq![eb@][0] == eb@);
                assert(seq![eb@].drop_first() =~= Seq::<Seq<u8>>::empty());
                assert(spec_decode_entries(Seq::<Seq<u8>>::empty()) == Some(
                    Seq::<EntryModel>::empty(),
                ));
                assert(seq![ev] + Seq::<EntryModel>::empty() =~= seq![ev]);
            }
            assert(entries_view(out@) =~= spec_decode_entries(done)->Some_0 + seq![ev]);
            assert(done_next + bytes_list_view(raw@) =~= entry_seq);
            done = done_next;
        }
    }
    proof {
        assert(bytes_list_view(raw@) =~= Seq::<Seq<u8>>::empty());
        assert(done =~= entry_seq);
    }
    Some(out)
}

/// If any entry fails to decode, the whole list fails.
proof fn lemma_spec_decode_entries_none(payloads: Seq<Seq<u8>>, i: int)
    requires
        0 <= i < payloads.len(),
        spec_decode_entry(payloads[i]) is None,
    ensures
        spec_decode_entries(payloads) is None,
    decreases payloads.len(),
{
    if payloads.len() > 0 {
        if i == 0 {
        } else {
            assert(payloads.drop_first()[i - 1] == payloads[i]);
            lemma_spec_decode_entries_none(payloads.drop_first(), i - 1);
        }
    }
}

/// The encoding of a run of scope entries, each as field 2.
pub open spec fn enc_scopes(scopes: Seq<Seq<u8>>) -> Seq<u8>
    decreases scopes.len(),
{
    if scopes.len() == 0 {
        Seq::empty()
    } else {
        enc_scopes(scopes.drop_last()) + field_enc(2, scopes.last())
    }
}

/// The encoding of one entry: resource (field 1, if any), scope entries
/// (field 2), schema URL (field 3, omitted when empty, as on the wire a
/// missing string field means the empty default).
pub open spec fn spec_encode_entry(e: EntryModel) -> Seq<u8> {
    (match e.resource {
        Some(r) => field_enc(1, r),
        None => Seq::empty(),
    }) + enc_scopes(e.scopes) + (if e.schema_url.len() > 0 {
        field_enc(3, e.schema_url)
    } else {
        Seq::empty()
    })
}

/// The encoding of a whole export request: each entry as field 1.
pub open spec fn spec_encode_request(es: Seq<EntryModel>) -> Seq<u8>
    decreases es.len(),
{
    if es.len() == 0 {
        Seq::empty()
    } else {
        spec_encode_request(es.drop_last()) + field_enc(1, spec_encode_entry(es.last()))
    }
}

/// Encode one resource-scoped entry.
pub fn encode_entry(e: &ResourceEntry) -> (r: Vec<u8>)
    ensures
        r@ == spec_encode_entry(e@),
{
    let mut out: Vec<u8> = Vec::new();
    match &e.resource {
        Some(rb) => {
            put_field(&mut out, 1, rb);
        },
        None => {},
    }
    let ghost head = out@;
    let mut i: usize = 0;
    proof {
        assert(enc_scopes(e@.scopes.subrange(0, 0)) =~= Seq::<u8>::empty());
        assert(out@ =~= head + enc_scopes(e@.scopes.subrange(0, 0)));
    }
    while i < e.scopes.len()
        invariant
            i <= e.scopes@.len(),
            e@.scopes.len() == e.scopes@.len(),
            out@ == head + enc_scopes(e@.scopes.subrange(0, i as int)),
            head == (match e@.resource {
                Some(r) => field_enc(1, r),
                None => Seq::<u8>::empty(),
            }),
        decreases e.scopes@.len() - i,
    {
        proof {
            let pre = e@.scopes.subrange(0, i as int);
            let nxt = e@.scopes.subrange(0, i as int + 1);
            assert(nxt.drop_last() =~= pre);
            assert(nxt.last() == e@.scopes[i as int]);
            assert(e@.scopes[i as int] == e.scopes@[i as int]@);
        }
        put_field(&mut out, 2, &e.scopes[i]);
        i = i + 1;
    }
    proof {
        assert(e@.scopes.subrange(0, e@.scopes.len() as int) =~= e@.scopes);
    }
    if e.schema_url.len() > 0 {
        put_field(&mut out, 3, &e.schema_url);
    }
    proof {
        assert(out@ =~= spec_encode_entry(e@));
    }
    out
}

/// Encode a whole export request.
pub fn encode_request(entries: &Vec<ResourceEntry>) -> (r: Vec<u8>)
    ensures
        r@ == spec_encode_request(entries_view(entries@)),
{
    let mut out: Vec<u8> = Vec::new();
    let mut i: usize = 0;
    let ghost evs = entries_view(entries@);
    proof {
        assert(spec_encode_request(evs.subrange(0, 0)) =~= Seq::<u8>::empty());
        assert(out@ =~= spec_encode_request(evs.subrange(0, 0)));
    }
    while i < entries.len()
        invariant
            i <= entries@.len(),
            evs == entries_view(entries@),
            evs.len() == entries@.len(),
            out@ == spec_encode_request(evs.subrange(0, i as int)),
        decreases entries@.len() - i,
    {
        let enc = encode_entry(&entries[i]);
        proof {
            let pre = evs.subrange(0, i as int);
            let nxt = evs.subrange(0, i as int + 1);
            assert(nxt.drop_last() =~= pre);
            assert(nxt.last() == evs[i as int]);
            assert(evs[i as int] == entries@[i as int]@);
        }
        put_field(&mut out, 1, &enc);
        i = i + 1;
    }
    proof {
        assert(evs.subrange(0, evs.len() as int) =~= evs);
    }
    out
}

/// The entries of every payload that decodes, in queue order; a payload that
/// does not decode contributes nothing.
pub open spec fn decoded_entries_of(payloads: Seq<bytes::Bytes>) -> Seq<EntryModel>
    decreases payloads.len(),
{
    if payloads.len() == 0 {
        Seq::empty()
    } else {
        decoded_entries_of(payloads.drop_last()) + (match spec_decode_request(
            bytes_view(payloads.last()),
        ) {
            Some(es) => es,
            None => Seq::empty(),
        })
    }
}

/// Decode every payload, skip the malformed, and merge all entries by
/// resource identity.
pub fn merge_payloads(payloads: &VecDeque<bytes::Bytes>) -> (r: Vec<ResourceEntry>)
    ensures
        entries_view(r@) == merge_spec(decoded_entries_of(payloads@)),
{
    let mut all: Vec<ResourceEntry> = Vec::new();
    let mut i: usize = 0;
    proof {
        assert(decoded_entries_of(payloads@.subrange(0, 0)) =~= Seq::<EntryModel>::empty());
        assert(entries_view(all@) =~= decoded_entries_of(payloads@.subrange(0, 0)));
    }
    while i < payloads.len()
        invariant
            i <= payloads@.len(),
            entries_view(all@) == decoded_entries_of(payloads@.subrange(0, i as int)),
        decreases payloads@.len() - i,
    {
        let bv = bytes_to_vec(&payloads[i]);
        let ghost all_pre = all@;
        proof {
            let pre = payloads@.subrange(0, i as int);
            let nxt = payloads@.subrange(0, i as int + 1);
            assert(nxt.drop_last() =~= pre);
            assert(nxt.last() == payloads@[i as int]);
        }
        match decode_request(&bv) {
            Some(es) => {
                let mut es = es;
                let ghost esv = entries_view(es@);
                all.append(&mut es);
                proof {
                    assert(entries_view(all@) =~= entries_view(all_pre) + esv);
                }
            },
            None => {
                proof {
                    assert(entries_view(all@) =~= entries_view(all_pre) + Seq::<
                        EntryModel,
                    >::empty());
                }
            },
        }
        i = i + 1;
    }
    proof {
        assert(payloads@.subrange(0, payloads@.len() as int) =~= payloads@);
    }
    merge_entries(all)
}

/// Merge queued trace payloads into the entries of one export request.
pub fn merge_traces(payloads: &VecDeque<bytes::Bytes>) -> (r: Vec<ResourceEntry>)
    ensures
        entries_view(r@) == merge_spec(decoded_entries_of(payloads@)),
{
    merge_payloads(payloads)
}

/// Merge queued metrics payloads into the entries of one export request.
pub fn merge_metrics(payloads: &VecDeque<bytes::Bytes>) -> (r: Vec<ResourceEntry>)
    ensures
        entries_view(r@) == merge_spec(decoded_entries_of(payloads@)),
{
    merge_payloads(payloads)
}

/// Merge queued log payloads into the entries of one export request.
pub fn merge_logs(payloads: &VecDeque<bytes::Bytes>) -> (r: Vec<ResourceEntry>)
    ensures
        entries_view(r@) == merge_spec(decoded_entries_of(payloads@)),
{
    merge_payloads(payloads)
}

proof fn lemma_count_field_concat(a: Seq<(nat, Seq<u8>)>, b: Seq<(nat, Seq<u8>)>, f: nat)
    ensures
        count_field(a + b, f) == count_field(a, f) + count_field(b, f),
    decreases b.len(),
{
    if b.len() == 0 {
        assert(a + b =~= a);
    } else {
        lemma_count_field_concat(a, b.drop_last(), f);
        assert((a + b).drop_last() =~= a + b.drop_last());
        assert((a + b).last() == b.last());
    }
}

proof fn lemma_concat_field_concat(a: Seq<(nat, Seq<u8>)>, b: Seq<(nat, Seq<u8>)>, f: nat)
    ensures
        concat_field(a + b, f) == concat_field(a, f) + concat_field(b, f),
    decreases b.len(),
{
    if b.len() == 0 {
        assert(a + b =~= a);
        assert(concat_field(a, f) + concat_field(b, f) =~= concat_field(a, f));
    } else {
        lemma_concat_field_concat(a, b.drop_last(), f);
        assert((a + b).drop_last() =~= a + b.drop_last());
        assert((a + b).last() == b.last());
        assert(concat_field(a, f) + (concat_field(b.drop_last(), f) + (if b.last().0 == f {
            b.last().1
        } else {
            Seq::<u8>::empty()
        })) =~= (concat_field(a, f) + concat_field(b.drop_last(), f)) + (if b.last().0 == f {
            b.last().1
        } else {
            Seq::<u8>::empty()
        }));
    }
}

proof fn lemma_payloads_of_concat(a: Seq<(nat, Seq<u8>)>, b: Seq<(nat, Seq<u8>)>, f: nat)
    ensures
        payloads_of(a + b, f) == payloads_of(a, f) + payloads_of(b, f),
    decreases b.len(),
{
    if b.len() == 0 {
        assert(a + b =~= a);
        assert(payloads_of(a, f) + payloads_of(b, f) =~= payloads_of(a, f));
    } else {
        lemma_payloads_of_concat(a, b.drop_last(), f);
        assert((a + b).drop_last() =~= a + b.drop_last());
        assert((a + b).last() == b.last());
        assert(payloads_of(a, f) + (payloads_of(b.drop_last(), f) + (if b.last().0 == f {
            seq![b.last().1]
        } else {
            Seq::<Seq<u8>>::empty()
        })) =~= (payloads_of(a, f) + payloads_of(b.drop_last(), f)) + (if b.last().0 == f {
            seq![b.last().1]
        } else {
            Seq::<Seq<u8>>::empty()
        }));
    }
}

proof fn lemma_last_field_concat(a: Seq<(nat, Seq<u8>)>, b: Seq<(nat, Seq<u8>)>, f: nat)
    ensures
        last_field_or_empty(a + b, f) == if count_field(b, f) > 0 {
            last_field_or_empty(b, f)
        } else {
            last_field_or_empty(a, f)
        },
    decreases b.len(),
{
    if b.len() == 0 {
        assert(a + b =~= a);
    } else {
        lemma_last_field_concat(a, b.drop_last(), f);
        assert((a + b).drop_last() =~= a + b.drop_last());
        assert((a + b).last() == b.last());
    }
}

/// The field list the scope entries of an entry encode to.
pub open spec fn scope_fields(scopes: Seq<Seq<u8>>) -> Seq<(nat, Seq<u8>)>
    decreases scopes.len(),
{
    if scopes.len() == 0 {
        Seq::empty()
    } else {
        scope_fields(scopes.drop_last()).push((2, scopes.last()))
    }
}

proof fn lemma_scope_fields_facts(scopes: Seq<Seq<u8>>)
    ensures
        count_field(scope_fields(scopes), 1) == 0,
        count_field(scope_fields(scopes), 3) == 0,
        concat_field(scope_fields(scopes), 1) == Seq::<u8>::empty(),
        payloads_of(scope_fields(scopes), 2) == scopes,
        last_field_or_empty(scope_fields(scopes), 3) == Seq::<u8>::empty(),
    decreases scopes.len(),
{
    if scopes.len() == 0 {
    } else {
        lemma_scope_fields_facts(scopes.drop_last());
        let sf = scope_fields(scopes);
        assert(sf.drop_last() =~= scope_fields(scopes.drop_last()));
        assert(sf.last() == (2nat, scopes.last()));
        assert(concat_field(sf.drop_last(), 1) + Seq::<u8>::empty() =~= Seq::<u8>::empty());
        assert(payloads_of(sf.drop_last(), 2) + seq![scopes.last()] =~= scopes);
    }
}

proof fn lemma_fields_dec_enc_scopes(scopes: Seq<Seq<u8>>, rest: Seq<u8>)
    requires
        forall|i: int| 0 <= i < scopes.len() ==> #[trigger] scopes[i].len() <= u64::MAX,
        fields_dec(rest) is Some,
    ensures
        fields_dec(enc_scopes(scopes) + rest) == Some(
            scope_fields(scopes) + fields_dec(rest)->Some_0,
        ),
    decreases scopes.len(),
{
    if scopes.len() == 0 {
        assert(enc_scopes(scopes) + rest =~= rest);
        assert(scope_fields(scopes) + fields_dec(rest)->Some_0 =~= fields_dec(rest)->Some_0);
    } else {
        let last = scopes.last();
        let rest1 = field_enc(2, last) + rest;
        crate::wire::lemma_field_round_trip(2, last, rest);
        assert(forall|i: int|
            0 <= i < scopes.drop_last().len() ==> #[trigger] scopes.drop_last()[i].len()
                <= u64::MAX) by {
            assert(forall|i: int|
                0 <= i < scopes.drop_last().len() ==> scopes.drop_last()[i]
                    == #[trigger] scopes[i]);
        }
        lemma_fields_dec_enc_scopes(scopes.drop_last(), rest1);
        assert(enc_scopes(scopes) + rest =~= enc_scopes(scopes.drop_last()) + rest1);
        assert(scope_fields(scopes.drop_last()) + (seq![(2nat, last)] + fields_dec(
            rest,
        )->Some_0) =~= scope_fields(scopes) + fields_dec(rest)->Some_0);
    }
}

/// Decoding an encoded entry gives the entry back: the codec loses nothing.
/// The entry must be coherent — its attributes are what its resource bytes
/// hold — and its parts must fit 64-bit lengths, as anything decoded does.
pub proof fn lemma_decode_encode_entry(e: EntryModel)
    requires
        match e.resource {
            Some(rb) => spec_decode_attrs(rb) == Some(e.attributes) && rb.len() <= u64::MAX,
            None => e.attributes.len() == 0,
        },
        forall|i: int| 0 <= i < e.scopes.len() ==> #[trigger] e.scopes[i].len() <= u64::MAX,
        e.schema_url.len() <= u64::MAX,
    ensures
        spec_decode_entry(spec_encode_entry(e)) == Some(e),
{
    let schema = e.schema_url;
    let tail = if schema.len() > 0 {
        field_enc(3, schema)
    } else {
        Seq::<u8>::empty()
    };
    let tf: Seq<(nat, Seq<u8>)> = if schema.len() > 0 {
        seq![(3nat, schema)]
    } else {
        Seq::empty()
    };
    assert(fields_dec(tail) == Some(tf)) by {
        if schema.len() > 0 {
            crate::wire::lemma_field_round_trip(3, schema, Seq::<u8>::empty());
            assert(field_enc(3, schema) + Seq::<u8>::empty() =~= field_enc(3, schema));
            assert(fields_dec(Seq::<u8>::empty()) == Some(Seq::<(nat, Seq<u8>)>::empty()));
            assert(seq![(3nat, schema)] + Seq::<(nat, Seq<u8>)>::empty() =~= tf);
        } else {
            assert(tail.len() == 0);
        }
    }
    let mid = enc_scopes(e.scopes) + tail;
    let sf = scope_fields(e.scopes);
    lemma_fields_dec_enc_scopes(e.scopes, tail);
    assert(fields_dec(mid) == Some(sf + tf));
    lemma_scope_fields_facts(e.scopes);
    let s = spec_encode_entry(e);
    let rf: Seq<(nat, Seq<u8>)> = match e.resource {
        Some(rb) => seq![(1nat, rb)],
        None => Seq::empty(),
    };
    assert(fields_dec(s) == Some(rf + (sf + tf))) by {
        match e.resource {
            Some(rb) => {
                crate::wire::lemma_field_round_trip(1, rb, mid);
                assert(s =~= field_enc(1, rb) + mid);
                assert(seq![(1nat, rb)] + (sf + tf) =~= rf + (sf + tf));
            },
            None => {
                assert(s =~= mid);
                assert(rf + (sf + tf) =~= sf + tf);
            },
        }
    }
    let fields = rf + (sf + tf);
    lemma_count_field_concat(rf, sf + tf, 1);
    lemma_count_field_concat(sf, tf, 1);
    lemma_concat_field_concat(rf, sf + tf, 1);
    lemma_concat_field_concat(sf, tf, 1);
    lemma_payloads_of_concat(rf, sf + tf, 2);
    lemma_payloads_of_concat(sf, tf, 2);
    lemma_last_field_concat(rf, sf + tf, 3);
    lemma_last_field_concat(sf, tf, 3);
    lemma_count_field_concat(sf, tf, 3);
    assert(count_field(tf, 1) == 0 && concat_field(tf, 1) == Seq::<u8>::empty()
        && payloads_of(tf, 2) == Seq::<Seq<u8>>::empty()) by {
        if schema.len() > 0 {
            assert(tf.drop_last() =~= Seq::<(nat, Seq<u8>)>::empty());
            assert(tf.last() == (3nat, schema));
            assert(count_field(Seq::<(nat, Seq<u8>)>::empty(), 1) == 0);
            assert(concat_field(Seq::<(nat, Seq<u8>)>::empty(), 1) == Seq::<u8>::empty());
            assert(payloads_of(Seq::<(nat, Seq<u8>)>::empty(), 2) == Seq::<Seq<u8>>::empty());
            assert(Seq::<u8>::empty() + Seq::<u8>::empty() =~= Seq::<u8>::empty());
            assert(Seq::<Seq<u8>>::empty() + Seq::<Seq<u8>>::empty() =~= Seq::<Seq<u8>>::empty());
        }
    }
    match e.resource {
        Some(rb) => {
            assert(rf.drop_last() =~= Seq::<(nat, Seq<u8>)>::empty());
            assert(rf.last() == (1nat, rb));
            assert(count_field(Seq::<(nat, Seq<u8>)>::empty(), 1) == 0);
            assert(concat_field(Seq::<(nat, Seq<u8>)>::empty(), 1) == Seq::<u8>::empty());
            assert(count_field(rf, 1) == 1);
            assert(count_field(fields, 1) == 1);
            assert(concat_field(rf, 1) =~= rb);
            assert(concat_field(fields, 1) =~= rb);
        },
        None => {
            assert(count_field(fields, 1) == 0);
        },
    }
    assert(payloads_of(rf, 2) =~= Seq::<Seq<u8>>::empty()) by {
        if e.resource is Some {
            assert(rf.drop_last() =~= Seq::<(nat, Seq<u8>)>::empty());
            assert(rf.last().0 == 1);
            assert(payloads_of(Seq::<(nat, Seq<u8>)>::empty(), 2) == Seq::<Seq<u8>>::empty());
            assert(Seq::<Seq<u8>>::empty() + Seq::<Seq<u8>>::empty() =~= Seq::<Seq<u8>>::empty());
        }
    }
    assert(payloads_of(fields, 2) =~= e.scopes);
    assert(last_field_or_empty(fields, 3) =~= schema) by {
        if schema.len() > 0 {
            assert(count_field(tf, 3) == 1) by {
                assert(tf.drop_last() =~= Seq::<(nat, Seq<u8>)>::empty());
                assert(tf.last() == (3nat, schema));
                assert(count_field(Seq::<(nat, Seq<u8>)>::empty(), 3) == 0);
            }
            assert(last_field_or_empty(tf, 3) == schema) by {
                assert(tf.last() == (3nat, schema));
            }
        } else {
            assert(count_field(tf, 3) == 0);
            assert(count_field(rf, 3) == 0) by {
                if e.resource is Some {
                    assert(rf.drop_last() =~= Seq::<(nat, Seq<u8>)>::empty());
                    assert(rf.last().0 == 1);
                    assert(count_field(Seq::<(nat, Seq<u8>)>::empty(), 3) == 0);
                }
            }
            lemma_last_field_concat(rf, sf, 3);
            lemma_count_field_concat(rf, sf, 3);
            assert(rf + (sf + tf) =~= (rf + sf) + tf);
            assert(last_field_or_empty(rf, 3) == Seq::<u8>::empty()) by {
                if e.resource is Some {
                    assert(rf.drop_last() =~= Seq::<(nat, Seq<u8>)>::empty());
                    assert(rf.last().0 == 1);
                    assert(last_field_or_empty(Seq::<(nat, Seq<u8>)>::empty(), 3)
                        == Seq::<u8>::empty());
                }
            }
            assert(schema =~= Seq::<u8>::empty());
        }
    }
    match spec_decode_entry(s) {
        Some(d) => {
            assert(d.resource == e.resource);
            assert(d.attributes == e.attributes) by {
                if e.resource is None {
                    assert(e.attributes =~= Seq::<(Seq<u8>, Seq<u8>)>::empty());
                }
            }
            assert(d.scopes == e.scopes);
            assert(d.schema_url == e.schema_url);
        },
        None => {
            assert(false);
        },
    }
}

/// An entry whose parts are what decoding its own encoding must yield: the
/// attributes are exactly what its resource bytes hold, and every part fits
/// a 64-bit length. Everything `decode_entry` produces is coherent.
pub open spec fn entry_coherent(e: EntryModel) -> bool {
    &&& match e.resource {
        Some(rb) => spec_decode_attrs(rb) == Some(e.attributes) && rb.len() <= u64::MAX,
        None => e.attributes.len() == 0,
    }
    &&& forall|i: int| 0 <= i < e.scopes.len() ==> #[trigger] e.scopes[i].len() <= u64::MAX
    &&& e.schema_url.len() <= u64::MAX
}

/// The field list a run of entries encodes to.
pub open spec fn entry_fields(es: Seq<EntryModel>) -> Seq<(nat, Seq<u8>)>
    decreases es.len(),
{
    if es.len() == 0 {
        Seq::empty()
    } else {
        entry_fields(es.drop_last()).push((1, spec_encode_entry(es.last())))
    }
}

proof fn lemma_fields_dec_enc_request(es: Seq<EntryModel>, rest: Seq<u8>)
    requires
        forall|i: int|
            0 <= i < es.len() ==> spec_encode_entry(#[trigger] es[i]).len() <= u64::MAX,
        fields_dec(rest) is Some,
    ensures
        fields_dec(spec_encode_request(es) + rest) == Some(
            entry_fields(es) + fields_dec(rest)->Some_0,
        ),
    decreases es.len(),
{
    if es.len() == 0 {
        assert(spec_encode_request(es) + rest =~= rest);
        assert(entry_fields(es) + fields_dec(rest)->Some_0 =~= fields_dec(rest)->Some_0);
    } else {
        let enc = spec_encode_entry(es.last());
        let rest1 = field_enc(1, enc) + rest;
        crate::wire::lemma_field_round_trip(1, enc, rest);
        assert(forall|i: int|
            0 <= i < es.drop_last().len() ==> spec_encode_entry(
                #[trigger] es.drop_last()[i],
            ).len() <= u64::MAX) by {
            assert(forall|i: int|
                0 <= i < es.drop_last().len() ==> es.drop_last()[i] == #[trigger] es[i]);
        }
        lemma_fields_dec_enc_request(es.drop_last(), rest1);
        assert(spec_encode_request(es) + rest =~= spec_encode_request(es.drop_last()) + rest1);
        assert(entry_fields(es.drop_last()) + (seq![(1nat, enc)] + fields_dec(rest)->Some_0)
            =~= entry_fields(es) + fields_dec(rest)->Some_0);
    }
}

proof fn lemma_entry_fields_payloads(es: Seq<EntryModel>)
    ensures
        payloads_of(entry_fields(es), 1) == Seq::new(
            es.len(),
            |i: int| spec_encode_entry(es[i]),
        ),
    decreases es.len(),
{
    let ps = Seq::new(es.len(), |i: int| spec_encode_entry(es[i]));
    if es.len() == 0 {
        assert(payloads_of(entry_fields(es), 1) =~= ps);
    } else {
        lemma_entry_fields_payloads(es.drop_last());
        let ef = entry_fields(es);
        assert(ef.drop_last() =~= entry_fields(es.drop_last()));
        assert(ef.last() == (1nat, spec_encode_entry(es.last())));
        assert(Seq::new(es.drop_last().len(), |i: int| spec_encode_entry(es.drop_last()[i]))
            =~= ps.drop_last());
        assert(payloads_of(ef, 1) =~= ps);
    }
}

proof fn lemma_decode_entries_of_encodings(es: Seq<EntryModel>)
    requires
        forall|i: int| 0 <= i < es.len() ==> entry_coherent(#[trigger] es[i]),
    ensures
        spec_decode_entries(Seq::new(es.len(), |i: int| spec_encode_entry(es[i]))) == Some(es),
    decreases es.len(),
{
    let ps = Seq::new(es.len(), |i: int| spec_encode_entry(es[i]));
    if es.len() == 0 {
        assert(spec_decode_entries(ps) == Some(Seq::<EntryModel>::empty()));
        assert(es =~= Seq::<EntryModel>::empty());
    } else {
        lemma_decode_encode_entry(es[0]);
        assert(ps[0] == spec_encode_entry(es[0]));
        assert(forall|i: int|
            0 <= i < es.drop_first().len() ==> es.drop_first()[i] == #[trigger] es[i + 1]);
        assert(forall|i: int|
            0 <= i < es.drop_first().len() ==> entry_coherent(#[trigger] es.drop_first()[i]));
        lemma_decode_entries_of_encodings(es.drop_first());
        assert(ps.drop_first() =~= Seq::new(
            es.drop_first().len(),
            |i: int| spec_encode_entry(es.drop_first()[i]),
        ));
        assert(seq![es[0]] + es.drop_first() =~= es);
    }
}

/// Decoding an encoded request gives its entries back, whole and in order:
/// re-encoding in the merger loses nothing.
pub proof fn lemma_decode_encode_request(es: Seq<EntryModel>)
    requires
        forall|i: int| 0 <= i < es.len() ==> entry_coherent(#[trigger] es[i]),
        forall|i: int|
            0 <= i < es.len() ==> spec_encode_entry(#[trigger] es[i]).len() <= u64::MAX,
    ensures
        spec_decode_request(spec_encode_request(es)) == Some(es),
{
    lemma_fields_dec_enc_request(es, Seq::<u8>::empty());
    assert(spec_encode_request(es) + Seq::<u8>::empty() =~= spec_encode_request(es));
    assert(fields_dec(Seq::<u8>::empty()) == Some(Seq::<(nat, Seq<u8>)>::empty()));
    assert(entry_fields(es) + Seq::<(nat, Seq<u8>)>::empty() =~= entry_fields(es));
    lemma_entry_fields_payloads(es);
    lemma_decode_entries_of_encodings(es);
}

/// On distinct byte strings, the lexicographic order is total.
proof fn lemma_lex_total(a: Seq<u8>, b: Seq<u8>)
    requires
        a != b,
    ensures
        lex_lt(a, b) || lex_lt(b, a),
    decreases a.len(),
{
    if b.len() == 0 {
        if a.len() == 0 {
            assert(a =~= b);
        }
    } else if a.len() == 0 {
    } else if a[0] < b[0] {
    } else if a[0] > b[0] {
    } else {
        assert(a.drop_first() != b.drop_first()) by {
            if a.drop_first() == b.drop_first() {
                assert(a.drop_first().len() == b.drop_first().len());
                assert(a.len() == b.len());
                assert(forall|i: int|
                    1 <= i < a.len() ==> #[trigger] a[i] == a.drop_first()[i - 1]
                        && b[i] == b.drop_first()[i - 1]);
                assert(a =~= b);
            }
        }
        lemma_lex_total(a.drop_first(), b.drop_first());
    }
}

/// The lexicographic order is asymmetric.
proof fn lemma_lex_asym(a: Seq<u8>, b: Seq<u8>)
    requires
        lex_lt(a, b),
    ensures
        !lex_lt(b, a),
    decreases a.len(),
{
    if b.len() == 0 {
    } else if a.len() == 0 {
    } else if a[0] < b[0] {
    } else if a[0] > b[0] {
    } else {
        lemma_lex_asym(a.drop_first(), b.drop_first());
    }
}

/// The lexicographic order is transitive.
proof fn lemma_lex_trans(a: Seq<u8>, b: Seq<u8>, c: Seq<u8>)
    requires
        lex_lt(a, b),
        lex_lt(b, c),
    ensures
        lex_lt(a, c),
    decreases a.len(),
{
    if a.len() == 0 {
    } else {
        if b.len() == 0 {
        } else if c.len() == 0 {
        } else {
            if a[0] == b[0] && b[0] == c[0] {
                lemma_lex_trans(a.drop_first(), b.drop_first(), c.drop_first());
            }
        }
    }
}

/// Two attributes with distinct keys may be inserted in either order: the
/// canonically sorted list comes out the same. The order of insertion of a
/// resource's attributes therefore never affects its identity.
pub proof fn lemma_insert_sorted_comm(
    list: Seq<(Seq<u8>, Seq<u8>)>,
    a: (Seq<u8>, Seq<u8>),
    b: (Seq<u8>, Seq<u8>),
)
    requires
        a.0 != b.0,
    ensures
        insert_sorted(insert_sorted(list, a), b) == insert_sorted(insert_sorted(list, b), a),
    decreases list.len(), 2int,
{
    lemma_lex_total(a.0, b.0);
    if lex_lt(a.0, b.0) {
        lemma_lex_asym(a.0, b.0);
    } else {
        lemma_lex_asym(b.0, a.0);
    }
    if list.len() == 0 {
        assert(insert_sorted(Seq::<(Seq<u8>, Seq<u8>)>::empty(), a) =~= seq![a]);
        assert(insert_sorted(Seq::<(Seq<u8>, Seq<u8>)>::empty(), b) =~= seq![b]);
        if lex_lt(a.0, b.0) {
            assert(insert_sorted(list, a) =~= seq![a]);
            assert(seq![a][0] == a);
            assert(seq![a].drop_first() =~= Seq::<(Seq<u8>, Seq<u8>)>::empty());
            assert(insert_sorted(seq![a], b) =~= seq![a] + insert_sorted(
                Seq::<(Seq<u8>, Seq<u8>)>::empty(),
                b,
            ));
            assert(insert_sorted(insert_sorted(list, a), b) =~= seq![a, b]);
            assert(insert_sorted(list, b) =~= seq![b]);
            assert(seq![b][0] == b);
            assert(insert_sorted(insert_sorted(list, b), a) =~= seq![a, b]);
        } else {
            assert(insert_sorted(list, a) =~= seq![a]);
            assert(seq![a][0] == a);
            assert(insert_sorted(insert_sorted(list, a), b) =~= seq![b, a]);
            assert(insert_sorted(list, b) =~= seq![b]);
            assert(seq![b][0] == b);
            assert(seq![b].drop_first() =~= Seq::<(Seq<u8>, Seq<u8>)>::empty());
            assert(insert_sorted(seq![b], a) =~= seq![b] + insert_sorted(
                Seq::<(Seq<u8>, Seq<u8>)>::empty(),
                a,
            ));
            assert(insert_sorted(insert_sorted(list, b), a) =~= seq![b, a]);
        }
    } else {
        if lex_lt(a.0, b.0) {
            lemma_insert_comm_head(list, a, b);
        } else {
            lemma_insert_comm_head(list, b, a);
        }
    }
}

/// The head-by-head case analysis behind [`lemma_insert_sorted_comm`].
proof fn lemma_insert_comm_head(
    list: Seq<(Seq<u8>, Seq<u8>)>,
    a: (Seq<u8>, Seq<u8>),
    b: (Seq<u8>, Seq<u8>),
)
    requires
        a.0 != b.0,
        list.len() > 0,
        lex_lt(a.0, b.0),
    ensures
        insert_sorted(insert_sorted(list, a), b) == insert_sorted(insert_sorted(list, b), a),
    decreases list.len(), 1int,
{
    lemma_lex_asym(a.0, b.0);
    let h = list[0];
    let rest = list.drop_first();
    if lex_lt(a.0, h.0) {
        let ia = seq![a] + list;
        assert(insert_sorted(list, a) =~= ia);
        assert(ia[0] == a);
        assert(ia.drop_first() =~= list);
        // b is greater than a, so inserting b into ia passes over a
        assert(insert_sorted(ia, b) =~= seq![a] + insert_sorted(list, b));
        if lex_lt(b.0, h.0) {
            let ib = seq![b] + list;
            assert(insert_sorted(list, b) =~= ib);
            assert(ib[0] == b);
            assert(ib.drop_first() =~= list);
            assert(insert_sorted(ib, a) =~= seq![a] + ib);
            assert(seq![a] + insert_sorted(list, b) =~= seq![a] + ib);
        } else if b.0 == h.0 {
            let ib = seq![b] + rest;
            assert(insert_sorted(list, b) =~= ib);
            assert(ib[0] == b);
            assert(insert_sorted(ib, a) =~= seq![a] + ib);
        } else {
            let ib = seq![h] + insert_sorted(rest, b);
            assert(insert_sorted(list, b) =~= ib);
            assert(ib[0] == h);
            assert(insert_sorted(ib, a) =~= seq![a] + ib);
        }
    } else if a.0 == h.0 {
        let ia = seq![a] + rest;
        assert(insert_sorted(list, a) =~= ia);
        assert(ia[0] == a);
        assert(ia.drop_first() =~= rest);
        // b.0 > a.0 == h.0, so b goes past both heads
        assert(!lex_lt(b.0, h.0) && b.0 != h.0) by {
            if lex_lt(b.0, h.0) {
                assert(lex_lt(b.0, a.0));
            }
        }
        assert(insert_sorted(ia, b) =~= seq![a] + insert_sorted(rest, b));
        let ib = seq![h] + insert_sorted(rest, b);
        assert(insert_sorted(list, b) =~= ib);
        assert(ib[0] == h);
        assert(ib.drop_first() =~= insert_sorted(rest, b));
        assert(insert_sorted(ib, a) =~= seq![a] + insert_sorted(rest, b));
    } else {
        // a.0 > h.0, hence b.0 > h.0 as well
        assert(!lex_lt(b.0, h.0) && b.0 != h.0) by {
            lemma_lex_total(a.0, h.0);
            if lex_lt(b.0, h.0) {
                lemma_lex_trans(b.0, h.0, a.0);
                lemma_lex_asym(b.0, a.0);
            }
            if b.0 == h.0 {
                lemma_lex_asym(h.0, a.0);
            }
        }
        let ia = seq![h] + insert_sorted(rest, a);
        assert(insert_sorted(list, a) =~= ia);
        assert(ia[0] == h);
        assert(ia.drop_first() =~= insert_sorted(rest, a));
        assert(insert_sorted(ia, b) =~= seq![h] + insert_sorted(insert_sorted(rest, a), b));
        let ib = seq![h] + insert_sorted(rest, b);
        assert(insert_sorted(list, b) =~= ib);
        assert(ib[0] == h);
        assert(ib.drop_first() =~= insert_sorted(rest, b));
        assert(insert_sorted(ib, a) =~= seq![h] + insert_sorted(insert_sorted(rest, b), a));
        lemma_insert_sorted_comm(rest, a, b);
    }
}

/// Canonicalization only looks at what came before: equal canonical prefixes
/// extended by the same attributes stay equal.
proof fn lemma_canon_ext(
    p1: Seq<(Seq<u8>, Seq<u8>)>,
    p2: Seq<(Seq<u8>, Seq<u8>)>,
    suffix: Seq<(Seq<u8>, Seq<u8>)>,
)
    requires
        canon_attrs(p1) == canon_attrs(p2),
    ensures
        canon_attrs(p1 + suffix) == canon_attrs(p2 + suffix),
    decreases suffix.len(),
{
    if suffix.len() == 0 {
        assert(p1 + suffix =~= p1);
        assert(p2 + suffix =~= p2);
    } else {
        lemma_canon_ext(p1, p2, suffix.drop_last());
        assert((p1 + suffix).drop_last() =~= p1 + suffix.drop_last());
        assert((p2 + suffix).drop_last() =~= p2 + suffix.drop_last());
        assert((p1 + suffix).last() == suffix.last());
        assert((p2 + suffix).last() == suffix.last());
    }
}

/// Swapping two neighbouring attributes with distinct keys leaves the
/// resource identity unchanged: attribute order never matters to identity.
/// (Two attributes with the same key are not interchangeable: the later one
/// wins.)
pub proof fn lemma_identity_ignores_adjacent_swap(
    attrs: Seq<(Seq<u8>, Seq<u8>)>,
    i: int,
    schema: Seq<u8>,
)
    requires
        0 <= i,
        i + 1 < attrs.len(),
        attrs[i].0 != attrs[i + 1].0,
    ensures
        spec_identity(attrs.update(i, attrs[i + 1]).update(i + 1, attrs[i]), schema)
            == spec_identity(attrs, schema),
{
    let a = attrs[i];
    let b = attrs[i + 1];
    let p = attrs.subrange(0, i);
    let suffix = attrs.subrange(i + 2, attrs.len() as int);
    let ab = p.push(a).push(b);
    let ba = p.push(b).push(a);
    assert(canon_attrs(p.push(a)) == insert_sorted(canon_attrs(p), a)) by {
        assert(p.push(a).drop_last() =~= p);
        assert(p.push(a).last() == a);
    }
    assert(canon_attrs(p.push(b)) == insert_sorted(canon_attrs(p), b)) by {
        assert(p.push(b).drop_last() =~= p);
        assert(p.push(b).last() == b);
    }
    assert(canon_attrs(ab) == insert_sorted(insert_sorted(canon_attrs(p), a), b)) by {
        assert(ab.drop_last() =~= p.push(a));
        assert(ab.last() == b);
    }
    assert(canon_attrs(ba) == insert_sorted(insert_sorted(canon_attrs(p), b), a)) by {
        assert(ba.drop_last() =~= p.push(b));
        assert(ba.last() == a);
    }
    lemma_insert_sorted_comm(canon_attrs(p), a, b);
    lemma_canon_ext(ab, ba, suffix);
    assert(ab + suffix =~= attrs);
    assert(ba + suffix =~= attrs.update(i, b).update(i + 1, a));
}

/// Whether some entry of `es` carries the given identity.
pub open spec fn has_id(es: Seq<EntryModel>, id: (Seq<u8>, Seq<u8>)) -> bool {
    exists|i: int| 0 <= i < es.len() && entry_id(#[trigger] es[i]) == id
}

/// The scope entries of every entry with the given identity, concatenated in
/// arrival order.
pub open spec fn scopes_of_id(es: Seq<EntryModel>, id: (Seq<u8>, Seq<u8>)) -> Seq<Seq<u8>>
    decreases es.len(),
{
    if es.len() == 0 {
        Seq::empty()
    } else {
        scopes_of_id(es.drop_last(), id) + (if entry_id(es.last()) == id {
            es.last().scopes
        } else {
            Seq::empty()
        })
    }
}

/// Index of the first entry of `es` with the given identity; meaningful only
/// when one exists.
pub open spec fn first_idx(es: Seq<EntryModel>, id: (Seq<u8>, Seq<u8>)) -> int
    decreases es.len(),
{
    if es.len() == 0 {
        -1
    } else if entry_id(es[0]) == id {
        0
    } else {
        let r = first_idx(es.drop_first(), id);
        if r < 0 {
            -1
        } else {
            r + 1
        }
    }
}

proof fn lemma_find_id_none(s: Seq<EntryModel>, id: (Seq<u8>, Seq<u8>))
    requires
        find_id(s, id) < 0,
    ensures
        forall|k: int| 0 <= k < s.len() ==> entry_id(#[trigger] s[k]) != id,
    decreases s.len(),
{
    if s.len() > 0 {
        lemma_find_id_none(s.drop_first(), id);
        assert(forall|k: int|
            1 <= k < s.len() ==> #[trigger] s[k] == s.drop_first()[k - 1]);
    }
}

proof fn lemma_find_id_found(s: Seq<EntryModel>, id: (Seq<u8>, Seq<u8>))
    requires
        find_id(s, id) >= 0,
    ensures
        0 <= find_id(s, id) < s.len(),
        entry_id(s[find_id(s, id)]) == id,
        forall|k: int| 0 <= k < find_id(s, id) ==> entry_id(#[trigger] s[k]) != id,
    decreases s.len(),
{
    if s.len() > 0 && entry_id(s[0]) != id {
        lemma_find_id_found(s.drop_first(), id);
        assert(forall|k: int|
            1 <= k < s.len() ==> #[trigger] s[k] == s.drop_first()[k - 1]);
    }
}

proof fn lemma_scopes_of_id_absent(es: Seq<EntryModel>, id: (Seq<u8>, Seq<u8>))
    requires
        forall|i: int| 0 <= i < es.len() ==> entry_id(#[trigger] es[i]) != id,
    ensures
        scopes_of_id(es, id) == Seq::<Seq<u8>>::empty(),
    decreases es.len(),
{
    if es.len() > 0 {
        lemma_scopes_of_id_absent(es.drop_last(), id);
        assert(scopes_of_id(es, id) =~= Seq::<Seq<u8>>::empty());
    }
}

proof fn lemma_first_idx_found(es: Seq<EntryModel>, id: (Seq<u8>, Seq<u8>))
    requires
        has_id(es, id),
    ensures
        0 <= first_idx(es, id) < es.len(),
        entry_id(es[first_idx(es, id)]) == id,
    decreases es.len(),
{
    if es.len() > 0 {
        if entry_id(es[0]) == id {
        } else {
            assert(has_id(es.drop_first(), id)) by {
                let i = choose|i: int| 0 <= i < es.len() && entry_id(#[trigger] es[i]) == id;
                assert(es.drop_first()[i - 1] == es[i]);
            }
            lemma_first_idx_found(es.drop_first(), id);
        }
    }
}

/// The first occurrence of an identity that already appears without the last
/// entry stays where it was.
proof fn lemma_first_idx_prefix(es: Seq<EntryModel>, id: (Seq<u8>, Seq<u8>))
    requires
        es.len() > 0,
        has_id(es.drop_last(), id),
    ensures
        first_idx(es, id) == first_idx(es.drop_last(), id),
    decreases es.len(),
{
    let head = es.drop_last();
    if entry_id(es[0]) == id {
    } else {
        assert(head[0] == es[0]);
        assert(es.len() >= 2) by {
            let i = choose|i: int| 0 <= i < head.len() && entry_id(#[trigger] head[i]) == id;
        }
        assert(es.drop_first().drop_last() =~= head.drop_first());
        assert(has_id(head.drop_first(), id)) by {
            let i = choose|i: int| 0 <= i < head.len() && entry_id(#[trigger] head[i]) == id;
            assert(head.drop_first()[i - 1] == head[i]);
        }
        lemma_first_idx_prefix(es.drop_first(), id);
        lemma_first_idx_found(es.drop_first(), id);
        lemma_first_idx_found(head.drop_first(), id);
    }
}

/// Export order equals ingress order, per signal: each merged group carries
/// exactly the scope entries of the input entries sharing its identity,
/// concatenated in arrival order; group identities are distinct, every input
/// identity is represented, and groups stand in order of first appearance.
pub proof fn lemma_merge_preserves_arrival_order(es: Seq<EntryModel>)
    ensures
        ({
            let m = merge_spec(es);
            &&& forall|j: int, k: int|
                0 <= j < k < m.len() ==> entry_id(#[trigger] m[j]) != entry_id(#[trigger] m[k])
            &&& forall|j: int|
                0 <= j < m.len() ==> #[trigger] m[j].scopes == scopes_of_id(es, entry_id(m[j]))
            &&& forall|j: int| 0 <= j < m.len() ==> has_id(es, entry_id(#[trigger] m[j]))
            &&& forall|id: (Seq<u8>, Seq<u8>)| #[trigger] has_id(es, id) ==> find_id(m, id) >= 0
            &&& forall|j: int, k: int|
                0 <= j < k < m.len() ==> first_idx(es, entry_id(#[trigger] m[j])) < first_idx(
                    es,
                    entry_id(#[trigger] m[k]),
                )
        }),
    decreases es.len(),
{
    if es.len() == 0 {
    } else {
        let head = es.drop_last();
        let e = es.last();
        let ide = entry_id(e);
        lemma_merge_preserves_arrival_order(head);
        let prev = merge_spec(head);
        let m = merge_spec(es);
        let j0 = find_id(prev, ide);
        if j0 < 0 {
            // a new identity: appended as its own group
            lemma_find_id_none(prev, ide);
            assert(m =~= prev.push(e));
            // the new identity appears nowhere in the earlier entries
            assert(forall|i: int|
                0 <= i < head.len() ==> entry_id(#[trigger] head[i]) != ide) by {
                assert forall|i: int|
                    0 <= i < head.len() implies entry_id(#[trigger] head[i]) != ide by {
                    if entry_id(head[i]) == ide {
                        assert(has_id(head, ide));
                    }
                }
            }
            lemma_scopes_of_id_absent(head, ide);
            assert(m[prev.len() as int].scopes == scopes_of_id(es, ide)) by {
                assert(scopes_of_id(es, ide) =~= e.scopes);
            }
            assert forall|j: int|
                0 <= j < prev.len() implies #[trigger] m[j].scopes == scopes_of_id(
                es,
                entry_id(m[j]),
            ) by {
                assert(m[j] == prev[j]);
                assert(has_id(head, entry_id(prev[j])));
                assert(entry_id(prev[j]) != ide);
                assert(scopes_of_id(es, entry_id(prev[j])) =~= scopes_of_id(
                    head,
                    entry_id(prev[j]),
                ));
            }
            assert forall|j: int| 0 <= j < m.len() implies has_id(es, entry_id(#[trigger] m[j])) by {
                if j < prev.len() {
                    let i = choose|i: int|
                        0 <= i < head.len() && entry_id(#[trigger] head[i]) == entry_id(prev[j]);
                    assert(es[i] == head[i]);
                    assert(has_id(es, entry_id(m[j])));
                } else {
                    assert(es[es.len() - 1] == e);
                    assert(has_id(es, ide));
                }
            }
            assert forall|id: (Seq<u8>, Seq<u8>)| #[trigger] has_id(es, id) implies find_id(m, id)
                >= 0 by {
                let i = choose|i: int| 0 <= i < es.len() && entry_id(#[trigger] es[i]) == id;
                if i < head.len() {
                    assert(head[i] == es[i]);
                    assert(has_id(head, id));
                    lemma_find_id_found(prev, id);
                    let f = find_id(prev, id);
                    assert(entry_id(m[f]) == id);
                    assert(forall|k2: int|
                        0 <= k2 < f ==> entry_id(#[trigger] m[k2]) != id) by {
                        assert(forall|k2: int|
                            0 <= k2 < f ==> #[trigger] m[k2] == prev[k2]);
                    }
                    lemma_find_id_hit(m, id, f);
                } else {
                    assert(id == ide);
                    assert(forall|k2: int|
                        0 <= k2 < prev.len() ==> entry_id(#[trigger] m[k2]) != ide) by {
                        assert(forall|k2: int|
                            0 <= k2 < prev.len() ==> #[trigger] m[k2] == prev[k2]);
                    }
                    lemma_find_id_hit(m, ide, prev.len() as int);
                }
            }
            // first-seen order: old groups first appear before the new one
            assert forall|j: int, k: int|
                0 <= j < k < m.len() implies first_idx(es, entry_id(#[trigger] m[j])) < first_idx(
                es,
                entry_id(#[trigger] m[k]),
            ) by {
                if k < prev.len() {
                    lemma_first_idx_prefix(es, entry_id(prev[j]));
                    lemma_first_idx_prefix(es, entry_id(prev[k]));
                } else {
                    lemma_first_idx_prefix(es, entry_id(prev[j]));
                    lemma_first_idx_found(head, entry_id(prev[j]));
                    assert(first_idx(es, entry_id(m[j])) < head.len());
                    assert(first_idx(es, ide) == es.len() - 1) by {
                        lemma_first_idx_found(es, ide);
                        if first_idx(es, ide) < head.len() {
                            assert(head[first_idx(es, ide)] == es[first_idx(es, ide)]);
                            assert(has_id(head, ide));
                        }
                    }
                }
            }
        } else {
            // an already-seen identity: its group absorbs the scope entries
            lemma_find_id_found(prev, ide);
            let grown = EntryModel {
                resource: prev[j0].resource,
                attributes: prev[j0].attributes,
                scopes: prev[j0].scopes + e.scopes,
                schema_url: prev[j0].schema_url,
            };
            assert(m =~= prev.update(j0, grown));
            assert(entry_id(grown) == ide);
            assert(forall|j: int|
                0 <= j < m.len() ==> entry_id(#[trigger] m[j]) == entry_id(prev[j]));
            assert forall|j: int|
                0 <= j < m.len() implies #[trigger] m[j].scopes == scopes_of_id(
                es,
                entry_id(m[j]),
            ) by {
                if j == j0 {
                    assert(m[j0].scopes =~= scopes_of_id(head, ide) + e.scopes);
                    assert(scopes_of_id(es, ide) =~= scopes_of_id(head, ide) + e.scopes);
                } else {
                    assert(m[j] == prev[j]);
                    assert(entry_id(prev[j]) != ide);
                    assert(scopes_of_id(es, entry_id(prev[j])) =~= scopes_of_id(
                        head,
                        entry_id(prev[j]),
                    ));
                }
            }
            assert forall|j: int| 0 <= j < m.len() implies has_id(es, entry_id(#[trigger] m[j])) by {
                assert(has_id(head, entry_id(prev[j])));
                let i = choose|i: int|
                    0 <= i < head.len() && entry_id(#[trigger] head[i]) == entry_id(prev[j]);
                assert(es[i] == head[i]);
            }
            assert forall|id: (Seq<u8>, Seq<u8>)| #[trigger] has_id(es, id) implies find_id(m, id)
                >= 0 by {
                let i = choose|i: int| 0 <= i < es.len() && entry_id(#[trigger] es[i]) == id;
                if i < head.len() {
                    assert(head[i] == es[i]);
                    assert(has_id(head, id));
                } else {
                    assert(id == ide);
                    assert(has_id(head, entry_id(prev[j0 as int])));
                }
                lemma_find_id_found(prev, id);
                let f = find_id(prev, id);
                assert(entry_id(m[f]) == id);
                assert(forall|k2: int|
                    0 <= k2 < f ==> entry_id(#[trigger] m[k2]) != id) by {
                    assert(forall|k2: int|
                        0 <= k2 < f ==> entry_id(#[trigger] m[k2]) == entry_id(prev[k2]));
                }
                lemma_find_id_hit(m, id, f);
            }
            assert forall|j: int, k: int|
                0 <= j < k < m.len() implies first_idx(es, entry_id(#[trigger] m[j])) < first_idx(
                es,
                entry_id(#[trigger] m[k]),
            ) by {
                lemma_first_idx_prefix(es, entry_id(prev[j]));
                lemma_first_idx_prefix(es, entry_id(prev[k]));
            }
        }
    }
}

} // verus!
