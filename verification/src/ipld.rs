//! The values that blocks are made of, and their DAG-CBOR encoding.

use vstd::prelude::*;
use libipld::cbor::DagCborCodec;
use libipld::codec::{Decode, Encode};
use libipld::Ipld as Dag;
use libipld::Multihash;
use std::collections::BTreeMap;
use crate::assoc::{find, lemma_find_at, lemma_find_has_name, Name};
use crate::cbor::{cbor_safe, is_safe};
use crate::cid::{Cid, HashOutput};
use crate::private::codec::digest_of;
use crate::order::{compare_names, Comparison};

verus! {

/// A value of the IPLD data model, without floating-point numbers.
#[derive(Debug, PartialEq, Eq)]
pub enum Value {
    Null,
    Bool(bool),
    Integer(i128),
    Text(String),
    Bytes(Vec<u8>),
    List(Vec<Value>),
    /// A map with text keys, as a list of its entries.
    StringMap(Vec<(String, Value)>),
    Link(Cid),
}

/// A value as contracts see it.
pub enum ValueModel {
    Null,
    Bool(bool),
    Integer(int),
    Text(Seq<char>),
    Bytes(Seq<u8>),
    List(Seq<ValueModel>),
    StringMap(Seq<(Name, ValueModel)>),
    Link(Cid),
}

/// The values that a list of values holds.
pub open spec fn items_model(l: Seq<Value>) -> Seq<ValueModel>
    decreases l,
{
    Seq::new(
        l.len(),
        |i: int|
            if 0 <= i < l.len() {
                l[i].model()
            } else {
                ValueModel::Null
            },
    )
}

/// The entries that a list of names and values holds.
pub open spec fn entries_model(m: Seq<(String, Value)>) -> Seq<(Name, ValueModel)>
    decreases m,
{
    Seq::new(
        m.len(),
        |i: int|
            if 0 <= i < m.len() {
                (m[i].0@, m[i].1.model())
            } else {
                (Seq::empty(), ValueModel::Null)
            },
    )
}

impl Value {
    /// The value that `self` holds.
    pub open spec fn model(&self) -> ValueModel
        decreases self,
    {
        match self {
            Value::Null => ValueModel::Null,
            Value::Bool(b) => ValueModel::Bool(*b),
            Value::Integer(i) => ValueModel::Integer(*i as int),
            Value::Text(s) => ValueModel::Text(s@),
            Value::Bytes(b) => ValueModel::Bytes(b@),
            Value::List(l) => ValueModel::List(items_model(l@)),
            Value::StringMap(m) => ValueModel::StringMap(entries_model(m@)),
            Value::Link(c) => ValueModel::Link(*c),
        }
    }
}

/// The model of a value that may be missing.
pub open spec fn option_model(v: Option<Value>) -> Option<ValueModel> {
    match v {
        Some(v) => Some(v.model()),
        None => None,
    }
}

/// The bytes of a byte vector that may be missing.
pub open spec fn option_bytes(v: Option<Vec<u8>>) -> Option<Seq<u8>> {
    match v {
        Some(v) => Some(v@),
        None => None,
    }
}

/// A value as the decoder hands it out, before it is held to what this
/// library's values can be: a floating-point number is marked, without its
/// number, and a link is given by its parts.
#[derive(Debug, PartialEq, Eq)]
pub enum Raw {
    Null,
    Bool(bool),
    Integer(i128),
    Float,
    Text(String),
    Bytes(Vec<u8>),
    List(Vec<Raw>),
    StringMap(Vec<(String, Raw)>),
    /// Version, codec, hash code and digest of an address.
    Link(u64, u64, u64, Vec<u8>),
}

/// A decoded value as contracts see it.
pub enum RawModel {
    Null,
    Bool(bool),
    Integer(int),
    Float,
    Text(Seq<char>),
    Bytes(Seq<u8>),
    List(Seq<RawModel>),
    StringMap(Seq<(Name, RawModel)>),
    Link(u64, u64, u64, Seq<u8>),
}

/// The decoded values that a list holds.
pub open spec fn raw_items(l: Seq<Raw>) -> Seq<RawModel>
    decreases l,
{
    Seq::new(
        l.len(),
        |i: int|
            if 0 <= i < l.len() {
                l[i].model()
            } else {
                RawModel::Null
            },
    )
}

/// The decoded entries that a list of names and values holds.
pub open spec fn raw_entries(m: Seq<(String, Raw)>) -> Seq<(Name, RawModel)>
    decreases m,
{
    Seq::new(
        m.len(),
        |i: int|
            if 0 <= i < m.len() {
                (m[i].0@, m[i].1.model())
            } else {
                (Seq::empty(), RawModel::Null)
            },
    )
}

impl Raw {
    /// The decoded value that `self` holds.
    pub open spec fn model(&self) -> RawModel
        decreases self,
    {
        match self {
            Raw::Null => RawModel::Null,
            Raw::Bool(b) => RawModel::Bool(*b),
            Raw::Integer(i) => RawModel::Integer(*i as int),
            Raw::Float => RawModel::Float,
            Raw::Text(s) => RawModel::Text(s@),
            Raw::Bytes(b) => RawModel::Bytes(b@),
            Raw::List(l) => RawModel::List(raw_items(l@)),
            Raw::StringMap(m) => RawModel::StringMap(raw_entries(m@)),
            Raw::Link(version, codec, hash_code, digest) => RawModel::Link(
                *version,
                *codec,
                *hash_code,
                digest@,
            ),
        }
    }
}

/// The model of a decoded value that may be missing.
pub open spec fn option_raw(v: Option<Raw>) -> Option<RawModel> {
    match v {
        Some(v) => Some(v.model()),
        None => None,
    }
}

/// The address that the parts of a multiformats CID give: one of version
/// 1 with a digest of 32 bytes, and no other.
pub open spec fn cid_of_parts(version: u64, codec: u64, hash_code: u64, digest: Seq<u8>) -> Option<
    Cid,
> {
    if version == 1 && digest.len() == 32 {
        Some(Cid { codec, hash_code, digest: digest_of(digest) })
    } else {
        None
    }
}

/// The value that a decoded value stands for: `None` where it holds a
/// floating-point number or a link that gives no address, itself or in a
/// value below.
pub open spec fn value_of_raw(raw: RawModel) -> Option<ValueModel>
    decreases raw,
{
    match raw {
        RawModel::Null => Some(ValueModel::Null),
        RawModel::Bool(b) => Some(ValueModel::Bool(b)),
        RawModel::Integer(i) => Some(ValueModel::Integer(i)),
        RawModel::Float => None,
        RawModel::Text(s) => Some(ValueModel::Text(s)),
        RawModel::Bytes(b) => Some(ValueModel::Bytes(b)),
        RawModel::List(items) => match values_of_raws(items) {
            Some(values) => Some(ValueModel::List(values)),
            None => None,
        },
        RawModel::StringMap(entries) => match entries_of_raws(entries) {
            Some(values) => Some(ValueModel::StringMap(values)),
            None => None,
        },
        RawModel::Link(version, codec, hash_code, digest) => match cid_of_parts(
            version,
            codec,
            hash_code,
            digest,
        ) {
            Some(cid) => Some(ValueModel::Link(cid)),
            None => None,
        },
    }
}

/// The values that decoded values stand for: `None` where one of them
/// stands for none.
pub open spec fn values_of_raws(items: Seq<RawModel>) -> Option<Seq<ValueModel>>
    decreases items,
{
    if items.len() == 0 {
        Some(Seq::empty())
    } else {
        match (
            values_of_raws(items.subrange(0, items.len() - 1)),
            value_of_raw(items[items.len() - 1]),
        ) {
            (Some(rest), Some(value)) => Some(rest.push(value)),
            _ => None,
        }
    }
}

/// The entries that decoded entries stand for: `None` where the value of
/// one of them stands for none.
pub open spec fn entries_of_raws(entries: Seq<(Name, RawModel)>) -> Option<
    Seq<(Name, ValueModel)>,
>
    decreases entries,
{
    if entries.len() == 0 {
        Some(Seq::empty())
    } else {
        match (
            entries_of_raws(entries.subrange(0, entries.len() - 1)),
            value_of_raw(entries[entries.len() - 1].1),
        ) {
            (Some(rest), Some(value)) => Some(rest.push((entries[entries.len() - 1].0, value))),
            _ => None,
        }
    }
}

#[verifier::external_type_specification]
#[verifier::external_body]
pub struct ExDag(libipld::Ipld);

/// The DAG-CBOR bytes that libipld's encoder writes for a value, or `None`
/// where it refuses the value.
pub uninterp spec fn dag_cbor_encoding(value: ValueModel) -> Option<Seq<u8>>;

/// What libipld's decoder reads from the head of `bytes`, or `None` where
/// it reports an error.
pub uninterp spec fn dag_cbor_decoding(bytes: Seq<u8>) -> Option<RawModel>;

/// The value that bytes hold: what the decoder reads from bytes that are
/// fit to be decoded, where that stands for a value.
pub open spec fn dag_cbor_value(bytes: Seq<u8>) -> Option<ValueModel> {
    if cbor_safe(bytes) {
        match dag_cbor_decoding(bytes) {
            Some(raw) => value_of_raw(raw),
            None => None,
        }
    } else {
        None
    }
}

/// Rewrites a value as a `libipld::Ipld`, variant by variant. A map becomes a
/// `BTreeMap`, a link a version 1 `libipld::Cid` made with `Cid::new_v1` from
/// `Multihash::wrap`, which accepts any digest of 32 bytes.
#[verifier::external_body]
fn to_dag(v: &Value) -> (r: Dag) {
    match v {
        Value::Null => Dag::Null,
        Value::Bool(b) => Dag::Bool(*b),
        Value::Integer(i) => Dag::Integer(*i),
        Value::Text(s) => Dag::String(s.clone()),
        Value::Bytes(b) => Dag::Bytes(b.clone()),
        Value::List(l) => Dag::List(l.iter().map(to_dag).collect()),
        Value::StringMap(m) => Dag::StringMap(
            m.iter().map(|e| (e.0.clone(), to_dag(&e.1))).collect(),
        ),
        Value::Link(c) => Dag::Link(
            libipld::Cid::new_v1(c.codec, Multihash::wrap(c.hash_code, &c.digest).unwrap()),
        ),
    }
}

/// Rewrites a `libipld::Ipld` variant by variant. A floating-point number
/// is marked without its number; of a link the version, the codec, the
/// code of its hash and the digest are handed out as they are.
#[verifier::external_body]
fn from_dag(d: Dag) -> (r: Raw) {
    match d {
        Dag::Null => Raw::Null,
        Dag::Bool(b) => Raw::Bool(b),
        Dag::Integer(i) => Raw::Integer(i),
        Dag::Float(_) => Raw::Float,
        Dag::String(s) => Raw::Text(s),
        Dag::Bytes(b) => Raw::Bytes(b),
        Dag::List(l) => Raw::List(from_dag_list(l)),
        Dag::StringMap(m) => Raw::StringMap(from_dag_map(m)),
        Dag::Link(c) => Raw::Link(c.version().into(), c.codec(), c.hash().code(), c.hash().digest().to_vec()),
    }
}

/// Rewrites each `libipld::Ipld` of a list.
#[verifier::external_body]
fn from_dag_list(l: Vec<Dag>) -> (r: Vec<Raw>) {
    l.into_iter().map(from_dag).collect()
}

/// Rewrites the entries of a `BTreeMap` of `libipld::Ipld`, in the map's own
/// order.
#[verifier::external_body]
fn from_dag_map(m: BTreeMap<String, Dag>) -> (r: Vec<(String, Raw)>) {
    m.into_iter().map(|(k, v)| (k, from_dag(v))).collect()
}

/// Calls `Ipld::encode` of libipld with `DagCborCodec` on the value, into an
/// empty vector. The result is what the encoder wrote, `None` where it
/// reported an error.
#[verifier::external_body]
pub(crate) fn encode_dag_cbor(v: &Value) -> (r: Option<Vec<u8>>)
    ensures
        option_bytes(r) == dag_cbor_encoding(v.model()),
{
    let mut bytes = Vec::new();
    to_dag(v).encode(DagCborCodec, &mut bytes).ok()?;
    Some(bytes)
}

/// Calls `Ipld::decode` of libipld with `DagCborCodec` on the bytes. The
/// result is what the decoder read, `None` where it reported an error. The
/// bytes are fit to be decoded: the decoder reserves room for as many
/// bytes, items and entries as a string, a list or a map declares, before
/// it reads them, and calls itself for each list and map inside another.
#[verifier::external_body]
pub(crate) fn decode_dag_cbor(bytes: &[u8]) -> (r: Option<Raw>)
    requires
        cbor_safe(bytes@),
    ensures
        option_raw(r) == dag_cbor_decoding(bytes@),
{
    Dag::decode(DagCborCodec, &mut std::io::Cursor::new(bytes)).ok().map(from_dag)
}

/// Where the first of some decoded values stand for no values, neither do
/// all of them.
proof fn lemma_values_prefix(items: Seq<RawModel>, k: int)
    requires
        0 <= k <= items.len(),
        values_of_raws(items.subrange(0, k)) is None,
    ensures
        values_of_raws(items) is None,
    decreases items.len() - k,
{
    if k < items.len() {
        let next = items.subrange(0, k + 1);
        assert(next.subrange(0, next.len() - 1) =~= items.subrange(0, k));
        lemma_values_prefix(items, k + 1);
    } else {
        assert(items.subrange(0, k) =~= items);
    }
}

/// Where the first of some decoded entries stand for no entries, neither
/// do all of them.
proof fn lemma_entries_prefix(entries: Seq<(Name, RawModel)>, k: int)
    requires
        0 <= k <= entries.len(),
        entries_of_raws(entries.subrange(0, k)) is None,
    ensures
        entries_of_raws(entries) is None,
    decreases entries.len() - k,
{
    if k < entries.len() {
        let next = entries.subrange(0, k + 1);
        assert(next.subrange(0, next.len() - 1) =~= entries.subrange(0, k));
        lemma_entries_prefix(entries, k + 1);
    } else {
        assert(entries.subrange(0, k) =~= entries);
    }
}

/// Makes the value that a decoded value stands for: `None` where it holds
/// a floating-point number or a link that gives no address.
pub fn value_from_raw(raw: &Raw) -> (r: Option<Value>)
    ensures
        option_model(r) == value_of_raw(raw.model()),
    decreases raw,
{
    match raw {
        Raw::Null => Some(Value::Null),
        Raw::Bool(b) => Some(Value::Bool(*b)),
        Raw::Integer(i) => Some(Value::Integer(*i)),
        Raw::Float => None,
        Raw::Text(s) => Some(Value::Text(s.clone())),
        Raw::Bytes(b) => Some(Value::Bytes(vstd::slice::slice_to_vec(b.as_slice()))),
        Raw::Link(version, codec, hash_code, digest) => {
            match Cid::from_parts(*version, *codec, *hash_code, digest.as_slice()) {
                Some(cid) => Some(Value::Link(cid)),
                None => None,
            }
        },
        Raw::List(items) => {
            let ghost all = raw_items(items@);
            let mut out: Vec<Value> = Vec::new();
            let mut i: usize = 0;
            proof {
                assert(all.subrange(0, 0) =~= Seq::empty());
                assert(items_model(out@) =~= Seq::empty());
            }
            while i < items.len()
                invariant
                    i <= items.len(),
                    *raw == Raw::List(*items),
                    all == raw_items(items@),
                    values_of_raws(all.subrange(0, i as int)) == Some(items_model(out@)),
                decreases items.len() - i,
            {
                let ghost before = items_model(out@);
                let ghost next = all.subrange(0, i + 1);
                proof {
                    assert(next.subrange(0, next.len() - 1) =~= all.subrange(0, i as int));
                    assert(next[next.len() - 1] == items@[i as int].model());
                }
                match value_from_raw(&items[i]) {
                    Some(value) => {
                        let ghost read = value.model();
                        out.push(value);
                        proof {
                            assert(items_model(out@) =~= before.push(read));
                        }
                    },
                    None => {
                        proof {
                            lemma_values_prefix(all, i + 1);
                        }
                        return None;
                    },
                }
                i += 1;
            }
            proof {
                assert(all.subrange(0, i as int) =~= all);
            }
            Some(Value::List(out))
        },
        Raw::StringMap(entries) => {
            let ghost all = raw_entries(entries@);
            let mut out: Vec<(String, Value)> = Vec::new();
            let mut i: usize = 0;
            proof {
                assert(all.subrange(0, 0) =~= Seq::empty());
                assert(entries_model(out@) =~= Seq::empty());
            }
            while i < entries.len()
                invariant
                    i <= entries.len(),
                    *raw == Raw::StringMap(*entries),
                    all == raw_entries(entries@),
                    entries_of_raws(all.subrange(0, i as int)) == Some(entries_model(out@)),
                decreases entries.len() - i,
            {
                let ghost before = entries_model(out@);
                let ghost next = all.subrange(0, i + 1);
                proof {
                    assert(next.subrange(0, next.len() - 1) =~= all.subrange(0, i as int));
                    assert(next[next.len() - 1] == (entries@[i as int].0@, entries@[i as int].1.model()));
                }
                match value_from_raw(&entries[i].1) {
                    Some(value) => {
                        let ghost read = value.model();
                        out.push((entries[i].0.clone(), value));
                        proof {
                            assert(entries_model(out@) =~= before.push((entries@[i as int].0@, read)));
                        }
                    },
                    None => {
                        proof {
                            lemma_entries_prefix(all, i + 1);
                        }
                        return None;
                    },
                }
                i += 1;
            }
            proof {
                assert(all.subrange(0, i as int) =~= all);
            }
            Some(Value::StringMap(out))
        },
    }
}

impl Cid {
    /// Makes an address from the parts of a multiformats CID, where these are
    /// of version 1 with a digest of 32 bytes.
    pub fn from_parts(version: u64, codec: u64, hash_code: u64, digest: &[u8]) -> (r: Option<
        Cid,
    >)
        ensures
            r == cid_of_parts(version, codec, hash_code, digest@),
            r is Some <==> version == 1 && digest@.len() == 32,
            r matches Some(c) ==> c.codec == codec && c.hash_code == hash_code && c.digest@
                == digest@,
    {
        if version != 1 || digest.len() != 32 {
            return None;
        }
        let mut out: HashOutput = crate::cid::new_zero_digest();
        let mut i: usize = 0;
        while i < 32
            invariant
                i <= 32,
                digest@.len() == 32,
                forall|j: int| 0 <= j < i ==> out@[j] == digest@[j],
            decreases 32 - i,
        {
            out[i] = digest[i];
            i += 1;
        }
        proof {
            assert(out@ =~= digest@);
            let chosen = digest_of(digest@);
            assert(chosen@ == digest@);
            assert(chosen =~= out);
        }
        Some(Cid { codec, hash_code, digest: out })
    }
}

/// Encodes a value as DAG-CBOR.
pub fn encode(value: &Value) -> (r: Option<Vec<u8>>)
    ensures
        option_bytes(r) == dag_cbor_encoding(value.model()),
{
    encode_dag_cbor(value)
}

/// Decodes the DAG-CBOR value at the head of `bytes`. Bytes that are not
/// fit to be decoded hold no value.
pub fn decode(bytes: &[u8]) -> (r: Option<Value>)
    ensures
        option_model(r) == dag_cbor_value(bytes@),
{
    if !is_safe(bytes) {
        return None;
    }
    match decode_dag_cbor(bytes) {
        Some(raw) => value_from_raw(&raw),
        None => None,
    }
}

/// The value bound to `key` among the entries of a map.
pub fn map_get<'a>(entries: &'a Vec<(String, Value)>, key: &str) -> (r: Option<&'a Value>)
    ensures
        match r {
            Some(v) => find(entries_model(entries@), key@) == Some(v.model()),
            None => find(entries_model(entries@), key@) is None,
        },
{
    let ghost s = entries_model(entries@);
    let mut i: usize = 0;
    while i < entries.len()
        invariant
            i <= entries.len(),
            s == entries_model(entries@),
            forall|j: int| 0 <= j < i ==> (#[trigger] s[j]).0 != key@,
        decreases entries.len() - i,
    {
        if matches!(compare_names(entries[i].0.as_str(), key), Comparison::Equal) {
            proof {
                lemma_find_at(s, key@, i as int);
            }
            return Some(&entries[i].1);
        }
        i += 1;
    }
    proof {
        lemma_find_has_name(s, key@);
    }
    None
}

} // verus!
