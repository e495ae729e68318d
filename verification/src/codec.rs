//! The block codec: structured values to and from the bytes of a block, and
//! the identifier of those bytes. The work is `libipld`'s.

use vstd::prelude::*;
use crate::cid::{cid_parts_valid, Cid, CidView, BLAKE3_256_CODE, DAG_CBOR_CODEC};
use crate::ipld::{dict_view, lemma_dict_view, lemma_list_view, list_view, Ipld, IpldView};
use crate::sorted_map::{in_prefix, lemma_in_prefix_all, lemma_in_prefix_step, lemma_sorted_entries, seq_to_map, sorted_keys, SortedMap};
use crate::text::name_lt;
use libipld::Ipld as CborValue;
use libipld::block::Block;
use libipld::cbor::DagCborCodec;
use libipld::multihash::{Code, Multihash};
use libipld::store::DefaultParams;

use crate::frame::{framed, is_framed, MAX_NESTING};

verus! {

broadcast use crate::sorted_map::SortedMap::lemma_value_decreases;

#[verifier::external_type_specification]
#[verifier::external_body]
pub struct ExCborValue(CborValue);

#[verifier::external_type_specification]
#[verifier::external_body]
pub struct ExCodecError(libipld::error::Error);

/// A block: bytes and the identifier of those bytes.
#[derive(Debug)]
pub struct EncodedBlock {
    pub cid: Cid,
    pub data: Vec<u8>,
}

/// What a block is: the identifier and the bytes.
pub struct BlockView {
    pub cid: CidView,
    pub data: Seq<u8>,
}

impl View for EncodedBlock {
    type V = BlockView;

    open spec fn view(&self) -> BlockView {
        BlockView { cid: self.cid@, data: self.data@ }
    }
}

/// The block that `libipld` makes of a value with the DAG-CBOR codec and
/// BLAKE3: nothing where the codec refuses the value (an integer outside 64
/// bits) or the bytes are more than a block may hold.
pub uninterp spec fn dag_cbor_block(value: IpldView) -> Option<BlockView>;

/// The value that `libipld` reads from a block with the DAG-CBOR codec:
/// nothing where the bytes do not hash to the identifier's digest, or are no
/// DAG-CBOR.
pub uninterp spec fn dag_cbor_value(cid: CidView, data: Seq<u8>) -> Option<IpldView>;

/// The shape of the identifier of every block written here: version 1, the
/// DAG-CBOR codec, BLAKE3 with a digest of 32 bytes.
pub open spec fn structured_cid(cid: CidView) -> bool {
    &&& cid.version == 1
    &&& cid.codec == DAG_CBOR_CODEC
    &&& cid.hash_code == BLAKE3_256_CODE
    &&& cid.digest.len() == 32
}

/// Whether the lists and maps of a value nest no deeper than `depth`.
pub open spec fn nests_within(value: IpldView, depth: nat) -> bool
    decreases depth,
{
    match value {
        IpldView::List(items) => if depth == 0 {
            false
        } else {
            forall|i: int| 0 <= i < items.len() ==> nests_within(#[trigger] items[i], (depth - 1) as nat)
        },
        IpldView::Dict(m) => if depth == 0 {
            false
        } else {
            forall|k: Seq<char>| #[trigger] m.contains_key(k) ==> nests_within(m[k], (depth - 1) as nat)
        },
        _ => true,
    }
}

/// What nests within a depth holds nothing that nests deeper than one
/// less.
pub proof fn lemma_nested_within(value: IpldView, depth: nat)
    requires
        nests_within(value, depth),
    ensures
        value is List ==> depth > 0 && forall|i: int| 0 <= i < value->List_0.len() ==> nests_within(
            #[trigger] value->List_0[i],
            (depth - 1) as nat,
        ),
        value is Dict ==> depth > 0 && forall|k: Seq<char>| #[trigger] value->Dict_0.contains_key(k) ==> nests_within(
            value->Dict_0[k],
            (depth - 1) as nat,
        ),
{
}

/// The block of a value: none where the value nests deeper than
/// `MAX_NESTING`; else what the codec makes of it.
pub open spec fn value_block(value: IpldView) -> Option<BlockView> {
    if nests_within(value, MAX_NESTING as nat) {
        dag_cbor_block(value)
    } else {
        None
    }
}

/// The identifier of the block of a value, where the value has a block: an
/// identifier of the one shape that blocks written here have.
pub open spec fn ipld_cid(value: IpldView) -> Option<CidView> {
    match value_block(value) {
        Some(block) => if structured_cid(block.cid) {
            Some(block.cid)
        } else {
            None
        },
        None => None,
    }
}

/// What a `libipld::Ipld` holds, as a value of this library.
pub uninterp spec fn cbor_content(value: CborValue) -> IpldView;

/// The parts of a `libipld::Ipld`: what a scalar holds, or the values that
/// a list or a map holds.
pub enum CborParts {
    Null,
    Bool(bool),
    Integer(i128),
    Float(u64),
    String(String),
    Bytes(Vec<u8>),
    List(Vec<CborValue>),
    Dict(Vec<(String, CborValue)>),
    Link(u64, u64, u64, Vec<u8>),
}

/// What the values of a list hold.
pub open spec fn list_content(items: Seq<CborValue>) -> Seq<IpldView> {
    Seq::new(items.len(), |i: int| cbor_content(items[i]))
}

/// The names of the entries of a map, and what their values hold.
pub open spec fn entries_content(entries: Seq<(String, CborValue)>) -> Seq<(Seq<char>, IpldView)> {
    Seq::new(entries.len(), |i: int| (entries[i].0@, cbor_content(entries[i].1)))
}

/// What the parts of a `libipld::Ipld` make together.
pub open spec fn parts_content(parts: CborParts) -> IpldView {
    match parts {
        CborParts::Null => IpldView::Null,
        CborParts::Bool(b) => IpldView::Bool(b),
        CborParts::Integer(i) => IpldView::Integer(i),
        CborParts::Float(bits) => IpldView::Float(bits),
        CborParts::String(s) => IpldView::String(s@),
        CborParts::Bytes(b) => IpldView::Bytes(b@),
        CborParts::List(items) => IpldView::List(list_content(items@)),
        CborParts::Dict(entries) => IpldView::Dict(seq_to_map(entries_content(entries@))),
        CborParts::Link(version, codec, hash_code, digest) => IpldView::Link(
            CidView { version, codec, hash_code, digest: digest@ },
        ),
    }
}

/// `libipld::Ipld::Null`.
#[verifier::external_body]
fn cbor_null() -> (r: CborValue)
    ensures
        cbor_content(r) == IpldView::Null,
{
    CborValue::Null
}

/// `libipld::Ipld::Bool` of a truth value.
#[verifier::external_body]
fn cbor_bool(b: bool) -> (r: CborValue)
    ensures
        cbor_content(r) == IpldView::Bool(b),
{
    CborValue::Bool(b)
}

/// `libipld::Ipld::Integer` of an integer.
#[verifier::external_body]
fn cbor_integer(i: i128) -> (r: CborValue)
    ensures
        cbor_content(r) == IpldView::Integer(i),
{
    CborValue::Integer(i)
}

/// `libipld::Ipld::Float` of the number with the bits `bits`, which
/// `libipld::cbor::decode::read_f64` reads from the eight bytes of `bits`,
/// big end first.
#[verifier::external_body]
fn cbor_float(bits: u64) -> (r: CborValue)
    ensures
        cbor_content(r) == IpldView::Float(bits),
{
    let mut bytes = std::io::Cursor::new(bits.to_be_bytes());
    CborValue::Float(libipld::cbor::decode::read_f64(&mut bytes).unwrap())
}

/// `libipld::Ipld::String` of a text.
#[verifier::external_body]
fn cbor_string(s: String) -> (r: CborValue)
    ensures
        cbor_content(r) == IpldView::String(s@),
{
    CborValue::String(s)
}

/// `libipld::Ipld::Bytes` of a byte string.
#[verifier::external_body]
fn cbor_bytes(b: Vec<u8>) -> (r: CborValue)
    ensures
        cbor_content(r) == IpldView::Bytes(b@),
{
    CborValue::Bytes(b)
}

/// `libipld::Ipld::List` of values.
#[verifier::external_body]
fn cbor_list(items: Vec<CborValue>) -> (r: CborValue)
    ensures
        cbor_content(r) == IpldView::List(list_content(items@)),
{
    CborValue::List(items)
}

/// `libipld::Ipld::StringMap` of entries that stand in the order of their
/// names, each name once: the map of exactly these entries.
#[verifier::external_body]
fn cbor_dict(entries: Vec<(String, CborValue)>) -> (r: CborValue)
    requires
        sorted_keys(entries_content(entries@)),
    ensures
        cbor_content(r) == IpldView::Dict(seq_to_map(entries_content(entries@))),
{
    CborValue::StringMap(entries.into_iter().collect())
}

/// `libipld::Ipld::Link` of the `libipld::Cid` with the parts of an identifier.
#[verifier::external_body]
fn cbor_link(cid: &Cid) -> (r: CborValue)
    ensures
        cbor_content(r) == IpldView::Link(cid@),
{
    let version = libipld::cid::Version::try_from(cid.version()).unwrap();
    let hash = Multihash::wrap(cid.hash_code(), cid.digest()).unwrap();
    CborValue::Link(libipld::Cid::new(version, cid.codec(), hash).unwrap())
}

/// Tells the variants of a `libipld::Ipld` apart, and hands out what the
/// variant holds: a number by its bits, a map by its entries in the order in
/// which its `BTreeMap` holds them, which is the order of their names, and a
/// link by the four parts of its `libipld::Cid`, which can make an identifier.
#[verifier::external_body]
fn cbor_parts(v: &CborValue) -> (r: CborParts)
    ensures
        parts_content(r) == cbor_content(*v),
        r is Dict ==> sorted_keys(entries_content(r->Dict_0@)),
        r is Link ==> cid_parts_valid(r->Link_0, r->Link_1, r->Link_2, r->Link_3@),
{
    match v {
        CborValue::Null => CborParts::Null,
        CborValue::Bool(b) => CborParts::Bool(*b),
        CborValue::Integer(i) => CborParts::Integer(*i),
        CborValue::Float(x) => CborParts::Float(x.to_bits()),
        CborValue::String(s) => CborParts::String(s.clone()),
        CborValue::Bytes(b) => CborParts::Bytes(b.clone()),
        CborValue::List(l) => CborParts::List(l.clone()),
        CborValue::StringMap(m) => CborParts::Dict(m.clone().into_iter().collect()),
        CborValue::Link(c) => CborParts::Link(c.version().into(), c.codec(), c.hash().code(), c.hash().digest().to_vec()),
    }
}

/// `libipld::block::Block::encode` with `DagCborCodec` and
/// `Code::Blake3_256`. The contract names the block after what the value
/// holds, reports failure exactly where the name has none, and states of
/// the identifier what the call fixes: version 1, the codec's tag, the
/// hash's code and length. The call is made only for a value that nests no
/// deeper than `MAX_NESTING`: the codec goes one call deeper for each list
/// or map within another.
#[verifier::external_body]
fn encode_outside(value: &CborValue) -> (r: Result<EncodedBlock, libipld::error::Error>)
    requires
        nests_within(cbor_content(*value), MAX_NESTING as nat),
    ensures
        r is Ok == dag_cbor_block(cbor_content(*value)) is Some,
        r is Ok ==> r->Ok_0@ == dag_cbor_block(cbor_content(*value))->0,
        r is Ok ==> structured_cid(r->Ok_0@.cid),
{
    let block = Block::<DefaultParams>::encode(DagCborCodec, Code::Blake3_256, value)?;
    let c = block.cid();
    let cid = Cid::new_v1(c.codec(), c.hash().code(), c.hash().digest().to_vec()).unwrap();
    Ok(EncodedBlock { cid, data: block.data().to_vec() })
}

/// `libipld::block::Block::new`, which holds the bytes to the identifier's
/// digest, then `Block::decode` with `DagCborCodec`. The contract names
/// what the value holds after the identifier and the bytes, and reports
/// failure exactly where the name has none. The call is made only for an
/// identifier of the DAG-CBOR codec: for another codec `decode` does not
/// return in a build that checks its assertions. And it is made only for
/// bytes that are framed: the codec takes the length that a head declares
/// at its word, and makes room for as many bytes or elements before it
/// reads them, and it goes one call deeper for each list or map within
/// another.
#[verifier::external_body]
fn decode_outside(cid: &Cid, data: &Vec<u8>) -> (r: Result<CborValue, libipld::error::Error>)
    requires
        cid@.codec == DAG_CBOR_CODEC,
        framed(data@),
    ensures
        r is Ok == dag_cbor_value(cid@, data@) is Some,
        r is Ok ==> cbor_content(r->Ok_0) == dag_cbor_value(cid@, data@)->0,
{
    let version = libipld::cid::Version::try_from(cid.version()).unwrap();
    let hash = Multihash::wrap(cid.hash_code(), cid.digest()).unwrap();
    let id = libipld::Cid::new(version, cid.codec(), hash).unwrap();
    Block::<DefaultParams>::new(id, data.clone())?.decode::<DagCborCodec, CborValue>()
}

/// The names of a sorted map and the views of its values are the map's view.
proof fn lemma_entries_of_dict(m: SortedMap<Ipld>, entries: Seq<(Seq<char>, IpldView)>)
    requires
        sorted_keys(m.seq()),
        entries.len() == m.seq().len(),
        forall|i: int| 0 <= i < entries.len() ==> (#[trigger] entries[i]).0 == m.seq()[i].0 && entries[i].1 == m.seq()[i].1@,
    ensures
        sorted_keys(entries),
        seq_to_map(entries) == dict_view(m@),
{
    let s = m.seq();
    assert forall|i: int, j: int| 0 <= i < j < entries.len() implies name_lt((#[trigger] entries[i]).0, (#[trigger] entries[j]).0) by {
        assert(name_lt(s[i].0, s[j].0));
    }
    lemma_sorted_entries(s);
    lemma_sorted_entries(entries);
    lemma_in_prefix_all(s);
    lemma_in_prefix_all(entries);
    assert forall|k: Seq<char>| seq_to_map(entries).contains_key(k) == dict_view(m@).contains_key(k) by {
        if seq_to_map(entries).contains_key(k) {
            let j = choose|j: int| 0 <= j < entries.len() && j < entries.len() && (#[trigger] entries[j]).0 == k;
            assert(s[j].0 == k);
            assert(in_prefix(s, s.len() as int, k));
        }
        if m@.contains_key(k) {
            let j = choose|j: int| 0 <= j < s.len() && j < s.len() && (#[trigger] s[j]).0 == k;
            assert(entries[j].0 == k);
            assert(in_prefix(entries, entries.len() as int, k));
        }
    }
    assert forall|k: Seq<char>| seq_to_map(entries).contains_key(k) implies seq_to_map(entries)[k] == dict_view(m@)[k] by {
        let j = choose|j: int| 0 <= j < entries.len() && j < entries.len() && (#[trigger] entries[j]).0 == k;
        assert(s[j].0 == k);
    }
    assert(seq_to_map(entries) =~= dict_view(m@));
}

/// The names of the entries of a sorted sequence are finitely many.
proof fn lemma_entries_finite(entries: Seq<(Seq<char>, IpldView)>)
    ensures
        seq_to_map(entries).dom().finite(),
{
    let names = entries.map_values(|e: (Seq<char>, IpldView)| e.0);
    vstd::seq_lib::seq_to_set_is_finite(names);
    assert(seq_to_map(entries).dom() =~= names.to_set()) by {
        assert forall|k: Seq<char>| seq_to_map(entries).dom().contains(k) == names.to_set().contains(k) by {
            if seq_to_map(entries).dom().contains(k) {
                let j = crate::sorted_map::index_of(entries, k);
                assert(names[j] == k);
            }
            if names.to_set().contains(k) {
                let j = choose|j: int| 0 <= j < names.len() && names[j] == k;
                assert(entries[j].0 == k);
            }
        }
    }
}

/// The values of a list as `libipld` values.
fn lower_list(items: &Vec<Ipld>) -> (r: Vec<CborValue>)
    ensures
        list_content(r@) == list_view(items@),
    decreases items,
{
    let n = items.len();
    let mut out: Vec<CborValue> = Vec::new();
    let mut i: usize = 0;
    while i < n
        invariant
            i <= n,
            n == items@.len(),
            out@.len() == i,
            forall|j: int| 0 <= j < i ==> cbor_content(#[trigger] out@[j]) == items@[j]@,
        decreases n - i,
    {
        out.push(lower(&items[i]));
        i = i + 1;
    }
    proof {
        assert(list_content(out@) =~= list_view(items@));
    }
    out
}

/// The entries of a map with their values as `libipld` values.
fn lower_dict(m: &SortedMap<Ipld>) -> (r: Vec<(String, CborValue)>)
    ensures
        sorted_keys(entries_content(r@)),
        seq_to_map(entries_content(r@)) == dict_view(m@),
    decreases m,
{
    let n = m.len();
    let mut out: Vec<(String, CborValue)> = Vec::new();
    let mut i: usize = 0;
    while i < n
        invariant
            i <= n,
            n == m.seq().len(),
            sorted_keys(m.seq()),
            out@.len() == i,
            forall|j: int| 0 <= j < i ==> (#[trigger] out@[j]).0@ == m.seq()[j].0 && cbor_content(out@[j].1) == m.seq()[j].1@,
        decreases n - i,
    {
        let key = m.key_at(i).clone();
        let value = lower(m.value_at(i));
        out.push((key, value));
        i = i + 1;
    }
    proof {
        lemma_entries_of_dict(*m, entries_content(out@));
    }
    out
}

/// The value as a `libipld::Ipld`.
fn lower(v: &Ipld) -> (r: CborValue)
    ensures
        cbor_content(r) == v@,
    decreases v,
{
    match v {
        Ipld::Null => cbor_null(),
        Ipld::Bool(b) => cbor_bool(*b),
        Ipld::Integer(i) => cbor_integer(*i),
        Ipld::Float(bits) => cbor_float(*bits),
        Ipld::String(s) => cbor_string(s.clone()),
        Ipld::Bytes(b) => cbor_bytes(b.clone()),
        Ipld::List(items) => {
            proof {
                lemma_list_view(*items);
            }
            cbor_list(lower_list(items))
        },
        Ipld::Dict(m) => {
            proof {
                lemma_dict_view(*m);
            }
            cbor_dict(lower_dict(m))
        },
        Ipld::Link(cid) => cbor_link(cid),
    }
}

/// The value that a `libipld::Ipld` holds.
fn lift(v: &CborValue) -> (r: Ipld)
    ensures
        r@ == cbor_content(*v),
    decreases cbor_content(*v),
{
    match cbor_parts(v) {
        CborParts::Null => Ipld::Null,
        CborParts::Bool(b) => Ipld::Bool(b),
        CborParts::Integer(i) => Ipld::Integer(i),
        CborParts::Float(bits) => Ipld::Float(bits),
        CborParts::String(s) => Ipld::String(s),
        CborParts::Bytes(b) => Ipld::Bytes(b),
        CborParts::List(items) => {
            let ghost whole = cbor_content(*v);
            let n = items.len();
            let mut out: Vec<Ipld> = Vec::new();
            let mut i: usize = 0;
            while i < n
                invariant
                    i <= n,
                    n == items@.len(),
                    out@.len() == i,
                    whole == IpldView::List(list_content(items@)),
                    whole == cbor_content(*v),
                    forall|j: int| 0 <= j < i ==> (#[trigger] out@[j])@ == cbor_content(items@[j]),
                decreases n - i,
            {
                proof {
                    assert(list_content(items@)[i as int] == cbor_content(items@[i as int]));
                    assert(whole->List_0 == list_content(items@));
                    assert(decreases_to!(whole => whole->List_0));
                    assert(decreases_to!(whole->List_0 => whole->List_0[i as int]));
                }
                out.push(lift(&items[i]));
                i = i + 1;
            }
            proof {
                lemma_list_view(out);
                assert(list_view(out@) =~= list_content(items@));
            }
            Ipld::List(out)
        },
        CborParts::Dict(entries) => {
            let ghost whole = cbor_content(*v);
            let ghost content = entries_content(entries@);
            let n = entries.len();
            let mut out: SortedMap<Ipld> = SortedMap::new();
            let mut i: usize = 0;
            proof {
                if n > 0 {
                    lemma_in_prefix_step(content, 0);
                }
                lemma_entries_finite(content);
            }
            while i < n
                invariant
                    i <= n,
                    n == entries@.len(),
                    content == entries_content(entries@),
                    sorted_keys(content),
                    whole == IpldView::Dict(seq_to_map(content)),
                    whole == cbor_content(*v),
                    seq_to_map(content).dom().finite(),
                    forall|k: Seq<char>| #[trigger] out@.contains_key(k) <==> in_prefix(content, i as int, k),
                    forall|k: Seq<char>| #[trigger] out@.contains_key(k) ==> out@[k]@ == seq_to_map(content)[k],
                decreases n - i,
            {
                proof {
                    lemma_in_prefix_step(content, i as int);
                    let k = content[i as int].0;
                    assert(content[i as int].1 == cbor_content(entries@[i as int].1));
                    assert(seq_to_map(content).dom().contains(k));
                    assert(whole->Dict_0 == seq_to_map(content));
                    assert(decreases_to!(whole => whole->Dict_0));
                    assert(decreases_to!(whole->Dict_0 => whole->Dict_0[k]));
                }
                let key = entries[i].0.clone();
                let value = lift(&entries[i].1);
                out.push_back(key, value);
                i = i + 1;
            }
            proof {
                lemma_in_prefix_all(content);
                lemma_dict_view(out);
                assert(dict_view(out@) =~= seq_to_map(content));
            }
            Ipld::Dict(out)
        },
        CborParts::Link(version, codec, hash_code, digest) => match Cid::from_parts(version, codec, hash_code, digest) {
            Some(cid) => Ipld::Link(cid),
            None => Ipld::Null,
        },
    }
}

/// Why a value has no block, or a block no value.
#[derive(Debug, Clone, Copy, PartialEq, Eq)]
pub enum CodecError {
    /// The value cannot be written as a block.
    Encode,
    /// The bytes are not a block of the identifier, or hold no value.
    Decode,
}

/// Whether the lists and maps of a value nest no deeper than `depth`.
pub fn fits_nesting(value: &Ipld, depth: usize) -> (r: bool)
    ensures
        r == nests_within(value@, depth as nat),
    decreases depth,
{
    match value {
        Ipld::List(items) => {
            proof {
                lemma_list_view(*items);
            }
            if depth == 0 {
                return false;
            }
            let n = items.len();
            let mut i: usize = 0;
            while i < n
                invariant
                    i <= n,
                    n == items@.len(),
                    depth > 0,
                    value@ == IpldView::List(list_view(items@)),
                    forall|j: int| 0 <= j < i ==> nests_within(#[trigger] list_view(items@)[j], (depth - 1) as nat),
                decreases n - i,
            {
                if !fits_nesting(&items[i], depth - 1) {
                    proof {
                        assert(list_view(items@)[i as int] == items@[i as int]@);
                        assert(!nests_within(list_view(items@)[i as int], (depth - 1) as nat));
                        if nests_within(value@, depth as nat) {
                            lemma_nested_within(value@, depth as nat);
                        }
                    }
                    return false;
                }
                proof {
                    assert(list_view(items@)[i as int] == items@[i as int]@);
                }
                i = i + 1;
            }
            true
        },
        Ipld::Dict(m) => {
            proof {
                lemma_dict_view(*m);
            }
            if depth == 0 {
                return false;
            }
            let n = m.len();
            let mut i: usize = 0;
            proof {
                if n > 0 {
                    lemma_in_prefix_step(m.seq(), 0);
                }
            }
            while i < n
                invariant
                    i <= n,
                    n == m.seq().len(),
                    sorted_keys(m.seq()),
                    depth > 0,
                    value@ == IpldView::Dict(dict_view(m@)),
                    forall|k: Seq<char>| #[trigger] in_prefix(m.seq(), i as int, k) ==> nests_within(dict_view(m@)[k], (depth - 1) as nat),
                decreases n - i,
            {
                proof {
                    lemma_in_prefix_step(m.seq(), i as int);
                }
                let held = m.value_at(i);
                let ghost key = m.seq()[i as int].0;
                proof {
                    assert(m@.contains_key(key));
                    assert(dict_view(m@)[key] == held@);
                }
                if !fits_nesting(held, depth - 1) {
                    proof {
                        assert(dict_view(m@).contains_key(key));
                        assert(!nests_within(dict_view(m@)[key], (depth - 1) as nat));
                        if nests_within(value@, depth as nat) {
                            lemma_nested_within(value@, depth as nat);
                            assert(value@->Dict_0.contains_key(key));
                        }
                    }
                    return false;
                }
                i = i + 1;
            }
            proof {
                lemma_in_prefix_all(m.seq());
                assert forall|k: Seq<char>| #[trigger] dict_view(m@).contains_key(k) implies nests_within(
                    dict_view(m@)[k],
                    (depth - 1) as nat,
                ) by {
                    assert(m@.contains_key(k));
                    assert(in_prefix(m.seq(), n as int, k));
                }
            }
            true
        },
        _ => true,
    }
}

/// The block of a value: its bytes and their identifier. A value that
/// nests deeper than `MAX_NESTING` has none.
pub fn encode_block(value: &Ipld) -> (r: Result<EncodedBlock, CodecError>)
    ensures
        r is Ok == value_block(value@) is Some,
        r is Ok ==> r->Ok_0@ == value_block(value@)->0,
        r is Ok ==> structured_cid(r->Ok_0@.cid),
        r is Err ==> r->Err_0 == CodecError::Encode,
{
    if !fits_nesting(value, MAX_NESTING) {
        return Err(CodecError::Encode);
    }
    match encode_outside(&lower(value)) {
        Ok(block) => Ok(block),
        Err(_) => Err(CodecError::Encode),
    }
}

/// The identifier of the block of a value.
pub fn ipld_to_cid(value: &Ipld) -> (r: Result<Cid, CodecError>)
    ensures
        r is Ok == ipld_cid(value@) is Some,
        r is Ok ==> r->Ok_0@ == ipld_cid(value@)->0,
        r is Ok ==> structured_cid(r->Ok_0@),
        r is Err ==> r->Err_0 == CodecError::Encode,
{
    match encode_block(value) {
        Ok(block) => Ok(block.cid),
        Err(e) => Err(e),
    }
}

/// The value that the block with identifier `cid` and bytes `data` holds:
/// none where the identifier is of another codec than DAG-CBOR, or the
/// bytes are not framed; else what the codec reads.
pub open spec fn block_value(cid: CidView, data: Seq<u8>) -> Option<IpldView> {
    if cid.codec == DAG_CBOR_CODEC && framed(data) {
        dag_cbor_value(cid, data)
    } else {
        None
    }
}

/// The value held by the block with identifier `cid` and bytes `data`. A
/// block of another codec than DAG-CBOR holds none, and neither do bytes
/// beyond the size of a block, or in which an item declares more than the
/// bytes that remain, or nests deeper than `MAX_NESTING`.
pub fn decode_block(cid: &Cid, data: &Vec<u8>) -> (r: Result<Ipld, CodecError>)
    ensures
        r is Ok == block_value(cid@, data@) is Some,
        r is Ok ==> r->Ok_0@ == block_value(cid@, data@)->0,
        r is Err ==> r->Err_0 == CodecError::Decode,
{
    if cid.codec() != DAG_CBOR_CODEC || !is_framed(data) {
        return Err(CodecError::Decode);
    }
    match decode_outside(cid, data) {
        Ok(value) => Ok(lift(&value)),
        Err(_) => Err(CodecError::Decode),
    }
}

} // verus!
