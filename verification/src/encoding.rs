//! Encodings and digests.

use dlog_group::ristretto::RistrettoGroup;
use dlog_sigma_primitives::elgamal::ciphertext::Ciphertext as GroupCiphertext;
use serde::Serializer;
use sha3::digest::{ExtendableOutput, Update, XofReader};
use sha3::{Digest, Sha3_256, Shake128};
use vstd::prelude::*;
use vstd::utf8::encode_utf8;

use crate::elgamal::{ct_rows, ct_views, Ciphertext, CtView};
use crate::group::point_encoding;
use crate::transcript::lemma_utf8_len;

verus! {

/// The SHA3-256 digest.
pub uninterp spec fn sha3_256(data: Seq<u8>) -> Seq<u8>;

/// The first 32 bytes that SHAKE128 makes of `data`.
pub uninterp spec fn shake128(data: Seq<u8>) -> Seq<u8>;

/// The last `len` bytes of a number, most significant byte first.
pub open spec fn be_bytes(number: int, len: nat) -> Seq<u8>
    decreases len,
{
    if len == 0 {
        seq![]
    } else {
        be_bytes(number / 256, (len - 1) as nat).push((number % 256) as u8)
    }
}

/// The head of a CBOR item of a major type: the type and a number, in as few
/// bytes as it takes.
pub open spec fn cbor_head(major: int, number: int) -> Seq<u8> {
    let first = 32 * major;
    if number < 24 {
        seq![(first + number) as u8]
    } else if number < 0x100 {
        seq![(first + 24) as u8] + be_bytes(number, 1)
    } else if number < 0x1_0000 {
        seq![(first + 25) as u8] + be_bytes(number, 2)
    } else if number < 0x1_0000_0000 {
        seq![(first + 26) as u8] + be_bytes(number, 4)
    } else {
        seq![(first + 27) as u8] + be_bytes(number, 8)
    }
}

/// The CBOR encoding of a number.
pub open spec fn cbor_number(number: int) -> Seq<u8> {
    cbor_head(0, number)
}

/// The CBOR encoding of a byte string.
pub open spec fn cbor_bytes(bytes: Seq<u8>) -> Seq<u8> {
    cbor_head(2, bytes.len() as int) + bytes
}

/// The CBOR encoding of a text.
pub open spec fn cbor_text(text: Seq<char>) -> Seq<u8> {
    cbor_head(3, encode_utf8(text).len() as int) + encode_utf8(text)
}

/// All encodings, one after the other.
pub open spec fn joined(items: Seq<Seq<u8>>) -> Seq<u8>
    decreases items.len(),
{
    if items.len() == 0 {
        seq![]
    } else {
        joined(items.drop_last()) + items.last()
    }
}

/// The CBOR encoding of a list of items that are encoded already.
pub open spec fn cbor_array(items: Seq<Seq<u8>>) -> Seq<u8> {
    cbor_head(4, items.len() as int) + joined(items)
}

/// A field of a record: its name and its encoded value.  A record of `n` fields
/// is a CBOR map: the byte `0xa0 + n`, then the fields.
pub open spec fn field(name: Seq<char>, value: Seq<u8>) -> Seq<u8> {
    cbor_text(name) + value
}

/// The CBOR encoding of a list of numbers.
pub open spec fn cbor_sizes(sizes: Seq<usize>) -> Seq<u8> {
    cbor_array(sizes.map_values(|n: usize| cbor_number(n as int)))
}

/// The CBOR encoding of a ciphertext: a record of its points.
pub open spec fn cbor_ciphertext(ct: CtView) -> Seq<u8> {
    seq![0xa3u8] + field("random_point"@, cbor_bytes(point_encoding(ct.r1))) + field(
        "random_point2"@,
        cbor_bytes(point_encoding(ct.r2)),
    ) + field("blinded_point"@, cbor_bytes(point_encoding(ct.b)))
}

/// The CBOR encoding of a list of ciphertexts.
pub open spec fn cbor_list(cts: Seq<CtView>) -> Seq<u8> {
    cbor_array(cts.map_values(|ct: CtView| cbor_ciphertext(ct)))
}

/// The CBOR encoding of rows of ciphertexts.
pub open spec fn cbor_rows(rows: Seq<Seq<CtView>>) -> Seq<u8> {
    cbor_array(rows.map_values(|row: Seq<CtView>| cbor_list(row)))
}

/// Calls `Sha3_256::digest`.
#[verifier::external_body]
pub(crate) fn digest(data: &[u8]) -> (r: [u8; 32])
    ensures
        r@ == sha3_256(data@),
{
    Sha3_256::digest(data).into()
}

/// Calls `Shake128` for 32 bytes.
#[verifier::external_body]
pub(crate) fn shake(data: &[u8]) -> (r: [u8; 32])
    ensures
        r@ == shake128(data@),
{
    let mut hasher = Shake128::default();
    Update::update(&mut hasher, data);
    let mut bytes = [0u8; 32];
    hasher.finalize_xof().read(&mut bytes);
    bytes
}

/// An upper bound on the length of the encoding of `rows`: nine bytes for each
/// list's header, and 144 for each ciphertext.
pub open spec fn cbor_bound(rows: Seq<Seq<CtView>>) -> int
    decreases rows.len(),
{
    if rows.len() == 0 {
        9
    } else {
        cbor_bound(rows.drop_last()) + 9 + 144 * rows.last().len()
    }
}

/// The length of a head.
proof fn lemma_head(major: int, number: int)
    ensures
        1 <= cbor_head(major, number).len() <= 9,
{
    lemma_be_bytes(number, 1);
    lemma_be_bytes(number, 2);
    lemma_be_bytes(number, 4);
    lemma_be_bytes(number, 8);
}

proof fn lemma_be_bytes(number: int, len: nat)
    ensures
        be_bytes(number, len).len() == len,
    decreases len,
{
    if len > 0 {
        lemma_be_bytes(number / 256, (len - 1) as nat);
    }
}

/// Calls `serde_cbor::to_vec` on a text: the head with the number of its bytes,
/// then these.
#[verifier::external_body]
fn outside_text(text: &str) -> (r: Vec<u8>)
    ensures
        r@ == cbor_text(text@),
{
    serde_cbor::to_vec(&text).unwrap()
}

/// Encodes a text.
pub(crate) fn encode_text(text: &str) -> (r: Vec<u8>)
    ensures
        r@ == cbor_text(text@),
        r@.len() <= 9 + encode_utf8(text@).len(),
{
    proof {
        lemma_head(3, encode_utf8(text@).len() as int);
    }
    outside_text(text)
}

/// Calls `serde_cbor::to_vec` on a number: the head alone.
#[verifier::external_body]
fn outside_number(number: u64) -> (r: Vec<u8>)
    ensures
        r@ == cbor_number(number as int),
{
    serde_cbor::to_vec(&number).unwrap()
}

/// Encodes a number.
pub(crate) fn encode_number(number: u64) -> (r: Vec<u8>)
    ensures
        r@ == cbor_number(number as int),
        r@.len() <= 9,
{
    proof {
        lemma_head(0, number as int);
    }
    outside_number(number)
}

/// Calls `serde_cbor::to_vec` on a byte string: the head with its length, then
/// the bytes.
#[verifier::external_body]
fn outside_bytes(bytes: &[u8]) -> (r: Vec<u8>)
    ensures
        r@ == cbor_bytes(bytes@),
{
    serde_cbor::to_vec(&serde_cbor::Value::Bytes(bytes.to_vec())).unwrap()
}

/// Encodes a byte string.
pub(crate) fn encode_bytes(bytes: &[u8]) -> (r: Vec<u8>)
    ensures
        r@ == cbor_bytes(bytes@),
        r@.len() <= 9 + bytes@.len(),
{
    proof {
        lemma_head(2, bytes@.len() as int);
    }
    outside_bytes(bytes)
}

/// Calls `serialize_seq` of a `serde_cbor::Serializer` for a list of `n` items:
/// the head, to which the items are then added.
#[verifier::external_body]
fn outside_array(n: usize) -> (r: Vec<u8>)
    ensures
        r@ == cbor_head(4, n as int),
{
    let mut out = Vec::new();
    serde_cbor::Serializer::new(&mut out).serialize_seq(Some(n)).unwrap();
    out
}

/// The head of a list of `n` items.
pub(crate) fn encode_array(n: usize) -> (r: Vec<u8>)
    ensures
        r@ == cbor_head(4, n as int),
        r@.len() <= 9,
{
    proof {
        lemma_head(4, n as int);
    }
    outside_array(n)
}

/// Appends an item to a list that holds the first `i` of the items.
pub(crate) proof fn lemma_item(out: Seq<u8>, head: Seq<u8>, items: Seq<Seq<u8>>, i: int)
    requires
        0 <= i < items.len(),
        out == head + joined(items.take(i)),
    ensures
        out + items[i] == head + joined(items.take(i + 1)),
{
    assert(items.take(i + 1).drop_last() =~= items.take(i));
    assert(out + items[i] =~= head + joined(items.take(i + 1)));
}

/// A list that holds none of the items yet.
pub(crate) proof fn lemma_no_item(head: Seq<u8>, items: Seq<Seq<u8>>)
    ensures
        head == head + joined(items.take(0)),
{
    assert(head =~= head + joined(items.take(0)));
}

/// The bytes of each item.
pub open spec fn item_views(items: Seq<Vec<u8>>) -> Seq<Seq<u8>> {
    items.map_values(|item: Vec<u8>| item@)
}

/// Encodes a list of items that are encoded already.
pub(crate) fn encode_items(items: &Vec<Vec<u8>>) -> (r: Vec<u8>)
    ensures
        r@ == cbor_array(item_views(items@)),
{
    let ghost views = item_views(items@);
    let ghost head = cbor_head(4, items@.len() as int);
    let mut out = encode_array(items.len());
    let mut i: usize = 0;
    proof {
        lemma_no_item(head, views);
    }
    while i < items.len()
        invariant
            i <= items@.len(),
            views == item_views(items@),
            out@ == head + joined(views.take(i as int)),
        decreases items@.len() - i,
    {
        proof {
            assert(views[i as int] == items@[i as int]@);
            lemma_item(out@, head, views, i as int);
        }
        out.extend_from_slice(items[i].as_slice());
        i += 1;
    }
    proof {
        assert(views.take(i as int) =~= views);
    }
    out
}

/// Encodes a list of numbers.
pub(crate) fn encode_sizes(sizes: &Vec<usize>) -> (r: Vec<u8>)
    ensures
        r@ == cbor_sizes(sizes@),
        r@.len() <= 9 + 9 * sizes@.len(),
{
    let ghost items = sizes@.map_values(|n: usize| cbor_number(n as int));
    let ghost head = cbor_head(4, sizes@.len() as int);
    let mut out = encode_array(sizes.len());
    let mut i: usize = 0;
    proof {
        lemma_no_item(head, items);
    }
    while i < sizes.len()
        invariant
            i <= sizes@.len(),
            items == sizes@.map_values(|n: usize| cbor_number(n as int)),
            out@ == head + joined(items.take(i as int)),
            out@.len() <= 9 + 9 * i,
        decreases sizes@.len() - i,
    {
        let item = encode_number(sizes[i] as u64);
        proof {
            lemma_item(out@, head, items, i as int);
        }
        out.extend_from_slice(item.as_slice());
        i += 1;
    }
    proof {
        assert(items.take(i as int) =~= items);
    }
    out
}

/// Calls `serde_cbor::to_vec` on a ciphertext of `dlog-sigma-primitives`: a
/// record of its three points, which takes 144 bytes.
#[verifier::external_body]
pub(crate) fn encode_ciphertext(ct: &Ciphertext) -> (r: Vec<u8>)
    ensures
        r@ == cbor_ciphertext(ct@),
        r@.len() == 144,
{
    let ct = GroupCiphertext::<RistrettoGroup>::from_bytes(&ct.to_bytes()).unwrap();
    serde_cbor::to_vec(&ct).unwrap()
}

/// Encodes a list of ciphertexts.
pub(crate) fn encode_list(cts: &Vec<Ciphertext>) -> (r: Vec<u8>)
    ensures
        r@ == cbor_list(ct_views(cts@)),
        r@.len() <= 9 + 144 * cts@.len(),
{
    let ghost views = ct_views(cts@);
    let ghost items = views.map_values(|ct: CtView| cbor_ciphertext(ct));
    let ghost head = cbor_head(4, cts@.len() as int);
    let mut out = encode_array(cts.len());
    let mut i: usize = 0;
    proof {
        lemma_no_item(head, items);
    }
    while i < cts.len()
        invariant
            i <= cts@.len(),
            views == ct_views(cts@),
            items == views.map_values(|ct: CtView| cbor_ciphertext(ct)),
            out@ == head + joined(items.take(i as int)),
            out@.len() <= 9 + 144 * i,
        decreases cts@.len() - i,
    {
        let item = encode_ciphertext(&cts[i]);
        proof {
            assert(items[i as int] == item@);
            lemma_item(out@, head, items, i as int);
        }
        out.extend_from_slice(item.as_slice());
        i += 1;
    }
    proof {
        assert(items.take(i as int) =~= items);
    }
    out
}

/// Encodes rows of ciphertexts.
pub(crate) fn encode_rows(rows: &Vec<Vec<Ciphertext>>) -> (r: Vec<u8>)
    ensures
        r@ == cbor_rows(ct_rows(rows@)),
        r@.len() <= cbor_bound(ct_rows(rows@)),
{
    let ghost views = ct_rows(rows@);
    let ghost items = views.map_values(|row: Seq<CtView>| cbor_list(row));
    let ghost head = cbor_head(4, rows@.len() as int);
    let mut out = encode_array(rows.len());
    let mut i: usize = 0;
    proof {
        lemma_no_item(head, items);
        assert(views.take(0) =~= Seq::<Seq<CtView>>::empty());
    }
    while i < rows.len()
        invariant
            i <= rows@.len(),
            views == ct_rows(rows@),
            items == views.map_values(|row: Seq<CtView>| cbor_list(row)),
            out@ == head + joined(items.take(i as int)),
            out@.len() <= cbor_bound(views.take(i as int)),
        decreases rows@.len() - i,
    {
        let item = encode_list(&rows[i]);
        proof {
            assert(items[i as int] == item@);
            lemma_item(out@, head, items, i as int);
            assert(views.take(i + 1).drop_last() =~= views.take(i as int));
        }
        out.extend_from_slice(item.as_slice());
        i += 1;
    }
    proof {
        assert(items.take(i as int) =~= items);
        assert(views.take(i as int) =~= views);
    }
    out
}

/// Appends a field.
pub(crate) fn put_field(out: &mut Vec<u8>, name: &str, value: &Vec<u8>)
    ensures
        final(out)@ == old(out)@ + field(name@, value@),
        final(out)@.len() <= old(out)@.len() + 9 + 4 * name@.len() + value@.len(),
{
    let key = encode_text(name);
    proof {
        lemma_utf8_len(name@);
    }
    out.extend_from_slice(key.as_slice());
    out.extend_from_slice(value.as_slice());
    proof {
        assert(out@ =~= old(out)@ + field(name@, value@));
    }
}

} // verus!
