//! Ring keys: how a byte string, and a node, are placed on the ring.
use vstd::prelude::*;
use vstd::utf8::encode_utf8;

use crate::node::Node;

verus! {

/// What `fasthash::murmur3::hash32` returns for the given bytes: the
/// 32-bit MurmurHash3 (x86 variant) with seed 0. The C code behind it reads
/// the input in 4-byte blocks in the machine's byte order; the values that
/// fasthash documents (such as 613153351 for `b"hello"`) are those of
/// little-endian machines, and this name stands for them.
pub uninterp spec fn murmur3_x86_32(data: Seq<u8>) -> u32;

/// Calls `fasthash::murmur3::hash32`, whose result is named
/// `murmur3_x86_32`. The C function behind it takes the length as a C
/// `int`, so inputs longer than `i32::MAX` bytes are left out.
#[verifier::external_body]
fn murmur3_hash32(data: &[u8]) -> (h: u32)
    requires
        data@.len() <= i32::MAX,
    ensures
        h == murmur3_x86_32(data@),
{
    fasthash::murmur3::hash32(data)
}

/// LEB128 (protobuf varint) encoding of `v`: seven bits per byte, least
/// significant group first, the high bit set on every byte but the last.
pub open spec fn varint_bytes(v: nat) -> Seq<u8>
    decreases v,
{
    if v < 128 {
        seq![v as u8]
    } else {
        seq![((v % 128) + 128) as u8] + varint_bytes(v / 128)
    }
}

/// The protobuf encoding of a `u32` as the message
/// `google.protobuf.UInt32Value`: nothing for 0, else the key byte of field
/// 1 with varint wire type (`0x08`) followed by the varint of the value.
pub open spec fn uint32_value_bytes(v: u32) -> Seq<u8> {
    if v == 0 {
        Seq::empty()
    } else {
        seq![8u8] + varint_bytes(v as nat)
    }
}

/// Calls `prost::Message::encode_to_vec` on a `u32`. prost encodes the
/// value as field 1 with varint wire type, and encodes nothing when the
/// value is 0; the contract states exactly those bytes.
#[verifier::external_body]
fn encode_uint32_value(value: u32) -> (bytes: Vec<u8>)
    ensures
        bytes@ == uint32_value_bytes(value),
{
    prost::Message::encode_to_vec(&value)
}

/// The ring key of a byte string: its hash, encoded.
pub open spec fn ring_key(data: Seq<u8>) -> Seq<u8> {
    uint32_value_bytes(murmur3_x86_32(data))
}

/// Computes the ring key of `val`.
pub fn create_hash(val: &[u8]) -> (key: Vec<u8>)
    requires
        val@.len() <= i32::MAX,
    ensures
        key@ == ring_key(val@),
        key@ == uint32_value_bytes(murmur3_x86_32(val@)),
{
    let h = murmur3_hash32(val);
    encode_uint32_value(h)
}

/// The decimal digits of `n`, as ASCII bytes, without leading zeros.
pub open spec fn decimal_digits(n: nat) -> Seq<u8>
    decreases n,
{
    if n < 10 {
        seq![(48 + n) as u8]
    } else {
        decimal_digits(n / 10).push((48 + n % 10) as u8)
    }
}

/// The number that a string of decimal digits spells, most significant
/// digit first.
pub open spec fn decimal_value(digits: Seq<u8>) -> nat
    decreases digits.len(),
{
    if digits.len() == 0 {
        0
    } else {
        decimal_value(digits.drop_last()) * 10 + (digits.last() - 48) as nat
    }
}

/// Appends the decimal digits of `n` to `out`.
fn push_decimal(out: &mut Vec<u8>, n: u16)
    ensures
        final(out)@ == old(out)@ + decimal_digits(n as nat),
    decreases n,
{
    if n >= 10 {
        push_decimal(out, n / 10);
    }
    out.push(48u8 + (n % 10) as u8);
    proof {
        assert(final(out)@ =~= old(out)@ + decimal_digits(n as nat));
    }
}

/// The identifier of a node: the UTF-8 bytes of `host:port`, the port in
/// decimal.
pub open spec fn node_id(node: Node) -> Seq<u8> {
    encode_utf8(node.host@) + seq![58u8] + decimal_digits(node.port as nat)
}

/// The ring key at which a node is placed.
pub open spec fn node_key(node: Node) -> Seq<u8> {
    ring_key(node_id(node))
}

/// Builds the identifier of `node`.
pub fn node_id_bytes(node: &Node) -> (id: Vec<u8>)
    ensures
        id@ == node_id(*node),
        id@ == encode_utf8(node.host@) + seq![58u8] + decimal_digits(node.port as nat),
{
    let mut id = node.host.as_str().as_bytes_vec();
    id.push(58u8);
    push_decimal(&mut id, node.port);
    proof {
        assert(id@ =~= node_id(*node));
    }
    id
}

} // verus!
