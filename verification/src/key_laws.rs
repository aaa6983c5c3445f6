//! What holds of ring keys and node identifiers: the whole input is hashed,
//! the encoding of a hash loses nothing, and a node's identifier determines
//! its host and port.
use vstd::prelude::*;
use vstd::utf8::encode_utf8;

use crate::hashing::{
    decimal_digits, decimal_value, murmur3_x86_32, node_id, node_key, ring_key, uint32_value_bytes,
    varint_bytes,
};
use crate::node::Node;

verus! {

/// A varint is never empty, and different numbers have different varints.
pub proof fn law_varint_injective(a: nat, b: nat)
    ensures
        varint_bytes(a).len() >= 1,
        varint_bytes(a) == varint_bytes(b) ==> a == b,
    decreases a,
{
    if a >= 128 {
        law_varint_injective(a / 128, a / 128);
    }
    if varint_bytes(a) == varint_bytes(b) {
        if a < 128 && b < 128 {
            assert(varint_bytes(a)[0] == varint_bytes(b)[0]);
        } else if a < 128 {
            assert(varint_bytes(a)[0] == varint_bytes(b)[0]);
        } else if b < 128 {
            assert(varint_bytes(a)[0] == varint_bytes(b)[0]);
        } else {
            assert(varint_bytes(a)[0] == varint_bytes(b)[0]);
            assert(a % 128 == b % 128);
            assert(varint_bytes(a / 128) =~= varint_bytes(a).drop_first());
            assert(varint_bytes(b / 128) =~= varint_bytes(b).drop_first());
            law_varint_injective(a / 128, b / 128);
            assert(a == (a / 128) * 128 + a % 128);
            assert(b == (b / 128) * 128 + b % 128);
        }
    }
}

/// Different hashes have different encodings.
pub proof fn law_uint32_value_bytes_injective(a: u32, b: u32)
    ensures
        uint32_value_bytes(a) == uint32_value_bytes(b) ==> a == b,
{
    law_varint_injective(a as nat, b as nat);
    law_varint_injective(b as nat, a as nat);
    if uint32_value_bytes(a) == uint32_value_bytes(b) && a != 0 && b != 0 {
        assert(varint_bytes(a as nat) =~= uint32_value_bytes(a).drop_first());
        assert(varint_bytes(b as nat) =~= uint32_value_bytes(b).drop_first());
    }
}

/// The ring key of a byte string is the encoding of the MurmurHash3 of the
/// whole string, as given; two byte strings share a ring key exactly when
/// their hashes are equal.
pub proof fn law_ring_key_hashes_whole_input(d1: Seq<u8>, d2: Seq<u8>)
    ensures
        ring_key(d1) == uint32_value_bytes(murmur3_x86_32(d1)),
        ring_key(d1) == ring_key(d2) <==> murmur3_x86_32(d1) == murmur3_x86_32(d2),
{
    law_uint32_value_bytes_injective(murmur3_x86_32(d1), murmur3_x86_32(d2));
}

/// The decimal digits of a number are ASCII digits, at least one of them,
/// and spell the number back.
pub proof fn law_decimal_digits_spell_the_number(n: nat)
    ensures
        decimal_digits(n).len() >= 1,
        forall|i: int| 0 <= i < decimal_digits(n).len() ==> 48 <= #[trigger] decimal_digits(n)[i] <= 57,
        decimal_value(decimal_digits(n)) == n,
    decreases n,
{
    if n >= 10 {
        law_decimal_digits_spell_the_number(n / 10);
        let d = decimal_digits(n);
        assert(d.drop_last() =~= decimal_digits(n / 10));
        assert(n == (n / 10) * 10 + n % 10);
        assert(d.last() == (48 + n % 10) as u8);
        assert((d.last() - 48) as nat == n % 10);
    } else {
        let d = decimal_digits(n);
        assert(d.drop_last() =~= Seq::<u8>::empty());
        assert(d.last() == (48 + n) as u8);
        assert(decimal_value(d.drop_last()) == 0);
    }
}

/// Two byte strings, each followed by a colon and then bytes without a
/// colon, are equal when their joins are.
proof fn lemma_split_at_last_colon(s1: Seq<u8>, t1: Seq<u8>, s2: Seq<u8>, t2: Seq<u8>)
    requires
        forall|i: int| 0 <= i < t1.len() ==> #[trigger] t1[i] != 58u8,
        forall|i: int| 0 <= i < t2.len() ==> #[trigger] t2[i] != 58u8,
        s1 + seq![58u8] + t1 == s2 + seq![58u8] + t2,
    ensures
        s1 == s2,
        t1 == t2,
{
    let j1 = s1 + seq![58u8] + t1;
    let j2 = s2 + seq![58u8] + t2;
    assert(j1.len() == j2.len());
    if t1.len() < t2.len() {
        let pos = j1.len() - t1.len() - 1;
        assert(j1[pos] == 58u8);
        assert(j2[pos] == t2[pos - s2.len() - 1]);
    } else if t2.len() < t1.len() {
        let pos = j2.len() - t2.len() - 1;
        assert(j2[pos] == 58u8);
        assert(j1[pos] == t1[pos - s1.len() - 1]);
    }
    assert(s1.len() == s2.len());
    assert forall|i: int| 0 <= i < s1.len() implies s1[i] == s2[i] by {
        assert(j1[i] == s1[i] && j2[i] == s2[i]);
    }
    assert forall|i: int| 0 <= i < t1.len() implies t1[i] == t2[i] by {
        assert(j1[s1.len() + 1 + i] == t1[i] && j2[s2.len() + 1 + i] == t2[i]);
    }
    assert(s1 =~= s2);
    assert(t1 =~= t2);
}

/// A node's identifier is its whole host (UTF-8), a colon and its decimal
/// port; nodes with the same identifier have the same host and port.
pub proof fn law_node_id_determines_node(a: Node, b: Node)
    ensures
        node_id(a) == encode_utf8(a.host@) + seq![58u8] + decimal_digits(a.port as nat),
        node_id(a) == node_id(b) <==> (a.host@ == b.host@ && a.port == b.port),
{
    if node_id(a) == node_id(b) {
        law_decimal_digits_spell_the_number(a.port as nat);
        law_decimal_digits_spell_the_number(b.port as nat);
        lemma_split_at_last_colon(
            encode_utf8(a.host@),
            decimal_digits(a.port as nat),
            encode_utf8(b.host@),
            decimal_digits(b.port as nat),
        );
        vstd::utf8::encode_utf8_decode_utf8(a.host@);
        vstd::utf8::encode_utf8_decode_utf8(b.host@);
    }
}

/// Two nodes share a ring key exactly when the hashes of their identifiers
/// are equal; in particular a node and itself, and only through a hash
/// collision two nodes with different hosts or ports.
pub proof fn law_node_key_of_distinct_nodes(a: Node, b: Node)
    ensures
        node_key(a) == node_key(b) <==> murmur3_x86_32(node_id(a)) == murmur3_x86_32(node_id(b)),
        (a.host@ == b.host@ && a.port == b.port) ==> node_key(a) == node_key(b),
{
    law_ring_key_hashes_whole_input(node_id(a), node_id(b));
    law_node_id_determines_node(a, b);
}

} // verus!
