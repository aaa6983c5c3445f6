//! What holds of the ring across operations, stated over the map model that
//! the operations' contracts use (`ConsistentHash::add` inserts the node at
//! `node_key`, `ConsistentHash::remove` removes that key, `get_next_node`
//! and `lookup` return `ring_lookup`).
use vstd::prelude::*;

use crate::byte_order::{lemma_lex_order, lex_le};
use crate::hashing::{node_id, node_key, ring_key};
use crate::node::Node;
use crate::ring_model::{
    all_keys_before, is_first_key_from, is_smallest_key, lemma_successor_exists,
    lemma_successor_is, ring_lookup, successor,
};

verus! {

/// A lookup finds nothing exactly when the ring is empty, and what it finds
/// is a node on the ring.
pub proof fn law_lookup_finds_a_ring_node(m: Map<Seq<u8>, Node>, p: Seq<u8>)
    requires
        m.dom().finite(),
    ensures
        ring_lookup(m, p) is None <==> m.dom().is_empty(),
        ring_lookup(m, p) matches Some(n) ==> exists|k: Seq<u8>| #[trigger]
            m.dom().contains(k) && m[k] == n,
{
    if !m.dom().is_empty() {
        lemma_successor_exists(m, p);
        let k = successor(m, p);
        assert(m.dom().contains(k) && m[k] == m[successor(m, p)]);
    }
}

/// After a node is added, a point equal to the node's key is routed to
/// that node.
pub proof fn law_add_then_lookup_own_key(m: Map<Seq<u8>, Node>, node: Node)
    ensures
        ring_lookup(m.insert(node_key(node), node), node_key(node)) == Some(node),
{
    lemma_lex_order();
    let k = node_key(node);
    let m2 = m.insert(k, node);
    assert(m2.dom().contains(k));
    assert(is_first_key_from(m2, k, k));
    lemma_successor_is(m2, k, k);
}

/// After a node is added, a request whose key is the node's `host:port`
/// identifier is routed to that node.
pub proof fn law_request_for_node_id_reaches_node(m: Map<Seq<u8>, Node>, node: Node, request: Seq<char>)
    requires
        vstd::utf8::encode_utf8(request) == node_id(node),
    ensures
        ring_lookup(m.insert(node_key(node), node), ring_key(vstd::utf8::encode_utf8(request)))
            == Some(node),
{
    law_add_then_lookup_own_key(m, node);
}

/// Adding a node moves a point only onto the new node: every point is
/// routed either where it was routed before or to the added node.
pub proof fn law_add_moves_points_only_to_new_node(m: Map<Seq<u8>, Node>, node: Node, p: Seq<u8>)
    requires
        m.dom().finite(),
    ensures
        ring_lookup(m.insert(node_key(node), node), p) == ring_lookup(m, p) || ring_lookup(
            m.insert(node_key(node), node),
            p,
        ) == Some(node),
{
    lemma_lex_order();
    let k = node_key(node);
    let m2 = m.insert(k, node);
    assert(m2.dom().contains(k));
    lemma_successor_exists(m2, p);
    let s = successor(m2, p);
    if s != k {
        assert(m.dom().contains(s));
        assert(m2[s] == m[s]);
        if is_first_key_from(m2, p, s) {
            assert forall|k2: Seq<u8>| #[trigger]
                m.dom().contains(k2) && lex_le(p, k2) implies lex_le(s, k2) by {
                assert(m2.dom().contains(k2));
            }
            assert(is_first_key_from(m, p, s));
        } else {
            assert forall|k2: Seq<u8>| #[trigger] m.dom().contains(k2) implies !lex_le(p, k2)
                && lex_le(s, k2) by {
                assert(m2.dom().contains(k2));
            }
            assert(all_keys_before(m, p) && is_smallest_key(m, s));
        }
        lemma_successor_is(m, p, s);
        assert(!m.dom().is_empty());
    }
}

/// Removing a node leaves every point that was not routed to the removed
/// key where it was.
pub proof fn law_remove_keeps_other_points(m: Map<Seq<u8>, Node>, node: Node, p: Seq<u8>)
    requires
        m.dom().finite(),
        !m.dom().is_empty() ==> successor(m, p) != node_key(node),
    ensures
        ring_lookup(m.remove(node_key(node)), p) == ring_lookup(m, p),
{
    lemma_lex_order();
    let k = node_key(node);
    let m2 = m.remove(k);
    if m.dom().is_empty() {
        assert(m2.dom() =~= m.dom());
    } else {
        lemma_successor_exists(m, p);
        let s = successor(m, p);
        assert(m2.dom().contains(s));
        assert(m2[s] == m[s]);
        if is_first_key_from(m, p, s) {
            assert(is_first_key_from(m2, p, s));
        } else {
            assert(all_keys_before(m2, p) && is_smallest_key(m2, s));
        }
        lemma_successor_is(m2, p, s);
    }
}

/// Adding the same node twice leaves the ring as adding it once.
pub proof fn law_add_idempotent(m: Map<Seq<u8>, Node>, node: Node)
    ensures
        m.insert(node_key(node), node).insert(node_key(node), node) == m.insert(
            node_key(node),
            node,
        ),
{
    assert(m.insert(node_key(node), node).insert(node_key(node), node) =~= m.insert(
        node_key(node),
        node,
    ));
}

/// Removing a node undoes adding it: the ring is as if the node's key had
/// been removed from the ring before; in particular a node whose key was
/// not on the ring leaves no trace.
pub proof fn law_remove_undoes_add(m: Map<Seq<u8>, Node>, node: Node)
    ensures
        m.insert(node_key(node), node).remove(node_key(node)) == m.remove(node_key(node)),
        !m.dom().contains(node_key(node)) ==> m.insert(node_key(node), node).remove(
            node_key(node),
        ) == m,
{
    assert(m.insert(node_key(node), node).remove(node_key(node)) =~= m.remove(node_key(node)));
    if !m.dom().contains(node_key(node)) {
        assert(m.remove(node_key(node)) =~= m);
    }
}

/// Nodes at different keys can be added in either order.
pub proof fn law_add_order_independent(m: Map<Seq<u8>, Node>, a: Node, b: Node)
    requires
        node_key(a) != node_key(b),
    ensures
        m.insert(node_key(a), a).insert(node_key(b), b) == m.insert(node_key(b), b).insert(
            node_key(a),
            a,
        ),
{
    assert(m.insert(node_key(a), a).insert(node_key(b), b) =~= m.insert(node_key(b), b).insert(
        node_key(a),
        a,
    ));
}

/// Adding a node grows the ring by one exactly when its key was free;
/// removing it shrinks the ring by one exactly when its key was taken.
pub proof fn law_len_after_add_and_remove(m: Map<Seq<u8>, Node>, node: Node)
    requires
        m.dom().finite(),
    ensures
        m.insert(node_key(node), node).dom().len() == m.dom().len() + if m.dom().contains(
            node_key(node),
        ) {
            0int
        } else {
            1int
        },
        m.remove(node_key(node)).dom().len() == m.dom().len() - if m.dom().contains(
            node_key(node),
        ) {
            1int
        } else {
            0int
        },
{
    let k = node_key(node);
    assert(m.insert(k, node).dom() =~= m.dom().insert(k));
    assert(m.remove(k).dom() =~= m.dom().remove(k));
}

/// Removing a node whose key is not on the ring leaves the ring unchanged;
/// another node stays on the ring unless the two share a ring key.
pub proof fn law_remove_absent_node_keeps_ring(m: Map<Seq<u8>, Node>, gone: Node, kept: Node)
    ensures
        !m.dom().contains(node_key(gone)) ==> m.remove(node_key(gone)) == m,
        m.dom().contains(node_key(kept)) && node_key(gone) != node_key(kept) ==> m.remove(
            node_key(gone),
        ).dom().contains(node_key(kept)) && m.remove(node_key(gone))[node_key(kept)] == m[node_key(
            kept,
        )],
{
    if !m.dom().contains(node_key(gone)) {
        assert(m.remove(node_key(gone)) =~= m);
    }
}

} // verus!
