//! The mathematical model of the ring: a finite map from byte keys to nodes,
//! walked in lexicographic key order, and which key a point is routed to.
use vstd::prelude::*;

use crate::byte_order::{lemma_lex_order, lex_le, lex_lt};
use crate::node::Node;

verus! {

/// `k` is the smallest key of `m` at or after the point `p`.
pub open spec fn is_first_key_from(m: Map<Seq<u8>, Node>, p: Seq<u8>, k: Seq<u8>) -> bool {
    &&& m.dom().contains(k)
    &&& lex_le(p, k)
    &&& forall|k2: Seq<u8>| #[trigger] m.dom().contains(k2) && lex_le(p, k2) ==> lex_le(k, k2)
}

/// Every key of `m` sorts strictly before the point `p`.
pub open spec fn all_keys_before(m: Map<Seq<u8>, Node>, p: Seq<u8>) -> bool {
    forall|k2: Seq<u8>| #[trigger] m.dom().contains(k2) ==> !lex_le(p, k2)
}

/// `k` is the smallest key of `m`.
pub open spec fn is_smallest_key(m: Map<Seq<u8>, Node>, k: Seq<u8>) -> bool {
    &&& m.dom().contains(k)
    &&& forall|k2: Seq<u8>| #[trigger] m.dom().contains(k2) ==> lex_le(k, k2)
}

/// `k` is the key that the point `p` is routed to: the first key at or after
/// `p`, or, when every key sorts before `p`, the smallest key (the ring
/// wraps around).
pub open spec fn is_successor(m: Map<Seq<u8>, Node>, p: Seq<u8>, k: Seq<u8>) -> bool {
    ||| is_first_key_from(m, p, k)
    ||| (all_keys_before(m, p) && is_smallest_key(m, k))
}

/// The key that the point `p` is routed to (meaningful when `m` has a key).
pub open spec fn successor(m: Map<Seq<u8>, Node>, p: Seq<u8>) -> Seq<u8> {
    choose|k: Seq<u8>| is_successor(m, p, k)
}

/// The node that the point `p` is routed to: none for an empty ring, else
/// the node at the successor key of `p`.
pub open spec fn ring_lookup(m: Map<Seq<u8>, Node>, p: Seq<u8>) -> Option<Node> {
    if m.dom().is_empty() {
        None
    } else {
        Some(m[successor(m, p)])
    }
}

/// At most one key is the successor of a point.
pub proof fn lemma_successor_unique(m: Map<Seq<u8>, Node>, p: Seq<u8>, k1: Seq<u8>, k2: Seq<u8>)
    requires
        is_successor(m, p, k1),
        is_successor(m, p, k2),
    ensures
        k1 == k2,
{
    lemma_lex_order();
    if is_first_key_from(m, p, k1) && is_first_key_from(m, p, k2) {
        assert(lex_le(k1, k2) && lex_le(k2, k1));
    } else if is_first_key_from(m, p, k1) {
        assert(!lex_le(p, k1));
    } else if is_first_key_from(m, p, k2) {
        assert(!lex_le(p, k2));
    } else {
        assert(lex_le(k1, k2) && lex_le(k2, k1));
    }
}

/// A key that is the successor of `p` is the one `successor` names.
pub proof fn lemma_successor_is(m: Map<Seq<u8>, Node>, p: Seq<u8>, k: Seq<u8>)
    requires
        is_successor(m, p, k),
    ensures
        successor(m, p) == k,
        is_successor(m, p, successor(m, p)),
{
    lemma_successor_unique(m, p, k, successor(m, p));
}

/// A finite, non-empty set of byte strings has a smallest element.
pub proof fn lemma_smallest_exists(s: Set<Seq<u8>>)
    requires
        s.finite(),
        s.len() > 0,
    ensures
        exists|k: Seq<u8>| s.contains(k) && forall|k2: Seq<u8>| #[trigger] s.contains(k2) ==> lex_le(k, k2),
    decreases s.len(),
{
    lemma_lex_order();
    let x = s.choose();
    let rest = s.remove(x);
    if rest.len() == 0 {
        assert forall|k2: Seq<u8>| #[trigger] s.contains(k2) implies lex_le(x, k2) by {
            if k2 != x {
                assert(rest.contains(k2));
            }
        }
    } else {
        lemma_smallest_exists(rest);
        let y = choose|k: Seq<u8>| rest.contains(k) && forall|k2: Seq<u8>| #[trigger] rest.contains(k2) ==> lex_le(k, k2);
        if lex_lt(x, y) {
            assert forall|k2: Seq<u8>| #[trigger] s.contains(k2) implies lex_le(x, k2) by {
                if k2 != x {
                    assert(rest.contains(k2));
                }
            }
        } else {
            assert forall|k2: Seq<u8>| #[trigger] s.contains(k2) implies lex_le(y, k2) by {
                if k2 != x {
                    assert(rest.contains(k2));
                }
            }
        }
    }
}

/// Every point of a finite, non-empty ring has a successor key.
pub proof fn lemma_successor_exists(m: Map<Seq<u8>, Node>, p: Seq<u8>)
    requires
        m.dom().finite(),
        !m.dom().is_empty(),
    ensures
        is_successor(m, p, successor(m, p)),
{
    lemma_lex_order();
    let from = m.dom().filter(|k: Seq<u8>| lex_le(p, k));
    m.dom().lemma_len_filter(|k: Seq<u8>| lex_le(p, k));
    if from.len() > 0 {
        lemma_smallest_exists(from);
        let k = choose|k: Seq<u8>| from.contains(k) && forall|k2: Seq<u8>| #[trigger] from.contains(k2) ==> lex_le(k, k2);
        assert forall|k2: Seq<u8>| #[trigger] m.dom().contains(k2) && lex_le(p, k2) implies lex_le(k, k2) by {
            assert(from.contains(k2));
        }
        assert(is_first_key_from(m, p, k));
        lemma_successor_is(m, p, k);
    } else {
        let w = m.dom().choose();
        assert(m.dom().contains(w)) by {
            assert(m.dom().len() != 0);
        }
        lemma_smallest_exists(m.dom());
        let k = choose|k: Seq<u8>| m.dom().contains(k) && forall|k2: Seq<u8>| #[trigger] m.dom().contains(k2) ==> lex_le(k, k2);
        assert forall|k2: Seq<u8>| #[trigger] m.dom().contains(k2) implies !lex_le(p, k2) by {
            if lex_le(p, k2) {
                assert(from.contains(k2));
                assert(from.len() != 0);
            }
        }
        assert(is_smallest_key(m, k));
        lemma_successor_is(m, p, k);
    }
}

} // verus!
