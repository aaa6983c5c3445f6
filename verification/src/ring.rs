//! The consistent-hash ring.
use vstd::prelude::*;

use crate::byte_order::{compare_bytes, lemma_lex_order, lex_le, lex_lt, KeyOrder};
use crate::hashing::{create_hash, node_id, node_id_bytes, node_key, ring_key};
use crate::node::Node;
use crate::ring_model::{is_first_key_from, is_smallest_key, lemma_successor_is, ring_lookup};
use vstd::utf8::encode_utf8;

verus! {

/// A ring of nodes, each placed at a byte key; keys are walked in
/// lexicographic order.
pub struct ConsistentHash {
    /// The ring's entries, sorted strictly by key.
    entries: Vec<(Vec<u8>, Node)>,
}

/// The keys of a sequence of entries.
pub open spec fn keys_of(entries: Seq<(Vec<u8>, Node)>) -> Seq<Seq<u8>> {
    entries.map_values(|e: (Vec<u8>, Node)| e.0@)
}

/// Keys sorted strictly increasing.
pub open spec fn strictly_sorted(keys: Seq<Seq<u8>>) -> bool {
    forall|i: int, j: int| 0 <= i < j < keys.len() ==> lex_lt(#[trigger] keys[i], #[trigger] keys[j])
}

/// The map that a sequence of entries with distinct keys stands for.
pub open spec fn map_of(entries: Seq<(Vec<u8>, Node)>) -> Map<Seq<u8>, Node> {
    Map::new(
        |k: Seq<u8>| keys_of(entries).contains(k),
        |k: Seq<u8>| entries[keys_of(entries).index_of(k)].1,
    )
}

impl View for ConsistentHash {
    type V = Map<Seq<u8>, Node>;

    /// The ring as a map from key to node.
    closed spec fn view(&self) -> Map<Seq<u8>, Node> {
        map_of(self.entries@)
    }
}

/// In a strictly sorted sequence a key occurs once.
proof fn lemma_sorted_distinct(keys: Seq<Seq<u8>>, i: int, j: int)
    requires
        strictly_sorted(keys),
        0 <= i < keys.len(),
        0 <= j < keys.len(),
        keys[i] == keys[j],
    ensures
        i == j,
{
    lemma_lex_order();
    if i < j {
        assert(lex_lt(keys[i], keys[j]));
    } else if j < i {
        assert(lex_lt(keys[j], keys[i]));
    }
}

/// The entry at position `i` is what the map holds at its key.
proof fn lemma_map_of_at(entries: Seq<(Vec<u8>, Node)>, i: int)
    requires
        strictly_sorted(keys_of(entries)),
        0 <= i < entries.len(),
    ensures
        map_of(entries).dom().contains(entries[i].0@),
        map_of(entries)[entries[i].0@] == entries[i].1,
{
    let ks = keys_of(entries);
    assert(ks[i] == entries[i].0@);
    assert(ks.contains(ks[i]));
    let j = ks.index_of(ks[i]);
    lemma_sorted_distinct(ks, i, j);
}

/// The map's domain is the set of keys; it is finite and as large as the
/// sequence.
proof fn lemma_map_of_dom(entries: Seq<(Vec<u8>, Node)>)
    requires
        strictly_sorted(keys_of(entries)),
    ensures
        map_of(entries).dom() =~= keys_of(entries).to_set(),
        map_of(entries).dom().finite(),
        map_of(entries).dom().len() == entries.len(),
{
    let ks = keys_of(entries);
    assert(map_of(entries).dom() =~= ks.to_set());
    vstd::seq_lib::seq_to_set_is_finite(ks);
    assert forall|i: int, j: int| 0 <= i < ks.len() && 0 <= j < ks.len() && i != j implies ks[i]
        != ks[j] by {
        if ks[i] == ks[j] {
            lemma_sorted_distinct(ks, i, j);
        }
    }
    assert(ks.no_duplicates());
    ks.unique_seq_to_set();
}

impl ConsistentHash {
    /// The representation invariant: entries sorted strictly by key.
    pub closed spec fn wf(&self) -> bool {
        strictly_sorted(keys_of(self.entries@))
    }

    /// A well-formed ring has finitely many keys.
    pub proof fn lemma_wf_finite(&self)
        requires
            self.wf(),
        ensures
            self@.dom().finite(),
    {
        lemma_map_of_dom(self.entries@);
    }

    /// Creates an empty ring.
    pub fn new() -> (ring: ConsistentHash)
        ensures
            ring.wf(),
            ring@ == Map::<Seq<u8>, Node>::empty(),
    {
        let ring = ConsistentHash { entries: Vec::new() };
        assert(ring@ =~= Map::<Seq<u8>, Node>::empty());
        ring
    }

    /// The number of nodes on the ring.
    pub fn len(&self) -> (n: usize)
        requires
            self.wf(),
        ensures
            n == self@.dom().len(),
    {
        proof {
            lemma_map_of_dom(self.entries@);
        }
        self.entries.len()
    }

    /// The position of the first entry whose key is at or after `key`.
    fn lower_bound(&self, key: &[u8]) -> (i: usize)
        requires
            self.wf(),
        ensures
            i <= self.entries@.len(),
            forall|j: int| 0 <= j < i ==> lex_lt(#[trigger] keys_of(self.entries@)[j], key@),
            i < self.entries@.len() ==> lex_le(key@, keys_of(self.entries@)[i as int]),
    {
        let mut i: usize = 0;
        while i < self.entries.len()
            invariant
                i <= self.entries@.len(),
                forall|j: int| 0 <= j < i ==> lex_lt(#[trigger] keys_of(self.entries@)[j], key@),
            decreases self.entries.len() - i,
        {
            match compare_bytes(self.entries[i].0.as_slice(), key) {
                KeyOrder::Less => {
                    i = i + 1;
                },
                _ => {
                    proof {
                        lemma_lex_order();
                    }
                    return i;
                },
            }
        }
        i
    }

    /// The node that the point `point` is routed to: the node at the first
    /// key at or after `point`, wrapping around to the smallest key; none
    /// when the ring is empty.
    pub fn lookup(&self, point: &[u8]) -> (found: Option<&Node>)
        requires
            self.wf(),
        ensures
            match found {
                Some(n) => ring_lookup(self@, point@) == Some(*n),
                None => ring_lookup(self@, point@) is None,
            },
    {
        let ghost m = self@;
        let ghost ks = keys_of(self.entries@);
        proof {
            lemma_lex_order();
        }
        if self.entries.len() == 0 {
            assert(m.dom() =~= Set::<Seq<u8>>::empty());
            return None;
        }
        let i = self.lower_bound(point);
        let idx: usize = if i < self.entries.len() {
            i
        } else {
            0
        };
        proof {
            lemma_map_of_at(self.entries@, idx as int);
            let k = ks[idx as int];
            assert(m.dom().contains(k));
            assert forall|k2: Seq<u8>| #[trigger] m.dom().contains(k2) implies (i < ks.len() ==> (
            lex_le(point@, k2) ==> lex_le(k, k2))) && (i == ks.len() ==> !lex_le(point@, k2)
                && lex_le(k, k2)) by {
                let j = ks.index_of(k2);
                assert(ks[j] == k2);
                if j < i {
                    assert(lex_lt(ks[j], point@));
                } else if j > idx {
                    assert(lex_lt(ks[idx as int], ks[j]));
                }
            }
            if i < ks.len() {
                assert(is_first_key_from(m, point@, k));
            } else {
                assert(is_smallest_key(m, k));
            }
            lemma_successor_is(m, point@, k);
        }
        Some(&self.entries[idx].1)
    }

    /// Places `node` at `key`, replacing any node already there.
    pub fn insert_key(&mut self, key: Vec<u8>, node: Node)
        requires
            old(self).wf(),
        ensures
            final(self).wf(),
            final(self)@ == old(self)@.insert(key@, node),
    {
        let ghost k = key@;
        let ghost old_entries = self.entries@;
        let ghost ks = keys_of(old_entries);
        let i = self.lower_bound(key.as_slice());
        proof {
            lemma_lex_order();
        }
        if i < self.entries.len() {
            match compare_bytes(self.entries[i].0.as_slice(), key.as_slice()) {
                KeyOrder::Equal => {
                    self.entries.set(i, (key, node));
                    proof {
                        let ne = self.entries@;
                        assert(keys_of(ne) =~= ks);
                        assert(map_of(ne) =~= map_of(old_entries).insert(k, node)) by {
                            assert forall|k2: Seq<u8>| #[trigger]
                                map_of(ne).dom().contains(k2) implies map_of(ne)[k2]
                                == map_of(old_entries).insert(k, node)[k2] by {
                                let j = ks.index_of(k2);
                                if k2 == k {
                                    lemma_sorted_distinct(ks, j, i as int);
                                } else {
                                    lemma_map_of_at(old_entries, j);
                                }
                            }
                        }
                    }
                    return ;
                },
                _ => {},
            }
        }
        self.entries.insert(i, (key, node));
        proof {
            let ne = self.entries@;
            let nks = keys_of(ne);
            assert(nks =~= ks.insert(i as int, k));
            assert(i < ks.len() ==> lex_lt(k, ks[i as int]));
            assert(strictly_sorted(nks)) by {
                assert forall|a: int, b: int| 0 <= a < b < nks.len() implies lex_lt(
                    #[trigger] nks[a],
                    #[trigger] nks[b],
                ) by {
                    if b < i {
                    } else if b == i {
                    } else if a < i {
                        assert(nks[b] == ks[b - 1]);
                    } else if a == i {
                        if b - 1 > i {
                            assert(lex_lt(ks[i as int], ks[b - 1]));
                        }
                    } else {
                        assert(nks[a] == ks[a - 1]);
                        assert(nks[b] == ks[b - 1]);
                    }
                }
            }
            assert(map_of(ne) =~= map_of(old_entries).insert(k, node)) by {
                assert forall|k2: Seq<u8>|
                    map_of(ne).dom().contains(k2) <==> map_of(old_entries).insert(
                        k,
                        node,
                    ).dom().contains(k2) by {
                    if nks.contains(k2) && k2 != k {
                        let j = nks.index_of(k2);
                        if j < i {
                            assert(ks[j] == k2);
                        } else {
                            assert(ks[j - 1] == k2);
                        }
                    }
                    if ks.contains(k2) {
                        let j = ks.index_of(k2);
                        if j < i {
                            assert(nks[j] == k2);
                        } else {
                            assert(nks[j + 1] == k2);
                        }
                    }
                    if k2 == k {
                        assert(nks[i as int] == k);
                    }
                }
                assert forall|k2: Seq<u8>| #[trigger]
                    map_of(ne).dom().contains(k2) implies map_of(ne)[k2] == map_of(
                    old_entries,
                ).insert(k, node)[k2] by {
                    let j = nks.index_of(k2);
                    if k2 == k {
                        lemma_sorted_distinct(nks, j, i as int);
                    } else if j < i {
                        lemma_map_of_at(old_entries, j);
                        lemma_map_of_at(ne, j);
                    } else {
                        lemma_map_of_at(old_entries, j - 1);
                        lemma_map_of_at(ne, j);
                    }
                }
            }
        }
    }

    /// Takes the node at `key` off the ring, if there is one.
    pub fn remove_key(&mut self, key: &[u8])
        requires
            old(self).wf(),
        ensures
            final(self).wf(),
            final(self)@ == old(self)@.remove(key@),
    {
        let ghost old_entries = self.entries@;
        let ghost ks = keys_of(old_entries);
        let i = self.lower_bound(key);
        proof {
            lemma_lex_order();
        }
        if i < self.entries.len() {
            match compare_bytes(self.entries[i].0.as_slice(), key) {
                KeyOrder::Equal => {
                    self.entries.remove(i);
                    proof {
                        let ne = self.entries@;
                        let nks = keys_of(ne);
                        assert(nks =~= ks.remove(i as int));
                        assert(strictly_sorted(nks)) by {
                            assert forall|a: int, b: int| 0 <= a < b < nks.len() implies lex_lt(
                                #[trigger] nks[a],
                                #[trigger] nks[b],
                            ) by {
                                let oa = if a < i {
                                    a
                                } else {
                                    a + 1
                                };
                                let ob = if b < i {
                                    b
                                } else {
                                    b + 1
                                };
                                assert(nks[a] == ks[oa] && nks[b] == ks[ob]);
                            }
                        }
                        assert(map_of(ne) =~= map_of(old_entries).remove(key@)) by {
                            assert forall|k2: Seq<u8>|
                                map_of(ne).dom().contains(k2) <==> map_of(
                                    old_entries,
                                ).remove(key@).dom().contains(k2) by {
                                if nks.contains(k2) {
                                    let j = nks.index_of(k2);
                                    let oj = if j < i {
                                        j
                                    } else {
                                        j + 1
                                    };
                                    assert(ks[oj] == k2);
                                    if k2 == key@ {
                                        lemma_sorted_distinct(ks, oj, i as int);
                                    }
                                }
                                if ks.contains(k2) && k2 != key@ {
                                    let j = ks.index_of(k2);
                                    if j < i {
                                        assert(nks[j] == k2);
                                    } else {
                                        assert(nks[j - 1] == k2);
                                    }
                                }
                            }
                            assert forall|k2: Seq<u8>| #[trigger]
                                map_of(ne).dom().contains(k2) implies map_of(ne)[k2] == map_of(
                                old_entries,
                            ).remove(key@)[k2] by {
                                let j = nks.index_of(k2);
                                lemma_map_of_at(ne, j);
                                if j < i {
                                    lemma_map_of_at(old_entries, j);
                                } else {
                                    lemma_map_of_at(old_entries, j + 1);
                                }
                            }
                        }
                    }
                    return ;
                },
                _ => {},
            }
        }
        proof {
            assert forall|j: int| 0 <= j < ks.len() implies ks[j] != key@ by {
                if j < i {
                    assert(lex_lt(ks[j], key@));
                } else if j > i {
                    assert(lex_lt(ks[i as int], ks[j]));
                }
            }
            assert(map_of(old_entries) =~= map_of(old_entries).remove(key@));
        }
    }

    /// Places `node` on the ring at the key of its `host:port` identifier,
    /// replacing whatever node was at that key.
    pub fn add(&mut self, node: &Node)
        requires
            old(self).wf(),
            node_id(*node).len() <= i32::MAX,
        ensures
            final(self).wf(),
            final(self)@ == old(self)@.insert(node_key(*node), *node),
    {
        self.remove(node);
        let id = node_id_bytes(node);
        let key = create_hash(id.as_slice());
        self.insert_key(key, node.clone());
        assert(self@ =~= old(self)@.insert(node_key(*node), *node));
    }

    /// Takes off the ring whatever node is at the key of `node`'s
    /// `host:port` identifier.
    pub fn remove(&mut self, node: &Node)
        requires
            old(self).wf(),
            node_id(*node).len() <= i32::MAX,
        ensures
            final(self).wf(),
            final(self)@ == old(self)@.remove(node_key(*node)),
    {
        let id = node_id_bytes(node);
        let key = create_hash(id.as_slice());
        self.remove_key(key.as_slice());
    }

    /// The node that the request key `k` is routed to: `k`'s UTF-8 bytes
    /// are hashed to a ring key, then looked up as by `lookup`. None when
    /// the ring is empty.
    pub fn get_next_node(&self, k: &str) -> (found: Option<&Node>)
        requires
            self.wf(),
            !self@.dom().is_empty() ==> encode_utf8(k@).len() <= i32::MAX,
        ensures
            match found {
                Some(n) => ring_lookup(self@, ring_key(encode_utf8(k@))) == Some(*n),
                None => ring_lookup(self@, ring_key(encode_utf8(k@))) is None,
            },
    {
        let key = k.as_bytes();
        if self.entries.len() == 0 {
            assert(self@.dom() =~= Set::<Seq<u8>>::empty());
            return None;
        }
        proof {
            lemma_map_of_at(self.entries@, 0);
        }
        let hashed_key = create_hash(key);
        self.lookup(hashed_key.as_slice())
    }
}

} // verus!
