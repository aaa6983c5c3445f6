use tonic_consistent_hashing_lb::balance::channel_index;
use tonic_consistent_hashing_lb::byte_order::{compare_bytes, KeyOrder};
use tonic_consistent_hashing_lb::hashing::{create_hash, node_id_bytes};
use tonic_consistent_hashing_lb::{ConsistentHash, Node};

fn node(host: &str, port: u16) -> Node {
    Node::new(host, port)
}

fn three_node_ring() -> ConsistentHash {
    let mut ch = ConsistentHash::new();
    for port in [8087u16, 8088, 8089] {
        ch.add(&node("http://0.0.0.0", port));
    }
    ch
}

#[test]
fn node_new_keeps_host_and_port() {
    let n = Node::new("10.0.0.7", 50051);
    assert_eq!(n.host, "10.0.0.7");
    assert_eq!(n.port, 50051);
    assert_eq!(n.clone(), n);
    assert_eq!(Node::default(), Node { host: String::new(), port: 0 });
}

#[test]
fn node_identifier_is_host_colon_port() {
    assert_eq!(node_id_bytes(&node("http://0.0.0.0", 8087)), b"http://0.0.0.0:8087".to_vec());
    assert_eq!(node_id_bytes(&node("h", 0)), b"h:0".to_vec());
    assert_eq!(node_id_bytes(&node("", 65535)), b":65535".to_vec());
    assert_eq!(node_id_bytes(&node("é", 9)), "é:9".as_bytes().to_vec());
}

#[test]
fn create_hash_is_encoded_murmur3() {
    // murmur3 x86_32 of "hello" is 613153351, encoded as field 1 varint.
    assert_eq!(create_hash(b"hello"), vec![8, 199, 244, 175, 164, 2]);
    // the hash of nothing is 0, whose encoding is empty
    assert_eq!(create_hash(b""), Vec::<u8>::new());
    assert_eq!(create_hash(b"http://0.0.0.0:8087"), vec![8, 137, 201, 254, 72]);
    assert_eq!(create_hash(b"http://0.0.0.0:8088"), vec![8, 217, 176, 171, 249, 3]);
}

#[test]
fn compare_bytes_is_lexicographic() {
    assert_eq!(compare_bytes(&[1, 2], &[1, 3]), KeyOrder::Less);
    assert_eq!(compare_bytes(&[1, 2], &[1, 2]), KeyOrder::Equal);
    assert_eq!(compare_bytes(&[2], &[1, 9, 9]), KeyOrder::Greater);
    assert_eq!(compare_bytes(&[1], &[1, 0]), KeyOrder::Less);
    assert_eq!(compare_bytes(&[], &[]), KeyOrder::Equal);
}

#[test]
fn empty_ring_routes_nowhere() {
    let ch = ConsistentHash::new();
    assert_eq!(ch.len(), 0);
    assert_eq!(ch.get_next_node("hello-0"), None);
    assert_eq!(ch.lookup(&[1, 2, 3]), None);
}

#[test]
fn add_and_remove_count() {
    let mut ch = three_node_ring();
    assert_eq!(ch.len(), 3);
    ch.remove(&node("http://0.0.0.0", 8088));
    assert_eq!(ch.len(), 2);
    ch.remove(&node("http://0.0.0.0", 8088));
    assert_eq!(ch.len(), 2);
    ch.remove(&node("http://0.0.0.0", 9999));
    assert_eq!(ch.len(), 2);
}

#[test]
fn adding_twice_keeps_one_entry() {
    let mut ch = ConsistentHash::new();
    ch.add(&node("a", 1));
    ch.add(&node("a", 1));
    assert_eq!(ch.len(), 1);
    assert_eq!(ch.get_next_node("anything"), Some(&node("a", 1)));
}

#[test]
fn get_next_node_routes_by_ring_order() {
    let ch = three_node_ring();
    let expected = [
        8088, 8089, 8088, 8088, 8088, 8088, 8088, 8087, 8088, 8088, 8088, 8088, 8088, 8088, 8088,
        8088, 8089, 8088, 8088, 8089,
    ];
    for (j, port) in expected.iter().enumerate() {
        let data = format!("hello-{}", j);
        assert_eq!(ch.get_next_node(data.as_str()), Some(&node("http://0.0.0.0", *port)));
    }
}

#[test]
fn removing_a_node_moves_only_its_keys() {
    let mut ch = three_node_ring();
    ch.remove(&node("http://0.0.0.0", 8088));
    let expected = [
        8089, 8089, 8089, 8089, 8089, 8089, 8089, 8087, 8089, 8089, 8089, 8089, 8089, 8089, 8089,
        8089, 8089, 8089, 8089, 8089,
    ];
    let before = three_node_ring();
    for (j, port) in expected.iter().enumerate() {
        let data = format!("hello-{}", j);
        let now = ch.get_next_node(data.as_str()).unwrap().clone();
        assert_eq!(now, node("http://0.0.0.0", *port));
        let was = before.get_next_node(data.as_str()).unwrap();
        if was.port != 8088 {
            assert_eq!(&now, was);
        }
    }
}

#[test]
fn adding_a_node_moves_keys_only_to_it() {
    let before = three_node_ring();
    let mut ch = three_node_ring();
    let added = node("http://0.0.0.0", 8090);
    ch.add(&added);
    assert_eq!(ch.get_next_node("hello-1"), Some(&added));
    for j in 0..200 {
        let data = format!("hello-{}", j);
        let now = ch.get_next_node(data.as_str()).unwrap();
        let was = before.get_next_node(data.as_str()).unwrap();
        assert!(now == was || *now == added);
    }
}

#[test]
fn node_identifier_as_request_key_reaches_the_node() {
    let mut ch = three_node_ring();
    let n = node("10.1.2.3", 7000);
    ch.add(&n);
    assert_eq!(ch.get_next_node("10.1.2.3:7000"), Some(&n));
    assert_eq!(ch.get_next_node("http://0.0.0.0:8089"), Some(&node("http://0.0.0.0", 8089)));
}

#[test]
fn lookup_wraps_around_to_the_smallest_key() {
    let mut ch = ConsistentHash::new();
    ch.insert_key(vec![20], node("b", 2));
    ch.insert_key(vec![10], node("a", 1));
    ch.insert_key(vec![30], node("c", 3));
    assert_eq!(ch.len(), 3);
    assert_eq!(ch.lookup(&[5]), Some(&node("a", 1)));
    assert_eq!(ch.lookup(&[10]), Some(&node("a", 1)));
    assert_eq!(ch.lookup(&[11]), Some(&node("b", 2)));
    assert_eq!(ch.lookup(&[20, 0]), Some(&node("c", 3)));
    assert_eq!(ch.lookup(&[31]), Some(&node("a", 1)));
    assert_eq!(ch.lookup(&[]), Some(&node("a", 1)));
    ch.insert_key(vec![20], node("d", 4));
    assert_eq!(ch.len(), 3);
    assert_eq!(ch.lookup(&[15]), Some(&node("d", 4)));
    ch.remove_key(&[10]);
    assert_eq!(ch.len(), 2);
    assert_eq!(ch.lookup(&[31]), Some(&node("d", 4)));
    ch.remove_key(&[11]);
    assert_eq!(ch.len(), 2);
}

#[test]
fn lookup_by_ascending_ring_keys() {
    // keys in ring [2027723236, 2123272817, 2950756965], point 2114948387:
    // the next key is 2123272817
    let mut ch = ConsistentHash::new();
    for (k, p) in [(2027723236u32, 1u16), (2123272817, 2), (2950756965, 3)] {
        ch.insert_key(k.to_be_bytes().to_vec(), node("n", p));
    }
    assert_eq!(ch.lookup(&2114948387u32.to_be_bytes()), Some(&node("n", 2)));
    assert_eq!(ch.lookup(&3000000000u32.to_be_bytes()), Some(&node("n", 1)));
}

#[test]
fn channel_index_wraps_hash() {
    assert_eq!(channel_index(0, 3), 0);
    assert_eq!(channel_index(5, 3), 2);
    assert_eq!(channel_index(7, 1), 0);
    assert_eq!(channel_index(-1, 3), usize::MAX % 3);
    assert_eq!(channel_index(-2, 5), (usize::MAX - 1) % 5);
}

#[test]
fn removing_an_added_node_restores_routing() {
    let before = three_node_ring();
    let mut ch = three_node_ring();
    let extra = node("10.9.9.9", 1234);
    ch.add(&extra);
    assert_eq!(ch.len(), 4);
    ch.remove(&extra);
    assert_eq!(ch.len(), 3);
    for j in 0..100 {
        let data = format!("key-{}", j);
        assert_eq!(ch.get_next_node(data.as_str()), before.get_next_node(data.as_str()));
    }
}

#[test]
fn add_order_does_not_matter() {
    let mut forward = ConsistentHash::new();
    let mut backward = ConsistentHash::new();
    let nodes = [node("a", 1), node("b", 2), node("c", 3), node("d", 4)];
    for n in nodes.iter() {
        forward.add(n);
    }
    for n in nodes.iter().rev() {
        backward.add(n);
    }
    assert_eq!(forward.len(), backward.len());
    for j in 0..100 {
        let data = format!("req-{}", j);
        assert_eq!(forward.get_next_node(data.as_str()), backward.get_next_node(data.as_str()));
    }
}
