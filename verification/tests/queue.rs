use duhast::dht::DhtId;
use duhast::dht::Message;
use duhast::dht::PingQuery;
use duhast::dht::Query;
use duhast::dht::encode_message;
use duhast::query_queue::NodeQueue;
use duhast::query_queue::QueryQueue;
use duhast::query_queue::token_bytes;
use duhast::query_queue::token_id;

fn contains(haystack: &[u8], needle: &[u8]) -> bool {
    if needle.len() > haystack.len() {
        return false;
    }
    (0..=haystack.len() - needle.len()).any(|i| &haystack[i..i + needle.len()] == needle)
}

#[test]
fn node_queue_counts_from_one() {
    let mut q = NodeQueue::new();
    assert_eq!(q.get_next_id(), 1);
    assert_eq!(q.get_next_id(), 2);
    assert_eq!(q.get_next_id(), 3);
}

#[test]
fn node_queue_delivers_each_reply_once() {
    let mut q = NodeQueue::new();
    let id = q.get_next_id();
    q.add_reply_info(id, 77);
    assert_eq!(q.got_reply(id), Some(77));
    assert_eq!(q.got_reply(id), None);
}

#[test]
fn node_queue_remove_frees_the_slot() {
    let mut q = NodeQueue::new();
    q.add_reply_info(5, 11);
    q.remove(5);
    assert_eq!(q.got_reply(5), None);
}

#[test]
fn queue_roundtrip_tokens_and_delivery() {
    // the first query to a peer is sent under token 0x0001
    let mut q = QueryQueue::new(1000);
    let peer: u64 = 42;
    let id = q.get_next_id(peer);
    assert_eq!(id, 1);
    let t = token_bytes(id);
    assert_eq!(t, vec![0x00, 0x01]);

    let msg: Message<()> = Message::Q(Query::Ping(PingQuery {
        id: DhtId(*b"abcdefghij0123456789"),
    }));
    let bytes = encode_message(&msg, &t);
    assert!(contains(&bytes, b"1:t2:\x00\x01"));

    q.add_reply_info(peer, id, 900);
    assert_eq!(q.got_reply(peer, id), Some(900));
    // the slot is freed on delivery
    assert_eq!(q.got_reply(peer, id), None);

    // a second query gets token 0x0002
    let id2 = q.get_next_id(peer);
    assert_eq!(id2, 2);
    assert_eq!(token_bytes(id2), vec![0x00, 0x02]);

    // an expired query frees its slot without delivery
    q.add_reply_info(peer, id2, 901);
    q.query_expired(peer, id2);
    assert_eq!(q.got_reply(peer, id2), None);
}

#[test]
fn replies_route_only_by_peer_and_token() {
    let mut q = QueryQueue::new(1000);
    let a: u64 = 1;
    let b: u64 = 2;
    let ta = q.get_next_id(a);
    let tb = q.get_next_id(b);
    q.add_reply_info(a, ta, 100);
    q.add_reply_info(b, tb, 200);
    // a reply from the wrong peer or under the wrong token reaches no waiter
    assert_eq!(q.got_reply(b, 999), None);
    assert_eq!(q.got_reply(a, tb.wrapping_add(1)), None);
    // and the registered waiters are still intact and correctly keyed
    assert_eq!(q.got_reply(a, ta), Some(100));
    assert_eq!(q.got_reply(b, tb), Some(200));
}

#[test]
fn colliding_token_overwrites_the_old_waiter() {
    let mut q = QueryQueue::new(1000);
    let peer: u64 = 7;
    q.add_reply_info(peer, 3, 500);
    q.add_reply_info(peer, 3, 501);
    assert_eq!(q.got_reply(peer, 3), Some(501));
    assert_eq!(q.got_reply(peer, 3), None);
}

#[test]
fn declare_dead_forgets_the_peer_and_resets_its_counter() {
    let mut q = QueryQueue::new(1000);
    let peer: u64 = 9;
    assert_eq!(q.get_next_id(peer), 1);
    assert_eq!(q.get_next_id(peer), 2);
    q.add_reply_info(peer, 2, 321);
    q.declare_dead(peer);
    assert_eq!(q.got_reply(peer, 2), None);
    // a revived peer counts from scratch
    assert_eq!(q.get_next_id(peer), 1);
}

#[test]
fn counter_wraps_modulo_two_to_the_sixteen() {
    let mut q = NodeQueue::new();
    for _ in 0..0xFFFF {
        q.get_next_id();
    }
    assert_eq!(q.get_next_id(), 0);
    assert_eq!(q.get_next_id(), 1);
}

#[test]
fn wire_tokens_are_big_endian_and_opaque() {
    assert_eq!(token_bytes(0x0102), vec![0x01, 0x02]);
    assert_eq!(token_id(&[0x01, 0x02]), Some(0x0102));
    assert_eq!(token_id(&[0x00, 0x01]), Some(1));
    assert_eq!(token_id(b"abc"), None);
    assert_eq!(token_id(b""), None);
    for id in [0u16, 1, 255, 256, 0xABCD, 0xFFFF] {
        assert_eq!(token_id(&token_bytes(id)), Some(id));
    }
}

#[test]
fn timeout_setting_is_kept() {
    let q = QueryQueue::new(1500);
    assert_eq!(q.timeout_ms(), 1500);
}
