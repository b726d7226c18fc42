use duhast::bep_0042::NodeIp;
use duhast::bep_0042::gen_self_id;
use duhast::bep_0042::get_crc;
use duhast::dht::CompactNode;
use duhast::dht::CompactNodesList;
use duhast::dht::DhtId;
use duhast::dht::IdentityError;
use duhast::dht::NodeAddr;

#[test]
fn test_spec() {
    // Single test from the identity extension's reference vector.
    let d = DhtId::from_str("5fbfbff10c5d6a4ec8a88e4c6ab4c28b95eee401").unwrap();
    let ip = NodeIp::V4([124, 31, 75, 21]);

    let crc = get_crc(&ip, d.0[19]);
    assert_eq!(crc >> 11, 0x05fbfbf >> 3);
    let crc = crc.to_be_bytes();
    assert_eq!(
        [crc[0], crc[1], crc[2] & 0xF8],
        [d.0[0], d.0[1], d.0[2] & 0xF8]
    );
}

#[test]
fn generated_identity_embeds_its_checksum() {
    let ip = NodeIp::V4([124, 31, 75, 21]);
    for _ in 0..8 {
        let id = gen_self_id(&ip);
        let crc = get_crc(&ip, id.0[19]);
        let prefix = ((id.0[0] as u32) << 13) | ((id.0[1] as u32) << 5) | ((id.0[2] as u32) >> 3);
        assert_eq!(prefix, crc >> 11);
    }
}

#[test]
fn generated_v6_identity_embeds_its_checksum() {
    let ip = NodeIp::V6([0x20, 0x01, 0x0d, 0xb8, 0, 0, 0, 0, 0, 0, 0, 0, 0, 0, 0, 1]);
    let id = gen_self_id(&ip);
    let crc = get_crc(&ip, id.0[19]);
    let prefix = ((id.0[0] as u32) << 13) | ((id.0[1] as u32) << 5) | ((id.0[2] as u32) >> 3);
    assert_eq!(prefix, crc >> 11);
}

#[test]
fn hex_round_trip_lowercase_and_uppercase() {
    let id = DhtId(*b"\x00\x01\xfe\xffabcdefghij\x7f\x80\x9a\xbc\xde\xf0");
    let hex = id.to_hex();
    assert_eq!(hex.len(), 40);
    assert_eq!(DhtId::from_str(&hex).unwrap(), id);
    assert_eq!(DhtId::from_str(&hex.to_uppercase()).unwrap(), id);
}

#[test]
fn hex_rendering_is_lowercase_pairs() {
    let id = DhtId([0xab; 20]);
    let mut expected = String::new();
    for _ in 0..20 {
        expected.push_str("ab");
    }
    assert_eq!(id.to_hex(), expected);
}

#[test]
fn malformed_hex_is_rejected() {
    assert_eq!(
        DhtId::from_str("5fbfbf").unwrap_err(),
        IdentityError::Malformed
    );
    assert_eq!(
        DhtId::from_str("zfbfbff10c5d6a4ec8a88e4c6ab4c28b95eee401").unwrap_err(),
        IdentityError::Malformed
    );
    assert_eq!(
        DhtId::from_str("5fbfbff10c5d6a4ec8a88e4c6ab4c28b95eee4011").unwrap_err(),
        IdentityError::Malformed
    );
}

#[test]
fn compact_nodes_list_length_rule() {
    assert!(CompactNodesList::from_bytes(vec![0u8; 0]).is_ok());
    assert!(CompactNodesList::from_bytes(vec![0u8; 26]).is_ok());
    assert!(CompactNodesList::from_bytes(vec![0u8; 52]).is_ok());
    assert_eq!(
        CompactNodesList::from_bytes(vec![0u8; 27]).unwrap_err(),
        duhast::dht::CodecError::BadLength
    );
    assert_eq!(
        CompactNodesList::from_bytes(vec![0u8; 25]).unwrap_err(),
        duhast::dht::CodecError::BadLength
    );
}

#[test]
fn compact_nodes_list_unpacks_every_node() {
    let mut buf = Vec::new();
    buf.extend_from_slice(b"abcdefghij0123456789");
    buf.extend_from_slice(&[10, 0, 0, 1]);
    buf.extend_from_slice(&[0x1a, 0xe1]);
    buf.extend_from_slice(b"mnopqrstuvwxyz123456");
    buf.extend_from_slice(&[192, 168, 0, 26]);
    buf.extend_from_slice(&[0x1f, 0x90]);
    let list = CompactNodesList::from_bytes(buf).unwrap();
    assert_eq!(list.node_count(), 2);
    let nodes = list.nodes();
    assert_eq!(nodes[0].id, DhtId(*b"abcdefghij0123456789"));
    assert_eq!(nodes[0].ip, [10, 0, 0, 1]);
    // ports inside compact nodes are read big-endian, as the wire
    // format prescribes for every port on the wire
    assert_eq!(nodes[0].port, 0x1ae1);
    assert_eq!(nodes[1].id, DhtId(*b"mnopqrstuvwxyz123456"));
    assert_eq!(nodes[1].ip, [192, 168, 0, 26]);
    assert_eq!(nodes[1].port, 8080);
}

#[test]
fn compact_node_unpack_reads_one_blob() {
    let mut buf = Vec::new();
    buf.extend_from_slice(b"abcdefghij0123456789");
    buf.extend_from_slice(&[127, 0, 0, 1]);
    buf.extend_from_slice(&[0x00, 0x50]);
    let node = CompactNode::unpack(&buf);
    assert_eq!(node.id, DhtId(*b"abcdefghij0123456789"));
    assert_eq!(node.ip, [127, 0, 0, 1]);
    assert_eq!(node.port, 80);
}

#[test]
fn node_addr_port_is_big_endian() {
    let addr = NodeAddr::new([10, 1, 2, 3], 0x1ae1);
    assert_eq!(addr.0, [10, 1, 2, 3, 0x1a, 0xe1]);
    assert_eq!(addr.ip(), [10, 1, 2, 3]);
    assert_eq!(addr.port(), 0x1ae1);
    let raw = NodeAddr(*b"axje.u");
    assert_eq!(raw.port(), (b'.' as u16) * 256 + (b'u' as u16));
}
