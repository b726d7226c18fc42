use duhast::dht::AnnouncePeerQuery;
use duhast::dht::AnnouncePeerResponse;
use duhast::dht::CodecError;
use duhast::dht::CompactNodesList;
use duhast::dht::Config;
use duhast::dht::DhtId;
use duhast::dht::FindNodeQuery;
use duhast::dht::FindNodeResponse;
use duhast::dht::GetPeersQuery;
use duhast::dht::GetPeersResponse;
use duhast::dht::IncomingMessage;
use duhast::dht::Message;
use duhast::dht::NodeAddr;
use duhast::dht::PingQuery;
use duhast::dht::PingResponse;
use duhast::dht::Query;
use duhast::dht::decode_config;
use duhast::dht::decode_envelope;
use duhast::dht::decode_message;
use duhast::dht::encode_config;
use duhast::dht::encode_message;

#[test]
fn test_unpack_incoming_msg() {
    let data: &[u8] = b"d1:ad2:id20:\xFFbcdefghij0123456789e1:q4:ping1:y1:q1:t2:\xFF\xFFe";
    let ping = decode_envelope(data).unwrap();
    assert_eq!(
        ping,
        IncomingMessage {
            y: b'q',
            t: b"\xFF\xFF".to_vec(),
        }
    );
}

#[test]
fn test_unpack_ping_query() {
    let data: &[u8] = b"d1:ad2:id20:\xFFbcdefghij0123456789e1:q4:ping1:t2:aa1:y1:q1:t2:\xFF\xFFe";
    let (ping, _t) = decode_message::<()>(data).unwrap();
    assert_eq!(
        ping,
        Message::Q(Query::Ping(PingQuery {
            id: DhtId(*b"\xFFbcdefghij0123456789")
        }))
    );
}

#[test]
fn test_unpack_find_node_query() {
    let data: &[u8] =
        b"d1:ad2:id20:abcdefghij01234567896:target20:mnopqrstuvwxyz123456e1:q9:find_node1:t2:aa1:y1:qe";
    let (find_node, _t) = decode_message::<()>(data).unwrap();
    assert_eq!(
        find_node,
        Message::Q(Query::FindNode(FindNodeQuery {
            id: DhtId(*b"abcdefghij0123456789"),
            target: DhtId(*b"mnopqrstuvwxyz123456"),
        }))
    );
}

#[test]
fn test_unpack_get_peers_query() {
    let data: &[u8] =
        b"d1:ad2:id20:abcdefghij01234567899:info_hash20:mnopqrstuvwxyz123456e1:q9:get_peers1:t2:aa1:y1:qe";
    let (get_peers, _t) = decode_message::<()>(data).unwrap();
    assert_eq!(
        get_peers,
        Message::Q(Query::GetPeers(GetPeersQuery {
            id: DhtId(*b"abcdefghij0123456789"),
            info_hash: DhtId(*b"mnopqrstuvwxyz123456"),
        }))
    );
}

#[test]
fn test_unpack_announce_peer_query() {
    let data: &[u8] = b"d1:ad2:id20:abcdefghij012345678912:implied_porti1e9:info_hash20:mnopqrstuvwxyz1234564:porti6881e5:token8:aoeusnthe1:q13:announce_peer1:t2:aa1:y1:qe";
    let (announce_peer, _t) = decode_message::<()>(data).unwrap();
    assert_eq!(
        announce_peer,
        Message::Q(Query::AnnouncePeer(AnnouncePeerQuery {
            id: DhtId(*b"abcdefghij0123456789"),
            implied_port: 1,
            info_hash: DhtId(*b"mnopqrstuvwxyz123456"),
            port: 6881,
            token: b"aoeusnth".to_vec(),
        }))
    );
}

#[test]
fn test_unpack_ping_response() {
    let data: &[u8] = b"d1:rd2:id20:mnopqrstuvwxyz123456e1:t2:aa1:y1:re";
    let (ping, _t) = decode_message::<PingResponse>(data).unwrap();
    assert_eq!(
        ping,
        Message::R {
            r: PingResponse {
                id: DhtId(*b"mnopqrstuvwxyz123456"),
            }
        }
    );
}

#[test]
fn test_unpack_find_node_response() {
    let data: &[u8] =
        b"d1:rd2:id20:0123456789abcdefghij5:nodes26:01234567890123456789abcdefe1:t2:aa1:y1:re";
    let (find_node, _t) = decode_message::<FindNodeResponse>(data).unwrap();
    assert_eq!(
        find_node,
        Message::R {
            r: FindNodeResponse {
                id: DhtId(*b"0123456789abcdefghij"),
                nodes: CompactNodesList(b"01234567890123456789abcdef".to_vec()),
            }
        }
    );
}

#[test]
fn test_unpack_get_peers_response_values() {
    let data: &[u8] =
        b"d1:rd2:id20:abcdefghij01234567895:token8:aoeusnth6:valuesl6:axje.u6:idhtnmee1:t2:aa1:y1:re";
    let (get_peers, _t) = decode_message::<GetPeersResponse>(data).unwrap();
    assert_eq!(
        get_peers,
        Message::R {
            r: GetPeersResponse {
                id: DhtId(*b"abcdefghij0123456789"),
                token: b"aoeusnth".to_vec(),
                values: Some(vec![NodeAddr(*b"axje.u"), NodeAddr(*b"idhtnm")]),
                nodes: None,
            }
        }
    );
}

#[test]
fn test_unpack_get_peers_response_nodes() {
    let data: &[u8] =
        b"d1:rd2:id20:abcdefghij01234567895:token8:aoeusnth5:nodes26:01234567890123456789012345e1:t2:aa1:y1:re";
    let (get_peers, _t) = decode_message::<GetPeersResponse>(data).unwrap();
    assert_eq!(
        get_peers,
        Message::R {
            r: GetPeersResponse {
                id: DhtId(*b"abcdefghij0123456789"),
                token: b"aoeusnth".to_vec(),
                values: None,
                nodes: Some(CompactNodesList(b"01234567890123456789012345".to_vec())),
            }
        }
    );
}

#[test]
fn test_unpack_announce_peer_response() {
    let data: &[u8] = b"d1:rd2:id20:mnopqrstuvwxyz123456e1:t2:aa1:y1:re";
    let (announce_peers, _t) = decode_message::<AnnouncePeerResponse>(data).unwrap();
    assert_eq!(
        announce_peers,
        Message::R {
            r: AnnouncePeerResponse {
                id: DhtId(*b"mnopqrstuvwxyz123456"),
            }
        }
    );
}

#[test]
fn test_unpack_error_response() {
    let data: &[u8] = b"d1:eli201e23:A Generic Error Ocurrede1:t2:aa1:y1:ee";
    let (err, _t) = decode_message::<PingResponse>(data).unwrap();
    assert!(matches!(err, Message::E { e: (201, _) }));
}

#[test]
fn error_response_text_and_token() {
    let data: &[u8] = b"d1:eli201e23:A Generic Error Ocurrede1:t2:aa1:y1:ee";
    let (err, t) = decode_message::<PingResponse>(data).unwrap();
    assert_eq!(t, b"aa".to_vec());
    assert_eq!(
        err,
        Message::E {
            e: (201, "A Generic Error Ocurred".to_string())
        }
    );
}

#[test]
fn decode_returns_transaction_token() {
    let data: &[u8] =
        b"d1:ad2:id20:abcdefghij01234567896:target20:mnopqrstuvwxyz123456e1:q9:find_node1:t2:aa1:y1:qe";
    let (_msg, t) = decode_message::<()>(data).unwrap();
    assert_eq!(t, b"aa".to_vec());
}

#[test]
fn encode_ping_query_canonical_bytes() {
    let msg: Message<()> = Message::Q(Query::Ping(PingQuery {
        id: DhtId(*b"abcdefghij0123456789"),
    }));
    let bytes = encode_message(&msg, b"aa");
    assert_eq!(
        bytes,
        b"d1:ad2:id20:abcdefghij0123456789e1:q4:ping1:t2:aa1:y1:qe".to_vec()
    );
}

#[test]
fn round_trip_every_query_kind() {
    let id = DhtId(*b"abcdefghij0123456789");
    let other = DhtId(*b"mnopqrstuvwxyz123456");
    let queries = vec![
        Query::Ping(PingQuery { id: id.clone() }),
        Query::FindNode(FindNodeQuery {
            id: id.clone(),
            target: other.clone(),
        }),
        Query::GetPeers(GetPeersQuery {
            id: id.clone(),
            info_hash: other.clone(),
        }),
        Query::AnnouncePeer(AnnouncePeerQuery {
            id: id.clone(),
            info_hash: other.clone(),
            token: b"aoeusnth".to_vec(),
            port: 6881,
            implied_port: 1,
        }),
    ];
    for q in queries {
        let msg: Message<()> = Message::Q(q);
        let bytes = encode_message(&msg, b"xy");
        let (back, t) = decode_message::<()>(&bytes).unwrap();
        assert_eq!(back, msg);
        assert_eq!(t, b"xy".to_vec());
    }
}

#[test]
fn round_trip_every_response_kind() {
    let id = DhtId(*b"abcdefghij0123456789");
    let ping: Message<PingResponse> = Message::R {
        r: PingResponse { id: id.clone() },
    };
    let bytes = encode_message(&ping, b"t1");
    assert_eq!(decode_message::<PingResponse>(&bytes).unwrap().0, ping);

    let fnr: Message<FindNodeResponse> = Message::R {
        r: FindNodeResponse {
            id: id.clone(),
            nodes: CompactNodesList(b"01234567890123456789abcdef".to_vec()),
        },
    };
    let bytes = encode_message(&fnr, b"t2");
    assert_eq!(decode_message::<FindNodeResponse>(&bytes).unwrap().0, fnr);

    let apr: Message<AnnouncePeerResponse> = Message::R {
        r: AnnouncePeerResponse { id: id.clone() },
    };
    let bytes = encode_message(&apr, b"t3");
    assert_eq!(
        decode_message::<AnnouncePeerResponse>(&bytes).unwrap().0,
        apr
    );

    let err: Message<PingResponse> = Message::E {
        e: (203, "Protocol Error".to_string()),
    };
    let bytes = encode_message(&err, b"t4");
    assert_eq!(decode_message::<PingResponse>(&bytes).unwrap().0, err);
}

#[test]
fn round_trip_get_peers_response_variants() {
    let id = DhtId(*b"abcdefghij0123456789");
    let variants = vec![
        (None, None),
        (Some(vec![NodeAddr(*b"axje.u"), NodeAddr(*b"idhtnm")]), None),
        (
            None,
            Some(CompactNodesList(b"01234567890123456789012345".to_vec())),
        ),
        (
            Some(vec![NodeAddr(*b"axje.u")]),
            Some(CompactNodesList(b"01234567890123456789012345".to_vec())),
        ),
    ];
    for (values, nodes) in variants {
        let msg: Message<GetPeersResponse> = Message::R {
            r: GetPeersResponse {
                id: id.clone(),
                token: b"tok".to_vec(),
                values,
                nodes,
            },
        };
        let bytes = encode_message(&msg, b"zz");
        let (back, t) = decode_message::<GetPeersResponse>(&bytes).unwrap();
        assert_eq!(back, msg);
        assert_eq!(t, b"zz".to_vec());
    }
}

#[test]
fn envelope_round_trip_of_encoded_messages() {
    let msg: Message<()> = Message::Q(Query::Ping(PingQuery {
        id: DhtId(*b"abcdefghij0123456789"),
    }));
    let bytes = encode_message(&msg, b"ab");
    let env = decode_envelope(&bytes).unwrap();
    assert_eq!(env.y, b'q');
    assert_eq!(env.t, b"ab".to_vec());

    let resp: Message<PingResponse> = Message::R {
        r: PingResponse {
            id: DhtId(*b"abcdefghij0123456789"),
        },
    };
    let bytes = encode_message(&resp, b"cd");
    let env = decode_envelope(&bytes).unwrap();
    assert_eq!(env.y, b'r');
    assert_eq!(env.t, b"cd".to_vec());

    let err: Message<PingResponse> = Message::E {
        e: (202, "Server Error".to_string()),
    };
    let bytes = encode_message(&err, b"ef");
    let env = decode_envelope(&bytes).unwrap();
    assert_eq!(env.y, b'e');
    assert_eq!(env.t, b"ef".to_vec());
}

#[test]
fn unknown_kind_is_rejected() {
    let data: &[u8] = b"d1:t2:aa1:y1:xe";
    assert_eq!(decode_envelope(data).unwrap_err(), CodecError::UnknownKind);
    assert_eq!(
        decode_message::<()>(data).unwrap_err(),
        CodecError::UnknownKind
    );
}

#[test]
fn unknown_query_is_rejected() {
    let data: &[u8] = b"d1:ad2:id20:abcdefghij0123456789e1:q4:pong1:t2:aa1:y1:qe";
    assert_eq!(
        decode_message::<()>(data).unwrap_err(),
        CodecError::UnknownQuery
    );
}

#[test]
fn short_id_is_bad_length() {
    let data: &[u8] = b"d1:ad2:id19:abcdefghij012345678e1:q4:ping1:t2:aa1:y1:qe";
    assert_eq!(
        decode_message::<()>(data).unwrap_err(),
        CodecError::BadLength
    );
}

#[test]
fn ragged_nodes_is_bad_length() {
    let data: &[u8] = b"d1:rd2:id20:abcdefghij01234567895:nodes25:0123456789012345678901234e1:t2:aa1:y1:re";
    assert_eq!(
        decode_message::<FindNodeResponse>(data).unwrap_err(),
        CodecError::BadLength
    );
}

#[test]
fn truncated_buffer_is_malformed() {
    let data: &[u8] = b"d1:ad2:id20:abcdefghij0123456789e1:q4:ping";
    assert_eq!(
        decode_message::<()>(data).unwrap_err(),
        CodecError::Malformed
    );
    assert_eq!(decode_envelope(data).unwrap_err(), CodecError::Malformed);
}

#[test]
fn unknown_dictionary_keys_are_ignored() {
    // the `a` dictionary carries an extra `xtr` entry (a negative
    // integer), and the envelope an extra `pad` entry
    let data: &[u8] =
        b"d1:ad2:id20:abcdefghij01234567893:xtri-42ee3:pad3:abc1:q4:ping1:t2:aa1:y1:qe";
    let (msg, _t) = decode_message::<()>(data).unwrap();
    assert_eq!(
        msg,
        Message::Q(Query::Ping(PingQuery {
            id: DhtId(*b"abcdefghij0123456789")
        }))
    );
}

#[test]
fn config_round_trip() {
    let cfg = Config {
        dht_id: DhtId(*b"abcdefghij0123456789"),
        peers: vec!["10.0.0.1:6881".to_string(), "10.0.0.2:6881".to_string()],
    };
    let bytes = encode_config(&cfg);
    assert_eq!(
        bytes,
        b"d6:dht_id20:abcdefghij01234567895:peersl13:10.0.0.1:688113:10.0.0.2:6881ee".to_vec()
    );
    let back = decode_config(&bytes).unwrap();
    assert_eq!(back, cfg);
}

#[test]
fn config_rejects_short_id() {
    let data: &[u8] = b"d6:dht_id3:abc5:peerslee";
    assert_eq!(decode_config(data).unwrap_err(), CodecError::BadLength);
}

#[test]
fn two_byte_discriminator_is_unknown_kind() {
    let data: &[u8] = b"d1:t2:aa1:y2:qqe";
    assert_eq!(decode_envelope(data).unwrap_err(), CodecError::UnknownKind);
}

#[test]
fn unit_response_payload_round_trips() {
    let msg: Message<()> = Message::R { r: () };
    let bytes = encode_message(&msg, b"aa");
    assert_eq!(bytes, b"d1:rde1:t2:aa1:y1:re".to_vec());
    let (back, t) = decode_message::<()>(&bytes).unwrap();
    assert_eq!(back, msg);
    assert_eq!(t, b"aa".to_vec());
}

#[test]
fn get_peers_response_without_token_is_malformed() {
    let data: &[u8] = b"d1:rd2:id20:abcdefghij0123456789e1:t2:aa1:y1:re";
    assert_eq!(
        decode_message::<GetPeersResponse>(data).unwrap_err(),
        CodecError::Malformed
    );
}

#[test]
fn ragged_value_in_values_list_is_bad_length() {
    let data: &[u8] =
        b"d1:rd2:id20:abcdefghij01234567895:token8:aoeusnth6:valuesl5:axje.ee1:t2:aa1:y1:re";
    assert_eq!(
        decode_message::<GetPeersResponse>(data).unwrap_err(),
        CodecError::BadLength
    );
}

#[test]
fn duplicate_keys_first_occurrence_wins() {
    let data: &[u8] =
        b"d1:ad2:id20:\xFFbcdefghij0123456789e1:q4:ping1:t2:aa1:y1:q1:t2:\xFF\xFFe";
    let (_msg, t) = decode_message::<()>(data).unwrap();
    assert_eq!(t, b"aa".to_vec());
}
