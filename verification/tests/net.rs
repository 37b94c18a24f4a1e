use raft_kv::net::{decode_len, encode_frame, NetError, WireMessage, MAX_FRAME_LEN};
use raft_kv::{AppendEntries, ClientRequest, Message, Rpc};

/// Sends a payload through a frame and gives what comes out.
fn through_frame(payload: Vec<u8>) -> Vec<u8> {
    let bytes = encode_frame(payload).unwrap();
    let len = decode_len(&bytes[..4]).unwrap();
    assert_eq!(bytes.len(), 4 + len);
    bytes[4..].to_vec()
}

#[test]
fn client_frame_round_trips() {
    let message = WireMessage::ClientRequest(ClientRequest::Put {
        key: "foo".to_string(),
        value: "bar".to_string(),
    });
    let payload = match &message {
        WireMessage::ClientRequest(ClientRequest::Put { key, value }) => {
            bincode::serialize(&(1_u32, (0_u32, key, value))).unwrap()
        }
        _ => panic!("expected a put"),
    };
    let received = through_frame(payload);
    let (kind, (request, key, value)): (u32, (u32, String, String)) =
        bincode::deserialize(&received).unwrap();
    assert_eq!((kind, request), (1, 0));
    assert_eq!(WireMessage::ClientRequest(ClientRequest::Put { key, value }), message);
}

#[test]
fn peer_frame_round_trips() {
    let message = Message {
        from: 0,
        to: 1,
        rpc: Rpc::AppendEntries(AppendEntries {
            term: 1,
            leader_id: 0,
            prev_log_index: 0,
            prev_log_term: 0,
            entries: vec![],
            leader_commit: 0,
        }),
    };
    let payload = match &message.rpc {
        Rpc::AppendEntries(request) => bincode::serialize(&(
            0_u32,
            (message.from, message.to),
            2_u32,
            (request.term, request.leader_id, request.prev_log_index, request.prev_log_term),
            (Vec::<u8>::new(), request.leader_commit),
        ))
        .unwrap(),
        _ => panic!("expected entries"),
    };
    let received = through_frame(payload.clone());
    assert_eq!(received, payload);
    let (kind, (from, to), variant, fields, rest): (
        u32,
        (usize, usize),
        u32,
        (u64, usize, usize, u64),
        (Vec<u8>, usize),
    ) = bincode::deserialize(&received).unwrap();
    assert_eq!((kind, variant), (0, 2));
    assert!(rest.0.is_empty());
    let decoded = WireMessage::Peer(Message {
        from,
        to,
        rpc: Rpc::AppendEntries(AppendEntries {
            term: fields.0,
            leader_id: fields.1,
            prev_log_index: fields.2,
            prev_log_term: fields.3,
            entries: vec![],
            leader_commit: rest.1,
        }),
    });
    match &decoded {
        WireMessage::Peer(received) => assert_eq!(received.from, 0),
        _ => panic!("expected Peer message"),
    }
    assert_eq!(decoded, WireMessage::Peer(message));
}

#[test]
fn a_frame_starts_with_its_length() {
    assert_eq!(encode_frame(b"abc".to_vec()).unwrap(), b"\0\0\0\x03abc");
    assert_eq!(encode_frame(Vec::new()).unwrap(), [0, 0, 0, 0]);
    assert_eq!(decode_len(&[0, 0, 1, 2]), Ok(258));
}

#[test]
fn long_frames_are_refused() {
    assert_eq!(MAX_FRAME_LEN, 16 * 1024 * 1024);
    assert_eq!(encode_frame(vec![0; MAX_FRAME_LEN + 1]), Err(NetError::FrameTooLarge));
    assert_eq!(encode_frame(vec![0; MAX_FRAME_LEN]).unwrap().len(), MAX_FRAME_LEN + 4);
    assert_eq!(decode_len(&[1, 0, 0, 0]), Ok(MAX_FRAME_LEN));
    assert_eq!(decode_len(&[1, 0, 0, 1]), Err(NetError::FrameTooLarge));
}
