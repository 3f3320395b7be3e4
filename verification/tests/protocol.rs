use bittorrent_core::bencode::BencodeValue;
use bittorrent_core::parsing::Torrent;
use bittorrent_core::peer::assemble_pieces;
use bittorrent_core::peer::piece_byte_length;
use bittorrent_core::peer::retry_peer;
use bittorrent_core::peer::PieceDownloader;
use bittorrent_core::peer::Tracker;
use bittorrent_core::types::PeerMessage;
use bittorrent_core::types::PeerMessageType;
use bittorrent_core::types::TorrentError;

fn msg(id: PeerMessageType, payload: Vec<u8>) -> PeerMessage {
    PeerMessage { length: (payload.len() + 1) as u32, id, payload }
}

#[test]
fn message_type_wire_mapping() {
    assert_eq!(PeerMessageType::from_byte(1), Some(PeerMessageType::Unchoke));
    assert_eq!(PeerMessageType::from_byte(2), Some(PeerMessageType::Interested));
    assert_eq!(PeerMessageType::from_byte(5), Some(PeerMessageType::Bitfield));
    assert_eq!(PeerMessageType::from_byte(6), Some(PeerMessageType::Request));
    assert_eq!(PeerMessageType::from_byte(7), Some(PeerMessageType::Piece));
    assert_eq!(PeerMessageType::from_byte(3), None);
    assert_eq!(PeerMessageType::Piece.to_byte(), 7);
}

#[test]
fn message_to_bytes_frames_length_id_payload() {
    let m = msg(PeerMessageType::Interested, vec![]);
    assert_eq!(m.to_bytes(), vec![0, 0, 0, 1, 2]);
    let m = msg(PeerMessageType::Bitfield, vec![0xff, 0x01]);
    assert_eq!(m.to_bytes(), vec![0, 0, 0, 3, 5, 0xff, 0x01]);
}

#[test]
fn message_from_frame_splits_id_and_payload() {
    let body = vec![5u8, 0xaa, 0xbb];
    let m = PeerMessage::from_frame(3, &body).unwrap();
    assert_eq!(m.length, 3);
    assert_eq!(m.id, PeerMessageType::Bitfield);
    assert_eq!(m.payload, vec![0xaa, 0xbb]);
}

#[test]
fn message_from_frame_rejects_unknown_id() {
    let body = vec![9u8, 1, 2];
    match PeerMessage::from_frame(3, &body) {
        Err(TorrentError::ProtocolSequence(_)) => {}
        other => panic!("expected a protocol-sequence error, got {:?}", other),
    }
}

#[test]
fn message_from_frame_rejects_empty_frame() {
    match PeerMessage::from_frame(0, &Vec::new()) {
        Err(TorrentError::Format(_)) => {}
        other => panic!("expected a format error, got {:?}", other),
    }
}

#[test]
fn piece_lengths_split_the_file() {
    assert_eq!(piece_byte_length(12, 5, 0), 5);
    assert_eq!(piece_byte_length(12, 5, 1), 5);
    assert_eq!(piece_byte_length(12, 5, 2), 2);
}

#[test]
fn request_declared_length_counts_id_byte() {
    let m = bittorrent_core::peer::build_request(1, 16384, 3616);
    assert_eq!(m.length, 13);
    assert_eq!(m.payload.len(), 12);
    assert_eq!(m.length as usize, m.payload.len() + 1);
    assert_eq!(m.id, PeerMessageType::Request);
    assert_eq!(
        m.payload,
        vec![0, 0, 0, 1, 0, 0, 0x40, 0, 0, 0, 0x0e, 0x20]
    );
}

#[test]
fn downloader_splits_piece_into_blocks() {
    // piece length 20000 -> blocks of 16384 and 3616
    let mut d = PieceDownloader::new(0, 20000);
    let act = d
        .on_message(&msg(PeerMessageType::Bitfield, vec![0xff]))
        .unwrap()
        .unwrap();
    assert_eq!(act.id, PeerMessageType::Interested);
    assert_eq!(act.length, 1);
    let req1 = d
        .on_message(&msg(PeerMessageType::Unchoke, vec![]))
        .unwrap()
        .unwrap();
    assert_eq!(&req1.payload[8..12], &[0, 0, 0x40, 0]); // 16384
    let mut p1 = vec![0u8; 8];
    p1.extend(vec![7u8; 16384]);
    let req2 = d
        .on_message(&msg(PeerMessageType::Piece, p1))
        .unwrap()
        .unwrap();
    assert_eq!(&req2.payload[4..8], &[0, 0, 0x40, 0]); // offset 16384
    assert_eq!(&req2.payload[8..12], &[0, 0, 0x0e, 0x20]); // 3616
    let mut p2 = vec![0, 0, 0, 0, 0, 0, 0x40, 0];
    p2.extend(vec![9u8; 3616]);
    let done = d.on_message(&msg(PeerMessageType::Piece, p2)).unwrap();
    assert!(done.is_none());
    assert!(d.is_complete());
    let data = d.into_data();
    assert_eq!(data.len(), 20000);
    assert!(data[..16384].iter().all(|&b| b == 7));
    assert!(data[16384..].iter().all(|&b| b == 9));
}

#[test]
fn piece_payload_header_is_stripped() {
    let mut d = PieceDownloader::new(0, 5);
    d.on_message(&msg(PeerMessageType::Bitfield, vec![0xff]))
        .unwrap();
    d.on_message(&msg(PeerMessageType::Unchoke, vec![])).unwrap();
    let mut payload = vec![0u8; 8];
    payload.extend(vec![1, 2, 3, 4, 5]);
    let done = d
        .on_message(&msg(PeerMessageType::Piece, payload))
        .unwrap();
    assert!(done.is_none());
    assert_eq!(d.into_data(), vec![1, 2, 3, 4, 5]);
}

#[test]
fn downloader_rejects_out_of_sequence_messages() {
    let mut d = PieceDownloader::new(0, 5);
    match d.on_message(&msg(PeerMessageType::Unchoke, vec![])) {
        Err(TorrentError::ProtocolSequence(_)) => {}
        other => panic!("expected a protocol-sequence error, got {:?}", other),
    }
    d.on_message(&msg(PeerMessageType::Bitfield, vec![0xff]))
        .unwrap();
    assert!(d.on_message(&msg(PeerMessageType::Piece, vec![0u8; 13])).is_err());
}

#[test]
fn downloader_rejects_wrong_block_size() {
    let mut d = PieceDownloader::new(0, 5);
    d.on_message(&msg(PeerMessageType::Bitfield, vec![0xff]))
        .unwrap();
    d.on_message(&msg(PeerMessageType::Unchoke, vec![])).unwrap();
    let mut payload = vec![0u8; 8];
    payload.extend(vec![1, 2, 3]); // 3 bytes instead of 5
    assert!(d.on_message(&msg(PeerMessageType::Piece, payload)).is_err());
}

#[test]
fn pieces_join_in_index_order_not_completion_order() {
    // tasks finish out of order; the joined output still follows the index
    let mut results: Vec<Vec<u8>> = vec![Vec::new(), Vec::new(), Vec::new()];
    results[2] = vec![7, 8];
    results[0] = vec![1, 2, 3];
    results[1] = vec![4, 5, 6];
    let joined = assemble_pieces(&results);
    assert_eq!(joined, vec![1, 2, 3, 4, 5, 6, 7, 8]);
}

#[test]
fn retry_rotates_from_piece_index_and_is_bounded() {
    assert_eq!(retry_peer(4, 0, 3, 10), Some(1));
    assert_eq!(retry_peer(4, 1, 3, 10), Some(2));
    assert_eq!(retry_peer(4, 2, 3, 10), Some(0));
    assert_eq!(retry_peer(4, 10, 3, 10), None);
}

#[test]
fn handshake_is_68_bytes_with_protocol_name_and_hash() {
    let pieces = vec![0x11u8; 20];
    let v = BencodeValue::Dictionary(vec![
        (
            b"announce".to_vec(),
            BencodeValue::ByteString(b"http://t/a".to_vec()),
        ),
        (
            b"info".to_vec(),
            BencodeValue::Dictionary(vec![
                (b"length".to_vec(), BencodeValue::Integer(4)),
                (b"name".to_vec(), BencodeValue::ByteString(b"x".to_vec())),
                (b"piece length".to_vec(), BencodeValue::Integer(4)),
                (b"pieces".to_vec(), BencodeValue::ByteString(pieces)),
            ]),
        ),
    ]);
    let t = Torrent::new(&v).unwrap();
    let hash = t.get_info_hash();
    let tracker = Tracker::new(t, Vec::new());
    let hs = tracker.create_handshake();
    assert_eq!(hs.len(), 68);
    assert_eq!(hs[0], 19);
    assert_eq!(&hs[1..20], b"BitTorrent protocol");
    assert_eq!(&hs[20..28], &[0u8; 8]);
    assert_eq!(&hs[28..48], &hash[..]);
    assert_eq!(&hs[48..68], &[0u8; 20]);
}
