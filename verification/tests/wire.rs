use bittorrent::metainfo::{Torrent, TorrentInfo};
use bittorrent::wire::{
    client_handshake, frame_length, interested_frame, read_peer_id, request_frame, HandShake,
    PeerMessage, ProtocolError,
};

fn handshake_hex() -> &'static str {
    "13426974546f7272656e742070726f746f636f6c0000000000000000f519c3a24144a8649e58efc3e359b51a386054d60000010102020303040405050606070708080909"
}

fn hex(bytes: &[u8]) -> String {
    bytes.iter().map(|b| format!("{:02x}", b)).collect()
}

#[test]
fn serialises_a_handshake() {
    let handshake = HandShake {
        length: [19],
        protocol: *b"BitTorrent protocol",
        reserved: [0; 8],
        info_hash: [0xaa; 20],
        peer_id: [0xbb; 20],
    };
    let bytes = handshake.as_bytes();
    assert_eq!(bytes.len(), 68);
    assert_eq!(bytes[0], 19);
    assert_eq!(&bytes[1..20], b"BitTorrent protocol");
    assert_eq!(&bytes[20..28], &[0u8; 8]);
    assert_eq!(&bytes[28..48], &[0xaau8; 20]);
    assert_eq!(&bytes[48..68], &[0xbbu8; 20]);
}

#[test]
fn serialises_the_fields_as_they_are() {
    let handshake = HandShake {
        length: [1],
        protocol: [2; 19],
        reserved: [3; 8],
        info_hash: [4; 20],
        peer_id: [5; 20],
    };
    let mut expected = vec![1u8];
    expected.extend_from_slice(&[2; 19]);
    expected.extend_from_slice(&[3; 8]);
    expected.extend_from_slice(&[4; 20]);
    expected.extend_from_slice(&[5; 20]);
    assert_eq!(handshake.as_bytes(), expected);
}

#[test]
fn makes_a_handshake() {
    let handshake = HandShake::new([7; 20], [9; 20]);
    assert_eq!(handshake.length, [19]);
    assert_eq!(&handshake.protocol, b"BitTorrent protocol");
    assert_eq!(handshake.reserved, [0; 8]);
    assert_eq!(handshake.info_hash, [7; 20]);
    assert_eq!(handshake.peer_id, [9; 20]);
}

#[test]
fn makes_this_clients_handshake() {
    let torrent = Torrent::new(
        "http://tracker.example.com:6969/announce".to_string(),
        TorrentInfo::new(92063, "sample.txt".to_string(), 32768, (0..60).collect()).unwrap(),
    );
    let handshake = client_handshake(&torrent);
    assert_eq!(hex(&handshake.as_bytes()), handshake_hex());
    assert_eq!(handshake.info_hash.to_vec(), torrent.info().get_sha1_hash());
}

#[test]
fn reads_the_peer_id_of_a_reply() {
    let mut reply = vec![0u8; 48];
    reply.extend_from_slice(&[
        0x00, 0x01, 0x0a, 0x10, 0x7f, 0x80, 0xab, 0xcd, 0xef, 0xff, 0x2d, 0x52, 0x4e, 0x30, 0x2e,
        0x30, 0x2e, 0x30, 0x2d, 0x99,
    ]);
    assert_eq!(
        read_peer_id(&reply),
        Ok("00010a107f80abcdefff2d524e302e302e302d99".to_string())
    );
}

#[test]
fn refuses_a_reply_that_is_not_68_bytes_long() {
    assert_eq!(read_peer_id(&[0u8; 67]), Err(ProtocolError::ShortHandshake));
    assert_eq!(read_peer_id(&[0u8; 69]), Err(ProtocolError::ShortHandshake));
    assert_eq!(read_peer_id(&[]), Err(ProtocolError::ShortHandshake));
}

#[test]
fn reads_the_messages_it_knows() {
    assert_eq!(PeerMessage::parse(&[5, 0xff, 0x01]), Ok(PeerMessage::BitField));
    assert_eq!(PeerMessage::parse(&[5]), Ok(PeerMessage::BitField));
    assert_eq!(PeerMessage::parse(&[1]), Ok(PeerMessage::Unchoke));
    assert_eq!(
        PeerMessage::parse(&[7, 0, 0, 0, 3, 0, 0, 0x40, 0, 0xde, 0xad, 0xbe, 0xef]),
        Ok(PeerMessage::Piece { index: 3, begin: 16384, block: vec![0xde, 0xad, 0xbe, 0xef] })
    );
    assert_eq!(
        PeerMessage::parse(&[7, 0xff, 0xff, 0xff, 0xff, 0x01, 0x02, 0x03, 0x04]),
        Ok(PeerMessage::Piece { index: u32::MAX, begin: 0x01020304, block: vec![] })
    );
}

#[test]
fn an_unknown_message_id_is_an_error() {
    for id in 0..=255u8 {
        if id == 1 || id == 5 || id == 7 {
            continue;
        }
        assert_eq!(PeerMessage::parse(&[id]), Err(ProtocolError::UnexpectedMessage));
        assert_eq!(
            PeerMessage::parse(&[id, 0, 0, 0, 0, 0, 0, 0, 0, 9]),
            Err(ProtocolError::UnexpectedMessage)
        );
    }
}

#[test]
fn a_message_without_an_id_is_an_error() {
    assert_eq!(PeerMessage::parse(&[]), Err(ProtocolError::EmptyMessage));
}

#[test]
fn a_piece_that_ends_early_is_an_error() {
    assert_eq!(PeerMessage::parse(&[7]), Err(ProtocolError::TruncatedPiece));
    assert_eq!(
        PeerMessage::parse(&[7, 0, 0, 0, 0, 0, 0, 0]),
        Err(ProtocolError::TruncatedPiece)
    );
}

#[test]
fn frames_interested() {
    assert_eq!(interested_frame(), vec![0, 0, 0, 1, 2]);
}

#[test]
fn frames_a_request() {
    assert_eq!(
        request_frame(1, 16384, 3616),
        vec![0, 0, 0, 13, 6, 0, 0, 0, 1, 0, 0, 0x40, 0, 0, 0, 0x0e, 0x20]
    );
    assert_eq!(
        request_frame(u32::MAX, 0, 0x01020304),
        vec![0, 0, 0, 13, 6, 0xff, 0xff, 0xff, 0xff, 0, 0, 0, 0, 1, 2, 3, 4]
    );
}

#[test]
fn reads_the_length_of_a_frame() {
    assert_eq!(frame_length(&[0, 0, 0, 0]), Ok(0));
    assert_eq!(frame_length(&[0, 0, 0, 13]), Ok(13));
    assert_eq!(frame_length(&[0, 0, 0x40, 0x09]), Ok(16393));
    assert_eq!(frame_length(&[0x12, 0x34, 0x56, 0x78]), Ok(0x12345678));
    assert_eq!(frame_length(&[0xff, 0xff, 0xff, 0xff]), Ok(u32::MAX));
    assert_eq!(frame_length(&[0, 0, 0, 2, 5, 0xff]), Ok(2));
    assert_eq!(frame_length(&[]), Err(ProtocolError::ShortRead));
    assert_eq!(frame_length(&[0, 0, 0]), Err(ProtocolError::ShortRead));
}

#[test]
fn reads_a_message_with_its_frame() {
    assert_eq!(
        PeerMessage::read_message(&[0, 0, 0, 3, 5, 0xff, 0x01]),
        Ok((PeerMessage::BitField, &[][..]))
    );
    assert_eq!(
        PeerMessage::read_message(&[0, 0, 0, 1, 1, 0, 0, 0, 1, 5]),
        Ok((PeerMessage::Unchoke, &[0, 0, 0, 1, 5][..]))
    );
    assert_eq!(
        PeerMessage::read_message(&[0, 0, 0, 11, 7, 0, 0, 0, 3, 0, 0, 0x40, 0, 0xde, 0xad, 9]),
        Ok((
            PeerMessage::Piece { index: 3, begin: 16384, block: vec![0xde, 0xad] },
            &[9][..]
        ))
    );
}

#[test]
fn an_unknown_message_id_in_a_frame_is_an_error() {
    assert_eq!(
        PeerMessage::read_message(&[0, 0, 0, 1, 0]),
        Err(ProtocolError::UnexpectedMessage)
    );
    assert_eq!(
        PeerMessage::read_message(&[0, 0, 0, 1, 2]),
        Err(ProtocolError::UnexpectedMessage)
    );
    assert_eq!(
        PeerMessage::read_message(&[0, 0, 0, 13, 6, 0, 0, 0, 0, 0, 0, 0, 0, 0, 0, 0, 1]),
        Err(ProtocolError::UnexpectedMessage)
    );
    assert_eq!(
        PeerMessage::read_message(&[0, 0, 0, 0]),
        Err(ProtocolError::EmptyMessage)
    );
    assert_eq!(
        PeerMessage::read_message(&[0, 0, 0, 5, 7, 0, 0, 0, 0]),
        Err(ProtocolError::TruncatedPiece)
    );
}

#[test]
fn a_frame_that_ends_early_is_an_error() {
    assert_eq!(PeerMessage::read_message(&[]), Err(ProtocolError::ShortRead));
    assert_eq!(PeerMessage::read_message(&[0, 0, 0]), Err(ProtocolError::ShortRead));
    assert_eq!(PeerMessage::read_message(&[0, 0, 0, 1]), Err(ProtocolError::ShortRead));
    assert_eq!(
        PeerMessage::read_message(&[0, 0, 0, 3, 5, 0xff]),
        Err(ProtocolError::ShortRead)
    );
    assert_eq!(
        PeerMessage::read_message(&[0xff, 0xff, 0xff, 0xff, 5]),
        Err(ProtocolError::ShortRead)
    );
}

#[test]
fn the_numbers_of_a_request_are_read_back_from_its_frame() {
    for n in [0u32, 1, 255, 256, 65535, 65536, 0x01020304, 0xdeadbeef, u32::MAX] {
        let frame = request_frame(n, n / 2, !n);
        assert_eq!(&frame[5..9], &n.to_be_bytes());
        assert_eq!(&frame[9..13], &(n / 2).to_be_bytes());
        assert_eq!(&frame[13..17], &(!n).to_be_bytes());
        assert_eq!(frame_length(&frame[5..]), Ok(n));
        assert_eq!(frame_length(&frame[13..]), Ok(!n));
    }
}
