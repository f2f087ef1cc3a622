use bittorrent::download::{Action, Download, Event, Phase};
use bittorrent::wire::{HandShake, ProtocolError};

fn handshake() -> HandShake {
    HandShake::new([0x11; 20], [0x22; 20])
}

fn reply() -> Vec<u8> {
    HandShake::new([0x11; 20], [0x33; 20]).as_bytes()
}

fn frame(body: &[u8]) -> Vec<u8> {
    let mut frame = (body.len() as u32).to_be_bytes().to_vec();
    frame.extend_from_slice(body);
    frame
}

fn piece_message(index: u32, begin: u32, block: &[u8]) -> Vec<u8> {
    let mut body = vec![7u8];
    body.extend_from_slice(&index.to_be_bytes());
    body.extend_from_slice(&begin.to_be_bytes());
    body.extend_from_slice(block);
    frame(&body)
}

fn request(index: u32, begin: u32, length: u32) -> Vec<u8> {
    let mut frame = vec![0, 0, 0, 13, 6];
    frame.extend_from_slice(&index.to_be_bytes());
    frame.extend_from_slice(&begin.to_be_bytes());
    frame.extend_from_slice(&length.to_be_bytes());
    frame
}

/// Takes a download up to its first request, or to its end where the piece
/// is empty.
fn unchoked(piece_index: u32, piece_length: u32) -> (Download, Action) {
    let mut download = Download::new(&handshake(), piece_index, piece_length);
    assert_eq!(download.phase(), Phase::Connected);
    assert_eq!(download.step(Event::Start), Ok(Action::Send(handshake().as_bytes())));
    assert_eq!(download.phase(), Phase::Handshaking);
    assert_eq!(download.step(Event::Sent), Ok(Action::ReceiveHandshake));
    assert_eq!(download.phase(), Phase::Handshaking);
    assert_eq!(download.step(Event::Handshake(reply())), Ok(Action::ReceiveMessage));
    assert_eq!(download.phase(), Phase::AwaitingBitfield);
    assert_eq!(download.peer_id(), &vec![0x33; 20]);
    assert_eq!(
        download.step(Event::Message(frame(&[5, 0xff]))),
        Ok(Action::Send(vec![0, 0, 0, 1, 2]))
    );
    assert_eq!(download.phase(), Phase::SendingInterested);
    assert_eq!(download.step(Event::Sent), Ok(Action::ReceiveMessage));
    assert_eq!(download.phase(), Phase::AwaitingUnchoke);
    let action = download.step(Event::Message(frame(&[1]))).unwrap();
    (download, action)
}

/// Runs a download against a peer that answers each request with the block
/// asked for, and gives the requests and the piece.
fn run(piece_index: u32, piece_length: u32) -> (Vec<(u32, u32, u32)>, Vec<u8>) {
    let (mut download, mut action) = unchoked(piece_index, piece_length);
    let mut requests = Vec::new();
    loop {
        match action {
            Action::Finish => break,
            Action::Send(frame) => {
                assert_eq!(download.phase(), Phase::Downloading);
                assert_eq!(frame.len(), 17);
                assert_eq!(&frame[..5], &[0, 0, 0, 13, 6]);
                let index = u32::from_be_bytes([frame[5], frame[6], frame[7], frame[8]]);
                let begin = u32::from_be_bytes([frame[9], frame[10], frame[11], frame[12]]);
                let length = u32::from_be_bytes([frame[13], frame[14], frame[15], frame[16]]);
                requests.push((index, begin, length));
                assert_eq!(download.step(Event::Sent), Ok(Action::ReceiveMessage));
                let block: Vec<u8> = (0..length).map(|i| ((begin + i) % 251) as u8).collect();
                action = download
                    .step(Event::Message(piece_message(index, begin, &block)))
                    .unwrap();
            }
            other => panic!("unexpected action {:?}", other),
        }
    }
    assert_eq!(download.phase(), Phase::Done);
    (requests, download.piece().clone())
}

#[test]
fn asks_for_a_piece_of_two_full_blocks() {
    let (requests, piece) = run(0, 32768);
    assert_eq!(requests, vec![(0, 0, 16384), (0, 16384, 16384)]);
    assert_eq!(piece.len(), 32768);
    let expected: Vec<u8> = (0..32768u32).map(|i| (i % 251) as u8).collect();
    assert_eq!(piece, expected);
}

#[test]
fn asks_for_what_is_left_in_the_last_block() {
    let (requests, piece) = run(3, 20000);
    assert_eq!(requests, vec![(3, 0, 16384), (3, 16384, 3616)]);
    assert_eq!(piece.len(), 20000);
}

#[test]
fn asks_for_a_piece_shorter_than_a_block_at_once() {
    let (requests, piece) = run(9, 1);
    assert_eq!(requests, vec![(9, 0, 1)]);
    assert_eq!(piece, vec![0]);
    let (requests, piece) = run(9, 16384);
    assert_eq!(requests, vec![(9, 0, 16384)]);
    assert_eq!(piece.len(), 16384);
    let (requests, piece) = run(9, 16385);
    assert_eq!(requests, vec![(9, 0, 16384), (9, 16384, 1)]);
    assert_eq!(piece.len(), 16385);
}

#[test]
fn asks_for_every_block_at_the_end_of_the_last() {
    let (requests, piece) = run(7, 262144 + 100);
    assert_eq!(requests.len(), 17);
    for (k, request) in requests.iter().enumerate() {
        let begin = (k as u32) * 16384;
        let length = if k < 16 { 16384 } else { 100 };
        assert_eq!(*request, (7, begin, length));
    }
    assert_eq!(piece.len(), 262244);
}

#[test]
fn an_empty_piece_is_complete_without_a_request() {
    let (download, action) = unchoked(0, 0);
    assert_eq!(action, Action::Finish);
    assert_eq!(download.phase(), Phase::Done);
    assert!(download.piece().is_empty());
}

#[test]
fn the_first_request_follows_the_unchoke() {
    let (download, action) = unchoked(5, 20000);
    assert_eq!(action, Action::Send(request(5, 0, 16384)));
    assert_eq!(download.phase(), Phase::Downloading);
}

#[test]
fn appends_the_blocks_as_they_come() {
    let (mut download, _) = unchoked(0, 32768);
    assert_eq!(download.step(Event::Sent), Ok(Action::ReceiveMessage));
    assert_eq!(
        download.step(Event::Message(piece_message(0, 0, &[1, 2, 3]))),
        Ok(Action::Send(request(0, 16384, 16384)))
    );
    assert_eq!(download.piece(), &vec![1, 2, 3]);
    assert_eq!(download.step(Event::Sent), Ok(Action::ReceiveMessage));
    assert_eq!(
        download.step(Event::Message(piece_message(0, 16384, &[4, 5]))),
        Ok(Action::Finish)
    );
    assert_eq!(download.piece(), &vec![1, 2, 3, 4, 5]);
    assert_eq!(download.phase(), Phase::Done);
}

#[test]
fn the_first_two_messages_are_dropped_whatever_they_are() {
    let mut download = Download::new(&handshake(), 0, 16384);
    download.step(Event::Start).unwrap();
    download.step(Event::Sent).unwrap();
    download.step(Event::Handshake(reply())).unwrap();
    assert_eq!(
        download.step(Event::Message(frame(&[1]))),
        Ok(Action::Send(vec![0, 0, 0, 1, 2]))
    );
    download.step(Event::Sent).unwrap();
    assert_eq!(
        download.step(Event::Message(frame(&[5]))),
        Ok(Action::Send(request(0, 0, 16384)))
    );
    assert!(download.piece().is_empty());
}

#[test]
fn a_short_handshake_is_an_error() {
    let mut download = Download::new(&handshake(), 0, 16384);
    download.step(Event::Start).unwrap();
    download.step(Event::Sent).unwrap();
    assert_eq!(
        download.step(Event::Handshake(vec![0; 67])),
        Err(ProtocolError::ShortHandshake)
    );
    assert_eq!(download.phase(), Phase::Handshaking);
    assert_eq!(download.step(Event::Handshake(reply())), Ok(Action::ReceiveMessage));
}

#[test]
fn an_unknown_message_is_an_error_in_every_phase() {
    let mut download = Download::new(&handshake(), 0, 16384);
    download.step(Event::Start).unwrap();
    download.step(Event::Sent).unwrap();
    download.step(Event::Handshake(reply())).unwrap();
    assert_eq!(
        download.step(Event::Message(frame(&[0]))),
        Err(ProtocolError::UnexpectedMessage)
    );
    assert_eq!(download.step(Event::Message(frame(&[]))), Err(ProtocolError::EmptyMessage));
    assert_eq!(download.phase(), Phase::AwaitingBitfield);
    download.step(Event::Message(frame(&[5]))).unwrap();
    download.step(Event::Sent).unwrap();
    assert_eq!(
        download.step(Event::Message(frame(&[2]))),
        Err(ProtocolError::UnexpectedMessage)
    );
    assert_eq!(download.phase(), Phase::AwaitingUnchoke);
    download.step(Event::Message(frame(&[1]))).unwrap();
    download.step(Event::Sent).unwrap();
    assert_eq!(
        download.step(Event::Message(frame(&[20, 1, 2]))),
        Err(ProtocolError::UnexpectedMessage)
    );
    assert_eq!(
        download.step(Event::Message(frame(&[7, 0]))),
        Err(ProtocolError::TruncatedPiece)
    );
    assert_eq!(
        download.step(Event::Message(vec![0, 0, 0, 9, 7, 0])),
        Err(ProtocolError::ShortRead)
    );
    assert_eq!(
        download.step(Event::Message(vec![0, 0])),
        Err(ProtocolError::ShortRead)
    );
    assert_eq!(
        download.step(Event::Message(vec![0, 0, 0, 1, 1, 0])),
        Err(ProtocolError::UnexpectedEvent)
    );
    assert_eq!(download.phase(), Phase::Downloading);
    assert!(download.piece().is_empty());
}

#[test]
fn a_message_that_is_no_piece_is_an_error_where_a_block_is_due() {
    let (mut download, _) = unchoked(0, 16384);
    download.step(Event::Sent).unwrap();
    assert_eq!(
        download.step(Event::Message(frame(&[1]))),
        Err(ProtocolError::InvalidResponse)
    );
    assert_eq!(
        download.step(Event::Message(frame(&[5, 0]))),
        Err(ProtocolError::InvalidResponse)
    );
    assert_eq!(download.phase(), Phase::Downloading);
    assert_eq!(
        download.step(Event::Message(piece_message(0, 0, &[9]))),
        Ok(Action::Finish)
    );
}

#[test]
fn an_event_that_answers_nothing_is_an_error() {
    let mut download = Download::new(&handshake(), 0, 16384);
    assert_eq!(download.step(Event::Sent), Err(ProtocolError::UnexpectedEvent));
    assert_eq!(
        download.step(Event::Message(frame(&[5]))),
        Err(ProtocolError::UnexpectedEvent)
    );
    assert_eq!(
        download.step(Event::Handshake(reply())),
        Err(ProtocolError::UnexpectedEvent)
    );
    assert_eq!(download.phase(), Phase::Connected);
    download.step(Event::Start).unwrap();
    assert_eq!(download.step(Event::Start), Err(ProtocolError::UnexpectedEvent));
    assert_eq!(
        download.step(Event::Message(frame(&[5]))),
        Err(ProtocolError::UnexpectedEvent)
    );
    let (mut done, _) = unchoked(0, 0);
    assert_eq!(done.step(Event::Start), Err(ProtocolError::UnexpectedEvent));
    assert_eq!(done.step(Event::Sent), Err(ProtocolError::UnexpectedEvent));
    assert_eq!(
        done.step(Event::Message(piece_message(0, 0, &[1]))),
        Err(ProtocolError::UnexpectedEvent)
    );
    assert_eq!(done.phase(), Phase::Done);
}
