use bittorrent::bencode::{decode_bencoded_value, encode, ParseError, Value};
use bittorrent::metainfo::{info, Torrent, TorrentInfo};

fn pieces(n: u8) -> Vec<u8> {
    (0..n).collect()
}

fn info_bytes() -> Vec<u8> {
    let mut bytes = b"d6:lengthi92063e4:name10:sample.txt12:piece lengthi32768e6:pieces60:".to_vec();
    bytes.extend_from_slice(&pieces(60));
    bytes.push(b'e');
    bytes
}

fn torrent_bytes() -> Vec<u8> {
    let mut bytes = b"d8:announce40:http://tracker.example.com:6969/announce4:info".to_vec();
    bytes.extend_from_slice(&info_bytes());
    bytes.push(b'e');
    bytes
}

fn reordered_torrent_bytes() -> Vec<u8> {
    let mut bytes = b"d4:infod6:pieces60:".to_vec();
    bytes.extend_from_slice(&pieces(60));
    bytes.extend_from_slice(b"4:name10:sample.txt6:lengthi92063e12:piece lengthi32768ee");
    bytes.extend_from_slice(b"8:announce40:http://tracker.example.com:6969/announcee");
    bytes
}

fn hex(bytes: &[u8]) -> String {
    bytes.iter().map(|b| format!("{:02x}", b)).collect()
}

#[test]
fn loads_a_torrent() {
    let torrent = Torrent::from_bytes(&torrent_bytes()).unwrap();
    assert_eq!(torrent.announce(), "http://tracker.example.com:6969/announce");
    assert_eq!(torrent.info().length(), 92063);
    assert_eq!(torrent.info().name(), "sample.txt");
    assert_eq!(torrent.info().piece_length(), 32768);
    assert_eq!(torrent.info().pieces(), &pieces(60));
}

#[test]
fn loads_a_torrent_from_a_decoded_value() {
    let bytes = torrent_bytes();
    let (value, _) = decode_bencoded_value(&bytes).unwrap();
    assert_eq!(Torrent::from_value(&value), Torrent::from_bytes(&bytes));
}

#[test]
fn ignores_fields_it_does_not_know_and_what_follows_the_dictionary() {
    let mut bytes = b"d8:announce3:url7:comment2:hi4:infod5:extrai1e6:lengthi5e4:name1:n12:piece lengthi4e6:pieces0:ee".to_vec();
    bytes.extend_from_slice(b"trailing");
    let torrent = Torrent::from_bytes(&bytes).unwrap();
    assert_eq!(torrent.announce(), "url");
    assert_eq!(torrent.info(), &TorrentInfo::new(5, "n".to_string(), 4, vec![]).unwrap());
}

#[test]
fn computes_the_info_hash() {
    let torrent = Torrent::from_bytes(&torrent_bytes()).unwrap();
    let hash = torrent.info().get_sha1_hash();
    assert_eq!(hash.len(), 20);
    assert_eq!(hex(&hash), "f519c3a24144a8649e58efc3e359b51a386054d6");
}

#[test]
fn hashes_the_canonical_encoding_of_the_info_dictionary() {
    let torrent = Torrent::from_bytes(&torrent_bytes()).unwrap();
    assert_eq!(encode(&torrent.info().to_value()), info_bytes());
    let empty = TorrentInfo::new(0, String::new(), 0, vec![]).unwrap();
    assert_eq!(
        encode(&empty.to_value()),
        b"d6:lengthi0e4:name0:12:piece lengthi0e6:pieces0:e"
    );
    assert_eq!(hex(&empty.get_sha1_hash()), "85c13b162ef908272a8fc8d721173e6d932bc0f1");
}

#[test]
fn loads_a_name_that_is_not_ascii() {
    let torrent = Torrent::from_bytes(
        "d8:announce3:url4:infod6:lengthi1e4:name12:münchen.txt12:piece lengthi1e6:pieces0:ee"
            .as_bytes(),
    )
    .unwrap();
    assert_eq!(torrent.info().name(), "münchen.txt");
    assert_eq!(
        hex(&torrent.info().get_sha1_hash()),
        "85cd5fa1e5c563c08dc08af0d046a9ba455e6acb"
    );
}

#[test]
fn hashes_a_name_that_is_not_ascii() {
    let info = TorrentInfo::new(1, "münchen.txt".to_string(), 1, vec![]).unwrap();
    assert_eq!(hex(&info.get_sha1_hash()), "85cd5fa1e5c563c08dc08af0d046a9ba455e6acb");
}

#[test]
fn two_computations_of_the_info_hash_agree() {
    let torrent = Torrent::from_bytes(&torrent_bytes()).unwrap();
    assert_eq!(torrent.info().get_sha1_hash(), torrent.info().get_sha1_hash());
}

#[test]
fn the_info_hash_does_not_depend_on_the_order_of_keys() {
    let one = Torrent::from_bytes(&torrent_bytes()).unwrap();
    let two = Torrent::from_bytes(&reordered_torrent_bytes()).unwrap();
    assert_eq!(one, two);
    assert_eq!(one.info().get_sha1_hash(), two.info().get_sha1_hash());
}

#[test]
fn splits_the_pieces_into_digests() {
    let info = TorrentInfo::new(1, "n".to_string(), 1, pieces(40)).unwrap();
    let hashes = info.piece_hashes();
    assert_eq!(hashes.len(), 2);
    assert_eq!(hashes[0], (0..20).collect::<Vec<u8>>());
    assert_eq!(hashes[1], (20..40).collect::<Vec<u8>>());
    let none = TorrentInfo::new(1, "n".to_string(), 1, vec![]).unwrap();
    assert!(none.piece_hashes().is_empty());
}

#[test]
fn refuses_pieces_that_are_not_whole_digests() {
    assert_eq!(
        TorrentInfo::new(1, "n".to_string(), 1, pieces(41)),
        Err(ParseError::PartialRecord)
    );
    assert_eq!(
        TorrentInfo::new(1, "n".to_string(), 1, pieces(19)),
        Err(ParseError::PartialRecord)
    );
    assert_eq!(
        Torrent::from_bytes(b"d8:announce3:url4:infod6:lengthi5e4:name1:n12:piece lengthi4e6:pieces3:abcee"),
        Err(ParseError::PartialRecord)
    );
}

#[test]
fn refuses_a_torrent_without_a_required_field() {
    assert_eq!(
        Torrent::from_bytes(b"d4:infod6:lengthi5e4:name1:n12:piece lengthi4e6:pieces0:ee"),
        Err(ParseError::MissingField)
    );
    assert_eq!(Torrent::from_bytes(b"d8:announce3:urle"), Err(ParseError::MissingField));
    assert_eq!(
        Torrent::from_bytes(b"d8:announce3:url4:infod4:name1:n12:piece lengthi4e6:pieces0:ee"),
        Err(ParseError::MissingField)
    );
    assert_eq!(
        Torrent::from_bytes(b"d8:announce3:url4:infod6:lengthi5e12:piece lengthi4e6:pieces0:ee"),
        Err(ParseError::MissingField)
    );
    assert_eq!(
        Torrent::from_bytes(b"d8:announce3:url4:infod6:lengthi5e4:name1:n6:pieces0:ee"),
        Err(ParseError::MissingField)
    );
    assert_eq!(
        Torrent::from_bytes(b"d8:announce3:url4:infod6:lengthi5e4:name1:n12:piece lengthi4eee"),
        Err(ParseError::MissingField)
    );
}

#[test]
fn refuses_a_field_of_another_kind() {
    assert_eq!(Torrent::from_bytes(b"i1e"), Err(ParseError::WrongKind));
    assert_eq!(Torrent::from_bytes(b"le"), Err(ParseError::WrongKind));
    assert_eq!(
        Torrent::from_bytes(b"d8:announcei1e4:infodee"),
        Err(ParseError::WrongKind)
    );
    assert_eq!(
        Torrent::from_bytes(b"d8:announce3:url4:info3:abce"),
        Err(ParseError::WrongKind)
    );
    assert_eq!(
        Torrent::from_bytes(b"d8:announce3:url4:infod6:length1:54:name1:n12:piece lengthi4e6:pieces0:ee"),
        Err(ParseError::WrongKind)
    );
    assert_eq!(
        Torrent::from_bytes(b"d8:announce3:url4:infod6:lengthi5e4:namei1e12:piece lengthi4e6:pieces0:ee"),
        Err(ParseError::WrongKind)
    );
    assert_eq!(
        Torrent::from_bytes(b"d8:announce3:url4:infod6:lengthi5e4:name1:n12:piece lengthi4e6:piecesleee"),
        Err(ParseError::WrongKind)
    );
}

#[test]
fn refuses_a_number_out_of_range() {
    assert_eq!(
        Torrent::from_bytes(b"d8:announce3:url4:infod6:lengthi-1e4:name1:n12:piece lengthi4e6:pieces0:ee"),
        Err(ParseError::WrongKind)
    );
    assert_eq!(
        Torrent::from_bytes(b"d8:announce3:url4:infod6:lengthi5e4:name1:n12:piece lengthi4294967296e6:pieces0:ee"),
        Err(ParseError::WrongKind)
    );
    let torrent = Torrent::from_bytes(
        b"d8:announce3:url4:infod6:lengthi4294967295e4:name1:n12:piece lengthi0e6:pieces0:ee",
    )
    .unwrap();
    assert_eq!(torrent.info().length(), u32::MAX);
    assert_eq!(torrent.info().piece_length(), 0);
}

#[test]
fn refuses_text_that_is_not_utf8() {
    assert_eq!(
        Torrent::from_bytes(b"d8:announce2:\xff\xfe4:infod6:lengthi5e4:name1:n12:piece lengthi4e6:pieces0:ee"),
        Err(ParseError::InvalidText)
    );
    assert_eq!(
        Torrent::from_bytes(b"d8:announce3:url4:infod6:lengthi5e4:name1:\xc312:piece lengthi4e6:pieces0:ee"),
        Err(ParseError::InvalidText)
    );
}

#[test]
fn passes_on_the_errors_of_decoding() {
    assert_eq!(Torrent::from_bytes(b""), Err(ParseError::UnexpectedEnd));
    assert_eq!(Torrent::from_bytes(b"d8:announce"), Err(ParseError::UnexpectedEnd));
    assert_eq!(Torrent::from_bytes(b"x"), Err(ParseError::UnhandledValue));
    assert_eq!(info(b"d8:announce9:url"), Err(ParseError::LengthExceedsInput));
}

#[test]
fn reads_fields_of_a_dictionary() {
    let (value, _) = decode_bencoded_value(b"d1:ai7e1:b3:xyz1:cd1:di1eee").unwrap();
    assert_eq!(value.get_u32(b"a"), Ok(7));
    assert_eq!(value.get_string(b"b"), Ok(&b"xyz".to_vec()));
    assert_eq!(value.get_text(b"b"), Ok("xyz".to_string()));
    assert_eq!(
        value.get_dictionary(b"c"),
        Ok(&Value::Dictionary(vec![(b"d".to_vec(), Value::Integer(1))]))
    );
    assert_eq!(value.lookup(b"a"), Some(&Value::Integer(7)));
    assert_eq!(value.lookup(b"z"), None);
    assert_eq!(value.get_u32(b"z"), Err(ParseError::MissingField));
    assert_eq!(value.get_u32(b"b"), Err(ParseError::WrongKind));
    assert_eq!(value.get_string(b"a"), Err(ParseError::WrongKind));
    assert_eq!(value.get_dictionary(b"a"), Err(ParseError::WrongKind));
    assert_eq!(Value::Integer(1).lookup(b"a"), None);
}

#[test]
fn shows_a_torrent() {
    let lines = info(&torrent_bytes()).unwrap();
    assert_eq!(
        lines,
        vec![
            "Tracker URL: http://tracker.example.com:6969/announce".to_string(),
            "Length: 92063".to_string(),
            "Info Hash: f519c3a24144a8649e58efc3e359b51a386054d6".to_string(),
            "Piece Length: 32768".to_string(),
            "Piece Hashes:".to_string(),
            "000102030405060708090a0b0c0d0e0f10111213".to_string(),
            "1415161718191a1b1c1d1e1f2021222324252627".to_string(),
            "28292a2b2c2d2e2f303132333435363738393a3b".to_string(),
        ]
    );
    let torrent = Torrent::from_bytes(&torrent_bytes()).unwrap();
    assert_eq!(torrent.info_lines(), lines);
}

#[test]
fn shows_a_torrent_with_a_given_hash() {
    let torrent = Torrent::new(
        "udp://t".to_string(),
        TorrentInfo::new(0, "n".to_string(), 4294967295, vec![0xab; 20]).unwrap(),
    );
    assert_eq!(
        torrent.report_lines(&[0x00, 0x0f, 0xf0, 0xff, 0x9a]),
        vec![
            "Tracker URL: udp://t".to_string(),
            "Length: 0".to_string(),
            "Info Hash: 000ff0ff9a".to_string(),
            "Piece Length: 4294967295".to_string(),
            "Piece Hashes:".to_string(),
            "abababababababababababababababababababab".to_string(),
        ]
    );
}
