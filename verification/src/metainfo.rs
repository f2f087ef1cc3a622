//! The torrent metadata model: what a torrent file says of the tracker and of
//! the content, and the hash that names the content in the swarm.

use vstd::prelude::*;
use vstd::slice::{slice_subrange, slice_to_vec};
use vstd::string::*;
use vstd::utf8::encode_utf8;
use crate::bencode::canonical::{encoding, serialize, serialize_entries, serialize_string};
use crate::bencode::decode::decode_bencoded_value;
use crate::bencode::encode::encode;
use crate::bencode::fields::{dictionary_field, string_field, text_field, u32_field};
use crate::bencode::grammar::{parse_value, DICTIONARY_START, END, INTEGER_START};
use crate::bencode::order::{ascending, lemma_lex_first_difference};
use crate::bencode::reorder::{
    is_canonical, lemma_canonical_of_canonical, lemma_field_of_reordering, reordering,
};
use crate::bencode::value::{
    entries_view, keys, lemma_entries_view_push, Bencode, ParseError, Value,
};
use crate::decimal::{decimal, decimal_text};
use crate::hash::{hex_encode, hex_lower, sha1_digest, sha1_of};
use crate::text::push_decimal_text;

verus! {

/// The length of a SHA-1 digest in bytes.
pub const DIGEST_LENGTH: usize = 20;

/// What a torrent says of its content, as a mathematical value.
pub struct InfoView {
    pub length: u32,
    pub name: Seq<char>,
    pub piece_length: u32,
    pub pieces: Seq<u8>,
}

/// A torrent as a mathematical value.
pub struct TorrentView {
    pub announce: Seq<char>,
    pub info: InfoView,
}

/// What a torrent says of its content: the size of the file, a name for it,
/// the size of a piece, and the SHA-1 digests of the pieces, one after
/// another. The digests are whole: their bytes number a multiple of 20. Of
/// an `info` dictionary these four fields are kept, and no other.
#[derive(Debug, PartialEq, Eq)]
pub struct TorrentInfo {
    length: u32,
    name: String,
    piece_length: u32,
    pieces: Vec<u8>,
}

/// A torrent: the URL of its tracker, and its content. Once made, it does
/// not change.
#[derive(Debug, PartialEq, Eq)]
pub struct Torrent {
    announce: String,
    info: TorrentInfo,
}

/// The digest of piece `i` among `pieces`.
pub open spec fn piece_digest(pieces: Seq<u8>, i: int) -> Seq<u8> {
    pieces.subrange(20 * i, 20 * i + 20)
}

/// The `info` dictionary of a torrent file with this content.
pub open spec fn info_bencode(info: InfoView) -> Bencode {
    Bencode::Dictionary(
        seq![
            ("length".spec_bytes(), Bencode::Integer(info.length as i64)),
            ("name".spec_bytes(), Bencode::ByteString(encode_utf8(info.name))),
            ("piece length".spec_bytes(), Bencode::Integer(info.piece_length as i64)),
            ("pieces".spec_bytes(), Bencode::ByteString(info.pieces)),
        ],
    )
}

/// The bytes whose SHA-1 digest is the info hash: the canonical encoding of
/// the `info` dictionary.
pub open spec fn info_encoding(info: InfoView) -> Seq<u8> {
    encoding(info_bencode(info))
}

/// The info hash of a torrent with this content.
pub open spec fn info_hash(info: InfoView) -> Seq<u8> {
    sha1_of(info_encoding(info))
}

/// The content that an `info` dictionary describes: its `length`, `name`,
/// `piece length` and `pieces`, each of its kind, the digests whole.
pub open spec fn info_of(dictionary: Bencode) -> Result<InfoView, ParseError> {
    match u32_field(dictionary, "length".spec_bytes()) {
        Err(e) => Err(e),
        Ok(length) => match text_field(dictionary, "name".spec_bytes()) {
            Err(e) => Err(e),
            Ok(name) => match u32_field(dictionary, "piece length".spec_bytes()) {
                Err(e) => Err(e),
                Ok(piece_length) => match string_field(dictionary, "pieces".spec_bytes()) {
                    Err(e) => Err(e),
                    Ok(pieces) => if pieces.len() % 20 == 0 {
                        Ok(InfoView { length, name, piece_length, pieces })
                    } else {
                        Err(ParseError::PartialRecord)
                    },
                },
            },
        },
    }
}

/// The torrent that a decoded torrent file describes: a dictionary with the
/// text `announce` and the dictionary `info`.
pub open spec fn torrent_of(value: Bencode) -> Result<TorrentView, ParseError> {
    if !(value is Dictionary) {
        Err(ParseError::WrongKind)
    } else {
        match text_field(value, "announce".spec_bytes()) {
            Err(e) => Err(e),
            Ok(announce) => match dictionary_field(value, "info".spec_bytes()) {
                Err(e) => Err(e),
                Ok(dictionary) => match info_of(dictionary) {
                    Err(e) => Err(e),
                    Ok(info) => Ok(TorrentView { announce, info }),
                },
            },
        }
    }
}

/// The torrent that the bytes of a torrent file describe. What follows the
/// first value is not read.
pub open spec fn torrent_of_bytes(contents: Seq<u8>) -> Result<TorrentView, ParseError> {
    match parse_value(contents) {
        Err(e) => Err(e),
        Ok((value, _)) => torrent_of(value),
    }
}

/// What is shown of a torrent whose info hash is `hash`, line by line: the
/// tracker, the length, the hash, the piece length, and the digest of each
/// piece.
pub open spec fn report(torrent: TorrentView, hash: Seq<u8>) -> Seq<Seq<char>> {
    seq![
        "Tracker URL: "@ + torrent.announce,
        "Length: "@ + decimal_text(torrent.info.length as nat),
        "Info Hash: "@ + hex_lower(hash),
        "Piece Length: "@ + decimal_text(torrent.info.piece_length as nat),
        "Piece Hashes:"@,
    ] + Seq::new(
        (torrent.info.pieces.len() / 20) as nat,
        |i: int| hex_lower(piece_digest(torrent.info.pieces, i)),
    )
}

/// The texts of lines with one more line at the end.
proof fn lemma_lines_push(before: Vec<String>, after: Vec<String>, line: String)
    requires
        after@ == before@.push(line),
    ensures
        after.deep_view() == before.deep_view().push(line@),
{
}

impl View for TorrentInfo {
    type V = InfoView;

    closed spec fn view(&self) -> InfoView {
        InfoView {
            length: self.length,
            name: self.name@,
            piece_length: self.piece_length,
            pieces: self.pieces@,
        }
    }
}

impl View for Torrent {
    type V = TorrentView;

    closed spec fn view(&self) -> TorrentView {
        TorrentView { announce: self.announce@, info: self.info@ }
    }
}

impl TorrentInfo {
    #[verifier::type_invariant]
    spec fn whole_digests(&self) -> bool {
        self.pieces@.len() % 20 == 0
    }

    /// Makes the description of a content. The digests must be whole: there
    /// is a description exactly when the bytes of `pieces` number a multiple
    /// of 20.
    pub fn new(length: u32, name: String, piece_length: u32, pieces: Vec<u8>) -> (res: Result<
        TorrentInfo,
        ParseError,
    >)
        ensures
            res is Ok <==> pieces@.len() % 20 == 0,
            res matches Ok(info) ==> info@ == (InfoView {
                length,
                name: name@,
                piece_length,
                pieces: pieces@,
            }),
            res matches Err(e) ==> e == ParseError::PartialRecord,
    {
        if pieces.len() % DIGEST_LENGTH != 0 {
            return Err(ParseError::PartialRecord);
        }
        Ok(TorrentInfo { length, name, piece_length, pieces })
    }

    /// Reads the description of a content from an `info` dictionary.
    pub fn from_value(dictionary: &Value) -> (res: Result<TorrentInfo, ParseError>)
        ensures
            match info_of(dictionary@) {
                Ok(info) => res matches Ok(found) && found@ == info,
                Err(e) => res matches Err(err) && err == e,
            },
    {
        let length = match dictionary.get_u32("length".as_bytes()) {
            Err(e) => {
                return Err(e);
            },
            Ok(length) => length,
        };
        let name = match dictionary.get_text("name".as_bytes()) {
            Err(e) => {
                return Err(e);
            },
            Ok(name) => name,
        };
        let piece_length = match dictionary.get_u32("piece length".as_bytes()) {
            Err(e) => {
                return Err(e);
            },
            Ok(piece_length) => piece_length,
        };
        let pieces = match dictionary.get_string("pieces".as_bytes()) {
            Err(e) => {
                return Err(e);
            },
            Ok(pieces) => slice_to_vec(pieces.as_slice()),
        };
        TorrentInfo::new(length, name, piece_length, pieces)
    }

    /// The size of the file in bytes.
    pub fn length(&self) -> (res: u32)
        ensures
            res == self@.length,
    {
        self.length
    }

    /// The name suggested for the file.
    pub fn name(&self) -> (res: &String)
        ensures
            res@ == self@.name,
    {
        &self.name
    }

    /// The size of a piece in bytes.
    pub fn piece_length(&self) -> (res: u32)
        ensures
            res == self@.piece_length,
    {
        self.piece_length
    }

    /// The digests of the pieces, one after another.
    pub fn pieces(&self) -> (res: &Vec<u8>)
        ensures
            res@ == self@.pieces,
            res@.len() % 20 == 0,
    {
        proof {
            use_type_invariant(self);
        }
        &self.pieces
    }

    /// The digests of the pieces, piece by piece: digest `i` is the SHA-1
    /// digest that piece `i` of the file is expected to have.
    pub fn piece_hashes(&self) -> (res: Vec<Vec<u8>>)
        ensures
            res@.len() == self@.pieces.len() / 20,
            forall|i: int|
                0 <= i < res@.len() ==> (#[trigger] res@[i])@ == piece_digest(self@.pieces, i),
    {
        proof {
            use_type_invariant(self);
        }
        let count: usize = self.pieces.len() / DIGEST_LENGTH;
        let mut hashes: Vec<Vec<u8>> = Vec::new();
        let mut i: usize = 0;
        while i < count
            invariant
                i <= count,
                count == self.pieces@.len() / 20,
                self.pieces@.len() % 20 == 0,
                self.pieces@.len() <= usize::MAX,
                hashes@.len() == i,
                forall|j: int|
                    0 <= j < i ==> (#[trigger] hashes@[j])@ == piece_digest(self.pieces@, j),
            decreases count - i,
        {
            let start: usize = i * DIGEST_LENGTH;
            let digest = slice_to_vec(
                slice_subrange(self.pieces.as_slice(), start, start + DIGEST_LENGTH),
            );
            hashes.push(digest);
            i += 1;
        }
        hashes
    }

    /// The `info` dictionary of a torrent file with this content.
    pub fn to_value(&self) -> (res: Value)
        ensures
            res@ == info_bencode(self@),
    {
        let mut entries: Vec<(Vec<u8>, Value)> = Vec::new();
        let length_key = "length".as_bytes_vec();
        let length = Value::Integer(self.length as i64);
        proof {
            lemma_entries_view_push(entries@, length_key, length);
        }
        entries.push((length_key, length));
        let name_key = "name".as_bytes_vec();
        let name = Value::ByteString(self.name.as_str().as_bytes_vec());
        proof {
            lemma_entries_view_push(entries@, name_key, name);
        }
        entries.push((name_key, name));
        let piece_length_key = "piece length".as_bytes_vec();
        let piece_length = Value::Integer(self.piece_length as i64);
        proof {
            lemma_entries_view_push(entries@, piece_length_key, piece_length);
        }
        entries.push((piece_length_key, piece_length));
        let pieces_key = "pieces".as_bytes_vec();
        let pieces = Value::ByteString(slice_to_vec(self.pieces.as_slice()));
        proof {
            lemma_entries_view_push(entries@, pieces_key, pieces);
        }
        entries.push((pieces_key, pieces));
        proof {
            assert(entries_view(entries@) =~= info_bencode(self@)->Dictionary_0);
        }
        Value::Dictionary(entries)
    }

    /// The info hash: the SHA-1 digest of the canonical encoding of the
    /// `info` dictionary with the four fields `length`, `name`,
    /// `piece length` and `pieces`, 20 bytes. It is computed anew at every
    /// call, and depends on the content alone, so that every computation of
    /// it gives the same bytes.
    pub fn get_sha1_hash(&self) -> (res: Vec<u8>)
        ensures
            res@ == info_hash(self@),
            res@ == sha1_of(info_wire(self@)),
            res@.len() == 20,
    {
        proof {
            lemma_info_encoding(self@);
        }
        let bytes = encode(&self.to_value());
        sha1_digest(bytes.as_slice())
    }
}

impl Torrent {
    /// A torrent with the tracker at `announce` and the content `info`.
    pub fn new(announce: String, info: TorrentInfo) -> (res: Torrent)
        ensures
            res@ == (TorrentView { announce: announce@, info: info@ }),
    {
        Torrent { announce, info }
    }

    /// The URL of the tracker.
    pub fn announce(&self) -> (res: &String)
        ensures
            res@ == self@.announce,
    {
        &self.announce
    }

    /// What the torrent says of its content.
    pub fn info(&self) -> (res: &TorrentInfo)
        ensures
            res@ == self@.info,
    {
        &self.info
    }

    /// Reads a torrent from a decoded torrent file.
    pub fn from_value(value: &Value) -> (res: Result<Torrent, ParseError>)
        ensures
            match torrent_of(value@) {
                Ok(torrent) => res matches Ok(found) && found@ == torrent,
                Err(e) => res matches Err(err) && err == e,
            },
    {
        match value {
            Value::Dictionary(_) => {},
            _ => {
                return Err(ParseError::WrongKind);
            },
        }
        let announce = match value.get_text("announce".as_bytes()) {
            Err(e) => {
                return Err(e);
            },
            Ok(announce) => announce,
        };
        let dictionary = match value.get_dictionary("info".as_bytes()) {
            Err(e) => {
                return Err(e);
            },
            Ok(dictionary) => dictionary,
        };
        match TorrentInfo::from_value(dictionary) {
            Err(e) => Err(e),
            Ok(info) => Ok(Torrent { announce, info }),
        }
    }

    /// Reads a torrent from the bytes of a torrent file: one bencoded
    /// dictionary with the text `announce` and the dictionary `info`.
    pub fn from_bytes(contents: &[u8]) -> (res: Result<Torrent, ParseError>)
        ensures
            match torrent_of_bytes(contents@) {
                Ok(torrent) => res matches Ok(found) && found@ == torrent,
                Err(e) => res matches Err(err) && err == e,
            },
    {
        match decode_bencoded_value(contents) {
            Err(e) => Err(e),
            Ok((value, _)) => Torrent::from_value(&value),
        }
    }

    /// What is shown of the torrent, given its info hash, line by line.
    pub fn report_lines(&self, hash: &[u8]) -> (res: Vec<String>)
        ensures
            res.deep_view() == report(self@, hash@),
    {
        let mut lines: Vec<String> = Vec::new();
        let mut tracker = String::from_str("Tracker URL: ");
        tracker.append(self.announce.as_str());
        lines.push(tracker);
        let mut length = String::from_str("Length: ");
        push_decimal_text(&mut length, self.info.length() as u64);
        lines.push(length);
        let mut hash_line = String::from_str("Info Hash: ");
        hash_line.append(hex_encode(hash).as_str());
        lines.push(hash_line);
        let mut piece_length = String::from_str("Piece Length: ");
        push_decimal_text(&mut piece_length, self.info.piece_length() as u64);
        lines.push(piece_length);
        lines.push(String::from_str("Piece Hashes:"));
        let hashes = self.info.piece_hashes();
        let ghost head = lines.deep_view();
        let ghost digests = Seq::new(
            (self@.info.pieces.len() / 20) as nat,
            |i: int| hex_lower(piece_digest(self@.info.pieces, i)),
        );
        let mut i: usize = 0;
        while i < hashes.len()
            invariant
                i <= hashes.len(),
                hashes@.len() == self@.info.pieces.len() / 20,
                forall|j: int|
                    0 <= j < hashes@.len() ==> (#[trigger] hashes@[j])@ == piece_digest(
                        self@.info.pieces,
                        j,
                    ),
                digests == Seq::new(
                    (self@.info.pieces.len() / 20) as nat,
                    |i: int| hex_lower(piece_digest(self@.info.pieces, i)),
                ),
                lines.deep_view() == head + digests.take(i as int),
            decreases hashes.len() - i,
        {
            let line = hex_encode(hashes[i].as_slice());
            let ghost before = lines;
            lines.push(line);
            proof {
                lemma_lines_push(before, lines, line);
            }
            i += 1;
        }
        lines
    }

    /// What is shown of the torrent, line by line: the tracker, the length,
    /// the info hash, the piece length, and the digest of each piece.
    pub fn info_lines(&self) -> (res: Vec<String>)
        ensures
            res.deep_view() == report(self@, info_hash(self@.info)),
    {
        let hash = self.info.get_sha1_hash();
        self.report_lines(hash.as_slice())
    }
}

/// What is shown of the torrent file with these bytes, line by line: the
/// tracker, the length, the info hash, the piece length, and the digest of
/// each piece.
pub fn info(contents: &[u8]) -> (res: Result<Vec<String>, ParseError>)
    ensures
        match torrent_of_bytes(contents@) {
            Ok(torrent) => res matches Ok(lines) && lines.deep_view() == report(
                torrent,
                info_hash(torrent.info),
            ),
            Err(e) => res matches Err(err) && err == e,
        },
{
    match Torrent::from_bytes(contents) {
        Err(e) => Err(e),
        Ok(torrent) => Ok(torrent.info_lines()),
    }
}

/// The info hash does not depend on the order of the keys in the torrent
/// file. Two decoded torrent files that differ only in the order of the
/// entries of their dictionaries describe the same torrent, or fail in the
/// same way, and so give the same info hash.
pub proof fn lemma_info_hash_ignores_key_order(a: Bencode, b: Bencode)
    requires
        reordering(a, b),
    ensures
        torrent_of(a) == torrent_of(b),
        torrent_of(a) matches Ok(torrent) ==> torrent_of(b) matches Ok(other) && info_hash(
            torrent.info,
        ) == info_hash(other.info),
{
    if a is Dictionary {
        lemma_field_of_reordering(a, b, "announce".spec_bytes());
        lemma_field_of_reordering(a, b, "info".spec_bytes());
        if let Ok(dictionary) = dictionary_field(a, "info".spec_bytes()) {
            let other = dictionary_field(b, "info".spec_bytes()).unwrap();
            lemma_field_of_reordering(dictionary, other, "length".spec_bytes());
            lemma_field_of_reordering(dictionary, other, "name".spec_bytes());
            lemma_field_of_reordering(dictionary, other, "piece length".spec_bytes());
            lemma_field_of_reordering(dictionary, other, "pieces".spec_bytes());
        }
    }
}

/// The bytes whose SHA-1 digest is the info hash, written out: the `info`
/// dictionary with its four keys in ascending order, the numbers in the
/// fewest digits, the name in UTF-8.
pub open spec fn info_wire(info: InfoView) -> Seq<u8> {
    "d6:lengthi".spec_bytes() + decimal(info.length as nat) + "e4:name".spec_bytes()
        + serialize_string(encode_utf8(info.name)) + "12:piece lengthi".spec_bytes() + decimal(
        info.piece_length as nat,
    ) + "e6:pieces".spec_bytes() + serialize_string(info.pieces) + "e".spec_bytes()
}

/// The bytes of a text of ASCII characters are the characters, one byte each.
proof fn lemma_ascii_bytes(text: &str)
    requires
        is_ascii(text),
    ensures
        text.spec_bytes() == Seq::new(text@.len(), |i: int| text@[i] as u8),
{
    is_ascii_spec_bytes(text);
}

/// The four keys of an `info` dictionary stand in ascending order.
proof fn lemma_info_keys_ascend()
    ensures
        ascending(
            seq![
                "length".spec_bytes(),
                "name".spec_bytes(),
                "piece length".spec_bytes(),
                "pieces".spec_bytes(),
            ],
        ),
{
    reveal_strlit("length");
    reveal_strlit("name");
    reveal_strlit("piece length");
    reveal_strlit("pieces");
    lemma_ascii_bytes("length");
    lemma_ascii_bytes("name");
    lemma_ascii_bytes("piece length");
    lemma_ascii_bytes("pieces");
    lemma_lex_first_difference("length".spec_bytes(), "name".spec_bytes(), 0);
    lemma_lex_first_difference("length".spec_bytes(), "piece length".spec_bytes(), 0);
    lemma_lex_first_difference("length".spec_bytes(), "pieces".spec_bytes(), 0);
    lemma_lex_first_difference("name".spec_bytes(), "piece length".spec_bytes(), 0);
    lemma_lex_first_difference("name".spec_bytes(), "pieces".spec_bytes(), 0);
    lemma_lex_first_difference("piece length".spec_bytes(), "pieces".spec_bytes(), 5);
}

/// The entries on the wire with one more entry at the end.
proof fn lemma_serialize_entries_push(
    entries: Seq<(Seq<u8>, Bencode)>,
    key: Seq<u8>,
    value: Bencode,
)
    ensures
        serialize_entries(entries.push((key, value))) == serialize_entries(entries)
            + serialize_string(key) + serialize(value),
{
    assert(entries.push((key, value)).drop_last() =~= entries);
}

/// The `info` dictionary is canonical, so that its canonical encoding is the
/// dictionary as it stands: `d`, the four entries, `e`.
proof fn lemma_info_canonical(info: InfoView)
    ensures
        info_encoding(info) == serialize(info_bencode(info)),
        serialize(info_bencode(info)) == seq![DICTIONARY_START] + (serialize_string(
            "length".spec_bytes(),
        ) + serialize(Bencode::Integer(info.length as i64)) + serialize_string(
            "name".spec_bytes(),
        ) + serialize(Bencode::ByteString(encode_utf8(info.name))) + serialize_string(
            "piece length".spec_bytes(),
        ) + serialize(Bencode::Integer(info.piece_length as i64)) + serialize_string(
            "pieces".spec_bytes(),
        ) + serialize(Bencode::ByteString(info.pieces))) + seq![END],
{
    let entries = info_bencode(info)->Dictionary_0;
    lemma_info_keys_ascend();
    assert(keys(entries) =~= seq![
        "length".spec_bytes(),
        "name".spec_bytes(),
        "piece length".spec_bytes(),
        "pieces".spec_bytes(),
    ]);
    assert(is_canonical(entries[0].1) && is_canonical(entries[1].1) && is_canonical(entries[2].1)
        && is_canonical(entries[3].1));
    lemma_canonical_of_canonical(info_bencode(info));
    let none = Seq::<(Seq<u8>, Bencode)>::empty();
    let one = none.push(entries[0]);
    let two = one.push(entries[1]);
    let three = two.push(entries[2]);
    lemma_serialize_entries_push(none, entries[0].0, entries[0].1);
    lemma_serialize_entries_push(one, entries[1].0, entries[1].1);
    lemma_serialize_entries_push(two, entries[2].0, entries[2].1);
    lemma_serialize_entries_push(three, entries[3].0, entries[3].1);
    assert(three.push(entries[3]) =~= entries);
}

/// The keys of an `info` dictionary as they stand on the wire, with the
/// bytes that open and close the values about them.
proof fn lemma_info_key_frames()
    ensures
        seq![DICTIONARY_START] + serialize_string("length".spec_bytes()) + seq![INTEGER_START]
            == "d6:lengthi".spec_bytes(),
        seq![END] + serialize_string("name".spec_bytes()) == "e4:name".spec_bytes(),
        serialize_string("piece length".spec_bytes()) + seq![INTEGER_START]
            == "12:piece lengthi".spec_bytes(),
        seq![END] + serialize_string("pieces".spec_bytes()) == "e6:pieces".spec_bytes(),
        seq![END] == "e".spec_bytes(),
{
    reveal_with_fuel(decimal, 2);
    assert(seq![DICTIONARY_START] + serialize_string("length".spec_bytes()) + seq![INTEGER_START]
        =~= "d6:lengthi".spec_bytes()) by {
        reveal_strlit("length");
        reveal_strlit("d6:lengthi");
        lemma_ascii_bytes("length");
        lemma_ascii_bytes("d6:lengthi");
    }
    assert(seq![END] + serialize_string("name".spec_bytes()) =~= "e4:name".spec_bytes()) by {
        reveal_strlit("name");
        reveal_strlit("e4:name");
        lemma_ascii_bytes("name");
        lemma_ascii_bytes("e4:name");
    }
    assert(serialize_string("piece length".spec_bytes()) + seq![INTEGER_START]
        =~= "12:piece lengthi".spec_bytes()) by {
        reveal_strlit("piece length");
        reveal_strlit("12:piece lengthi");
        lemma_ascii_bytes("piece length");
        lemma_ascii_bytes("12:piece lengthi");
    }
    assert(seq![END] + serialize_string("pieces".spec_bytes()) =~= "e6:pieces".spec_bytes()) by {
        reveal_strlit("pieces");
        reveal_strlit("e6:pieces");
        lemma_ascii_bytes("pieces");
        lemma_ascii_bytes("e6:pieces");
    }
    assert(seq![END] =~= "e".spec_bytes()) by {
        reveal_strlit("e");
        lemma_ascii_bytes("e");
    }
}

/// The info hash is the digest of the `info` dictionary written out with its
/// keys in order: the canonical encoding of the dictionary is that text.
pub proof fn lemma_info_encoding(info: InfoView)
    ensures
        info_encoding(info) == info_wire(info),
{
    lemma_info_canonical(info);
    lemma_info_key_frames();
    let length = decimal(info.length as nat);
    let name = serialize_string(encode_utf8(info.name));
    let piece_length = decimal(info.piece_length as nat);
    let pieces = serialize_string(info.pieces);
    let k1 = serialize_string("length".spec_bytes());
    let k2 = serialize_string("name".spec_bytes());
    let k3 = serialize_string("piece length".spec_bytes());
    let k4 = serialize_string("pieces".spec_bytes());
    let i = seq![INTEGER_START];
    let e = seq![END];
    let d = seq![DICTIONARY_START];
    assert(serialize(Bencode::Integer(info.length as i64)) =~= i + length + e);
    assert(serialize(Bencode::Integer(info.piece_length as i64)) =~= i + piece_length + e);
    assert(serialize(info_bencode(info)) =~= (d + k1 + i) + length + (e + k2) + name + (k3 + i)
        + piece_length + (e + k4) + pieces + e);
}

} // verus!
