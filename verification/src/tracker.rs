//! The tracker: the announce request that asks it for peers, and the peers
//! that its response lists.

use vstd::prelude::*;
use vstd::slice::slice_to_vec;
use vstd::string::*;
use crate::bencode::decode::decode_bencoded_value;
use crate::bencode::fields::{string_field, u32_field};
use crate::bencode::grammar::parse_value;
use crate::bencode::value::{Bencode, ParseError, Value};
use crate::decimal::decimal_text;
use crate::metainfo::{info_hash, Torrent};
use crate::text::{percent_encode, percent_encoded, push_decimal_text};

verus! {

/// The length of the record of one peer in a compact peer list: four bytes of
/// an IPv4 address and two of a port.
pub const PEER_RECORD_LENGTH: usize = 6;

/// The port that this client announces.
pub const LISTEN_PORT: u16 = 6881;

/// The peer id under which this client announces itself.
pub open spec fn announce_peer_id() -> Seq<u8> {
    "18693067284950604732".spec_bytes()
}

/// A tracker's response as a mathematical value.
pub struct ResponseView {
    pub interval: u32,
    pub peers: Seq<u8>,
}

/// A tracker's response: the seconds to wait before the next announce, and
/// the peers in compact form, six bytes each. The records are whole: the
/// bytes of `peers` number a multiple of six.
#[derive(Debug, PartialEq, Eq)]
pub struct TrackerResponse {
    interval: u32,
    peers: Vec<u8>,
}

/// The URL of an announce: the tracker's URL and the query that names the
/// content by its info hash, this client by its peer id and port, nothing
/// uploaded or downloaded, `left` bytes to go, and asks for the compact list.
pub open spec fn announce_url(
    announce: Seq<char>,
    hash: Seq<u8>,
    peer_id: Seq<u8>,
    port: u16,
    left: u32,
) -> Seq<char> {
    announce + "?info_hash="@ + percent_encoded(hash) + "&peer_id="@ + percent_encoded(peer_id)
        + "&port="@ + decimal_text(port as nat) + "&uploaded=0&downloaded=0&left="@
        + decimal_text(left as nat) + "&compact=1"@
}

/// The response that a decoded tracker response gives: a dictionary with the
/// number `interval` and the byte string `peers`, the records whole.
pub open spec fn response_of(value: Bencode) -> Result<ResponseView, ParseError> {
    if !(value is Dictionary) {
        Err(ParseError::WrongKind)
    } else {
        match u32_field(value, "interval".spec_bytes()) {
            Err(e) => Err(e),
            Ok(interval) => match string_field(value, "peers".spec_bytes()) {
                Err(e) => Err(e),
                Ok(peers) => if peers.len() % 6 == 0 {
                    Ok(ResponseView { interval, peers })
                } else {
                    Err(ParseError::PartialRecord)
                },
            },
        }
    }
}

/// The response that the body of a tracker's reply gives. What follows the
/// first value is not read.
pub open spec fn response_of_bytes(body: Seq<u8>) -> Result<ResponseView, ParseError> {
    match parse_value(body) {
        Err(e) => Err(e),
        Ok((value, _)) => response_of(value),
    }
}

/// Record `i` of a compact peer list.
pub open spec fn peer_record(peers: Seq<u8>, i: int) -> Seq<u8> {
    peers.subrange(6 * i, 6 * i + 6)
}

/// The port of a record: its last two bytes, the high byte first.
pub open spec fn record_port(record: Seq<u8>) -> u16 {
    ((record[4] as u16) << 8) | (record[5] as u16)
}

/// The endpoint of a record as text: the four bytes of the address in
/// decimal with dots between them, a colon, and the port in decimal.
pub open spec fn endpoint(record: Seq<u8>) -> Seq<char> {
    decimal_text(record[0] as nat) + "."@ + decimal_text(record[1] as nat) + "."@ + decimal_text(
        record[2] as nat,
    ) + "."@ + decimal_text(record[3] as nat) + ":"@ + decimal_text(record_port(record) as nat)
}

/// The endpoints of a compact peer list, record by record.
pub open spec fn peer_addresses(peers: Seq<u8>) -> Seq<Seq<char>> {
    Seq::new((peers.len() / 6) as nat, |i: int| endpoint(peer_record(peers, i)))
}

impl View for TrackerResponse {
    type V = ResponseView;

    closed spec fn view(&self) -> ResponseView {
        ResponseView { interval: self.interval, peers: self.peers@ }
    }
}

/// The URL of an announce to the tracker at `announce` for the content with
/// info hash `hash`, sent by the client `peer_id` that listens on `port` and
/// has `left` bytes to go. The hash and the peer id are percent-encoded byte
/// for byte.
pub fn announce_request(announce: &str, hash: &[u8], peer_id: &[u8], port: u16, left: u32) -> (res:
    String)
    ensures
        res@ == announce_url(announce@, hash@, peer_id@, port, left),
{
    let mut url = String::from_str(announce);
    url.append("?info_hash=");
    url.append(percent_encode(hash).as_str());
    url.append("&peer_id=");
    url.append(percent_encode(peer_id).as_str());
    url.append("&port=");
    push_decimal_text(&mut url, port as u64);
    url.append("&uploaded=0&downloaded=0&left=");
    push_decimal_text(&mut url, left as u64);
    url.append("&compact=1");
    url
}

/// The URL of this client's announce for `torrent`: to the torrent's tracker,
/// for its info hash, with the whole file to go.
pub fn tracker_request(torrent: &Torrent) -> (res: String)
    ensures
        res@ == announce_url(
            torrent@.announce,
            info_hash(torrent@.info),
            announce_peer_id(),
            LISTEN_PORT,
            torrent@.info.length,
        ),
{
    let hash = torrent.info().get_sha1_hash();
    announce_request(
        torrent.announce().as_str(),
        hash.as_slice(),
        "18693067284950604732".as_bytes(),
        LISTEN_PORT,
        torrent.info().length(),
    )
}

impl TrackerResponse {
    #[verifier::type_invariant]
    spec fn whole_records(&self) -> bool {
        self.peers@.len() % 6 == 0
    }

    /// Makes a response. The records must be whole: there is a response
    /// exactly when the bytes of `peers` number a multiple of six.
    pub fn new(interval: u32, peers: Vec<u8>) -> (res: Result<TrackerResponse, ParseError>)
        ensures
            res is Ok <==> peers@.len() % 6 == 0,
            res matches Ok(response) ==> response@ == (ResponseView { interval, peers: peers@ }),
            res matches Err(e) ==> e == ParseError::PartialRecord,
    {
        if peers.len() % PEER_RECORD_LENGTH != 0 {
            return Err(ParseError::PartialRecord);
        }
        Ok(TrackerResponse { interval, peers })
    }

    /// Reads a response from a decoded tracker response.
    pub fn from_value(value: &Value) -> (res: Result<TrackerResponse, ParseError>)
        ensures
            match response_of(value@) {
                Ok(response) => res matches Ok(found) && found@ == response,
                Err(e) => res matches Err(err) && err == e,
            },
    {
        match value {
            Value::Dictionary(_) => {},
            _ => {
                return Err(ParseError::WrongKind);
            },
        }
        let interval = match value.get_u32("interval".as_bytes()) {
            Err(e) => {
                return Err(e);
            },
            Ok(interval) => interval,
        };
        let peers = match value.get_string("peers".as_bytes()) {
            Err(e) => {
                return Err(e);
            },
            Ok(peers) => slice_to_vec(peers.as_slice()),
        };
        TrackerResponse::new(interval, peers)
    }

    /// Reads a response from the body of a tracker's reply: one bencoded
    /// dictionary with the number `interval` and the byte string `peers`.
    pub fn from_bytes(body: &[u8]) -> (res: Result<TrackerResponse, ParseError>)
        ensures
            match response_of_bytes(body@) {
                Ok(response) => res matches Ok(found) && found@ == response,
                Err(e) => res matches Err(err) && err == e,
            },
    {
        match decode_bencoded_value(body) {
            Err(e) => Err(e),
            Ok((value, _)) => TrackerResponse::from_value(&value),
        }
    }

    /// The seconds to wait before the next announce.
    pub fn interval(&self) -> (res: u32)
        ensures
            res == self@.interval,
    {
        self.interval
    }

    /// The peers in compact form, six bytes each.
    pub fn peers(&self) -> (res: &Vec<u8>)
        ensures
            res@ == self@.peers,
            res@.len() % 6 == 0,
    {
        proof {
            use_type_invariant(self);
        }
        &self.peers
    }

    /// The endpoints of the peers as text, `a.b.c.d:port`, one for each
    /// record and in the order of the records.
    pub fn get_peer_addresses(&self) -> (res: Vec<String>)
        ensures
            res.deep_view() == peer_addresses(self@.peers),
            res@.len() == self@.peers.len() / 6,
    {
        proof {
            use_type_invariant(self);
        }
        let count: usize = self.peers.len() / PEER_RECORD_LENGTH;
        let mut res: Vec<String> = Vec::new();
        let mut i: usize = 0;
        while i < count
            invariant
                i <= count,
                count == self.peers@.len() / 6,
                self.peers@.len() % 6 == 0,
                self.peers@.len() <= usize::MAX,
                res@.len() == i,
                res.deep_view() == peer_addresses(self.peers@).take(i as int),
            decreases count - i,
        {
            let start: usize = i * PEER_RECORD_LENGTH;
            let port: u16 = ((self.peers[start + 4] as u16) << 8) | (self.peers[start + 5] as u16);
            let mut address = String::new();
            push_decimal_text(&mut address, self.peers[start] as u64);
            address.append(".");
            push_decimal_text(&mut address, self.peers[start + 1] as u64);
            address.append(".");
            push_decimal_text(&mut address, self.peers[start + 2] as u64);
            address.append(".");
            push_decimal_text(&mut address, self.peers[start + 3] as u64);
            address.append(":");
            push_decimal_text(&mut address, port as u64);
            res.push(address);
            i += 1;
        }
        res
    }
}

/// The endpoints of the peers that the body of a tracker's reply lists, as
/// text, `a.b.c.d:port`.
pub fn peers(body: &[u8]) -> (res: Result<Vec<String>, ParseError>)
    ensures
        match response_of_bytes(body@) {
            Ok(response) => res matches Ok(addresses) && addresses.deep_view() == peer_addresses(
                response.peers,
            ),
            Err(e) => res matches Err(err) && err == e,
        },
{
    match TrackerResponse::from_bytes(body) {
        Err(e) => Err(e),
        Ok(response) => Ok(response.get_peer_addresses()),
    }
}

} // verus!
