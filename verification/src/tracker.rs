//! The tracker: the address at which it is asked for peers, and the peers
//! that its answer names.

use vstd::prelude::*;
use vstd::string::*;
use crate::bencode::{lemma_list_view, list_view, Bencode, BencodeValue};
use crate::decimal::{digits_end, digits_value, scan_digits, DIGIT_ZERO};
use crate::text::{append_decimal, append_percent, spec_decimal_text, spec_percent};
use crate::torrent_file::{field, spec_field, MetadataError, MetadataFault, TorrentFile, TorrentModel};

verus! {

/// The dot that stands between the numbers of an address.
pub const DOT: u8 = 0x2e;

/// Where a peer listens: an IPv4 address and a port.
#[derive(Debug, Clone, Copy, PartialEq, Eq)]
pub struct Peer {
    pub ip_addr: [u8; 4],
    pub port_number: u16,
}

/// The mathematical value of a `Peer`.
pub ghost struct PeerModel {
    pub ip: Seq<u8>,
    pub port: int,
}

impl View for Peer {
    type V = PeerModel;

    open spec fn view(&self) -> PeerModel {
        PeerModel { ip: self.ip_addr@, port: self.port_number as int }
    }
}

/// The peers as their mathematical values.
pub open spec fn peers_view(peers: Seq<Peer>) -> Seq<PeerModel> {
    Seq::new(peers.len(), |i: int| peers[i]@)
}

/// The peers of a compact list: six bytes each, four of address and two of
/// port, most significant byte first.
pub open spec fn spec_compact_peers(bytes: Seq<u8>) -> Seq<PeerModel> {
    Seq::new(
        (bytes.len() / 6) as nat,
        |i: int| PeerModel { ip: bytes.subrange(6 * i, 6 * i + 4), port: bytes[6 * i + 4] * 256 + bytes[6 * i + 5] },
    )
}

/// The number between 0 and 255 that is written at `pos` in one to three
/// digits, without a leading zero but for `0` itself, and the index after it.
pub open spec fn spec_octet_at(s: Seq<u8>, pos: int) -> Option<(u8, int)> {
    let end = digits_end(s, pos);
    if pos < 0 || pos > s.len() || end == pos || end - pos > 3 {
        None
    } else if s[pos] == DIGIT_ZERO && end > pos + 1 {
        None
    } else if digits_value(s.subrange(pos, end)) > 255 {
        None
    } else {
        Some((digits_value(s.subrange(pos, end)) as u8, end))
    }
}

/// The number at `pos` if a dot stands behind it, and the index after the
/// dot.
pub open spec fn spec_octet_dot_at(s: Seq<u8>, pos: int) -> Option<(u8, int)> {
    match spec_octet_at(s, pos) {
        Some((value, end)) => if end < s.len() && s[end] == DOT {
            Some((value, end + 1))
        } else {
            None
        },
        None => None,
    }
}

/// The address that `s` writes in dotted decimal: four numbers between 0
/// and 255 with dots between them, and nothing else.
pub open spec fn spec_parse_ipv4(s: Seq<u8>) -> Option<Seq<u8>> {
    if spec_octet_dot_at(s, 0) is None {
        None
    } else {
        let (a, second) = spec_octet_dot_at(s, 0)->0;
        if spec_octet_dot_at(s, second) is None {
            None
        } else {
            let (b, third) = spec_octet_dot_at(s, second)->0;
            if spec_octet_dot_at(s, third) is None {
                None
            } else {
                let (c, fourth) = spec_octet_dot_at(s, third)->0;
                if spec_octet_at(s, fourth) is None {
                    None
                } else {
                    let (d, end) = spec_octet_at(s, fourth)->0;
                    if end == s.len() {
                        Some(seq![a, b, c, d])
                    } else {
                        None
                    }
                }
            }
        }
    }
}

/// The peer that one entry of a list of dictionaries names: `ip` is a byte
/// string that writes an IPv4 address in dotted decimal, `port` an integer
/// between 0 and 65535.
pub open spec fn spec_peer_entry(item: Bencode) -> Result<PeerModel, MetadataFault> {
    let ip = spec_field(item, "ip"@);
    let port = spec_field(item, "port"@);
    if ip is None {
        Err(MetadataFault::MissingField("ip"@))
    } else if !(ip->0 is Bytes && spec_parse_ipv4(ip->0->Bytes_0) is Some) {
        Err(MetadataFault::WrongType("ip"@))
    } else if port is None {
        Err(MetadataFault::MissingField("port"@))
    } else if !(port->0 is Integer && 0 <= port->0->Integer_0 <= 65535) {
        Err(MetadataFault::WrongType("port"@))
    } else {
        Ok(PeerModel { ip: spec_parse_ipv4(ip->0->Bytes_0)->0, port: port->0->Integer_0 })
    }
}

/// The peers that a list of dictionaries names, in the order of the list;
/// the first entry that names none decides the error.
pub open spec fn spec_peer_list(items: Seq<Bencode>) -> Result<Seq<PeerModel>, MetadataFault>
    decreases items.len(),
{
    if items.len() == 0 {
        Ok(Seq::empty())
    } else {
        match spec_peer_list(items.drop_last()) {
            Err(e) => Err(e),
            Ok(front) => match spec_peer_entry(items.last()) {
                Err(e) => Err(e),
                Ok(peer) => Ok(front.push(peer)),
            },
        }
    }
}

/// The peers that a tracker's answer names under `peers`: a byte string is a
/// compact list, whose length has to be a multiple of six; a list is a list
/// of dictionaries.
pub open spec fn spec_parse_tracker_response(v: Bencode) -> Result<Seq<PeerModel>, MetadataFault> {
    match spec_field(v, "peers"@) {
        None => Err(MetadataFault::MissingField("peers"@)),
        Some(Bencode::Bytes(b)) => if b.len() % 6 == 0 {
            Ok(spec_compact_peers(b))
        } else {
            Err(MetadataFault::InvalidPeerList)
        },
        Some(Bencode::List(items)) => spec_peer_list(items),
        Some(_) => Err(MetadataFault::WrongType("peers"@)),
    }
}

/// The address at which the tracker of `t` is asked for peers: the
/// tracker's address, then the content hash and the client's id with every
/// byte escaped, the port on which the client listens, nothing uploaded or
/// downloaded yet, all of the content left, and a compact answer asked for.
pub open spec fn spec_tracker_url(t: TorrentModel, client_id: Seq<u8>, listen_port: u16) -> Seq<char> {
    t.announce + "?info_hash="@ + spec_percent(t.info_hash) + "&peer_id="@ + spec_percent(client_id) + "&port="@
        + spec_decimal_text(listen_port as nat) + "&uploaded=0&downloaded=0&left="@ + spec_decimal_text(
        t.total_length as nat,
    ) + "&compact=1"@
}

/// The address at which the tracker is asked for peers.
pub fn build_tracker_request_url(descriptor: &TorrentFile, client_id: &[u8; 20], listen_port: u16) -> (url: String)
    ensures
        url@ == spec_tracker_url(descriptor@, client_id@, listen_port),
{
    let mut url = descriptor.announce().clone();
    url.append("?info_hash=");
    let info_hash = descriptor.info_hash();
    append_percent(&mut url, info_hash.as_slice());
    url.append("&peer_id=");
    append_percent(&mut url, client_id.as_slice());
    url.append("&port=");
    append_decimal(&mut url, listen_port as u64);
    url.append("&uploaded=0&downloaded=0&left=");
    append_decimal(&mut url, descriptor.total_length());
    url.append("&compact=1");
    url
}

/// Reads the number between 0 and 255 at `pos`.
fn octet_at(s: &[u8], pos: usize) -> (r: Option<(u8, usize)>)
    requires
        pos <= s.len(),
    ensures
        match r {
            Some((value, end)) => spec_octet_at(s@, pos as int) == Some((value, end as int)) && pos < end <= s.len(),
            None => spec_octet_at(s@, pos as int) is None,
        },
{
    let (end, value) = scan_digits(s, pos, 255);
    if end == pos || end - pos > 3 {
        return None;
    }
    if s[pos] == DIGIT_ZERO && end > pos + 1 {
        return None;
    }
    match value {
        None => None,
        Some(v) => Some((v as u8, end)),
    }
}

/// Reads the number at `pos` and the dot behind it.
fn octet_dot_at(s: &[u8], pos: usize) -> (r: Option<(u8, usize)>)
    requires
        pos <= s.len(),
    ensures
        match r {
            Some((value, next)) => spec_octet_dot_at(s@, pos as int) == Some((value, next as int)) && pos < next
                <= s.len(),
            None => spec_octet_dot_at(s@, pos as int) is None,
        },
{
    match octet_at(s, pos) {
        Some((value, end)) => {
            if end < s.len() && s[end] == DOT {
                Some((value, end + 1))
            } else {
                None
            }
        },
        None => None,
    }
}

/// Reads an IPv4 address in dotted decimal.
pub fn parse_ipv4(s: &[u8]) -> (r: Option<[u8; 4]>)
    ensures
        match r {
            Some(ip) => spec_parse_ipv4(s@) == Some(ip@),
            None => spec_parse_ipv4(s@) is None,
        },
{
    let (a, second) = match octet_dot_at(s, 0) {
        Some(found) => found,
        None => {
            return None;
        },
    };
    let (b, third) = match octet_dot_at(s, second) {
        Some(found) => found,
        None => {
            return None;
        },
    };
    let (c, fourth) = match octet_dot_at(s, third) {
        Some(found) => found,
        None => {
            return None;
        },
    };
    let (d, end) = match octet_at(s, fourth) {
        Some(found) => found,
        None => {
            return None;
        },
    };
    if end != s.len() {
        return None;
    }
    let ip: [u8; 4] = [a, b, c, d];
    assert(ip@ =~= seq![a, b, c, d]);
    Some(ip)
}

/// Reads one entry of a list of dictionaries.
fn peer_entry(item: &BencodeValue) -> (r: Result<Peer, MetadataError>)
    ensures
        match r {
            Ok(peer) => spec_peer_entry(item@) == Ok::<PeerModel, MetadataFault>(peer@),
            Err(e) => spec_peer_entry(item@) == Err::<PeerModel, MetadataFault>(e@),
        },
{
    let ip_addr: [u8; 4] = match field(item, "ip") {
        None => {
            return Err(MetadataError::MissingField(String::from_str("ip")));
        },
        Some(BencodeValue::String(text)) => match parse_ipv4(text.as_slice()) {
            Some(ip) => ip,
            None => {
                return Err(MetadataError::WrongType(String::from_str("ip")));
            },
        },
        Some(_) => {
            return Err(MetadataError::WrongType(String::from_str("ip")));
        },
    };
    let port_number: u16 = match field(item, "port") {
        None => {
            return Err(MetadataError::MissingField(String::from_str("port")));
        },
        Some(BencodeValue::Integer(i)) => {
            if *i < 0 || *i > 65535 {
                return Err(MetadataError::WrongType(String::from_str("port")));
            }
            *i as u16
        },
        Some(_) => {
            return Err(MetadataError::WrongType(String::from_str("port")));
        },
    };
    Ok(Peer { ip_addr, port_number })
}

/// The peers of a compact list.
fn compact_peers(bytes: &[u8]) -> (peers: Vec<Peer>)
    requires
        bytes@.len() % 6 == 0,
    ensures
        peers_view(peers@) == spec_compact_peers(bytes@),
{
    let count: usize = bytes.len() / 6;
    let mut peers: Vec<Peer> = Vec::with_capacity(count);
    let mut i: usize = 0;
    while i < count
        invariant
            i <= count,
            count == bytes@.len() / 6,
            bytes@.len() % 6 == 0,
            bytes@.len() <= usize::MAX,
            peers@.len() == i,
            forall|j: int| 0 <= j < i ==> (#[trigger] peers@[j])@ == spec_compact_peers(bytes@)[j],
        decreases count - i,
    {
        assert(6 * i + 6 <= bytes@.len());
        let at: usize = 6 * i;
        let ip_addr: [u8; 4] = [bytes[at], bytes[at + 1], bytes[at + 2], bytes[at + 3]];
        let port_number: u16 = (bytes[at + 4] as u16) * 256 + bytes[at + 5] as u16;
        assert(ip_addr@ =~= bytes@.subrange(6 * i, 6 * i + 4));
        peers.push(Peer { ip_addr, port_number });
        i += 1;
    }
    assert(peers_view(peers@) =~= spec_compact_peers(bytes@));
    peers
}

/// The peers that a tracker's decoded answer names.
#[verifier::loop_isolation(false)]
pub fn parse_tracker_response(value: &BencodeValue) -> (r: Result<Vec<Peer>, MetadataError>)
    ensures
        match r {
            Ok(peers) => spec_parse_tracker_response(value@) == Ok::<Seq<PeerModel>, MetadataFault>(
                peers_view(peers@),
            ),
            Err(e) => spec_parse_tracker_response(value@) == Err::<Seq<PeerModel>, MetadataFault>(e@),
        },
{
    match field(value, "peers") {
        None => Err(MetadataError::MissingField(String::from_str("peers"))),
        Some(BencodeValue::String(bytes)) => {
            if bytes.len() % 6 == 0 {
                Ok(compact_peers(bytes.as_slice()))
            } else {
                Err(MetadataError::InvalidPeerList)
            }
        },
        Some(BencodeValue::List(items)) => {
            let ghost all = list_view(items@);
            proof {
                lemma_list_view(*items);
            }
            let mut peers: Vec<Peer> = Vec::new();
            let mut i: usize = 0;
            assert(all.take(0) =~= Seq::<Bencode>::empty());
            assert(peers_view(peers@) =~= Seq::<PeerModel>::empty());
            while i < items.len()
                invariant
                    i <= items.len(),
                    all == list_view(items@),
                    spec_peer_list(all.take(i as int)) == Ok::<Seq<PeerModel>, MetadataFault>(peers_view(peers@)),
                decreases items.len() - i,
            {
                assert(all.take(i + 1).drop_last() =~= all.take(i as int));
                assert(all.take(i + 1).last() == items@[i as int]@);
                match peer_entry(&items[i]) {
                    Err(e) => {
                        proof {
                            lemma_peer_list_fails(all, i + 1);
                        }
                        return Err(e);
                    },
                    Ok(peer) => {
                        assert(peers_view(peers@.push(peer)) =~= peers_view(peers@).push(peer@));
                        peers.push(peer);
                    },
                }
                i += 1;
            }
            assert(all.take(items.len() as int) =~= all);
            Ok(peers)
        },
        Some(_) => Err(MetadataError::WrongType(String::from_str("peers"))),
    }
}

/// A list of which a front part names no peers names none, for the same
/// reason.
proof fn lemma_peer_list_fails(items: Seq<Bencode>, k: int)
    requires
        0 <= k <= items.len(),
        spec_peer_list(items.take(k)) is Err,
    ensures
        spec_peer_list(items) == spec_peer_list(items.take(k)),
    decreases items.len() - k,
{
    if k < items.len() {
        assert(items.take(k + 1).drop_last() =~= items.take(k));
        lemma_peer_list_fails(items, k + 1);
    } else {
        assert(items.take(k) =~= items);
    }
}

} // verus!
