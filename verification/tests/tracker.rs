use torrent_core::bencode::{BencodeValue, Dict};
use torrent_core::text::text_of;
use torrent_core::torrent_file::{MetadataError, TorrentFile};
use torrent_core::tracker::{build_tracker_request_url, parse_ipv4, parse_tracker_response, Peer};

fn response(peers: BencodeValue) -> BencodeValue {
    let mut top = Dict::new();
    top.insert(b"interval".to_vec(), BencodeValue::Integer(1800));
    top.insert(b"peers".to_vec(), peers);
    BencodeValue::Dictionary(top)
}

fn peer_entry(ip: &str, port: i64) -> BencodeValue {
    let mut d = Dict::new();
    d.insert(b"ip".to_vec(), BencodeValue::String(ip.as_bytes().to_vec()));
    d.insert(b"port".to_vec(), BencodeValue::Integer(port));
    BencodeValue::Dictionary(d)
}

#[test]
fn compact_list_of_twelve_bytes_names_two_peers() {
    let raw = vec![192, 168, 1, 10, 0x1a, 0xe1, 10, 0, 0, 255, 0xff, 0xff];
    let peers = parse_tracker_response(&response(BencodeValue::String(raw))).unwrap();
    assert_eq!(
        peers,
        vec![
            Peer { ip_addr: [192, 168, 1, 10], port_number: 6881 },
            Peer { ip_addr: [10, 0, 0, 255], port_number: 65535 },
        ]
    );
}

#[test]
fn compact_list_must_be_made_of_whole_peers() {
    assert_eq!(
        parse_tracker_response(&response(BencodeValue::String(vec![1, 2, 3, 4, 5, 6, 7]))),
        Err(MetadataError::InvalidPeerList)
    );
    assert_eq!(
        parse_tracker_response(&response(BencodeValue::String(vec![1, 2, 3, 4, 5]))),
        Err(MetadataError::InvalidPeerList)
    );
    assert_eq!(parse_tracker_response(&response(BencodeValue::String(vec![]))), Ok(vec![]));
}

#[test]
fn list_of_dictionaries_names_peers_in_order() {
    let list = BencodeValue::List(vec![peer_entry("127.0.0.1", 6881), peer_entry("8.8.4.4", 0)]);
    assert_eq!(
        parse_tracker_response(&response(list)),
        Ok(vec![
            Peer { ip_addr: [127, 0, 0, 1], port_number: 6881 },
            Peer { ip_addr: [8, 8, 4, 4], port_number: 0 },
        ])
    );
}

#[test]
fn broken_entries_are_reported() {
    let missing = |n: &str| Err(MetadataError::MissingField(n.to_string()));
    let wrong = |n: &str| Err(MetadataError::WrongType(n.to_string()));
    assert_eq!(parse_tracker_response(&BencodeValue::Dictionary(Dict::new())), missing("peers"));
    assert_eq!(parse_tracker_response(&BencodeValue::Integer(0)), missing("peers"));
    assert_eq!(parse_tracker_response(&response(BencodeValue::Integer(5))), wrong("peers"));
    let list = |item: BencodeValue| response(BencodeValue::List(vec![peer_entry("1.2.3.4", 1), item]));
    assert_eq!(parse_tracker_response(&list(peer_entry("1.2.3", 1))), wrong("ip"));
    assert_eq!(parse_tracker_response(&list(peer_entry("1.2.3.4", 65536))), wrong("port"));
    assert_eq!(parse_tracker_response(&list(peer_entry("1.2.3.4", -1))), wrong("port"));
    assert_eq!(parse_tracker_response(&list(BencodeValue::Integer(1))), missing("ip"));
    let mut no_port = Dict::new();
    no_port.insert(b"ip".to_vec(), BencodeValue::String(b"1.2.3.4".to_vec()));
    assert_eq!(parse_tracker_response(&list(BencodeValue::Dictionary(no_port))), missing("port"));
    let both_bad = response(BencodeValue::List(vec![peer_entry("x", 1), peer_entry("1.2.3.4", -1)]));
    assert_eq!(parse_tracker_response(&both_bad), wrong("ip"));
}

#[test]
fn dotted_decimal_addresses() {
    assert_eq!(parse_ipv4(b"0.0.0.0"), Some([0, 0, 0, 0]));
    assert_eq!(parse_ipv4(b"255.255.255.255"), Some([255, 255, 255, 255]));
    assert_eq!(parse_ipv4(b"192.168.1.10"), Some([192, 168, 1, 10]));
    assert_eq!(parse_ipv4(b"256.1.1.1"), None);
    assert_eq!(parse_ipv4(b"1.2.3"), None);
    assert_eq!(parse_ipv4(b"1.2.3.4.5"), None);
    assert_eq!(parse_ipv4(b"1.2.3.4 "), None);
    assert_eq!(parse_ipv4(b"01.2.3.4"), None);
    assert_eq!(parse_ipv4(b"1..3.4"), None);
    assert_eq!(parse_ipv4(b"1.2.3."), None);
    assert_eq!(parse_ipv4(b""), None);
    assert_eq!(parse_ipv4(b"0001.2.3.4"), None);
    assert_eq!(parse_ipv4(b"::1"), None);
}

#[test]
fn tracker_url_escapes_every_byte() {
    let mut info = Dict::new();
    info.insert(b"length".to_vec(), BencodeValue::Integer(100));
    info.insert(b"piece length".to_vec(), BencodeValue::Integer(50));
    info.insert(b"pieces".to_vec(), BencodeValue::String((0u8..40).collect()));
    let mut top = Dict::new();
    top.insert(b"announce".to_vec(), BencodeValue::String(b"http://x.com".to_vec()));
    top.insert(b"info".to_vec(), BencodeValue::Dictionary(info));
    let torrent = TorrentFile::from_value(&BencodeValue::Dictionary(top)).unwrap();
    let client_id = *b"01234567890123456789";
    let url = build_tracker_request_url(&torrent, &client_id, 6881);
    assert_eq!(
        url,
        "http://x.com?info_hash=%BB%C0%94%5C%DB%3B%A2%EE%AF%AB%6E%26%BF%78%5A%6A%51%47%38%E9\
         &peer_id=%30%31%32%33%34%35%36%37%38%39%30%31%32%33%34%35%36%37%38%39\
         &port=6881&uploaded=0&downloaded=0&left=100&compact=1"
    );
    let low = build_tracker_request_url(&TorrentFile::new("t".to_string()), &[0u8; 20], 0);
    assert_eq!(
        low,
        "t?info_hash=%00%00%00%00%00%00%00%00%00%00%00%00%00%00%00%00%00%00%00%00\
         &peer_id=%00%00%00%00%00%00%00%00%00%00%00%00%00%00%00%00%00%00%00%00\
         &port=0&uploaded=0&downloaded=0&left=0&compact=1"
    );
}

#[test]
fn text_is_read_only_from_valid_utf8() {
    assert_eq!(text_of(b"plain"), Some("plain".to_string()));
    assert_eq!(text_of("gr\u{fc}n \u{1f600}".as_bytes()), Some("gr\u{fc}n \u{1f600}".to_string()));
    assert_eq!(text_of(b""), Some(String::new()));
    assert_eq!(text_of(&[0xff]), None);
    assert_eq!(text_of(&[0xc0, 0x80]), None);
    assert_eq!(text_of(&[0xed, 0xa0, 0x80]), None);
    assert_eq!(text_of(&[0xe2, 0x82]), None);
    assert_eq!(text_of(&[0xc1, 0xbf]), None);
    assert_eq!(text_of(&[0xf4, 0x90, 0x80, 0x80]), None);
    assert_eq!(text_of(&[0xf5, 0x80, 0x80, 0x80]), None);
    assert_eq!(text_of(&[0x80]), None);
    assert_eq!(text_of(&[0xf4, 0x8f, 0xbf, 0xbf]), Some("\u{10ffff}".to_string()));
    assert_eq!(text_of(&[0xed, 0x9f, 0xbf]), Some("\u{d7ff}".to_string()));
    assert_eq!(text_of(&[0xee, 0x80, 0x80]), Some("\u{e000}".to_string()));
    assert_eq!(text_of(&[0xc2, 0x80]), Some("\u{80}".to_string()));
}
