use torrent_core::bencode::{BencodeValue, Dict};
use torrent_core::torrent_file::TorrentFile;

#[test]
fn find_key_in_bencode() {
    let mut input_map = Dict::new();
    input_map.insert("announce".as_bytes().to_vec(), BencodeValue::String("url".as_bytes().to_vec()));
    let input_bencode = BencodeValue::Dictionary(input_map);

    let result = TorrentFile::find_key_in_bencode(input_bencode, "announce".to_string());
    assert!(result.is_ok());
    assert_eq!(result.unwrap(), "url");
}

#[test]
fn create_torrent_from_bencode() {
    let mut input_map = Dict::new();
    input_map.insert("announce".as_bytes().to_vec(), BencodeValue::String("url".as_bytes().to_vec()));
    let input_bencode = BencodeValue::Dictionary(input_map);
    let result = TorrentFile::new_from_bencode(input_bencode);
    println!("{:?}", result)
}

use torrent_core::bencode::codec::{decode, encode, CodecError};
use torrent_core::torrent_file::MetadataError;

fn forty_bytes() -> Vec<u8> {
    (0u8..40).collect()
}

fn metadata_bytes(announce_prefix: &str) -> Vec<u8> {
    let mut v = Vec::new();
    v.extend_from_slice(b"d8:announce");
    v.extend_from_slice(announce_prefix.as_bytes());
    v.extend_from_slice(b"http://x.com4:infod6:lengthi100e12:piece lengthi50e6:pieces40:");
    v.extend_from_slice(&forty_bytes());
    v.extend_from_slice(b"ee");
    v
}

fn info_dict(length: i64, piece_length: i64, pieces: Vec<u8>) -> Dict {
    let mut info = Dict::new();
    info.insert(b"length".to_vec(), BencodeValue::Integer(length));
    info.insert(b"piece length".to_vec(), BencodeValue::Integer(piece_length));
    info.insert(b"pieces".to_vec(), BencodeValue::String(pieces));
    info
}

fn metadata(info: Dict) -> BencodeValue {
    let mut top = Dict::new();
    top.insert(b"announce".to_vec(), BencodeValue::String(b"http://tracker.test/announce".to_vec()));
    top.insert(b"info".to_vec(), BencodeValue::Dictionary(info));
    BencodeValue::Dictionary(top)
}

fn missing(name: &str) -> MetadataError {
    MetadataError::MissingField(name.to_string())
}

fn wrong(name: &str) -> MetadataError {
    MetadataError::WrongType(name.to_string())
}

fn error_of(value: &BencodeValue) -> MetadataError {
    TorrentFile::from_value(value).unwrap_err()
}

#[test]
fn descriptor_from_a_decoded_metadata_file() {
    let bytes = metadata_bytes("12:");
    let (value, consumed) = decode(&bytes).unwrap();
    assert_eq!(consumed, bytes.len());
    let torrent = TorrentFile::from_value(&value).unwrap();
    assert_eq!(torrent.announce(), "http://x.com");
    assert_eq!(torrent.total_length(), 100);
    assert_eq!(torrent.piece_length(), 50);
    assert_eq!(torrent.piece_total(), 2);
    let pieces = forty_bytes();
    assert_eq!(torrent.checksum(0).to_vec(), pieces[0..20].to_vec());
    assert_eq!(torrent.checksum(1).to_vec(), pieces[20..40].to_vec());
    assert_eq!(torrent.name(), &None);
    assert_eq!(torrent.piece_size(0), 50);
    assert_eq!(torrent.piece_size(1), 50);
}

#[test]
fn announce_length_prefix_one_too_long_is_malformed() {
    assert_eq!(decode(&metadata_bytes("13:")), Err(CodecError::MalformedEncoding));
}

#[test]
fn info_hash_is_the_digest_of_the_encoded_info_dictionary() {
    let (value, _) = decode(&metadata_bytes("12:")).unwrap();
    let torrent = TorrentFile::from_value(&value).unwrap();
    let expected: [u8; 20] = [
        0xbb, 0xc0, 0x94, 0x5c, 0xdb, 0x3b, 0xa2, 0xee, 0xaf, 0xab, 0x6e, 0x26, 0xbf, 0x78, 0x5a, 0x6a, 0x51, 0x47,
        0x38, 0xe9,
    ];
    assert_eq!(torrent.info_hash(), expected);
}

#[test]
fn info_hash_does_not_depend_on_the_order_of_keys_in_the_file() {
    let mut shuffled = Vec::new();
    shuffled.extend_from_slice(b"d4:infod6:pieces40:");
    shuffled.extend_from_slice(&forty_bytes());
    shuffled.extend_from_slice(b"12:piece lengthi50e6:lengthi100ee8:announce12:http://x.come");
    let (value, _) = decode(&shuffled).unwrap();
    let (sorted, _) = decode(&metadata_bytes("12:")).unwrap();
    assert_eq!(encode(&value), metadata_bytes("12:"));
    assert_eq!(
        TorrentFile::from_value(&value).unwrap().info_hash(),
        TorrentFile::from_value(&sorted).unwrap().info_hash()
    );
}

#[test]
fn name_is_read_when_it_is_there() {
    let mut info = info_dict(100, 50, forty_bytes());
    info.insert(b"name".to_vec(), BencodeValue::String("fi\u{e9}le.bin".as_bytes().to_vec()));
    let torrent = TorrentFile::from_value(&metadata(info)).unwrap();
    assert_eq!(torrent.name(), &Some("fi\u{e9}le.bin".to_string()));
    assert_eq!(torrent.announce(), "http://tracker.test/announce");
}

#[test]
fn absent_keys_are_reported_by_name() {
    assert_eq!(error_of(&BencodeValue::Dictionary(Dict::new())), missing("announce"));
    assert_eq!(error_of(&BencodeValue::Integer(3)), missing("announce"));
    let mut only_announce = Dict::new();
    only_announce.insert(b"announce".to_vec(), BencodeValue::String(b"u".to_vec()));
    assert_eq!(error_of(&BencodeValue::Dictionary(only_announce)), missing("info"));

    let mut no_piece_length = Dict::new();
    no_piece_length.insert(b"length".to_vec(), BencodeValue::Integer(100));
    no_piece_length.insert(b"pieces".to_vec(), BencodeValue::String(forty_bytes()));
    assert_eq!(error_of(&metadata(no_piece_length)), missing("piece length"));

    let mut no_pieces = Dict::new();
    no_pieces.insert(b"length".to_vec(), BencodeValue::Integer(100));
    no_pieces.insert(b"piece length".to_vec(), BencodeValue::Integer(50));
    assert_eq!(error_of(&metadata(no_pieces)), missing("pieces"));

    let mut no_length = Dict::new();
    no_length.insert(b"piece length".to_vec(), BencodeValue::Integer(50));
    no_length.insert(b"pieces".to_vec(), BencodeValue::String(forty_bytes()));
    assert_eq!(error_of(&metadata(no_length)), missing("length"));
}

#[test]
fn mismatched_keys_are_reported_by_name() {
    let mut bad_announce = Dict::new();
    bad_announce.insert(b"announce".to_vec(), BencodeValue::Integer(1));
    assert_eq!(error_of(&BencodeValue::Dictionary(bad_announce)), wrong("announce"));

    let mut not_text = Dict::new();
    not_text.insert(b"announce".to_vec(), BencodeValue::String(vec![0xff, 0xfe]));
    assert_eq!(error_of(&BencodeValue::Dictionary(not_text)), wrong("announce"));

    let mut bad_info = Dict::new();
    bad_info.insert(b"announce".to_vec(), BencodeValue::String(b"u".to_vec()));
    bad_info.insert(b"info".to_vec(), BencodeValue::List(vec![]));
    assert_eq!(error_of(&BencodeValue::Dictionary(bad_info)), wrong("info"));

    assert_eq!(error_of(&metadata(info_dict(100, 0, forty_bytes()))), wrong("piece length"));
    assert_eq!(error_of(&metadata(info_dict(100, -50, forty_bytes()))), wrong("piece length"));
    assert_eq!(error_of(&metadata(info_dict(100, 4294967296, forty_bytes()))), wrong("piece length"));
    assert_eq!(error_of(&metadata(info_dict(-1, 50, forty_bytes()))), wrong("length"));

    let mut pieces_is_list = info_dict(100, 50, forty_bytes());
    pieces_is_list.insert(b"pieces".to_vec(), BencodeValue::List(vec![]));
    assert_eq!(error_of(&metadata(pieces_is_list)), wrong("pieces"));

    let mut bad_name = info_dict(100, 50, forty_bytes());
    bad_name.insert(b"name".to_vec(), BencodeValue::Integer(5));
    assert_eq!(error_of(&metadata(bad_name)), wrong("name"));
}

#[test]
fn pieces_must_be_whole_digests() {
    let mut short = forty_bytes();
    short.pop();
    assert_eq!(error_of(&metadata(info_dict(100, 50, short))), wrong("pieces"));
}

#[test]
fn piece_count_matches_the_lengths() {
    assert!(TorrentFile::from_value(&metadata(info_dict(100, 50, forty_bytes()))).is_ok());
    assert!(TorrentFile::from_value(&metadata(info_dict(51, 50, forty_bytes()))).is_ok());
    assert_eq!(error_of(&metadata(info_dict(101, 50, forty_bytes()))), wrong("pieces"));
    assert_eq!(error_of(&metadata(info_dict(50, 50, forty_bytes()))), wrong("pieces"));
    assert_eq!(error_of(&metadata(info_dict(0, 50, forty_bytes()))), wrong("pieces"));
    let empty = TorrentFile::from_value(&metadata(info_dict(0, 50, vec![]))).unwrap();
    assert_eq!(empty.piece_total(), 0);
    let many = TorrentFile::from_value(&metadata(info_dict(16385, 16384, forty_bytes()))).unwrap();
    assert_eq!(many.piece_total(), 2);
}

#[test]
fn last_piece_may_be_shorter() {
    let torrent = TorrentFile::from_value(&metadata(info_dict(75, 50, forty_bytes()))).unwrap();
    assert_eq!(torrent.piece_size(0), 50);
    assert_eq!(torrent.piece_size(1), 25);
}

#[test]
fn find_key_reports_why_there_is_no_text() {
    let key = || "announce".to_string();
    assert_eq!(
        TorrentFile::find_key_in_bencode(BencodeValue::Integer(1), key()),
        Err("Not a dictionary provided".to_string())
    );
    assert_eq!(
        TorrentFile::find_key_in_bencode(BencodeValue::Dictionary(Dict::new()), key()),
        Err("Key not found".to_string())
    );
    let mut number = Dict::new();
    number.insert(b"announce".to_vec(), BencodeValue::Integer(1));
    assert_eq!(
        TorrentFile::find_key_in_bencode(BencodeValue::Dictionary(number), key()),
        Err("Not a string in the key".to_string())
    );
    let mut garbage = Dict::new();
    garbage.insert(b"announce".to_vec(), BencodeValue::String(vec![0xc3, 0x28]));
    assert_eq!(
        TorrentFile::find_key_in_bencode(BencodeValue::Dictionary(garbage), key()),
        Err("Invalid UTF-8 bytes".to_string())
    );
}

#[test]
fn new_from_bencode_builds_the_whole_descriptor() {
    let (value, _) = decode(&metadata_bytes("12:")).unwrap();
    let torrent = TorrentFile::new_from_bencode(value).unwrap();
    assert_eq!(torrent.announce(), "http://x.com");
    assert_eq!(torrent.total_length(), 100);
    assert_eq!(torrent.piece_length(), 50);
    assert_eq!(torrent.piece_total(), 2);
    let pieces = forty_bytes();
    assert_eq!(torrent.checksum(0).to_vec(), pieces[0..20].to_vec());
    assert_eq!(torrent.checksum(1).to_vec(), pieces[20..40].to_vec());
    let expected: [u8; 20] = [
        0xbb, 0xc0, 0x94, 0x5c, 0xdb, 0x3b, 0xa2, 0xee, 0xaf, 0xab, 0x6e, 0x26, 0xbf, 0x78, 0x5a, 0x6a, 0x51, 0x47,
        0x38, 0xe9,
    ];
    assert_eq!(torrent.info_hash(), expected);
}

#[test]
fn new_from_bencode_explains_failure() {
    let failed = |value: BencodeValue| TorrentFile::new_from_bencode(value).unwrap_err();
    assert_eq!(failed(BencodeValue::Dictionary(Dict::new())), "missing field: announce");
    assert_eq!(failed(BencodeValue::Integer(1)), "missing field: announce");
    let mut only_announce = Dict::new();
    only_announce.insert("announce".as_bytes().to_vec(), BencodeValue::String("url".as_bytes().to_vec()));
    assert_eq!(failed(BencodeValue::Dictionary(only_announce)), "missing field: info");
    let mut short = forty_bytes();
    short.pop();
    assert_eq!(failed(metadata(info_dict(100, 50, short))), "wrong type of field: pieces");
    assert_eq!(failed(metadata(info_dict(101, 50, forty_bytes()))), "wrong type of field: pieces");
    assert_eq!(failed(metadata(info_dict(100, 0, forty_bytes()))), "wrong type of field: piece length");
    let mut no_length = Dict::new();
    no_length.insert(b"piece length".to_vec(), BencodeValue::Integer(50));
    no_length.insert(b"pieces".to_vec(), BencodeValue::String(forty_bytes()));
    assert_eq!(failed(metadata(no_length)), "missing field: length");
}

#[test]
fn new_from_bencode_does_not_depend_on_the_order_of_insertion() {
    let mut forward = Dict::new();
    forward.insert(b"length".to_vec(), BencodeValue::Integer(100));
    forward.insert(b"piece length".to_vec(), BencodeValue::Integer(50));
    forward.insert(b"pieces".to_vec(), BencodeValue::String(forty_bytes()));
    let mut backward = Dict::new();
    backward.insert(b"pieces".to_vec(), BencodeValue::String(forty_bytes()));
    backward.insert(b"piece length".to_vec(), BencodeValue::Integer(50));
    backward.insert(b"length".to_vec(), BencodeValue::Integer(100));
    let first = TorrentFile::new_from_bencode(metadata(forward)).unwrap();
    let second = TorrentFile::new_from_bencode(metadata(backward)).unwrap();
    assert_eq!(first.info_hash(), second.info_hash());
    let expected: [u8; 20] = [
        0xbb, 0xc0, 0x94, 0x5c, 0xdb, 0x3b, 0xa2, 0xee, 0xaf, 0xab, 0x6e, 0x26, 0xbf, 0x78, 0x5a, 0x6a, 0x51, 0x47,
        0x38, 0xe9,
    ];
    assert_eq!(first.info_hash(), expected);
}

#[test]
fn bare_descriptor_names_only_the_tracker() {
    let torrent = TorrentFile::new("url".to_string());
    assert_eq!(torrent.announce(), "url");
    assert_eq!(torrent.total_length(), 0);
    assert_eq!(torrent.piece_total(), 0);
    assert_eq!(torrent.piece_length(), 1);
    assert_eq!(torrent.info_hash(), [0u8; 20]);
    assert_eq!(torrent.name(), &None);
}

#[test]
fn metadata_errors_have_texts() {
    assert_eq!(MetadataError::MissingField("info".to_string()).message(), "missing field: info");
    assert_eq!(MetadataError::WrongType("piece length".to_string()).message(), "wrong type of field: piece length");
    assert_eq!(MetadataError::InvalidPeerList.message(), "invalid peer list");
}
