use pdc::services::metadata_service::{
    accept_metadata, assemble_metadata, build_extension_message, build_handshake,
    build_piece_request, classify_message, conclude_attempts, make_peer_id, next_peer, parse_handshake,
    parse_info_dict, parse_piece_response, read_extension_handshake, total_pieces, AttemptsError,
    ExtensionError, FetchStart, HandshakeError, InfoDictError, MetadataError, MetadataService,
    PeerMessage, PieceError, TorrentFile,
};
use pdc::bencode::{parse, DictEndError};
use pdc::types::PeerAddr;

fn peer() -> PeerAddr {
    PeerAddr::V4 { ip: 0x7f000001, port: 6881 }
}

#[test]
fn test_find_bencode_dict_end() {
    let service = MetadataService::new();
    assert_eq!(service.find_bencode_dict_end(b"d3:key5:valuee").ok(), Some(14));
    assert_eq!(service.find_bencode_dict_end(b"d1:ad1:b1:cee").ok(), Some(13));
    assert_eq!(service.find_bencode_dict_end(b"d8:msg_typei1e5:piecei0ee").ok(), Some(25));
}

#[test]
fn dict_end_errors() {
    let service = MetadataService::new();
    assert!(matches!(service.find_bencode_dict_end(b"i1e"), Err(DictEndError::NotADict)));
    assert!(matches!(service.find_bencode_dict_end(b"d3:key"), Err(DictEndError::NotTerminated)));
    assert!(matches!(
        service.find_bencode_dict_end(b"d?"),
        Err(DictEndError::UnexpectedByte(b'?'))
    ));
}

#[test]
fn test_parse_info_dict_single_file() {
    let mut info_dict = Vec::new();
    info_dict.extend_from_slice(b"d4:name8:test.bin12:piece lengthi262144e6:pieces20:");
    info_dict.extend_from_slice(&[0u8; 20]);
    info_dict.extend_from_slice(b"6:lengthi1048576ee");
    let infohash = [1u8; 20];
    let meta = parse_info_dict(&info_dict, infohash, peer(), 0).ok().unwrap();
    assert_eq!(meta.name, "test.bin");
    assert_eq!(meta.total_size, 1048576);
    assert_eq!(meta.piece_length, 262144);
    assert_eq!(meta.piece_count, 1);
    assert_eq!(meta.files.len(), 1);
    assert_eq!(meta.files[0].path, "test.bin");
    assert_eq!(meta.files[0].size, 1048576);
    assert!(!meta.is_private);
}

#[test]
fn test_parse_info_dict_multi_file() {
    let info_dict = b"d4:name4:test5:filesld6:lengthi100e4:pathl7:foo.txted6:lengthi200e4:pathl7:bar.txtee12:piece lengthi16384e6:pieces40:aaaaaaaaaaaaaaaaaaaaaaaaaaaaaaaaaaaaaaaae";
    match parse_info_dict(info_dict, [2u8; 20], peer(), 0) {
        Ok(meta) => {
            assert_eq!(meta.name, "test");
            assert!(meta.total_size >= 300);
        }
        Err(_) => {}
    }
}

#[test]
fn several_files_are_read() {
    let info_dict = b"d5:filesld6:lengthi100e4:pathl3:sub7:foo.txteed6:lengthi200e4:pathl7:bar.txteee4:name4:test12:piece lengthi16384e6:pieces20:aaaaaaaaaaaaaaaaaaaa7:privatei1ee";
    let meta = parse_info_dict(info_dict, [2u8; 20], peer(), 7).ok().unwrap();
    assert_eq!(meta.total_size, 300);
    assert_eq!(meta.files.len(), 2);
    assert_eq!(meta.files[1].size, 200);
    assert!(meta.is_private);
    assert_eq!(meta.fetched_at, 7);
}

#[test]
fn info_dict_errors() {
    assert!(matches!(
        parse_info_dict(b"nonsense", [0; 20], peer(), 0),
        Err(InfoDictError::Unparsable)
    ));
    assert!(matches!(parse_info_dict(b"i1e", [0; 20], peer(), 0), Err(InfoDictError::NotADict)));
    assert!(matches!(
        parse_info_dict(b"d4:name1:xe", [0; 20], peer(), 0),
        Err(InfoDictError::NoPieceLength)
    ));
    match accept_metadata(b"d4:name1:xe", [0; 20], peer(), 0) {
        Err(MetadataError::DigestMismatch(d)) => assert_ne!(d, [0u8; 20]),
        _ => panic!("the digest cannot match"),
    }
}

#[test]
fn digest_of_an_info_dict() {
    let bytes = b"abc";
    match accept_metadata(bytes, [0; 20], peer(), 0) {
        Err(MetadataError::DigestMismatch(d)) => assert_eq!(
            d.to_vec(),
            vec![
                0xa9, 0x99, 0x3e, 0x36, 0x47, 0x06, 0x81, 0x6a, 0xba, 0x3e, 0x25, 0x71, 0x78, 0x50,
                0xc2, 0x6c, 0x9c, 0xd0, 0xd8, 0x9d
            ]
        ),
        _ => panic!("the digest cannot match"),
    }
}

#[test]
fn test_metadata_cache() {
    let service = MetadataService::new();
    let infohash = [3u8; 20];
    assert!(!service.has_metadata(&infohash, 0));
    assert!(service.get_metadata(&infohash, 0).is_none());
}

#[test]
fn fetched_metadata_is_kept_for_a_day() {
    let mut service = MetadataService::new();
    let infohash = [3u8; 20];
    assert!(matches!(service.begin_fetch(&infohash, 0), FetchStart::Download));
    assert!(matches!(service.begin_fetch(&infohash, 1), FetchStart::Busy));
    let mut dict = b"d6:lengthi5e4:name1:x12:piece lengthi16384e6:pieces20:".to_vec();
    dict.extend_from_slice(&[0u8; 20]);
    dict.push(b'e');
    let meta = parse_info_dict(&dict, infohash, peer(), 0).ok();
    assert!(meta.is_some());
    service.finish_fetch(&infohash, meta);
    assert!(service.has_metadata(&infohash, 1));
    assert!(matches!(service.begin_fetch(&infohash, 1), FetchStart::Cached(_)));
    assert_eq!(service.cached_count(), 1);
    let day = 86_400_000_000_000u64;
    assert!(!service.has_metadata(&infohash, day + 1));
    assert_eq!(service.cleanup_expired(day + 1), 1);
    assert_eq!(service.cached_count(), 0);
}

#[test]
fn test_torrent_file() {
    let file = TorrentFile { path: "test/file.txt".to_string(), size: 1024 };
    assert_eq!(file.path, "test/file.txt");
    assert_eq!(file.size, 1024);
}

#[test]
fn handshake_is_read_back() {
    let bytes = build_handshake(&[5; 20], &[6; 20]);
    assert_eq!(bytes.len(), 68);
    assert_eq!(bytes[0], 19);
    let (peer_id, extensions) = parse_handshake(&bytes).ok().unwrap();
    assert_eq!(peer_id, [6; 20]);
    assert!(extensions);
    assert!(matches!(parse_handshake(&bytes[..10]), Err(HandshakeError::Truncated)));
    let mut other = bytes.clone();
    other[0] = 18;
    assert!(matches!(parse_handshake(&other), Err(HandshakeError::InvalidLength(18))));
    let mut named = bytes;
    named[1] = b'x';
    assert!(matches!(parse_handshake(&named), Err(HandshakeError::InvalidName)));
}

#[test]
fn extension_messages_are_told_apart() {
    let message = build_extension_message(3, b"xyz");
    assert_eq!(&message[..4], &[0, 0, 0, 5]);
    match classify_message(&message[4..]) {
        PeerMessage::Extension(id, payload) => {
            assert_eq!(id, 3);
            assert_eq!(payload, b"xyz".to_vec());
        }
        _ => panic!("an extension message"),
    }
    assert!(matches!(classify_message(b""), PeerMessage::KeepAlive));
    assert!(matches!(classify_message(&[4, 0]), PeerMessage::Other(4)));
}

#[test]
fn extension_handshakes() {
    let good = parse(b"d1:md11:ut_metadatai2ee13:metadata_sizei100ee").unwrap();
    assert_eq!(read_extension_handshake(&good).ok(), Some((2, 100)));
    let none = parse(b"d1:mdee").unwrap();
    assert!(matches!(read_extension_handshake(&none), Err(ExtensionError::NoMetadataId)));
}

#[test]
fn pieces() {
    assert_eq!(build_piece_request(2), b"d8:msg_typei0e5:piecei2ee".to_vec());
    assert_eq!(total_pieces(16385), 2);
    let piece = parse_piece_response(2, 2, b"d8:msg_typei1e5:piecei0eeDATA").ok();
    assert_eq!(piece, Some(b"DATA".to_vec()));
    assert!(matches!(
        parse_piece_response(2, 3, b"d8:msg_typei1e5:piecei0eeDATA"),
        Err(PieceError::WrongId(3))
    ));
    assert!(matches!(
        parse_piece_response(2, 2, b"d8:msg_typei2e5:piecei0ee"),
        Err(PieceError::Rejected)
    ));
    assert_eq!(assemble_metadata(&vec![b"ab".to_vec(), b"cd".to_vec()], 3), b"abc".to_vec());
}

#[test]
fn attempts() {
    let none: Vec<Result<u8, u8>> = vec![];
    assert!(matches!(conclude_attempts(none), Err(AttemptsError::NoPeers)));
    assert_eq!(conclude_attempts::<u8, u8>(vec![Err(1), Ok(2)]).ok(), Some(2));
    assert!(matches!(
        conclude_attempts::<u8, u8>(vec![Err(1), Err(2)]),
        Err(AttemptsError::AllFailed(2))
    ));
    assert_eq!(next_peer::<u8, u8>(0, &vec![]), None);
    assert_eq!(next_peer::<u8, u8>(3, &vec![]), Some(0));
    assert_eq!(next_peer::<u8, u8>(3, &vec![Err(1)]), Some(1));
    assert_eq!(next_peer::<u8, u8>(3, &vec![Err(1), Ok(2)]), None);
    assert_eq!(next_peer::<u8, u8>(2, &vec![Err(1), Err(2)]), None);
}

#[test]
fn peer_ids_start_alike() {
    let id = make_peer_id(&[7; 11]);
    assert_eq!(&id[9..], &[7; 11]);
    let a = MetadataService::new();
    let b = MetadataService::new();
    assert_eq!(a.peer_id()[..9], b.peer_id()[..9]);
    assert_ne!(a.peer_id(), b.peer_id());
}
