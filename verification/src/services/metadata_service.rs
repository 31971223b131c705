//! Download of torrent metadata from peers (BEP 9 and BEP 10).
//!
//! The caller owns the connection and the clock (nanoseconds, monotonic). This
//! module makes and reads the messages, checks and assembles the pieces, parses the
//! info dictionary, and keeps what was fetched.

use crate::bencode::{
    container_end, dict_end, encode_bytes, find_bencode_dict_end, lemma_skip_bytes,
    lemma_skip_int, parse, parsed, Bencode, BencodeTree, DictEndError,
};
use crate::chance::random_u64;
use crate::bytes::{array20, be32, be32_value, bytes_eq, copy_range, eq20, push_be32};
use crate::digest::{sha1, sha1_of};
use crate::text::{ascii, decimal, lossy_text, push_decimal, push_str, signed_decimal, utf8_lossy};
use crate::types::{Infohash, PeerAddr};
use dashmap::DashMap;
use vstd::prelude::*;
use vstd::string::*;

verus! {

/// A file of a torrent.
#[derive(Debug, Clone)]
pub struct TorrentFile {
    /// Relative path, with directories for a torrent of several files.
    pub path: String,
    pub size: u64,
}

/// What an info dictionary says of a torrent.
#[derive(Debug, Clone)]
pub struct TorrentMetadata {
    pub infohash: Infohash,
    pub name: String,
    pub total_size: u64,
    pub piece_length: u64,
    pub piece_count: u32,
    pub files: Vec<TorrentFile>,
    pub is_private: bool,
    /// The peer that it came from.
    pub source_peer: PeerAddr,
    pub fetched_at: u64,
}

/// Torrent metadata as the contracts see it.
#[verifier::ext_equal]
pub struct MetadataView {
    pub infohash: Seq<u8>,
    pub name: Seq<char>,
    pub total_size: u64,
    pub piece_length: u64,
    pub piece_count: u32,
    /// Path and size of each file.
    pub files: Seq<(Seq<char>, u64)>,
    pub is_private: bool,
    pub source_peer: PeerAddr,
    pub fetched_at: u64,
}

impl View for TorrentFile {
    type V = (Seq<char>, u64);

    open spec fn view(&self) -> (Seq<char>, u64) {
        (self.path@, self.size)
    }
}

impl View for TorrentMetadata {
    type V = MetadataView;

    open spec fn view(&self) -> MetadataView {
        MetadataView {
            infohash: self.infohash@,
            name: self.name@,
            total_size: self.total_size,
            piece_length: self.piece_length,
            piece_count: self.piece_count,
            files: self.files@.map_values(|f: TorrentFile| f@),
            is_private: self.is_private,
            source_peer: self.source_peer,
            fetched_at: self.fetched_at,
        }
    }
}

/// Why bytes are no usable info dictionary.
#[derive(Debug, Clone, Copy, PartialEq, Eq, Structural)]
pub enum InfoDictError {
    Unparsable,
    NotADict,
    NoPieceLength,
}

/// Texts with a slash between each two of them.
pub open spec fn join_path(parts: Seq<Seq<char>>) -> Seq<char>
    decreases parts.len(),
{
    if parts.len() == 0 {
        Seq::empty()
    } else if parts.len() == 1 {
        parts[0]
    } else {
        join_path(parts.drop_last()) + "/"@ + parts.last()
    }
}

/// The path that a list of components gives: its byte strings, joined.
pub open spec fn path_of(l: Seq<BencodeTree>) -> Seq<char> {
    join_path(
        l.filter(|p: BencodeTree| p is Bytes).map_values(
            |p: BencodeTree| lossy_text(p->Bytes_0),
        ),
    )
}

/// The size under `length`, or 0. A negative number is read as its two's complement.
pub open spec fn size_of_entry(t: BencodeTree) -> u64 {
    match t.int_at("length".spec_bytes()) {
        Some(n) => n as u64,
        None => 0,
    }
}

/// Path and size that an entry of a file list gives.
pub open spec fn file_of(t: BencodeTree) -> (Seq<char>, u64) {
    (
        match t.list_at("path".spec_bytes()) {
            Some(l) => path_of(l),
            None => "unknown"@,
        },
        size_of_entry(t),
    )
}

/// The files that a file list gives: one for each dictionary in it.
pub open spec fn files_of(l: Seq<BencodeTree>) -> Seq<(Seq<char>, u64)> {
    l.filter(|f: BencodeTree| f is Dict).map_values(|f: BencodeTree| file_of(f))
}

/// The sum of the sizes, modulo the range of the type.
pub open spec fn sum_sizes(files: Seq<(Seq<char>, u64)>) -> u64
    decreases files.len(),
{
    if files.len() == 0 {
        0
    } else {
        sum_sizes(files.drop_last()).wrapping_add(files.last().1)
    }
}

/// The name that an info dictionary gives.
pub open spec fn name_of(t: BencodeTree) -> Seq<char> {
    match t.bytes_at("name".spec_bytes()) {
        Some(b) => lossy_text(b),
        None => "unknown"@,
    }
}

/// The metadata that a parsed info dictionary gives. With a file list the size is the
/// sum of its files; without one the dictionary is a single file of its own name.
pub open spec fn info_of(
    t: BencodeTree,
    infohash: Seq<u8>,
    source_peer: PeerAddr,
    now: u64,
) -> Result<MetadataView, InfoDictError> {
    if !(t is Dict) {
        Err(InfoDictError::NotADict)
    } else {
        match t.int_at("piece length".spec_bytes()) {
            None => Err(InfoDictError::NoPieceLength),
            Some(piece_length) => {
                let files = match t.list_at("files".spec_bytes()) {
                    Some(l) => files_of(l),
                    None => seq![(name_of(t), size_of_entry(t))],
                };
                Ok(
                    MetadataView {
                        infohash,
                        name: name_of(t),
                        total_size: sum_sizes(files),
                        piece_length: piece_length as u64,
                        piece_count: match t.bytes_at("pieces".spec_bytes()) {
                            Some(p) => (p.len() / 20) as u32,
                            None => 0,
                        },
                        files,
                        is_private: t.int_at("private".spec_bytes()) == Some(1i64),
                        source_peer,
                        fetched_at: now,
                    },
                )
            },
        }
    }
}

fn path_from(list: &Vec<Bencode>) -> (r: String)
    ensures
        r@ == path_of(Bencode::List(*list).tree()->List_0),
{
    let ghost l = Bencode::List(*list).tree()->List_0;
    let ghost is_bytes = |p: BencodeTree| p is Bytes;
    let ghost text = |p: BencodeTree| lossy_text(p->Bytes_0);
    let mut out = String::new();
    let mut first: bool = true;
    let mut i: usize = 0;
    proof {
        reveal_with_fuel(Seq::filter, 1);
        assert(l.take(0).filter(is_bytes).map_values(text) =~= Seq::<Seq<char>>::empty());
    }
    while i < list.len()
        invariant
            0 <= i <= list@.len(),
            l == Bencode::List(*list).tree()->List_0,
            l.len() == list@.len(),
            is_bytes == (|p: BencodeTree| p is Bytes),
            text == (|p: BencodeTree| lossy_text(p->Bytes_0)),
            out@ == join_path(l.take(i as int).filter(is_bytes).map_values(text)),
            first == (l.take(i as int).filter(is_bytes).len() == 0),
        decreases list@.len() - i,
    {
        let ghost before = l.take(i as int).filter(is_bytes);
        proof {
            assert(l.take(i + 1).drop_last() =~= l.take(i as int));
            assert(l.take(i + 1).last() == list@[i as int].tree());
            reveal_with_fuel(Seq::filter, 2);
        }
        match &list[i] {
            Bencode::Bytes(b) => {
                let part = utf8_lossy(b.as_slice());
                proof {
                    let after = l.take(i + 1).filter(is_bytes);
                    assert(after =~= before.push(list@[i as int].tree()));
                    let parts = after.map_values(text);
                    assert(parts.drop_last() =~= before.map_values(text));
                    assert(parts.last() == part@);
                }
                if !first {
                    out.append("/");
                }
                out.append(part.as_str());
                first = false;
            },
            _ => {},
        }
        i = i + 1;
    }
    assert(l.take(l.len() as int) =~= l);
    out
}

fn file_from(entry: &Bencode) -> (r: TorrentFile)
    ensures
        r@ == file_of(entry.tree()),
{
    let size: u64 = match entry.get_int("length") {
        Some(n) => n as u64,
        None => 0,
    };
    let path = match entry.get("path") {
        Some(Bencode::List(l)) => path_from(l),
        _ => "unknown".to_owned(),
    };
    TorrentFile { path, size }
}

fn files_from(list: &Vec<Bencode>) -> (r: (Vec<TorrentFile>, u64))
    ensures
        r.0@.map_values(|f: TorrentFile| f@) == files_of(Bencode::List(*list).tree()->List_0),
        r.1 == sum_sizes(files_of(Bencode::List(*list).tree()->List_0)),
{
    let ghost l = Bencode::List(*list).tree()->List_0;
    let ghost is_dict = |f: BencodeTree| f is Dict;
    let ghost file = |f: BencodeTree| file_of(f);
    let ghost seen = |f: TorrentFile| f@;
    let mut files: Vec<TorrentFile> = Vec::new();
    let mut total: u64 = 0;
    let mut i: usize = 0;
    proof {
        assert(files@.map_values(seen) =~= files_of(l.take(0)));
    }
    while i < list.len()
        invariant
            0 <= i <= list@.len(),
            l == Bencode::List(*list).tree()->List_0,
            l.len() == list@.len(),
            is_dict == (|f: BencodeTree| f is Dict),
            file == (|f: BencodeTree| file_of(f)),
            seen == (|f: TorrentFile| f@),
            files@.map_values(seen) == files_of(l.take(i as int)),
            total == sum_sizes(files_of(l.take(i as int))),
        decreases list@.len() - i,
    {
        let ghost before = l.take(i as int).filter(is_dict);
        proof {
            assert(l.take(i + 1).drop_last() =~= l.take(i as int));
            assert(l.take(i + 1).last() == list@[i as int].tree());
            reveal_with_fuel(Seq::filter, 2);
        }
        if list[i].is_dict() {
            let f = file_from(&list[i]);
            proof {
                let after = l.take(i + 1).filter(is_dict);
                assert(after =~= before.push(list@[i as int].tree()));
                let all = files_of(l.take(i + 1));
                assert(all.drop_last() =~= files_of(l.take(i as int)));
                assert(all.last() == f@);
                assert(files@.push(f).map_values(seen) =~= files@.map_values(seen).push(f@));
                assert(all =~= all.drop_last().push(all.last()));
            }
            total = total.wrapping_add(f.size);
            files.push(f);
        }
        i = i + 1;
    }
    assert(l.take(l.len() as int) =~= l);
    (files, total)
}

/// Reads a parsed info dictionary.
pub fn read_info_dict(
    value: &Bencode,
    infohash: Infohash,
    source_peer: PeerAddr,
    now: u64,
) -> (r: Result<TorrentMetadata, InfoDictError>)
    ensures
        r matches Ok(m) ==> info_of(value.tree(), infohash@, source_peer, now) == Ok::<
            MetadataView,
            InfoDictError,
        >(m@),
        r matches Err(e) ==> info_of(value.tree(), infohash@, source_peer, now) == Err::<
            MetadataView,
            InfoDictError,
        >(e),
{
    if !value.is_dict() {
        return Err(InfoDictError::NotADict);
    }
    let name = match value.get_string("name") {
        Some(n) => utf8_lossy(n.as_slice()),
        None => "unknown".to_owned(),
    };
    let piece_length: u64 = match value.get_int("piece length") {
        Some(n) => n as u64,
        None => {
            return Err(InfoDictError::NoPieceLength);
        },
    };
    let piece_count: u32 = match value.get_string("pieces") {
        Some(p) => (p.len() / 20) as u32,
        None => 0,
    };
    let is_private: bool = match value.get_int("private") {
        Some(n) => n == 1,
        None => false,
    };
    let (files, total_size) = match value.get("files") {
        Some(Bencode::List(l)) => files_from(l),
        _ => {
            let size: u64 = match value.get_int("length") {
                Some(n) => n as u64,
                None => 0,
            };
            let mut files: Vec<TorrentFile> = Vec::new();
            files.push(TorrentFile { path: name.clone(), size });
            proof {
                let v = files@.map_values(|f: TorrentFile| f@);
                assert(v =~= seq![(name@, size)]);
                assert(v.drop_last() =~= Seq::<(Seq<char>, u64)>::empty());
                reveal_with_fuel(sum_sizes, 2);
            }
            (files, size)
        },
    };
    let r = TorrentMetadata {
        infohash,
        name,
        total_size,
        piece_length,
        piece_count,
        files,
        is_private,
        source_peer,
        fetched_at: now,
    };
    assert(info_of(value.tree(), infohash@, source_peer, now)->Ok_0 =~= r@);
    Ok(r)
}

/// Length of a handshake.
pub const HANDSHAKE_LEN: usize = 68;

/// Size of a metadata piece.
pub const METADATA_PIECE_SIZE: usize = 16384;

/// How long fetched metadata stays usable: a day.
pub const METADATA_TTL: u64 = 86_400_000_000_000;

/// The reserved bytes of a handshake that offers the extension protocol.
pub open spec fn reserved_bytes() -> Seq<u8> {
    seq![0u8, 0, 0, 0, 0, 0x10, 0, 0]
}

/// A handshake: the protocol's name with its length, the reserved bytes, the infohash
/// and the peer id.
pub open spec fn handshake(infohash: Seq<u8>, peer_id: Seq<u8>) -> Seq<u8> {
    seq![19u8] + ascii("BitTorrent protocol"@) + reserved_bytes() + infohash + peer_id
}

/// Why bytes are no handshake.
#[derive(Debug, Clone, Copy, PartialEq, Eq, Structural)]
pub enum HandshakeError {
    /// More bytes are needed; those that are there are in order.
    Truncated,
    InvalidLength(u8),
    InvalidName,
}

/// What a handshake says: the sender's peer id, and whether it speaks the extension
/// protocol.
pub open spec fn handshake_of(bytes: Seq<u8>) -> Result<(Seq<u8>, bool), HandshakeError> {
    if bytes.len() == 0 {
        Err(HandshakeError::Truncated)
    } else if bytes[0] != 19 {
        Err(HandshakeError::InvalidLength(bytes[0]))
    } else if bytes.len() < 20 {
        Err(HandshakeError::Truncated)
    } else if bytes.subrange(1, 20) != ascii("BitTorrent protocol"@) {
        Err(HandshakeError::InvalidName)
    } else if bytes.len() < 68 {
        Err(HandshakeError::Truncated)
    } else {
        Ok((bytes.subrange(48, 68), bytes[25] & 0x10u8 != 0))
    }
}

proof fn lemma_protocol_name()
    ensures
        is_ascii("BitTorrent protocol"),
        "BitTorrent protocol"@.len() == 19,
        ascii("BitTorrent protocol"@).len() == 19,
{
    reveal_strlit("BitTorrent protocol");
}

/// A handshake is read back as it was made: its peer id, with the extension protocol.
pub proof fn handshake_round_trip(infohash: Seq<u8>, peer_id: Seq<u8>)
    requires
        infohash.len() == 20,
        peer_id.len() == 20,
    ensures
        handshake(infohash, peer_id).len() == 68,
        handshake_of(handshake(infohash, peer_id)) == Ok::<(Seq<u8>, bool), HandshakeError>(
            (peer_id, true),
        ),
{
    lemma_protocol_name();
    let h = handshake(infohash, peer_id);
    assert(h.subrange(1, 20) =~= ascii("BitTorrent protocol"@));
    assert(h.subrange(48, 68) =~= peer_id);
    assert(h[25] == 0x10);
    assert(0x10u8 & 0x10u8 != 0) by (bit_vector);
}

/// Makes a handshake.
pub fn build_handshake(infohash: &Infohash, peer_id: &[u8; 20]) -> (r: Vec<u8>)
    ensures
        r@ == handshake(infohash@, peer_id@),
{
    let mut out: Vec<u8> = Vec::new();
    out.push(19);
    proof {
        lemma_protocol_name();
    }
    push_str(&mut out, "BitTorrent protocol");
    let reserved: [u8; 8] = [0u8, 0, 0, 0, 0, 0x10, 0, 0];
    out.extend_from_slice(reserved.as_slice());
    out.extend_from_slice(infohash.as_slice());
    out.extend_from_slice(peer_id.as_slice());
    assert(out@ =~= handshake(infohash@, peer_id@));
    out
}

/// Reads a handshake. Given fewer bytes than a handshake has, says so unless those
/// that are there already rule a handshake out.
pub fn parse_handshake(bytes: &[u8]) -> (r: Result<([u8; 20], bool), HandshakeError>)
    ensures
        r matches Ok(h) ==> handshake_of(bytes@) == Ok::<(Seq<u8>, bool), HandshakeError>(
            (h.0@, h.1),
        ),
        r matches Err(e) ==> handshake_of(bytes@) == Err::<(Seq<u8>, bool), HandshakeError>(e),
{
    if bytes.len() == 0 {
        return Err(HandshakeError::Truncated);
    }
    if bytes[0] != 19 {
        return Err(HandshakeError::InvalidLength(bytes[0]));
    }
    if bytes.len() < 20 {
        return Err(HandshakeError::Truncated);
    }
    let name = vstd::slice::slice_subrange(bytes, 1, 20);
    proof {
        lemma_protocol_name();
        is_ascii_spec_bytes("BitTorrent protocol");
        assert("BitTorrent protocol".spec_bytes() =~= ascii("BitTorrent protocol"@));
    }
    if !bytes_eq(name, "BitTorrent protocol".as_bytes()) {
        return Err(HandshakeError::InvalidName);
    }
    if bytes.len() < HANDSHAKE_LEN {
        return Err(HandshakeError::Truncated);
    }
    let peer_id = array20(vstd::slice::slice_subrange(bytes, 48, 68));
    assert(peer_id@ =~= bytes@.subrange(48, 68));
    Ok((peer_id, bytes[25] & 0x10 != 0))
}

/// An extension message: its length, the message id 20, the extension id and the
/// payload.
pub open spec fn extension_message(ext_id: u8, payload: Seq<u8>) -> Seq<u8> {
    be32((2 + payload.len()) as u32) + seq![20u8, ext_id] + payload
}

/// Makes an extension message.
pub fn build_extension_message(ext_id: u8, payload: &[u8]) -> (r: Vec<u8>)
    requires
        payload@.len() <= usize::MAX - 2,
    ensures
        r@ == extension_message(ext_id, payload@),
{
    let mut out: Vec<u8> = Vec::new();
    push_be32(&mut out, (2 + payload.len()) as u32);
    out.push(20);
    out.push(ext_id);
    out.extend_from_slice(payload);
    assert(out@ =~= extension_message(ext_id, payload@));
    out
}

/// A message of the peer protocol, by what the download does with it.
pub enum PeerMessage {
    /// No body at all.
    KeepAlive,
    /// Extension id and payload.
    Extension(u8, Vec<u8>),
    /// Any other message id.
    Other(u8),
}

/// Reads the body of a message, as long as its length said. A message with id 20 has
/// an extension id.
pub fn classify_message(body: &[u8]) -> (r: PeerMessage)
    requires
        body@.len() > 0 && body@[0] == 20 ==> body@.len() >= 2,
    ensures
        body@.len() == 0 ==> r is KeepAlive,
        body@.len() > 0 && body@[0] == 20 ==> (r matches PeerMessage::Extension(id, payload) && id
            == body@[1] && payload@ == body@.skip(2)),
        body@.len() > 0 && body@[0] != 20 ==> r == PeerMessage::Other(body@[0]),
{
    if body.len() == 0 {
        return PeerMessage::KeepAlive;
    }
    if body[0] == 20 {
        let payload = copy_range(body, 2, body.len());
        assert(payload@ =~= body@.skip(2));
        return PeerMessage::Extension(body[1], payload);
    }
    PeerMessage::Other(body[0])
}

/// An extension message announces the length of its body, and its body is read back
/// as the extension id and the payload.
pub proof fn extension_message_round_trip(ext_id: u8, payload: Seq<u8>)
    requires
        payload.len() + 2 <= u32::MAX,
    ensures
        be32_value(extension_message(ext_id, payload).take(4)) == extension_message(
            ext_id,
            payload,
        ).skip(4).len(),
        extension_message(ext_id, payload).skip(4)[0] == 20,
        extension_message(ext_id, payload).skip(4)[1] == ext_id,
        extension_message(ext_id, payload).skip(4).skip(2) == payload,
{
    let m = extension_message(ext_id, payload);
    let n = (2 + payload.len()) as u32;
    crate::bytes::be32_round_trip(n);
    assert(m.take(4) =~= be32(n));
    assert(m.skip(4).skip(2) =~= payload);
}

/// The dictionary of an extension handshake: this side takes metadata messages under
/// the id 1.
pub fn extension_handshake_dict() -> (r: Vec<u8>)
    ensures
        r@ == ascii("d1:ei0e1:md11:ut_metadatai1eee"@),
{
    let mut out: Vec<u8> = Vec::new();
    proof {
        reveal_strlit("d1:ei0e1:md11:ut_metadatai1eee");
    }
    push_str(&mut out, "d1:ei0e1:md11:ut_metadatai1eee");
    assert(out@ =~= ascii("d1:ei0e1:md11:ut_metadatai1eee"@));
    out
}

/// Why an extension handshake cannot be used.
#[derive(Debug, Clone, Copy, PartialEq, Eq, Structural)]
pub enum ExtensionError {
    WrongId(u8),
    Unparsable,
    NotADict,
    /// No metadata message id in the dictionary of extensions.
    NoMetadataId,
    /// No dictionary of extensions.
    NoExtensions,
    /// The peer has no metadata.
    NoMetadata,
}

/// The metadata message id and the metadata size that a parsed extension handshake
/// gives.
pub open spec fn extension_of(t: BencodeTree) -> Result<(u8, u32), ExtensionError> {
    if !(t is Dict) {
        Err(ExtensionError::NotADict)
    } else {
        let size = match t.int_at("metadata_size".spec_bytes()) {
            Some(n) => n as u32,
            None => 0,
        };
        match t.at("m".spec_bytes()) {
            Some(m) => if m is Dict {
                match m.int_at("ut_metadata".spec_bytes()) {
                    Some(id) => if size == 0 {
                        Err(ExtensionError::NoMetadata)
                    } else {
                        Ok((id as u8, size))
                    },
                    None => Err(ExtensionError::NoMetadataId),
                }
            } else {
                Err(ExtensionError::NoExtensions)
            },
            None => Err(ExtensionError::NoExtensions),
        }
    }
}

/// Reads a parsed extension handshake.
pub fn read_extension_handshake(value: &Bencode) -> (r: Result<(u8, u32), ExtensionError>)
    ensures
        r == extension_of(value.tree()),
{
    if !value.is_dict() {
        return Err(ExtensionError::NotADict);
    }
    let size: u32 = match value.get_int("metadata_size") {
        Some(n) => n as u32,
        None => 0,
    };
    match value.get("m") {
        Some(m) => {
            if !m.is_dict() {
                return Err(ExtensionError::NoExtensions);
            }
            match m.get_int("ut_metadata") {
                Some(id) => {
                    if size == 0 {
                        return Err(ExtensionError::NoMetadata);
                    }
                    Ok((id as u8, size))
                },
                None => Err(ExtensionError::NoMetadataId),
            }
        },
        None => Err(ExtensionError::NoExtensions),
    }
}

/// Reads the answer to an extension handshake.
pub fn parse_extension_handshake(ext_id: u8, payload: &[u8]) -> (r: Result<
    (u8, u32),
    ExtensionError,
>)
    ensures
        r == (if ext_id != 0 {
            Err(ExtensionError::WrongId(ext_id))
        } else {
            match parsed(payload@) {
                Some(t) => extension_of(t),
                None => Err(ExtensionError::Unparsable),
            }
        }),
{
    if ext_id != 0 {
        return Err(ExtensionError::WrongId(ext_id));
    }
    match parse(payload) {
        Some(v) => read_extension_handshake(&v),
        None => Err(ExtensionError::Unparsable),
    }
}

/// The dictionary that asks for a piece of the metadata.
pub open spec fn piece_request(piece: u32) -> Seq<u8> {
    ascii("d8:msg_typei0e5:piecei"@) + decimal(piece as nat) + ascii("ee"@)
}

/// Makes the dictionary that asks for a piece of the metadata.
pub fn build_piece_request(piece: u32) -> (r: Vec<u8>)
    ensures
        r@ == piece_request(piece),
{
    let mut out: Vec<u8> = Vec::new();
    proof {
        reveal_strlit("d8:msg_typei0e5:piecei");
        reveal_strlit("ee");
    }
    push_str(&mut out, "d8:msg_typei0e5:piecei");
    push_decimal(&mut out, piece as u64);
    push_str(&mut out, "ee");
    assert(out@ =~= piece_request(piece));
    out
}

/// Why an answer to a piece request cannot be used.
#[derive(Debug, Clone, Copy, PartialEq, Eq, Structural)]
pub enum PieceError {
    WrongId(u8),
    /// The dictionary in front of the data has no end.
    NoDict(DictEndError),
    Unparsable,
    NotADict,
    NoMessageType,
    Rejected,
    NotData(i64),
}

/// What the dictionary in front of a piece says of it.
pub open spec fn piece_verdict(t: BencodeTree) -> Result<(), PieceError> {
    if !(t is Dict) {
        Err(PieceError::NotADict)
    } else {
        match t.int_at("msg_type".spec_bytes()) {
            None => Err(PieceError::NoMessageType),
            Some(n) => if n == 2 {
                Err(PieceError::Rejected)
            } else if n != 1 {
                Err(PieceError::NotData(n))
            } else {
                Ok(())
            },
        }
    }
}

/// Reads the parsed dictionary in front of a piece.
pub fn read_piece_dict(value: &Bencode) -> (r: Result<(), PieceError>)
    ensures
        r == piece_verdict(value.tree()),
{
    if !value.is_dict() {
        return Err(PieceError::NotADict);
    }
    match value.get_int("msg_type") {
        None => Err(PieceError::NoMessageType),
        Some(n) => {
            if n == 2 {
                return Err(PieceError::Rejected);
            }
            if n != 1 {
                return Err(PieceError::NotData(n));
            }
            Ok(())
        },
    }
}

/// The piece that an answer carries: what follows its dictionary.
pub open spec fn piece_of(
    expected_id: u8,
    ext_id: u8,
    payload: Seq<u8>,
) -> Result<Seq<u8>, PieceError> {
    if ext_id != expected_id {
        Err(PieceError::WrongId(ext_id))
    } else {
        match dict_end(payload) {
            Err(e) => Err(PieceError::NoDict(e)),
            Ok(end) => match parsed(payload.take(end as int)) {
                None => Err(PieceError::Unparsable),
                Some(t) => match piece_verdict(t) {
                    Err(e) => Err(e),
                    Ok(_) => Ok(payload.skip(end as int)),
                },
            },
        }
    }
}

/// Reads the answer to a piece request.
pub fn parse_piece_response(expected_id: u8, ext_id: u8, payload: &[u8]) -> (r: Result<
    Vec<u8>,
    PieceError,
>)
    ensures
        r matches Ok(d) ==> piece_of(expected_id, ext_id, payload@) == Ok::<Seq<u8>, PieceError>(
            d@,
        ),
        r matches Err(e) ==> piece_of(expected_id, ext_id, payload@) == Err::<Seq<u8>, PieceError>(
            e,
        ),
{
    if ext_id != expected_id {
        return Err(PieceError::WrongId(ext_id));
    }
    let end: usize = match find_bencode_dict_end(payload) {
        Ok(n) => n,
        Err(e) => {
            return Err(PieceError::NoDict(e));
        },
    };
    let dict = vstd::slice::slice_subrange(payload, 0, end);
    assert(dict@ =~= payload@.take(end as int));
    match parse(dict) {
        None => Err(PieceError::Unparsable),
        Some(v) => match read_piece_dict(&v) {
            Err(e) => Err(e),
            Ok(()) => {
                let data = copy_range(payload, end, payload.len());
                assert(data@ =~= payload@.skip(end as int));
                Ok(data)
            },
        },
    }
}

/// A piece request is one complete dictionary.
pub proof fn piece_request_is_a_dict(piece: u32, rest: Seq<u8>)
    ensures
        dict_end(piece_request(piece) + rest) == Ok::<nat, DictEndError>(
            piece_request(piece).len(),
        ),
{
    reveal_strlit("d8:msg_typei0e5:piecei");
    reveal_strlit("ee");
    reveal_strlit("msg_type");
    reveal_strlit("piece");
    reveal_with_fuel(decimal, 2);
    let data = piece_request(piece) + rest;
    let n = decimal(piece as nat);
    let a = ascii("msg_type"@);
    let b = ascii("piece"@);
    let zero = seq![105u8] + signed_decimal(0) + seq![101u8];
    let num = seq![105u8] + signed_decimal(piece as int) + seq![101u8];
    assert(data.subrange(1, 11) =~= encode_bytes(a));
    assert(data.subrange(11, 14) =~= zero);
    assert(data.subrange(14, 21) =~= encode_bytes(b));
    let e = 23 + n.len() as int;
    assert(data.subrange(21, e) =~= num);
    assert(data[0] == 100);
    assert(data[e] == 101);
    lemma_skip_bytes(data, 1, a, 1);
    lemma_skip_int(data, 11, 0, 1);
    lemma_skip_bytes(data, 14, b, 1);
    lemma_skip_int(data, 21, piece as int, 1);
    assert(container_end(data, 1, 1) == container_end(data, e, 1));
}

/// Number of pieces that metadata of this size comes in.
pub fn total_pieces(metadata_size: u32) -> (r: usize)
    ensures
        r == (metadata_size + 16383) / 16384,
        (r - 1) * 16384 < metadata_size || metadata_size == 0,
        metadata_size <= r * 16384,
{
    (metadata_size / 16384) as usize + if metadata_size % 16384 == 0 {
        0usize
    } else {
        1usize
    }
}

/// Pieces one after the other.
pub open spec fn joined(pieces: Seq<Vec<u8>>) -> Seq<u8>
    decreases pieces.len(),
{
    if pieces.len() == 0 {
        Seq::empty()
    } else {
        joined(pieces.drop_last()) + pieces.last()@
    }
}

/// What the pieces give, cut to the size that was announced.
pub open spec fn assembled(pieces: Seq<Vec<u8>>, metadata_size: u32) -> Seq<u8> {
    let all = joined(pieces);
    if all.len() <= metadata_size {
        all
    } else {
        all.take(metadata_size as int)
    }
}

/// Puts the pieces together.
pub fn assemble_metadata(pieces: &Vec<Vec<u8>>, metadata_size: u32) -> (r: Vec<u8>)
    ensures
        r@ == assembled(pieces@, metadata_size),
{
    let mut out: Vec<u8> = Vec::new();
    let mut i: usize = 0;
    while i < pieces.len()
        invariant
            0 <= i <= pieces@.len(),
            out@ == joined(pieces@.take(i as int)),
        decreases pieces@.len() - i,
    {
        let ghost before = out@;
        out.extend_from_slice(pieces[i].as_slice());
        proof {
            assert(out@ =~= before + pieces@[i as int]@);
            assert(pieces@.take(i + 1).drop_last() =~= pieces@.take(i as int));
        }
        i = i + 1;
    }
    assert(pieces@.take(pieces@.len() as int) =~= pieces@);
    if out.len() > metadata_size as usize {
        out.truncate(metadata_size as usize);
    }
    out
}

/// Why fetched metadata was refused.
#[derive(Debug, Clone, Copy, PartialEq, Eq)]
pub enum MetadataError {
    /// The digest of what came is not the infohash; it is this.
    DigestMismatch([u8; 20]),
    Info(InfoDictError),
}

/// The metadata that raw bytes give: their digest has to be the infohash.
pub open spec fn metadata_of(
    bytes: Seq<u8>,
    infohash: Seq<u8>,
    source_peer: PeerAddr,
    now: u64,
) -> Option<Result<MetadataView, InfoDictError>> {
    if sha1_of(bytes) != infohash {
        None
    } else {
        Some(
            match parsed(bytes) {
                Some(t) => info_of(t, infohash, source_peer, now),
                None => Err(InfoDictError::Unparsable),
            },
        )
    }
}

/// Parses raw bytes as an info dictionary.
pub fn parse_info_dict(
    bytes: &[u8],
    infohash: Infohash,
    source_peer: PeerAddr,
    now: u64,
) -> (r: Result<TorrentMetadata, InfoDictError>)
    ensures
        parsed(bytes@) is None ==> r == Err::<TorrentMetadata, InfoDictError>(
            InfoDictError::Unparsable,
        ),
        parsed(bytes@) matches Some(t) ==> {
            &&& r matches Ok(m) ==> info_of(t, infohash@, source_peer, now) == Ok::<
                MetadataView,
                InfoDictError,
            >(m@)
            &&& r matches Err(e) ==> info_of(t, infohash@, source_peer, now) == Err::<
                MetadataView,
                InfoDictError,
            >(e)
        },
{
    match parse(bytes) {
        Some(v) => read_info_dict(&v, infohash, source_peer, now),
        None => Err(InfoDictError::Unparsable),
    }
}

/// Checks assembled metadata against the infohash and parses it.
pub fn accept_metadata(
    bytes: &[u8],
    infohash: Infohash,
    source_peer: PeerAddr,
    now: u64,
) -> (r: Result<TorrentMetadata, MetadataError>)
    ensures
        match metadata_of(bytes@, infohash@, source_peer, now) {
            None => r matches Err(MetadataError::DigestMismatch(d)) && d@ == sha1_of(bytes@),
            Some(Ok(m)) => r matches Ok(t) && t@ == m,
            Some(Err(e)) => r == Err::<TorrentMetadata, MetadataError>(MetadataError::Info(e)),
        },
        sha1_of(bytes@) == infohash@ && parsed(bytes@) is Some && parsed(bytes@)->0.int_at(
            "piece length".spec_bytes(),
        ) is Some ==> r is Ok,
        sha1_of(bytes@) == infohash@ <==> !(r matches Err(MetadataError::DigestMismatch(_))),
        r matches Err(MetadataError::DigestMismatch(d)) ==> d@ == sha1_of(bytes@) && d@
            != infohash@,
{
    let computed = sha1(bytes);
    if !eq20(&computed, &infohash) {
        return Err(MetadataError::DigestMismatch(computed));
    }
    match parse_info_dict(bytes, infohash, source_peer, now) {
        Ok(m) => Ok(m),
        Err(e) => Err(MetadataError::Info(e)),
    }
}

#[verifier::external_type_specification]
#[verifier::external_body]
#[verifier::reject_recursive_types(K)]
#[verifier::reject_recursive_types(V)]
#[verifier::reject_recursive_types(S)]
pub struct ExDashMap<K, V, S>(DashMap<K, V, S>);

/// What a cache of metadata holds.
pub uninterp spec fn cached(m: DashMap<[u8; 20], TorrentMetadata>) -> Map<Seq<u8>, MetadataView>;

/// Which downloads are under way, and since when.
pub uninterp spec fn under_way(m: DashMap<[u8; 20], u64>) -> Map<Seq<u8>, u64>;

/// `DashMap::new`: a map without entries.
#[verifier::external_body]
fn new_cache() -> (r: DashMap<[u8; 20], TorrentMetadata>)
    ensures
        (cached(r) == Map::<Seq<u8>, MetadataView>::empty()),
{
    DashMap::new()
}

/// `DashMap::get`, with a clone of the value: the entry under the key, if there is one.
#[verifier::external_body]
fn cache_get(m: &DashMap<[u8; 20], TorrentMetadata>, key: &[u8; 20]) -> (r: Option<TorrentMetadata>)
    ensures
        r is Some <==> cached(*m).dom().contains(key@),
        r matches Some(v) ==> v@ == cached(*m)[key@],
{
    m.get(key).map(|entry| entry.value().clone())
}

/// `DashMap::insert`: the key then has the new value, and every other entry is
/// untouched.
#[verifier::external_body]
fn cache_insert(m: &mut DashMap<[u8; 20], TorrentMetadata>, key: [u8; 20], value: TorrentMetadata)
    ensures
        cached(*final(m)) == cached(*old(m)).insert(key@, value@),
{
    m.insert(key, value);
}

/// `DashMap::retain`: exactly the entries stay for which the predicate, here whether
/// they are still fresh, is true.
#[verifier::external_body]
fn cache_retain(m: &mut DashMap<[u8; 20], TorrentMetadata>, now: u64, ttl: u64)
    ensures
        cached(*final(m)) == cached(*old(m)).restrict(
            Set::new(
                |k: Seq<u8>|
                    cached(*old(m)).dom().contains(k) && fresh(cached(*old(m))[k].fetched_at, now, ttl),
            ),
        ),
{
    m.retain(|_, v| is_fresh(v.fetched_at, now, ttl));
}

/// Whether `keys` lists the members of a set, each once, and is `n` long.
pub open spec fn lists_keys(keys: Seq<Seq<u8>>, members: Set<Seq<u8>>, n: nat) -> bool {
    keys.no_duplicates() && keys.to_set() == members && keys.len() == n
}

/// `DashMap::len`: the number of entries. The keys can be listed, each once, in a
/// list of that length.
#[verifier::external_body]
fn cache_len(m: &DashMap<[u8; 20], TorrentMetadata>) -> (r: usize)
    ensures
        exists|keys: Seq<Seq<u8>>| #[trigger] lists_keys(keys, cached(*m).dom(), r as nat),
{
    m.len()
}

/// Number of entries in a cache.
fn count_cached(m: &DashMap<[u8; 20], TorrentMetadata>) -> (r: usize)
    ensures
        r == cached(*m).dom().len(),
        cached(*m).dom().finite(),
{
    let n: usize = cache_len(m);
    proof {
        let keys = choose|keys: Seq<Seq<u8>>| #[trigger]
            lists_keys(keys, cached(*m).dom(), n as nat);
        keys.unique_seq_to_set();
    }
    n
}

/// `DashMap::new`: a map without entries.
#[verifier::external_body]
fn new_downloads() -> (r: DashMap<[u8; 20], u64>)
    ensures
        (under_way(r) == Map::<Seq<u8>, u64>::empty()),
{
    DashMap::new()
}

/// `DashMap::contains_key`: whether there is an entry under the key.
#[verifier::external_body]
fn downloads_contain(m: &DashMap<[u8; 20], u64>, key: &[u8; 20]) -> (r: bool)
    ensures
        r == under_way(*m).dom().contains(key@),
{
    m.contains_key(key)
}

/// `DashMap::insert`: the key then has the new value, and every other entry is
/// untouched.
#[verifier::external_body]
fn downloads_insert(m: &mut DashMap<[u8; 20], u64>, key: [u8; 20], since: u64)
    ensures
        under_way(*final(m)) == under_way(*old(m)).insert(key@, since),
{
    m.insert(key, since);
}

/// `DashMap::remove`: the key then has no entry, and every other entry is untouched.
#[verifier::external_body]
fn downloads_remove(m: &mut DashMap<[u8; 20], u64>, key: &[u8; 20])
    ensures
        under_way(*final(m)) == under_way(*old(m)).remove(key@),
{
    m.remove(key);
}

/// Whether metadata fetched at `fetched_at` is not yet older than `ttl`.
pub open spec fn fresh(fetched_at: u64, now: u64, ttl: u64) -> bool {
    now - fetched_at <= ttl
}

/// Whether metadata fetched at `fetched_at` is not yet older than `ttl`.
pub fn is_fresh(fetched_at: u64, now: u64, ttl: u64) -> (r: bool)
    ensures
        r == fresh(fetched_at, now, ttl),
{
    now.saturating_sub(fetched_at) <= ttl
}

/// What a request for metadata leads to.
pub enum FetchStart {
    /// It is in the cache.
    Cached(TorrentMetadata),
    /// It is being downloaded already.
    Busy,
    /// Download it, and report the outcome.
    Download,
}

/// Keeper of fetched metadata.
pub struct MetadataService {
    cache: DashMap<[u8; 20], TorrentMetadata>,
    downloading: DashMap<[u8; 20], u64>,
    peer_id: [u8; 20],
    cache_ttl: u64,
}

/// The service's state as the contracts see it.
#[verifier::ext_equal]
pub struct MetadataState {
    pub cache: Map<Seq<u8>, MetadataView>,
    pub downloading: Map<Seq<u8>, u64>,
    pub peer_id: Seq<u8>,
    pub cache_ttl: u64,
}

impl MetadataState {
    /// The entry that is still usable at `now`.
    pub open spec fn usable(self, infohash: Seq<u8>, now: u64) -> Option<MetadataView> {
        if self.cache.dom().contains(infohash) && fresh(
            self.cache[infohash].fetched_at,
            now,
            self.cache_ttl,
        ) {
            Some(self.cache[infohash])
        } else {
            None
        }
    }
}

impl View for MetadataService {
    type V = MetadataState;

    closed spec fn view(&self) -> MetadataState {
        MetadataState {
            cache: cached(self.cache),
            downloading: under_way(self.downloading),
            peer_id: self.peer_id@,
            cache_ttl: self.cache_ttl,
        }
    }
}

/// The peer id with a given tail.
pub fn make_peer_id(tail: &[u8; 11]) -> (r: [u8; 20])
    ensures
        r@ == ascii("PDC-1000-"@) + tail@,
{
    let mut out: Vec<u8> = Vec::new();
    proof {
        reveal_strlit("PDC-1000-");
    }
    push_str(&mut out, "PDC-1000-");
    out.extend_from_slice(tail.as_slice());
    let r = array20(out.as_slice());
    assert(r@ =~= ascii("PDC-1000-"@) + tail@);
    r
}

impl MetadataService {
    /// A service with an empty cache and a peer id that ends in random bytes.
    pub fn new() -> (r: Self)
        ensures
            r@.cache == Map::<Seq<u8>, MetadataView>::empty(),
            r@.downloading == Map::<Seq<u8>, u64>::empty(),
            r@.peer_id.len() == 20,
            r@.peer_id.take(9) == ascii("PDC-1000-"@),
            r@.cache_ttl == METADATA_TTL,
    {
        let mut tail: [u8; 11] = [0u8; 11];
        let mut i: usize = 0;
        while i < 11
            invariant
                0 <= i <= 11,
            decreases 11 - i,
        {
            tail[i] = (random_u64() % 256) as u8;
            i = i + 1;
        }
        let peer_id = make_peer_id(&tail);
        proof {
            reveal_strlit("PDC-1000-");
            assert(peer_id@.take(9) =~= ascii("PDC-1000-"@));
        }
        MetadataService {
            cache: new_cache(),
            downloading: new_downloads(),
            peer_id,
            cache_ttl: METADATA_TTL,
        }
    }

    /// The peer id of this side.
    pub fn peer_id(&self) -> (r: [u8; 20])
        ensures
            r@ == self@.peer_id,
    {
        self.peer_id
    }

    /// Metadata from the cache, unless it is too old.
    pub fn get_metadata(&self, infohash: &Infohash, now: u64) -> (r: Option<TorrentMetadata>)
        ensures
            r is Some <==> self@.usable(infohash@, now) is Some,
            r matches Some(m) ==> self@.usable(infohash@, now) == Some(m@),
    {
        match cache_get(&self.cache, infohash) {
            Some(m) => {
                if is_fresh(m.fetched_at, now, self.cache_ttl) {
                    Some(m)
                } else {
                    None
                }
            },
            None => None,
        }
    }

    /// Whether usable metadata is in the cache.
    pub fn has_metadata(&self, infohash: &Infohash, now: u64) -> (r: bool)
        ensures
            r == (self@.usable(infohash@, now) is Some),
    {
        self.get_metadata(infohash, now).is_some()
    }

    /// A request for metadata: answered from the cache, refused while a download of it
    /// is under way, and otherwise noted as a download.
    pub fn begin_fetch(&mut self, infohash: &Infohash, now: u64) -> (r: FetchStart)
        ensures
            match old(self)@.usable(infohash@, now) {
                Some(m) => {
                    &&& r matches FetchStart::Cached(c) && c@ == m
                    &&& final(self)@ == old(self)@
                },
                None => if old(self)@.downloading.dom().contains(infohash@) {
                    r is Busy && final(self)@ == old(self)@
                } else {
                    r is Download && final(self)@ == (MetadataState {
                        downloading: old(self)@.downloading.insert(infohash@, now),
                        ..old(self)@
                    })
                },
            },
    {
        if let Some(m) = self.get_metadata(infohash, now) {
            return FetchStart::Cached(m);
        }
        if downloads_contain(&self.downloading, infohash) {
            return FetchStart::Busy;
        }
        downloads_insert(&mut self.downloading, *infohash, now);
        FetchStart::Download
    }

    /// The end of a download: it is no longer under way, and what came of it, if
    /// anything did, is in the cache.
    pub fn finish_fetch(&mut self, infohash: &Infohash, fetched: Option<TorrentMetadata>)
        ensures
            final(self)@ == (MetadataState {
                downloading: old(self)@.downloading.remove(infohash@),
                cache: match fetched {
                    Some(m) => old(self)@.cache.insert(infohash@, m@),
                    None => old(self)@.cache,
                },
                ..old(self)@
            }),
    {
        downloads_remove(&mut self.downloading, infohash);
        if let Some(m) = fetched {
            cache_insert(&mut self.cache, *infohash, m);
        }
    }

    /// The end of the dictionary that `data` starts with.
    pub fn find_bencode_dict_end(&self, data: &[u8]) -> (r: Result<usize, DictEndError>)
        ensures
            r is Ok <==> dict_end(data@) is Ok,
            r matches Ok(n) ==> dict_end(data@) == Ok::<nat, DictEndError>(n as nat),
            r matches Err(e) ==> dict_end(data@) == Err::<nat, DictEndError>(e),
    {
        find_bencode_dict_end(data)
    }

    /// Drops what is too old, and says how many entries that were.
    pub fn cleanup_expired(&mut self, now: u64) -> (r: usize)
        ensures
            final(self)@ == (MetadataState {
                cache: old(self)@.cache.restrict(
                    Set::new(|k: Seq<u8>| old(self)@.usable(k, now) is Some),
                ),
                ..old(self)@
            }),
            r == old(self)@.cache.dom().len() - final(self)@.cache.dom().len(),
    {
        let before: usize = count_cached(&self.cache);
        let ghost c = cached(self.cache);
        cache_retain(&mut self.cache, now, self.cache_ttl);
        let after: usize = count_cached(&self.cache);
        proof {
            assert(cached(self.cache) =~= c.restrict(
                Set::new(|k: Seq<u8>| old(self)@.usable(k, now) is Some),
            ));
            vstd::set_lib::lemma_len_subset(cached(self.cache).dom(), c.dom());
        }
        before - after
    }

    /// Number of entries in the cache, usable or not.
    pub fn cached_count(&self) -> (r: usize)
        ensures
            r == self@.cache.dom().len(),
    {
        count_cached(&self.cache)
    }
}

impl Default for MetadataService {
    fn default() -> (r: Self)
        ensures
            r@.cache == Map::<Seq<u8>, MetadataView>::empty(),
            r@.downloading == Map::<Seq<u8>, u64>::empty(),
            r@.peer_id.len() == 20,
            r@.peer_id.take(9) == ascii("PDC-1000-"@),
            r@.cache_ttl == METADATA_TTL,
    {
        MetadataService::new()
    }
}

/// Why a download from several peers gave nothing.
#[derive(Debug, Clone, Copy, PartialEq, Eq, Structural)]
pub enum AttemptsError<E> {
    NoPeers,
    /// Every peer failed; the last one like this.
    AllFailed(E),
}

/// Which of so many peers is asked next, after these attempts: the one after those that
/// were asked, unless the last of them delivered or there is none left.
pub fn next_peer<T, E>(peers: usize, attempts: &Vec<Result<T, E>>) -> (r: Option<usize>)
    ensures
        r == (if attempts@.len() >= peers || (attempts@.len() > 0 && attempts@.last() is Ok) {
            None::<usize>
        } else {
            Some(attempts@.len() as usize)
        }),
{
    let n: usize = attempts.len();
    if n >= peers {
        return None;
    }
    if n > 0 {
        if let Ok(_) = &attempts[n - 1] {
            return None;
        }
    }
    Some(n)
}

/// The outcome of asking peers one after the other until one delivers: what the last
/// attempt gave.
pub fn conclude_attempts<T, E>(attempts: Vec<Result<T, E>>) -> (r: Result<T, AttemptsError<E>>)
    ensures
        attempts@.len() == 0 ==> r == Err::<T, AttemptsError<E>>(AttemptsError::NoPeers),
        attempts@.len() > 0 ==> r == (match attempts@.last() {
            Ok(t) => Ok::<T, AttemptsError<E>>(t),
            Err(e) => Err::<T, AttemptsError<E>>(AttemptsError::AllFailed(e)),
        }),
{
    let mut attempts = attempts;
    match attempts.pop() {
        None => Err(AttemptsError::NoPeers),
        Some(Ok(t)) => Ok(t),
        Some(Err(e)) => Err(AttemptsError::AllFailed(e)),
    }
}

/// What was fetched can be had from the cache until it is too old.
pub proof fn fetched_metadata_is_usable(s: MetadataState, infohash: Seq<u8>, m: MetadataView, now: u64)
    requires
        fresh(m.fetched_at, now, s.cache_ttl),
    ensures
        (MetadataState { cache: s.cache.insert(infohash, m), ..s }).usable(infohash, now) == Some(m),
{
}

/// Dropping what is too old takes nothing away that was usable.
pub proof fn cleanup_keeps_the_usable(s: MetadataState, infohash: Seq<u8>, now: u64)
    ensures
        (MetadataState {
            cache: s.cache.restrict(Set::new(|k: Seq<u8>| s.usable(k, now) is Some)),
            ..s
        }).usable(infohash, now) == s.usable(infohash, now),
{
}

} // verus!
