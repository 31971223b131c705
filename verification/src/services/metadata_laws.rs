//! What holds of metadata on its way from a peer: handshakes, pieces and info dictionaries.

use vstd::prelude::*;
use vstd::string::*;

use crate::bencode::{
    dict_end_finds_the_end, encode, parsed, Bencode, BencodeTree,
};
use crate::digest::sha1_of;
use crate::services::metadata_service::{
    assembled, extension_of, file_of, files_of, fresh, handshake, handshake_of, info_of, join_path,
    joined, metadata_of, piece_of, piece_verdict, size_of_entry, sum_sizes, ExtensionError,
    InfoDictError, MetadataState, MetadataView, PieceError, METADATA_TTL,
};
use crate::text::{ascii, lossy_text};
use crate::types::PeerAddr;

verus! {

/// What is fetched is accepted where its digest is the infohash and it is a dictionary with a
/// piece length; it is refused for its digest only where that is another.
pub proof fn genuine_metadata_is_accepted(
    bytes: Seq<u8>,
    infohash: Seq<u8>,
    source_peer: PeerAddr,
    now: u64,
)
    ensures
        metadata_of(bytes, infohash, source_peer, now) is None <==> sha1_of(bytes) != infohash,
        sha1_of(bytes) == infohash && parsed(bytes) is Some && parsed(bytes)->0.int_at(
            "piece length".spec_bytes(),
        ) is Some ==> (metadata_of(bytes, infohash, source_peer, now) matches Some(r) && r is Ok),
{
}

/// An entry of a dictionary is looked up by its key, and by nothing else.
pub proof fn entries_are_found_by_their_keys(m: Map<Seq<u8>, BencodeTree>, k: Seq<u8>)
    ensures
        m.contains_key(k) ==> BencodeTree::Dict(m).at(k) == Some(m[k]),
        !m.contains_key(k) ==> BencodeTree::Dict(m).at(k) is None,
        forall|n: i64|
            BencodeTree::Dict(m).int_at(k) == Some(n) <==> m.contains_key(k) && m[k]
                == BencodeTree::Int(n),
        forall|b: Seq<u8>|
            BencodeTree::Dict(m).bytes_at(k) == Some(b) <==> m.contains_key(k) && m[k]
                == BencodeTree::Bytes(b),
        forall|l: Seq<BencodeTree>|
            BencodeTree::Dict(m).list_at(k) == Some(l) <==> m.contains_key(k) && m[k]
                == BencodeTree::List(l),
        forall|n: i64| BencodeTree::Int(n).at(k) is None,
        forall|b: Seq<u8>| BencodeTree::Bytes(b).at(k) is None,
        forall|l: Seq<BencodeTree>| BencodeTree::List(l).at(k) is None,
{
}

/// An info dictionary is usable where it has a piece length; what is made of it says what
/// stands in it: its name, twenty bytes of digest for each piece, whether it is private; and
/// without a list of files it is one file of its own name and length.
pub proof fn metadata_says_what_the_dictionary_says(
    m: Map<Seq<u8>, BencodeTree>,
    infohash: Seq<u8>,
    source_peer: PeerAddr,
    now: u64,
    length: i64,
    name: Seq<u8>,
    pieces: Seq<u8>,
    piece_length: i64,
)
    requires
        m.contains_key("piece length".spec_bytes()),
        m["piece length".spec_bytes()] == BencodeTree::Int(piece_length),
        m.contains_key("name".spec_bytes()),
        m["name".spec_bytes()] == BencodeTree::Bytes(name),
        m.contains_key("pieces".spec_bytes()),
        m["pieces".spec_bytes()] == BencodeTree::Bytes(pieces),
        pieces.len() <= u32::MAX,
        piece_length >= 0,
        length >= 0,
    ensures
        ({
            let r = info_of(BencodeTree::Dict(m), infohash, source_peer, now);
            &&& r is Ok
            &&& r->Ok_0.infohash == infohash
            &&& r->Ok_0.source_peer == source_peer
            &&& r->Ok_0.fetched_at == now
            &&& r->Ok_0.name == lossy_text(name)
            &&& r->Ok_0.piece_length == piece_length
            &&& 20 * r->Ok_0.piece_count <= pieces.len() < 20 * r->Ok_0.piece_count + 20
            &&& m.contains_key("private".spec_bytes()) && m["private".spec_bytes()]
                == BencodeTree::Int(1) <==> r->Ok_0.is_private
            &&& !m.contains_key("files".spec_bytes()) && m.contains_key("length".spec_bytes())
                && m["length".spec_bytes()] == BencodeTree::Int(length) ==> {
                &&& r->Ok_0.files.len() == 1
                &&& r->Ok_0.files[0] == (lossy_text(name), length as u64)
                &&& r->Ok_0.total_size == length
            }
        }),
{
    let t = BencodeTree::Dict(m);
    let one = seq![(lossy_text(name), size_of_entry(t))];
    assert(one.drop_last() =~= Seq::<(Seq<char>, u64)>::empty());
    reveal_with_fuel(sum_sizes, 2);
}

/// Without a piece length, or being no dictionary, nothing is usable.
pub proof fn no_piece_length_is_no_info(
    t: BencodeTree,
    infohash: Seq<u8>,
    source_peer: PeerAddr,
    now: u64,
)
    ensures
        !(t is Dict) ==> info_of(t, infohash, source_peer, now) == Err::<
            MetadataView,
            InfoDictError,
        >(InfoDictError::NotADict),
        t is Dict && t.int_at("piece length".spec_bytes()) is None ==> info_of(
            t,
            infohash,
            source_peer,
            now,
        ) == Err::<MetadataView, InfoDictError>(InfoDictError::NoPieceLength),
{
}

/// A list of files gives one file for each dictionary in it, in order, of the length that the
/// dictionary states, and nothing for anything else.
pub proof fn each_dictionary_is_a_file(
    a: Seq<BencodeTree>,
    m: Map<Seq<u8>, BencodeTree>,
    other: BencodeTree,
    length: i64,
)
    requires
        m.contains_key("length".spec_bytes()),
        m["length".spec_bytes()] == BencodeTree::Int(length),
        length >= 0,
        !(other is Dict),
    ensures
        files_of(Seq::empty()).len() == 0,
        files_of(a.push(other)) == files_of(a),
        files_of(a.push(BencodeTree::Dict(m))).len() == files_of(a).len() + 1,
        files_of(a.push(BencodeTree::Dict(m))).drop_last() == files_of(a),
        files_of(a.push(BencodeTree::Dict(m))).last().1 == length,
{
    let p = |f: BencodeTree| f is Dict;
    let g = |f: BencodeTree| file_of(f);
    let d = BencodeTree::Dict(m);
    reveal(Seq::filter);
    assert(a.push(other).drop_last() =~= a);
    assert(a.push(d).drop_last() =~= a);
    assert(a.push(d).filter(p) =~= a.filter(p).push(d));
    assert(files_of(a.push(d)).drop_last() =~= files_of(a));
}

/// The size of a torrent is that of its files together: lists of files add up.
pub proof fn sizes_add_up(
    a: Seq<(Seq<char>, u64)>,
    b: Seq<(Seq<char>, u64)>,
    f: (Seq<char>, u64),
)
    ensures
        sum_sizes(Seq::empty()) == 0,
        sum_sizes(seq![f]) == f.1,
        sum_sizes(a) + sum_sizes(b) <= u64::MAX ==> sum_sizes(a + b) == sum_sizes(a) + sum_sizes(b),
    decreases b.len(),
{
    lemma_sizes_joined(a, b);
    assert(seq![f].drop_last() =~= Seq::<(Seq<char>, u64)>::empty());
    reveal_with_fuel(sum_sizes, 2);
}

proof fn lemma_sizes_joined(a: Seq<(Seq<char>, u64)>, b: Seq<(Seq<char>, u64)>)
    ensures
        sum_sizes(a + b) == sum_sizes(a).wrapping_add(sum_sizes(b)),
    decreases b.len(),
{
    if b.len() == 0 {
        assert(a + b =~= a);
    } else {
        lemma_sizes_joined(a, b.drop_last());
        assert((a + b).drop_last() =~= a + b.drop_last());
    }
}

/// Parts of a path are joined by slashes: two paths one after the other have one between them.
pub proof fn paths_are_joined_by_slashes(a: Seq<Seq<char>>, b: Seq<Seq<char>>, x: Seq<char>)
    requires
        a.len() > 0,
        b.len() > 0,
    ensures
        join_path(seq![x]) == x,
        join_path(a + b) == join_path(a) + seq!['/'] + join_path(b),
    decreases b.len(),
{
    reveal_strlit("/");
    assert("/"@ =~= seq!['/']);
    assert((a + b).drop_last() =~= a + b.drop_last());
    assert((a + b).last() == b.last());
    if b.len() == 1 {
        assert(a + b.drop_last() =~= a);
    } else {
        paths_are_joined_by_slashes(a, b.drop_last(), x);
        assert(join_path(a) + seq!['/'] + join_path(b.drop_last()) + seq!['/'] + b.last()
            =~= join_path(a) + seq!['/'] + (join_path(b.drop_last()) + seq!['/'] + b.last()));
    }
}

/// A handshake names the protocol, offers extensions, and carries the infohash and the peer id
/// in their places.
pub proof fn handshake_has_its_parts_in_place(infohash: Seq<u8>, peer_id: Seq<u8>)
    requires
        infohash.len() == 20,
        peer_id.len() == 20,
    ensures
        handshake(infohash, peer_id).len() == 68,
        handshake(infohash, peer_id)[0] == 19,
        handshake(infohash, peer_id).subrange(1, 20) == ascii("BitTorrent protocol"@),
        handshake(infohash, peer_id)[25] == 0x10,
        handshake(infohash, peer_id).subrange(28, 48) == infohash,
        handshake(infohash, peer_id).subrange(48, 68) == peer_id,
{
    reveal_strlit("BitTorrent protocol");
    let h = handshake(infohash, peer_id);
    assert(h.subrange(1, 20) =~= ascii("BitTorrent protocol"@));
    assert(h.subrange(28, 48) =~= infohash);
    assert(h.subrange(48, 68) =~= peer_id);
}

/// Whoever sends sixty-eight bytes that start with the protocol's name is understood: the peer
/// id is the last twenty of them, and one bit of the reserved bytes tells of extensions.
pub proof fn handshake_is_understood(bytes: Seq<u8>)
    requires
        bytes.len() == 68,
    ensures
        bytes[0] == 19 && bytes.subrange(1, 20) == ascii("BitTorrent protocol"@) <==> handshake_of(
            bytes,
        ) is Ok,
        handshake_of(bytes) is Ok ==> handshake_of(bytes)->Ok_0.0 == bytes.skip(48),
        handshake_of(bytes) is Ok && bytes[25] == 0x10 ==> handshake_of(bytes)->Ok_0.1,
        handshake_of(bytes) is Ok && bytes[25] == 0 ==> !handshake_of(bytes)->Ok_0.1,
{
    assert(bytes.subrange(48, 68) =~= bytes.skip(48));
    assert(0x10u8 & 0x10u8 != 0) by (bit_vector);
    assert(0u8 & 0x10u8 == 0) by (bit_vector);
}

/// A peer that names an id for metadata messages and a size of its metadata is asked under that
/// id for so much; one that has no metadata is not asked.
pub proof fn offered_metadata_is_asked_for(
    m: Map<Seq<u8>, BencodeTree>,
    ids: Map<Seq<u8>, BencodeTree>,
    id: i64,
    size: i64,
)
    requires
        m.contains_key("m".spec_bytes()),
        m["m".spec_bytes()] == BencodeTree::Dict(ids),
        ids.contains_key("ut_metadata".spec_bytes()),
        ids["ut_metadata".spec_bytes()] == BencodeTree::Int(id),
        0 <= id <= 255,
        0 <= size <= u32::MAX,
    ensures
        m.contains_key("metadata_size".spec_bytes()) && m["metadata_size".spec_bytes()]
            == BencodeTree::Int(size) && size > 0 ==> extension_of(BencodeTree::Dict(m)) == Ok::<
            (u8, u32),
            ExtensionError,
        >((id as u8, size as u32)),
        !m.contains_key("metadata_size".spec_bytes()) ==> extension_of(BencodeTree::Dict(m))
            == Err::<(u8, u32), ExtensionError>(ExtensionError::NoMetadata),
{
}

/// A piece is data where its message type is one, refused where it is two, and neither
/// otherwise.
pub proof fn message_types_decide(t: BencodeTree)
    ensures
        piece_verdict(t) is Ok <==> t.int_at("msg_type".spec_bytes()) == Some(1i64),
        piece_verdict(t) == Err::<(), PieceError>(PieceError::Rejected) <==> t.int_at(
            "msg_type".spec_bytes(),
        ) == Some(2i64),
{
}

/// What follows the dictionary of an answer is the piece, byte for byte.
pub proof fn the_piece_follows_its_dictionary(
    d: Vec<(Vec<u8>, Bencode)>,
    data: Seq<u8>,
    id: u8,
    t: BencodeTree,
)
    requires
        parsed(encode(Bencode::Dict(d))) == Some(t),
        t.int_at("msg_type".spec_bytes()) == Some(1i64),
    ensures
        piece_of(id, id, encode(Bencode::Dict(d)) + data) == Ok::<Seq<u8>, PieceError>(data),
        forall|other: u8|
            other != id ==> piece_of(id, other, encode(Bencode::Dict(d)) + data) == Err::<
                Seq<u8>,
                PieceError,
            >(PieceError::WrongId(other)),
{
    let e = encode(Bencode::Dict(d));
    dict_end_finds_the_end(d, data);
    assert((e + data).take(e.len() as int) =~= e);
    assert((e + data).skip(e.len() as int) =~= data);
}

/// Metadata that was cut into pieces is put together again, byte for byte.
pub proof fn pieces_give_back_the_whole(data: Seq<u8>, pieces: Seq<Vec<u8>>)
    requires
        data.len() <= u32::MAX,
        16384 * pieces.len() >= data.len(),
        forall|i: int|
            0 <= i < pieces.len() ==> (#[trigger] pieces[i])@ == data.subrange(
                cut_at(data.len(), i),
                cut_at(data.len(), i + 1),
            ),
    ensures
        assembled(pieces, data.len() as u32) == data,
{
    lemma_joined(data, pieces, pieces.len() as int);
    assert(pieces.take(pieces.len() as int) =~= pieces);
    assert(data.take(data.len() as int) =~= data);
}

/// Where the `i`th piece of metadata of a length starts.
pub open spec fn cut_at(len: nat, i: int) -> int {
    if 16384 * i <= len {
        16384 * i
    } else {
        len as int
    }
}

proof fn lemma_joined(data: Seq<u8>, pieces: Seq<Vec<u8>>, n: int)
    requires
        0 <= n <= pieces.len(),
        forall|i: int|
            0 <= i < pieces.len() ==> (#[trigger] pieces[i])@ == data.subrange(
                cut_at(data.len(), i),
                cut_at(data.len(), i + 1),
            ),
    ensures
        joined(pieces.take(n)) == data.take(cut_at(data.len(), n)),
    decreases n,
{
    if n > 0 {
        lemma_joined(data, pieces, n - 1);
        assert(pieces.take(n).drop_last() =~= pieces.take(n - 1));
        assert(pieces.take(n).last() == pieces[n - 1]);
        assert(joined(pieces.take(n)) =~= data.take(cut_at(data.len(), n)));
    } else {
        assert(joined(pieces.take(n)) =~= data.take(0));
    }
}

/// What is put together is never longer than announced, and starts like the pieces.
pub proof fn nothing_beyond_the_announced_size(pieces: Seq<Vec<u8>>, first: Vec<u8>, size: u32)
    ensures
        assembled(pieces, size).len() <= size,
        first@.len() <= size ==> assembled(seq![first], size) == first@,
{
    assert(seq![first].drop_last() =~= Seq::<Vec<u8>>::empty());
    reveal_with_fuel(joined, 2);
    assert(joined(seq![first]) =~= first@);
}

/// Something fetched stays fresh up to its time to live, and no longer.
pub proof fn fresh_until_its_time(fetched_at: u64, now: u64, ttl: u64)
    ensures
        fresh(fetched_at, now, ttl) <==> now <= fetched_at + ttl,
{
}

/// Metadata is used for a day where nothing else was said, and not a moment longer.
pub proof fn metadata_is_used_for_a_day(s: MetadataState, infohash: Seq<u8>, now: u64)
    ensures
        s.usable(infohash, now) is Some <==> s.cache.contains_key(infohash) && now
            <= s.cache[infohash].fetched_at + s.cache_ttl,
        s.usable(infohash, now) is Some ==> s.usable(infohash, now) == Some(s.cache[infohash]),
        s.cache_ttl == METADATA_TTL ==> (s.usable(infohash, now) is Some <==> s.cache.contains_key(
            infohash,
        ) && now <= s.cache[infohash].fetched_at + 24 * 60 * 60 * 1_000_000_000),
{
}

} // verus!
