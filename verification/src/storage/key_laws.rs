//! What holds of the keys of rows, of numbers in them, and of the queries for them.

use vstd::prelude::*;
use vstd::utf8::*;

use crate::digest::blake3_of;
use crate::storage::db::{
    addr_data, id_of, l2_shard_of, le64, needs_brackets, node_key_of, peer_key_of, socket_text_of,
    AddrRow, RepoRows,
};
use crate::storage::repo_query::{comma_list, cut, places, repo_of, signed_value, Repo};
use crate::text::{ascii, digits_value, hex_text, signed_decimal};

verus! {

/// The key of a node is its address and its port with a colon between; that of a peer has the
/// torrent in hexadecimal digits and a colon in front of that.
pub proof fn keys_are_parted_by_colons(infohash: Seq<u8>, ip: Seq<char>, port: int)
    ensures
        node_key_of(ip, port).take(encode_utf8(ip).len() as int) == encode_utf8(ip),
        node_key_of(ip, port)[encode_utf8(ip).len() as int] == 58,
        node_key_of(ip, port).skip(encode_utf8(ip).len() + 1int) == signed_decimal(port),
        peer_key_of(infohash, ip, port).take(2 * infohash.len() as int) == ascii(hex_text(infohash)),
        peer_key_of(infohash, ip, port)[2 * infohash.len() as int] == 58,
        peer_key_of(infohash, ip, port).skip(2 * infohash.len() + 1int) == node_key_of(ip, port),
{
    let n = encode_utf8(ip).len() as int;
    assert(node_key_of(ip, port).take(n) =~= encode_utf8(ip));
    assert(node_key_of(ip, port).skip(n + 1) =~= signed_decimal(port));
    let m = 2 * infohash.len() as int;
    assert(hex_text(infohash).len() == m);
    assert(peer_key_of(infohash, ip, port).take(m) =~= ascii(hex_text(infohash)));
    assert(peer_key_of(infohash, ip, port).skip(m + 1) =~= node_key_of(ip, port));
}

/// A host that holds a colon stands in brackets where a port follows it, unless it has a bracket
/// already; any other stands there as it is.
pub proof fn colons_need_brackets(ip: Seq<char>, port: int)
    ensures
        !encode_utf8(ip).contains(58u8) ==> socket_text_of(ip, port) == encode_utf8(ip).push(58u8)
            + signed_decimal(port),
        encode_utf8(ip).contains(58u8) && encode_utf8(ip)[0] != 91 ==> socket_text_of(ip, port)
            == seq![91u8] + encode_utf8(ip).push(93u8).push(58u8) + signed_decimal(port),
        encode_utf8(ip).len() > 0 && encode_utf8(ip)[0] == 91 ==> socket_text_of(ip, port)
            == encode_utf8(ip).push(58u8) + signed_decimal(port),
{
    assert(encode_utf8(ip) + seq![58u8] =~= encode_utf8(ip).push(58u8));
    if needs_brackets(ip) {
        assert(socket_text_of(ip, port) =~= seq![91u8] + encode_utf8(ip).push(93u8).push(58u8)
            + signed_decimal(port));
    }
}

/// A numeral may have a sign in front: a minus makes the number negative, a plus does nothing.
pub proof fn signs_are_read(digits: Seq<u8>)
    requires
        digits.len() > 0,
        forall|i: int| 0 <= i < digits.len() ==> 48 <= #[trigger] digits[i] <= 57,
    ensures
        digits_value(digits) <= i64::MAX ==> signed_value(digits) == Some(
            digits_value(digits) as int,
        ),
        digits_value(digits) <= i64::MAX ==> signed_value(seq![43u8] + digits) == Some(
            digits_value(digits) as int,
        ),
        digits_value(digits) <= i64::MAX + 1 ==> signed_value(seq![45u8] + digits) == Some(
            -digits_value(digits),
        ),
        digits_value(digits) > i64::MAX ==> signed_value(digits) is None,
        digits_value(digits) > i64::MAX + 1 ==> signed_value(seq![45u8] + digits) is None,
        signed_value(Seq::empty()) is None,
{
    assert((seq![43u8] + digits).skip(1) =~= digits);
    assert((seq![45u8] + digits).skip(1) =~= digits);
    crate::text_laws::digits_are_read(digits, 48, 0x7fff_ffff_ffff_ffff);
    crate::text_laws::digits_are_read(digits, 48, 0x8000_0000_0000_0000);
    crate::text_laws::digits_are_read(Seq::empty(), 48, 0x7fff_ffff_ffff_ffff);
    assert(digits[0] >= 48);
}

/// The shard of a key is the number that the first two bytes of its digest write.
pub proof fn shards_go_by_the_first_two_bytes(key: Seq<u8>)
    ensures
        0 <= l2_shard_of(key) < 65536,
        l2_shard_of(key) / 256 == blake3_of(key)[0],
        l2_shard_of(key) % 256 == blake3_of(key)[1],
{
}

/// Eight bytes write a number, the least significant one first.
pub proof fn the_least_byte_comes_first(n: u64)
    ensures
        le64(n).len() == 8,
        n == le64(n)[0] + le64(n)[1] * 0x100 + le64(n)[2] * 0x1_0000 + le64(n)[3] * 0x100_0000
            + le64(n)[4] * 0x1_0000_0000 + le64(n)[5] * 0x100_0000_0000 + le64(n)[6]
            * 0x1_0000_0000_0000 + le64(n)[7] * 0x100_0000_0000_0000,
{
    assert(n == n % 256 + (n / 0x100 % 256) * 0x100 + (n / 0x1_0000 % 256) * 0x1_0000 + (n
        / 0x100_0000 % 256) * 0x100_0000 + (n / 0x1_0000_0000 % 256) * 0x1_0000_0000 + (n
        / 0x100_0000_0000 % 256) * 0x100_0000_0000 + (n / 0x1_0000_0000_0000 % 256)
        * 0x1_0000_0000_0000 + (n / 0x100_0000_0000_0000 % 256) * 0x100_0000_0000_0000) by (
        bit_vector);
    let b = le64(n);
    assert(b[0] == n % 256);
    assert(b[1] == n / 0x100 % 256);
    assert(b[2] == n / 0x1_0000 % 256);
    assert(b[3] == n / 0x100_0000 % 256);
    assert(b[4] == n / 0x1_0000_0000 % 256);
    assert(b[5] == n / 0x100_0000_0000 % 256);
    assert(b[6] == n / 0x1_0000_0000_0000 % 256);
    assert(b[7] == n / 0x100_0000_0000_0000 % 256);
}

/// Every piece but the last has the size that was asked for, the last is not empty, and what
/// stands in a piece stood so far behind its start in the list.
pub proof fn pieces_have_a_size<T>(s: Seq<T>, n: nat, i: int, k: int)
    requires
        n > 0,
        0 <= i < cut(s, n).len(),
    ensures
        0 < cut(s, n)[i].len() <= n,
        i + 1 < cut(s, n).len() ==> cut(s, n)[i].len() == n,
        0 <= k < cut(s, n)[i].len() ==> i * n + k < s.len() && cut(s, n)[i][k] == s[i * n + k],
    decreases s.len(),
{
    let piece = cut(s, n)[i];
    if s.len() > n && i > 0 {
        let t = s.skip(n as int);
        pieces_have_a_size(t, n, i - 1, k);
        assert(piece == cut(t, n)[i - 1]);
        assert((i - 1) * n + n == i * n && (i - 1) * n >= 0) by (nonlinear_arith)
            requires
                i >= 1,
        ;
    } else {
        assert(i * n == 0) by (nonlinear_arith)
            requires
                i == 0,
        ;
        assert(piece.len() <= s.len() && piece =~= s.take(piece.len() as int));
    }
}

/// A list of places has one for each key, and commas between.
pub proof fn places_stand_for_the_keys(n: nat, i: int)
    requires
        n > 0,
    ensures
        places(n).len() == 2 * n - 1,
        0 <= i < n ==> places(n)[2 * i] == '?',
        0 <= i < n - 1 ==> places(n)[2 * i + 1] == ',',
    decreases n,
{
    reveal_strlit("?");
    reveal_strlit(",?");
    if n > 1 {
        places_stand_for_the_keys((n - 1) as nat, i);
    }
}

/// A list of texts with commas between holds each of them once.
pub proof fn lists_are_parted_by_commas(item: Seq<char>, n: nat)
    ensures
        comma_list(item, 0).len() == 0,
        comma_list(item, 1) == item,
        n >= 1 ==> comma_list(item, n + 1) == comma_list(item, n).push(',').push(' ') + item,
{
    reveal_strlit(", ");
    if n >= 1 {
        assert(comma_list(item, n) + ", "@ =~= comma_list(item, n).push(',').push(' '));
    }
}

/// Different numbers stand for different tables, and only four of them for any.
pub proof fn tables_are_numbered(a: u8, b: u8)
    ensures
        repo_of(a) is Some <==> 1 <= a <= 4,
        repo_of(a) is Some && repo_of(a) == repo_of(b) ==> a == b,
        repo_of(1) == Some(Repo::Node) && repo_of(2) == Some(Repo::Peer),
        repo_of(3) == Some(Repo::Infohash) && repo_of(4) == Some(Repo::Tracker),
{
}

/// An identifier that is read has twenty bytes, those of the row where it has so many.
pub proof fn identifiers_have_twenty_bytes(bytes: Seq<u8>, i: int)
    ensures
        id_of(bytes).len() == 20,
        bytes.len() == 20 ==> id_of(bytes) == bytes,
        bytes.len() != 20 && 0 <= i < 20 ==> id_of(bytes)[i] == 0,
{
}

/// The digest of a row with an address covers its identifier, its host and its port, in this
/// order; that of any other covers its key.
pub proof fn digests_cover_the_row(rows: RepoRows, row: AddrRow, i: int)
    ensures
        addr_data(row).take(row.id@.len() as int) == row.id@,
        addr_data(row).subrange(
            row.id@.len() as int,
            row.id@.len() + encode_utf8(row.ip@).len() as int,
        ) == encode_utf8(row.ip@),
        addr_data(row).skip(row.id@.len() + encode_utf8(row.ip@).len() as int) == le64(
            row.port as u64,
        ),
        rows matches RepoRows::Nodes(v) ==> rows.data_of(i) == addr_data(v@[i]),
        rows matches RepoRows::Peers(v) ==> rows.data_of(i) == addr_data(v@[i]),
        rows is Infohashes || rows is Trackers ==> rows.data_of(i) == rows.key_of(i),
        rows matches RepoRows::Infohashes(v) ==> rows.key_of(i) == v@[i]@,
        rows matches RepoRows::Trackers(v) ==> rows.key_of(i) == encode_utf8(v@[i]@),
        rows matches RepoRows::Nodes(v) ==> rows.key_of(i) == node_key_of(
            v@[i].ip@,
            v@[i].port as int,
        ),
{
    let n = row.id@.len() as int;
    let m = n + encode_utf8(row.ip@).len() as int;
    assert(addr_data(row).take(n) =~= row.id@);
    assert(addr_data(row).subrange(n, m) =~= encode_utf8(row.ip@));
    assert(addr_data(row).skip(m) =~= le64(row.port as u64));
}

} // verus!
