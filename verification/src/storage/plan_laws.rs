//! What holds of which rows are asked for, and of the queries that ask.

use vstd::prelude::*;
use vstd::utf8::*;

use crate::sorting::{pairs, texts};
use crate::storage::db::{id_of, socket_text_of, RepoRows};
use crate::storage::key_laws::pieces_have_a_size;
use crate::storage::repo_query::{
    cut, joined_keys, key_sql_of, keys_sql_of, node_named, peer_named, pieces, plans_infohashes,
    plans_nodes, plans_peers, plans_trackers, range_sql_of, sample_sql_of, subject_of, table_of,
    PeerKey, Repo, SubjectView,
};
use crate::text::lossy_text;

verus! {

proof fn lemma_in_a_piece<T>(s: Seq<T>, n: nat, k: int)
    requires
        n > 0,
        0 <= k < s.len(),
    ensures
        exists|i: int, j: int|
            0 <= i < cut(s, n).len() && 0 <= j < cut(s, n)[i].len() && #[trigger] cut(s, n)[i][j]
                == s[k],
    decreases s.len(),
{
    let c = cut(s, n);
    if s.len() <= n {
        assert(c[0][k] == s[k]);
    } else if k < n {
        assert(c[0] == s.take(n as int));
        assert(c[0][k] == s[k]);
    } else {
        let t = s.skip(n as int);
        lemma_in_a_piece(t, n, k - n);
        let (i, j) = choose|i: int, j: int|
            0 <= i < cut(t, n).len() && 0 <= j < cut(t, n)[i].len() && #[trigger] cut(t, n)[i][j]
                == t[k - n];
        assert(c[i + 1] == cut(t, n)[i]);
        assert(c[i + 1][j] == s[k]);
    }
}

/// Every node that a key names is asked for, and no other, at most four hundred at a time.
pub proof fn named_nodes_are_asked_for(
    keys: Seq<Seq<u8>>,
    r: Seq<Vec<(Vec<u8>, i64)>>,
    m: int,
    ip: Seq<u8>,
    port: i64,
    i: int,
    j: int,
)
    requires
        plans_nodes(keys, r),
    ensures
        0 <= m < keys.len() && node_named(keys[m]) == Some((ip, port)) ==> exists|a: int, b: int|
            0 <= a < r.len() && 0 <= b < r[a]@.len() && (#[trigger] r[a]@[b]).0@ == ip && r[a]@[b].1
                == port,
        0 <= i < r.len() ==> 0 < r[i]@.len() <= 400,
        0 <= i < r.len() && 0 <= j < r[i]@.len() ==> exists|k: int|
            0 <= k < keys.len() && #[trigger] node_named(keys[k]) == Some(
                (r[i]@[j].0@, r[i]@[j].1),
            ),
{
    let flat = choose|flat: Seq<(Vec<u8>, i64)>|
        pieces(r) == #[trigger] cut(flat, 400) && crate::sorting::pairs_strictly_ascend(
            pairs(flat),
        ) && forall|x: (Seq<u8>, i64)| #[trigger]
            pairs(flat).contains(x) <==> crate::storage::repo_query::names_node(keys, x);
    if 0 <= m < keys.len() && node_named(keys[m]) == Some((ip, port)) {
        assert(crate::storage::repo_query::names_node(keys, (ip, port)));
        assert(pairs(flat).contains((ip, port)));
        let k = choose|k: int| 0 <= k < pairs(flat).len() && pairs(flat)[k] == (ip, port);
        lemma_in_a_piece(flat, 400, k);
        let (a, b) = choose|a: int, b: int|
            0 <= a < cut(flat, 400).len() && 0 <= b < cut(flat, 400)[a].len() && #[trigger] cut(
                flat,
                400,
            )[a][b] == flat[k];
        assert(pieces(r)[a] == r[a]@);
        assert(r[a]@[b] == flat[k]);
    }
    if 0 <= i < r.len() {
        assert(pieces(r)[i] == r[i]@);
        pieces_have_a_size(flat, 400, i, j);
        if 0 <= j < r[i]@.len() {
            let x = (r[i]@[j].0@, r[i]@[j].1);
            assert(pairs(flat)[i * 400 + j] == x);
            assert(pairs(flat).contains(x));
            assert(crate::storage::repo_query::names_node(keys, x));
        }
    }
}

/// Every peer that a key names is asked for, and no other, at most three hundred at a time.
pub proof fn named_peers_are_asked_for(
    keys: Seq<Seq<u8>>,
    r: Seq<Vec<PeerKey>>,
    m: int,
    name: Seq<u8>,
    port: i64,
    i: int,
    j: int,
)
    requires
        plans_peers(keys, r),
    ensures
        0 <= m < keys.len() && peer_named(keys[m]) == Some((name, port)) ==> exists|a: int, b: int|
            0 <= a < r.len() && 0 <= b < r[a]@.len() && (#[trigger] r[a]@[b]).0@ + r[a]@[b].1@
                == name && r[a]@[b].2 == port,
        0 <= i < r.len() ==> 0 < r[i]@.len() <= 300,
        0 <= i < r.len() && 0 <= j < r[i]@.len() ==> r[i]@[j].0@.len() == 20 && exists|k: int|
            0 <= k < keys.len() && #[trigger] peer_named(keys[k]) == Some(
                (r[i]@[j].0@ + r[i]@[j].1@, r[i]@[j].2),
            ),
{
    let flat = choose|flat: Seq<PeerKey>|
        pieces(r) == #[trigger] cut(flat, 300) && crate::sorting::pairs_strictly_ascend(
            joined_keys(flat),
        ) && (forall|i: int| 0 <= i < flat.len() ==> (#[trigger] flat[i]).0@.len() == 20) && forall|
            x: (Seq<u8>, i64),
        | #[trigger]
            joined_keys(flat).contains(x) <==> crate::storage::repo_query::names_peer(keys, x);
    if 0 <= m < keys.len() && peer_named(keys[m]) == Some((name, port)) {
        assert(crate::storage::repo_query::names_peer(keys, (name, port)));
        assert(joined_keys(flat).contains((name, port)));
        let k = choose|k: int|
            0 <= k < joined_keys(flat).len() && joined_keys(flat)[k] == (name, port);
        lemma_in_a_piece(flat, 300, k);
        let (a, b) = choose|a: int, b: int|
            0 <= a < cut(flat, 300).len() && 0 <= b < cut(flat, 300)[a].len() && #[trigger] cut(
                flat,
                300,
            )[a][b] == flat[k];
        assert(pieces(r)[a] == r[a]@);
        assert(r[a]@[b] == flat[k]);
    }
    if 0 <= i < r.len() {
        assert(pieces(r)[i] == r[i]@);
        pieces_have_a_size(flat, 300, i, j);
        if 0 <= j < r[i]@.len() {
            let x = (r[i]@[j].0@ + r[i]@[j].1@, r[i]@[j].2);
            assert(flat[i * 300 + j] == r[i]@[j]);
            assert(joined_keys(flat)[i * 300 + j] == x);
            assert(joined_keys(flat).contains(x));
            assert(crate::storage::repo_query::names_peer(keys, x));
        }
    }
}

/// Every key of twenty bytes is asked for as a torrent, and no other, at most nine hundred at a
/// time.
pub proof fn named_torrents_are_asked_for(
    keys: Seq<Seq<u8>>,
    r: Seq<Vec<Vec<u8>>>,
    m: int,
    i: int,
    j: int,
)
    requires
        plans_infohashes(keys, r),
    ensures
        0 <= m < keys.len() && keys[m].len() == 20 ==> exists|a: int, b: int|
            0 <= a < r.len() && 0 <= b < r[a]@.len() && (#[trigger] r[a]@[b])@ == keys[m],
        0 <= i < r.len() ==> 0 < r[i]@.len() <= 900,
        0 <= i < r.len() && 0 <= j < r[i]@.len() ==> r[i]@[j]@.len() == 20 && keys.contains(
            r[i]@[j]@,
        ),
{
    let p = crate::storage::repo_query::is_infohash();
    let flat = choose|flat: Seq<Vec<u8>>|
        pieces(r) == #[trigger] cut(flat, 900) && texts(flat) == keys.filter(p);
    let f = keys.filter(p);
    if 0 <= m < keys.len() && keys[m].len() == 20 {
        crate::storage::recency::lemma_filter_keeps(keys, p, m);
        let k = choose|k: int| 0 <= k < f.len() && f[k] == keys[m];
        assert(texts(flat)[k] == flat[k]@);
        lemma_in_a_piece(flat, 900, k);
        let (a, b) = choose|a: int, b: int|
            0 <= a < cut(flat, 900).len() && 0 <= b < cut(flat, 900)[a].len() && #[trigger] cut(
                flat,
                900,
            )[a][b] == flat[k];
        assert(pieces(r)[a] == r[a]@);
        assert(r[a]@[b] == flat[k]);
    }
    if 0 <= i < r.len() {
        assert(pieces(r)[i] == r[i]@);
        pieces_have_a_size(flat, 900, i, j);
        if 0 <= j < r[i]@.len() {
            let k = i * 900 + j;
            assert(texts(flat)[k] == flat[k]@);
            assert(f[k] == r[i]@[j]@);
            keys.lemma_filter_pred(p, k);
            assert(f.contains(f[k]));
            keys.lemma_filter_contains_rev(p, f[k]);
        }
    }
}

/// Every URL that a key spells is asked for, at most five hundred at a time.
pub proof fn named_trackers_are_asked_for(
    keys: Seq<Seq<u8>>,
    r: Seq<Vec<Vec<u8>>>,
    m: int,
    i: int,
    j: int,
)
    requires
        plans_trackers(keys, r),
    ensures
        0 <= m < keys.len() ==> exists|a: int, b: int|
            0 <= a < r.len() && 0 <= b < r[a]@.len() && (#[trigger] r[a]@[b])@ == encode_utf8(
                lossy_text(keys[m]),
            ),
        0 <= i < r.len() ==> 0 < r[i]@.len() <= 500,
        0 <= i < r.len() && 0 <= j < r[i]@.len() ==> exists|k: int|
            0 <= k < keys.len() && r[i]@[j]@ == encode_utf8(lossy_text(#[trigger] keys[k])),
{
    let urls = crate::storage::repo_query::urls_of(keys);
    let flat = choose|flat: Seq<Vec<u8>>|
        pieces(r) == #[trigger] cut(flat, 500) && crate::sorting::strictly_ascend(texts(flat))
            && forall|x: Seq<u8>| #[trigger] texts(flat).contains(x) <==> urls.contains(x);
    if 0 <= m < keys.len() {
        let x = encode_utf8(lossy_text(keys[m]));
        assert(urls[m] == x);
        assert(urls.contains(x));
        assert(texts(flat).contains(x));
        let k = choose|k: int| 0 <= k < texts(flat).len() && texts(flat)[k] == x;
        lemma_in_a_piece(flat, 500, k);
        let (a, b) = choose|a: int, b: int|
            0 <= a < cut(flat, 500).len() && 0 <= b < cut(flat, 500)[a].len() && #[trigger] cut(
                flat,
                500,
            )[a][b] == flat[k];
        assert(pieces(r)[a] == r[a]@);
        assert(r[a]@[b] == flat[k]);
    }
    if 0 <= i < r.len() {
        assert(pieces(r)[i] == r[i]@);
        pieces_have_a_size(flat, 500, i, j);
        if 0 <= j < r[i]@.len() {
            let x = r[i]@[j]@;
            assert(texts(flat)[i * 500 + j] == x);
            assert(texts(flat).contains(x));
            let k = choose|k: int| 0 <= k < urls.len() && urls[k] == x;
            assert(x == encode_utf8(lossy_text(keys[k])));
        }
    }
}

/// What a row tells of is a node or a peer with its identifier and address, a torrent where it
/// has twenty bytes, or a tracker.
pub proof fn rows_tell_of_their_subject(rows: RepoRows, i: int)
    ensures
        rows matches RepoRows::Nodes(v) ==> subject_of(rows, i) == Some(
            SubjectView::Node(id_of(v@[i].id@), socket_text_of(v@[i].ip@, v@[i].port as int)),
        ),
        rows matches RepoRows::Peers(v) ==> subject_of(rows, i) == Some(
            SubjectView::Peer(id_of(v@[i].id@), socket_text_of(v@[i].ip@, v@[i].port as int)),
        ),
        rows matches RepoRows::Infohashes(v) ==> (subject_of(rows, i) is Some <==> v@[i]@.len()
            == 20),
        rows matches RepoRows::Infohashes(v) ==> (v@[i]@.len() == 20 ==> subject_of(rows, i)
            == Some(SubjectView::Infohash(v@[i]@))),
        rows matches RepoRows::Trackers(v) ==> subject_of(rows, i) == Some(
            SubjectView::Tracker(v@[i]@),
        ),
{
}

/// Each table is asked by its own name, and rows that are marked as deleted are passed over.
pub proof fn deleted_rows_are_passed_over(repo: Repo, n: nat)
    ensures
        exists|i: int|
            0 <= i && i + 18 <= range_sql_of(repo).len() && #[trigger] range_sql_of(repo).subrange(
                i,
                i + 18,
            ) == "deleted_at IS NULL"@,
        exists|i: int|
            0 <= i && i + 18 <= sample_sql_of(repo).len() && #[trigger] sample_sql_of(
                repo,
            ).subrange(i, i + 18) == "deleted_at IS NULL"@,
        exists|i: int|
            0 <= i && i + 18 <= keys_sql_of(repo, n).len() && #[trigger] keys_sql_of(
                repo,
                n,
            ).subrange(i, i + 18) == "deleted_at IS NULL"@,
        repo == Repo::Node ==> table_of(repo) == "dht_nodes"@,
        repo == Repo::Peer ==> table_of(repo) == "peers"@,
        repo == Repo::Infohash ==> table_of(repo) == "infohashes"@,
        repo == Repo::Tracker ==> table_of(repo) == "trackers"@,
        repo == Repo::Node ==> key_sql_of(repo) == "(ip || ':' || port)"@,
        repo == Repo::Peer ==> key_sql_of(repo)
            == "(lower(hex(infohash)) || ':' || ip || ':' || port)"@,
        repo == Repo::Infohash ==> key_sql_of(repo) == "infohash"@,
        repo == Repo::Tracker ==> key_sql_of(repo) == "url"@,
{
    reveal_strlit("deleted_at IS NULL");
    reveal_strlit(" WHERE deleted_at IS NULL AND (?1 IS NULL OR ");
    reveal_strlit(" WHERE deleted_at IS NULL AND rowid >= ?1 ORDER BY rowid ASC LIMIT 1");
    reveal_strlit(" WHERE deleted_at IS NULL AND ");
    reveal_strlit("SELECT ");
    reveal_strlit(" FROM ");
    let d = "deleted_at IS NULL"@;
    let cols = crate::storage::repo_query::columns_of(repo);
    let a: int = 7int + cols.len() + 6 + table_of(repo).len() + 7;
    let b: int = 7int + key_sql_of(repo).len() + 6 + table_of(repo).len() + 7;
    assert(range_sql_of(repo).subrange(a, a + 18) =~= d);
    assert(sample_sql_of(repo).subrange(b, b + 18) =~= d);
    assert(keys_sql_of(repo, n).subrange(a, a + 18) =~= d);
}

} // verus!
