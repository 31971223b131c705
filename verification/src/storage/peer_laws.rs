//! What holds of the peers that are known.

use vstd::prelude::*;

use crate::storage::peer_repo::{
    history_full, history_of, links, noted_only, past_peer, peer_of, peers_with, probed, taken_note,
    NewPeer, PeerHistoryEntry, PeerRow, PeerTable,
};
use crate::storage::columns::{named_addrs, Host};
use crate::types::{fresh_peer, Infohash, PeerAddr, PeerInfo, PeerSource};

verus! {

/// Who is heard of again was last active when the news says, from where the news came; the score
/// and what was counted stay, and so does the identifier unless the news has another.
pub proof fn news_of_a_peer(t: PeerTable, p: PeerInfo, x: PeerAddr)
    ensures
        t.noted(p).global.contains_key(p.addr),
        !t.global.contains_key(p.addr) ==> t.noted(p).global[p.addr] == p,
        t.global.contains_key(p.addr) ==> ({
            let (was, is) = (t.global[p.addr], t.noted(p).global[p.addr]);
            &&& is.last_active == p.last_active
            &&& is.source == p.source
            &&& is.priority_score == was.priority_score
            &&& is.connection_attempts == was.connection_attempts
            &&& is.connection_successes == was.connection_successes
            &&& is.first_seen == was.first_seen
            &&& is.addr == was.addr
            &&& p.peer_id is Some ==> is.peer_id == p.peer_id
            &&& p.peer_id is None ==> is.peer_id == was.peer_id
        }),
        x != p.addr ==> (t.noted(p).global.contains_key(x) <==> t.global.contains_key(x)),
        x != p.addr && t.global.contains_key(x) ==> t.noted(p).global[x] == t.global[x],
{
}

/// Linking a peer with a torrent links these two and no others.
pub proof fn one_link_is_made(
    t: PeerTable,
    ih: Infohash,
    a: PeerAddr,
    other: Infohash,
    x: PeerAddr,
)
    ensures
        t.joined(ih, a).linked(ih, a),
        other != ih || x != a ==> (t.joined(ih, a).linked(other, x) <==> t.linked(other, x)),
        t.joined(ih, a).global == t.global,
        links(t.joined(ih, a)).contains((other, x)) <==> links(t).contains((other, x)) || (other
            == ih && x == a),
{
}

/// Parting a peer from a torrent parts these two and no others, and the peer is forgotten where
/// it has no other torrent.
pub proof fn one_link_is_cut(t: PeerTable, ih: Infohash, a: PeerAddr, other: Infohash, x: PeerAddr)
    requires
        t.wf(),
        t.linked(ih, a),
    ensures
        !t.parted(ih, a).linked(ih, a),
        other != ih || x != a ==> (t.parted(ih, a).linked(other, x) <==> t.linked(other, x)),
        other != ih && t.linked(other, a) ==> t.parted(ih, a).global == t.global,
        (forall|o: Infohash| o != ih ==> !t.linked(o, a)) ==> !t.parted(
            ih,
            a,
        ).global.contains_key(a),
        x != a && t.global.contains_key(x) ==> t.parted(ih, a).global.contains_key(x)
            && t.parted(ih, a).global[x] == t.global[x],
{
    use_links(t, ih, a);
    let rest = crate::storage::peer_repo::set_at(t.refs, a).remove(ih);
    if other != ih && t.linked(other, a) {
        assert(crate::storage::peer_repo::set_at(t.refs, a).contains(other));
        assert(rest.contains(other));
    }
    if forall|o: Infohash| o != ih ==> !t.linked(o, a) {
        assert forall|o: Infohash| !rest.contains(o) by {
            if rest.contains(o) {
                assert(crate::storage::peer_repo::set_at(t.refs, a).contains(o));
                assert(t.linked(o, a));
            }
        }
        assert(rest =~= Set::empty());
    }
}

proof fn use_links(t: PeerTable, ih: Infohash, a: PeerAddr)
    requires
        t.wf(),
        t.linked(ih, a),
    ensures
        t.refs.contains_key(a),
        crate::storage::peer_repo::set_at(t.refs, a).contains(ih),
{
    assert(crate::storage::peer_repo::set_at(t.by_infohash, ih).contains(a));
}

/// A torrent's peers are written to the history, one record for each, behind what is there; it
/// is handed over and started anew once a hundred are in it.
pub proof fn the_history_grows(
    t: PeerTable,
    ih: Infohash,
    peers: Seq<PeerInfo>,
    now: i64,
    i: int,
)
    ensures
        history_of(peers_with(ih, peers), now).len() == peers.len(),
        0 <= i < peers.len() ==> ({
            let h = history_of(peers_with(ih, peers), now)[i];
            h.infohash == ih && h.addr == peers[i].addr && h.source == peers[i].source && h.score
                == peers[i].priority_score && h.discovered_at == now
        }),
        history_full(t, peers_with(ih, peers), now) <==> peers.len() > 0 && t.history.len()
            + peers.len() >= 100,
        history_full(t, peers_with(ih, peers), now) ==> taken_note(
            t,
            peers_with(ih, peers),
            now,
        ).history.len() == 0,
        !history_full(t, peers_with(ih, peers), now) ==> taken_note(
            t,
            peers_with(ih, peers),
            now,
        ).history.len() == t.history.len() + peers.len(),
{
}

/// A peer that is tried was tried once more, and reached once more where it answered, which is
/// then the last time that it was active; nobody else is touched, and nobody becomes known.
pub proof fn tries_are_counted(t: PeerTable, a: PeerAddr, ok: bool, now: u64, x: PeerAddr)
    ensures
        t.global.contains_key(a) && t.global[a].connection_attempts < u32::MAX
            && t.global[a].connection_successes < u32::MAX ==> ({
            let (was, is) = (t.global[a], probed(t, a, ok, now).global[a]);
            &&& is.connection_attempts == was.connection_attempts + 1
            &&& ok ==> is.connection_successes == was.connection_successes + 1 && is.last_active
                == now
            &&& !ok ==> is.connection_successes == was.connection_successes && is.last_active
                == was.last_active
            &&& is.priority_score == was.priority_score && is.source == was.source && is.addr
                == was.addr
        }),
        probed(t, a, ok, now).global.contains_key(x) <==> t.global.contains_key(x),
        x != a && t.global.contains_key(x) ==> probed(t, a, ok, now).global[x] == t.global[x],
        probed(t, a, ok, now).by_infohash == t.by_infohash,
{
}

/// A score that is set is the score of that peer and of no other, and is to be saved.
pub proof fn a_set_score_is_noted(t: PeerTable, a: PeerAddr, score: i64, x: PeerAddr)
    ensures
        t.global.contains_key(a) ==> t.scored((a, score)).global[a].priority_score == score
            && t.scored((a, score)).dirty.contains(a) && (PeerInfo {
            priority_score: t.global[a].priority_score,
            ..t.scored((a, score)).global[a]
        }) == t.global[a],
        t.scored((a, score)).global.contains_key(x) <==> t.global.contains_key(x),
        x != a && t.global.contains_key(x) ==> t.scored((a, score)).global[x] == t.global[x],
        !t.global.contains_key(a) ==> t.scored((a, score)) == t,
{
}

/// A peer is new for a torrent exactly where the two were not linked, and is told of as it was
/// found.
pub proof fn only_the_unlinked_are_new(
    t: PeerTable,
    items: Seq<(Infohash, PeerInfo)>,
    ih: Infohash,
    p: PeerInfo,
)
    ensures
        t.newcomers(Seq::empty()).len() == 0,
        t.linked(ih, p.addr) || (exists|i: int|
            0 <= i < items.len() && (#[trigger] items[i]).0 == ih && items[i].1.addr == p.addr)
            ==> t.newcomers(items.push((ih, p))) == t.newcomers(items),
        !t.linked(ih, p.addr) && (forall|i: int|
            0 <= i < items.len() ==> (#[trigger] items[i]).0 != ih || items[i].1.addr != p.addr)
            ==> t.newcomers(items.push((ih, p))) == t.newcomers(items).push(
            NewPeer { infohash: ih, addr: p.addr, first_seen: p.first_seen, source: p.source },
        ),
{
    assert(items.push((ih, p)).drop_last() =~= items);
    lemma_linked_all(t, items, ih, p.addr);
}

proof fn lemma_linked_all(t: PeerTable, items: Seq<(Infohash, PeerInfo)>, ih: Infohash, a: PeerAddr)
    ensures
        t.noted_all(items).linked(ih, a) <==> t.linked(ih, a) || exists|i: int|
            0 <= i < items.len() && (#[trigger] items[i]).0 == ih && items[i].1.addr == a,
    decreases items.len(),
{
    if items.len() > 0 {
        let less = items.drop_last();
        lemma_linked_all(t, less, ih, a);
        let (o, p) = items.last();
        one_link_is_made(t.noted_all(less).noted(p), o, p.addr, ih, a);
        assert(t.noted_all(less).noted(p).linked(ih, a) == t.noted_all(less).linked(ih, a));
        if exists|i: int|
            0 <= i < items.len() && (#[trigger] items[i]).0 == ih && items[i].1.addr == a {
            let i = choose|i: int|
                0 <= i < items.len() && (#[trigger] items[i]).0 == ih && items[i].1.addr == a;
            if i < less.len() {
                assert(less[i].0 == ih);
            }
        }
        if exists|i: int| 0 <= i < less.len() && (#[trigger] less[i]).0 == ih && less[i].1.addr == a {
            let i = choose|i: int|
                0 <= i < less.len() && (#[trigger] less[i]).0 == ih && less[i].1.addr == a;
            assert(items[i].0 == ih);
        }
        if o == ih && p.addr == a {
            assert(items[items.len() - 1].0 == ih);
        }
    }
}

/// A saved peer that is read is known with what was saved of it and is linked with its torrent.
pub proof fn a_read_peer_is_linked(t: PeerTable, rows: Seq<PeerRow>, row: PeerRow, now: u64)
    ensures
        t.loaded_all(Seq::empty(), now) == t,
        t.loaded_all(rows.push(row), now).global[row.addr] == peer_of(row, now),
        t.loaded_all(rows.push(row), now).global.contains_key(row.addr),
        t.loaded_all(rows.push(row), now).linked(row.infohash, row.addr),
        peer_of(row, now).addr == row.addr && peer_of(row, now).source == row.source,
        peer_of(row, now).priority_score == row.score,
        row.last_active > 0 ==> peer_of(row, now).last_active == row.last_active,
        row.last_active <= 0 ==> peer_of(row, now).last_active == now,
{
    assert(rows.push(row).drop_last() =~= rows);
}

/// A peer of the history has the score that it had, and was found now.
pub proof fn the_past_is_found_again(e: PeerHistoryEntry, now: u64)
    ensures
        past_peer(e, now).addr == e.addr,
        past_peer(e, now).source == e.source,
        past_peer(e, now).priority_score == e.score,
        past_peer(e, now).first_seen == now && past_peer(e, now).last_active == now,
        past_peer(e, now).connection_attempts == 0 && past_peer(e, now).connection_successes == 0,
{
}

/// Peers that are heard of without a torrent are known and linked with none; scores are set one
/// after the other.
pub proof fn hearing_links_nobody(
    t: PeerTable,
    peers: Seq<PeerInfo>,
    p: PeerInfo,
    scores: Seq<(PeerAddr, i64)>,
    score: (PeerAddr, i64),
)
    ensures
        noted_only(t, Seq::empty()) == t,
        noted_only(t, peers.push(p)) == noted_only(t, peers).noted(p),
        noted_only(t, peers).by_infohash == t.by_infohash,
        noted_only(t, peers).refs == t.refs,
        t.scored_all(Seq::empty()) == t,
        t.scored_all(scores.push(score)) == t.scored_all(scores).scored(score),
    decreases peers.len(),
{
    assert(peers.push(p).drop_last() =~= peers);
    assert(scores.push(score).drop_last() =~= scores);
    if peers.len() > 0 {
        hearing_links_nobody(t, peers.drop_last(), p, scores, score);
    }
}

/// Rows of the history that name a host give its address with the port, in order, and others
/// give none.
pub proof fn hosts_become_addresses(
    rows: Seq<(Option<Host>, i64)>,
    v4: u32,
    v6: u128,
    port: i64,
)
    requires
        0 <= port <= 65535,
    ensures
        named_addrs(Seq::empty()).len() == 0,
        named_addrs(rows.push((Some(Host::V4(v4)), port))) == named_addrs(rows).push(
            PeerAddr::V4 { ip: v4, port: port as u16 },
        ),
        named_addrs(rows.push((Some(Host::V6(v6)), port))) == named_addrs(rows).push(
            PeerAddr::V6 { ip: v6, port: port as u16 },
        ),
        named_addrs(rows.push((None, port))) == named_addrs(rows),
{
    assert(rows.push((Some(Host::V4(v4)), port)).drop_last() =~= rows);
    assert(rows.push((Some(Host::V6(v6)), port)).drop_last() =~= rows);
    assert(rows.push((None::<Host>, port)).drop_last() =~= rows);
}

/// A peer of which only the address is known has no score and was never tried; an address has
/// the port that it names.
pub proof fn new_peers_start_with_nothing(
    addr: PeerAddr,
    source: PeerSource,
    now: u64,
    ip: u32,
    ip6: u128,
    port: u16,
)
    ensures
        fresh_peer(addr, source, now).addr == addr,
        fresh_peer(addr, source, now).source == source,
        fresh_peer(addr, source, now).priority_score == 0,
        fresh_peer(addr, source, now).connection_attempts == 0,
        fresh_peer(addr, source, now).connection_successes == 0,
        fresh_peer(addr, source, now).first_seen == now,
        fresh_peer(addr, source, now).last_active == now,
        fresh_peer(addr, source, now).peer_id is None,
        (PeerAddr::V4 { ip, port }).spec_port() == port,
        (PeerAddr::V6 { ip: ip6, port }).spec_port() == port,
{
}

} // verus!
