//! What looking up entries by their keys gives: which rows a plan asks for, what a table
//! answers, and that only the keys themselves matter.

use vstd::prelude::*;
use vstd::seq_lib::*;
use vstd::set_lib::*;
use vstd::utf8::*;

use crate::bytes::{bytes_lt_irreflexive, bytes_lt_transitive};
use crate::sorting::{pair_lt, pairs, pairs_strictly_ascend, strictly_ascend, texts};
use crate::storage::db::RepoRows;
use crate::storage::oplog::{Operation, SyncView};
use crate::storage::repo_query::{
    built_from, built_one, cut, entries_of, is_infohash, joined_keys, names_node, names_peer,
    node_named, peer_named, pieces, plans, plans_infohashes, plans_nodes, plans_peers,
    plans_trackers, repo_of, subject_of, urls_of, Built, EntryPlan, EntrySubject, PeerKey, Repo,
    SubjectView, INFOHASH_CHUNK, NODE_CHUNK, PEER_CHUNK, TRACKER_CHUNK,
};
use crate::text::lossy_text;

verus! {

/// What a row is found by: an address, with the bytes of the torrent in front of it for a
/// peer, and a port; or the bytes of a torrent or of the text of a tracker, and zero.
pub type RowKey = (Seq<u8>, i64);

/// A byte string as the key of a row.
pub open spec fn plain_keys(s: Seq<Seq<u8>>) -> Seq<RowKey> {
    s.map_values(|t: Seq<u8>| (t, 0i64))
}

/// Which rows a plan asks for, statement by statement.
pub open spec fn asked_in(plan: EntryPlan) -> Seq<Seq<RowKey>> {
    match plan {
        EntryPlan::Nodes(p) => p@.map_values(|c: Vec<(Vec<u8>, i64)>| pairs(c@)),
        EntryPlan::Peers(p) => p@.map_values(|c: Vec<PeerKey>| joined_keys(c@)),
        EntryPlan::Infohashes(p) => p@.map_values(|c: Vec<Vec<u8>>| plain_keys(texts(c@))),
        EntryPlan::Trackers(p) => p@.map_values(|c: Vec<Vec<u8>>| plain_keys(texts(c@))),
        EntryPlan::Nothing => Seq::empty(),
    }
}

/// Whether these are the keys, among those that are asked for, under which a table has rows,
/// each once.
pub open spec fn found_by(
    table: Map<RowKey, Option<SubjectView>>,
    asked: Seq<RowKey>,
    found: Seq<RowKey>,
) -> bool {
    &&& found.no_duplicates()
    &&& forall|k: RowKey| #[trigger]
        found.contains(k) <==> asked.contains(k) && table.dom().contains(k)
}

/// What the rows under some keys are made of.
pub open spec fn rows_at(
    table: Map<RowKey, Option<SubjectView>>,
    found: Seq<RowKey>,
) -> Seq<Option<SubjectView>> {
    found.map_values(|k: RowKey| table[k])
}

/// Whether a table answers a statement by these rows: each that is asked for and there, once,
/// in any order.
pub open spec fn answers(
    table: Map<RowKey, Option<SubjectView>>,
    asked: Seq<RowKey>,
    rows: Seq<Option<SubjectView>>,
) -> bool {
    exists|found: Seq<RowKey>| #[trigger]
        found_by(table, asked, found) && rows == rows_at(table, found)
}

/// Whether a table answers each statement.
pub open spec fn answers_all(
    table: Map<RowKey, Option<SubjectView>>,
    asked: Seq<Seq<RowKey>>,
    rows: Seq<Seq<Option<SubjectView>>>,
) -> bool {
    &&& rows.len() == asked.len()
    &&& forall|i: int| 0 <= i < rows.len() ==> answers(table, asked[i], #[trigger] rows[i])
}

/// The entry that puts contents under a key.
pub open spec fn put_entry(text: (Seq<u8>, Seq<u8>)) -> SyncView {
    SyncView { key: text.0, operation: Operation::Upsert, version: 0, payload: text.1 }
}

/// The entry of a row, in a list of its own: none where the row has none or `make` makes
/// nothing of it.
pub open spec fn entry_made(
    row: Option<SubjectView>,
    make: spec_fn(SubjectView) -> Option<(Seq<u8>, Seq<u8>)>,
) -> Seq<SyncView> {
    match row {
        Some(s) => match make(s) {
            Some(text) => seq![put_entry(text)],
            None => Seq::empty(),
        },
        None => Seq::empty(),
    }
}

/// Whether an entry says that something is to be put under its key, at no version.
pub open spec fn is_put(e: SyncView) -> bool {
    e.operation == Operation::Upsert && e.version == 0
}

/// The entries of rows, in order.
pub open spec fn entries_made(
    rows: Seq<Option<SubjectView>>,
    make: spec_fn(SubjectView) -> Option<(Seq<u8>, Seq<u8>)>,
) -> Seq<SyncView>
    decreases rows.len(),
{
    if rows.len() == 0 {
        Seq::empty()
    } else {
        entries_made(rows.drop_last(), make) + entry_made(rows.last(), make)
    }
}

/// The entries of the answers to all statements, one after the other.
pub open spec fn gathered(
    rows: Seq<Seq<Option<SubjectView>>>,
    make: spec_fn(SubjectView) -> Option<(Seq<u8>, Seq<u8>)>,
) -> Seq<SyncView>
    decreases rows.len(),
{
    if rows.len() == 0 {
        Seq::empty()
    } else {
        gathered(rows.drop_last(), make) + entries_made(rows.last(), make)
    }
}

proof fn lemma_pair_lt_strict(a: RowKey, b: RowKey)
    requires
        pair_lt(a, b),
    ensures
        !pair_lt(b, a),
        a != b,
{
    bytes_lt_irreflexive(a.0);
    if bytes_lt_both(a.0, b.0) {
        bytes_lt_transitive(a.0, b.0, a.0);
    }
}

spec fn bytes_lt_both(a: Seq<u8>, b: Seq<u8>) -> bool {
    crate::bytes::bytes_lt(a, b) && crate::bytes::bytes_lt(b, a)
}

proof fn lemma_ascending_distinct(s: Seq<RowKey>)
    requires
        pairs_strictly_ascend(s),
    ensures
        s.no_duplicates(),
{
    assert forall|i: int, j: int| 0 <= i < s.len() && 0 <= j < s.len() && i != j implies s[i]
        != s[j] by {
        if i < j {
            lemma_pair_lt_strict(s[i], s[j]);
        } else {
            lemma_pair_lt_strict(s[j], s[i]);
        }
    }
}

proof fn lemma_ascending_unique(a: Seq<RowKey>, b: Seq<RowKey>)
    requires
        pairs_strictly_ascend(a),
        pairs_strictly_ascend(b),
        forall|x: RowKey| #[trigger] a.contains(x) <==> b.contains(x),
    ensures
        a == b,
    decreases a.len(),
{
    if a.len() == 0 {
        if b.len() > 0 {
            assert(b.contains(b[0]));
            assert(a.contains(b[0]));
        }
        assert(a =~= b);
    } else {
        assert(a.contains(a.last()));
        let j = choose|j: int| 0 <= j < b.len() && b[j] == a.last();
        assert(b.contains(b.last()));
        assert(a.contains(b.last()));
        let i = choose|i: int| 0 <= i < a.len() && a[i] == b.last();
        if a.last() != b.last() {
            assert(pair_lt(b[j], b[b.len() - 1]));
            assert(pair_lt(a[i], a[a.len() - 1]));
            lemma_pair_lt_strict(a.last(), b.last());
        }
        lemma_ascending_distinct(a);
        lemma_ascending_distinct(b);
        let (c, d) = (a.drop_last(), b.drop_last());
        assert forall|x: RowKey| #[trigger] c.contains(x) <==> d.contains(x) by {
            lemma_in_front(a, x);
            lemma_in_front(b, x);
            assert(a.contains(x) <==> b.contains(x));
        }
        lemma_ascending_unique(c, d);
        assert(a =~= c.push(a.last()));
        assert(b =~= d.push(b.last()));
    }
}

proof fn lemma_in_front<A>(s: Seq<A>, x: A)
    requires
        s.len() > 0,
        s.no_duplicates(),
    ensures
        s.drop_last().contains(x) <==> s.contains(x) && x != s.last(),
{
    let t = s.drop_last();
    if t.contains(x) {
        let i = choose|i: int| 0 <= i < t.len() && t[i] == x;
        assert(s[i] == x);
    }
    if s.contains(x) && x != s.last() {
        let i = choose|i: int| 0 <= i < s.len() && s[i] == x;
        assert(t[i] == x);
    }
}

proof fn lemma_cut_mapped<A, B>(s: Seq<A>, n: nat, f: spec_fn(A) -> B)
    ensures
        cut(s.map_values(f), n) == cut(s, n).map_values(|c: Seq<A>| c.map_values(f)),
    decreases s.len(),
{
    let g = |c: Seq<A>| c.map_values(f);
    let m = s.map_values(f);
    if s.len() == 0 || n == 0 || s.len() <= n {
        assert(cut(m, n) =~= cut(s, n).map_values(g));
    } else {
        lemma_cut_mapped(s.skip(n as int), n, f);
        assert(m.skip(n as int) =~= s.skip(n as int).map_values(f));
        assert(m.take(n as int) =~= s.take(n as int).map_values(f));
        assert(cut(m, n) =~= cut(s, n).map_values(g));
    }
}

/// How many items pieces hold together.
spec fn total<A>(s: Seq<Seq<A>>) -> nat
    decreases s.len(),
{
    if s.len() == 0 {
        0
    } else {
        total(s.drop_last()) + s.last().len()
    }
}

proof fn lemma_total_joined<A>(a: Seq<Seq<A>>, b: Seq<Seq<A>>)
    ensures
        total(a + b) == total(a) + total(b),
    decreases b.len(),
{
    if b.len() == 0 {
        assert(a + b =~= a);
    } else {
        assert((a + b).drop_last() =~= a + b.drop_last());
        lemma_total_joined(a, b.drop_last());
    }
}

proof fn lemma_total_cut<A>(s: Seq<A>, n: nat)
    ensures
        total(cut(s, n)) == s.len(),
    decreases s.len(),
{
    if s.len() > 0 && (n == 0 || s.len() <= n) {
        let one = seq![s];
        assert(one.drop_last() =~= Seq::empty());
        assert(total(one.drop_last()) == 0);
        assert(one.last() == s);
    } else if s.len() > 0 {
        let head = seq![s.take(n as int)];
        lemma_total_cut(s.skip(n as int), n);
        assert(head.drop_last() =~= Seq::empty());
        assert(total(head.drop_last()) == 0);
        assert(head.last().len() == n);
        lemma_total_joined(head, cut(s.skip(n as int), n));
    }
}

proof fn lemma_entries_without(
    rows: Seq<Option<SubjectView>>,
    j: int,
    make: spec_fn(SubjectView) -> Option<(Seq<u8>, Seq<u8>)>,
)
    requires
        0 <= j < rows.len(),
    ensures
        entries_made(rows, make).to_multiset() == entries_made(
            rows.remove(j),
            make,
        ).to_multiset().add(entry_made(rows[j], make).to_multiset()),
    decreases rows.len(),
{
    let last = entry_made(rows.last(), make);
    let front = rows.drop_last();
    lemma_multiset_commutative(entries_made(front, make), last);
    if j == rows.len() - 1 {
        assert(rows.remove(j) =~= front);
    } else {
        let less = rows.remove(j);
        assert(less.drop_last() =~= front.remove(j));
        assert(less.last() == rows.last());
        lemma_entries_without(front, j, make);
        lemma_multiset_commutative(entries_made(front.remove(j), make), last);
        assert(front[j] == rows[j]);
        let (a, b, c) = (
            entries_made(front.remove(j), make).to_multiset(),
            entry_made(rows[j], make).to_multiset(),
            last.to_multiset(),
        );
        assert(a.add(b).add(c) =~= a.add(c).add(b));
    }
}

proof fn lemma_same_found(
    table: Map<RowKey, Option<SubjectView>>,
    a: Seq<RowKey>,
    b: Seq<RowKey>,
    make: spec_fn(SubjectView) -> Option<(Seq<u8>, Seq<u8>)>,
)
    requires
        a.no_duplicates(),
        b.no_duplicates(),
        forall|k: RowKey| #[trigger] a.contains(k) <==> b.contains(k),
    ensures
        entries_made(rows_at(table, a), make).to_multiset() == entries_made(
            rows_at(table, b),
            make,
        ).to_multiset(),
    decreases a.len(),
{
    if a.len() == 0 {
        if b.len() > 0 {
            assert(b.contains(b[0]));
            assert(a.contains(b[0]));
        }
        assert(a =~= b);
    } else {
        let x = a.last();
        assert(a.contains(x));
        let j = choose|j: int| 0 <= j < b.len() && b[j] == x;
        let c = a.drop_last();
        let d = b.remove(j);
        assert forall|k: RowKey| #[trigger] c.contains(k) <==> d.contains(k) by {
            lemma_in_front(a, k);
            lemma_in_rest(b, j, k);
            assert(a.contains(k) <==> b.contains(k));
        }
        assert forall|i: int, k: int| 0 <= i < d.len() && 0 <= k < d.len() && i != k implies d[i]
            != d[k] by {
            let p = if i < j {
                i
            } else {
                i + 1
            };
            let q = if k < j {
                k
            } else {
                k + 1
            };
            assert(d[i] == b[p] && d[k] == b[q]);
        }
        lemma_same_found(table, c, d, make);
        let (ra, rb) = (rows_at(table, a), rows_at(table, b));
        lemma_entries_without(ra, ra.len() - 1, make);
        lemma_entries_without(rb, j, make);
        assert(ra.remove(ra.len() - 1) =~= rows_at(table, c));
        assert(rb.remove(j) =~= rows_at(table, d));
        assert(ra[ra.len() - 1] == table[x] && rb[j] == table[x]);
    }
}

proof fn lemma_in_rest<A>(s: Seq<A>, j: int, x: A)
    requires
        0 <= j < s.len(),
        s.no_duplicates(),
    ensures
        s.remove(j).contains(x) <==> s.contains(x) && x != s[j],
{
    let t = s.remove(j);
    if t.contains(x) {
        let i = choose|i: int| 0 <= i < t.len() && t[i] == x;
        if i < j {
            assert(s[i] == x);
        } else {
            assert(s[i + 1] == x);
        }
    }
    if s.contains(x) && x != s[j] {
        let i = choose|i: int| 0 <= i < s.len() && s[i] == x;
        if i < j {
            assert(t[i] == x);
        } else {
            assert(t[i - 1] == x);
        }
    }
}

proof fn lemma_same_answers(
    table: Map<RowKey, Option<SubjectView>>,
    a: Seq<Seq<RowKey>>,
    b: Seq<Seq<RowKey>>,
    rows: Seq<Seq<Option<SubjectView>>>,
    rows2: Seq<Seq<Option<SubjectView>>>,
    make: spec_fn(SubjectView) -> Option<(Seq<u8>, Seq<u8>)>,
)
    requires
        answers_all(table, a, rows),
        answers_all(table, b, rows2),
        a.len() == b.len(),
        forall|i: int, k: RowKey|
            0 <= i < a.len() ==> (#[trigger] a[i].contains(k) <==> b[i].contains(k)),
    ensures
        gathered(rows, make).to_multiset() == gathered(rows2, make).to_multiset(),
    decreases rows.len(),
{
    if rows.len() > 0 {
        let n = rows.len() - 1;
        let (c, d) = (a.drop_last(), b.drop_last());
        let (r, r2) = (rows.drop_last(), rows2.drop_last());
        assert forall|i: int| 0 <= i < r.len() implies answers(table, c[i], #[trigger] r[i]) by {
            assert(rows[i] == r[i]);
        }
        assert forall|i: int| 0 <= i < r2.len() implies answers(table, d[i], #[trigger] r2[i]) by {
            assert(rows2[i] == r2[i]);
        }
        assert forall|i: int, k: RowKey| 0 <= i < c.len() implies (#[trigger] c[i].contains(k)
            <==> d[i].contains(k)) by {
            assert(a[i].contains(k) <==> b[i].contains(k));
        }
        lemma_same_answers(table, c, d, r, r2, make);
        assert(answers(table, a[n], rows[n]));
        assert(answers(table, b[n], rows2[n]));
        let f = choose|f: Seq<RowKey>| #[trigger]
            found_by(table, a[n], f) && rows[n] == rows_at(table, f);
        let f2 = choose|f: Seq<RowKey>| #[trigger]
            found_by(table, b[n], f) && rows2[n] == rows_at(table, f);
        assert forall|k: RowKey| #[trigger] f.contains(k) <==> f2.contains(k) by {
            assert(a[n].contains(k) <==> b[n].contains(k));
            assert(f2.contains(k) <==> b[n].contains(k) && table.dom().contains(k));
        }
        lemma_same_found(table, f, f2, make);
        lemma_multiset_commutative(gathered(r, make), entries_made(rows.last(), make));
        lemma_multiset_commutative(gathered(r2, make), entries_made(rows2.last(), make));
    } else {
        assert(rows2.len() == 0);
    }
}

proof fn lemma_answer_len(
    table: Map<RowKey, Option<SubjectView>>,
    asked: Seq<RowKey>,
    found: Seq<RowKey>,
)
    requires
        found_by(table, asked, found),
    ensures
        found.len() <= asked.len(),
{
    found.unique_seq_to_set();
    asked.lemma_cardinality_of_set();
    assert forall|k: RowKey| #[trigger] found.to_set().contains(k) implies asked.to_set().contains(
        k,
    ) by {
        assert(found.contains(k));
    }
    lemma_len_subset(found.to_set(), asked.to_set());
}

proof fn lemma_entries_len(
    rows: Seq<Option<SubjectView>>,
    make: spec_fn(SubjectView) -> Option<(Seq<u8>, Seq<u8>)>,
)
    ensures
        entries_made(rows, make).len() <= rows.len(),
        forall|i: int|
            0 <= i < entries_made(rows, make).len() ==> is_put(#[trigger] entries_made(rows, make)[i]),
    decreases rows.len(),
{
    if rows.len() > 0 {
        lemma_entries_len(rows.drop_last(), make);
        let front = entries_made(rows.drop_last(), make);
        let one = entry_made(rows.last(), make);
        assert forall|i: int| 0 <= i < entries_made(rows, make).len() implies is_put(
            #[trigger] entries_made(rows, make)[i],
        ) by {
            if i < front.len() {
                assert(is_put(front[i]));
            } else {
                assert(is_put(one[i - front.len()]));
            }
        }
    }
}

proof fn lemma_gathered(
    table: Map<RowKey, Option<SubjectView>>,
    asked: Seq<Seq<RowKey>>,
    rows: Seq<Seq<Option<SubjectView>>>,
    make: spec_fn(SubjectView) -> Option<(Seq<u8>, Seq<u8>)>,
)
    requires
        answers_all(table, asked, rows),
    ensures
        gathered(rows, make).len() <= total(asked),
        forall|i: int|
            0 <= i < gathered(rows, make).len() ==> is_put(#[trigger] gathered(rows, make)[i]),
    decreases rows.len(),
{
    if rows.len() > 0 {
        let n = rows.len() - 1;
        let r = rows.drop_last();
        assert forall|i: int| 0 <= i < r.len() implies answers(
            table,
            asked.drop_last()[i],
            #[trigger] r[i],
        ) by {
            assert(rows[i] == r[i]);
        }
        lemma_gathered(table, asked.drop_last(), r, make);
        assert(answers(table, asked[n], rows[n]));
        let f = choose|f: Seq<RowKey>| #[trigger]
            found_by(table, asked[n], f) && rows[n] == rows_at(table, f);
        lemma_answer_len(table, asked[n], f);
        lemma_entries_len(rows[n], make);
        let front = gathered(r, make);
        let more = entries_made(rows.last(), make);
        assert forall|i: int| 0 <= i < gathered(rows, make).len() implies is_put(
            #[trigger] gathered(rows, make)[i],
        ) by {
            if i < front.len() {
                assert(is_put(front[i]));
            } else {
                assert(is_put(more[i - front.len()]));
            }
        }
    }
}

/// The key of the row that a key names in a table, if any.
pub open spec fn named(repo: Repo, key: Seq<u8>) -> Option<RowKey> {
    match repo {
        Repo::Node => node_named(key),
        Repo::Peer => peer_named(key),
        Repo::Infohash => if key.len() == 20 {
            Some((key, 0i64))
        } else {
            None
        },
        Repo::Tracker => Some((encode_utf8(lossy_text(key)), 0i64)),
    }
}

/// Whether one of the keys names a row.
pub open spec fn one_names(repo: Repo, keys: Seq<Seq<u8>>, x: RowKey) -> bool {
    exists|i: int| 0 <= i < keys.len() && #[trigger] named(repo, keys[i]) == Some(x)
}

proof fn lemma_same_names(repo: Repo, a: Seq<Seq<u8>>, b: Seq<Seq<u8>>, x: RowKey)
    requires
        a.to_set() == b.to_set(),
        one_names(repo, a, x),
    ensures
        one_names(repo, b, x),
{
    let i = choose|i: int| 0 <= i < a.len() && #[trigger] named(repo, a[i]) == Some(x);
    assert(a.to_set().contains(a[i]));
    assert(b.contains(a[i]));
    let j = choose|j: int| 0 <= j < b.len() && b[j] == a[i];
    assert(named(repo, b[j]) == Some(x));
}

proof fn lemma_names_count(repo: Repo, keys: Seq<Seq<u8>>, s: Seq<RowKey>)
    requires
        s.no_duplicates(),
        forall|i: int| 0 <= i < s.len() ==> one_names(repo, keys, #[trigger] s[i]),
    ensures
        s.len() <= keys.to_set().len(),
{
    let name = |x: RowKey| choose|k: Seq<u8>| keys.contains(k) && named(repo, k) == Some(x);
    let by = s.map_values(name);
    assert forall|i: int| 0 <= i < s.len() implies keys.contains(#[trigger] by[i]) && named(
        repo,
        by[i],
    ) == Some(s[i]) by {
        assert(one_names(repo, keys, s[i]));
        let j = choose|j: int| 0 <= j < keys.len() && #[trigger] named(repo, keys[j]) == Some(s[i]);
        assert(keys.contains(keys[j]));
    }
    assert forall|i: int, j: int| 0 <= i < by.len() && 0 <= j < by.len() && i != j implies by[i]
        != by[j] by {
        assert(named(repo, by[i]) == Some(s[i]));
        assert(named(repo, by[j]) == Some(s[j]));
    }
    by.unique_seq_to_set();
    keys.lemma_cardinality_of_set();
    assert forall|k: Seq<u8>| #[trigger] by.to_set().contains(k) implies keys.to_set().contains(
        k,
    ) by {
        let i = choose|i: int| 0 <= i < by.len() && by[i] == k;
        assert(keys.contains(by[i]));
    }
    lemma_len_subset(by.to_set(), keys.to_set());
}

proof fn lemma_node_plan(keys: Seq<Seq<u8>>, plan: EntryPlan) -> (flat: Seq<RowKey>)
    requires
        plans(1, keys, plan),
    ensures
        asked_in(plan) == cut(flat, NODE_CHUNK as nat),
        pairs_strictly_ascend(flat),
        forall|x: RowKey| #[trigger] flat.contains(x) <==> one_names(Repo::Node, keys, x),
{
    let p = plan->Nodes_0@;
    assert(plans_nodes(keys, p));
    let raw = choose|raw: Seq<(Vec<u8>, i64)>|
        pieces(p) == #[trigger] cut(raw, NODE_CHUNK as nat) && pairs_strictly_ascend(pairs(raw))
            && forall|x: RowKey| #[trigger] pairs(raw).contains(x) <==> names_node(keys, x);
    let f = |e: (Vec<u8>, i64)| (e.0@, e.1);
    lemma_cut_mapped(raw, NODE_CHUNK as nat, f);
    assert(asked_in(plan) =~= cut(pairs(raw), NODE_CHUNK as nat)) by {
        assert forall|i: int| 0 <= i < p.len() implies asked_in(plan)[i] == pairs(pieces(p)[i]) by {
        }
        assert(asked_in(plan).len() == pieces(p).len());
    }
    assert forall|x: RowKey| #[trigger] pairs(raw).contains(x) <==> one_names(
        Repo::Node,
        keys,
        x,
    ) by {
        if names_node(keys, x) {
            let i = choose|i: int| 0 <= i < keys.len() && #[trigger] node_named(keys[i]) == Some(x);
            assert(named(Repo::Node, keys[i]) == Some(x));
        }
        if one_names(Repo::Node, keys, x) {
            let i = choose|i: int|
                0 <= i < keys.len() && #[trigger] named(Repo::Node, keys[i]) == Some(x);
            assert(node_named(keys[i]) == Some(x));
        }
    }
    pairs(raw)
}

proof fn lemma_peer_plan(keys: Seq<Seq<u8>>, plan: EntryPlan) -> (flat: Seq<RowKey>)
    requires
        plans(2, keys, plan),
    ensures
        asked_in(plan) == cut(flat, PEER_CHUNK as nat),
        pairs_strictly_ascend(flat),
        forall|x: RowKey| #[trigger] flat.contains(x) <==> one_names(Repo::Peer, keys, x),
{
    let p = plan->Peers_0@;
    assert(plans_peers(keys, p));
    let raw = choose|raw: Seq<PeerKey>|
        pieces(p) == #[trigger] cut(raw, PEER_CHUNK as nat) && pairs_strictly_ascend(
            joined_keys(raw),
        ) && (forall|i: int| 0 <= i < raw.len() ==> (#[trigger] raw[i]).0@.len() == 20) && forall|
            x: RowKey,
        | #[trigger] joined_keys(raw).contains(x) <==> names_peer(keys, x);
    let f = |e: PeerKey| (e.0@ + e.1@, e.2);
    lemma_cut_mapped(raw, PEER_CHUNK as nat, f);
    assert(asked_in(plan) =~= cut(joined_keys(raw), PEER_CHUNK as nat)) by {
        assert forall|i: int| 0 <= i < p.len() implies asked_in(plan)[i] == joined_keys(
            pieces(p)[i],
        ) by {}
        assert(asked_in(plan).len() == pieces(p).len());
    }
    assert forall|x: RowKey| #[trigger] joined_keys(raw).contains(x) <==> one_names(
        Repo::Peer,
        keys,
        x,
    ) by {
        if names_peer(keys, x) {
            let i = choose|i: int| 0 <= i < keys.len() && #[trigger] peer_named(keys[i]) == Some(x);
            assert(named(Repo::Peer, keys[i]) == Some(x));
        }
        if one_names(Repo::Peer, keys, x) {
            let i = choose|i: int|
                0 <= i < keys.len() && #[trigger] named(Repo::Peer, keys[i]) == Some(x);
            assert(peer_named(keys[i]) == Some(x));
        }
    }
    joined_keys(raw)
}

proof fn lemma_plain_cut(p: Seq<Vec<Vec<u8>>>, raw: Seq<Vec<u8>>, n: nat)
    requires
        pieces(p) == cut(raw, n),
    ensures
        p.map_values(|c: Vec<Vec<u8>>| plain_keys(texts(c@))) == cut(plain_keys(texts(raw)), n),
{
    let f = |e: Vec<u8>| e@;
    let g = |t: Seq<u8>| (t, 0i64);
    let asked = p.map_values(|c: Vec<Vec<u8>>| plain_keys(texts(c@)));
    lemma_cut_mapped(raw, n, f);
    assert(texts(raw) =~= raw.map_values(f));
    lemma_cut_mapped(texts(raw), n, g);
    assert(asked =~= cut(plain_keys(texts(raw)), n)) by {
        assert forall|i: int| 0 <= i < p.len() implies asked[i] == cut(
            plain_keys(texts(raw)),
            n,
        )[i] by {
            assert(asked[i] == plain_keys(texts(pieces(p)[i])));
            assert(texts(pieces(p)[i]) =~= pieces(p)[i].map_values(f));
        }
        assert(asked.len() == pieces(p).len());
    }
}

proof fn lemma_plain_contains(s: Seq<Seq<u8>>, x: RowKey)
    ensures
        plain_keys(s).contains(x) <==> x.1 == 0 && s.contains(x.0),
{
    let t = plain_keys(s);
    if t.contains(x) {
        let i = choose|i: int| 0 <= i < t.len() && t[i] == x;
        assert(s[i] == x.0);
    }
    if x.1 == 0 && s.contains(x.0) {
        let i = choose|i: int| 0 <= i < s.len() && s[i] == x.0;
        assert(t[i] == x);
    }
}

proof fn lemma_tracker_plan(keys: Seq<Seq<u8>>, plan: EntryPlan) -> (flat: Seq<RowKey>)
    requires
        plans(4, keys, plan),
    ensures
        asked_in(plan) == cut(flat, TRACKER_CHUNK as nat),
        pairs_strictly_ascend(flat),
        forall|x: RowKey| #[trigger] flat.contains(x) <==> one_names(Repo::Tracker, keys, x),
{
    let p = plan->Trackers_0@;
    assert(plans_trackers(keys, p));
    let raw = choose|raw: Seq<Vec<u8>>|
        pieces(p) == #[trigger] cut(raw, TRACKER_CHUNK as nat) && strictly_ascend(texts(raw))
            && forall|x: Seq<u8>| #[trigger] texts(raw).contains(x) <==> urls_of(keys).contains(x);
    let flat = plain_keys(texts(raw));
    lemma_plain_cut(p, raw, TRACKER_CHUNK as nat);
    assert forall|i: int, j: int| 0 <= i < j < flat.len() implies pair_lt(
        #[trigger] flat[i],
        #[trigger] flat[j],
    ) by {
        assert(crate::bytes::bytes_lt(texts(raw)[i], texts(raw)[j]));
    }
    assert forall|x: RowKey| #[trigger] flat.contains(x) <==> one_names(Repo::Tracker, keys, x) by {
        lemma_plain_contains(texts(raw), x);
        assert(texts(raw).contains(x.0) <==> urls_of(keys).contains(x.0));
        if x.1 == 0 && urls_of(keys).contains(x.0) {
            let i = choose|i: int| 0 <= i < urls_of(keys).len() && urls_of(keys)[i] == x.0;
            assert(named(Repo::Tracker, keys[i]) == Some(x));
        }
        if one_names(Repo::Tracker, keys, x) {
            let i = choose|i: int|
                0 <= i < keys.len() && #[trigger] named(Repo::Tracker, keys[i]) == Some(x);
            assert(urls_of(keys)[i] == x.0);
        }
    }
    flat
}

proof fn lemma_infohash_plan(keys: Seq<Seq<u8>>, plan: EntryPlan) -> (flat: Seq<RowKey>)
    requires
        plans(3, keys, plan),
    ensures
        asked_in(plan) == cut(flat, INFOHASH_CHUNK as nat),
        flat.len() <= keys.len(),
        forall|x: RowKey| #[trigger] flat.contains(x) <==> one_names(Repo::Infohash, keys, x),
{
    let p = plan->Infohashes_0@;
    assert(plans_infohashes(keys, p));
    let raw = choose|raw: Seq<Vec<u8>>|
        pieces(p) == #[trigger] cut(raw, INFOHASH_CHUNK as nat) && texts(raw) == keys.filter(
            is_infohash(),
        );
    let flat = plain_keys(texts(raw));
    lemma_plain_cut(p, raw, INFOHASH_CHUNK as nat);
    keys.lemma_filter_len(is_infohash());
    assert forall|x: RowKey| #[trigger] flat.contains(x) <==> one_names(
        Repo::Infohash,
        keys,
        x,
    ) by {
        lemma_plain_contains(texts(raw), x);
        if flat.contains(x) {
            let t = keys.filter(is_infohash());
            let i = choose|i: int| 0 <= i < t.len() && t[i] == x.0;
            keys.lemma_filter_pred(is_infohash(), i);
            keys.lemma_filter_contains_rev(is_infohash(), t[i]);
            let j = choose|j: int| 0 <= j < keys.len() && keys[j] == x.0;
            assert(named(Repo::Infohash, keys[j]) == Some(x));
        }
        if one_names(Repo::Infohash, keys, x) {
            let i = choose|i: int|
                0 <= i < keys.len() && #[trigger] named(Repo::Infohash, keys[i]) == Some(x);
            keys.lemma_filter_contains(is_infohash(), i);
        }
    }
    flat
}

proof fn lemma_sorted_plans(
    repo: Repo,
    keys: Seq<Seq<u8>>,
    keys2: Seq<Seq<u8>>,
    flat: Seq<RowKey>,
    flat2: Seq<RowKey>,
    n: nat,
)
    requires
        keys.to_set() == keys2.to_set(),
        pairs_strictly_ascend(flat),
        pairs_strictly_ascend(flat2),
        forall|x: RowKey| #[trigger] flat.contains(x) <==> one_names(repo, keys, x),
        forall|x: RowKey| #[trigger] flat2.contains(x) <==> one_names(repo, keys2, x),
    ensures
        flat == flat2,
        total(cut(flat, n)) <= keys.to_set().len(),
{
    assert forall|x: RowKey| #[trigger] flat.contains(x) <==> flat2.contains(x) by {
        if one_names(repo, keys, x) {
            lemma_same_names(repo, keys, keys2, x);
        }
        if one_names(repo, keys2, x) {
            lemma_same_names(repo, keys2, keys, x);
        }
        assert(flat2.contains(x) <==> one_names(repo, keys2, x));
    }
    lemma_ascending_unique(flat, flat2);
    lemma_ascending_distinct(flat);
    assert forall|i: int| 0 <= i < flat.len() implies one_names(repo, keys, #[trigger] flat[i]) by {
        assert(flat.contains(flat[i]));
    }
    lemma_names_count(repo, keys, flat);
    lemma_total_cut(flat, n);
}

/// Only the keys themselves matter for what is looked up: lists with the same keys, in
/// whatever order and however often, give the same entries, each as often. There is at most
/// one for each key, and each says that something is to be put there, at no version. Torrents
/// are asked for as their keys come, so of these a list may hold no more than are asked for at
/// once.
pub proof fn same_keys_give_the_same_entries(
    repo: u8,
    keys: Seq<Seq<u8>>,
    keys2: Seq<Seq<u8>>,
    plan: EntryPlan,
    plan2: EntryPlan,
    table: Map<RowKey, Option<SubjectView>>,
    rows: Seq<Seq<Option<SubjectView>>>,
    rows2: Seq<Seq<Option<SubjectView>>>,
    make: spec_fn(SubjectView) -> Option<(Seq<u8>, Seq<u8>)>,
)
    requires
        keys.to_set() == keys2.to_set(),
        repo_of(repo) == Some(Repo::Infohash) ==> keys.len() <= INFOHASH_CHUNK && keys2.len()
            <= INFOHASH_CHUNK,
        plans(repo, keys, plan),
        plans(repo, keys2, plan2),
        answers_all(table, asked_in(plan), rows),
        answers_all(table, asked_in(plan2), rows2),
    ensures
        gathered(rows, make).to_multiset() == gathered(rows2, make).to_multiset(),
        gathered(rows, make).len() <= keys.to_set().len(),
        forall|i: int|
            0 <= i < gathered(rows, make).len() ==> is_put(#[trigger] gathered(rows, make)[i]),
{
    let (a, b) = (asked_in(plan), asked_in(plan2));
    lemma_gathered(table, a, rows, make);
    match repo_of(repo) {
        Some(Repo::Node) => {
            let f = lemma_node_plan(keys, plan);
            let g = lemma_node_plan(keys2, plan2);
            lemma_sorted_plans(Repo::Node, keys, keys2, f, g, NODE_CHUNK as nat);
            lemma_same_answers(table, a, b, rows, rows2, make);
        },
        Some(Repo::Peer) => {
            let f = lemma_peer_plan(keys, plan);
            let g = lemma_peer_plan(keys2, plan2);
            lemma_sorted_plans(Repo::Peer, keys, keys2, f, g, PEER_CHUNK as nat);
            lemma_same_answers(table, a, b, rows, rows2, make);
        },
        Some(Repo::Tracker) => {
            let f = lemma_tracker_plan(keys, plan);
            let g = lemma_tracker_plan(keys2, plan2);
            lemma_sorted_plans(Repo::Tracker, keys, keys2, f, g, TRACKER_CHUNK as nat);
            lemma_same_answers(table, a, b, rows, rows2, make);
        },
        Some(Repo::Infohash) => {
            let f = lemma_infohash_plan(keys, plan);
            let g = lemma_infohash_plan(keys2, plan2);
            assert forall|x: RowKey| #[trigger] f.contains(x) <==> g.contains(x) by {
                if one_names(Repo::Infohash, keys, x) {
                    lemma_same_names(Repo::Infohash, keys, keys2, x);
                }
                if one_names(Repo::Infohash, keys2, x) {
                    lemma_same_names(Repo::Infohash, keys2, keys, x);
                }
                assert(g.contains(x) <==> one_names(Repo::Infohash, keys2, x));
            }
            if f.len() > 0 {
                assert(f.contains(f[0]));
                assert(g.contains(f[0]));
                assert(a =~= seq![f]);
                assert(b =~= seq![g]);
                lemma_one_answer(keys, f, table, rows, make);
            } else if g.len() > 0 {
                assert(g.contains(g[0]));
                assert(f.contains(g[0]));
            }
            lemma_same_answers(table, a, b, rows, rows2, make);
        },
        None => {
            lemma_same_answers(table, a, b, rows, rows2, make);
        },
    }
}

proof fn lemma_one_answer(
    keys: Seq<Seq<u8>>,
    asked: Seq<RowKey>,
    table: Map<RowKey, Option<SubjectView>>,
    rows: Seq<Seq<Option<SubjectView>>>,
    make: spec_fn(SubjectView) -> Option<(Seq<u8>, Seq<u8>)>,
)
    requires
        answers_all(table, seq![asked], rows),
        forall|x: RowKey| #[trigger] asked.contains(x) <==> one_names(Repo::Infohash, keys, x),
    ensures
        gathered(rows, make).len() <= keys.to_set().len(),
{
    assert(answers(table, seq![asked][0], rows[0]));
    let found = choose|found: Seq<RowKey>| #[trigger]
        found_by(table, asked, found) && rows[0] == rows_at(table, found);
    assert forall|i: int| 0 <= i < found.len() implies one_names(
        Repo::Infohash,
        keys,
        #[trigger] found[i],
    ) by {
        assert(found.contains(found[i]));
        assert(asked.contains(found[i]));
    }
    lemma_names_count(Repo::Infohash, keys, found);
    lemma_entries_len(rows[0], make);
    assert(rows.drop_last() =~= Seq::empty());
    assert(gathered(rows.drop_last(), make).len() == 0);
}

/// Every row of which something is made gives its entry: where that holds of all rows, there
/// are as many entries as rows, in the order of the rows.
pub proof fn each_row_gives_its_entry(
    rows: Seq<Option<SubjectView>>,
    make: spec_fn(SubjectView) -> Option<(Seq<u8>, Seq<u8>)>,
)
    requires
        forall|i: int|
            0 <= i < rows.len() ==> (#[trigger] rows[i]) is Some && make(rows[i]->0) is Some,
    ensures
        entries_made(rows, make).len() == rows.len(),
        forall|i: int|
            0 <= i < rows.len() ==> #[trigger] entries_made(rows, make)[i] == put_entry(
                make(rows[i]->0)->0,
            ),
    decreases rows.len(),
{
    if rows.len() > 0 {
        let front = rows.drop_last();
        assert forall|i: int| 0 <= i < front.len() implies (#[trigger] front[i]) is Some && make(
            front[i]->0,
        ) is Some by {
            assert(rows[i] == front[i]);
        }
        each_row_gives_its_entry(front, make);
        let n = rows.len() - 1;
        assert(rows[n] is Some && make(rows[n]->0) is Some);
        assert forall|i: int| 0 <= i < rows.len() implies #[trigger] entries_made(rows, make)[i]
            == put_entry(make(rows[i]->0)->0) by {
            if i < n {
                assert(entries_made(rows, make)[i] == entries_made(front, make)[i]);
                assert(front[i] == rows[i]);
            }
        }
    }
}

/// What the rows of an answer are made of.
pub open spec fn subjects(rows: RepoRows) -> Seq<Option<SubjectView>> {
    Seq::new(rows.spec_len(), |i: int| subject_of(rows, i))
}

/// The key and the contents of what was built.
pub open spec fn built_text(b: Option<Built>) -> Option<(Seq<u8>, Seq<u8>)> {
    match b {
        Some(b) => Some((b.0@, b.1@)),
        None => None,
    }
}

/// Where what is built from a row depends on what the row is made of alone, the entries of an
/// answer are those that are made of its rows.
pub proof fn built_entries_are_made<F: Fn(EntrySubject) -> Option<Built>>(
    rows: RepoRows,
    build: F,
    built: Seq<Option<Built>>,
    make: spec_fn(SubjectView) -> Option<(Seq<u8>, Seq<u8>)>,
)
    requires
        built_from(rows, build, built),
        forall|s: EntrySubject, b: Option<Built>| #[trigger]
            call_ensures(build, (s,), b) ==> built_text(b) == make(s@),
    ensures
        entries_of(built) == entries_made(subjects(rows), make),
{
    assert forall|i: int| 0 <= i < built.len() implies matches_row(
        subjects(rows)[i],
        #[trigger] built[i],
        make,
    ) by {
        assert(built_one(rows, build, i, built[i]));
        match subject_of(rows, i) {
            Some(v) => {
                let s = choose|s: EntrySubject|
                    s@ == v && #[trigger] call_ensures(build, (s,), built[i]);
                assert(built_text(built[i]) == make(s@));
            },
            None => {},
        }
    }
    lemma_entries_match(subjects(rows), built, make);
}

spec fn matches_row(
    row: Option<SubjectView>,
    b: Option<Built>,
    make: spec_fn(SubjectView) -> Option<(Seq<u8>, Seq<u8>)>,
) -> bool {
    match row {
        Some(v) => built_text(b) == make(v),
        None => b is None,
    }
}

proof fn lemma_entries_match(
    rows: Seq<Option<SubjectView>>,
    built: Seq<Option<Built>>,
    make: spec_fn(SubjectView) -> Option<(Seq<u8>, Seq<u8>)>,
)
    requires
        rows.len() == built.len(),
        forall|i: int| 0 <= i < built.len() ==> matches_row(rows[i], #[trigger] built[i], make),
    ensures
        entries_of(built) == entries_made(rows, make),
    decreases rows.len(),
{
    if rows.len() > 0 {
        let n = rows.len() - 1;
        assert forall|i: int| 0 <= i < n implies matches_row(
            rows.drop_last()[i],
            #[trigger] built.drop_last()[i],
            make,
        ) by {
            assert(matches_row(rows[i], built[i], make));
        }
        lemma_entries_match(rows.drop_last(), built.drop_last(), make);
        assert(matches_row(rows[n], built[n], make));
        assert(entries_of(built) =~= entries_made(rows, make));
    }
}

} // verus!
