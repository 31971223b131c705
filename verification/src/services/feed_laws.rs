//! What holds of reading feeds.

use vstd::prelude::*;

use crate::services::subscription_service::{marker, next_marker, scan};
use crate::text::{ascii, is_hex, occurs_at, unhex};

verus! {

proof fn lemma_next_is_a_marker(body: Seq<u8>, from: int)
    requires
        0 <= from,
    ensures
        ({
            let at = next_marker(body, from);
            &&& at == -1 || (from <= at && at + 12 <= body.len() && occurs_at(body, marker(), at))
            &&& forall|j: int|
                #![trigger occurs_at(body, marker(), j)]
                from <= j && (at == -1 || j < at) ==> !occurs_at(body, marker(), j)
        }),
    decreases body.len() - from,
{
    reveal_strlit("xt=urn:btih:");
    assert(marker().len() == 12);
    if from + 12 <= body.len() && !occurs_at(body, marker(), from) {
        lemma_next_is_a_marker(body, from + 1);
    }
}

proof fn lemma_scan_keeps(body: Seq<u8>, from: int, found: Seq<Seq<u8>>, max: nat, x: Seq<u8>)
    requires
        found.contains(x),
    ensures
        scan(body, from, found, max).contains(x),
    decreases body.len() - from,
{
    let at = next_marker(body, from);
    if !(found.len() >= max || at < from || from < 0) {
        let start = at + 12;
        let w = body.subrange(start, start + 40);
        let next = if start + 40 <= body.len() && is_hex(w) && !found.contains(unhex(w)) {
            found.push(unhex(w))
        } else {
            found
        };
        let k = choose|k: int| 0 <= k < found.len() && found[k] == x;
        assert(next[k] == x);
        if start + 40 <= body.len() {
            lemma_scan_keeps(body, start + 40, next, max, x);
        }
    }
}

proof fn lemma_scan_finds(body: Seq<u8>, from: int, found: Seq<Seq<u8>>, max: nat, i: int)
    requires
        0 <= from <= i,
        occurs_at(body, marker(), i),
        i + 52 <= body.len(),
        is_hex(body.subrange(i + 12, i + 52)),
        forall|j: int|
            #![trigger occurs_at(body, marker(), j)]
            i - 52 < j < i ==> !occurs_at(body, marker(), j),
        scan(body, from, found, max).len() < max,
    ensures
        scan(body, from, found, max).contains(unhex(body.subrange(i + 12, i + 52))),
    decreases body.len() - from,
{
    lemma_next_is_a_marker(body, from);
    let x = unhex(body.subrange(i + 12, i + 52));
    let at = next_marker(body, from);
    assert(at != -1 && at <= i);
    let start = at + 12;
    let w = body.subrange(start, start + 40);
    let next = if start + 40 <= body.len() && is_hex(w) && !found.contains(unhex(w)) {
        found.push(unhex(w))
    } else {
        found
    };
    if at == i {
        if !found.contains(x) {
            assert(next[next.len() - 1] == x);
        }
        assert(next.contains(x));
        lemma_scan_keeps(body, start + 40, next, max, x);
    } else {
        assert(at <= i - 52);
        lemma_scan_finds(body, start + 40, next, max, i);
    }
}

proof fn lemma_scan_only(body: Seq<u8>, from: int, found: Seq<Seq<u8>>, max: nat, x: Seq<u8>)
    requires
        0 <= from,
        scan(body, from, found, max).contains(x),
        !found.contains(x),
    ensures
        exists|i: int|
            #[trigger] occurs_at(body, marker(), i) && i + 52 <= body.len() && is_hex(
                body.subrange(i + 12, i + 52),
            ) && x == unhex(body.subrange(i + 12, i + 52)),
    decreases body.len() - from,
{
    lemma_next_is_a_marker(body, from);
    let at = next_marker(body, from);
    let start = at + 12;
    let w = body.subrange(start, start + 40);
    let next = if start + 40 <= body.len() && is_hex(w) && !found.contains(unhex(w)) {
        found.push(unhex(w))
    } else {
        found
    };
    if next.contains(x) {
        let k = choose|k: int| 0 <= k < next.len() && next[k] == x;
        if k < found.len() {
            assert(found[k] == x);
        }
        assert(x == unhex(w) && is_hex(w));
        assert(occurs_at(body, marker(), at));
    } else {
        lemma_scan_only(body, start + 40, next, max, x);
    }
}

/// A feed gives the torrents that stand in its magnet links: every link that does not overlap
/// the one before it counts, unless as many torrents were found as may be; and nothing else
/// does.
pub proof fn every_magnet_is_found(body: Seq<u8>, max: nat, i: int, x: Seq<u8>)
    ensures
        occurs_at(body, ascii("xt=urn:btih:"@), i) && i + 52 <= body.len() && (forall|k: int|
            i + 12 <= k < i + 52 ==> 48 <= #[trigger] body[k] <= 57 || 65 <= body[k] <= 70 || 97
                <= body[k] <= 102) && (forall|j: int|
            #![trigger occurs_at(body, ascii("xt=urn:btih:"@), j)]
            i - 52 < j < i ==> !occurs_at(body, ascii("xt=urn:btih:"@), j)) && scan(
            body,
            0,
            Seq::empty(),
            max,
        ).len() < max ==> scan(body, 0, Seq::empty(), max).contains(
            unhex(body.subrange(i + 12, i + 52)),
        ),
        scan(body, 0, Seq::empty(), max).contains(x) ==> exists|j: int|
            #[trigger] occurs_at(body, ascii("xt=urn:btih:"@), j) && j + 52 <= body.len()
                && is_hex(body.subrange(j + 12, j + 52)) && x == unhex(
                body.subrange(j + 12, j + 52),
            ),
{
    if occurs_at(body, ascii("xt=urn:btih:"@), i) && i + 52 <= body.len() && (forall|k: int|
        i + 12 <= k < i + 52 ==> 48 <= #[trigger] body[k] <= 57 || 65 <= body[k] <= 70 || 97
            <= body[k] <= 102) && (forall|j: int|
        #![trigger occurs_at(body, ascii("xt=urn:btih:"@), j)]
        i - 52 < j < i ==> !occurs_at(body, ascii("xt=urn:btih:"@), j)) && scan(
        body,
        0,
        Seq::empty(),
        max,
    ).len() < max {
        let w = body.subrange(i + 12, i + 52);
        assert forall|k: int| 0 <= k < w.len() implies (#[trigger] crate::text::hex_value(
            w[k],
        )) is Some by {
            assert(w[k] == body[i + 12 + k]);
        }
        lemma_scan_finds(body, 0, Seq::empty(), max, i);
    }
    if scan(body, 0, Seq::empty(), max).contains(x) {
        lemma_scan_only(body, 0, Seq::empty(), max, x);
    }
}

} // verus!
