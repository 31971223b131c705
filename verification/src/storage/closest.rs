//! What it is for a node to be close to a target.

use vstd::prelude::*;

use crate::bits::{first_bit_decides, id_bit};
use crate::bytes::bytes_lt;
use crate::storage::node_repo::{
    addr_of, closer_to, picks_first, scores_higher, xor_distance, KBucketEntry,
};
use crate::types::{NodeId, PeerAddr};

verus! {

proof fn lemma_xor(x: u8, y: u8, z: u8)
    ensures
        x ^ y == y ^ x,
        (x ^ y) == 0 <==> x == y,
        x ^ z == (x ^ y) ^ (y ^ z),
{
    assert(x ^ y == y ^ x) by (bit_vector);
    assert((x ^ y) == 0 <==> x == y) by (bit_vector);
    assert(x ^ z == (x ^ y) ^ (y ^ z)) by (bit_vector);
}

/// The distance is the same both ways, nothing exactly from an identifier to itself, and
/// the distances from one identifier to a second and from there to a third give, bit by bit,
/// that from the first to the third.
pub proof fn distance_is_a_metric(a: NodeId, b: NodeId, c: NodeId)
    ensures
        xor_distance(a, b).len() == 20,
        xor_distance(a, b) == xor_distance(b, a),
        xor_distance(a, b) == Seq::new(20, |i: int| 0u8) <==> a@ == b@,
        xor_distance(a, c) == Seq::new(
            20,
            |i: int| xor_distance(a, b)[i] ^ xor_distance(b, c)[i],
        ),
{
    let d = xor_distance(a, b);
    let zero = Seq::new(20, |i: int| 0u8);
    assert forall|i: int| 0 <= i < 20 implies d[i] == xor_distance(b, a)[i] by {
        lemma_xor(a@[i], b@[i], c@[i]);
    }
    assert(d =~= xor_distance(b, a));
    if d == zero {
        assert forall|i: int| 0 <= i < 20 implies a@[i] == b@[i] by {
            lemma_xor(a@[i], b@[i], c@[i]);
            assert(d[i] == zero[i]);
        }
        assert(a@ =~= b@);
    }
    if a@ == b@ {
        assert forall|i: int| 0 <= i < 20 implies d[i] == zero[i] by {
            lemma_xor(a@[i], b@[i], c@[i]);
        }
        assert(d =~= zero);
    }
    let sum = Seq::new(20, |i: int| xor_distance(a, b)[i] ^ xor_distance(b, c)[i]);
    assert forall|i: int| 0 <= i < 20 implies xor_distance(a, c)[i] == sum[i] by {
        lemma_xor(a@[i], b@[i], c@[i]);
    }
    assert(xor_distance(a, c) =~= sum);
}

proof fn lemma_first_bit(x: NodeId, y: NodeId, t: NodeId, n: int)
    requires
        0 <= n < 160,
        forall|m: int| 0 <= m < n ==> id_bit(x@, m) == id_bit(y@, m),
        id_bit(x@, n) != id_bit(y@, n),
    ensures
        bytes_lt(xor_distance(x, t), xor_distance(y, t)) <==> id_bit(x@, n) == id_bit(t@, n),
{
    let k = n / 8;
    let (dx, dy) = (xor_distance(x, t), xor_distance(y, t));
    first_bit_decides(x@, y@, t@, n);
    assert(dx.take(k) =~= dy.take(k));
    crate::bytes::lemma_bytes_lt_common(dx, dy, k);
    assert(dx.skip(k)[0] == dx[k] && dy.skip(k)[0] == dy[k]);
}

/// Of two nodes the one whose identifier agrees with the target at the first bit in which the
/// two differ is the closer one: it comes first, and if only one of them is returned, it is
/// that one.
pub proof fn closest_agree_with_the_target(
    nodes: Map<PeerAddr, KBucketEntry>,
    target: NodeId,
    n: nat,
    r: Seq<KBucketEntry>,
    i: int,
    a: PeerAddr,
    bit: int,
)
    requires
        picks_first(nodes, r, n, closer_to(target)),
        0 <= i < r.len(),
        nodes.contains_key(a),
        forall|k: int| 0 <= k <= i ==> (#[trigger] r[k]).addr != a,
        0 <= bit < 160,
        forall|m: int| 0 <= m < bit ==> id_bit(r[i].id@, m) == id_bit(nodes[a].id@, m),
        id_bit(r[i].id@, bit) != id_bit(nodes[a].id@, bit),
    ensures
        id_bit(r[i].id@, bit) == id_bit(target@, bit),
{
    let x = r[i];
    let y = nodes[a];
    let before = closer_to(target);
    assert(!before(y, x)) by {
        if r.map_values(addr_of()).contains(a) {
            let ra = r.map_values(addr_of());
            let j = choose|j: int| 0 <= j < ra.len() && ra[j] == a;
            assert(r[j].addr == a);
            assert(nodes[(addr_of())(r[j])] == r[j]);
            assert(!before(r[j], r[i]));
        } else {
            assert(!before(nodes[a], r[i]));
        }
    }
    lemma_first_bit(y.id, x.id, target, bit);
}

/// The nodes with the highest scores stand in the order of their scores, each once, and none
/// that is left out has a greater score than one of them.
pub proof fn best_nodes_come_first(
    nodes: Map<PeerAddr, KBucketEntry>,
    r: Seq<KBucketEntry>,
    n: nat,
    i: int,
    a: PeerAddr,
)
    requires
        picks_first(nodes, r, n, scores_higher()),
        0 <= i < r.len(),
    ensures
        r.len() <= n,
        r.len() == n || r.len() == nodes.len(),
        nodes.contains_key(r[i].addr) && nodes[r[i].addr] == r[i],
        forall|j: int| i < j < r.len() ==> r[i].score >= (#[trigger] r[j]).score,
        forall|j: int| 0 <= j < r.len() && j != i ==> (#[trigger] r[j]).addr != r[i].addr,
        nodes.contains_key(a) && (forall|j: int| 0 <= j < r.len() ==> (#[trigger] r[j]).addr != a)
            ==> r[i].score >= nodes[a].score,
{
    let key = addr_of();
    let before = scores_higher();
    let ra = r.map_values(key);
    assert(nodes.contains_key(key(r[i])) && nodes[key(r[i])] == r[i]);
    assert forall|j: int| i < j < r.len() implies r[i].score >= (#[trigger] r[j]).score by {
        assert(!before(r[j], r[i]));
    }
    assert forall|j: int| 0 <= j < r.len() && j != i implies (#[trigger] r[j]).addr
        != r[i].addr by {
        assert(ra[j] != ra[i]);
    }
    if nodes.contains_key(a) && (forall|j: int|
        0 <= j < r.len() ==> (#[trigger] r[j]).addr != a) {
        if ra.contains(a) {
            let j = choose|j: int| 0 <= j < ra.len() && ra[j] == a;
            assert(r[j].addr == a);
        }
        assert(!before(nodes[a], r[i]));
    }
}

/// As many nodes as are wanted are returned where there are so many, else all, each once and
/// as it is known.
pub proof fn closest_are_all_there_are(
    nodes: Map<PeerAddr, KBucketEntry>,
    target: NodeId,
    n: nat,
    r: Seq<KBucketEntry>,
    i: int,
)
    requires
        picks_first(nodes, r, n, closer_to(target)),
        0 <= i < r.len(),
    ensures
        r.len() <= n,
        r.len() == n || r.len() == nodes.len(),
        nodes.contains_key(r[i].addr) && nodes[r[i].addr] == r[i],
        forall|j: int| 0 <= j < r.len() && j != i ==> (#[trigger] r[j]).addr != r[i].addr,
{
    let key = addr_of();
    let ra = r.map_values(key);
    assert(nodes.contains_key(key(r[i])) && nodes[key(r[i])] == r[i]);
    assert forall|j: int| 0 <= j < r.len() && j != i implies (#[trigger] r[j]).addr
        != r[i].addr by {
        assert(ra[j] != ra[i]);
    }
}

} // verus!
