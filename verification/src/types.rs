//! Values that several parts of the library share.

use vstd::prelude::*;

use crate::bytes::eq20;
use crate::text::str_eq;

verus! {

/// Identifier of a torrent: the SHA-1 of its info dictionary.
pub type Infohash = [u8; 20];

/// Identifier of a DHT node.
pub type NodeId = [u8; 20];

/// Address of a peer or node. The address proper is a number, most significant
/// octet first.
#[allow(inconsistent_fields)]
#[derive(Clone, Copy, Debug, PartialEq, Eq, PartialOrd, Ord, Hash, Structural)]
pub enum PeerAddr {
    V4 { ip: u32, port: u16 },
    V6 { ip: u128, port: u16 },
}

impl PeerAddr {
    /// The port of the address.
    pub open spec fn spec_port(self) -> u16 {
        match self {
            PeerAddr::V4 { ip: _, port } => port,
            PeerAddr::V6 { ip: _, port } => port,
        }
    }

    /// The port of the address.
    pub fn port(&self) -> (r: u16)
        ensures
            r == self.spec_port(),
    {
        match self {
            PeerAddr::V4 { ip: _, port } => *port,
            PeerAddr::V6 { ip: _, port } => *port,
        }
    }
}

/// Where a peer was learnt of.
#[derive(Clone, Copy, Debug, PartialEq, Eq, Structural)]
pub enum PeerSource {
    Tracker,
    Dht,
    Pex,
    SuperTracker,
    Lpd,
    WebSeed,
    Manual,
}

/// The source that a saved name stands for: every unknown name is manual.
pub open spec fn source_named(name: Seq<char>) -> PeerSource {
    if name == "tracker"@ {
        PeerSource::Tracker
    } else if name == "dht"@ {
        PeerSource::Dht
    } else if name == "pex"@ {
        PeerSource::Pex
    } else if name == "super_tracker"@ {
        PeerSource::SuperTracker
    } else if name == "lpd"@ {
        PeerSource::Lpd
    } else if name == "webseed"@ {
        PeerSource::WebSeed
    } else {
        PeerSource::Manual
    }
}

impl PeerSource {
    /// The name under which a source is saved.
    pub open spec fn spec_name(self) -> Seq<char> {
        match self {
            PeerSource::Tracker => "tracker"@,
            PeerSource::Dht => "dht"@,
            PeerSource::Pex => "pex"@,
            PeerSource::SuperTracker => "super_tracker"@,
            PeerSource::Lpd => "lpd"@,
            PeerSource::WebSeed => "webseed"@,
            PeerSource::Manual => "manual"@,
        }
    }

    /// The name under which a source is saved.
    pub fn as_str(self) -> (r: &'static str)
        ensures
            r@ == self.spec_name(),
    {
        match self {
            PeerSource::Tracker => "tracker",
            PeerSource::Dht => "dht",
            PeerSource::Pex => "pex",
            PeerSource::SuperTracker => "super_tracker",
            PeerSource::Lpd => "lpd",
            PeerSource::WebSeed => "webseed",
            PeerSource::Manual => "manual",
        }
    }

    /// The source that a saved name stands for.
    pub fn from_name(name: &str) -> (r: PeerSource)
        ensures
            r == source_named(name@),
    {
        if str_eq(name, "tracker") {
            PeerSource::Tracker
        } else if str_eq(name, "dht") {
            PeerSource::Dht
        } else if str_eq(name, "pex") {
            PeerSource::Pex
        } else if str_eq(name, "super_tracker") {
            PeerSource::SuperTracker
        } else if str_eq(name, "lpd") {
            PeerSource::Lpd
        } else if str_eq(name, "webseed") {
            PeerSource::WebSeed
        } else {
            PeerSource::Manual
        }
    }
}

/// A saved source is read back as it was.
pub proof fn source_name_round_trip(s: PeerSource)
    ensures
        source_named(s.spec_name()) == s,
{
    reveal_strlit("tracker");
    reveal_strlit("dht");
    reveal_strlit("pex");
    reveal_strlit("super_tracker");
    reveal_strlit("lpd");
    reveal_strlit("webseed");
    reveal_strlit("manual");
    assert("tracker"@.len() == 7 && "dht"@.len() == 3 && "pex"@.len() == 3);
    assert("super_tracker"@.len() == 13 && "lpd"@.len() == 3 && "webseed"@.len() == 7);
    assert("manual"@.len() == 6);
    assert("dht"@[0] == 'd' && "pex"@[0] == 'p' && "lpd"@[0] == 'l');
    assert("tracker"@[0] == 't' && "webseed"@[0] == 'w');
}

/// What is known of a peer. Times are seconds since 1970; the score is an integer that
/// orders as the score does.
#[derive(Clone, Copy, Debug)]
pub struct PeerInfo {
    pub addr: PeerAddr,
    pub source: PeerSource,
    pub peer_id: Option<[u8; 20]>,
    pub priority_score: i64,
    pub connection_attempts: u32,
    pub connection_successes: u32,
    pub first_seen: u64,
    pub last_active: u64,
}

/// A peer of which nothing but the address is known.
pub open spec fn fresh_peer(addr: PeerAddr, source: PeerSource, now: u64) -> PeerInfo {
    PeerInfo {
        addr,
        source,
        peer_id: None,
        priority_score: 0,
        connection_attempts: 0,
        connection_successes: 0,
        first_seen: now,
        last_active: now,
    }
}

impl PeerInfo {
    /// A peer of which nothing but the address is known.
    pub fn new(addr: PeerAddr, source: PeerSource, now: u64) -> (r: Self)
        ensures
            r == fresh_peer(addr, source, now),
    {
        PeerInfo {
            addr,
            source,
            peer_id: None,
            priority_score: 0,
            connection_attempts: 0,
            connection_successes: 0,
            first_seen: now,
            last_active: now,
        }
    }
}

/// The bytes of identifiers.
pub open spec fn id_views(s: Seq<[u8; 20]>) -> Seq<Seq<u8>> {
    Seq::new(s.len(), |i: int| s[i]@)
}

/// What a sequence holds, each once, in the order in which it first appears.
pub open spec fn distinct_of<A>(s: Seq<A>) -> Seq<A>
    decreases s.len(),
{
    if s.len() == 0 {
        Seq::empty()
    } else {
        let d = distinct_of(s.drop_last());
        if d.contains(s.last()) {
            d
        } else {
            d.push(s.last())
        }
    }
}

/// What is listed once is what was listed, and nothing is listed twice.
pub proof fn lemma_distinct_of<A>(s: Seq<A>)
    ensures
        distinct_of(s).no_duplicates(),
        forall|x: A| #[trigger] distinct_of(s).contains(x) <==> s.contains(x),
    decreases s.len(),
{
    if s.len() > 0 {
        let t = s.drop_last();
        lemma_distinct_of(t);
        let d = distinct_of(t);
        assert(s =~= t.push(s.last()));
        assert forall|x: A| #[trigger] distinct_of(s).contains(x) <==> s.contains(x) by {
            assert(d.contains(x) <==> t.contains(x));
            if t.contains(x) {
                let i = choose|i: int| 0 <= i < t.len() && t[i] == x;
                assert(s[i] == x);
            }
            if s.contains(x) && x != s.last() {
                let i = choose|i: int| 0 <= i < s.len() && s[i] == x;
                assert(t[i] == x);
            }
            assert(s[s.len() - 1] == s.last());
            if !d.contains(s.last()) {
                let e = d.push(s.last());
                if d.contains(x) {
                    let i = choose|i: int| 0 <= i < d.len() && d[i] == x;
                    assert(e[i] == x);
                }
                if e.contains(x) {
                    let i = choose|i: int| 0 <= i < e.len() && e[i] == x;
                    if i < d.len() {
                        assert(d[i] == x);
                    }
                }
                assert(e[d.len() as int] == s.last());
            }
        }
        if !d.contains(s.last()) {
            let e = d.push(s.last());
            assert forall|i: int, j: int| 0 <= i < e.len() && 0 <= j < e.len() && i != j implies e[i]
                != e[j] by {
                if i < d.len() {
                    assert(d.contains(d[i]));
                }
                if j < d.len() {
                    assert(d.contains(d[j]));
                }
            }
        }
    }
}

/// Whether an identifier is in a list.
pub fn has_id(list: &Vec<[u8; 20]>, id: &[u8; 20]) -> (r: bool)
    ensures
        r == list@.contains(*id),
        r == id_views(list@).contains(id@),
{
    let ghost views = id_views(list@);
    let mut i: usize = 0;
    while i < list.len()
        invariant
            0 <= i <= list@.len(),
            views == id_views(list@),
            forall|k: int| 0 <= k < i ==> (#[trigger] list@[k]) != *id && views[k] != id@,
        decreases list@.len() - i,
    {
        if eq20(&list[i], id) {
            proof {
                assert(views[i as int] == id@);
            }
            return true;
        }
        i = i + 1;
    }
    proof {
        assert forall|k: int| 0 <= k < views.len() implies views[k] != id@ by {
            assert(list@[k] != *id);
        }
    }
    false
}

/// Puts an identifier at the end of a list that does not have it.
pub fn add_once(list: &mut Vec<[u8; 20]>, id: [u8; 20])
    ensures
        id_views(final(list)@) == if id_views(old(list)@).contains(id@) {
            id_views(old(list)@)
        } else {
            id_views(old(list)@).push(id@)
        },
{
    if !has_id(list, &id) {
        let ghost before = id_views(list@);
        list.push(id);
        proof {
            assert(id_views(list@) =~= before.push(id@));
        }
    }
}

} // verus!
