//! The types that serve as keys of maps, and the bytes that each is filed under.

use vstd::array::*;
use vstd::prelude::*;
use vstd::string::*;
use vstd::utf8::*;

use crate::bytes::{be32, be32_round_trip, copy_bytes, push_be32};
use crate::storage::fx_map::MapKey;
use crate::types::{PeerAddr, PeerSource};

verus! {

/// The two bytes of a port, most significant first.
pub open spec fn be16(n: u16) -> Seq<u8> {
    seq![(n / 256) as u8, (n % 256) as u8]
}

/// One of the four 32 bit words of a 128 bit number, the most significant one first.
pub open spec fn word_of(n: u128, i: int) -> u32 {
    if i == 0 {
        (n / 0x1_0000_0000_0000_0000_0000_0000) as u32
    } else if i == 1 {
        (n / 0x1_0000_0000_0000_0000 % 0x1_0000_0000) as u32
    } else if i == 2 {
        (n / 0x1_0000_0000 % 0x1_0000_0000) as u32
    } else {
        (n % 0x1_0000_0000) as u32
    }
}

/// The bytes of an address: the address proper, then the port.
pub open spec fn addr_bytes(a: PeerAddr) -> Seq<u8> {
    match a {
        PeerAddr::V4 { ip, port } => be32(ip) + be16(port),
        PeerAddr::V6 { ip, port } => be32(word_of(ip, 0)) + be32(word_of(ip, 1)) + be32(
            word_of(ip, 2),
        ) + be32(word_of(ip, 3)) + be16(port),
    }
}

proof fn lemma_be32_apart(a: u32, b: u32)
    requires
        be32(a) == be32(b),
    ensures
        a == b,
{
    be32_round_trip(a);
    be32_round_trip(b);
}

proof fn lemma_be16_apart(a: u16, b: u16)
    requires
        be16(a) == be16(b),
    ensures
        a == b,
{
    assert(be16(a)[0] == be16(b)[0]);
    assert(be16(a)[1] == be16(b)[1]);
    assert(a == (a / 256) * 256 + a % 256);
    assert(b == (b / 256) * 256 + b % 256);
}

proof fn lemma_words_apart(a: u128, b: u128)
    requires
        word_of(a, 0) == word_of(b, 0),
        word_of(a, 1) == word_of(b, 1),
        word_of(a, 2) == word_of(b, 2),
        word_of(a, 3) == word_of(b, 3),
    ensures
        a == b,
{
    assert(a / 0x1_0000_0000_0000_0000_0000_0000 == b / 0x1_0000_0000_0000_0000_0000_0000);
}

proof fn lemma_join_apart(a: Seq<u8>, b: Seq<u8>, x: Seq<u8>, y: Seq<u8>)
    requires
        a.len() == b.len(),
        a + x == b + y,
    ensures
        a == b,
        x == y,
{
    let n = a.len() as int;
    assert(a.len() + x.len() == (a + x).len() == (b + y).len());
    assert((a + x).take(n) =~= a && (b + y).take(n) =~= b);
    assert((a + x).skip(n) =~= x && (b + y).skip(n) =~= y);
}

proof fn lemma_v6_apart(i: u128, p: u16, j: u128, q: u16)
    requires
        addr_bytes(PeerAddr::V6 { ip: i, port: p }) == addr_bytes(
            PeerAddr::V6 { ip: j, port: q },
        ),
    ensures
        i == j,
        p == q,
{
    let (a0, a1, a2, a3) = (word_of(i, 0), word_of(i, 1), word_of(i, 2), word_of(i, 3));
    let (b0, b1, b2, b3) = (word_of(j, 0), word_of(j, 1), word_of(j, 2), word_of(j, 3));
    lemma_join_apart(
        be32(a0) + be32(a1) + be32(a2) + be32(a3),
        be32(b0) + be32(b1) + be32(b2) + be32(b3),
        be16(p),
        be16(q),
    );
    lemma_join_apart(be32(a0) + be32(a1) + be32(a2), be32(b0) + be32(b1) + be32(b2), be32(a3), be32(b3));
    lemma_join_apart(be32(a0) + be32(a1), be32(b0) + be32(b1), be32(a2), be32(b2));
    lemma_join_apart(be32(a0), be32(b0), be32(a1), be32(b1));
    lemma_be32_apart(a0, b0);
    lemma_be32_apart(a1, b1);
    lemma_be32_apart(a2, b2);
    lemma_be32_apart(a3, b3);
    lemma_be16_apart(p, q);
    lemma_words_apart(i, j);
}

/// Different addresses have different bytes.
pub proof fn addr_bytes_tell_apart(a: PeerAddr, b: PeerAddr)
    requires
        addr_bytes(a) == addr_bytes(b),
    ensures
        a == b,
{
    match (a, b) {
        (PeerAddr::V4 { ip: i, port: p }, PeerAddr::V4 { ip: j, port: q }) => {
            lemma_join_apart(be32(i), be32(j), be16(p), be16(q));
            lemma_be32_apart(i, j);
            lemma_be16_apart(p, q);
        },
        (PeerAddr::V6 { ip: i, port: p }, PeerAddr::V6 { ip: j, port: q }) => {
            lemma_v6_apart(i, p, j, q);
        },
        (PeerAddr::V4 { .. }, PeerAddr::V6 { .. }) => {
            assert(addr_bytes(a).len() == 6);
            assert(addr_bytes(b).len() == 18);
        },
        (PeerAddr::V6 { .. }, PeerAddr::V4 { .. }) => {
            assert(addr_bytes(a).len() == 18);
            assert(addr_bytes(b).len() == 6);
        },
    }
}

fn push_port(out: &mut Vec<u8>, port: u16)
    ensures
        final(out)@ == old(out)@ + be16(port),
{
    out.push((port / 256) as u8);
    out.push((port % 256) as u8);
    assert(out@ =~= old(out)@ + be16(port));
}

impl MapKey for PeerAddr {
    type M = PeerAddr;

    open spec fn model(self) -> PeerAddr {
        self
    }

    open spec fn filed_as(m: PeerAddr) -> Seq<u8> {
        addr_bytes(m)
    }

    proof fn told_apart(a: PeerAddr, b: PeerAddr) {
        addr_bytes_tell_apart(a, b);
    }

    fn key_bytes(&self) -> (r: Vec<u8>) {
        let mut out: Vec<u8> = Vec::new();
        match self {
            PeerAddr::V4 { ip, port } => {
                push_be32(&mut out, *ip);
                push_port(&mut out, *port);
            },
            PeerAddr::V6 { ip, port } => {
                push_be32(&mut out, (*ip / 0x1_0000_0000_0000_0000_0000_0000) as u32);
                push_be32(&mut out, (*ip / 0x1_0000_0000_0000_0000 % 0x1_0000_0000) as u32);
                push_be32(&mut out, (*ip / 0x1_0000_0000 % 0x1_0000_0000) as u32);
                push_be32(&mut out, (*ip % 0x1_0000_0000) as u32);
                push_port(&mut out, *port);
            },
        }
        assert(out@ =~= addr_bytes(*self));
        out
    }

    fn duplicate(&self) -> (r: PeerAddr) {
        *self
    }
}

impl MapKey for [u8; 20] {
    type M = [u8; 20];

    open spec fn model(self) -> [u8; 20] {
        self
    }

    open spec fn filed_as(m: [u8; 20]) -> Seq<u8> {
        m@
    }

    proof fn told_apart(a: [u8; 20], b: [u8; 20]) {
        broadcast use group_array_axioms;
        assert forall|i: int| 0 <= i < 20 implies a[i] == b[i] by {
            assert(a@[i] == b@[i]);
        }
        assert(a =~= b);
    }

    fn key_bytes(&self) -> (r: Vec<u8>) {
        copy_bytes(self.as_slice())
    }

    fn duplicate(&self) -> (r: [u8; 20]) {
        *self
    }
}

impl MapKey for [u8; 3] {
    type M = Seq<u8>;

    open spec fn model(self) -> Seq<u8> {
        self@
    }

    open spec fn filed_as(m: Seq<u8>) -> Seq<u8> {
        m
    }

    proof fn told_apart(a: Seq<u8>, b: Seq<u8>) {
    }

    fn key_bytes(&self) -> (r: Vec<u8>) {
        copy_bytes(self.as_slice())
    }

    fn duplicate(&self) -> (r: [u8; 3]) {
        *self
    }
}

impl MapKey for String {
    type M = Seq<char>;

    open spec fn model(self) -> Seq<char> {
        self@
    }

    open spec fn filed_as(m: Seq<char>) -> Seq<u8> {
        encode_utf8(m)
    }

    proof fn told_apart(a: Seq<char>, b: Seq<char>) {
        encode_utf8_decode_utf8(a);
        encode_utf8_decode_utf8(b);
    }

    fn key_bytes(&self) -> (r: Vec<u8>) {
        copy_bytes(self.as_str().as_bytes())
    }

    fn duplicate(&self) -> (r: String) {
        self.clone()
    }
}

impl MapKey for u16 {
    type M = u16;

    open spec fn model(self) -> u16 {
        self
    }

    open spec fn filed_as(m: u16) -> Seq<u8> {
        be16(m)
    }

    proof fn told_apart(a: u16, b: u16) {
        lemma_be16_apart(a, b);
    }

    fn key_bytes(&self) -> (r: Vec<u8>) {
        let mut out: Vec<u8> = Vec::new();
        push_port(&mut out, *self);
        assert(out@ =~= be16(*self));
        out
    }

    fn duplicate(&self) -> (r: u16) {
        *self
    }
}

impl MapKey for u32 {
    type M = u32;

    open spec fn model(self) -> u32 {
        self
    }

    open spec fn filed_as(m: u32) -> Seq<u8> {
        be32(m)
    }

    proof fn told_apart(a: u32, b: u32) {
        lemma_be32_apart(a, b);
    }

    fn key_bytes(&self) -> (r: Vec<u8>) {
        let mut out: Vec<u8> = Vec::new();
        push_be32(&mut out, *self);
        assert(out@ =~= be32(*self));
        out
    }

    fn duplicate(&self) -> (r: u32) {
        *self
    }
}

/// The number that stands for a source.
pub open spec fn source_number(s: PeerSource) -> u8 {
    match s {
        PeerSource::Tracker => 0,
        PeerSource::Dht => 1,
        PeerSource::Pex => 2,
        PeerSource::SuperTracker => 3,
        PeerSource::Lpd => 4,
        PeerSource::WebSeed => 5,
        PeerSource::Manual => 6,
    }
}

impl MapKey for PeerSource {
    type M = PeerSource;

    open spec fn model(self) -> PeerSource {
        self
    }

    open spec fn filed_as(m: PeerSource) -> Seq<u8> {
        seq![source_number(m)]
    }

    proof fn told_apart(a: PeerSource, b: PeerSource) {
        assert(seq![source_number(a)][0] == seq![source_number(b)][0]);
    }

    fn key_bytes(&self) -> (r: Vec<u8>) {
        let n: u8 = match self {
            PeerSource::Tracker => 0,
            PeerSource::Dht => 1,
            PeerSource::Pex => 2,
            PeerSource::SuperTracker => 3,
            PeerSource::Lpd => 4,
            PeerSource::WebSeed => 5,
            PeerSource::Manual => 6,
        };
        let out: Vec<u8> = vec![n];
        assert(out@ =~= seq![source_number(*self)]);
        out
    }

    fn duplicate(&self) -> (r: PeerSource) {
        *self
    }
}

} // verus!
