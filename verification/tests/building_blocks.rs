use pdc::bencode::{parse, Bencode};
use pdc::bytes::{be_number, bytes_before, bytes_eq, push_be32};
use pdc::chance::{shuffle, shuffle_by};
use pdc::sorting::{sort_dedup, sort_dedup_pairs, stable_order};
use pdc::storage::fx_map::{FxMap, FxSet};
use pdc::storage::sharded_map::{DirtyShardedHashMap, ShardedHashMap};
use pdc::storage::slab::Slab;
use pdc::text::{contains_bytes, parse_decimal, push_decimal, replace_bytes, str_eq};
use pdc::types::{PeerAddr, PeerSource};

#[test]
fn bencode_values() {
    let v = parse(b"d1:ai-3e1:bl1:xi2ee1:cd1:y2:zzee").unwrap();
    assert!(v.is_dict());
    assert_eq!(v.get_int("a"), Some(-3));
    assert!(matches!(v.get("b"), Some(Bencode::List(l)) if l.len() == 2));
    assert_eq!(v.get("c").unwrap().get_string("y"), Some(&b"zz".to_vec()));
    assert!(v.get("d").is_none());
    assert!(parse(b"i1").is_none());
    let nested = |n: usize| [vec![b'l'; n], vec![b'e'; n]].concat();
    assert!(parse(&nested(2048)).is_some());
    assert!(parse(&nested(2049)).is_none());
    let inner = [b"d1:a".repeat(2047), b"de".to_vec(), vec![b'e'; 2047]].concat();
    assert!(parse(&inner).is_some());
    assert!(parse(&vec![b'd'; 1_000_000]).is_none());
    let after = [b"d1:ai1ee".to_vec(), vec![b'l'; 3000]].concat();
    assert_eq!(parse(&after).unwrap().get_int("a"), Some(1));
    let inside = [b"3000:".to_vec(), vec![b'l'; 3000]].concat();
    assert!(parse(&inside).is_some());
    let wide = [b"l".to_vec(), b"le".repeat(3000), b"e".to_vec()].concat();
    assert!(parse(&wide).is_some());
}

#[test]
fn decimals() {
    for n in [0u64, 7, 10, 1_234_567_890, u64::MAX] {
        let mut out = vec![];
        push_decimal(&mut out, n);
        assert_eq!(out, n.to_string().into_bytes());
        assert_eq!(parse_decimal(&out, u64::MAX), Some(n));
    }
    assert_eq!(parse_decimal(b"", 9), None);
    assert_eq!(parse_decimal(b"1a", 99), None);
    assert_eq!(parse_decimal(b"100", 99), None);
}

#[test]
fn byte_strings() {
    assert!(bytes_eq(b"ab", b"ab") && !bytes_eq(b"ab", b"a"));
    assert!(bytes_before(b"a", b"ab") && !bytes_before(b"b", b"ab"));
    let mut out = vec![];
    push_be32(&mut out, 0x0102_0304);
    assert_eq!(out, vec![1, 2, 3, 4]);
    assert_eq!(be_number(&out, 0, 4), 0x0102_0304);
    assert!(contains_bytes(b"hello", b"ell") && !contains_bytes(b"hello", b"elo"));
    assert_eq!(replace_bytes(b"/a/announce", b"announce", b"scrape"), b"/a/scrape".to_vec());
    assert!(str_eq("x", "x") && !str_eq("x", "y"));
}

#[test]
fn sorting_and_shuffling() {
    let keys = vec![(3, 0, 0), (1, 0, 1), (2, 0, 2), (1, 0, 3)];
    assert_eq!(stable_order(&keys), vec![1, 3, 2, 0]);
    let v = vec![b"b".to_vec(), b"a".to_vec(), b"b".to_vec()];
    assert_eq!(sort_dedup(v), vec![b"a".to_vec(), b"b".to_vec()]);
    let pairs = vec![(b"a".to_vec(), 2), (b"a".to_vec(), 1), (b"a".to_vec(), 2)];
    assert_eq!(sort_dedup_pairs(pairs), vec![(b"a".to_vec(), 1), (b"a".to_vec(), 2)]);
    let mut deck: Vec<u32> = (0..100).collect();
    shuffle(&mut deck);
    assert_ne!(deck, (0..100).collect::<Vec<u32>>());
    deck.sort();
    assert_eq!(deck, (0..100).collect::<Vec<u32>>());
    let mut few = vec!['a', 'b', 'c', 'd'];
    shuffle_by(&mut few, &vec![5, 2, 0]);
    assert_eq!(few, vec!['d', 'a', 'c', 'b']);
    let mut none: Vec<u8> = vec![];
    shuffle_by(&mut none, &vec![]);
    assert!(none.is_empty());
}

#[test]
fn maps_and_sets() {
    let mut m: FxMap<String, u32> = FxMap::new();
    assert_eq!(m.insert("a".to_string(), 1), None);
    assert_eq!(m.insert("a".to_string(), 2), Some(1));
    assert!(m.update(&"a".to_string(), |v: u32| v + 5));
    assert_eq!(m.get(&"a".to_string()), Some(&7));
    assert_eq!(m.keys(), vec!["a".to_string()]);
    assert_eq!(m.remove(&"a".to_string()), Some(7));
    assert!(m.is_empty());

    let mut s: FxSet<PeerSource> = FxSet::new();
    assert!(s.insert(PeerSource::Dht));
    assert!(!s.insert(PeerSource::Dht));
    assert!(!s.contains(&PeerSource::Pex));
    s.remove_each(&[PeerSource::Dht]);
    assert_eq!(s.len(), 0);
}

#[test]
fn sharded_maps() {
    let mut m: ShardedHashMap<PeerAddr, u32> = ShardedHashMap::new(4);
    for i in 0..50 {
        m.insert(PeerAddr::V4 { ip: i, port: 1 }, i);
    }
    let key = PeerAddr::V4 { ip: 7, port: 1 };
    assert_eq!(m.len(), 50);
    assert!(m.with_mut(&key, |v: u32| v * 2));
    assert_eq!(m.get(&key), Some(&14));
    assert_eq!(m.remove(&key), Some(14));
    assert!(!m.contains_key(&key));
    assert_eq!(m.keys().len(), 49);
    m.for_each_mut(|k: &PeerAddr, v: u32| v + k.port() as u32);
    assert_eq!(m.get(&PeerAddr::V4 { ip: 8, port: 1 }), Some(&9));

    let mut d: DirtyShardedHashMap<u16, u8> = DirtyShardedHashMap::new(2);
    d.insert(1, 1);
    d.insert(2, 2);
    assert_eq!(d.dirty_count(), 2);
    assert_eq!(d.take_dirty().len(), 2);
    assert_eq!(d.dirty_count(), 0);
    assert_eq!(d.inner().len(), 2);
    assert_eq!(d.inner().shard_count(), 2);
}

#[test]
fn slots_are_used_again() {
    let mut s: Slab<&str> = Slab::new();
    let a = s.add_value("a");
    let b = s.add_value("b");
    assert_eq!(s.take(a), "a");
    assert_eq!(s.add_value("c"), a);
    assert_eq!((*s.get(a), *s.get(b)), ("c", "b"));
}

#[test]
fn names_of_sources() {
    for s in [
        PeerSource::Tracker,
        PeerSource::Dht,
        PeerSource::Pex,
        PeerSource::SuperTracker,
        PeerSource::Lpd,
        PeerSource::WebSeed,
        PeerSource::Manual,
    ] {
        assert!(PeerSource::from_name(s.as_str()) == s);
    }
}
