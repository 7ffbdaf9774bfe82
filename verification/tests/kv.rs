use bytes::{Bytes, BytesMut};
use rowkv::kv::Kv;
use rowkv::kv_entry::{DecodeError, Entry};

/// A store together with the bytes of its write-ahead log, written the way
/// the file-backed store writes them: the entry first, then the index.
struct Logged {
    kv: Kv,
    log: BytesMut,
}

impl Logged {
    fn new() -> Self {
        Logged { kv: Kv::new(), log: BytesMut::new() }
    }

    fn set(&mut self, key: Bytes, val: Bytes) -> bool {
        let entry = Entry::new(key.clone(), val.clone(), false);
        self.log.extend_from_slice(&entry.encode().expect("test entry fits"));
        self.kv.set(key, val)
    }

    fn del(&mut self, key: Bytes) -> bool {
        match self.kv.tombstone_for(&key) {
            Some(entry) => {
                self.log.extend_from_slice(&entry.encode().expect("test entry fits"));
                self.kv.del(key)
            }
            None => false,
        }
    }
}

#[test]
fn kv_sets_updates_and_deletes_values() {
    let mut kv = Logged::new();
    let key = Bytes::from_static(b"key");

    assert_eq!(kv.kv.get(&key), None);
    assert!(!kv.set(key.clone(), Bytes::from_static(b"first")));
    assert_eq!(kv.kv.get(&key), Some(Bytes::from_static(b"first")));
    assert!(kv.set(key.clone(), Bytes::from_static(b"second")));
    assert_eq!(kv.kv.get(&key), Some(Bytes::from_static(b"second")));
    assert!(kv.del(key.clone()));
    assert_eq!(kv.kv.get(&key), None);
    assert!(!kv.del(key));
}

#[test]
fn kv_replays_persisted_entries_after_reopen() -> Result<(), DecodeError> {
    let kept = Bytes::from_static(b"kept");
    let deleted = Bytes::from_static(b"deleted");

    let mut first = Logged::new();
    first.set(kept.clone(), Bytes::from_static(b"value"));
    first.set(deleted.clone(), Bytes::from_static(b"old-value"));
    first.del(deleted.clone());
    let mut log = first.log.freeze();

    let mut reopened = Kv::new();
    reopened.replay(&mut log)?;

    assert_eq!(reopened.get(&kept), Some(Bytes::from_static(b"value")));
    assert_eq!(reopened.get(&deleted), None);
    assert!(log.is_empty());
    Ok(())
}

#[test]
fn kv_delete_of_missing_key_writes_nothing() {
    let mut kv = Logged::new();

    assert!(!kv.del(Bytes::from_static(b"absent")));
    assert!(kv.log.is_empty());
    assert!(kv.kv.tombstone_for(&Bytes::from_static(b"absent")).is_none());
}

#[test]
fn kv_tombstone_names_the_key_with_an_empty_value() {
    let mut kv = Kv::new();
    kv.set(Bytes::from_static(b"k"), Bytes::from_static(b"v"));

    let tombstone = kv.tombstone_for(&Bytes::from_static(b"k")).expect("key is present");
    assert_eq!(tombstone, Entry::new(Bytes::from_static(b"k"), Bytes::new(), true));
    assert!(kv.contains_key(&Bytes::from_static(b"k")));
}

#[test]
fn kv_apply_sets_and_deletes() {
    let mut kv = Kv::new();

    assert!(!kv.apply(Entry::new(Bytes::from_static(b"a"), Bytes::from_static(b"1"), false)));
    assert!(kv.apply(Entry::new(Bytes::from_static(b"a"), Bytes::from_static(b"2"), false)));
    assert_eq!(kv.get(&Bytes::from_static(b"a")), Some(Bytes::from_static(b"2")));
    assert!(!kv.apply(Entry::new(Bytes::from_static(b"b"), Bytes::new(), true)));
    assert!(kv.apply(Entry::new(Bytes::from_static(b"a"), Bytes::new(), true)));
    assert_eq!(kv.get(&Bytes::from_static(b"a")), None);
}

#[test]
fn kv_keeps_other_keys_apart() {
    let mut kv = Kv::new();
    kv.set(Bytes::from_static(b"a"), Bytes::from_static(b"1"));
    kv.set(Bytes::from_static(b"b"), Bytes::from_static(b"2"));
    kv.set(Bytes::from_static(b"c"), Bytes::from_static(b"3"));
    assert!(kv.del(Bytes::from_static(b"b")));

    assert_eq!(kv.get(&Bytes::from_static(b"a")), Some(Bytes::from_static(b"1")));
    assert_eq!(kv.get(&Bytes::from_static(b"b")), None);
    assert_eq!(kv.get(&Bytes::from_static(b"c")), Some(Bytes::from_static(b"3")));
}

#[test]
fn kv_replay_stops_at_a_damaged_entry() {
    let good = Entry::new(Bytes::from_static(b"a"), Bytes::from_static(b"1"), false);
    let later = Entry::new(Bytes::from_static(b"b"), Bytes::from_static(b"2"), false);
    let mut bytes = good.encode().expect("fits").to_vec();
    let mut damaged = later.encode().expect("fits").to_vec();
    let last = damaged.len() - 1;
    damaged[last] ^= 1;
    bytes.extend_from_slice(&damaged);
    let mut log = Bytes::from(bytes);

    let mut kv = Kv::new();
    assert_eq!(kv.replay(&mut log), Err(DecodeError::ChecksumMismatch));
    assert_eq!(kv.get(&Bytes::from_static(b"a")), Some(Bytes::from_static(b"1")));
    assert_eq!(kv.get(&Bytes::from_static(b"b")), None);
}

#[test]
fn kv_reopen_after_more_writes_rebuilds_the_same_store() -> Result<(), DecodeError> {
    let mut first = Logged::new();
    first.set(Bytes::from_static(b"a"), Bytes::from_static(b"1"));
    first.set(Bytes::from_static(b"b"), Bytes::from_static(b"2"));
    let mut log = first.log.clone().freeze();

    let mut second = Logged { kv: Kv::new(), log: first.log };
    second.kv.replay(&mut log)?;
    second.del(Bytes::from_static(b"a"));
    second.del(Bytes::from_static(b"missing"));
    second.set(Bytes::from_static(b"b"), Bytes::from_static(b"3"));
    second.set(Bytes::from_static(b"c"), Bytes::from_static(b"4"));
    let mut log = second.log.freeze();

    let mut reopened = Kv::new();
    reopened.replay(&mut log)?;
    for key in [&b"a"[..], b"b", b"c", b"missing"] {
        let key = Bytes::copy_from_slice(key);
        assert_eq!(reopened.get(&key), second.kv.get(&key));
    }
    assert_eq!(reopened.get(&Bytes::from_static(b"b")), Some(Bytes::from_static(b"3")));
    Ok(())
}
