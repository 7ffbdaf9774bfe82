//! The store's in-memory index: the contents that replaying the write-ahead
//! log produces, and the decisions that the store's operations make on it.
//!
//! The log file itself is read and written by the caller: it hands the log's
//! bytes to `Kv::replay`, writes the entries that `Entry::new` and
//! `Kv::tombstone_for` give it, and then applies each written entry.
use vstd::prelude::*;
use bytes::Bytes;
use crate::buf::{bytes_eq, bytes_new, bytes_view};
use crate::kv_entry::{
    decode, decode_entry, encode_entry, entry_encode_error, lemma_decode_entry_extend,
    lemma_decode_entry_truncate, lemma_entry_roundtrip, DecodeError, Entry, EntryView,
};

verus! {

/// The contents of a store.
pub type Contents = Map<Seq<u8>, Seq<u8>>;

/// The index of a key-value store.
pub struct Kv {
    mem: Vec<(Bytes, Bytes)>,
}

/// A stored pair, as mathematical values.
pub open spec fn pair_view(p: (Bytes, Bytes)) -> (Seq<u8>, Seq<u8>) {
    (bytes_view(p.0), bytes_view(p.1))
}

/// Stored pairs, as mathematical values.
pub open spec fn pairs_view(s: Seq<(Bytes, Bytes)>) -> Seq<(Seq<u8>, Seq<u8>)> {
    s.map_values(|p: (Bytes, Bytes)| pair_view(p))
}

/// The map that a list of pairs stands for, later pairs winning.
pub open spec fn map_of(ps: Seq<(Seq<u8>, Seq<u8>)>) -> Contents
    decreases ps.len(),
{
    if ps.len() == 0 {
        Map::empty()
    } else {
        map_of(ps.drop_last()).insert(ps.last().0, ps.last().1)
    }
}

/// No key occurs twice in the list.
pub open spec fn keys_distinct(ps: Seq<(Seq<u8>, Seq<u8>)>) -> bool {
    forall|i: int, j: int| 0 <= i < j < ps.len() ==> #[trigger] ps[i].0 != #[trigger] ps[j].0
}

/// The contents after one entry: its key set to its value, or removed.
pub open spec fn apply_entry(m: Contents, e: EntryView) -> Contents {
    if e.deleted {
        m.remove(e.key)
    } else {
        m.insert(e.key, e.value)
    }
}

/// The contents after a list of entries, applied in order.
pub open spec fn apply_entries(m: Contents, es: Seq<EntryView>) -> Contents
    decreases es.len(),
{
    if es.len() == 0 {
        m
    } else {
        apply_entries(apply_entry(m, es[0]), es.drop_first())
    }
}

/// The frames of a list of entries, one after another.
pub open spec fn encode_entries(es: Seq<EntryView>) -> Seq<u8>
    decreases es.len(),
{
    if es.len() == 0 {
        Seq::empty()
    } else {
        encode_entry(es[0]) + encode_entries(es.drop_first())
    }
}

/// An operation of the store, as its caller issues it.
pub enum StoreOp {
    Put { key: Seq<u8>, value: Seq<u8> },
    Delete { key: Seq<u8> },
}

/// The log entries an operation on contents `m` writes: a set writes its
/// key and value; a delete writes a deletion of its key where a value is
/// stored under it, and nothing where none is.
pub open spec fn op_entries(m: Contents, op: StoreOp) -> Seq<EntryView> {
    match op {
        StoreOp::Put { key, value } => seq![EntryView { key, value, deleted: false }],
        StoreOp::Delete { key } => if m.contains_key(key) {
            seq![EntryView { key, value: Seq::empty(), deleted: true }]
        } else {
            Seq::empty()
        },
    }
}

/// Running operations from contents `m`: the contents reached, and the log
/// entries written along the way, in order.
pub open spec fn run_ops(m: Contents, ops: Seq<StoreOp>) -> (Contents, Seq<EntryView>)
    decreases ops.len(),
{
    if ops.len() == 0 {
        (m, Seq::empty())
    } else {
        let es = op_entries(m, ops[0]);
        let (end, later) = run_ops(apply_entries(m, es), ops.drop_first());
        (end, es + later)
    }
}

/// Applying no entry changes nothing; applying one entry is applying it.
proof fn lemma_apply_few_entries(m: Contents, e: EntryView)
    ensures
        apply_entries(m, Seq::empty()) == m,
        apply_entries(m, seq![e]) == apply_entry(m, e),
{
    let one = seq![e];
    assert(one[0] == e);
    assert(one.drop_first() == Seq::<EntryView>::empty());
    assert(apply_entries(apply_entry(m, e), Seq::<EntryView>::empty()) == apply_entry(m, e));
}

/// Decoding a frame that holds an entry reads at least one byte.
pub proof fn lemma_decode_entry_progress(s: Seq<u8>)
    ensures
        decode_entry(s).0 matches Ok(Some(_)) ==> decode_entry(s).1.len() < s.len(),
{
}

/// Replaying a log from contents `m`: the contents reached, whether the log
/// was read to its end or which error stopped it, and the bytes left unread.
pub open spec fn replay_log(m: Contents, s: Seq<u8>) -> (Contents, Result<(), DecodeError>, Seq<u8>)
    decreases s.len(),
{
    let (r, rest) = decode_entry(s);
    match r {
        Err(e) => (m, Err(e), rest),
        Ok(None) => (m, Ok(()), rest),
        Ok(Some(e)) => {
            proof {
                lemma_decode_entry_progress(s);
            }
            replay_log(apply_entry(m, e), rest)
        },
    }
}

proof fn lemma_map_of_keys(ps: Seq<(Seq<u8>, Seq<u8>)>, k: Seq<u8>)
    requires
        keys_distinct(ps),
    ensures
        map_of(ps).contains_key(k) <==> exists|i: int| 0 <= i < ps.len() && ps[i].0 == k,
        forall|i: int| 0 <= i < ps.len() && ps[i].0 == k ==> map_of(ps)[k] == ps[i].1,
    decreases ps.len(),
{
    if ps.len() > 0 {
        let init = ps.drop_last();
        lemma_map_of_keys(init, k);
        if map_of(init).contains_key(k) {
            let i = choose|i: int| 0 <= i < init.len() && init[i].0 == k;
            assert(ps[i].0 == k);
        }
        if ps.last().0 == k {
            assert(ps[ps.len() - 1].0 == k);
        }
        if exists|i: int| 0 <= i < ps.len() && ps[i].0 == k {
            let i = choose|i: int| 0 <= i < ps.len() && ps[i].0 == k;
            if i < ps.len() - 1 {
                assert(init[i].0 == k);
            }
        }
        assert forall|i: int| 0 <= i < ps.len() && ps[i].0 == k implies map_of(ps)[k]
            == ps[i].1 by {
            if i < ps.len() - 1 {
                assert(init[i] == ps[i]);
            }
        }
    }
}

proof fn lemma_map_of_update(ps: Seq<(Seq<u8>, Seq<u8>)>, i: int, v: Seq<u8>)
    requires
        keys_distinct(ps),
        0 <= i < ps.len(),
    ensures
        map_of(ps.update(i, (ps[i].0, v))) == map_of(ps).insert(ps[i].0, v),
    decreases ps.len(),
{
    let qs = ps.update(i, (ps[i].0, v));
    if i == ps.len() - 1 {
        assert(qs.drop_last() == ps.drop_last());
        assert(map_of(qs) == map_of(ps).insert(ps[i].0, v));
    } else {
        let init = ps.drop_last();
        assert(qs.drop_last() == init.update(i, (init[i].0, v)));
        lemma_map_of_update(init, i, v);
        assert(ps.last().0 != ps[i].0);
        assert(map_of(qs) == map_of(ps).insert(ps[i].0, v));
    }
}

proof fn lemma_map_of_remove(ps: Seq<(Seq<u8>, Seq<u8>)>, i: int)
    requires
        keys_distinct(ps),
        0 <= i < ps.len(),
    ensures
        map_of(ps.remove(i)) == map_of(ps).remove(ps[i].0),
        keys_distinct(ps.remove(i)),
    decreases ps.len(),
{
    let qs = ps.remove(i);
    let init = ps.drop_last();
    assert forall|a: int, b: int| 0 <= a < b < qs.len() implies #[trigger] qs[a].0
        != #[trigger] qs[b].0 by {
        let a2 = if a < i { a } else { a + 1 };
        let b2 = if b < i { b } else { b + 1 };
        assert(qs[a] == ps[a2]);
        assert(qs[b] == ps[b2]);
    }
    if i == ps.len() - 1 {
        assert(qs == init);
        lemma_map_of_keys(init, ps[i].0);
        assert forall|j: int| 0 <= j < init.len() implies init[j].0 != ps[i].0 by {
            assert(init[j] == ps[j]);
        }
        assert(map_of(qs) == map_of(ps).remove(ps[i].0));
    } else {
        assert(qs.drop_last() == init.remove(i));
        assert(qs.last() == ps.last());
        lemma_map_of_remove(init, i);
        assert(ps.last().0 != ps[i].0);
        assert(map_of(qs) == map_of(ps).remove(ps[i].0));
    }
}

impl Kv {
    /// The stored pairs keep their keys distinct.
    #[verifier::type_invariant]
    spec fn distinct(self) -> bool {
        keys_distinct(pairs_view(self.mem@))
    }
}

impl View for Kv {
    type V = Contents;

    closed spec fn view(&self) -> Contents {
        map_of(pairs_view(self.mem@))
    }
}

impl Kv {
    /// An empty store.
    pub fn new() -> (r: Self)
        ensures
            r@ == Contents::empty(),
    {
        let r = Kv { mem: Vec::new() };
        assert(pairs_view(r.mem@) == Seq::<(Seq<u8>, Seq<u8>)>::empty());
        r
    }

    /// The position of `key` among the stored pairs.
    fn find(&self, key: &Bytes) -> (r: Option<usize>)
        ensures
            match r {
                Some(i) => i < self.mem@.len() && bytes_view(self.mem@[i as int].0) == bytes_view(
                    *key,
                ),
                None => forall|i: int|
                    0 <= i < self.mem@.len() ==> bytes_view(#[trigger] self.mem@[i].0)
                        != bytes_view(*key),
            },
    {
        let mut i: usize = 0;
        while i < self.mem.len()
            invariant
                i <= self.mem@.len(),
                forall|j: int|
                    0 <= j < i ==> bytes_view(#[trigger] self.mem@[j].0) != bytes_view(*key),
            decreases self.mem@.len() - i,
        {
            if bytes_eq(&self.mem[i].0, key) {
                return Some(i);
            }
            i = i + 1;
        }
        None
    }

    proof fn lemma_find(&self, key: &Bytes, r: Option<usize>)
        requires
            keys_distinct(pairs_view(self.mem@)),
            match r {
                Some(i) => i < self.mem@.len() && bytes_view(self.mem@[i as int].0) == bytes_view(
                    *key,
                ),
                None => forall|i: int|
                    0 <= i < self.mem@.len() ==> bytes_view(#[trigger] self.mem@[i].0)
                        != bytes_view(*key),
            },
        ensures
            match r {
                Some(i) => self@.contains_key(bytes_view(*key)) && self@[bytes_view(*key)]
                    == bytes_view(self.mem@[i as int].1),
                None => !self@.contains_key(bytes_view(*key)),
            },
    {
        let ps = pairs_view(self.mem@);
        lemma_map_of_keys(ps, bytes_view(*key));
        match r {
            Some(i) => {
                assert(ps[i as int].0 == bytes_view(*key));
            },
            None => {
                assert forall|i: int| 0 <= i < ps.len() implies ps[i].0 != bytes_view(*key) by {
                    assert(ps[i].0 == bytes_view(self.mem@[i].0));
                }
            },
        }
    }

    /// The value stored under `key`.
    pub fn get(&self, key: &Bytes) -> (r: Option<Bytes>)
        ensures
            match r {
                Some(v) => self@.contains_key(bytes_view(*key)) && self@[bytes_view(*key)]
                    == bytes_view(v),
                None => !self@.contains_key(bytes_view(*key)),
            },
    {
        proof {
            use_type_invariant(self);
        }
        let found = self.find(key);
        proof {
            self.lemma_find(key, found);
        }
        match found {
            Some(i) => Some(self.mem[i].1.clone()),
            None => None,
        }
    }

    /// Whether a value is stored under `key`.
    pub fn contains_key(&self, key: &Bytes) -> (r: bool)
        ensures
            r == self@.contains_key(bytes_view(*key)),
    {
        proof {
            use_type_invariant(self);
        }
        let found = self.find(key);
        proof {
            self.lemma_find(key, found);
        }
        found.is_some()
    }

    /// Stores `val` under `key`; says whether a value was stored there before.
    pub fn set(&mut self, key: Bytes, val: Bytes) -> (r: bool)
        ensures
            r == old(self)@.contains_key(bytes_view(key)),
            final(self)@ == old(self)@.insert(bytes_view(key), bytes_view(val)),
            final(self)@ == apply_entry(
                old(self)@,
                EntryView { key: bytes_view(key), value: bytes_view(val), deleted: false },
            ),
            final(self)@ == apply_entries(
                old(self)@,
                op_entries(
                    old(self)@,
                    StoreOp::Put { key: bytes_view(key), value: bytes_view(val) },
                ),
            ),
    {
        proof {
            use_type_invariant(&*self);
            lemma_apply_few_entries(
                self@,
                EntryView { key: bytes_view(key), value: bytes_view(val), deleted: false },
            );
        }
        let found = self.find(&key);
        proof {
            self.lemma_find(&key, found);
        }
        let mut mem: Vec<(Bytes, Bytes)> = Vec::new();
        std::mem::swap(&mut mem, &mut self.mem);
        let ghost ps = pairs_view(mem@);
        match found {
            Some(i) => {
                mem[i] = (key, val);
                proof {
                    assert(pairs_view(mem@) == ps.update(
                        i as int,
                        (ps[i as int].0, bytes_view(val)),
                    ));
                    lemma_map_of_update(ps, i as int, bytes_view(val));
                    assert forall|a: int, b: int| 0 <= a < b < pairs_view(mem@).len() implies
                        #[trigger] pairs_view(mem@)[a].0 != #[trigger] pairs_view(mem@)[b].0 by {
                        assert(pairs_view(mem@)[a].0 == ps[a].0);
                        assert(pairs_view(mem@)[b].0 == ps[b].0);
                    }
                }
                self.mem = mem;
                true
            },
            None => {
                mem.push((key, val));
                proof {
                    let qs = pairs_view(mem@);
                    assert(qs.drop_last() == ps);
                    assert forall|a: int, b: int| 0 <= a < b < qs.len() implies
                        #[trigger] qs[a].0 != #[trigger] qs[b].0 by {
                        if b == qs.len() - 1 {
                            assert(qs[a].0 == bytes_view(mem@[a].0));
                        } else {
                            assert(qs[a] == ps[a]);
                            assert(qs[b] == ps[b]);
                        }
                    }
                }
                self.mem = mem;
                false
            },
        }
    }

    /// Removes the value stored under `key`; says whether there was one.
    pub fn del(&mut self, key: Bytes) -> (r: bool)
        ensures
            r == old(self)@.contains_key(bytes_view(key)),
            final(self)@ == old(self)@.remove(bytes_view(key)),
            r ==> final(self)@ == apply_entry(
                old(self)@,
                EntryView { key: bytes_view(key), value: Seq::empty(), deleted: true },
            ),
            final(self)@ == apply_entries(
                old(self)@,
                op_entries(old(self)@, StoreOp::Delete { key: bytes_view(key) }),
            ),
    {
        proof {
            use_type_invariant(&*self);
            lemma_apply_few_entries(
                self@,
                EntryView { key: bytes_view(key), value: Seq::empty(), deleted: true },
            );
        }
        let found = self.find(&key);
        proof {
            self.lemma_find(&key, found);
        }
        match found {
            Some(i) => {
                let mut mem: Vec<(Bytes, Bytes)> = Vec::new();
                std::mem::swap(&mut mem, &mut self.mem);
                let ghost ps = pairs_view(mem@);
                let _removed = mem.remove(i);
                proof {
                    assert(pairs_view(mem@) == ps.remove(i as int));
                    lemma_map_of_remove(ps, i as int);
                }
                self.mem = mem;
                true
            },
            None => {
                assert(old(self)@.remove(bytes_view(key)) == old(self)@);
                false
            },
        }
    }

    /// The log entry that deleting `key` must write: a deletion of `key`
    /// where a value is stored under it, and nothing where none is.
    pub fn tombstone_for(&self, key: &Bytes) -> (r: Option<Entry>)
        ensures
            r is Some <==> self@.contains_key(bytes_view(*key)),
            r matches Some(e) ==> e@ == (EntryView {
                key: bytes_view(*key),
                value: Seq::empty(),
                deleted: true,
            }),
            r matches Some(e) ==> op_entries(self@, StoreOp::Delete { key: bytes_view(*key) })
                == seq![e@],
            r is None ==> op_entries(self@, StoreOp::Delete { key: bytes_view(*key) })
                == Seq::<EntryView>::empty(),
    {
        if self.contains_key(key) {
            Some(Entry::new(key.clone(), bytes_new(), true))
        } else {
            None
        }
    }

    /// Applies one log entry; says whether a value was stored under its key
    /// before.
    pub fn apply(&mut self, entry: Entry) -> (r: bool)
        ensures
            r == old(self)@.contains_key(entry@.key),
            final(self)@ == apply_entry(old(self)@, entry@),
    {
        let (key, value, deleted) = entry.into_parts();
        if deleted {
            self.del(key)
        } else {
            self.set(key, value)
        }
    }

    /// Replays the log held in `log` onto the store, entry by entry, until
    /// the log ends or an entry cannot be read.
    pub fn replay(&mut self, log: &mut Bytes) -> (r: Result<(), DecodeError>)
        ensures
            replay_log(old(self)@, bytes_view(*old(log))) == (
                final(self)@,
                r,
                bytes_view(*final(log)),
            ),
    {
        loop
            invariant
                replay_log(old(self)@, bytes_view(*old(log))) == replay_log(
                    self@,
                    bytes_view(*log),
                ),
            decreases bytes_view(*log).len(),
        {
            let ghost before = bytes_view(*log);
            match decode(log) {
                Ok(Some(entry)) => {
                    proof {
                        lemma_decode_entry_progress(before);
                    }
                    self.apply(entry);
                },
                Ok(None) => {
                    return Ok(());
                },
                Err(e) => {
                    return Err(e);
                },
            }
        }
    }
}

/// Replaying the frames of a list of entries, one after another, applies
/// the entries in order and reads the log to its end: the store reopened on
/// its log holds what it held when the log was written.
pub proof fn law_replay_applies_written_entries(m: Contents, es: Seq<EntryView>)
    requires
        forall|i: int| 0 <= i < es.len() ==> entry_encode_error(#[trigger] es[i]) is None,
    ensures
        replay_log(m, encode_entries(es)) == (
            apply_entries(m, es),
            Ok::<(), DecodeError>(()),
            Seq::<u8>::empty(),
        ),
    decreases es.len(),
{
    if es.len() == 0 {
        assert(encode_entries(es) == Seq::<u8>::empty());
    } else {
        let rest = es.drop_first();
        assert(entry_encode_error(es[0]) is None);
        assert forall|i: int| 0 <= i < rest.len() implies entry_encode_error(
            #[trigger] rest[i],
        ) is None by {
            assert(rest[i] == es[i + 1]);
        }
        lemma_entry_roundtrip(es[0], encode_entries(rest));
        law_replay_applies_written_entries(apply_entry(m, es[0]), rest);
    }
}

/// Applying two lists of entries one after the other is applying their
/// concatenation.
proof fn lemma_apply_entries_concat(m: Contents, a: Seq<EntryView>, b: Seq<EntryView>)
    ensures
        apply_entries(m, a + b) == apply_entries(apply_entries(m, a), b),
    decreases a.len(),
{
    if a.len() == 0 {
        assert(a + b == b);
    } else {
        assert((a + b)[0] == a[0]);
        assert((a + b).drop_first() == a.drop_first() + b);
        lemma_apply_entries_concat(apply_entry(m, a[0]), a.drop_first(), b);
    }
}

/// The contents that operations reach are those that their written entries
/// give when applied.
proof fn lemma_run_ops_applies_entries(m: Contents, ops: Seq<StoreOp>)
    ensures
        run_ops(m, ops).0 == apply_entries(m, run_ops(m, ops).1),
    decreases ops.len(),
{
    if ops.len() > 0 {
        let es = op_entries(m, ops[0]);
        let m1 = apply_entries(m, es);
        lemma_run_ops_applies_entries(m1, ops.drop_first());
        lemma_apply_entries_concat(m, es, run_ops(m1, ops.drop_first()).1);
    }
}

/// A log that replays without error is read to its end.
proof fn lemma_replay_ok_reads_all(m: Contents, s: Seq<u8>)
    requires
        replay_log(m, s).1 is Ok,
    ensures
        replay_log(m, s).2.len() == 0,
    decreases s.len(),
{
    let (r, rest) = decode_entry(s);
    if let Ok(Some(e)) = r {
        lemma_decode_entry_progress(s);
        lemma_replay_ok_reads_all(apply_entry(m, e), rest);
    }
}

/// Replaying a log followed by more bytes continues, from where the log
/// left the contents, with those bytes.
proof fn lemma_replay_extend(m: Contents, s: Seq<u8>, t: Seq<u8>)
    requires
        replay_log(m, s).1 is Ok,
    ensures
        replay_log(m, s + t) == replay_log(replay_log(m, s).0, t),
    decreases s.len(),
{
    if s.len() == 0 {
        assert(s + t == t);
    } else {
        let (r, rest) = decode_entry(s);
        if let Ok(Some(e)) = r {
            lemma_decode_entry_progress(s);
            lemma_decode_entry_extend(s, t);
            lemma_replay_extend(apply_entry(m, e), rest, t);
        }
    }
}

/// Reopening the store rebuilds what it held: where the store was opened
/// on a log that replays without error, and then ran any operations whose
/// entries were all written, replaying the log with those entries after it
/// gives exactly the contents the operations reached, and reads to its end.
pub proof fn law_reopen_rebuilds_store(log: Seq<u8>, ops: Seq<StoreOp>)
    requires
        replay_log(Contents::empty(), log).1 is Ok,
        forall|i: int|
            0 <= i < run_ops(replay_log(Contents::empty(), log).0, ops).1.len()
                ==> entry_encode_error(
                #[trigger] run_ops(replay_log(Contents::empty(), log).0, ops).1[i],
            ) is None,
    ensures
        ({
            let opened = replay_log(Contents::empty(), log).0;
            replay_log(Contents::empty(), log + encode_entries(run_ops(opened, ops).1)) == (
                run_ops(opened, ops).0,
                Ok::<(), DecodeError>(()),
                Seq::<u8>::empty(),
            )
        }),
{
    let opened = replay_log(Contents::empty(), log).0;
    let written = run_ops(opened, ops).1;
    lemma_replay_extend(Contents::empty(), log, encode_entries(written));
    law_replay_applies_written_entries(opened, written);
    lemma_run_ops_applies_entries(opened, ops);
}

/// Where a replay fails, it failed at the first frame that could not be
/// read: the log splits at some point into a part that replays to its end
/// without error and reaches exactly the contents the failed replay left,
/// and a rest whose first frame fails to read with that error, leaving the
/// bytes the failed replay left. No entry after the bad frame is applied.
pub proof fn law_replay_stops_at_first_bad_frame(m: Contents, s: Seq<u8>)
    requires
        replay_log(m, s).1 is Err,
    ensures
        exists|n: int|
            0 <= n <= s.len() && #[trigger] replay_log(m, s.take(n)) == (
                replay_log(m, s).0,
                Ok::<(), DecodeError>(()),
                Seq::<u8>::empty(),
            ) && decode_entry(s.skip(n)) == (
                Err::<Option<EntryView>, DecodeError>(replay_log(m, s).1->Err_0),
                replay_log(m, s).2,
            ),
{
    let n = lemma_replay_error_split(m, s);
    assert(replay_log(m, s.take(n)) == (
        replay_log(m, s).0,
        Ok::<(), DecodeError>(()),
        Seq::<u8>::empty(),
    ));
}

proof fn lemma_replay_error_split(m: Contents, s: Seq<u8>) -> (n: int)
    requires
        replay_log(m, s).1 is Err,
    ensures
        0 <= n <= s.len(),
        replay_log(m, s.take(n)) == (
            replay_log(m, s).0,
            Ok::<(), DecodeError>(()),
            Seq::<u8>::empty(),
        ),
        decode_entry(s.skip(n)) == (
            Err::<Option<EntryView>, DecodeError>(replay_log(m, s).1->Err_0),
            replay_log(m, s).2,
        ),
    decreases s.len(),
{
    let (r, rest) = decode_entry(s);
    match r {
        Ok(Some(e)) => {
            lemma_decode_entry_progress(s);
            let c = s.len() - rest.len();
            assert(rest == s.skip(c));
            let n1 = lemma_replay_error_split(apply_entry(m, e), rest);
            let head = s.take(c);
            lemma_decode_entry_truncate(s);
            assert(s.take(c + n1) == head + rest.take(n1));
            lemma_decode_entry_extend(head, rest.take(n1));
            assert(Seq::<u8>::empty() + rest.take(n1) == rest.take(n1));
            assert(s.skip(c + n1) == rest.skip(n1));
            c + n1
        },
        _ => {
            assert(s.skip(0) == s);
            assert(s.take(0) == Seq::<u8>::empty());
            0
        },
    }
}

/// A read after storing a value under a key gives that value.
pub proof fn law_get_after_set(m: Contents, key: Seq<u8>, val: Seq<u8>)
    ensures
        apply_entry(m, EntryView { key, value: val, deleted: false }).contains_key(key),
        apply_entry(m, EntryView { key, value: val, deleted: false })[key] == val,
{
}

/// A read after deleting a key finds nothing, and other keys keep their values.
pub proof fn law_get_after_del(m: Contents, key: Seq<u8>, other: Seq<u8>)
    requires
        other != key,
    ensures
        !apply_entry(m, EntryView { key, value: Seq::empty(), deleted: true }).contains_key(key),
        apply_entry(m, EntryView { key, value: Seq::empty(), deleted: true }).contains_key(other)
            == m.contains_key(other),
        m.contains_key(other) ==> apply_entry(
            m,
            EntryView { key, value: Seq::empty(), deleted: true },
        )[other] == m[other],
{
}

} // verus!
