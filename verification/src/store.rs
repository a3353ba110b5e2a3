//! The store: generation-numbered append-only segments, an in-memory index
//! from each live key to the byte range of its latest `Set` record, a
//! dead-byte counter that schedules compaction, and recovery that rebuilds
//! everything by replaying the segments in ascending generation order.
//!
//! The store works on segment bytes held in memory; an unverified shell owns
//! the directory, feeds `open` the segment files' bytes, and mirrors the
//! bytes that `dump` hands back into the files.
use vstd::prelude::*;
use vstd::pervasive::VecAdditionalExecFns;
use crate::codec::{Command, RecModel, rec_model, rec_wf, recs_wf, spec_encode_rec, flat_encode,
    encode_command, decode_command, DecodeStep, spec_parse_log, lemma_flat_encode_push,
    lemma_decode_rec_of_encode, lemma_decode_rec_inverts, lemma_parse_log_of_encodes,
    append_bytes};
use crate::logio::BufWriterWithPos;
use crate::logio::read_at;
use crate::KvsError;

verus! {

/// Dead bytes beyond this many trigger compaction after a mutation.
pub const COMPACTION_THRESHOLD: u64 = 1024 * 1024;

/// Location of one record: its generation, start offset and byte length.
/// Immutable once created; replaced wholesale on overwrite.
#[derive(Clone, Copy)]
pub struct CommandPos {
    pub gen: u64,
    pub pos: u64,
    pub len: u64,
}

/// One sealed segment: its generation, its bytes, and, as a ghost companion,
/// the records those bytes encode.
pub struct Segment {
    pub gen: u64,
    pub data: Vec<u8>,
    pub recs: Ghost<Seq<RecModel>>,
}

/// One live key: where its latest `Set` record lies, and, as a ghost
/// companion, the value that record holds.
pub struct IndexEntry {
    pub key: String,
    pub pos: CommandPos,
    pub value: Ghost<Seq<char>>,
}

/// The keys of the entries are pairwise distinct.
pub open spec fn keys_unique(es: Seq<IndexEntry>) -> bool {
    forall|i: int, j: int|
        0 <= i < es.len() && 0 <= j < es.len() && i != j ==> #[trigger] es[i].key@
            != #[trigger] es[j].key@
}

/// Some entry holds the key.
pub open spec fn idx_has(es: Seq<IndexEntry>, k: Seq<char>) -> bool {
    exists|i: int| 0 <= i < es.len() && (#[trigger] es[i].key@) == k
}

/// The entry holding the key.
pub open spec fn idx_entry(es: Seq<IndexEntry>, k: Seq<char>) -> IndexEntry {
    es[choose|i: int| 0 <= i < es.len() && (#[trigger] es[i].key@) == k]
}

/// The key-to-value map the entries describe.
pub open spec fn idx_map(es: Seq<IndexEntry>) -> Map<Seq<char>, Seq<char>> {
    Map::new(|k: Seq<char>| idx_has(es, k), |k: Seq<char>| idx_entry(es, k).value@)
}

/// An entry with the key sits at position `i`, so it is the entry the map
/// speaks of.
pub proof fn lemma_idx_entry_is(es: Seq<IndexEntry>, k: Seq<char>, i: int)
    requires
        keys_unique(es),
        0 <= i < es.len(),
        es[i].key@ == k,
    ensures
        idx_has(es, k),
        idx_entry(es, k) == es[i],
{
    let j = choose|j: int| 0 <= j < es.len() && (#[trigger] es[j].key@) == k;
}

/// Replacing the entry of a key updates the map at that key alone.
pub proof fn lemma_idx_update(es: Seq<IndexEntry>, i: int, e: IndexEntry)
    requires
        keys_unique(es),
        0 <= i < es.len(),
        es[i].key@ == e.key@,
    ensures
        keys_unique(es.update(i, e)),
        idx_map(es.update(i, e)) == idx_map(es).insert(e.key@, e.value@),
{
    let es2 = es.update(i, e);
    assert forall|k: Seq<char>| true implies #[trigger] idx_has(es2, k) == idx_map(es).insert(
        e.key@,
        e.value@,
    ).dom().contains(k) by {
        if k == e.key@ {
            assert(es2[i].key@ == k);
        } else {
            if idx_has(es2, k) {
                let j = choose|j: int| 0 <= j < es2.len() && (#[trigger] es2[j].key@) == k;
                assert(es[j].key@ == k);
            }
            if idx_has(es, k) {
                let j = choose|j: int| 0 <= j < es.len() && (#[trigger] es[j].key@) == k;
                assert(es2[j].key@ == k);
            }
        }
    }
    assert forall|k: Seq<char>| idx_has(es2, k) implies idx_entry(es2, k).value@ == idx_map(
        es,
    ).insert(e.key@, e.value@)[k] by {
        let j = choose|j: int| 0 <= j < es2.len() && (#[trigger] es2[j].key@) == k;
        if k == e.key@ {
            assert(j == i);
            lemma_idx_entry_is(es2, k, i);
        } else {
            assert(j != i);
            assert(es[j].key@ == k);
            lemma_idx_entry_is(es, k, j);
            lemma_idx_entry_is(es2, k, j);
        }
    }
    assert(idx_map(es2) =~= idx_map(es).insert(e.key@, e.value@));
}

/// Adding an entry for a fresh key updates the map at that key alone.
pub proof fn lemma_idx_push(es: Seq<IndexEntry>, e: IndexEntry)
    requires
        keys_unique(es),
        !idx_has(es, e.key@),
    ensures
        keys_unique(es.push(e)),
        idx_map(es.push(e)) == idx_map(es).insert(e.key@, e.value@),
{
    let es2 = es.push(e);
    assert forall|i: int, j: int|
        0 <= i < es2.len() && 0 <= j < es2.len() && i != j implies #[trigger] es2[i].key@
        != #[trigger] es2[j].key@ by {
        if i < es.len() && j < es.len() {
        } else if i == es.len() {
            assert(es2[j].key@ == es[j].key@);
        } else {
            assert(es2[i].key@ == es[i].key@);
        }
    }
    assert forall|k: Seq<char>| true implies #[trigger] idx_has(es2, k) == idx_map(es).insert(
        e.key@,
        e.value@,
    ).dom().contains(k) by {
        if k == e.key@ {
            assert(es2[es.len() as int].key@ == k);
        } else {
            if idx_has(es2, k) {
                let j = choose|j: int| 0 <= j < es2.len() && (#[trigger] es2[j].key@) == k;
                assert(es[j].key@ == k);
            }
            if idx_has(es, k) {
                let j = choose|j: int| 0 <= j < es.len() && (#[trigger] es[j].key@) == k;
                assert(es2[j].key@ == k);
            }
        }
    }
    assert forall|k: Seq<char>| idx_has(es2, k) implies idx_entry(es2, k).value@ == idx_map(
        es,
    ).insert(e.key@, e.value@)[k] by {
        let j = choose|j: int| 0 <= j < es2.len() && (#[trigger] es2[j].key@) == k;
        if k == e.key@ {
            assert(j == es.len());
            lemma_idx_entry_is(es2, k, es.len() as int);
        } else {
            assert(j < es.len());
            assert(es[j].key@ == k);
            lemma_idx_entry_is(es, k, j);
            lemma_idx_entry_is(es2, k, j);
        }
    }
    assert(idx_map(es2) =~= idx_map(es).insert(e.key@, e.value@));
}

/// Removing a key's entry by swapping in the last entry removes exactly that
/// key from the map.
pub proof fn lemma_idx_swap_remove(es: Seq<IndexEntry>, i: int)
    requires
        keys_unique(es),
        0 <= i < es.len(),
    ensures
        keys_unique(es.update(i, es.last()).drop_last()),
        idx_map(es.update(i, es.last()).drop_last()) == idx_map(es).remove(es[i].key@),
{
    let k0 = es[i].key@;
    let es2 = es.update(i, es.last()).drop_last();
    assert forall|a: int, b: int|
        0 <= a < es2.len() && 0 <= b < es2.len() && a != b implies #[trigger] es2[a].key@
        != #[trigger] es2[b].key@ by {
        let oa: int = if a == i { es.len() - 1 } else { a };
        let ob: int = if b == i { es.len() - 1 } else { b };
        assert(es2[a].key@ == es[oa].key@);
        assert(es2[b].key@ == es[ob].key@);
    }
    assert forall|k: Seq<char>| true implies #[trigger] idx_has(es2, k) == idx_map(es).remove(
        k0,
    ).dom().contains(k) by {
        if idx_has(es2, k) {
            let j = choose|j: int| 0 <= j < es2.len() && (#[trigger] es2[j].key@) == k;
            let oj: int = if j == i { es.len() - 1 } else { j };
            assert(es[oj].key@ == k);
            assert(k != k0);
        }
        if idx_has(es, k) && k != k0 {
            let j = choose|j: int| 0 <= j < es.len() && (#[trigger] es[j].key@) == k;
            if j == es.len() - 1 {
                if j != i {
                    assert(es2[i].key@ == k);
                }
            } else {
                assert(es2[j].key@ == k);
            }
        }
    }
    assert forall|k: Seq<char>| idx_has(es2, k) implies idx_entry(es2, k).value@ == idx_map(
        es,
    ).remove(k0)[k] by {
        let j = choose|j: int| 0 <= j < es2.len() && (#[trigger] es2[j].key@) == k;
        let oj: int = if j == i { es.len() - 1 } else { j };
        assert(es2[j] == es[oj]);
        lemma_idx_entry_is(es, k, oj);
        lemma_idx_entry_is(es2, k, j);
    }
    assert(idx_map(es2) =~= idx_map(es).remove(k0));
}

/// One record applied to the key-to-value map: last writer wins, a removal
/// deletes.
pub open spec fn apply_rec(m: Map<Seq<char>, Seq<char>>, r: RecModel) -> Map<Seq<char>, Seq<char>> {
    match r {
        RecModel::SetRec { key, value } => m.insert(key, value),
        RecModel::RemoveRec { key } => m.remove(key),
    }
}

/// The key-to-value map after replaying the records in order.
pub open spec fn replay_recs(m: Map<Seq<char>, Seq<char>>, recs: Seq<RecModel>) -> Map<
    Seq<char>,
    Seq<char>,
>
    decreases recs.len(),
{
    if recs.len() == 0 {
        m
    } else {
        replay_recs(apply_rec(m, recs[0]), recs.drop_first())
    }
}

/// Replaying one more record applies it to the replayed map.
pub proof fn lemma_replay_push(m: Map<Seq<char>, Seq<char>>, recs: Seq<RecModel>, r: RecModel)
    ensures
        replay_recs(m, recs.push(r)) == apply_rec(replay_recs(m, recs), r),
    decreases recs.len(),
{
    if recs.len() == 0 {
        assert(recs.push(r).drop_first() =~= Seq::<RecModel>::empty());
        assert(recs.push(r)[0] == r);
        assert(replay_recs(apply_rec(m, r), Seq::<RecModel>::empty()) == apply_rec(m, r));
        assert(replay_recs(m, recs) == m);
    } else {
        assert(recs.push(r).drop_first() =~= recs.drop_first().push(r));
        assert(recs.push(r)[0] == recs[0]);
        lemma_replay_push(apply_rec(m, recs[0]), recs.drop_first(), r);
    }
}

/// The records of the sealed segments, in order.
pub open spec fn seg_recs_of(segs: Seq<Segment>) -> Seq<RecModel>
    decreases segs.len(),
{
    if segs.len() == 0 {
        Seq::empty()
    } else {
        segs[0].recs@ + seg_recs_of(segs.drop_first())
    }
}

/// Appending one segment appends its records.
pub proof fn lemma_seg_recs_push(segs: Seq<Segment>, s: Segment)
    ensures
        seg_recs_of(segs.push(s)) == seg_recs_of(segs) + s.recs@,
    decreases segs.len(),
{
    if segs.len() == 0 {
        assert(segs.push(s).drop_first() =~= Seq::<Segment>::empty());
        assert(seg_recs_of(Seq::<Segment>::empty()) == Seq::<RecModel>::empty());
        assert(segs.push(s)[0] == s);
        assert(seg_recs_of(segs.push(s)) == s.recs@ + Seq::<RecModel>::empty());
        assert(seg_recs_of(segs.push(s)) =~= seg_recs_of(segs) + s.recs@);
    } else {
        assert(segs.push(s).drop_first() =~= segs.drop_first().push(s));
        assert(segs.push(s)[0] == segs[0]);
        lemma_seg_recs_push(segs.drop_first(), s);
        assert(seg_recs_of(segs.push(s)) == segs[0].recs@ + (seg_recs_of(segs.drop_first())
            + s.recs@));
        assert(seg_recs_of(segs.push(s)) =~= seg_recs_of(segs) + s.recs@);
    }
}

/// The log bytes the index can still reach: the lengths of the live entries.
pub open spec fn live_bytes(es: Seq<IndexEntry>) -> int
    decreases es.len(),
{
    if es.len() == 0 {
        0
    } else {
        live_bytes(es.drop_last()) + es.last().pos.len
    }
}

/// The bytes of a sequence of segments.
pub open spec fn seg_bytes(segs: Seq<Segment>) -> int
    decreases segs.len(),
{
    if segs.len() == 0 {
        0
    } else {
        seg_bytes(segs.drop_last()) + segs.last().data@.len()
    }
}

/// A segment's bytes are exactly the encodings of its records.
pub open spec fn seg_wf(s: Segment) -> bool {
    &&& s.data@ == flat_encode(s.recs@)
    &&& recs_wf(s.recs@)
}

/// The position of the key's entry among the given entries, if any.
fn find_key(index: &Vec<IndexEntry>, key: &String) -> (r: Option<usize>)
    ensures
        match r {
            Some(i) => i < index@.len() && index@[i as int].key@ == key@,
            None => !idx_has(index@, key@),
        },
{
    let mut i: usize = 0;
    while i < index.len()
        invariant
            i <= index@.len(),
            forall|j: int| 0 <= j < i ==> (#[trigger] index@[j].key@) != key@,
        decreases index@.len() - i,
    {
        if index[i].key == *key {
            return Some(i);
        }
        i = i + 1;
    }
    None
}

/// The store, owning the segment bytes, the active writer, the index and the
/// dead-byte counter.
pub struct KvStore {
    /// Sealed segments, ascending by generation, all below `current_gen`.
    pub segments: Vec<Segment>,
    /// The positioned writer holding the active segment's bytes.
    pub writer: BufWriterWithPos,
    /// The records the active segment holds.
    pub active_recs: Ghost<Seq<RecModel>>,
    /// The active generation: the only one written to.
    pub current_gen: u64,
    /// Log bytes no longer reachable through the index.
    pub uncompacted: u64,
    /// The live keys and where their latest `Set` records lie.
    pub index: Vec<IndexEntry>,
}

/// A sealed segment of this generation exists.
pub open spec fn segs_has_gen(segs: Seq<Segment>, g: u64) -> bool {
    exists|i: int| 0 <= i < segs.len() && (#[trigger] segs[i].gen) == g
}

/// The sealed segment of this generation.
pub open spec fn segs_for(segs: Seq<Segment>, g: u64) -> Segment {
    segs[choose|i: int| 0 <= i < segs.len() && (#[trigger] segs[i].gen) == g]
}

/// The record an index entry points at.
pub open spec fn entry_rec(e: IndexEntry) -> RecModel {
    RecModel::SetRec { key: e.key@, value: e.value@ }
}

/// The entry's range lies within its generation's bytes — the active
/// segment's when its generation is `cur`, a sealed segment's otherwise —
/// and holds exactly the encoding of a `Set` record with the entry's key and
/// value.
pub open spec fn entry_ok_in(segs: Seq<Segment>, buf: Seq<u8>, cur: u64, e: IndexEntry) -> bool {
    &&& rec_wf(entry_rec(e))
    &&& if e.pos.gen == cur {
        &&& e.pos.pos + e.pos.len <= buf.len()
        &&& buf.subrange(e.pos.pos as int, e.pos.pos + e.pos.len) == spec_encode_rec(entry_rec(e))
    } else {
        &&& segs_has_gen(segs, e.pos.gen)
        &&& e.pos.pos + e.pos.len <= segs_for(segs, e.pos.gen).data@.len()
        &&& segs_for(segs, e.pos.gen).data@.subrange(e.pos.pos as int, e.pos.pos + e.pos.len)
            == spec_encode_rec(entry_rec(e))
    }
}

impl KvStore {
    /// A sealed segment holds this generation.
    pub open spec fn has_gen(self, g: u64) -> bool {
        segs_has_gen(self.segments@, g)
    }

    /// The entry's range is valid for this store's segments.
    pub open spec fn entry_ok(self, e: IndexEntry) -> bool {
        entry_ok_in(self.segments@, self.writer.buf@, self.current_gen, e)
    }

    /// Every record of the log, oldest segment first, active segment last.
    pub open spec fn all_recs(self) -> Seq<RecModel> {
        seg_recs_of(self.segments@) + self.active_recs@
    }

    /// The dead-byte counter after a mutation supersedes the key's entry:
    /// the superseded record's length joins the count, saturating.
    pub open spec fn dead_after(self, k: Seq<char>) -> u64 {
        let added: int = if idx_has(self.index@, k) {
            idx_entry(self.index@, k).pos.len as int
        } else {
            0
        };
        if self.uncompacted + added > u64::MAX {
            u64::MAX
        } else {
            (self.uncompacted + added) as u64
        }
    }

    /// The threshold rule: a mutation that leaves this many dead bytes
    /// triggers compaction before returning (as long as two fresh
    /// generations can still be numbered).
    pub open spec fn must_compact(self, dead: u64) -> bool {
        dead > COMPACTION_THRESHOLD && self.current_gen <= u64::MAX - 3
    }

    /// Every segment byte the store holds, sealed and active.
    pub open spec fn total_bytes(self) -> int {
        seg_bytes(self.segments@) + self.writer.buf@.len()
    }

    /// The observable state: each live key and its current value.
    pub open spec fn kv(self) -> Map<Seq<char>, Seq<char>> {
        idx_map(self.index@)
    }

    /// Well-formedness: the writer tracks the active bytes exactly, sealed
    /// generations ascend strictly below the active one, the index holds one
    /// entry per live key pointing at a range that decodes to that key's
    /// latest `Set`, and replaying the whole log reproduces the index.
    pub open spec fn wf(self) -> bool {
        &&& self.writer.wf()
        &&& self.writer.buf@ == flat_encode(self.active_recs@)
        &&& recs_wf(self.active_recs@)
        &&& forall|i: int| 0 <= i < self.segments@.len() ==> seg_wf(#[trigger] self.segments@[i])
        &&& forall|i: int, j: int|
            0 <= i < j < self.segments@.len() ==> (#[trigger] self.segments@[i].gen)
                < (#[trigger] self.segments@[j].gen)
        &&& forall|i: int|
            0 <= i < self.segments@.len() ==> (#[trigger] self.segments@[i].gen) < self.current_gen
        &&& 1 <= self.current_gen <= u64::MAX - 1
        &&& keys_unique(self.index@)
        &&& forall|i: int| 0 <= i < self.index@.len() ==> self.entry_ok(#[trigger] self.index@[i])
        &&& replay_recs(Map::empty(), self.all_recs()) == self.kv()
    }

    /// A fresh store over an empty directory: one empty active segment of
    /// generation one, an empty index, nothing dead.
    pub fn new() -> (s: KvStore)
        ensures
            s.wf(),
            s.kv() == Map::<Seq<char>, Seq<char>>::empty(),
            s.current_gen == 1,
    {
        let s = KvStore {
            segments: Vec::new(),
            writer: BufWriterWithPos::new(Vec::new()),
            active_recs: Ghost(Seq::empty()),
            current_gen: 1,
            uncompacted: 0,
            index: Vec::new(),
        };
        proof {
            assert(s.all_recs() =~= Seq::<RecModel>::empty());
            assert(s.kv() =~= Map::<Seq<char>, Seq<char>>::empty());
        }
        s
    }

    /// The position of the key's entry, if the key is live.
    fn find_entry(&self, key: &String) -> (r: Option<usize>)
        ensures
            match r {
                Some(i) => i < self.index@.len() && self.index@[i as int].key@ == key@,
                None => !idx_has(self.index@, key@),
            },
    {
        find_key(&self.index, key)
    }

    /// The position of the sealed segment of this generation, if it exists.
    fn find_segment(&self, g: u64) -> (r: Option<usize>)
        ensures
            match r {
                Some(i) => i < self.segments@.len() && self.segments@[i as int].gen == g,
                None => !self.has_gen(g),
            },
    {
        let mut i: usize = 0;
        while i < self.segments.len()
            invariant
                i <= self.segments@.len(),
                forall|j: int| 0 <= j < i ==> (#[trigger] self.segments@[j].gen) != g,
            decreases self.segments@.len() - i,
        {
            if self.segments[i].gen == g {
                return Some(i);
            }
            i = i + 1;
        }
        None
    }

    /// Sets a key to a value: appends a `Set` record to the active segment,
    /// makes it durable, and repoints the index; a superseded record's bytes
    /// become dead. Crossing the dead-byte threshold triggers compaction.
    pub fn set(&mut self, key: String, value: String)
        requires
            old(self).wf(),
        ensures
            final(self).wf(),
            final(self).kv() == old(self).kv().insert(key@, value@),
            old(self).must_compact(old(self).dead_after(key@)) ==> final(self).uncompacted == 0
                && final(self).current_gen == old(self).current_gen + 2,
            !old(self).must_compact(old(self).dead_after(key@)) ==> final(self).uncompacted
                == old(self).dead_after(key@) && final(self).current_gen == old(self).current_gen,
    {
        let ghost k = key@;
        let ghost v = value@;
        let cmd = Command::set(key, value);
        let rec_bytes = encode_command(&cmd);
        let ghost r = rec_model(cmd);
        let start: u64 = self.writer.pos;
        self.writer.write(rec_bytes.as_slice());
        self.writer.flush();
        proof {
            lemma_flat_encode_push(self.active_recs@, r);
        }
        self.active_recs = Ghost(self.active_recs@.push(r));
        let len64: u64 = rec_bytes.len() as u64;
        let cpos = CommandPos { gen: self.current_gen, pos: start, len: len64 };
        match cmd {
            Command::SetCmd { key: key_back, value: _value_back } => {
                let found = self.find_entry(&key_back);
                let entry = IndexEntry { key: key_back, pos: cpos, value: Ghost(v) };
                proof {
                    assert(self.writer.buf@.subrange(start as int, start as int + len64 as int)
                        =~= spec_encode_rec(r));
                    assert(entry_rec(entry) == r);
                    assert(self.entry_ok(entry));
                }
                match found {
                    Some(i) => {
                        let old_len = self.index[i].pos.len;
                        proof {
                            lemma_idx_entry_is(old(self).index@, k, i as int);
                        }
                        self.uncompacted = match self.uncompacted.checked_add(old_len) {
                            Some(x) => x,
                            None => u64::MAX,
                        };
                        proof {
                            lemma_idx_update(self.index@, i as int, entry);
                        }
                        self.index.set(i, entry);
                    },
                    None => {
                        proof {
                            lemma_idx_push(self.index@, entry);
                        }
                        self.index.push(entry);
                    },
                }
                proof {
                    assert forall|j: int| 0 <= j < self.index@.len() implies self.entry_ok(
                        #[trigger] self.index@[j],
                    ) by {
                        if self.index@[j] != entry {
                            assert(self.index@[j] == old(self).index@[j]);
                            assert(old(self).entry_ok(old(self).index@[j]));
                            assert(self.writer.buf@.subrange(
                                0,
                                old(self).writer.buf@.len() as int,
                            ) =~= old(self).writer.buf@);
                            Self::lemma_entry_still_ok(*old(self), *self, old(self).index@[j]);
                        }
                    }
                    self.lemma_after_append(*old(self), r);
                }
            },
            _ => {
                proof {
                    assert(false);
                }
            },
        }
        if self.uncompacted > COMPACTION_THRESHOLD && self.current_gen <= u64::MAX - 3 {
            self.compact();
        }
    }

    /// An entry that was valid stays valid when the active segment grows and
    /// nothing else changes.
    proof fn lemma_entry_still_ok(pre: KvStore, post: KvStore, e: IndexEntry)
        requires
            pre.entry_ok(e),
            post.segments == pre.segments,
            post.current_gen == pre.current_gen,
            pre.writer.buf@.len() <= post.writer.buf@.len(),
            post.writer.buf@.subrange(0, pre.writer.buf@.len() as int) == pre.writer.buf@,
        ensures
            post.entry_ok(e),
    {
        if e.pos.gen == pre.current_gen {
            let p = e.pos.pos as int;
            let q = e.pos.pos + e.pos.len;
            assert(post.writer.buf@.subrange(p, q) =~= pre.writer.buf@.subrange(p, q)) by {
                assert forall|x: int| 0 <= x < q - p implies #[trigger] post.writer.buf@.subrange(
                    p,
                    q,
                )[x] == pre.writer.buf@.subrange(p, q)[x] by {
                    assert(post.writer.buf@[p + x] == post.writer.buf@.subrange(
                        0,
                        pre.writer.buf@.len() as int,
                    )[p + x]);
                }
            }
        }
    }

    /// Among segments with strictly ascending generations, the segment at a
    /// position is the one its generation selects.
    proof fn lemma_segs_for_at(segs: Seq<Segment>, si: int)
        requires
            forall|i: int, j: int|
                0 <= i < j < segs.len() ==> (#[trigger] segs[i].gen) < (#[trigger] segs[j].gen),
            0 <= si < segs.len(),
        ensures
            segs_has_gen(segs, segs[si].gen),
            segs_for(segs, segs[si].gen) == segs[si],
    {
        let g = segs[si].gen;
        assert(segs_has_gen(segs, g)) by {
            assert(0 <= si < segs.len() && (#[trigger] segs[si].gen) == g);
        }
        let j = choose|i: int| 0 <= i < segs.len() && (#[trigger] segs[i].gen) == g;
        if j < si {
            assert(segs[j].gen < segs[si].gen);
        } else if j > si {
            assert(segs[si].gen < segs[j].gen);
        }
    }

    /// A pure lookup against the index: reads the indexed byte range from its
    /// generation's segment, decodes it, and returns the held value. Never
    /// appends to the log, never touches the dead-byte accounting.
    pub fn get(&mut self, key: String) -> (r: Result<Option<String>, KvsError>)
        requires
            old(self).wf(),
        ensures
            *final(self) == *old(self),
            match r {
                Ok(Some(v)) => old(self).kv().contains_key(key@) && v@ == old(self).kv()[key@],
                Ok(None) => !old(self).kv().contains_key(key@),
                Err(_) => false,
            },
    {
        let found = self.find_entry(&key);
        match found {
            None => Ok(None),
            Some(i) => {
                let cpos: CommandPos = self.index[i].pos;
                let ghost e = self.index@[i as int];
                proof {
                    assert(self.entry_ok(e));
                    lemma_idx_entry_is(self.index@, key@, i as int);
                }
                let bytes: Vec<u8> = if cpos.gen == self.current_gen {
                    read_at(&self.writer.buf, cpos.pos, cpos.len)
                } else {
                    match self.find_segment(cpos.gen) {
                        Some(si) => {
                            proof {
                                Self::lemma_segs_for_at(self.segments@, si as int);
                            }
                            read_at(&self.segments[si].data, cpos.pos, cpos.len)
                        },
                        None => {
                            proof {
                                assert(false);
                            }
                            return Err(KvsError::UnexpectedCommandType);
                        },
                    }
                };
                proof {
                    assert(bytes@.subrange(0, bytes@.len() as int) =~= bytes@);
                    lemma_decode_rec_of_encode(bytes@, 0, entry_rec(e));
                }
                match decode_command(&bytes, 0) {
                    DecodeStep::RecordDone { cmd, end: _end } => match cmd {
                        Command::SetCmd { key: _key_back, value } => Ok(Some(value)),
                        _ => Err(KvsError::UnexpectedCommandType),
                    },
                    _ => Err(KvsError::CorruptRecord),
                }
            },
        }
    }

    /// Removes a key. An absent key is an error, distinct from a no-op: the
    /// caller asked to delete something that is not there. Otherwise appends
    /// a `Remove` record, makes it durable, deletes the index entry, and
    /// counts the superseded record's bytes as dead. Crossing the dead-byte
    /// threshold triggers compaction.
    pub fn del(&mut self, key: String) -> (r: Result<(), KvsError>)
        requires
            old(self).wf(),
        ensures
            final(self).wf(),
            match r {
                Ok(()) => old(self).kv().contains_key(key@) && final(self).kv() == old(
                    self,
                ).kv().remove(key@),
                Err(e) => e == KvsError::KeyNotFound && !old(self).kv().contains_key(key@)
                    && *final(self) == *old(self),
            },
            r is Ok && old(self).must_compact(old(self).dead_after(key@)) ==> final(self).uncompacted
                == 0 && final(self).current_gen == old(self).current_gen + 2,
            r is Ok && !old(self).must_compact(old(self).dead_after(key@)) ==> final(self).uncompacted
                == old(self).dead_after(key@) && final(self).current_gen == old(self).current_gen,
    {
        let ghost k = key@;
        let found = self.find_entry(&key);
        match found {
            None => Err(KvsError::KeyNotFound),
            Some(i) => {
                let cmd = Command::del(key);
                let rec_bytes = encode_command(&cmd);
                let ghost r = rec_model(cmd);
                self.writer.write(rec_bytes.as_slice());
                self.writer.flush();
                proof {
                    lemma_flat_encode_push(self.active_recs@, r);
                }
                self.active_recs = Ghost(self.active_recs@.push(r));
                let old_len = self.index[i].pos.len;
                proof {
                    lemma_idx_entry_is(old(self).index@, k, i as int);
                }
                self.uncompacted = match self.uncompacted.checked_add(old_len) {
                    Some(x) => x,
                    None => u64::MAX,
                };
                proof {
                    lemma_idx_swap_remove(self.index@, i as int);
                }
                let _removed = self.index.swap_remove(i);
                proof {
                    assert forall|j: int| 0 <= j < self.index@.len() implies self.entry_ok(
                        #[trigger] self.index@[j],
                    ) by {
                        let oj: int = if j == i as int { old(self).index@.len() - 1 } else { j };
                        assert(self.index@[j] == old(self).index@[oj]);
                        assert(old(self).entry_ok(old(self).index@[oj]));
                        assert(self.writer.buf@.subrange(0, old(self).writer.buf@.len() as int)
                            =~= old(self).writer.buf@);
                        Self::lemma_entry_still_ok(*old(self), *self, old(self).index@[oj]);
                    }
                    self.lemma_after_append(*old(self), r);
                }
                if self.uncompacted > COMPACTION_THRESHOLD && self.current_gen <= u64::MAX - 3 {
                    self.compact();
                }
                Ok(())
            },
        }
    }

    /// Two index sequences that agree on keys and values pointwise describe
    /// the same map.
    proof fn lemma_idx_map_pointwise(es1: Seq<IndexEntry>, es2: Seq<IndexEntry>)
        requires
            es1.len() == es2.len(),
            keys_unique(es1),
            forall|j: int| 0 <= j < es1.len() ==> (#[trigger] es2[j].key@) == es1[j].key@,
            forall|j: int| 0 <= j < es1.len() ==> (#[trigger] es2[j].value@) == es1[j].value@,
        ensures
            keys_unique(es2),
            idx_map(es2) == idx_map(es1),
    {
        assert forall|a: int, b: int|
            0 <= a < es2.len() && 0 <= b < es2.len() && a != b implies #[trigger] es2[a].key@
            != #[trigger] es2[b].key@ by {
            assert(es1[a].key@ != es1[b].key@);
        }
        assert forall|k: Seq<char>| true implies #[trigger] idx_has(es2, k) == idx_has(es1, k) by {
            if idx_has(es2, k) {
                let j = choose|j: int| 0 <= j < es2.len() && (#[trigger] es2[j].key@) == k;
                assert(es1[j].key@ == k);
            }
            if idx_has(es1, k) {
                let j = choose|j: int| 0 <= j < es1.len() && (#[trigger] es1[j].key@) == k;
                assert(es2[j].key@ == k);
            }
        }
        assert forall|k: Seq<char>| idx_has(es2, k) implies idx_entry(es2, k).value@ == idx_entry(
            es1,
            k,
        ).value@ by {
            let j = choose|j: int| 0 <= j < es2.len() && (#[trigger] es2[j].key@) == k;
            assert(es1[j].key@ == k);
            lemma_idx_entry_is(es2, k, j);
            lemma_idx_entry_is(es1, k, j);
        }
        assert(idx_map(es2) =~= idx_map(es1));
    }

    /// Compaction: rewrites only the live records, in index order, into a
    /// fresh segment one generation above the current one, repoints the
    /// index, opens an empty active segment two generations above for writes
    /// going forward, retires every older segment, and resets the dead-byte
    /// counter. The observable state is unchanged.
    pub fn compact(&mut self)
        requires
            old(self).wf(),
            old(self).current_gen <= u64::MAX - 3,
        ensures
            final(self).wf(),
            final(self).kv() == old(self).kv(),
            final(self).uncompacted == 0,
            final(self).current_gen == old(self).current_gen + 2,
            final(self).total_bytes() == live_bytes(old(self).index@),
    {
        let compaction_gen: u64 = self.current_gen + 1;
        let mut new_data: Vec<u8> = Vec::new();
        let mut new_index: Vec<IndexEntry> = Vec::new();
        let ghost mut new_recs: Seq<RecModel> = Seq::empty();
        proof {
            assert(flat_encode(Seq::<RecModel>::empty()) == Seq::<u8>::empty());
            assert(self.index@.take(0) =~= Seq::<IndexEntry>::empty());
            assert(idx_map(Seq::<IndexEntry>::empty()) =~= Map::<Seq<char>, Seq<char>>::empty());
            assert(live_bytes(Seq::<IndexEntry>::empty()) == 0);
        }
        let mut i: usize = 0;
        while i < self.index.len()
            invariant
                *self == *old(self),
                old(self).wf(),
                compaction_gen == self.current_gen + 1,
                i <= self.index@.len(),
                new_index@.len() == i as int,
                new_recs.len() == i as int,
                recs_wf(new_recs),
                new_data@ == flat_encode(new_recs),
                forall|j: int|
                    0 <= j < i ==> (#[trigger] new_index@[j].key@) == self.index@[j].key@,
                forall|j: int|
                    0 <= j < i ==> (#[trigger] new_index@[j].value@) == self.index@[j].value@,
                forall|j: int|
                    0 <= j < i ==> {
                        let e = #[trigger] new_index@[j];
                        &&& e.pos.gen == compaction_gen
                        &&& e.pos.pos + e.pos.len <= new_data@.len()
                        &&& new_data@.subrange(e.pos.pos as int, e.pos.pos + e.pos.len)
                            == spec_encode_rec(entry_rec(e))
                        &&& rec_wf(entry_rec(e))
                    },
                replay_recs(Map::empty(), new_recs) == idx_map(self.index@.take(i as int)),
                new_data@.len() == live_bytes(self.index@.take(i as int)),
            decreases self.index@.len() - i,
        {
            let cpos: CommandPos = self.index[i].pos;
            let ghost e = self.index@[i as int];
            proof {
                assert(self.entry_ok(e));
            }
            let bytes: Vec<u8> = if cpos.gen == self.current_gen {
                read_at(&self.writer.buf, cpos.pos, cpos.len)
            } else {
                match self.find_segment(cpos.gen) {
                    Some(si) => {
                        proof {
                            Self::lemma_segs_for_at(self.segments@, si as int);
                        }
                        read_at(&self.segments[si].data, cpos.pos, cpos.len)
                    },
                    None => {
                        proof {
                            assert(false);
                        }
                        return ;
                    },
                }
            };
            let start_u: usize = new_data.len();
            let key_copy: String = self.index[i].key.clone();
            let ghost nd_before = new_data@;
            append_bytes(&mut new_data, bytes.as_slice());
            let new_entry = IndexEntry {
                key: key_copy,
                pos: CommandPos { gen: compaction_gen, pos: start_u as u64, len: cpos.len },
                value: Ghost(e.value@),
            };
            proof {
                assert(entry_rec(new_entry) == entry_rec(e));
                lemma_flat_encode_push(new_recs, entry_rec(e));
                assert(new_data@.subrange(start_u as int, start_u + cpos.len as int)
                    =~= spec_encode_rec(entry_rec(e)));
                assert forall|j: int| 0 <= j < i implies {
                    let e2 = #[trigger] new_index@[j];
                    new_data@.subrange(e2.pos.pos as int, e2.pos.pos + e2.pos.len)
                        == spec_encode_rec(entry_rec(e2))
                } by {
                    let e2 = new_index@[j];
                    assert(new_data@.subrange(e2.pos.pos as int, e2.pos.pos + e2.pos.len)
                        =~= nd_before.subrange(e2.pos.pos as int, e2.pos.pos + e2.pos.len));
                }
                assert(keys_unique(self.index@.take(i as int))) by {
                    assert forall|a: int, b: int|
                        0 <= a < i && 0 <= b < i && a != b implies #[trigger] self.index@.take(
                        i as int,
                    )[a].key@ != #[trigger] self.index@.take(i as int)[b].key@ by {
                        assert(self.index@[a].key@ != self.index@[b].key@);
                    }
                }
                assert(!idx_has(self.index@.take(i as int), e.key@)) by {
                    if idx_has(self.index@.take(i as int), e.key@) {
                        let j = choose|j: int|
                            0 <= j < i && (#[trigger] self.index@.take(i as int)[j].key@)
                                == e.key@;
                        assert(self.index@[j].key@ == self.index@[i as int].key@);
                    }
                }
                lemma_idx_push(self.index@.take(i as int), self.index@[i as int]);
                assert(self.index@.take(i as int).push(self.index@[i as int]) =~= self.index@.take(
                    i as int + 1,
                ));
                lemma_replay_push(Map::empty(), new_recs, entry_rec(e));
                assert(idx_entry(self.index@.take(i as int + 1), e.key@).value@ == e.value@) by {
                    lemma_idx_entry_is(self.index@.take(i as int + 1), e.key@, i as int);
                }
                assert(self.index@.take(i as int + 1).drop_last() =~= self.index@.take(i as int));
                assert(live_bytes(self.index@.take(i as int + 1)) == live_bytes(self.index@.take(
                    i as int,
                )) + e.pos.len);
            }
            new_index.push(new_entry);
            proof {
                new_recs = new_recs.push(entry_rec(e));
            }
            i = i + 1;
        }
        proof {
            assert(self.index@.take(self.index@.len() as int) =~= self.index@);
            Self::lemma_idx_map_pointwise(self.index@, new_index@);
        }
        let new_seg = Segment { gen: compaction_gen, data: new_data, recs: Ghost(new_recs) };
        let mut segs: Vec<Segment> = Vec::new();
        segs.push(new_seg);
        self.segments = segs;
        self.writer = BufWriterWithPos::new(Vec::new());
        self.active_recs = Ghost(Seq::empty());
        self.current_gen = self.current_gen + 2;
        self.uncompacted = 0;
        self.index = new_index;
        proof {
            assert(flat_encode(Seq::<RecModel>::empty()) == Seq::<u8>::empty());
            assert(seg_recs_of(self.segments@) =~= new_recs) by {
                assert(self.segments@[0].recs@ == new_recs);
                assert(self.segments@.drop_first() =~= Seq::<Segment>::empty());
                assert(seg_recs_of(Seq::<Segment>::empty()) == Seq::<RecModel>::empty());
            }
            assert(self.all_recs() =~= new_recs);
            assert(seg_bytes(self.segments@) == new_seg.data@.len()) by {
                assert(self.segments@.drop_last() =~= Seq::<Segment>::empty());
                assert(seg_bytes(Seq::<Segment>::empty()) == 0);
                assert(self.segments@.last() == new_seg);
            }
            assert forall|j: int| 0 <= j < self.index@.len() implies self.entry_ok(
                #[trigger] self.index@[j],
            ) by {
                let e = self.index@[j];
                Self::lemma_segs_for_at(self.segments@, 0);
                assert(segs_for(self.segments@, e.pos.gen) == self.segments@[0]);
            }
        }
    }

    /// After appending one record and repointing the index accordingly, the
    /// store is well formed again and its map gained exactly that record's
    /// effect.
    proof fn lemma_after_append(self, pre: KvStore, r: RecModel)
        requires
            pre.wf(),
            rec_wf(r),
            self.segments == pre.segments,
            self.current_gen == pre.current_gen,
            self.writer.wf(),
            self.writer.buf@ == pre.writer.buf@ + spec_encode_rec(r),
            self.active_recs@ == pre.active_recs@.push(r),
            self.writer.buf@ == flat_encode(self.active_recs@),
            keys_unique(self.index@),
            forall|i: int| 0 <= i < self.index@.len() ==> self.entry_ok(#[trigger] self.index@[i]),
            idx_map(self.index@) == apply_rec(pre.kv(), r),
        ensures
            self.wf(),
            self.kv() == apply_rec(pre.kv(), r),
    {
        assert(recs_wf(self.active_recs@)) by {
            assert forall|i: int| 0 <= i < self.active_recs@.len() implies rec_wf(
                #[trigger] self.active_recs@[i],
            ) by {
                if i < pre.active_recs@.len() {
                    assert(self.active_recs@[i] == pre.active_recs@[i]);
                } else {
                    assert(self.active_recs@[i] == r);
                }
            }
        }
        assert(self.all_recs() =~= pre.all_recs().push(r));
        lemma_replay_push(Map::empty(), pre.all_recs(), r);
    }
}

} // verus!

verus! {

/// The files recovery reads: each generation with its segment bytes.
pub open spec fn files_view(files: Seq<(u64, Vec<u8>)>) -> Seq<(u64, Seq<u8>)> {
    files.map_values(|p: (u64, Vec<u8>)| (p.0, p.1@))
}

/// The records of all files in order: `None` as soon as one file holds bytes
/// that are not a record, other than a cleanly truncated tail.
pub open spec fn parse_files(files: Seq<(u64, Seq<u8>)>) -> Option<Seq<RecModel>>
    decreases files.len(),
{
    if files.len() == 0 {
        Some(Seq::empty())
    } else {
        match (spec_parse_log(files[0].1, 0), parse_files(files.drop_first())) {
            (Some(first), Some(rest)) => Some(first + rest),
            _ => None,
        }
    }
}

/// The observable state that recovering from the files yields: every record
/// replayed in order, oldest generation first.
pub open spec fn spec_recover(files: Seq<(u64, Seq<u8>)>) -> Option<Map<Seq<char>, Seq<char>>> {
    match parse_files(files) {
        Some(recs) => Some(replay_recs(Map::empty(), recs)),
        None => None,
    }
}

/// An index entry that points into one of the given sealed segments.
pub open spec fn entry_ok_rec(segs: Seq<Segment>, e: IndexEntry) -> bool {
    &&& rec_wf(entry_rec(e))
    &&& segs_has_gen(segs, e.pos.gen)
    &&& e.pos.pos + e.pos.len <= segs_for(segs, e.pos.gen).data@.len()
    &&& segs_for(segs, e.pos.gen).data@.subrange(e.pos.pos as int, e.pos.pos + e.pos.len)
        == spec_encode_rec(entry_rec(e))
}

/// Strictly ascending generations.
pub open spec fn segs_sorted(segs: Seq<Segment>) -> bool {
    forall|i: int, j: int|
        0 <= i < j < segs.len() ==> (#[trigger] segs[i].gen) < (#[trigger] segs[j].gen)
}

/// An entry that points into a sealed segment still does after one more
/// segment with a higher generation is added.
proof fn lemma_entry_ok_rec_push(segs: Seq<Segment>, s: Segment, e: IndexEntry)
    requires
        segs_sorted(segs),
        forall|i: int| 0 <= i < segs.len() ==> (#[trigger] segs[i].gen) < s.gen,
        entry_ok_rec(segs, e),
    ensures
        entry_ok_rec(segs.push(s), e),
{
    let g = e.pos.gen;
    let j = choose|i: int| 0 <= i < segs.len() && (#[trigger] segs[i].gen) == g;
    assert(segs_sorted(segs.push(s))) by {
        assert forall|a: int, b: int|
            0 <= a < b < segs.push(s).len() implies (#[trigger] segs.push(s)[a].gen)
            < (#[trigger] segs.push(s)[b].gen) by {
            if b < segs.len() {
                assert(segs[a].gen < segs[b].gen);
            } else {
                assert(segs.push(s)[a].gen == segs[a].gen);
            }
        }
    }
    assert(segs.push(s)[j] == segs[j]);
    KvStore::lemma_segs_for_at(segs.push(s), j);
}

impl KvStore {
    /// Recovery: replays the given files, sorted ascending by generation, to
    /// rebuild the index, the dead-byte counter and the reader state, and
    /// opens a fresh writer one generation past the highest seen. Bytes that
    /// are not a record fail recovery, except a cleanly truncated tail, which
    /// marks the end of its segment. The store never resumes writing into a
    /// possibly-partial prior segment.
    pub fn open(files: &Vec<(u64, Vec<u8>)>) -> (r: Result<KvStore, KvsError>)
        requires
            forall|i: int, j: int|
                0 <= i < j < files@.len() ==> (#[trigger] files@[i].0) < (#[trigger] files@[j].0),
            files@.len() > 0 ==> files@[files@.len() - 1].0 <= u64::MAX - 2,
        ensures
            match r {
                Ok(s) => {
                    &&& s.wf()
                    &&& Some(s.kv()) == spec_recover(files_view(files@))
                    &&& s.current_gen == if files@.len() == 0 {
                        1u64
                    } else {
                        (files@[files@.len() - 1].0 + 1) as u64
                    }
                    &&& s.writer.buf@.len() == 0
                },
                Err(e) => e == KvsError::CorruptRecord && spec_recover(files_view(files@))
                    is None,
            },
    {
        let ghost fview = files_view(files@);
        let mut segments: Vec<Segment> = Vec::new();
        let mut index: Vec<IndexEntry> = Vec::new();
        let mut uncompacted: u64 = 0;
        let mut fi: usize = 0;
        proof {
            assert(seg_recs_of(segments@) == Seq::<RecModel>::empty());
            assert(idx_map(index@) =~= Map::<Seq<char>, Seq<char>>::empty());
            assert(fview.skip(0) =~= fview);
        }
        while fi < files.len()
            invariant
                forall|i: int, j: int|
                    0 <= i < j < files@.len() ==> (#[trigger] files@[i].0) < (
                    #[trigger] files@[j].0),
                fview == files_view(files@),
                fi <= files@.len(),
                segments@.len() == fi as int,
                forall|j: int| 0 <= j < fi ==> (#[trigger] segments@[j].gen) == files@[j].0,
                forall|j: int| 0 <= j < fi ==> seg_wf(#[trigger] segments@[j]),
                keys_unique(index@),
                forall|j: int|
                    0 <= j < index@.len() ==> entry_ok_rec(segments@, #[trigger] index@[j]),
                replay_recs(Map::empty(), seg_recs_of(segments@)) == idx_map(index@),
                parse_files(fview) == (match parse_files(fview.skip(fi as int)) {
                    Some(rest) => Some(seg_recs_of(segments@) + rest),
                    None => None::<Seq<RecModel>>,
                }),
            decreases files@.len() - fi,
        {
            let gen_i: u64 = files[fi].0;
            let mut data: Vec<u8> = vstd::slice::slice_to_vec(files[fi].1.as_slice());
            let ghost mut recs_i: Seq<RecModel> = Seq::empty();
            let mut pos: usize = 0;
            proof {
                assert(flat_encode(Seq::<RecModel>::empty()) == Seq::<u8>::empty());
                assert(data@.subrange(0, 0) =~= Seq::<u8>::empty());
            }
            loop
                invariant
                    data@ == fview[fi as int].1,
                    fi < files@.len(),
                    fview == files_view(files@),
                    gen_i == files@[fi as int].0,
                    pos <= data@.len(),
                    recs_wf(recs_i),
                    flat_encode(recs_i) == data@.subrange(0, pos as int),
                    spec_parse_log(data@, 0) == (match spec_parse_log(data@, pos as int) {
                        Some(rest) => Some(recs_i + rest),
                        None => None::<Seq<RecModel>>,
                    }),
                    segments@.len() == fi as int,
                    forall|j: int| 0 <= j < fi ==> (#[trigger] segments@[j].gen) == files@[j].0,
                    forall|j: int| 0 <= j < fi ==> seg_wf(#[trigger] segments@[j]),
                    keys_unique(index@),
                    forall|j: int|
                        0 <= j < index@.len() ==> entry_ok_rec(segments@, #[trigger] index@[j]) || {
                            let e = #[trigger] index@[j];
                            &&& e.pos.gen == gen_i
                            &&& e.pos.pos + e.pos.len <= pos as int
                            &&& data@.subrange(e.pos.pos as int, e.pos.pos + e.pos.len)
                                == spec_encode_rec(entry_rec(e))
                            &&& rec_wf(entry_rec(e))
                        },
                    replay_recs(Map::empty(), seg_recs_of(segments@) + recs_i) == idx_map(index@),
                    parse_files(fview) == (match parse_files(fview.skip(fi as int)) {
                        Some(rest) => Some(seg_recs_of(segments@) + rest),
                        None => None::<Seq<RecModel>>,
                    }),
                ensures
                    pos <= data@.len(),
                    recs_wf(recs_i),
                    flat_encode(recs_i) == data@.subrange(0, pos as int),
                    spec_parse_log(data@, 0) == Some(recs_i),
                    keys_unique(index@),
                    forall|j: int|
                        0 <= j < index@.len() ==> entry_ok_rec(segments@, #[trigger] index@[j]) || {
                            let e = #[trigger] index@[j];
                            &&& e.pos.gen == gen_i
                            &&& e.pos.pos + e.pos.len <= pos as int
                            &&& data@.subrange(e.pos.pos as int, e.pos.pos + e.pos.len)
                                == spec_encode_rec(entry_rec(e))
                            &&& rec_wf(entry_rec(e))
                        },
                    replay_recs(Map::empty(), seg_recs_of(segments@) + recs_i) == idx_map(index@),
                    segments@.len() == fi as int,
                    forall|j: int| 0 <= j < fi ==> (#[trigger] segments@[j].gen) == files@[j].0,
                    forall|j: int| 0 <= j < fi ==> seg_wf(#[trigger] segments@[j]),
                decreases data@.len() - pos,
            {
                let step = decode_command(&data, pos);
                match step {
                    DecodeStep::LogEnd => {
                        break ;
                    },
                    DecodeStep::TruncatedTail => {
                        break ;
                    },
                    DecodeStep::MalformedRecord => {
                        proof {
                            assert(spec_parse_log(data@, pos as int) is None);
                            assert(spec_parse_log(data@, 0) is None);
                            assert(fview.skip(fi as int)[0] == fview[fi as int]);
                            assert(fview.skip(fi as int).drop_first() =~= fview.skip(fi as int + 1));
                            assert(fview.skip(fi as int).len() > 0);
                            assert(parse_files(fview.skip(fi as int)) is None);
                            assert(parse_files(fview) is None);
                        }
                        return Err(KvsError::CorruptRecord);
                    },
                    DecodeStep::RecordDone { cmd, end } => {
                        let ghost r = rec_model(cmd);
                        proof {
                            lemma_decode_rec_inverts(data@, pos as int, r, end as int);
                            lemma_flat_encode_push(recs_i, r);
                            assert(data@.subrange(0, end as int) =~= data@.subrange(0, pos as int)
                                + data@.subrange(pos as int, end as int));
                            assert(spec_parse_log(data@, pos as int) == (
                            match spec_parse_log(data@, end as int) {
                                Some(rest) => Some(seq![r] + rest),
                                None => None::<Seq<RecModel>>,
                            }));
                            if spec_parse_log(data@, end as int) is Some {
                                let rest = spec_parse_log(data@, end as int).unwrap();
                                assert(recs_i + (seq![r] + rest) =~= recs_i.push(r) + rest);
                            }
                            assert forall|j: int| 0 <= j < recs_i.push(r).len() implies rec_wf(
                                #[trigger] recs_i.push(r)[j],
                            ) by {
                                if j < recs_i.len() {
                                    assert(recs_i.push(r)[j] == recs_i[j]);
                                }
                            }
                        }
                        match cmd {
                            Command::SetCmd { key, value } => {
                                let ghost vv = value@;
                                let found = find_key(&index, &key);
                                let entry = IndexEntry {
                                    key,
                                    pos: CommandPos {
                                        gen: gen_i,
                                        pos: pos as u64,
                                        len: (end - pos) as u64,
                                    },
                                    value: Ghost(vv),
                                };
                                proof {
                                    assert(entry_rec(entry) == r);
                                }
                                match found {
                                    Some(i) => {
                                        let old_len = index[i].pos.len;
                                        uncompacted = match uncompacted.checked_add(old_len) {
                                            Some(x) => x,
                                            None => u64::MAX,
                                        };
                                        proof {
                                            lemma_idx_update(index@, i as int, entry);
                                        }
                                        index.set(i, entry);
                                    },
                                    None => {
                                        proof {
                                            lemma_idx_push(index@, entry);
                                        }
                                        index.push(entry);
                                    },
                                }
                                proof {
                                    lemma_replay_push(
                                        Map::empty(),
                                        seg_recs_of(segments@) + recs_i,
                                        r,
                                    );
                                    assert((seg_recs_of(segments@) + recs_i).push(r)
                                        =~= seg_recs_of(segments@) + recs_i.push(r));
                                }
                            },
                            Command::RemoveCmd { key } => {
                                let found = find_key(&index, &key);
                                match found {
                                    Some(i) => {
                                        let old_len = index[i].pos.len;
                                        uncompacted = match uncompacted.checked_add(old_len) {
                                            Some(x) => x,
                                            None => u64::MAX,
                                        };
                                        proof {
                                            lemma_idx_swap_remove(index@, i as int);
                                        }
                                        let _removed = index.swap_remove(i);
                                    },
                                    None => {
                                        proof {
                                            assert(idx_map(index@) =~= idx_map(index@).remove(
                                                key@,
                                            ));
                                        }
                                    },
                                }
                                proof {
                                    lemma_replay_push(
                                        Map::empty(),
                                        seg_recs_of(segments@) + recs_i,
                                        r,
                                    );
                                    assert((seg_recs_of(segments@) + recs_i).push(r)
                                        =~= seg_recs_of(segments@) + recs_i.push(r));
                                }
                            },
                            Command::GetCmd { .. } => {
                                proof {
                                    assert(false);
                                }
                            },
                        }
                        proof {
                            recs_i = recs_i.push(r);
                        }
                        pos = end;
                    },
                }
            }
            data.truncate(pos);
            proof {
                assert(data@ =~= flat_encode(recs_i));
            }
            let seg = Segment { gen: gen_i, data, recs: Ghost(recs_i) };
            proof {
                assert(segs_sorted(segments@)) by {
                    assert forall|a: int, b: int|
                        0 <= a < b < segments@.len() implies (#[trigger] segments@[a].gen)
                        < (#[trigger] segments@[b].gen) by {
                        assert(files@[a].0 < files@[b].0);
                    }
                }
                assert forall|j: int| 0 <= j < segments@.len() implies (#[trigger] segments@[j].gen)
                    < seg.gen by {
                    assert(files@[j].0 < files@[fi as int].0);
                }
                lemma_seg_recs_push(segments@, seg);
                assert(seg_wf(seg));
            }
            let ghost segs_before = segments@;
            segments.push(seg);
            proof {
                assert forall|j: int| 0 <= j < index@.len() implies entry_ok_rec(
                    segments@,
                    #[trigger] index@[j],
                ) by {
                    let e = index@[j];
                    if entry_ok_rec(segs_before, e) {
                        lemma_entry_ok_rec_push(segs_before, seg, e);
                    } else {
                        assert(e.pos.gen == seg.gen);
                        assert(seg.data@.subrange(e.pos.pos as int, e.pos.pos + e.pos.len)
                            =~= fview[fi as int].1.subrange(e.pos.pos as int, e.pos.pos
                            + e.pos.len));
                        assert(segs_sorted(segments@)) by {
                            assert forall|a: int, b: int|
                                0 <= a < b < segments@.len() implies (#[trigger] segments@[a].gen)
                                < (#[trigger] segments@[b].gen) by {
                                if b < segments@.len() - 1 {
                                    assert(files@[a].0 < files@[b].0);
                                } else {
                                    assert(segments@[a] == segs_before[a]);
                                }
                            }
                        }
                        Self::lemma_segs_for_at(segments@, segments@.len() - 1);
                    }
                }
                assert(fview.skip(fi as int)[0] == fview[fi as int]);
                assert(fview.skip(fi as int).drop_first() =~= fview.skip(fi as int + 1));
                if parse_files(fview.skip(fi as int + 1)) is Some {
                    let rest = parse_files(fview.skip(fi as int + 1)).unwrap();
                    assert(seg_recs_of(segs_before) + (recs_i + rest) =~= (seg_recs_of(segs_before)
                        + recs_i) + rest);
                }
            }
            fi = fi + 1;
        }
        let current_gen: u64 = if files.len() > 0 {
            files[files.len() - 1].0 + 1
        } else {
            1
        };
        let store = KvStore {
            segments,
            writer: BufWriterWithPos::new(Vec::new()),
            active_recs: Ghost(Seq::empty()),
            current_gen,
            uncompacted,
            index,
        };
        proof {
            assert(fview.skip(fview.len() as int) =~= Seq::<(u64, Seq<u8>)>::empty());
            assert(parse_files(Seq::<(u64, Seq<u8>)>::empty()) == Some(Seq::<RecModel>::empty()));
            assert(seg_recs_of(store.segments@) + Seq::<RecModel>::empty() =~= seg_recs_of(
                store.segments@,
            ));
            assert(parse_files(fview) == Some(seg_recs_of(store.segments@)));
            assert(flat_encode(Seq::<RecModel>::empty()) == Seq::<u8>::empty());
            assert(store.all_recs() =~= seg_recs_of(store.segments@));
            assert forall|j: int| 0 <= j < store.index@.len() implies store.entry_ok(
                #[trigger] store.index@[j],
            ) by {
                let e = store.index@[j];
                assert(entry_ok_rec(store.segments@, e));
                let gi = choose|i: int|
                    0 <= i < store.segments@.len() && (#[trigger] store.segments@[i].gen)
                        == e.pos.gen;
                assert(store.segments@[gi].gen == files@[gi].0);
                assert(files@[gi].0 < store.current_gen) by {
                    if gi < files@.len() - 1 {
                        assert(files@[gi].0 < files@[files@.len() - 1].0);
                    }
                }
            }
            assert forall|i: int, j: int| 0 <= i < j < store.segments@.len() implies (
            #[trigger] store.segments@[i].gen) < (#[trigger] store.segments@[j].gen) by {
                assert(files@[i].0 < files@[j].0);
            }
            assert forall|i: int| 0 <= i < store.segments@.len() implies (
            #[trigger] store.segments@[i].gen) < store.current_gen by {
                if i < files@.len() - 1 {
                    assert(files@[i].0 < files@[files@.len() - 1].0);
                }
            }
        }
        Ok(store)
    }
}

} // verus!

verus! {

impl KvStore {
    /// What the store's directory must hold: each sealed segment's generation
    /// and bytes in ascending order, then the active segment's.
    pub open spec fn spec_dump(self) -> Seq<(u64, Seq<u8>)> {
        self.segments@.map_values(|s: Segment| (s.gen, s.data@)).push(
            (self.current_gen, self.writer.buf@),
        )
    }

    /// Copies out every segment's generation and bytes, sealed segments in
    /// ascending generation order, the active segment last: what the shell
    /// writes to the directory, and what feeding `open` reproduces this store
    /// from.
    pub fn dump(&self) -> (out: Vec<(u64, Vec<u8>)>)
        ensures
            files_view(out@) == self.spec_dump(),
    {
        let mut out: Vec<(u64, Vec<u8>)> = Vec::new();
        let mut i: usize = 0;
        while i < self.segments.len()
            invariant
                i <= self.segments@.len(),
                out@.len() == i as int,
                forall|j: int| 0 <= j < i ==> (#[trigger] out@[j].0) == self.segments@[j].gen,
                forall|j: int| 0 <= j < i ==> (#[trigger] out@[j].1@) == self.segments@[j].data@,
            decreases self.segments@.len() - i,
        {
            let d: Vec<u8> = vstd::slice::slice_to_vec(self.segments[i].data.as_slice());
            out.push((self.segments[i].gen, d));
            i = i + 1;
        }
        let wd: Vec<u8> = vstd::slice::slice_to_vec(self.writer.buf.as_slice());
        out.push((self.current_gen, wd));
        proof {
            assert(files_view(out@) =~= self.spec_dump());
        }
        out
    }
}

/// Parsing the dumped files from position `i` on yields exactly the records
/// of the remaining segments and the active segment.
proof fn lemma_parse_files_dump(s: KvStore, i: int)
    requires
        s.wf(),
        0 <= i <= s.segments@.len(),
    ensures
        parse_files(s.spec_dump().skip(i)) == Some(
            seg_recs_of(s.segments@.skip(i)) + s.active_recs@,
        ),
    decreases s.segments@.len() - i,
{
    let d = s.spec_dump();
    if i == s.segments@.len() {
        assert(d.skip(i) =~= seq![(s.current_gen, s.writer.buf@)]);
        assert(s.writer.buf@.subrange(0, s.writer.buf@.len() as int) =~= flat_encode(
            s.active_recs@,
        ) + Seq::<u8>::empty());
        lemma_parse_log_of_encodes(s.writer.buf@, 0, s.active_recs@, Seq::empty());
        assert(d.skip(i).drop_first() =~= Seq::<(u64, Seq<u8>)>::empty());
        assert(parse_files(Seq::<(u64, Seq<u8>)>::empty()) == Some(Seq::<RecModel>::empty()));
        assert(s.segments@.skip(i) =~= Seq::<Segment>::empty());
        assert(seg_recs_of(Seq::<Segment>::empty()) == Seq::<RecModel>::empty());
        assert(s.active_recs@ + Seq::<RecModel>::empty() =~= seg_recs_of(s.segments@.skip(i))
            + s.active_recs@);
    } else {
        let seg = s.segments@[i];
        assert(seg_wf(seg));
        assert(d.skip(i)[0] == (seg.gen, seg.data@));
        assert(seg.data@.subrange(0, seg.data@.len() as int) =~= flat_encode(seg.recs@)
            + Seq::<u8>::empty());
        lemma_parse_log_of_encodes(seg.data@, 0, seg.recs@, Seq::empty());
        assert(d.skip(i).drop_first() =~= d.skip(i + 1));
        lemma_parse_files_dump(s, i + 1);
        assert(s.segments@.skip(i)[0] == seg);
        assert(s.segments@.skip(i).drop_first() =~= s.segments@.skip(i + 1));
        assert(seg_recs_of(s.segments@.skip(i)) == seg.recs@ + seg_recs_of(
            s.segments@.skip(i + 1),
        ));
        assert(seg.recs@ + (seg_recs_of(s.segments@.skip(i + 1)) + s.active_recs@) =~= seg_recs_of(
            s.segments@.skip(i),
        ) + s.active_recs@);
    }
}

/// Law: closing the store and reopening it against the same directory
/// reproduces an identical observable state — recovering from exactly the
/// bytes the store would leave on disk yields exactly the store's map.
pub proof fn lemma_recovery_reproduces_state(s: KvStore)
    requires
        s.wf(),
    ensures
        spec_recover(s.spec_dump()) == Some(s.kv()),
{
    lemma_parse_files_dump(s, 0);
    assert(s.spec_dump().skip(0) =~= s.spec_dump());
    assert(s.segments@.skip(0) =~= s.segments@);
    assert(parse_files(s.spec_dump()) == Some(s.all_recs()));
}

/// Law: for every key and value, setting then reading the key yields that
/// value — a map that `set` has just extended holds the new value at the key,
/// and `get` returns exactly the map's value there.
pub proof fn lemma_set_then_get(pre: KvStore, post: KvStore, k: Seq<char>, v: Seq<char>)
    requires
        post.kv() == pre.kv().insert(k, v),
    ensures
        post.kv().contains_key(k),
        post.kv()[k] == v,
{
}

/// Law: overwriting a key twice leaves the second value, and exactly one
/// live index entry for the key exists.
pub proof fn lemma_overwrite_takes_last(
    pre: KvStore,
    mid: KvStore,
    post: KvStore,
    k: Seq<char>,
    v1: Seq<char>,
    v2: Seq<char>,
)
    requires
        post.wf(),
        mid.kv() == pre.kv().insert(k, v1),
        post.kv() == mid.kv().insert(k, v2),
    ensures
        post.kv()[k] == v2,
        exists|i: int|
            {
                &&& 0 <= i < post.index@.len()
                &&& (#[trigger] post.index@[i].key@) == k
                &&& forall|j: int|
                    0 <= j < post.index@.len() && (#[trigger] post.index@[j].key@) == k ==> j == i
            },
{
    assert(post.kv().contains_key(k));
    let i = choose|i: int| 0 <= i < post.index@.len() && (#[trigger] post.index@[i].key@) == k;
    assert(0 <= i < post.index@.len() && (#[trigger] post.index@[i].key@) == k && forall|j: int|
        0 <= j < post.index@.len() && (#[trigger] post.index@[j].key@) == k ==> j == i);
}

/// Law: after removing a key, a lookup finds nothing; and since `del` fails
/// with `KeyNotFound` exactly on keys its map does not hold, a second removal
/// of the same key fails with `KeyNotFound`.
pub proof fn lemma_removed_key_is_absent(pre: KvStore, post: KvStore, k: Seq<char>)
    requires
        post.kv() == pre.kv().remove(k),
    ensures
        !post.kv().contains_key(k),
{
}

} // verus!
