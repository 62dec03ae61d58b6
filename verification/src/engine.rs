//! Poll engine: offset-tracked reading from partition logs.
//!
//! A committed offset is owned per `(consumer, partition)` pair and names
//! the next unread offset. A poll resolves its starting point, reads up
//! to `count` messages, and — under auto-commit — advances the committed
//! offset to one past the last returned message, atomically with the
//! read. A poll that finds nothing returns an empty sequence, never an
//! error, and leaves the store untouched: the exhaustion signal is
//! idempotent.

use vstd::prelude::*;
use crate::topic::{Message, MsgView, Partition};

verus! {

/// The committed offset of one `(consumer, partition)` pair.
pub struct OffsetEntry {
    pub consumer_id: u32,
    pub partition_id: u32,
    pub committed: u64,
}

/// All committed offsets, keyed by `(consumer, partition)`.
pub struct OffsetStore {
    pub entries: Vec<OffsetEntry>,
}

/// The committed offset recorded for `(c, p)`, if any.
pub open spec fn spec_lookup(s: Seq<OffsetEntry>, c: u32, p: u32) -> Option<u64>
    decreases s.len(),
{
    if s.len() == 0 {
        None
    } else if s[0].consumer_id == c && s[0].partition_id == p {
        Some(s[0].committed)
    } else {
        spec_lookup(s.drop_first(), c, p)
    }
}

/// Removing an entry whose key is not `(c, p)` does not change what is
/// recorded for `(c, p)`.
proof fn lemma_lookup_remove(s: Seq<OffsetEntry>, i: int, c: u32, p: u32)
    requires
        0 <= i < s.len(),
        !(s[i].consumer_id == c && s[i].partition_id == p),
    ensures
        spec_lookup(s.remove(i), c, p) == spec_lookup(s, c, p),
    decreases s.len(),
{
    if i == 0 {
        assert(s.remove(0) =~= s.drop_first());
    } else {
        assert(s.remove(i)[0] == s[0]);
        if s[0].consumer_id == c && s[0].partition_id == p {
        } else {
            assert(s.remove(i).drop_first() =~= s.drop_first().remove(i - 1));
            lemma_lookup_remove(s.drop_first(), i - 1, c, p);
        }
    }
}

impl OffsetStore {
    /// No two entries share a key, so a lookup is unambiguous.
    pub open spec fn wf(self) -> bool {
        forall|i: int, j: int|
            0 <= i < j < self.entries@.len() ==> !((#[trigger] self.entries@[i]).consumer_id
                == (#[trigger] self.entries@[j]).consumer_id && self.entries@[i].partition_id
                == self.entries@[j].partition_id)
    }

    /// The committed offset for `(c, p)`: the recorded value, or zero
    /// before the first commit (offsets are zero-based).
    pub open spec fn spec_committed(self, c: u32, p: u32) -> u64 {
        match spec_lookup(self.entries@, c, p) {
            Some(v) => v,
            None => 0,
        }
    }

    /// An empty store: every pair starts at offset zero.
    pub fn new() -> (r: OffsetStore)
        ensures
            r.wf(),
            forall|c: u32, p: u32| r.spec_committed(c, p) == 0,
    {
        OffsetStore { entries: Vec::new() }
    }

    /// Index of the entry for `(c, p)`, if one exists.
    fn find_entry(&self, c: u32, p: u32) -> (r: Option<usize>)
        ensures
            match r {
                Some(i) => i < self.entries@.len() && self.entries@[i as int].consumer_id == c
                    && self.entries@[i as int].partition_id == p,
                None => forall|k: int|
                    0 <= k < self.entries@.len() ==> !((#[trigger] self.entries@[k]).consumer_id
                        == c && self.entries@[k].partition_id == p),
            },
    {
        let mut i: usize = 0;
        while i < self.entries.len()
            invariant
                0 <= i <= self.entries@.len(),
                forall|k: int|
                    0 <= k < i ==> !((#[trigger] self.entries@[k]).consumer_id == c
                        && self.entries@[k].partition_id == p),
            decreases self.entries@.len() - i,
        {
            let e = &self.entries[i];
            if e.consumer_id == c && e.partition_id == p {
                return Some(i);
            }
            i = i + 1;
        }
        None
    }

    /// A lookup never records anything when no entry matches.
    proof fn lemma_lookup_none(s: Seq<OffsetEntry>, c: u32, p: u32)
        requires
            forall|k: int|
                0 <= k < s.len() ==> !((#[trigger] s[k]).consumer_id == c && s[k].partition_id
                    == p),
        ensures
            spec_lookup(s, c, p) is None,
        decreases s.len(),
    {
        if s.len() > 0 {
            assert(forall|k: int|
                0 <= k < s.drop_first().len() ==> !((#[trigger] s.drop_first()[k]).consumer_id == c
                    && s.drop_first()[k].partition_id == p));
            Self::lemma_lookup_none(s.drop_first(), c, p);
        }
    }

    /// The committed offset for `(c, p)`, zero when nothing is recorded.
    pub fn get(&self, c: u32, p: u32) -> (r: u64)
        requires
            self.wf(),
        ensures
            r == self.spec_committed(c, p),
    {
        match self.find_entry(c, p) {
            Some(i) => {
                proof {
                    Self::lemma_lookup_at(self.entries@, i as int, c, p);
                }
                self.entries[i].committed
            },
            None => {
                proof {
                    Self::lemma_lookup_none(self.entries@, c, p);
                }
                0
            },
        }
    }

    /// With unique keys, a matching index determines the lookup.
    proof fn lemma_lookup_at(s: Seq<OffsetEntry>, i: int, c: u32, p: u32)
        requires
            0 <= i < s.len(),
            s[i].consumer_id == c,
            s[i].partition_id == p,
            forall|a: int, b: int|
                0 <= a < b < s.len() ==> !((#[trigger] s[a]).consumer_id == (#[trigger] s[b]).consumer_id
                    && s[a].partition_id == s[b].partition_id),
        ensures
            spec_lookup(s, c, p) == Some(s[i].committed),
        decreases s.len(),
    {
        if i == 0 {
        } else {
            assert(!(s[0].consumer_id == c && s[0].partition_id == p));
            assert(forall|a: int, b: int|
                0 <= a < b < s.drop_first().len() ==> !((#[trigger] s.drop_first()[a]).consumer_id
                    == (#[trigger] s.drop_first()[b]).consumer_id
                    && s.drop_first()[a].partition_id == s.drop_first()[b].partition_id));
            Self::lemma_lookup_at(s.drop_first(), i - 1, c, p);
        }
    }

    /// Records `v` as the committed offset for `(c, p)`, touching no
    /// other pair.
    pub fn set(&mut self, c: u32, p: u32, v: u64)
        requires
            old(self).wf(),
        ensures
            final(self).wf(),
            final(self).spec_committed(c, p) == v,
            forall|c2: u32, p2: u32|
                !(c2 == c && p2 == p) ==> final(self).spec_committed(c2, p2) == old(
                    self,
                ).spec_committed(c2, p2),
    {
        let e = OffsetEntry { consumer_id: c, partition_id: p, committed: v };
        let ghost s0 = self.entries@;
        match self.find_entry(c, p) {
            Some(i) => {
                proof {
                    assert forall|j: int|
                        0 <= j < s0.len() && j != i as int implies !((#[trigger] s0[j]).consumer_id
                        == c && s0[j].partition_id == p) by {
                        if j < i as int {
                        } else {
                            assert(!(s0[i as int].consumer_id == s0[j].consumer_id
                                && s0[i as int].partition_id == s0[j].partition_id));
                        }
                    }
                }
                self.entries.remove(i);
                let ghost s1 = self.entries@;
                proof {
                    assert forall|j: int|
                        0 <= j < s1.len() implies !((#[trigger] s1[j]).consumer_id == c
                        && s1[j].partition_id == p) by {
                        let j0 = if j < i as int { j } else { j + 1 };
                        assert(s1[j] == s0[j0]);
                    }
                    assert forall|a: int, b: int|
                        0 <= a < b < s1.len() implies !((#[trigger] s1[a]).consumer_id
                        == (#[trigger] s1[b]).consumer_id && s1[a].partition_id
                        == s1[b].partition_id) by {
                        let a0 = if a < i as int { a } else { a + 1 };
                        let b0 = if b < i as int { b } else { b + 1 };
                        assert(s1[a] == s0[a0]);
                        assert(s1[b] == s0[b0]);
                    }
                }
                self.entries.insert(0, e);
                proof {
                    let s2 = self.entries@;
                    assert(s2 =~= seq![e] + s1);
                    assert(s2[0] == e);
                    assert(s2.drop_first() =~= s1);
                    assert forall|c2: u32, p2: u32| !(c2 == c && p2 == p) implies self.spec_committed(
                        c2,
                        p2,
                    ) == old(self).spec_committed(c2, p2) by {
                        lemma_lookup_remove(s0, i as int, c2, p2);
                        assert(spec_lookup(s2, c2, p2) == spec_lookup(s1, c2, p2));
                    }
                    assert forall|a: int, b: int|
                        0 <= a < b < s2.len() implies !((#[trigger] s2[a]).consumer_id
                        == (#[trigger] s2[b]).consumer_id && s2[a].partition_id
                        == s2[b].partition_id) by {
                        if a == 0 {
                            assert(s2[b] == s1[b - 1]);
                        } else {
                            assert(s2[a] == s1[a - 1]);
                            assert(s2[b] == s1[b - 1]);
                        }
                    }
                }
            },
            None => {
                self.entries.insert(0, e);
                proof {
                    let s2 = self.entries@;
                    assert(s2 =~= seq![e] + s0);
                    assert(s2[0] == e);
                    assert(s2.drop_first() =~= s0);
                    assert forall|a: int, b: int|
                        0 <= a < b < s2.len() implies !((#[trigger] s2[a]).consumer_id
                        == (#[trigger] s2[b]).consumer_id && s2[a].partition_id
                        == s2[b].partition_id) by {
                        if a == 0 {
                            assert(s2[b] == s0[b - 1]);
                        } else {
                            assert(s2[a] == s0[a - 1]);
                            assert(s2[b] == s0[b - 1]);
                        }
                    }
                }
            },
        }
    }
}

/// Where a poll starts: the next unread offset, an explicit offset, the
/// first message, or the last one.
#[derive(Clone, Copy, Debug, PartialEq, Eq, Structural)]
pub enum PollStart {
    NextUnread,
    Offset(u64),
    First,
    Last,
}

/// The offset a starting point resolves to, given the committed offset
/// and the log length.
pub open spec fn spec_resolve_start(s: PollStart, committed: u64, len: int) -> int {
    match s {
        PollStart::NextUnread => committed as int,
        PollStart::Offset(o) => o as int,
        PollStart::First => 0,
        PollStart::Last => if len > 0 {
            len - 1
        } else {
            0
        },
    }
}

/// Everything one poll call does, as a relation between the offset
/// store before (`off0`) and after (`off1`): the returned messages are
/// the log slice from the resolved start, empty exactly when nothing
/// lies at or after it, and under auto-commit a non-empty read moves
/// this pair's committed offset to one past the last message returned,
/// touching nothing else.
pub open spec fn spec_poll_outcome(
    log: Seq<MsgView>,
    part_id: u32,
    consumer_id: u32,
    start: PollStart,
    count: u32,
    auto_commit: bool,
    off0: OffsetStore,
    off1: OffsetStore,
    msgs: Seq<MsgView>,
) -> bool {
    let len = log.len() as int;
    let start0 = spec_resolve_start(start, off0.spec_committed(consumer_id, part_id), len);
    let lo = if start0 <= len {
        start0
    } else {
        len
    };
    let hi = if start0 + count <= len {
        start0 + count
    } else {
        len
    };
    &&& msgs == log.subrange(lo, hi)
    &&& (msgs.len() == 0 <==> (count == 0 || start0 >= len))
    &&& (auto_commit && msgs.len() > 0 ==> off1.spec_committed(consumer_id, part_id) == lo
        + msgs.len() && (forall|c2: u32, p2: u32|
        !(c2 == consumer_id && p2 == part_id) ==> off1.spec_committed(c2, p2)
            == off0.spec_committed(c2, p2)))
    &&& (!(auto_commit && msgs.len() > 0) ==> off1 == off0)
}

/// Polls up to `count` messages from the partition for `consumer_id`.
/// Returns the messages in strictly increasing, gapless offset order;
/// empty when nothing exists at or after the start. Under auto-commit a
/// non-empty read advances this pair's committed offset to one past the
/// last returned message, atomically with the read; every other pair,
/// and the store on an empty read, is untouched.
pub fn poll(
    part: &Partition,
    store: &mut OffsetStore,
    consumer_id: u32,
    start: PollStart,
    count: u32,
    auto_commit: bool,
) -> (msgs: Vec<Message>)
    requires
        part.wf(),
        old(store).wf(),
    ensures
        final(store).wf(),
        spec_poll_outcome(
            part.spec_log(),
            part.id,
            consumer_id,
            start,
            count,
            auto_commit,
            *old(store),
            *final(store),
            msgs@.map_values(|m: Message| m@),
        ),
{
    let committed = store.get(consumer_id, part.id);
    let len64: u64 = part.log.len() as u64;
    let start0: u64 = match start {
        PollStart::NextUnread => committed,
        PollStart::Offset(o) => o,
        PollStart::First => 0,
        PollStart::Last => if len64 > 0 {
            len64 - 1
        } else {
            0
        },
    };
    let msgs = part.read_from(start0, count);
    proof {
        let len = part.spec_log().len() as int;
        let lo = if start0 as int <= len { start0 as int } else { len };
        let hi = if start0 as int + count <= len { start0 as int + count } else { len };
        assert(msgs@.map_values(|m: Message| m@).len() == msgs@.len());
        assert(msgs@.len() == hi - lo);
    }
    if auto_commit && msgs.len() > 0 {
        store.set(consumer_id, part.id, start0 + msgs.len() as u64);
    }
    msgs
}

/// The messages that `k` successive single-message auto-commit polls
/// return, starting with committed offset `c`: one step per poll, the
/// committed offset advancing by one while messages remain.
pub open spec fn spec_drained(log: Seq<MsgView>, c: int, k: int) -> Seq<MsgView>
    decreases k,
{
    if k <= 0 || c < 0 {
        Seq::empty()
    } else if c < log.len() {
        seq![log[c]] + spec_drained(log, c + 1, k - 1)
    } else {
        Seq::empty()
    }
}

/// One step of `spec_drained` is exactly what one `poll` call with
/// `NextUnread`, `count = 1` and auto-commit does, by `spec_poll_outcome`:
/// the same single message (or nothing), with the committed offset
/// advanced by the number of messages returned.
pub proof fn lemma_drain_step_is_poll(
    log: Seq<MsgView>,
    part_id: u32,
    consumer_id: u32,
    off0: OffsetStore,
    off1: OffsetStore,
    msgs: Seq<MsgView>,
)
    requires
        spec_poll_outcome(
            log,
            part_id,
            consumer_id,
            PollStart::NextUnread,
            1,
            true,
            off0,
            off1,
            msgs,
        ),
        off0.spec_committed(consumer_id, part_id) <= log.len(),
    ensures
        msgs == spec_drained(log, off0.spec_committed(consumer_id, part_id) as int, 1),
        off1.spec_committed(consumer_id, part_id) == off0.spec_committed(consumer_id, part_id)
            + msgs.len(),
{
    let c = off0.spec_committed(consumer_id, part_id) as int;
    if c < log.len() {
        assert(msgs =~= seq![log[c]]);
        assert(seq![log[c]] + spec_drained(log, c + 1, 0) =~= seq![log[c]]);
    } else {
        assert(msgs =~= Seq::<MsgView>::empty());
    }
}

/// Offset monotonicity and exhaustion: starting at committed offset `c`,
/// any `k >= len - c` single-message polls return exactly the messages at
/// offsets `c..len`, each once and in order — then nothing more, however
/// often polling continues.
pub proof fn lemma_poll_drains_all(log: Seq<MsgView>, c: int, k: int)
    requires
        0 <= c <= log.len(),
        k >= log.len() - c,
    ensures
        spec_drained(log, c, k) == log.subrange(c, log.len() as int),
    decreases k,
{
    if c < log.len() {
        lemma_poll_drains_all(log, c + 1, k - 1);
        assert(seq![log[c]] + log.subrange(c + 1, log.len() as int) =~= log.subrange(
            c,
            log.len() as int,
        ));
    } else {
        assert(spec_drained(log, c, k) =~= log.subrange(c, log.len() as int));
    }
}

} // verus!
