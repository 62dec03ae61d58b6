//! Streams, topics, partitions and producer routing.
//!
//! A partition log is append-only: offsets are zero-based, gapless and
//! never reused. A producer resolves a target partition either from a
//! numeric routing key — `(key mod partitions_count) + 1`, the same key
//! always landing on the same partition — or, with no key, round-robin
//! from a per-topic cursor that advances once per message.

use vstd::prelude::*;
use vstd::arithmetic::div_mod::{
    lemma_add_mod_noop_right, lemma_fundamental_div_mod, lemma_mod_division_less_than_divisor,
    lemma_small_mod,
};
use vstd::slice::slice_to_vec;

verus! {

/// One message in a partition log, immutable once appended.
pub struct Message {
    pub offset: u64,
    pub payload: Vec<u8>,
    pub key: Option<u64>,
}

/// The mathematical value of a message.
pub ghost struct MsgView {
    pub offset: u64,
    pub payload: Seq<u8>,
    pub key: Option<u64>,
}

impl View for Message {
    type V = MsgView;

    open spec fn view(&self) -> MsgView {
        MsgView { offset: self.offset, payload: self.payload@, key: self.key }
    }
}

/// An exact copy of a message.
pub fn clone_message(m: &Message) -> (r: Message)
    ensures
        r@ == m@,
{
    Message {
        offset: m.offset,
        payload: slice_to_vec(m.payload.as_slice()),
        key: m.key,
    }
}

/// A partition: its id within the topic and its append-only log.
pub struct Partition {
    pub id: u32,
    pub log: Vec<Message>,
}

impl Partition {
    /// The log as a sequence of message values.
    pub open spec fn spec_log(self) -> Seq<MsgView> {
        self.log@.map_values(|m: Message| m@)
    }

    /// Offsets are exactly the log indices: strictly increasing, gapless.
    pub open spec fn wf(self) -> bool {
        forall|i: int| 0 <= i < self.spec_log().len() ==> (#[trigger] self.spec_log()[i]).offset == i
    }

    /// Appends a message; its offset is the previous log length.
    pub fn append(&mut self, payload: Vec<u8>, key: Option<u64>) -> (offset: u64)
        requires
            old(self).wf(),
            old(self).log@.len() < u64::MAX,
        ensures
            final(self).wf(),
            final(self).id == old(self).id,
            offset == old(self).spec_log().len(),
            final(self).spec_log() == old(self).spec_log().push(
                MsgView { offset, payload: payload@, key },
            ),
    {
        let offset: u64 = self.log.len() as u64;
        let ghost log0 = self.spec_log();
        self.log.push(Message { offset, payload, key });
        proof {
            assert(self.spec_log() =~= log0.push(MsgView { offset, payload: payload@, key }));
        }
        offset
    }

    /// Reads up to `count` messages starting at `start`; empty (never an
    /// error) when nothing exists at or after that offset.
    pub fn read_from(&self, start: u64, count: u32) -> (msgs: Vec<Message>)
        requires
            self.wf(),
        ensures
            ({
                let len = self.spec_log().len() as int;
                let lo = if start <= len { start as int } else { len };
                let hi = if start + count <= len { start as int + count } else { len };
                msgs@.map_values(|m: Message| m@) == self.spec_log().subrange(lo, hi)
            }),
    {
        let ghost log = self.spec_log();
        let len: usize = self.log.len();
        let mut msgs: Vec<Message> = Vec::new();
        if start >= len as u64 {
            proof {
                let lo = if start <= log.len() { start as int } else { log.len() as int };
                assert(msgs@.map_values(|m: Message| m@) =~= log.subrange(lo, log.len() as int));
            }
            return msgs;
        }
        let lo: usize = start as usize;
        let hi: usize = if (count as u64) <= (len - lo) as u64 {
            lo + count as usize
        } else {
            len
        };
        let mut i: usize = lo;
        proof {
            assert(msgs@.map_values(|m: Message| m@) =~= log.subrange(lo as int, lo as int));
        }
        while i < hi
            invariant
                lo <= i <= hi <= len,
                len == self.log@.len(),
                log == self.spec_log(),
                msgs@.map_values(|m: Message| m@) == log.subrange(lo as int, i as int),
            decreases hi - i,
        {
            let ghost msgs0 = msgs@;
            let m = clone_message(&self.log[i]);
            msgs.push(m);
            proof {
                assert(log[i as int] == self.log@[i as int]@);
                assert(m@ == log[i as int]);
                assert(msgs@ == msgs0.push(m));
                assert(msgs0.map_values(|m: Message| m@).len() == msgs0.len());
                assert(msgs0.len() == i - lo);
                assert forall|j: int| 0 <= j < msgs@.len() implies (#[trigger] msgs@[j])@
                    == log.subrange(lo as int, i as int + 1)[j] by {
                    if j < msgs0.len() {
                        assert(msgs@[j] == msgs0[j]);
                        assert(msgs0.map_values(|m: Message| m@)[j] == msgs0[j]@);
                        assert(log.subrange(lo as int, i as int)[j] == log[lo + j]);
                    } else {
                        assert(j == msgs0.len());
                        assert(msgs@[j] == m);
                    }
                }
                assert(msgs@.map_values(|m: Message| m@) =~= log.subrange(lo as int, i as int + 1));
            }
            i = i + 1;
        }
        proof {
            let l = if start <= log.len() { start as int } else { log.len() as int };
            let h = if start + count <= log.len() { start as int + count } else { log.len() as int };
            assert(l == lo as int);
            assert(h == hi as int);
        }
        msgs
    }
}

/// A topic: its partitions (ids `1..=partitions_count`) and the
/// round-robin cursor for keyless routing.
pub struct Topic {
    pub id: u32,
    pub stream_id: u32,
    pub name: Vec<u8>,
    pub partitions: Vec<Partition>,
    pub partitions_count: u32,
    pub cursor: u32,
}

impl Topic {
    pub open spec fn wf(self) -> bool {
        &&& 1 <= self.partitions_count
        &&& self.partitions@.len() == self.partitions_count
        &&& forall|i: int|
            0 <= i < self.partitions@.len() ==> (#[trigger] self.partitions@[i]).id == i + 1
        &&& forall|i: int| 0 <= i < self.partitions@.len() ==> (#[trigger] self.partitions@[i]).wf()
        &&& self.cursor < self.partitions_count
    }
}

/// The mathematical value of a topic, as routing and sending see it:
/// the cursor, the partition count, and every partition's log.
pub ghost struct TopicModel {
    pub cursor: int,
    pub pc: int,
    pub logs: Seq<Seq<MsgView>>,
}

impl Topic {
    pub open spec fn model(self) -> TopicModel {
        TopicModel {
            cursor: self.cursor as int,
            pc: self.partitions_count as int,
            logs: self.partitions@.map_values(|p: Partition| p.spec_log()),
        }
    }
}

/// What sending one message does to a topic: the message is appended to
/// the partition the key (or the cursor) resolves, its offset the log
/// length there; a keyless send advances the cursor.
pub open spec fn spec_send_one(m: TopicModel, key: Option<u64>, payload: Seq<u8>) -> TopicModel {
    let pid = match key {
        Some(k) => spec_route_key(k, m.pc as u32) as int,
        None => m.cursor % m.pc + 1,
    };
    let idx = pid - 1;
    let log0 = m.logs[idx];
    TopicModel {
        cursor: match key {
            Some(_) => m.cursor,
            None => (m.cursor + 1) % m.pc,
        },
        pc: m.pc,
        logs: m.logs.update(
            idx,
            log0.push(MsgView { offset: log0.len() as u64, payload, key }),
        ),
    }
}

/// Sending a batch: one send per payload, in order.
pub open spec fn spec_send_batch(m: TopicModel, key: Option<u64>, payloads: Seq<Seq<u8>>) -> TopicModel
    decreases payloads.len(),
{
    if payloads.len() == 0 {
        m
    } else {
        spec_send_batch(spec_send_one(m, key, payloads[0]), key, payloads.drop_first())
    }
}

/// One more payload extends the batch at its end.
pub proof fn lemma_send_batch_push(m: TopicModel, key: Option<u64>, payloads: Seq<Seq<u8>>, p: Seq<u8>)
    ensures
        spec_send_batch(m, key, payloads.push(p)) == spec_send_one(
            spec_send_batch(m, key, payloads),
            key,
            p,
        ),
    decreases payloads.len(),
{
    if payloads.len() == 0 {
        assert(payloads.push(p)[0] == p);
        assert(payloads.push(p).drop_first() =~= Seq::<Seq<u8>>::empty());
        assert(spec_send_batch(m, key, payloads.push(p)) == spec_send_batch(
            spec_send_one(m, key, p),
            key,
            Seq::<Seq<u8>>::empty(),
        ));
        assert(spec_send_batch(spec_send_one(m, key, p), key, Seq::<Seq<u8>>::empty())
            == spec_send_one(m, key, p));
        assert(spec_send_batch(m, key, payloads) == m);
    } else {
        let m1 = spec_send_one(m, key, payloads[0]);
        assert(payloads.push(p)[0] == payloads[0]);
        assert(payloads.push(p).drop_first() =~= payloads.drop_first().push(p));
        assert(spec_send_batch(m, key, payloads.push(p)) == spec_send_batch(
            m1,
            key,
            payloads.drop_first().push(p),
        ));
        lemma_send_batch_push(m1, key, payloads.drop_first(), p);
        assert(spec_send_batch(m, key, payloads) == spec_send_batch(m1, key, payloads.drop_first()));
    }
}

/// A batch of `n` sends grows no partition log by more than `n`.
pub proof fn lemma_send_batch_log_len(m: TopicModel, key: Option<u64>, payloads: Seq<Seq<u8>>, j: int)
    requires
        1 <= m.pc <= u32::MAX,
        m.logs.len() == m.pc,
        0 <= j < m.logs.len(),
        0 <= m.cursor,
    ensures
        spec_send_batch(m, key, payloads).logs.len() == m.logs.len(),
        spec_send_batch(m, key, payloads).logs[j].len() <= m.logs[j].len() + payloads.len(),
        spec_send_batch(m, key, payloads).pc == m.pc,
        spec_send_batch(m, key, payloads).cursor >= 0,
    decreases payloads.len(),
{
    if payloads.len() == 0 {
    } else {
        let m1 = spec_send_one(m, key, payloads[0]);
        let pid = match key {
            Some(k) => spec_route_key(k, m.pc as u32) as int,
            None => m.cursor % m.pc + 1,
        };
        match key {
            Some(k) => {
                lemma_mod_division_less_than_divisor(k as int, m.pc);
                assert(spec_route_key(k, m.pc as u32) as int == k as int % m.pc + 1);
            },
            None => {
                lemma_mod_division_less_than_divisor(m.cursor, m.pc);
                lemma_mod_division_less_than_divisor(m.cursor + 1, m.pc);
            },
        }
        assert(1 <= pid <= m.pc);
        lemma_send_batch_log_len(m1, key, payloads.drop_first(), j);
    }
}

/// Where a keyed message lands: `(key mod partitions_count) + 1`.
pub open spec fn spec_route_key(key: u64, pc: u32) -> u32
    recommends
        pc >= 1,
{
    ((key as int % pc as int) + 1) as u32
}

/// Resolves the partition for an explicit numeric routing key.
pub fn route_key(key: u64, pc: u32) -> (r: u32)
    requires
        pc >= 1,
    ensures
        r == spec_route_key(key, pc),
        1 <= r <= pc,
{
    proof {
        lemma_mod_division_less_than_divisor(key as int, pc as int);
    }
    (key % (pc as u64)) as u32 + 1
}

/// The partition the `i`-th keyless message takes when the cursor held
/// `cursor` before the first of them.
pub open spec fn spec_rr_partition(cursor: int, i: int, pc: int) -> int
    recommends
        pc >= 1,
{
    (cursor + i) % pc + 1
}

/// Advances the round-robin cursor by one and yields its partition.
pub fn route_round_robin(t: &mut Topic) -> (r: u32)
    requires
        old(t).wf(),
    ensures
        final(t).wf(),
        r == spec_rr_partition(old(t).cursor as int, 0, old(t).partitions_count as int),
        1 <= r <= old(t).partitions_count,
        final(t).cursor as int == (old(t).cursor + 1) as int % old(t).partitions_count as int,
        final(t).id == old(t).id,
        final(t).stream_id == old(t).stream_id,
        final(t).name == old(t).name,
        final(t).partitions == old(t).partitions,
        final(t).partitions_count == old(t).partitions_count,
{
    let pc = t.partitions_count;
    let r = t.cursor + 1;
    proof {
        lemma_small_mod(t.cursor as nat, pc as nat);
        if t.cursor + 1 < pc {
            lemma_small_mod((t.cursor + 1) as nat, pc as nat);
        } else {
            assert((t.cursor + 1) as int % pc as int == 0) by {
                vstd::arithmetic::div_mod::lemma_mod_self_0(pc as int);
            }
        }
    }
    if t.cursor + 1 == pc {
        t.cursor = 0;
    } else {
        t.cursor = t.cursor + 1;
    }
    r
}

/// How many of the first `n` keyless messages land on partition `q`.
pub open spec fn spec_rr_count(cursor: int, n: int, pc: int, q: int) -> int
    decreases n,
{
    if n <= 0 {
        0
    } else {
        spec_rr_count(cursor, n - 1, pc, q) + if spec_rr_partition(cursor, n - 1, pc) == q {
            1int
        } else {
            0int
        }
    }
}

/// Within one cycle, position `i` hits residue `q - 1` exactly when `i`
/// is the distance from `base` to that residue.
proof fn lemma_rr_hit(base: int, i: int, pc: int, q: int)
    requires
        pc >= 1,
        0 <= base,
        0 <= i < pc,
        1 <= q <= pc,
    ensures
        (base + i) % pc == q - 1 <==> i == (q - 1 - base) % pc,
{
    let r = (q - 1 - base) % pc;
    lemma_mod_division_less_than_divisor(q - 1 - base, pc);
    lemma_add_mod_noop_right(base, q - 1 - base, pc);
    assert((base + r) % pc == (base + (q - 1 - base)) % pc);
    lemma_small_mod((q - 1) as nat, pc as nat);
    assert((base + r) % pc == q - 1);
    if (base + i) % pc == q - 1 {
        lemma_fundamental_div_mod(base + i, pc);
        lemma_fundamental_div_mod(base + r, pc);
        let di = (base + i) / pc;
        let dr = (base + r) / pc;
        assert(i - r == pc * (di - dr)) by (nonlinear_arith)
            requires
                base + i == pc * di + (q - 1),
                base + r == pc * dr + (q - 1),
        ;
        assert(i == r) by (nonlinear_arith)
            requires
                i - r == pc * (di - dr),
                0 <= i < pc,
                0 <= r < pc,
        ;
    }
}

/// Counting hits across a window of `j` positions starting at `a`: the
/// window catches partition `q` exactly once as soon as it is long
/// enough to reach `q`'s residue.
proof fn lemma_rr_window(cursor: int, a: int, j: int, pc: int, q: int)
    requires
        pc >= 1,
        0 <= cursor,
        0 <= a,
        0 <= j <= pc,
        1 <= q <= pc,
    ensures
        spec_rr_count(cursor, a + j, pc, q) - spec_rr_count(cursor, a, pc, q) == if (q - 1 - (cursor
            + a)) % pc < j {
            1int
        } else {
            0int
        },
    decreases j,
{
    let base = cursor + a;
    let r = (q - 1 - base) % pc;
    lemma_mod_division_less_than_divisor(q - 1 - base, pc);
    if j == 0 {
    } else {
        lemma_rr_window(cursor, a, j - 1, pc, q);
        lemma_rr_hit(base, j - 1, pc, q);
        assert(spec_rr_partition(cursor, a + j - 1, pc) == q <==> (base + (j - 1)) % pc == q - 1);
        assert(spec_rr_count(cursor, a + j, pc, q) == spec_rr_count(cursor, a + j - 1, pc, q)
            + if spec_rr_partition(cursor, a + j - 1, pc) == q {
            1int
        } else {
            0int
        });
    }
}

/// Round-robin fairness: over any `k` full cycles of keyless sends, each
/// partition `1..=partitions_count` receives exactly `k` messages.
pub proof fn lemma_rr_cycles_fair(cursor: int, k: int, pc: int, q: int)
    requires
        pc >= 1,
        0 <= cursor,
        0 <= k,
        1 <= q <= pc,
    ensures
        spec_rr_count(cursor, k * pc, pc, q) == k,
    decreases k,
{
    if k == 0 {
        assert(k * pc == 0) by (nonlinear_arith)
            requires
                k == 0,
        ;
    } else {
        lemma_rr_cycles_fair(cursor, k - 1, pc, q);
        let a = (k - 1) * pc;
        assert(a >= 0) by (nonlinear_arith)
            requires
                k >= 1,
                pc >= 1,
                a == (k - 1) * pc,
        ;
        lemma_rr_window(cursor, a, pc, pc, q);
        lemma_mod_division_less_than_divisor(q - 1 - (cursor + a), pc);
        assert(a + pc == k * pc) by (nonlinear_arith)
            requires
                a == (k - 1) * pc,
        ;
    }
}

/// Peeling the first send off a count: position `0` hits `cursor mod pc + 1`.
proof fn lemma_rr_count_front(c: int, n: int, pc: int, q: int)
    requires
        pc >= 1,
        0 <= c,
        n >= 1,
    ensures
        spec_rr_count(c, n, pc, q) == (if c % pc + 1 == q {
            1int
        } else {
            0int
        }) + spec_rr_count(c + 1, n - 1, pc, q),
    decreases n,
{
    if n == 1 {
        assert(spec_rr_count(c, 1, pc, q) == spec_rr_count(c, 0, pc, q)
            + if spec_rr_partition(c, 0, pc) == q {
            1int
        } else {
            0int
        });
        assert(spec_rr_count(c + 1, 0, pc, q) == 0);
    } else {
        lemma_rr_count_front(c, n - 1, pc, q);
        assert(spec_rr_count(c, n, pc, q) == spec_rr_count(c, n - 1, pc, q)
            + if spec_rr_partition(c, n - 1, pc) == q {
            1int
        } else {
            0int
        });
        assert(spec_rr_count(c + 1, n - 1, pc, q) == spec_rr_count(c + 1, n - 2, pc, q)
            + if spec_rr_partition(c + 1, n - 2, pc) == q {
            1int
        } else {
            0int
        });
        assert(spec_rr_partition(c, n - 1, pc) == spec_rr_partition(c + 1, n - 2, pc));
    }
}

/// Reducing the cursor modulo the partition count does not change which
/// partitions a run of sends hits.
proof fn lemma_rr_count_base_mod(c: int, n: int, pc: int, q: int)
    requires
        pc >= 1,
        0 <= c,
        n >= 0,
    ensures
        spec_rr_count(c % pc, n, pc, q) == spec_rr_count(c, n, pc, q),
    decreases n,
{
    if n > 0 {
        lemma_rr_count_base_mod(c, n - 1, pc, q);
        lemma_add_mod_noop_right(n - 1, c, pc);
        assert((c % pc + (n - 1)) % pc == (c + (n - 1)) % pc) by {
            assert(((n - 1) + c % pc) % pc == ((n - 1) + c) % pc);
        }
        assert(spec_rr_partition(c % pc, n - 1, pc) == spec_rr_partition(c, n - 1, pc));
    }
}

/// What a keyless batch really does to each partition: partition `q`'s
/// log grows by exactly the number of cursor positions that resolve to
/// it, `spec_rr_count` of the batch length.
pub proof fn lemma_send_batch_round_robin_counts(m: TopicModel, payloads: Seq<Seq<u8>>, q: int)
    requires
        1 <= m.pc <= u32::MAX,
        m.logs.len() == m.pc,
        0 <= m.cursor < m.pc,
        1 <= q <= m.pc,
    ensures
        spec_send_batch(m, None, payloads).logs[q - 1].len() == m.logs[q - 1].len()
            + spec_rr_count(m.cursor, payloads.len() as int, m.pc, q),
    decreases payloads.len(),
{
    if payloads.len() == 0 {
    } else {
        let m1 = spec_send_one(m, None, payloads[0]);
        lemma_small_mod(m.cursor as nat, m.pc as nat);
        let pid = m.cursor % m.pc + 1;
        assert(pid == m.cursor + 1);
        lemma_mod_division_less_than_divisor(m.cursor + 1, m.pc);
        assert(0 <= m1.cursor < m.pc);
        lemma_send_batch_round_robin_counts(m1, payloads.drop_first(), q);
        lemma_rr_count_front(m.cursor, payloads.len() as int, m.pc, q);
        lemma_rr_count_base_mod(m.cursor + 1, payloads.len() as int - 1, m.pc, q);
        assert(spec_rr_partition(m.cursor, 0, m.pc) == pid);
        if pid == q {
            assert(m1.logs[q - 1].len() == m.logs[q - 1].len() + 1);
        } else {
            assert(m1.logs[q - 1] == m.logs[q - 1]);
        }
    }
}

/// Round-robin fairness of an actual batch: a keyless batch of
/// `k * partitions_count` payloads grows every partition's log by
/// exactly `k`.
pub proof fn lemma_send_batch_fair(m: TopicModel, payloads: Seq<Seq<u8>>, q: int, k: int)
    requires
        1 <= m.pc <= u32::MAX,
        m.logs.len() == m.pc,
        0 <= m.cursor < m.pc,
        1 <= q <= m.pc,
        k >= 0,
        payloads.len() == k * m.pc,
    ensures
        spec_send_batch(m, None, payloads).logs[q - 1].len() == m.logs[q - 1].len() + k,
{
    lemma_send_batch_round_robin_counts(m, payloads, q);
    lemma_rr_cycles_fair(m.cursor, k, m.pc, q);
}

/// A keyed batch lands wholly on `(key mod partitions_count) + 1`: that
/// partition's log grows by the batch length, every other log is
/// untouched, and the round-robin cursor does not move.
pub proof fn lemma_send_batch_keyed(m: TopicModel, k: u64, payloads: Seq<Seq<u8>>, q: int)
    requires
        1 <= m.pc <= u32::MAX,
        m.logs.len() == m.pc,
        1 <= q <= m.pc,
    ensures
        spec_send_batch(m, Some(k), payloads).cursor == m.cursor,
        spec_send_batch(m, Some(k), payloads).logs[q - 1].len() == m.logs[q - 1].len() + (if q
            == spec_route_key(k, m.pc as u32) as int {
            payloads.len() as int
        } else {
            0int
        }),
    decreases payloads.len(),
{
    lemma_mod_division_less_than_divisor(k as int, m.pc);
    assert(spec_route_key(k, m.pc as u32) as int == k as int % m.pc + 1);
    if payloads.len() == 0 {
    } else {
        let m1 = spec_send_one(m, Some(k), payloads[0]);
        let pid = k as int % m.pc + 1;
        if pid == q {
            assert(m1.logs[q - 1].len() == m.logs[q - 1].len() + 1);
        } else {
            assert(m1.logs[q - 1] == m.logs[q - 1]);
        }
        lemma_send_batch_keyed(m1, k, payloads.drop_first(), q);
    }
}

/// Keyed routing determinism: messages with the same numeric key always
/// resolve to the same partition of a topic.
pub proof fn lemma_keyed_routing_deterministic(k1: u64, k2: u64, pc: u32)
    requires
        pc >= 1,
        k1 == k2,
    ensures
        spec_route_key(k1, pc) == spec_route_key(k2, pc),
{
}

} // verus!
