//! Stream/topic registry and the operations an upper layer invokes:
//! listing streams, creating streams and topics, consumer-group
//! membership, sending messages and polling them.
//!
//! The registry is an explicit owned store; no partial mutation is
//! retained on error.

use vstd::prelude::*;
use vstd::utf8::valid_utf8;
use vstd::slice::slice_to_vec;
use crate::codec::{utf8_check, StreamInfo};
use crate::engine::{poll, spec_poll_outcome, OffsetStore, PollStart};
use crate::error::CoreError;
use crate::group::ConsumerGroup;
use crate::topic::{
    route_key, route_round_robin, spec_send_batch, spec_send_one, lemma_send_batch_push,
    lemma_send_batch_log_len, Message, Partition, Topic,
};

verus! {

/// One registered stream: id, UTF-8 name, and its topics.
pub struct StreamEntry {
    pub id: u32,
    pub name: Vec<u8>,
    pub topics: Vec<Topic>,
}

/// A stream name the registry accepts: non-empty UTF-8 that fits the
/// wire codec's u32 length prefix.
pub open spec fn spec_name_ok(name: Seq<u8>) -> bool {
    &&& 1 <= name.len() <= u32::MAX
    &&& valid_utf8(name)
}

impl StreamEntry {
    pub open spec fn wf(self) -> bool {
        &&& spec_name_ok(self.name@)
        &&& self.topics@.len() <= u32::MAX
        &&& forall|i: int, j: int|
            0 <= i < j < self.topics@.len() ==> self.topics@[i].id != self.topics@[j].id
        &&& forall|i: int| 0 <= i < self.topics@.len() ==> (#[trigger] self.topics@[i]).wf()
        &&& forall|i: int|
            0 <= i < self.topics@.len() ==> (#[trigger] self.topics@[i]).stream_id == self.id
    }
}

/// The registry: streams with their topics, consumer groups, and the
/// committed offsets the poll engine owns.
pub struct Registry {
    pub streams: Vec<StreamEntry>,
    pub groups: Vec<ConsumerGroup>,
    pub offsets: OffsetStore,
}

impl Registry {
    pub open spec fn wf(self) -> bool {
        &&& forall|i: int, j: int|
            0 <= i < j < self.streams@.len() ==> self.streams@[i].id != self.streams@[j].id
        &&& forall|i: int| 0 <= i < self.streams@.len() ==> (#[trigger] self.streams@[i]).wf()
        &&& forall|i: int, j: int|
            0 <= i < j < self.groups@.len() ==> self.groups@[i].id != self.groups@[j].id
        &&& forall|i: int| 0 <= i < self.groups@.len() ==> (#[trigger] self.groups@[i]).wf()
        &&& self.offsets.wf()
    }

    pub open spec fn spec_has_stream(self, id: u32) -> bool {
        exists|i: int| 0 <= i < self.streams@.len() && self.streams@[i].id == id
    }

    pub open spec fn spec_has_group(self, id: u32) -> bool {
        exists|i: int| 0 <= i < self.groups@.len() && self.groups@[i].id == id
    }

    /// An empty registry: every committed offset starts at zero.
    pub fn new() -> (r: Registry)
        ensures
            r.wf(),
            r.streams@.len() == 0,
            r.groups@.len() == 0,
            forall|c: u32, p: u32| r.offsets.spec_committed(c, p) == 0,
    {
        Registry { streams: Vec::new(), groups: Vec::new(), offsets: OffsetStore::new() }
    }

    /// Index of the stream with the given id.
    fn find_stream(&self, id: u32) -> (r: Option<usize>)
        ensures
            match r {
                Some(i) => i < self.streams@.len() && self.streams@[i as int].id == id,
                None => !self.spec_has_stream(id),
            },
    {
        let mut i: usize = 0;
        while i < self.streams.len()
            invariant
                0 <= i <= self.streams@.len(),
                forall|k: int| 0 <= k < i ==> self.streams@[k].id != id,
            decreases self.streams@.len() - i,
        {
            if self.streams[i].id == id {
                return Some(i);
            }
            i = i + 1;
        }
        None
    }

    /// Registers a stream. `InvalidState` when the name is empty, too
    /// long for the wire format, or not UTF-8; `AlreadyExists` when the
    /// id is taken; otherwise the stream is added with no topics.
    pub fn create_stream(&mut self, id: u32, name: Vec<u8>) -> (r: Result<(), CoreError>)
        requires
            old(self).wf(),
        ensures
            final(self).wf(),
            match r {
                Ok(()) => !old(self).spec_has_stream(id) && spec_name_ok(name@) && final(self).streams@.len() == old(self).streams@.len() + 1 && final(self).streams@.last().id
                    == id && final(self).streams@.last().name@ == name@ && final(self).streams@.last().topics@.len() == 0 && final(self).streams@.drop_last() == old(self).streams@
                    && final(self).groups == old(self).groups && final(self).offsets == old(self).offsets,
                Err(CoreError::InvalidState) => !spec_name_ok(name@) && *final(self) == *old(self),
                Err(CoreError::AlreadyExists) => spec_name_ok(name@) && old(self).spec_has_stream(
                    id,
                ) && *final(self) == *old(self),
                Err(_) => false,
            },
    {
        if name.len() == 0 || name.len() > u32::MAX as usize || !utf8_check(name.as_slice()) {
            return Err(CoreError::InvalidState);
        }
        match self.find_stream(id) {
            Some(i) => {
                proof {
                    assert(self.spec_has_stream(id));
                }
                Err(CoreError::AlreadyExists)
            },
            None => {
                let ghost s0 = self.streams@;
                self.streams.push(StreamEntry { id, name, topics: Vec::new() });
                proof {
                    assert(self.streams@.drop_last() =~= s0);
                }
                Ok(())
            },
        }
    }

    /// Index of a topic within a stream.
    fn find_topic(&self, si: usize, topic_id: u32) -> (r: Option<usize>)
        requires
            si < self.streams@.len(),
        ensures
            match r {
                Some(t) => t < self.streams@[si as int].topics@.len()
                    && self.streams@[si as int].topics@[t as int].id == topic_id,
                None => forall|t: int|
                    0 <= t < self.streams@[si as int].topics@.len()
                        ==> (#[trigger] self.streams@[si as int].topics@[t]).id != topic_id,
            },
    {
        let topics = &self.streams[si].topics;
        let mut t: usize = 0;
        while t < topics.len()
            invariant
                0 <= t <= topics@.len(),
                topics@ == self.streams@[si as int].topics@,
                forall|k: int| 0 <= k < t ==> (#[trigger] topics@[k]).id != topic_id,
            decreases topics@.len() - t,
        {
            if topics[t].id == topic_id {
                return Some(t);
            }
            t = t + 1;
        }
        None
    }

    /// Creates a topic under a stream with partitions `1..=partitions_count`,
    /// all logs empty and the round-robin cursor at zero. `NotFound` when
    /// the stream is absent, `InvalidState` for zero partitions or a full
    /// topic table, `AlreadyExists` for a taken topic id.
    pub fn create_topic(
        &mut self,
        stream_id: u32,
        topic_id: u32,
        name: Vec<u8>,
        partitions_count: u32,
    ) -> (r: Result<(), CoreError>)
        requires
            old(self).wf(),
        ensures
            final(self).wf(),
            match r {
                Ok(()) => exists|si: int|
                    0 <= si < old(self).streams@.len() && (#[trigger] old(self).streams@[si]).id
                        == stream_id && partitions_count >= 1 && final(self).streams@ == old(self).streams@.update(si, final(self).streams@[si]) && final(self).streams@[si].id
                        == old(self).streams@[si].id && final(self).streams@[si].name == old(self).streams@[si].name && final(self).streams@[si].topics@.len() == old(self).streams@[si].topics@.len() + 1 && final(self).streams@[si].topics@.drop_last()
                        == old(self).streams@[si].topics@ && ({
                        let t = final(self).streams@[si].topics@.last();
                        &&& t.id == topic_id
                        &&& t.stream_id == stream_id
                        &&& t.name@ == name@
                        &&& t.partitions_count == partitions_count
                        &&& t.cursor == 0
                        &&& forall|p: int|
                            0 <= p < t.partitions@.len() ==> (#[trigger] t.partitions@[p]).log@.len()
                                == 0
                    }) && final(self).groups == old(self).groups
                    && final(self).offsets == old(self).offsets,
                Err(CoreError::NotFound) => !old(self).spec_has_stream(stream_id) && *final(self)
                    == *old(self),
                Err(CoreError::InvalidState) => old(self).spec_has_stream(stream_id) && (
                partitions_count == 0 || exists|si: int|
                    0 <= si < old(self).streams@.len() && (#[trigger] old(self).streams@[si]).id
                        == stream_id && old(self).streams@[si].topics@.len() == u32::MAX) && *final(self) == *old(self),
                Err(CoreError::AlreadyExists) => exists|si: int|
                    0 <= si < old(self).streams@.len() && (#[trigger] old(self).streams@[si]).id
                        == stream_id && exists|t: int|
                        0 <= t < old(self).streams@[si].topics@.len() && (#[trigger] old(self).streams@[si].topics@[t]).id == topic_id && *final(self) == *old(self),
                Err(_) => false,
            },
    {
        let si = match self.find_stream(stream_id) {
            None => {
                return Err(CoreError::NotFound);
            },
            Some(si) => si,
        };
        if partitions_count == 0 {
            proof {
                assert(self.spec_has_stream(stream_id));
            }
            return Err(CoreError::InvalidState);
        }
        if self.streams[si].topics.len() >= u32::MAX as usize {
            proof {
                assert(self.spec_has_stream(stream_id));
                assert(self.streams@[si as int].topics@.len() == u32::MAX);
            }
            return Err(CoreError::InvalidState);
        }
        match self.find_topic(si, topic_id) {
            Some(t) => {
                proof {
                    assert(0 <= t < self.streams@[si as int].topics@.len() && self.streams@[si as int].topics@[t as int].id
                        == topic_id && *self == *old(self));
                }
                Err(CoreError::AlreadyExists)
            },
            None => {
                let mut partitions: Vec<Partition> = Vec::new();
                let mut p: u64 = 1;
                while p <= partitions_count as u64
                    invariant
                        1 <= p <= partitions_count as int + 1,
                        partitions@.len() == p - 1,
                        forall|k: int|
                            0 <= k < partitions@.len() ==> (#[trigger] partitions@[k]).id == k + 1
                                && partitions@[k].log@.len() == 0,
                    decreases partitions_count as int + 1 - p as int,
                {
                    partitions.push(Partition { id: p as u32, log: Vec::new() });
                    p = p + 1;
                }
                let topic = Topic {
                    id: topic_id,
                    stream_id,
                    name,
                    partitions,
                    partitions_count,
                    cursor: 0,
                };
                proof {
                    assert(topic.wf()) by {
                        assert(forall|k: int|
                            0 <= k < topic.partitions@.len() ==> (#[trigger] topic.partitions@[k]).wf());
                    }
                }
                let ghost streams0 = self.streams@;
                let ghost topics0 = self.streams@[si as int].topics@;
                let entry = &mut self.streams[si];
                entry.topics.push(topic);
                proof {
                    assert(self.streams@[si as int].topics@.drop_last() =~= topics0);
                    let e = self.streams@[si as int];
                    assert(e.wf()) by {
                        assert forall|a: int, b: int| 0 <= a < b < e.topics@.len() implies e.topics@[a].id
                            != e.topics@[b].id by {
                            if b < e.topics@.len() - 1 {
                                assert(e.topics@[a] == topics0[a]);
                                assert(e.topics@[b] == topics0[b]);
                            } else {
                                assert(e.topics@[a] == topics0[a]);
                                assert(e.topics@[b] == topic);
                            }
                        }
                        assert forall|a: int| 0 <= a < e.topics@.len() implies (#[trigger] e.topics@[a]).wf()
                            && e.topics@[a].stream_id == e.id by {
                            if a < e.topics@.len() - 1 {
                                assert(e.topics@[a] == topics0[a]);
                            } else {
                                assert(e.topics@[a] == topic);
                            }
                        }
                    }
                    assert(self.streams@ == streams0.update(si as int, e));
                }
                Ok(())
            },
        }
    }

    /// The streams as listing records: each stream's id, its number of
    /// topics, and its name, in registry order.
    pub fn list_streams(&self) -> (r: Vec<StreamInfo>)
        requires
            self.wf(),
        ensures
            r@.len() == self.streams@.len(),
            forall|i: int|
                0 <= i < r@.len() ==> (#[trigger] r@[i]).id == self.streams@[i].id && r@[i].topic_count
                    == self.streams@[i].topics@.len() && r@[i].name@ == self.streams@[i].name@,
    {
        let mut r: Vec<StreamInfo> = Vec::new();
        let mut i: usize = 0;
        while i < self.streams.len()
            invariant
                0 <= i <= self.streams@.len(),
                self.wf(),
                r@.len() == i,
                forall|k: int|
                    0 <= k < i ==> (#[trigger] r@[k]).id == self.streams@[k].id && r@[k].topic_count
                        == self.streams@[k].topics@.len() && r@[k].name@ == self.streams@[k].name@,
            decreases self.streams@.len() - i,
        {
            let s = &self.streams[i];
            let info = StreamInfo {
                id: s.id,
                topic_count: s.topics.len() as u32,
                name: slice_to_vec(s.name.as_slice()),
            };
            r.push(info);
            i = i + 1;
        }
        r
    }

    /// Index of the group with the given id.
    fn find_group(&self, id: u32) -> (r: Option<usize>)
        ensures
            match r {
                Some(i) => i < self.groups@.len() && self.groups@[i as int].id == id,
                None => !self.spec_has_group(id),
            },
    {
        let mut i: usize = 0;
        while i < self.groups.len()
            invariant
                0 <= i <= self.groups@.len(),
                forall|k: int| 0 <= k < i ==> self.groups@[k].id != id,
            decreases self.groups@.len() - i,
        {
            if self.groups[i].id == id {
                return Some(i);
            }
            i = i + 1;
        }
        None
    }

    /// Creates an empty consumer group bound to an existing topic.
    /// `NotFound` when the stream or topic is absent, `AlreadyExists`
    /// when the group id is taken.
    pub fn create_consumer_group(&mut self, group_id: u32, stream_id: u32, topic_id: u32) -> (r:
        Result<(), CoreError>)
        requires
            old(self).wf(),
        ensures
            final(self).wf(),
            match r {
                Ok(()) => !old(self).spec_has_group(group_id) && final(self).groups@.len() == old(self).groups@.len() + 1 && final(self).groups@.drop_last() == old(self).groups@ && ({
                    let g = final(self).groups@.last();
                    &&& g.id == group_id
                    &&& g.stream_id == stream_id
                    &&& g.topic_id == topic_id
                    &&& g.members@.len() == 0
                }) && final(self).streams == old(self).streams && final(self).offsets == old(self).offsets,
                Err(CoreError::NotFound) => (!old(self).spec_has_stream(stream_id) || exists|si: int|
                    0 <= si < old(self).streams@.len() && (#[trigger] old(self).streams@[si]).id
                        == stream_id && (forall|t: int|
                        0 <= t < old(self).streams@[si].topics@.len() ==> (#[trigger] old(self).streams@[si].topics@[t]).id != topic_id)) && *final(self) == *old(self),
                Err(CoreError::AlreadyExists) => old(self).spec_has_group(group_id) && *final(self)
                    == *old(self),
                Err(_) => false,
            },
    {
        let si = match self.find_stream(stream_id) {
            None => {
                return Err(CoreError::NotFound);
            },
            Some(si) => si,
        };
        let ti = match self.find_topic(si, topic_id) {
            None => {
                proof {
                    assert(0 <= si < self.streams@.len() && self.streams@[si as int].id == stream_id);
                }
                return Err(CoreError::NotFound);
            },
            Some(ti) => ti,
        };
        match self.find_group(group_id) {
            Some(_) => {
                proof {
                    assert(self.spec_has_group(group_id));
                }
                Err(CoreError::AlreadyExists)
            },
            None => {
                let pc = self.streams[si].topics[ti].partitions_count;
                let ghost g0 = self.groups@;
                proof {
                    assert(self.streams@[si as int].wf());
                    assert(self.streams@[si as int].topics@[ti as int].wf());
                }
                self.groups.push(
                    ConsumerGroup {
                        id: group_id,
                        stream_id,
                        topic_id,
                        partitions_count: pc,
                        members: Vec::new(),
                    },
                );
                proof {
                    assert(self.groups@.drop_last() =~= g0);
                    assert forall|a: int, b: int|
                        0 <= a < b < self.groups@.len() implies self.groups@[a].id
                        != self.groups@[b].id by {
                        if b < self.groups@.len() - 1 {
                        } else {
                            assert(self.groups@[a] == g0[a]);
                            assert(!old(self).spec_has_group(group_id));
                        }
                    }
                    assert(self.groups@.last().wf());
                }
                Ok(())
            },
        }
    }

    /// Joins a member to a group and rebalances; a second join by the
    /// same member changes nothing. `NotFound` when the group is absent.
    pub fn join_consumer_group(&mut self, group_id: u32, member_id: u32) -> (r: Result<
        (),
        CoreError,
    >)
        requires
            old(self).wf(),
        ensures
            final(self).wf(),
            final(self).streams == old(self).streams,
            final(self).offsets == old(self).offsets,
            match r {
                Ok(()) => exists|gi: int|
                    0 <= gi < old(self).groups@.len() && (#[trigger] old(self).groups@[gi]).id
                        == group_id && final(self).groups@ == old(self).groups@.update(
                        gi,
                        final(self).groups@[gi],
                    ) && final(self).groups@[gi].id == group_id && final(self).groups@[gi].wf() && (
                    old(self).groups@[gi].spec_contains_member(member_id) ==> final(self).groups@[gi]
                        == old(self).groups@[gi]) && (!old(self).groups@[gi].spec_contains_member(
                        member_id,
                    ) ==> final(self).groups@[gi].member_ids() == old(self).groups@[gi].member_ids().push(member_id)),
                Err(CoreError::NotFound) => !old(self).spec_has_group(group_id) && *final(self)
                    == *old(self),
                Err(CoreError::InvalidState) => (exists|gi: int|
                    0 <= gi < old(self).groups@.len() && (#[trigger] old(self).groups@[gi]).id
                        == group_id && old(self).groups@[gi].members@.len() >= u32::MAX) && *final(self) == *old(self),
                Err(_) => false,
            },
    {
        let gi = match self.find_group(group_id) {
            None => {
                return Err(CoreError::NotFound);
            },
            Some(gi) => gi,
        };
        if self.groups[gi].members.len() >= u32::MAX as usize {
            proof {
                assert(0 <= gi < self.groups@.len() && self.groups@[gi as int].id == group_id
                    && self.groups@[gi as int].members@.len() >= u32::MAX);
            }
            return Err(CoreError::InvalidState);
        }
        let ghost groups0 = self.groups@;
        let g = &mut self.groups[gi];
        let r = g.join(member_id);
        proof {
            assert(self.groups@ == groups0.update(gi as int, self.groups@[gi as int]));
            assert forall|a: int, b: int|
                0 <= a < b < self.groups@.len() implies self.groups@[a].id != self.groups@[b].id by {
                assert(groups0[a].id == self.groups@[a].id || a == gi as int);
                assert(groups0[b].id == self.groups@[b].id || b == gi as int);
            }
            assert forall|a: int| 0 <= a < self.groups@.len() implies (#[trigger] self.groups@[a]).wf()
                by {
                if a != gi as int {
                    assert(self.groups@[a] == groups0[a]);
                }
            }
        }
        r
    }

    /// Removes a member from a group and rebalances; its partitions move
    /// to the remaining members atomically with the recomputation.
    /// `NotFound` when the group is absent or the id is not a member.
    pub fn leave_consumer_group(&mut self, group_id: u32, member_id: u32) -> (r: Result<
        (),
        CoreError,
    >)
        requires
            old(self).wf(),
        ensures
            final(self).wf(),
            final(self).streams == old(self).streams,
            final(self).offsets == old(self).offsets,
            match r {
                Ok(()) => exists|gi: int|
                    0 <= gi < old(self).groups@.len() && (#[trigger] old(self).groups@[gi]).id
                        == group_id && final(self).groups@ == old(self).groups@.update(
                        gi,
                        final(self).groups@[gi],
                    ) && final(self).groups@[gi].id == group_id && final(self).groups@[gi].wf()
                        && old(self).groups@[gi].spec_contains_member(member_id) && exists|mi: int|
                        0 <= mi < old(self).groups@[gi].member_ids().len() && old(self).groups@[gi].member_ids()[mi] == member_id && final(self).groups@[gi].member_ids() == old(self).groups@[gi].member_ids().remove(mi),
                Err(CoreError::NotFound) => (!old(self).spec_has_group(group_id) || exists|gi: int|
                    0 <= gi < old(self).groups@.len() && (#[trigger] old(self).groups@[gi]).id
                        == group_id && !old(self).groups@[gi].spec_contains_member(member_id))
                    && final(self).groups@ == old(self).groups@,
                Err(_) => false,
            },
    {
        let gi = match self.find_group(group_id) {
            None => {
                return Err(CoreError::NotFound);
            },
            Some(gi) => gi,
        };
        let ghost groups0 = self.groups@;
        let g = &mut self.groups[gi];
        let r = g.leave(member_id);
        proof {
            assert(self.groups@ == groups0.update(gi as int, self.groups@[gi as int]));
            assert forall|a: int, b: int|
                0 <= a < b < self.groups@.len() implies self.groups@[a].id != self.groups@[b].id by {
                assert(groups0[a].id == self.groups@[a].id || a == gi as int);
                assert(groups0[b].id == self.groups@[b].id || b == gi as int);
            }
            assert forall|a: int| 0 <= a < self.groups@.len() implies (#[trigger] self.groups@[a]).wf()
                by {
                if a != gi as int {
                    assert(self.groups@[a] == groups0[a]);
                }
            }
        }
        match r {
            Ok(()) => {
                proof {
                    let gsel = groups0[gi as int];
                    assert(gsel.id == group_id);
                    assert(self.groups@[gi as int].id == group_id);
                    assert(gsel.spec_contains_member(member_id));
                    assert(exists|mi: int|
                        0 <= mi < gsel.member_ids().len() && gsel.member_ids()[mi] == member_id
                            && self.groups@[gi as int].member_ids() == gsel.member_ids().remove(mi));
                }
                Ok(())
            },
            Err(e) => {
                proof {
                    assert(self.groups@[gi as int] == groups0[gi as int]);
                    assert(groups0.update(gi as int, self.groups@[gi as int]) =~= groups0);
                    assert(groups0[gi as int].id == group_id);
                }
                Err(e)
            },
        }
    }

    /// Every partition log still has room for `extra` more messages
    /// before its u64 offsets would run out.
    pub open spec fn spec_logs_have_room(self, extra: int) -> bool {
        forall|si: int, ti: int, pi: int|
            0 <= si < self.streams@.len() && 0 <= ti < self.streams@[si].topics@.len() && 0 <= pi
                < self.streams@[si].topics@[ti].partitions@.len() ==> (#[trigger] self.streams@[si].topics@[ti].partitions@[pi]).log@.len()
                + extra <= u64::MAX
    }

    /// Sends a batch of payloads to a topic. A keyed batch goes wholly
    /// to `(key mod partitions_count) + 1`; a keyless batch is spread
    /// round-robin, the cursor advancing once per message. Appends are
    /// in payload order; `NotFound` when the stream or topic is absent.
    pub fn send_messages(
        &mut self,
        stream_id: u32,
        topic_id: u32,
        key: Option<u64>,
        payloads: &Vec<Vec<u8>>,
    ) -> (r: Result<(), CoreError>)
        requires
            old(self).wf(),
            old(self).spec_logs_have_room(payloads@.len() as int),
        ensures
            final(self).wf(),
            final(self).groups == old(self).groups,
            final(self).offsets == old(self).offsets,
            match r {
                Ok(()) => exists|si: int, ti: int|
                    0 <= si < old(self).streams@.len() && (#[trigger] old(self).streams@[si]).id
                        == stream_id && 0 <= ti < old(self).streams@[si].topics@.len() && (
                    #[trigger] old(self).streams@[si].topics@[ti]).id == topic_id && final(self).streams@ == old(self).streams@.update(si, final(self).streams@[si]) && final(self).streams@[si].id == old(self).streams@[si].id && final(self).streams@[si].name@
                        == old(self).streams@[si].name@ && final(self).streams@[si].topics@ == old(self).streams@[si].topics@.update(ti, final(self).streams@[si].topics@[ti]) && ({
                        let t0 = old(self).streams@[si].topics@[ti];
                        let t1 = final(self).streams@[si].topics@[ti];
                        &&& t1.id == t0.id
                        &&& t1.stream_id == t0.stream_id
                        &&& t1.name@ == t0.name@
                        &&& t1.partitions_count == t0.partitions_count
                        &&& t1.model() == spec_send_batch(
                            t0.model(),
                            key,
                            payloads@.map_values(|p: Vec<u8>| p@),
                        )
                    }),
                Err(CoreError::NotFound) => (!old(self).spec_has_stream(stream_id) || exists|si: int|
                    0 <= si < old(self).streams@.len() && (#[trigger] old(self).streams@[si]).id
                        == stream_id && (forall|t: int|
                        0 <= t < old(self).streams@[si].topics@.len() ==> (#[trigger] old(self).streams@[si].topics@[t]).id != topic_id)) && *final(self) == *old(self),
                Err(_) => false,
            },
    {
        let si = match self.find_stream(stream_id) {
            None => {
                return Err(CoreError::NotFound);
            },
            Some(si) => si,
        };
        let ti = match self.find_topic(si, topic_id) {
            None => {
                proof {
                    assert(0 <= si < self.streams@.len() && self.streams@[si as int].id == stream_id);
                }
                return Err(CoreError::NotFound);
            },
            Some(ti) => ti,
        };
        proof {
            assert(self.streams@[si as int].wf());
            assert(self.streams@[si as int].topics@[ti as int].wf());
        }
        let ghost n = payloads@.len() as int;
        let ghost m0 = self.streams@[si as int].topics@[ti as int].model();
        proof {
            assert forall|j: int| 0 <= j < m0.logs.len() implies (#[trigger] m0.logs[j]).len() + n
                <= u64::MAX by {
                assert(self.streams@[si as int].topics@[ti as int].partitions@[j].log@.len() + n
                    <= u64::MAX);
                assert(m0.logs[j] == self.streams@[si as int].topics@[ti as int].partitions@[j].spec_log());
            }
        }
        let entry = &mut self.streams[si];
        let t = &mut entry.topics[ti];
        let ghost t0val = *t;
        let ghost views = payloads@.map_values(|p: Vec<u8>| p@);
        let mut w: usize = 0;
        proof {
            assert(views.subrange(0, 0) =~= Seq::<Seq<u8>>::empty());
            assert(spec_send_batch(m0, key, views.subrange(0, 0)) == m0);
        }
        while w < payloads.len()
            invariant
                0 <= w <= payloads@.len(),
                views == payloads@.map_values(|p: Vec<u8>| p@),
                views.len() == payloads@.len(),
                n == payloads@.len(),
                t.wf(),
                t.id == t0val.id,
                t.stream_id == t0val.stream_id,
                t.name == t0val.name,
                t.partitions_count == t0val.partitions_count,
                m0 == t0val.model(),
                t0val.wf(),
                m0.pc == t.partitions_count as int,
                m0.logs.len() == m0.pc,
                forall|j: int| 0 <= j < m0.logs.len() ==> (#[trigger] m0.logs[j]).len() + n
                    <= u64::MAX,
                t.model() == spec_send_batch(m0, key, views.subrange(0, w as int)),
            decreases payloads@.len() - w,
        {
            let ghost mprev = t.model();
            let payload = slice_to_vec(payloads[w].as_slice());
            proof {
                assert(payload@ == views[w as int]);
            }
            let pid: u32 = match key {
                Some(k) => route_key(k, t.partitions_count),
                None => route_round_robin(t),
            };
            let idx: usize = (pid - 1) as usize;
            proof {
                lemma_send_batch_log_len(m0, key, views.subrange(0, w as int), idx as int);
                assert(t.model().logs[idx as int].len() <= m0.logs[idx as int].len() + w);
                assert(t.partitions@[idx as int].spec_log() == t.model().logs[idx as int]);
                assert(t.partitions@[idx as int].log@.len() < u64::MAX);
            }
            let ghost tmid = *t;
            let part = &mut t.partitions[idx];
            part.append(payload, key);
            proof {
                assert(t.partitions@ == tmid.partitions@.update(idx as int, t.partitions@[idx as int]));
                assert forall|j: int| 0 <= j < t.model().logs.len() implies #[trigger] t.model().logs[j]
                    == spec_send_one(mprev, key, views[w as int]).logs[j] by {
                    assert(t.model().logs[j] == t.partitions@[j].spec_log());
                    if j == idx as int {
                    } else {
                        assert(t.partitions@[j] == tmid.partitions@[j]);
                    }
                }
                assert(t.model().logs =~= spec_send_one(mprev, key, views[w as int]).logs);
                assert(t.model() == spec_send_one(mprev, key, views[w as int]));
                lemma_send_batch_push(m0, key, views.subrange(0, w as int), views[w as int]);
                assert(views.subrange(0, w as int).push(views[w as int]) =~= views.subrange(
                    0,
                    w as int + 1,
                ));
                assert forall|a: int| 0 <= a < t.partitions@.len() implies (#[trigger] t.partitions@[a]).wf()
                    && t.partitions@[a].id == a + 1 by {
                    if a != idx as int {
                        assert(t.partitions@[a] == tmid.partitions@[a]);
                    }
                }
            }
            w = w + 1;
        }
        proof {
            assert(views.subrange(0, views.len() as int) =~= views);
        }
        Ok(())
    }

    /// First partition usable for `consumer_id` on the given topic via
    /// its consumer-group assignment: the lowest partition assigned to
    /// it in some group of that topic, provided the id fits `1..=pc`.
    fn find_assignment(&self, consumer_id: u32, stream_id: u32, topic_id: u32, pc: u32) -> (r:
        Option<u32>)
        requires
            self.wf(),
        ensures
            match r {
                Some(rp) => 1 <= rp <= pc && exists|gi: int, mi: int|
                    0 <= gi < self.groups@.len() && (#[trigger] self.groups@[gi]).stream_id
                        == stream_id && self.groups@[gi].topic_id == topic_id && 0 <= mi
                        < self.groups@[gi].members@.len() && (#[trigger] self.groups@[gi].members@[mi]).id
                        == consumer_id && self.groups@[gi].members@[mi].partitions@.len() > 0
                        && self.groups@[gi].members@[mi].partitions@[0] == rp,
                None => forall|gi: int, mi: int|
                    0 <= gi < self.groups@.len() && (#[trigger] self.groups@[gi]).stream_id
                        == stream_id && self.groups@[gi].topic_id == topic_id && 0 <= mi
                        < self.groups@[gi].members@.len() && (#[trigger] self.groups@[gi].members@[mi]).id
                        == consumer_id ==> !(self.groups@[gi].members@[mi].partitions@.len() > 0 && 1
                        <= self.groups@[gi].members@[mi].partitions@[0]
                        && self.groups@[gi].members@[mi].partitions@[0] <= pc),
            },
    {
        let mut gi: usize = 0;
        while gi < self.groups.len()
            invariant
                0 <= gi <= self.groups@.len(),
                self.wf(),
                forall|g2: int, mi: int|
                    0 <= g2 < gi && (#[trigger] self.groups@[g2]).stream_id == stream_id
                        && self.groups@[g2].topic_id == topic_id && 0 <= mi
                        < self.groups@[g2].members@.len() && (#[trigger] self.groups@[g2].members@[mi]).id
                        == consumer_id ==> !(self.groups@[g2].members@[mi].partitions@.len() > 0 && 1
                        <= self.groups@[g2].members@[mi].partitions@[0]
                        && self.groups@[g2].members@[mi].partitions@[0] <= pc),
            decreases self.groups@.len() - gi,
        {
            let g = &self.groups[gi];
            if g.stream_id == stream_id && g.topic_id == topic_id {
                proof {
                    assert(self.groups@[gi as int].wf());
                }
                match g.member_partitions(consumer_id) {
                    Some(v) => {
                        if v.len() > 0 {
                            let rp = v[0];
                            if 1 <= rp && rp <= pc {
                                return Some(rp);
                            }
                        }
                        proof {
                            let g0 = self.groups@[gi as int];
                            let mi0 = choose|mi: int|
                                0 <= mi < g0.members@.len() && g0.members@[mi].id == consumer_id
                                    && v@ == crate::group::spec_member_partitions(
                                    mi,
                                    g0.members@.len() as int,
                                    g0.partitions_count as int,
                                );
                            assert forall|mi: int|
                                0 <= mi < g0.members@.len() && (#[trigger] g0.members@[mi]).id
                                    == consumer_id implies !(g0.members@[mi].partitions@.len() > 0
                                && 1 <= g0.members@[mi].partitions@[0]
                                && g0.members@[mi].partitions@[0] <= pc) by {
                                if mi < mi0 {
                                    assert(g0.members@[mi].id != g0.members@[mi0].id);
                                } else if mi > mi0 {
                                    assert(g0.members@[mi0].id != g0.members@[mi].id);
                                } else {
                                    assert(g0.members@[mi].partitions@ == v@);
                                }
                            }
                        }
                    },
                    None => {
                        proof {
                            let g0 = self.groups@[gi as int];
                            assert forall|mi: int|
                                0 <= mi < g0.members@.len() && (#[trigger] g0.members@[mi]).id
                                    == consumer_id implies false by {
                                assert(g0.member_ids()[mi] == g0.members@[mi].id);
                                assert(g0.spec_contains_member(consumer_id));
                            }
                        }
                    },
                }
            }
            gi = gi + 1;
        }
        None
    }

    /// Polls messages for a consumer. With an explicit partition id the
    /// read targets that partition; with the id `0` the partition is
    /// resolved from the consumer's group assignment for the topic. The
    /// returned messages, the exhaustion signal and the auto-commit
    /// behaviour are exactly those of the poll engine on the resolved
    /// partition. `NotFound` names a missing stream, topic or partition;
    /// `InvalidState` a group-resolved poll with no usable assignment.
    pub fn poll_messages(
        &mut self,
        consumer_id: u32,
        stream_id: u32,
        topic_id: u32,
        partition_id: u32,
        start: PollStart,
        count: u32,
        auto_commit: bool,
    ) -> (r: Result<Vec<Message>, CoreError>)
        requires
            old(self).wf(),
        ensures
            final(self).wf(),
            final(self).streams == old(self).streams,
            final(self).groups == old(self).groups,
            match r {
                Ok(msgs) => exists|si: int, ti: int|
                    0 <= si < old(self).streams@.len() && (#[trigger] old(self).streams@[si]).id
                        == stream_id && 0 <= ti < old(self).streams@[si].topics@.len() && (
                    #[trigger] old(self).streams@[si].topics@[ti]).id == topic_id && exists|rp: u32|
                        1 <= rp <= old(self).streams@[si].topics@[ti].partitions_count && (
                        partition_id != 0 ==> rp == partition_id) && (partition_id == 0
                            ==> exists|gi: int, mi: int|
                            0 <= gi < old(self).groups@.len() && (#[trigger] old(self).groups@[gi]).stream_id == stream_id && old(self).groups@[gi].topic_id
                                == topic_id && 0 <= mi < old(self).groups@[gi].members@.len() && (
                            #[trigger] old(self).groups@[gi].members@[mi]).id == consumer_id && old(self).groups@[gi].members@[mi].partitions@.len() > 0 && old(self).groups@[gi].members@[mi].partitions@[0] == rp) && (#[trigger] old(self).streams@[si].topics@[ti].partitions@[rp - 1]).id == rp && spec_poll_outcome(
                            old(self).streams@[si].topics@[ti].partitions@[rp - 1].spec_log(),
                            rp,
                            consumer_id,
                            start,
                            count,
                            auto_commit,
                            old(self).offsets,
                            final(self).offsets,
                            msgs@.map_values(|m: Message| m@),
                        ),
                Err(CoreError::NotFound) => final(self).offsets == old(self).offsets && (!old(self).spec_has_stream(stream_id) || (exists|si: int|
                    0 <= si < old(self).streams@.len() && (#[trigger] old(self).streams@[si]).id
                        == stream_id && (forall|t: int|
                        0 <= t < old(self).streams@[si].topics@.len() ==> (#[trigger] old(self).streams@[si].topics@[t]).id != topic_id)) || (partition_id != 0 && exists|
                    si: int,
                    ti: int,
                |
                    0 <= si < old(self).streams@.len() && (#[trigger] old(self).streams@[si]).id
                        == stream_id && 0 <= ti < old(self).streams@[si].topics@.len() && (
                    #[trigger] old(self).streams@[si].topics@[ti]).id == topic_id && partition_id
                        > old(self).streams@[si].topics@[ti].partitions_count)),
                Err(CoreError::InvalidState) => final(self).offsets == old(self).offsets
                    && partition_id == 0 && (exists|si: int, ti: int|
                    0 <= si < old(self).streams@.len() && (#[trigger] old(self).streams@[si]).id
                        == stream_id && 0 <= ti < old(self).streams@[si].topics@.len() && (
                    #[trigger] old(self).streams@[si].topics@[ti]).id == topic_id && (forall|
                        gi: int,
                        mi: int,
                    |
                        0 <= gi < old(self).groups@.len() && (#[trigger] old(self).groups@[gi]).stream_id == stream_id && old(self).groups@[gi].topic_id
                            == topic_id && 0 <= mi < old(self).groups@[gi].members@.len() && (
                        #[trigger] old(self).groups@[gi].members@[mi]).id == consumer_id ==> !(old(self).groups@[gi].members@[mi].partitions@.len() > 0 && 1 <= old(self).groups@[gi].members@[mi].partitions@[0] && old(self).groups@[gi].members@[mi].partitions@[0] <= old(self).streams@[si].topics@[ti].partitions_count))),
                Err(_) => false,
            },
    {
        let si = match self.find_stream(stream_id) {
            None => {
                return Err(CoreError::NotFound);
            },
            Some(si) => si,
        };
        let ti = match self.find_topic(si, topic_id) {
            None => {
                proof {
                    assert(0 <= si < self.streams@.len() && self.streams@[si as int].id == stream_id);
                }
                return Err(CoreError::NotFound);
            },
            Some(ti) => ti,
        };
        proof {
            assert(self.streams@[si as int].wf());
            assert(self.streams@[si as int].topics@[ti as int].wf());
        }
        let pc = self.streams[si].topics[ti].partitions_count;
        let rp: u32 = if partition_id == 0 {
            match self.find_assignment(consumer_id, stream_id, topic_id, pc) {
                None => {
                    return Err(CoreError::InvalidState);
                },
                Some(rp) => rp,
            }
        } else {
            if partition_id > pc {
                return Err(CoreError::NotFound);
            }
            partition_id
        };
        let pi: usize = (rp - 1) as usize;
        proof {
            assert(self.streams@[si as int].topics@[ti as int].partitions@[pi as int].wf());
            assert(self.streams@[si as int].topics@[ti as int].partitions@[pi as int].id == rp);
        }
        let part = &self.streams[si].topics[ti].partitions[pi];
        let msgs = poll(part, &mut self.offsets, consumer_id, start, count, auto_commit);
        Ok(msgs)
    }

    /// The current snapshot of a group, `None` when no group has the id.
    /// Membership and assignment may change between calls.
    pub fn get_consumer_group(&self, group_id: u32) -> (r: Option<&ConsumerGroup>)
        ensures
            match r {
                Some(g) => exists|gi: int|
                    0 <= gi < self.groups@.len() && *g == self.groups@[gi] && g.id == group_id,
                None => !self.spec_has_group(group_id),
            },
    {
        match self.find_group(group_id) {
            Some(gi) => Some(&self.groups[gi]),
            None => None,
        }
    }
}

} // verus!
