//! Consumer-group coordinator: membership and deterministic round-robin
//! partition assignment.
//!
//! Partitions carry ids `1..=partitions_count`; partition `p` belongs to
//! the member at index `(p - 1) mod member_count` of the ordered member
//! list. The assignment is a pure function of the member list's length
//! and the partition count, recomputed in full on every join or leave,
//! so no intermediate state is ever observable and replaying the same
//! membership snapshot always yields the same assignment.

use vstd::prelude::*;
use vstd::arithmetic::div_mod::{
    lemma_basic_div, lemma_div_is_ordered, lemma_div_plus_one, lemma_div_pos_is_pos,
    lemma_fundamental_div_mod, lemma_mod_division_less_than_divisor, lemma_mod_multiples_basic,
    lemma_mod_multiples_vanish, lemma_small_mod,
};
use crate::error::CoreError;

verus! {

/// One group member: its client identity and the partitions it holds.
pub struct Member {
    pub id: u32,
    pub partitions: Vec<u32>,
}

/// The partition ids `start, start + step, start + 2*step, ...` up to
/// `bound`, in ascending order.
pub open spec fn spec_assigned(start: int, step: int, bound: int) -> Seq<u32>
    decreases bound + step - start,
    when step >= 1 && start >= 1
{
    if start > bound {
        Seq::empty()
    } else {
        seq![start as u32] + spec_assigned(start + step, step, bound)
    }
}

/// What the member at index `i` of `m` members owns when there are
/// `pc` partitions.
pub open spec fn spec_member_partitions(i: int, m: int, pc: int) -> Seq<u32> {
    spec_assigned(i + 1, m, pc)
}

/// Length and elements of `spec_assigned`: the `k`-th entry is
/// `start + k*step`, and there are `(bound - start) / step + 1` of them
/// when `start <= bound`.
pub proof fn lemma_assigned_shape(start: int, step: int, bound: int)
    requires
        1 <= step,
        1 <= start,
    ensures
        spec_assigned(start, step, bound).len() == (if start > bound {
            0int
        } else {
            (bound - start) / step + 1
        }),
        forall|k: int|
            0 <= k < spec_assigned(start, step, bound).len()
                ==> #[trigger] spec_assigned(start, step, bound)[k] == (start + k * step) as u32
                && start + k * step <= bound,
    decreases bound + step - start,
{
    let s = spec_assigned(start, step, bound);
    if start <= bound {
        let rest = spec_assigned(start + step, step, bound);
        lemma_assigned_shape(start + step, step, bound);
        assert(s == seq![start as u32] + rest);
        if start + step > bound {
            assert(0 <= bound - start < step);
            lemma_basic_div(bound - start, step);
            assert(s.len() == 1);
        } else {
            lemma_div_plus_one(bound - start - step, step);
        }
        assert forall|k: int| 0 <= k < s.len() implies #[trigger] s[k] == (start + k * step) as u32
            && start + k * step <= bound by {
            if k == 0 {
                assert(k * step == 0);
                assert(s[0] == start as u32);
            } else {
                assert(s[k] == rest[k - 1]);
                assert((start + step) + (k - 1) * step == start + k * step) by (nonlinear_arith);
            }
        }
    }
}

/// Membership in `spec_assigned`: exactly the ids congruent to `start`
/// modulo `step` within `start..=bound`.
pub proof fn lemma_assigned_contains(start: int, step: int, bound: int, q: u32)
    requires
        1 <= step,
        1 <= start,
        bound <= u32::MAX,
    ensures
        spec_assigned(start, step, bound).contains(q) <==> (start <= q <= bound && (q - start)
            % step == 0),
{
    let s = spec_assigned(start, step, bound);
    lemma_assigned_shape(start, step, bound);
    if s.contains(q) {
        let k = choose|k: int| 0 <= k < s.len() && s[k] == q;
        assert(k * step >= 0) by (nonlinear_arith)
            requires
                k >= 0,
                step >= 1,
        ;
        assert(s[k] == (start + k * step) as u32);
        assert(q == start + k * step);
        lemma_mod_multiples_basic(k, step);
        assert((q - start) % step == 0);
    }
    if start <= q <= bound && (q - start) % step == 0 {
        let d = q - start;
        lemma_fundamental_div_mod(d, step);
        let k = d / step;
        assert(d == step * k);
        lemma_div_pos_is_pos(d, step);
        lemma_div_is_ordered(d, bound - start, step);
        assert(k < s.len());
        assert(start + k * step == q as int) by (nonlinear_arith)
            requires
                d == step * k,
                d == q - start,
        ;
        assert(s[k] == (start + k * step) as u32);
        assert(s[k] == q);
        assert(s.contains(q));
    }
}

/// A consumer group: its identity, the topic it reads, the topic's
/// partition count as of the last rebalance, and the ordered member list.
pub struct ConsumerGroup {
    pub id: u32,
    pub stream_id: u32,
    pub topic_id: u32,
    pub partitions_count: u32,
    pub members: Vec<Member>,
}

impl ConsumerGroup {
    /// The ordered member identities.
    pub open spec fn member_ids(self) -> Seq<u32> {
        self.members@.map_values(|mb: Member| mb.id)
    }

    pub open spec fn spec_contains_member(self, id: u32) -> bool {
        self.member_ids().contains(id)
    }

    /// Well-formed: at least one partition, distinct member ids, and
    /// every member holding exactly its round-robin share.
    pub open spec fn wf(self) -> bool {
        &&& 1 <= self.partitions_count
        &&& self.members@.len() <= u32::MAX
        &&& forall|i: int, j: int|
            0 <= i < j < self.members@.len() ==> self.members@[i].id != self.members@[j].id
        &&& forall|i: int|
            0 <= i < self.members@.len() ==> (#[trigger] self.members@[i]).partitions@
                == spec_member_partitions(i, self.members@.len() as int, self.partitions_count as int)
    }

    /// Index of the member with the given id, if any.
    fn find_member(&self, member_id: u32) -> (r: Option<usize>)
        ensures
            match r {
                Some(i) => i < self.members@.len() && self.members@[i as int].id == member_id,
                None => !self.spec_contains_member(member_id),
            },
    {
        let mut i: usize = 0;
        while i < self.members.len()
            invariant
                0 <= i <= self.members@.len(),
                forall|k: int| 0 <= k < i ==> self.members@[k].id != member_id,
            decreases self.members@.len() - i,
        {
            if self.members[i].id == member_id {
                return Some(i);
            }
            i = i + 1;
        }
        proof {
            assert forall|k: int| 0 <= k < self.member_ids().len() implies self.member_ids()[k]
                != member_id by {
                assert(self.member_ids()[k] == self.members@[k].id);
            }
        }
        None
    }

    /// Recomputes every member's partitions from scratch: the full
    /// round-robin assignment for the current member list.
    fn rebalance(&mut self)
        requires
            1 <= old(self).partitions_count,
            old(self).members@.len() <= u32::MAX,
        ensures
            final(self).id == old(self).id,
            final(self).stream_id == old(self).stream_id,
            final(self).topic_id == old(self).topic_id,
            final(self).partitions_count == old(self).partitions_count,
            final(self).members@.len() == old(self).members@.len(),
            final(self).member_ids() == old(self).member_ids(),
            forall|i: int|
                0 <= i < final(self).members@.len() ==> (#[trigger] final(self).members@[i]).partitions@
                    == spec_member_partitions(
                    i,
                    final(self).members@.len() as int,
                    final(self).partitions_count as int,
                ),
    {
        let m: usize = self.members.len();
        let pc: u32 = self.partitions_count;
        let mut fresh: Vec<Member> = Vec::new();
        let mut i: usize = 0;
        while i < m
            invariant
                0 <= i <= m,
                m == self.members@.len(),
                m <= u32::MAX,
                pc == self.partitions_count,
                1 <= pc,
                fresh@.len() == i,
                forall|j: int|
                    0 <= j < i ==> (#[trigger] fresh@[j]).id == self.members@[j].id
                        && fresh@[j].partitions@ == spec_member_partitions(j, m as int, pc as int),
            decreases m - i,
        {
            let mut v: Vec<u32> = Vec::new();
            let mut k: u64 = (i as u64) + 1;
            proof {
                assert(v@ + spec_assigned(k as int, m as int, pc as int)
                    =~= spec_assigned(i as int + 1, m as int, pc as int));
            }
            while k <= pc as u64
                invariant
                    1 <= k,
                    i < m,
                    m <= u32::MAX,
                    1 <= pc,
                    k <= pc as u64 + m as u64,
                    spec_member_partitions(i as int, m as int, pc as int) == v@ + spec_assigned(
                        k as int,
                        m as int,
                        pc as int,
                    ),
                decreases pc as int + m as int - k as int,
            {
                let ghost v0 = v@;
                v.push(k as u32);
                proof {
                    assert(spec_assigned(k as int, m as int, pc as int) == seq![k as u32]
                        + spec_assigned(k as int + m as int, m as int, pc as int));
                    assert(v0 + (seq![k as u32] + spec_assigned(k as int + m as int, m as int, pc as int))
                        =~= v@ + spec_assigned(k as int + m as int, m as int, pc as int));
                }
                k = k + (m as u64);
            }
            proof {
                assert(spec_assigned(k as int, m as int, pc as int) =~= Seq::<u32>::empty());
                assert(v@ + Seq::<u32>::empty() =~= v@);
            }
            let id = self.members[i].id;
            fresh.push(Member { id, partitions: v });
            i = i + 1;
        }
        self.members = fresh;
        proof {
            assert(final(self).member_ids() =~= old(self).member_ids());
        }
    }

    /// Adds the member and rebalances; joining again with an id that is
    /// already a member is idempotent and changes nothing.
    pub fn join(&mut self, member_id: u32) -> (r: Result<(), CoreError>)
        requires
            old(self).wf(),
            old(self).members@.len() < u32::MAX,
        ensures
            r is Ok,
            final(self).wf(),
            final(self).id == old(self).id,
            final(self).stream_id == old(self).stream_id,
            final(self).topic_id == old(self).topic_id,
            final(self).partitions_count == old(self).partitions_count,
            old(self).spec_contains_member(member_id) ==> *final(self) == *old(self),
            !old(self).spec_contains_member(member_id) ==> final(self).member_ids() == old(
                self,
            ).member_ids().push(member_id),
    {
        match self.find_member(member_id) {
            Some(i) => {
                proof {
                    assert(self.member_ids()[i as int] == member_id);
                    assert(self.spec_contains_member(member_id));
                }
                Ok(())
            },
            None => {
                let ghost ids0 = self.member_ids();
                proof {
                    assert forall|a: int, b: int| 0 <= a < b < ids0.len() implies ids0[a]
                        != ids0[b] by {
                        assert(ids0[a] == self.members@[a].id);
                        assert(ids0[b] == self.members@[b].id);
                    }
                }
                self.members.push(Member { id: member_id, partitions: Vec::new() });
                proof {
                    assert(self.member_ids() =~= ids0.push(member_id));
                }
                let ghost ids1 = self.member_ids();
                self.rebalance();
                proof {
                    assert(self.member_ids() == ids1);
                    assert(ids1 == ids0.push(member_id));
                    assert forall|a: int, b: int| 0 <= a < b < ids1.len() implies ids1[a]
                        != ids1[b] by {
                        if b == ids1.len() - 1 {
                            assert(ids1[a] == ids0[a]);
                            if ids0[a] == member_id {
                                assert(ids0.contains(member_id));
                            }
                        } else {
                            assert(ids1[a] == ids0[a]);
                            assert(ids1[b] == ids0[b]);
                        }
                    }
                    assert forall|a: int, b: int|
                        0 <= a < b < self.members@.len() implies self.members@[a].id
                        != self.members@[b].id by {
                        assert(self.member_ids()[a] == self.members@[a].id);
                        assert(self.member_ids()[b] == self.members@[b].id);
                    }
                }
                Ok(())
            },
        }
    }

    /// Removes the member and rebalances; its partitions move to the
    /// remaining members atomically with the recomputation. Leaving a
    /// group one is not a member of is `NotFound`.
    pub fn leave(&mut self, member_id: u32) -> (r: Result<(), CoreError>)
        requires
            old(self).wf(),
        ensures
            final(self).wf(),
            final(self).id == old(self).id,
            final(self).stream_id == old(self).stream_id,
            final(self).topic_id == old(self).topic_id,
            final(self).partitions_count == old(self).partitions_count,
            match r {
                Ok(()) => old(self).spec_contains_member(member_id) && exists|i: int|
                    0 <= i < old(self).member_ids().len() && old(self).member_ids()[i] == member_id
                        && final(self).member_ids() == old(self).member_ids().remove(i),
                Err(e) => e == CoreError::NotFound && !old(self).spec_contains_member(member_id)
                    && *final(self) == *old(self),
            },
    {
        match self.find_member(member_id) {
            None => Err(CoreError::NotFound),
            Some(i) => {
                let ghost ids0 = self.member_ids();
                proof {
                    assert forall|a: int, b: int| 0 <= a < b < ids0.len() implies ids0[a]
                        != ids0[b] by {
                        assert(ids0[a] == self.members@[a].id);
                        assert(ids0[b] == self.members@[b].id);
                    }
                    assert(ids0[i as int] == member_id);
                    assert(ids0.contains(member_id));
                }
                self.members.remove(i);
                proof {
                    assert(self.member_ids() =~= ids0.remove(i as int));
                }
                let ghost ids1 = self.member_ids();
                self.rebalance();
                proof {
                    assert(self.member_ids() == ids1);
                    assert(ids1 == ids0.remove(i as int));
                    assert forall|a: int, b: int| 0 <= a < b < ids1.len() implies ids1[a]
                        != ids1[b] by {
                        let a0 = if a < i as int { a } else { a + 1 };
                        let b0 = if b < i as int { b } else { b + 1 };
                        assert(ids1[a] == ids0[a0]);
                        assert(ids1[b] == ids0[b0]);
                    }
                    assert forall|a: int, b: int|
                        0 <= a < b < self.members@.len() implies self.members@[a].id
                        != self.members@[b].id by {
                        assert(self.member_ids()[a] == self.members@[a].id);
                        assert(self.member_ids()[b] == self.members@[b].id);
                    }
                }
                Ok(())
            },
        }
    }

    /// The partitions currently assigned to the given member, or `None`
    /// when it is not a member.
    pub fn member_partitions(&self, member_id: u32) -> (r: Option<&Vec<u32>>)
        requires
            self.wf(),
        ensures
            match r {
                Some(v) => exists|i: int|
                    0 <= i < self.members@.len() && self.members@[i].id == member_id && v@
                        == spec_member_partitions(
                        i,
                        self.members@.len() as int,
                        self.partitions_count as int,
                    ),
                None => !self.spec_contains_member(member_id),
            },
    {
        match self.find_member(member_id) {
            Some(i) => Some(&self.members[i].partitions),
            None => None,
        }
    }
}

/// Assignment completeness: in a well-formed, non-empty group every
/// partition id `1..=partitions_count` is held by the member at index
/// `(q - 1) mod member_count` and by no other member.
pub proof fn lemma_assignment_complete(g: ConsumerGroup, q: u32)
    requires
        g.wf(),
        g.members@.len() >= 1,
        1 <= q <= g.partitions_count,
    ensures
        ({
            let m = g.members@.len() as int;
            let owner = (q - 1) as int % m;
            &&& g.members@[owner].partitions@.contains(q)
            &&& forall|i: int|
                0 <= i < m && (#[trigger] g.members@[i].partitions@.contains(q)) ==> i == owner
        }),
{
    let m = g.members@.len() as int;
    let pc = g.partitions_count as int;
    let owner = (q - 1) as int % m;
    lemma_mod_division_less_than_divisor((q - 1) as int, m);
    assert(0 <= owner < m);
    lemma_fundamental_div_mod((q - 1) as int, m);
    let k = (q - 1) as int / m;
    lemma_div_pos_is_pos((q - 1) as int, m);
    assert((q - 1) as int == m * k + owner);
    // the owner's arithmetic progression reaches q
    assert((q - (owner + 1)) == m * k);
    lemma_mod_multiples_basic(k, m);
    assert((q - (owner + 1)) % m == 0);
    lemma_assigned_contains(owner + 1, m, pc, q);
    assert(g.members@[owner].partitions@ == spec_member_partitions(owner, m, pc));
    assert(g.members@[owner].partitions@.contains(q));
    // no other member reaches q
    assert forall|i: int| 0 <= i < m && (#[trigger] g.members@[i].partitions@.contains(q))
        implies i == owner by {
        lemma_assigned_contains(i + 1, m, pc, q);
        assert((q - (i + 1)) % m == 0);
        let d = (q - (i + 1)) / m;
        lemma_fundamental_div_mod(q - (i + 1), m);
        assert(q - (i + 1) == m * d);
        assert((q - 1) as int == m * d + i);
        lemma_mod_multiples_vanish(d, i, m);
        lemma_small_mod(i as nat, m as nat);
        assert((q - 1) as int % m == i);
    }
}

/// Assignment balance: the partition counts of any two members of a
/// well-formed group differ by at most one, and earlier members never
/// hold fewer than later ones.
pub proof fn lemma_assignment_balanced(g: ConsumerGroup, i: int, j: int)
    requires
        g.wf(),
        0 <= i <= j < g.members@.len(),
    ensures
        g.members@[j].partitions@.len() <= g.members@[i].partitions@.len()
            <= g.members@[j].partitions@.len() + 1,
{
    let m = g.members@.len() as int;
    let pc = g.partitions_count as int;
    lemma_assigned_shape(i + 1, m, pc);
    lemma_assigned_shape(j + 1, m, pc);
    if j + 1 > pc {
        // the later member is empty; the earlier holds at most one
        if i + 1 <= pc {
            assert(0 <= pc - i - 1 < m) by {
                assert(pc <= j);
            }
            lemma_basic_div(pc - i - 1, m);
        }
    } else {
        let a = pc - j - 1;
        let d = j - i;
        lemma_fundamental_div_mod(a, m);
        lemma_div_pos_is_pos(a, m);
        lemma_mod_division_less_than_divisor(a, m);
        let qa = a / m;
        let ra = a % m;
        assert(a == m * qa + ra);
        assert(pc - i - 1 == a + d);
        if ra + d < m {
            assert(a + d == m * qa + (ra + d));
            vstd::arithmetic::div_mod::lemma_fundamental_div_mod_converse(
                a + d,
                m,
                qa,
                ra + d,
            );
            assert((a + d) / m == qa);
        } else {
            assert(a + d == m * (qa + 1) + (ra + d - m)) by (nonlinear_arith)
                requires
                    a == m * qa + ra,
                    a + d == pc - i - 1,
            ;
            assert(0 <= ra + d - m < m);
            vstd::arithmetic::div_mod::lemma_fundamental_div_mod_converse(
                a + d,
                m,
                qa + 1,
                ra + d - m,
            );
            assert((a + d) / m == qa + 1);
        }
    }
}

/// Assignment determinism: two groups with the same number of members
/// and the same partition count assign every member index the same
/// partitions — the assignment is a pure function of the membership
/// snapshot.
pub proof fn lemma_assignment_deterministic(g1: ConsumerGroup, g2: ConsumerGroup)
    requires
        g1.wf(),
        g2.wf(),
        g1.members@.len() == g2.members@.len(),
        g1.partitions_count == g2.partitions_count,
    ensures
        forall|i: int|
            0 <= i < g1.members@.len() ==> (#[trigger] g1.members@[i]).partitions@
                == g2.members@[i].partitions@,
{
}

} // verus!
