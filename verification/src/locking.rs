//! The lock-acquisition protocol.
//!
//! Two concurrent transfers that lock their accounts in role order (`from`
//! first, then `to`) can deadlock when they run over the same pair of
//! accounts with the roles swapped. The fix is a deterministic global order:
//! every operation locks the account with the smaller identifier first,
//! whatever its logical role.

use vstd::prelude::*;

verus! {

/// Decide the physical lock-acquisition order for two account identifiers:
/// the returned pair holds the same two identifiers, smallest first. Locking
/// along this order, whatever the logical roles, is the discipline that
/// precludes circular wait.
pub fn acquisition_order(first_id: u64, second_id: u64) -> (ordered: (u64, u64))
    ensures
        ordered.0 <= ordered.1,
        ordered == (first_id, second_id) || ordered == (second_id, first_id),
{
    if first_id <= second_id {
        (first_id, second_id)
    } else {
        (second_id, first_id)
    }
}

/// One of the two account locks a transfer needs, named by its place in the
/// deterministic global order: `Lower` guards the account with the smaller
/// identifier, `Upper` the other one.
#[derive(Clone, Copy, PartialEq, Eq, Structural, Debug)]
pub enum LockId {
    Lower,
    Upper,
}

/// The phase of one transfer operation, following its lock acquisitions.
/// An operation that cannot advance out of `Created` or `HoldingFirst` is
/// blocked, waiting for a lock another operation holds; waiting has no
/// timeout. The step out of `HoldingBoth` is where the balances move, after
/// which both locks are released at once.
#[derive(Clone, Copy, PartialEq, Eq, Structural, Debug)]
pub enum OpPhase {
    /// No lock acquired yet.
    Created,
    /// The operation's first lock is held; the second is still wanted.
    HoldingFirst,
    /// Both locks are held; the transfer itself can happen.
    HoldingBoth,
    /// The transfer is done and both locks are released.
    Released,
}

/// One transfer operation: the order in which it intends to acquire the two
/// locks, and how far it has come.
#[derive(Clone, Copy, PartialEq, Eq, Structural, Debug)]
pub struct Operation {
    /// The lock this operation acquires first.
    pub first: LockId,
    /// The lock this operation acquires second.
    pub second: LockId,
    pub phase: OpPhase,
}

/// Whether an operation in the given state holds the given lock.
pub open spec fn op_holds(op: Operation, lock: LockId) -> bool {
    match op.phase {
        OpPhase::Created => false,
        OpPhase::HoldingFirst => op.first == lock,
        OpPhase::HoldingBoth => op.first == lock || op.second == lock,
        OpPhase::Released => false,
    }
}

/// The operation one step further along: its next lock acquired, or, from
/// `HoldingBoth`, the transfer done and the locks released.
pub open spec fn advance(op: Operation) -> Operation {
    Operation { first: op.first, second: op.second, phase: next_phase(op.phase) }
}

/// The successor of each phase; `Released` is final.
pub open spec fn next_phase(phase: OpPhase) -> OpPhase {
    match phase {
        OpPhase::Created => OpPhase::HoldingFirst,
        OpPhase::HoldingFirst => OpPhase::HoldingBoth,
        OpPhase::HoldingBoth => OpPhase::Released,
        OpPhase::Released => OpPhase::Released,
    }
}

impl Operation {
    /// A fresh operation that locks in role order: the `from` account first,
    /// the `to` account second. This is the hazardous discipline.
    pub fn role_order(from_lock: LockId, to_lock: LockId) -> (op: Operation)
        requires
            from_lock != to_lock,
        ensures
            op == (Operation { first: from_lock, second: to_lock, phase: OpPhase::Created }),
    {
        Operation { first: from_lock, second: to_lock, phase: OpPhase::Created }
    }

    /// A fresh operation that locks in the deterministic global order —
    /// `Lower` first — whatever its logical roles. This is the fix.
    pub fn global_order() -> (op: Operation)
        ensures
            op == (Operation {
                first: LockId::Lower,
                second: LockId::Upper,
                phase: OpPhase::Created,
            }),
    {
        Operation { first: LockId::Lower, second: LockId::Upper, phase: OpPhase::Created }
    }
}

/// A set of concurrent transfer operations over one pair of account locks,
/// together with who currently holds each lock. Interleaving is modelled by
/// choosing which operation to step next; a step happens only when the lock
/// it needs is free, exactly as a blocking mutex admits one holder at a time.
pub struct LockSystem {
    pub ops: Vec<Operation>,
    /// The operation (by index) holding the `Lower` lock, if any.
    pub lower_holder: Option<usize>,
    /// The operation (by index) holding the `Upper` lock, if any.
    pub upper_holder: Option<usize>,
}

impl LockSystem {
    /// The recorded holder of the given lock.
    pub open spec fn holder_of(self, lock: LockId) -> Option<usize> {
        match lock {
            LockId::Lower => self.lower_holder,
            LockId::Upper => self.upper_holder,
        }
    }

    /// Whether the given lock is currently free.
    pub open spec fn lock_free(self, lock: LockId) -> bool {
        self.holder_of(lock) is None
    }

    /// The recorded holder of each lock matches the operations' phases: the
    /// holder, when there is one, is an operation that indeed holds the lock,
    /// and no other operation holds it; a free lock is held by nobody.
    pub open spec fn holder_ok(self, lock: LockId) -> bool {
        match self.holder_of(lock) {
            Some(h) => {
                &&& h < self.ops@.len()
                &&& op_holds(self.ops@[h as int], lock)
                &&& forall|j: int|
                    0 <= j < self.ops@.len() && j != h ==> !op_holds(
                        #[trigger] self.ops@[j],
                        lock,
                    )
            },
            None => forall|j: int|
                0 <= j < self.ops@.len() ==> !op_holds(#[trigger] self.ops@[j], lock),
        }
    }

    /// Well-formedness: every operation needs two distinct locks, and the
    /// bookkeeping for both locks is consistent. Established by `new` and
    /// preserved by every step.
    pub open spec fn wf(self) -> bool {
        &&& forall|j: int|
            0 <= j < self.ops@.len() ==> (#[trigger] self.ops@[j]).first != self.ops@[j].second
        &&& self.holder_ok(LockId::Lower)
        &&& self.holder_ok(LockId::Upper)
    }

    /// Whether operation `i` can take its next step: the lock it wants next
    /// is free. A finished operation has no step.
    pub open spec fn enabled(self, i: int) -> bool {
        &&& 0 <= i < self.ops@.len()
        &&& match self.ops@[i].phase {
            OpPhase::Created => self.lock_free(self.ops@[i].first),
            OpPhase::HoldingFirst => self.lock_free(self.ops@[i].second),
            OpPhase::HoldingBoth => true,
            OpPhase::Released => false,
        }
    }

    /// Whether every operation has finished.
    pub open spec fn all_released(self) -> bool {
        forall|j: int| 0 <= j < self.ops@.len() ==> (#[trigger] self.ops@[j].phase) is Released
    }

    /// Deadlock: some operation is unfinished, yet no operation can take a
    /// step — each unfinished operation waits forever on a lock another one
    /// holds.
    pub open spec fn is_deadlocked(self) -> bool {
        &&& !self.all_released()
        &&& forall|i: int| !(#[trigger] self.enabled(i))
    }

    /// Whether every operation follows the deterministic global order,
    /// acquiring `Lower` before `Upper` whatever its logical roles.
    pub open spec fn all_ordered(self) -> bool {
        forall|j: int|
            0 <= j < self.ops@.len() ==> (#[trigger] self.ops@[j]).first == LockId::Lower
                && self.ops@[j].second == LockId::Upper
    }

    /// Start a run: all operations in their initial phase, both locks free.
    pub fn new(ops: Vec<Operation>) -> (system: LockSystem)
        requires
            forall|j: int|
                0 <= j < ops@.len() ==> (#[trigger] ops@[j]).phase is Created && ops@[j].first
                    != ops@[j].second,
        ensures
            system.wf(),
            system.ops@ == ops@,
            system.lower_holder is None,
            system.upper_holder is None,
    {
        let system = LockSystem { ops, lower_holder: None, upper_holder: None };
        proof {
            assert forall|j: int| 0 <= j < system.ops@.len() implies !op_holds(
                #[trigger] system.ops@[j],
                LockId::Lower,
            ) && !op_holds(system.ops@[j], LockId::Upper) by {
                assert(system.ops@[j].phase is Created);
            }
        }
        system
    }

    /// Whether the given lock is currently free.
    pub fn lock_is_free(&self, lock: LockId) -> (free: bool)
        ensures
            free == self.lock_free(lock),
    {
        match lock {
            LockId::Lower => self.lower_holder.is_none(),
            LockId::Upper => self.upper_holder.is_none(),
        }
    }

    /// Whether operation `i` can take its next step right now.
    pub fn can_step(&self, i: usize) -> (enabled: bool)
        requires
            i < self.ops@.len(),
        ensures
            enabled == self.enabled(i as int),
    {
        let op = self.ops[i];
        match op.phase {
            OpPhase::Created => self.lock_is_free(op.first),
            OpPhase::HoldingFirst => self.lock_is_free(op.second),
            OpPhase::HoldingBoth => true,
            OpPhase::Released => false,
        }
    }

    /// Record that operation `i` now holds the given lock.
    fn record_acquire(&mut self, lock: LockId, i: usize)
        ensures
            final(self).ops@ == old(self).ops@,
            final(self).holder_of(lock) == Some(i),
            forall|other: LockId|
                other != lock ==> final(self).holder_of(other) == old(self).holder_of(other),
    {
        match lock {
            LockId::Lower => self.lower_holder = Some(i),
            LockId::Upper => self.upper_holder = Some(i),
        }
    }

    /// Record that the given lock is free again.
    fn record_release(&mut self, lock: LockId)
        ensures
            final(self).ops@ == old(self).ops@,
            final(self).holder_of(lock) is None,
            forall|other: LockId|
                other != lock ==> final(self).holder_of(other) == old(self).holder_of(other),
    {
        match lock {
            LockId::Lower => self.lower_holder = None,
            LockId::Upper => self.upper_holder = None,
        }
    }

    /// Attempt one step of operation `i`, exactly as a thread would: acquire
    /// the next wanted lock if it is free, or, holding both, perform the
    /// transfer and release them. Returns whether the operation advanced; it
    /// advances precisely when it was enabled, and a blocked operation leaves
    /// the system unchanged — it merely keeps waiting.
    pub fn try_step(&mut self, i: usize) -> (stepped: bool)
        requires
            old(self).wf(),
            i < old(self).ops@.len(),
        ensures
            final(self).wf(),
            stepped == old(self).enabled(i as int),
            !stepped ==> *final(self) == *old(self),
            stepped ==> final(self).ops@ == old(self).ops@.update(
                i as int,
                advance(old(self).ops@[i as int]),
            ),
    {
        let op = self.ops[i];
        match op.phase {
            OpPhase::Created => {
                if self.lock_is_free(op.first) {
                    self.record_acquire(op.first, i);
                    self.ops.set(
                        i,
                        Operation { first: op.first, second: op.second, phase: OpPhase::HoldingFirst },
                    );
                    proof {
                        lemma_step_acquire_preserves_wf(*old(self), *self, i, op.first);
                    }
                    true
                } else {
                    false
                }
            },
            OpPhase::HoldingFirst => {
                if self.lock_is_free(op.second) {
                    self.record_acquire(op.second, i);
                    self.ops.set(
                        i,
                        Operation { first: op.first, second: op.second, phase: OpPhase::HoldingBoth },
                    );
                    proof {
                        lemma_step_acquire_preserves_wf(*old(self), *self, i, op.second);
                    }
                    true
                } else {
                    false
                }
            },
            OpPhase::HoldingBoth => {
                proof {
                    lemma_wf_holder_is(*old(self), i, op.first);
                    lemma_wf_holder_is(*old(self), i, op.second);
                }
                self.record_release(op.first);
                self.record_release(op.second);
                self.ops.set(
                    i,
                    Operation { first: op.first, second: op.second, phase: OpPhase::Released },
                );
                proof {
                    lemma_step_release_preserves_wf(*old(self), *self, i);
                }
                true
            },
            OpPhase::Released => false,
        }
    }
}

/// In a well-formed system the bookkeeping knows each holder: an operation
/// that holds a lock is the recorded holder of that lock.
proof fn lemma_wf_holder_is(system: LockSystem, i: usize, lock: LockId)
    requires
        system.wf(),
        i < system.ops@.len(),
        op_holds(system.ops@[i as int], lock),
    ensures
        system.holder_of(lock) == Some(i),
{
    match system.holder_of(lock) {
        Some(h) => {
            if h != i {
                assert(!op_holds(system.ops@[i as int], lock));
            }
        },
        None => {
            assert(!op_holds(system.ops@[i as int], lock));
        },
    }
}

/// A step in which operation `i`, previously not holding `lock`, acquires
/// `lock` and advances one phase preserves well-formedness.
proof fn lemma_step_acquire_preserves_wf(
    before: LockSystem,
    after: LockSystem,
    i: usize,
    lock: LockId,
)
    requires
        before.wf(),
        i < before.ops@.len(),
        before.lock_free(lock),
        !op_holds(before.ops@[i as int], lock),
        op_holds(after.ops@[i as int], lock),
        after.ops@ == before.ops@.update(i as int, after.ops@[i as int]),
        after.ops@[i as int].first == before.ops@[i as int].first,
        after.ops@[i as int].second == before.ops@[i as int].second,
        forall|l: LockId|
            op_holds(after.ops@[i as int], l) ==> l == lock || op_holds(
                before.ops@[i as int],
                l,
            ),
        after.holder_of(lock) == Some(i),
        forall|other: LockId| other != lock ==> after.holder_of(other) == before.holder_of(other),
    ensures
        after.wf(),
{
    assert(after.ops@.len() == before.ops@.len());
    assert forall|j: int|
        0 <= j < after.ops@.len() implies (#[trigger] after.ops@[j]).first
        != after.ops@[j].second by {
        assert(before.ops@[j].first != before.ops@[j].second);
    }
    // The acquired lock: `i` holds it, nobody else does.
    assert forall|j: int| 0 <= j < after.ops@.len() && j != i implies !op_holds(
        #[trigger] after.ops@[j],
        lock,
    ) by {
        assert(!op_holds(before.ops@[j], lock));
    }
    // The other lock: its holder is unchanged, and `i`'s holdings of it are
    // unchanged too.
    let other = other_lock(lock);
    assert(after.holder_of(other) == before.holder_of(other));
    match before.holder_of(other) {
        Some(h) => {
            assert(op_holds(before.ops@[h as int], other));
            assert(h != i || op_holds(before.ops@[i as int], other));
            assert(op_holds(after.ops@[h as int], other));
            assert forall|j: int| 0 <= j < after.ops@.len() && j != h implies !op_holds(
                #[trigger] after.ops@[j],
                other,
            ) by {
                assert(!op_holds(before.ops@[j], other));
                if j == i {
                    assert(op_holds(after.ops@[j], other) ==> other == lock || op_holds(
                        before.ops@[j],
                        other,
                    ));
                }
            }
        },
        None => {
            assert forall|j: int| 0 <= j < after.ops@.len() implies !op_holds(
                #[trigger] after.ops@[j],
                other,
            ) by {
                assert(!op_holds(before.ops@[j], other));
            }
        },
    }
    assert(after.holder_ok(LockId::Lower));
    assert(after.holder_ok(LockId::Upper));
}

/// The lock that is not the given one.
pub open spec fn other_lock(lock: LockId) -> LockId {
    match lock {
        LockId::Lower => LockId::Upper,
        LockId::Upper => LockId::Lower,
    }
}

/// A step in which operation `i` releases both locks and finishes preserves
/// well-formedness.
proof fn lemma_step_release_preserves_wf(before: LockSystem, after: LockSystem, i: usize)
    requires
        before.wf(),
        i < before.ops@.len(),
        before.holder_of(LockId::Lower) == Some(i),
        before.holder_of(LockId::Upper) == Some(i),
        after.ops@ == before.ops@.update(i as int, after.ops@[i as int]),
        after.ops@[i as int].first == before.ops@[i as int].first,
        after.ops@[i as int].second == before.ops@[i as int].second,
        after.ops@[i as int].phase is Released,
        after.lower_holder is None,
        after.upper_holder is None,
    ensures
        after.wf(),
{
    assert(after.ops@.len() == before.ops@.len());
    assert forall|j: int|
        0 <= j < after.ops@.len() implies (#[trigger] after.ops@[j]).first
        != after.ops@[j].second by {
        assert(before.ops@[j].first != before.ops@[j].second);
    }
    assert forall|j: int| 0 <= j < after.ops@.len() implies !op_holds(
        #[trigger] after.ops@[j],
        LockId::Lower,
    ) && !op_holds(after.ops@[j], LockId::Upper) by {
        if j != i {
            assert(!op_holds(before.ops@[j], LockId::Lower));
            assert(!op_holds(before.ops@[j], LockId::Upper));
        }
    }
}

/// Law: under the deterministic global order, an unfinished well-formed
/// system always has an enabled operation. The case analysis is the classic
/// one: an operation holding both locks can finish; otherwise an operation
/// holding `Lower` finds `Upper` free, since under the discipline any holder
/// of `Upper` would hold both; otherwise both locks are free and any
/// unfinished operation can start.
pub proof fn lemma_ordered_progress(system: LockSystem)
    requires
        system.wf(),
        system.all_ordered(),
        !system.all_released(),
    ensures
        exists|i: int| system.enabled(i),
{
    let n = system.ops@.len() as int;
    if exists|i: int| 0 <= i < n && (#[trigger] system.ops@[i]).phase is HoldingBoth {
        let i = choose|i: int| 0 <= i < n && (#[trigger] system.ops@[i]).phase is HoldingBoth;
        assert(system.enabled(i));
    } else if exists|i: int| 0 <= i < n && (#[trigger] system.ops@[i]).phase is HoldingFirst {
        let i = choose|i: int|
            0 <= i < n && (#[trigger] system.ops@[i]).phase is HoldingFirst;
        match system.holder_of(LockId::Upper) {
            Some(h) => {
                assert(op_holds(system.ops@[h as int], LockId::Upper));
                assert(system.ops@[h as int].first == LockId::Lower);
                assert(false);
            },
            None => {},
        }
        assert(system.enabled(i));
    } else {
        assert(exists|k: int| 0 <= k < n && !((#[trigger] system.ops@[k].phase) is Released));
        let k = choose|k: int| 0 <= k < n && !((#[trigger] system.ops@[k].phase) is Released);
        assert(system.ops@[k].phase is Created);
        match system.holder_of(LockId::Lower) {
            Some(h) => {
                assert(op_holds(system.ops@[h as int], LockId::Lower));
                assert(false);
            },
            None => {},
        }
        assert(system.enabled(k));
    }
}

/// Law: under the deterministic global order a well-formed system is never
/// deadlocked, whatever the operations' logical roles and however many there
/// are. Since `new` establishes well-formedness, `try_step` preserves it and
/// steps keep every acquisition order as it was, this holds of every
/// reachable state of an ordered run.
pub proof fn lemma_ordered_never_deadlocks(system: LockSystem)
    requires
        system.wf(),
        system.all_ordered(),
    ensures
        !system.is_deadlocked(),
{
    if !system.all_released() {
        lemma_ordered_progress(system);
    }
}

impl LockSystem {
    /// Whether every operation has finished.
    pub fn check_all_released(&self) -> (done: bool)
        ensures
            done == self.all_released(),
    {
        let mut j: usize = 0;
        while j < self.ops.len()
            invariant
                j <= self.ops@.len(),
                forall|k: int| 0 <= k < j ==> (#[trigger] self.ops@[k].phase) is Released,
            decreases self.ops@.len() - j,
        {
            let op = self.ops[j];
            match op.phase {
                OpPhase::Released => {},
                _ => {
                    return false;
                },
            }
            j = j + 1;
        }
        true
    }

    /// Whether the system is deadlocked: some operation is unfinished and
    /// none can take a step.
    pub fn deadlocked(&self) -> (stuck: bool)
        ensures
            stuck == self.is_deadlocked(),
    {
        if self.check_all_released() {
            return false;
        }
        let mut j: usize = 0;
        while j < self.ops.len()
            invariant
                j <= self.ops@.len(),
                forall|k: int| 0 <= k < j ==> !(#[trigger] self.enabled(k)),
            decreases self.ops@.len() - j,
        {
            if self.can_step(j) {
                return false;
            }
            j = j + 1;
        }
        true
    }

    /// Find an operation that can step. Under the global-order discipline
    /// one always exists while any operation is unfinished — that is the
    /// deadlock-freedom law — so this cannot fail.
    fn find_enabled(&self) -> (i: usize)
        requires
            self.wf(),
            self.all_ordered(),
            !self.all_released(),
        ensures
            self.enabled(i as int),
    {
        let mut j: usize = 0;
        while j < self.ops.len()
            invariant
                j <= self.ops@.len(),
                forall|k: int| 0 <= k < j ==> !(#[trigger] self.enabled(k)),
                self.wf(),
                self.all_ordered(),
                !self.all_released(),
            decreases self.ops@.len() - j,
        {
            if self.can_step(j) {
                return j;
            }
            j = j + 1;
        }
        proof {
            lemma_ordered_progress(*self);
            assert(false);
        }
        0
    }

    /// Run operations under the global-order discipline until every one has
    /// finished. Each iteration steps some enabled operation — the
    /// deadlock-freedom law guarantees one exists — and every step brings
    /// the system strictly closer to completion, so the run terminates with
    /// all transfers done and both locks free again.
    pub fn run_to_completion(&mut self)
        requires
            old(self).wf(),
            old(self).all_ordered(),
        ensures
            final(self).wf(),
            final(self).all_released(),
            final(self).ops@.len() == old(self).ops@.len(),
            forall|j: int|
                0 <= j < old(self).ops@.len() ==> (#[trigger] final(self).ops@[j]).first == old(
                    self,
                ).ops@[j].first && final(self).ops@[j].second == old(self).ops@[j].second,
    {
        let ghost start_ops: Seq<Operation> = self.ops@;
        loop
            invariant
                self.wf(),
                self.all_ordered(),
                self.ops@.len() == start_ops.len(),
                forall|j: int|
                    0 <= j < start_ops.len() ==> (#[trigger] self.ops@[j]).first
                        == start_ops[j].first && self.ops@[j].second == start_ops[j].second,
            ensures
                self.wf(),
                self.all_released(),
                self.ops@.len() == start_ops.len(),
                forall|j: int|
                    0 <= j < start_ops.len() ==> (#[trigger] self.ops@[j]).first
                        == start_ops[j].first && self.ops@[j].second == start_ops[j].second,
            decreases 3 * self.ops@.len() - total_rank(self.ops@),
        {
            proof {
                lemma_total_rank_bound(self.ops@);
            }
            if self.check_all_released() {
                break;
            }
            let i = self.find_enabled();
            let ghost before: Seq<Operation> = self.ops@;
            let stepped = self.try_step(i);
            proof {
                assert(stepped);
                assert(self.ops@ == before.update(i as int, advance(before[i as int])));
                lemma_total_rank_update(before, i as int, advance(before[i as int]));
                assert(!(before[i as int].phase is Released));
                assert(phase_rank(advance(before[i as int]).phase) == phase_rank(
                    before[i as int].phase,
                ) + 1);
                assert(total_rank(self.ops@) == total_rank(before) + 1);
                lemma_total_rank_bound(self.ops@);
            }
        }
    }
}

/// How far along a phase is; each step of an operation raises its rank by
/// one, which bounds every run.
pub open spec fn phase_rank(phase: OpPhase) -> int {
    match phase {
        OpPhase::Created => 0,
        OpPhase::HoldingFirst => 1,
        OpPhase::HoldingBoth => 2,
        OpPhase::Released => 3,
    }
}

/// The summed rank of all operations: a progress measure for a run.
pub open spec fn total_rank(ops: Seq<Operation>) -> int
    decreases ops.len(),
{
    if ops.len() == 0 {
        0
    } else {
        total_rank(ops.drop_last()) + phase_rank(ops.last().phase)
    }
}

proof fn lemma_total_rank_bound(ops: Seq<Operation>)
    ensures
        0 <= total_rank(ops) <= 3 * ops.len(),
    decreases ops.len(),
{
    if ops.len() > 0 {
        lemma_total_rank_bound(ops.drop_last());
    }
}

proof fn lemma_total_rank_update(ops: Seq<Operation>, i: int, op: Operation)
    requires
        0 <= i < ops.len(),
    ensures
        total_rank(ops.update(i, op)) == total_rank(ops) + phase_rank(op.phase) - phase_rank(
            ops[i].phase,
        ),
    decreases ops.len(),
{
    let updated = ops.update(i, op);
    if i == ops.len() - 1 {
        assert(updated.drop_last() =~= ops.drop_last());
        assert(updated.last() == op);
    } else {
        assert(updated.drop_last() =~= ops.drop_last().update(i, op));
        assert(updated.last() == ops.last());
        lemma_total_rank_update(ops.drop_last(), i, op);
    }
}

} // verus!
