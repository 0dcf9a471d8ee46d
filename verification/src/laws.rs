//! What holds of every store, whatever was done to it.
use vstd::prelude::*;
use crate::codec::{encodes_well, record_bytes, Record};
use crate::log::KvLocation;
use crate::model::{
    has_bad_name, id_limit, opened, replay_below, segment_ids, Fault, StoreModel,
};
use crate::recovery::lemma_replay_below_gap;

verus! {

/// One call of `set` or `remove`.
pub enum Op {
    /// `set(key, value)`
    Put(Seq<char>, Seq<char>),
    /// `remove(key)`
    Delete(Seq<char>),
}

impl StoreModel {
    /// True where the store can take one more record: the record can be
    /// written, and the active segment has room for it in memory.
    pub open spec fn takes(self, record: Record) -> bool {
        &&& encodes_well(record)
        &&& self.active_data().len() + record_bytes(record).len() + 1 <= usize::MAX
    }

    /// True where the store can take `set(key, value)`: it can take the
    /// record, and a segment number is left for the next segment.
    pub open spec fn takes_put(self, key: Seq<char>, value: Seq<char>) -> bool {
        self.takes(Record::Put(key, value)) && self.current < u32::MAX
    }

    /// The state after one call. A `remove` of a key that the store does not
    /// hold fails, and changes nothing.
    pub open spec fn step(self, op: Op) -> StoreModel {
        match op {
            Op::Put(key, value) => self.put(key, value),
            Op::Delete(key) => if self.index.contains_key(key) {
                self.deleted(key)
            } else {
                self
            },
        }
    }

    /// What the store holds after one call, by what it held before.
    pub open spec fn step_contents(self, op: Op) -> Map<Seq<char>, Seq<char>> {
        match op {
            Op::Put(key, value) => self.contents().insert(key, value),
            Op::Delete(key) => self.contents().remove(key),
        }
    }

    /// True where the store can take the call.
    pub open spec fn takes_op(self, op: Op) -> bool {
        match op {
            Op::Put(key, value) => self.takes_put(key, value),
            Op::Delete(key) => self.takes(Record::Rm(key)),
        }
    }

    /// True where the call removes no `Rm` record: it is no `set`, or the
    /// `set` runs no compaction, or none that finds a `Rm` record in a dead
    /// segment.
    pub open spec fn op_keeps_log(self, op: Op) -> bool {
        match op {
            Op::Put(key, value) => self.put_keeps_log(key, value),
            Op::Delete(_) => true,
        }
    }

    /// The state after a run of calls.
    pub open spec fn run(self, ops: Seq<Op>) -> StoreModel
        decreases ops.len(),
    {
        if ops.len() == 0 {
            self
        } else {
            self.run(ops.drop_last()).step(ops.last())
        }
    }

    /// True where the store can take every call of a run when its turn comes.
    pub open spec fn takes_all(self, ops: Seq<Op>) -> bool
        decreases ops.len(),
    {
        if ops.len() == 0 {
            true
        } else {
            self.takes_all(ops.drop_last()) && self.run(ops.drop_last()).takes_op(ops.last())
        }
    }

    /// True where no call of a run removes a `Rm` record.
    pub open spec fn run_keeps_log(self, ops: Seq<Op>) -> bool
        decreases ops.len(),
    {
        if ops.len() == 0 {
            true
        } else {
            self.run_keeps_log(ops.drop_last()) && self.run(ops.drop_last()).op_keeps_log(
                ops.last(),
            )
        }
    }

    /// Last write wins: after `set(key, first)` and `set(key, second)` the
    /// key has the second value.
    pub proof fn lemma_last_write_wins(self, key: Seq<char>, first: Seq<char>, second: Seq<char>)
        requires
            self.wf(),
            self.takes_put(key, first),
            self.put(key, first).takes_put(key, second),
        ensures
            self.put(key, first).put(key, second).wf(),
            self.put(key, first).put(key, second).contents().contains_key(key),
            self.put(key, first).put(key, second).contents()[key] == second,
    {
        self.lemma_put(key, first);
        self.put(key, first).lemma_put(key, second);
    }

    /// A key that was removed is absent: a second `remove` finds nothing to
    /// remove.
    pub proof fn lemma_removed_is_absent(self, key: Seq<char>)
        requires
            self.wf(),
            self.takes(Record::Rm(key)),
        ensures
            self.deleted(key).wf(),
            !self.deleted(key).contents().contains_key(key),
            self.deleted(key).step(Op::Delete(key)) == self.deleted(key),
    {
        self.lemma_deleted(key);
    }

    /// One call keeps the store well formed, and changes what it holds as
    /// the call says. It loses no entry of the index for a replay; it keeps
    /// the index in step with the files where it removes no `Rm` record.
    pub proof fn lemma_step(self, op: Op)
        requires
            self.wf(),
            self.takes_op(op),
        ensures
            self.step(op).wf(),
            self.step(op).contents() == self.step_contents(op),
            self.recoverable() && self.has_plain_names() ==> self.step(op).recoverable()
                && self.step(op).has_plain_names(),
            self.synced() && self.has_plain_names() && self.op_keeps_log(op) ==> self.step(
                op,
            ).synced(),
    {
        match op {
            Op::Put(key, value) => {
                self.lemma_put(key, value);
                if self.recoverable() && self.has_plain_names() {
                    self.lemma_put_recoverable(key, value);
                }
            },
            Op::Delete(key) => {
                if self.index.contains_key(key) {
                    self.lemma_deleted(key);
                    if self.recoverable() {
                        self.lemma_deleted_recoverable(key);
                    }
                } else {
                    assert(self.contents().remove(key) =~= self.contents());
                }
            },
        }
    }

    /// A run of calls keeps the store well formed, and loses no entry of
    /// the index for a replay. It keeps the index in step with the files
    /// where no call removes a `Rm` record.
    pub proof fn lemma_run(self, ops: Seq<Op>)
        requires
            self.wf(),
            self.recoverable(),
            self.has_plain_names(),
            self.takes_all(ops),
        ensures
            self.run(ops).wf(),
            self.run(ops).recoverable(),
            self.run(ops).has_plain_names(),
            self.synced() && self.run_keeps_log(ops) ==> self.run(ops).synced(),
        decreases ops.len(),
    {
        if ops.len() > 0 {
            self.lemma_run(ops.drop_last());
            self.run(ops.drop_last()).lemma_step(ops.last());
        }
    }

    /// Recovery of what is there: after any run of `set` and `remove`, a
    /// store that is opened on the same files holds every key that this one
    /// holds, with the same value.
    pub proof fn lemma_recovery_of_live_keys(self, ops: Seq<Op>, key: Seq<char>)
        requires
            self.wf(),
            self.recoverable(),
            self.has_plain_names(),
            self.takes_all(ops),
            self.run(ops).contents().contains_key(key),
        ensures
            opened(self.run(ops).files) is Ok,
            opened(self.run(ops).files)->Ok_0.wf(),
            opened(self.run(ops).files)->Ok_0.contents().contains_key(key),
            opened(self.run(ops).files)->Ok_0.contents()[key] == self.run(ops).contents()[key],
    {
        self.lemma_run(ops);
        self.run(ops).lemma_reopened();
    }

    /// Recovery: after any run of `set` and `remove` that removed no `Rm`
    /// record, a store that is opened on the same files holds what this one
    /// holds, and no more.
    pub proof fn lemma_recovery(self, ops: Seq<Op>)
        requires
            self.wf(),
            self.synced(),
            self.has_plain_names(),
            self.takes_all(ops),
            self.run_keeps_log(ops),
        ensures
            opened(self.run(ops).files) is Ok,
            opened(self.run(ops).files)->Ok_0.wf(),
            opened(self.run(ops).files)->Ok_0.contents() == self.run(ops).contents(),
    {
        self.lemma_synced_recoverable();
        self.lemma_run(ops);
        self.run(ops).lemma_reopened();
    }
}

/// A store that is opened on an empty directory holds nothing, and its
/// active segment is segment 0.
pub proof fn lemma_opened_empty()
    ensures
        opened(Map::empty()) is Ok,
        opened(Map::empty())->Ok_0.contents() == Map::<Seq<char>, Seq<char>>::empty(),
        opened(Map::empty())->Ok_0.current == 0,
        opened(Map::empty())->Ok_0.known == Set::<u32>::empty(),
        opened(Map::empty())->Ok_0.wf(),
        opened(Map::empty())->Ok_0.synced(),
{
    let files = Map::<Seq<char>, Seq<u8>>::empty();
    let ids = segment_ids(files);
    assert(ids =~= Set::<u32>::empty());
    assert(!has_bad_name(files));
    lemma_replay_below_gap(files, ids, 0, id_limit());
    assert(replay_below(files, ids, 0) == Ok::<Map<Seq<char>, KvLocation>, Fault>(Map::empty()));
    let store = opened(files)->Ok_0;
    assert(store.contents() =~= Map::<Seq<char>, Seq<char>>::empty());
}

} // verus!
