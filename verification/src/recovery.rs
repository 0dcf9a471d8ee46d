//! Recovery: why the index that a store keeps while it runs is the index
//! that replaying its files gives.
//!
//! Every entry of the index is found again by a replay, whatever the store
//! has done (`recoverable`). A replay finds no more than the index holds
//! (`synced`) as long as no compaction has removed a `Rm` record: a
//! compaction removes whole segments by the `Set` records in them, and a
//! key whose removal was recorded in a removed segment comes back where an
//! older `Set` record of it is still there.
use vstd::prelude::*;
use crate::codec::{decode_spec, encodes_well, record_bytes, Record, NEWLINE};
use crate::log::{
    apply, lemma_line_end, lemma_line_end_is, line_end, replay_from, KvLocation,
};
use crate::model::{
    covers, has_bad_name, highest, holds_no_rm, id_limit, index_holds, is_live,
    lemma_record_written, opened, record_in, replay_below, replay_segment, replayed, segment_ids,
    Fault, StoreModel,
};
use crate::segment::{
    is_bad_name, lemma_segment_name_injective, lemma_segment_name_round_trip, segment_id_of,
    segment_name,
};

verus! {

/// The place of a record that starts where a segment of this length ends.
pub open spec fn end_of(id: u32, data: Seq<u8>) -> KvLocation {
    KvLocation { file_id: id, offset: data.len() as u64 }
}

/// Replaying a segment with one more record at its end is replaying the
/// segment, and then that record.
pub proof fn lemma_replay_append(
    data: Seq<u8>,
    id: u32,
    from: int,
    index: Map<Seq<char>, KvLocation>,
    record: Seq<u8>,
)
    requires
        0 <= from <= data.len(),
        replay_from(data, id, from, index) is Some,
        decode_spec(record) is Some,
        !record.contains(NEWLINE),
    ensures
        replay_from(data + record.push(NEWLINE), id, from, index) == Some(
            apply(replay_from(data, id, from, index)->0, decode_spec(record)->0, end_of(id, data)),
        ),
    decreases data.len() - from,
{
    let longer = data + record.push(NEWLINE);
    if from == data.len() {
        lemma_record_written(data, record);
        let end: int = (data.len() + record.len()) as int;
        assert(longer.subrange(from, end) =~= record);
        let next = apply(index, decode_spec(record)->0, end_of(id, data));
        assert(replay_from(longer, id, end + 1, next) == Some(next));
    } else {
        let end = line_end(data, from);
        lemma_line_end(data, from);
        assert forall|i: int| from <= i < end implies longer[i] != NEWLINE by {
            assert(longer[i] == data[i]);
        }
        assert(longer[end] == data[end]);
        lemma_line_end_is(longer, from, end);
        assert(longer.subrange(from, end) =~= data.subrange(from, end));
        let read = decode_spec(data.subrange(from, end))->0;
        let next = apply(index, read, KvLocation { file_id: id, offset: from as u64 });
        lemma_replay_append(data, id, end + 1, next, record);
    }
}

/// Replaying does not look at segments that it is not asked for, nor at the
/// files of others.
pub proof fn lemma_replay_below_same(
    files: Map<Seq<char>, Seq<u8>>,
    ids: Set<u32>,
    other_files: Map<Seq<char>, Seq<u8>>,
    other_ids: Set<u32>,
    bound: nat,
)
    requires
        bound <= id_limit(),
        forall|id: u32| id < bound ==> ids.contains(id) == other_ids.contains(id),
        forall|id: u32|
            id < bound && ids.contains(id) ==> files.contains_key(#[trigger] segment_name(id))
                == other_files.contains_key(segment_name(id)),
        forall|id: u32|
            id < bound && ids.contains(id) && files.contains_key(#[trigger] segment_name(id))
                ==> files[segment_name(id)] == other_files[segment_name(id)],
    ensures
        replay_below(files, ids, bound) == replay_below(other_files, other_ids, bound),
    decreases bound,
{
    if bound > 0 {
        lemma_replay_below_same(files, ids, other_files, other_ids, (bound - 1) as nat);
        let id = (bound - 1) as u32;
        if ids.contains(id) {
            assert(files.contains_key(segment_name(id)) == other_files.contains_key(
                segment_name(id),
            ));
        }
    }
}

/// Where no segment has a number from `low` up to `high`, replaying up to
/// `high` is replaying up to `low`.
pub proof fn lemma_replay_below_gap(
    files: Map<Seq<char>, Seq<u8>>,
    ids: Set<u32>,
    low: nat,
    high: nat,
)
    requires
        low <= high <= id_limit(),
        forall|id: u32| low <= id < high ==> !ids.contains(id),
    ensures
        replay_below(files, ids, high) == replay_below(files, ids, low),
    decreases high - low,
{
    if low < high {
        lemma_replay_below_gap(files, ids, low, (high - 1) as nat);
    }
}

/// Where replaying succeeds, the file of every segment it went through is there.
pub proof fn lemma_replayed_files(
    files: Map<Seq<char>, Seq<u8>>,
    ids: Set<u32>,
    bound: nat,
    id: u32,
)
    requires
        bound <= id_limit(),
        replay_below(files, ids, bound) is Ok,
        ids.contains(id),
        id < bound,
    ensures
        files.contains_key(segment_name(id)),
    decreases bound,
{
    if id < bound - 1 {
        lemma_replayed_files(files, ids, (bound - 1) as nat, id);
    }
}

/// A set of segment numbers that is not empty has a greatest member.
pub proof fn lemma_highest(ids: Set<u32>)
    requires
        exists|id: u32| ids.contains(id),
    ensures
        ids.contains(highest(ids)),
        forall|id: u32| ids.contains(id) ==> id <= highest(ids),
{
    let some = choose|id: u32| ids.contains(id);
    let top = lemma_greatest_below(ids, id_limit(), some);
    assert(ids.contains(top) && forall|other: u32| ids.contains(other) ==> other <= top);
}

proof fn lemma_greatest_below(ids: Set<u32>, bound: nat, some: u32) -> (top: u32)
    requires
        bound <= id_limit(),
        ids.contains(some),
        some < bound,
    ensures
        ids.contains(top),
        top < bound,
        forall|other: u32| ids.contains(other) && other < bound ==> other <= top,
    decreases bound,
{
    let last = (bound - 1) as u32;
    if ids.contains(last) {
        last
    } else {
        lemma_greatest_below(ids, (bound - 1) as nat, some)
    }
}

/// The greatest member of a set is the member that none exceeds.
pub proof fn lemma_highest_is(ids: Set<u32>, top: u32)
    requires
        ids.contains(top),
        forall|id: u32| ids.contains(id) ==> id <= top,
    ensures
        highest(ids) == top,
{
    lemma_highest(ids);
}

/// Replaying a segment puts every key at the place of a `Set` record of it.
pub proof fn lemma_replay_holds(
    files: Map<Seq<char>, Seq<u8>>,
    id: u32,
    from: int,
    index: Map<Seq<char>, KvLocation>,
)
    requires
        0 <= from,
        files.contains_key(segment_name(id)),
        files[segment_name(id)].len() <= u64::MAX,
        index_holds(files, index),
        replay_from(files[segment_name(id)], id, from, index) is Some,
    ensures
        index_holds(files, replay_from(files[segment_name(id)], id, from, index)->0),
    decreases files[segment_name(id)].len() - from,
{
    let data = files[segment_name(id)];
    if from < data.len() {
        let end = line_end(data, from);
        lemma_line_end(data, from);
        let record = decode_spec(data.subrange(from, end))->0;
        let at = KvLocation { file_id: id, offset: from as u64 };
        assert(record_in(files, at) == Some(record));
        lemma_replay_holds(files, id, end + 1, apply(index, record, at));
    }
}

/// Replaying the segments of a directory puts every key at the place of a
/// `Set` record of it.
pub proof fn lemma_replay_below_holds(files: Map<Seq<char>, Seq<u8>>, ids: Set<u32>, bound: nat)
    requires
        bound <= id_limit(),
        forall|name: Seq<char>| #[trigger] files.contains_key(name) ==> files[name].len() <= u64::MAX,
        replay_below(files, ids, bound) is Ok,
    ensures
        index_holds(files, replay_below(files, ids, bound)->Ok_0),
    decreases bound,
{
    if bound > 0 {
        lemma_replay_below_holds(files, ids, (bound - 1) as nat);
        let id = (bound - 1) as u32;
        if ids.contains(id) {
            assert(files.contains_key(segment_name(id)));
            lemma_replay_holds(files, id, 0, replay_below(files, ids, (bound - 1) as nat)->Ok_0);
        }
    }
}

/// A store that was opened is well formed, and its index is in step with
/// its files.
pub proof fn lemma_opened(files: Map<Seq<char>, Seq<u8>>)
    requires
        forall|name: Seq<char>| #[trigger] files.contains_key(name) ==> files[name].len() <= usize::MAX,
        opened(files) is Ok,
    ensures
        opened(files)->Ok_0.wf(),
        opened(files)->Ok_0.synced(),
{
    let store = opened(files)->Ok_0;
    let ids = segment_ids(files);
    lemma_replay_below_holds(files, ids, id_limit());
    assert forall|id: u32| #[trigger] store.known.contains(id) implies store.files.contains_key(
        segment_name(id),
    ) by {
        lemma_replayed_files(files, ids, id_limit(), id);
    }
    if exists|id: u32| ids.contains(id) {
        lemma_highest(ids);
    }
}

/// True where the second index holds every entry of the first that does
/// not point into one of the given segments.
pub open spec fn keeps_live(
    with: Map<Seq<char>, KvLocation>,
    without: Map<Seq<char>, KvLocation>,
    dead: Set<u32>,
) -> bool {
    forall|key: Seq<char>| #[trigger]
        with.contains_key(key) && !dead.contains(with[key].file_id) ==> without.contains_key(key)
            && without[key] == with[key]
}

/// True where two indexes hold the same, but for entries of the first that
/// point into one of the given segments.
pub open spec fn agree_but(
    with: Map<Seq<char>, KvLocation>,
    without: Map<Seq<char>, KvLocation>,
    dead: Set<u32>,
) -> bool {
    &&& keeps_live(with, without, dead)
    &&& forall|key: Seq<char>| #[trigger] without.contains_key(key) ==> with.contains_key(key)
}

/// Replaying one segment over two indexes keeps what they have in common.
pub proof fn lemma_replay_keeps(
    data: Seq<u8>,
    id: u32,
    from: int,
    with: Map<Seq<char>, KvLocation>,
    without: Map<Seq<char>, KvLocation>,
    dead: Set<u32>,
)
    requires
        0 <= from,
        keeps_live(with, without, dead),
        replay_from(data, id, from, with) is Some,
    ensures
        replay_from(data, id, from, without) is Some,
        keeps_live(
            replay_from(data, id, from, with)->0,
            replay_from(data, id, from, without)->0,
            dead,
        ),
        agree_but(with, without, dead) ==> agree_but(
            replay_from(data, id, from, with)->0,
            replay_from(data, id, from, without)->0,
            dead,
        ),
    decreases data.len() - from,
{
    if from < data.len() {
        let end = line_end(data, from);
        lemma_line_end(data, from);
        let record = decode_spec(data.subrange(from, end))->0;
        let at = KvLocation { file_id: id, offset: from as u64 };
        lemma_replay_keeps(
            data,
            id,
            end + 1,
            apply(with, record, at),
            apply(without, record, at),
            dead,
        );
    }
}

/// Replaying a dead segment over the first of two indexes keeps what they
/// have in common; where the segment holds no `Rm` record, the second
/// still has no key that the first lacks.
pub proof fn lemma_replay_dead(
    data: Seq<u8>,
    id: u32,
    from: int,
    with: Map<Seq<char>, KvLocation>,
    without: Map<Seq<char>, KvLocation>,
    dead: Set<u32>,
)
    requires
        0 <= from,
        dead.contains(id),
        keeps_live(with, without, dead),
        replay_from(data, id, from, with) is Some,
    ensures
        keeps_live(replay_from(data, id, from, with)->0, without, dead),
        agree_but(with, without, dead) && holds_no_rm(data, from) ==> agree_but(
            replay_from(data, id, from, with)->0,
            without,
            dead,
        ),
    decreases data.len() - from,
{
    if from < data.len() {
        let end = line_end(data, from);
        lemma_line_end(data, from);
        let record = decode_spec(data.subrange(from, end))->0;
        let at = KvLocation { file_id: id, offset: from as u64 };
        lemma_replay_dead(data, id, end + 1, apply(with, record, at), without, dead);
    }
}

/// Replaying without the dead segments gives every entry that replaying
/// all segments gives and that points into a segment that is left. Where no
/// dead segment holds a `Rm` record, it gives no other key.
pub proof fn lemma_replay_below_without(
    files: Map<Seq<char>, Seq<u8>>,
    ids: Set<u32>,
    fewer_files: Map<Seq<char>, Seq<u8>>,
    dead: Set<u32>,
    bound: nat,
)
    requires
        bound <= id_limit(),
        replay_below(files, ids, bound) is Ok,
        forall|id: u32|
            ids.contains(id) && !dead.contains(id) && files.contains_key(
                #[trigger] segment_name(id),
            ) ==> fewer_files.contains_key(segment_name(id)) && fewer_files[segment_name(id)]
                == files[segment_name(id)],
    ensures
        replay_below(fewer_files, ids.difference(dead), bound) is Ok,
        keeps_live(
            replay_below(files, ids, bound)->Ok_0,
            replay_below(fewer_files, ids.difference(dead), bound)->Ok_0,
            dead,
        ),
        (forall|id: u32| #[trigger]
            dead.contains(id) && ids.contains(id) ==> holds_no_rm(files[segment_name(id)], 0))
            ==> agree_but(
            replay_below(files, ids, bound)->Ok_0,
            replay_below(fewer_files, ids.difference(dead), bound)->Ok_0,
            dead,
        ),
    decreases bound,
{
    if bound > 0 {
        let id = (bound - 1) as u32;
        lemma_replay_below_without(files, ids, fewer_files, dead, (bound - 1) as nat);
        let with = replay_below(files, ids, (bound - 1) as nat)->Ok_0;
        let without = replay_below(fewer_files, ids.difference(dead), (bound - 1) as nat)->Ok_0;
        if ids.contains(id) {
            let data = files[segment_name(id)];
            assert(files.contains_key(segment_name(id)));
            if dead.contains(id) {
                lemma_replay_dead(data, id, 0, with, without, dead);
            } else {
                assert(fewer_files.contains_key(segment_name(id)));
                lemma_replay_keeps(data, id, 0, with, without, dead);
            }
        }
    }
}

impl StoreModel {
    /// The dead segments.
    pub open spec fn dead_ids(self) -> Set<u32> {
        Set::new(|id: u32| self.is_dead(id))
    }

    /// An index that replaying gives, and no more, is one that it gives.
    pub proof fn lemma_synced_recoverable(self)
        requires
            self.synced(),
        ensures
            self.recoverable(),
    {
    }

    /// A compaction removes the dead segments from those that the files
    /// hold, and leaves the files of the others as they are.
    pub proof fn lemma_files_compacted(self)
        requires
            self.has_plain_names(),
        ensures
            self.compacted().has_plain_names(),
            segment_ids(self.compacted().files) == segment_ids(self.files).difference(
                self.dead_ids(),
            ),
            has_bad_name(self.compacted().files) ==> has_bad_name(self.files),
            forall|id: u32|
                !self.dead_ids().contains(id) && self.files.contains_key(
                    #[trigger] segment_name(id),
                ) ==> self.compacted().files.contains_key(segment_name(id))
                    && self.compacted().files[segment_name(id)] == self.files[segment_name(id)],
    {
        let after = self.compacted();
        let ids = segment_ids(self.files);
        let fewer = segment_ids(after.files);
        let dead = self.dead_ids();
        assert forall|id: u32|
            !dead.contains(id) && self.files.contains_key(
                #[trigger] segment_name(id),
            ) implies after.files.contains_key(segment_name(id)) && after.files[segment_name(id)]
            == self.files[segment_name(id)] by {
            let name = segment_name(id);
            if self.dead_names().contains(name) {
                let other = choose|other: u32|
                    self.is_dead(other) && #[trigger] segment_name(other) == name;
                lemma_segment_name_injective(other, id);
            }
        }
        assert forall|id: u32| fewer.contains(id) <==> ids.difference(dead).contains(id) by {
            if fewer.contains(id) {
                let name = choose|name: Seq<char>|
                    after.files.contains_key(name) && #[trigger] segment_id_of(name) == Some(id);
                assert(self.files.contains_key(name));
                assert(name == segment_name(id));
                if self.is_dead(id) {
                    assert(self.dead_names().contains(segment_name(id)));
                }
            }
            if ids.contains(id) && !dead.contains(id) {
                let name = choose|name: Seq<char>|
                    self.files.contains_key(name) && #[trigger] segment_id_of(name) == Some(id);
                assert(name == segment_name(id));
                assert(after.files.contains_key(segment_name(id)));
            }
        }
        assert(fewer =~= ids.difference(dead));
        if has_bad_name(after.files) {
            let name = choose|name: Seq<char>|
                after.files.contains_key(name) && #[trigger] is_bad_name(name);
            assert(self.files.contains_key(name));
        }
    }

    /// A compaction loses no entry of the index for a replay, where every
    /// segment file bears its own name.
    pub proof fn lemma_compacted_recoverable(self)
        requires
            self.recoverable(),
            self.has_plain_names(),
        ensures
            self.compacted().recoverable(),
            self.compacted().has_plain_names(),
    {
        let after = self.compacted();
        let ids = segment_ids(self.files);
        let dead = self.dead_ids();
        self.lemma_files_compacted();
        lemma_replay_below_without(self.files, ids, after.files, dead, id_limit());
        let with = replayed(self.files)->Ok_0;
        let without = replayed(after.files)->Ok_0;
        assert forall|key: Seq<char>| #[trigger] self.index.contains_key(key) implies without.contains_key(
            key,
        ) && without[key] == self.index[key] by {
            assert(is_live(self.index, self.index[key].file_id));
            assert(with.contains_key(key) && with[key] == self.index[key]);
        }
    }

    /// A compaction keeps the index in step with the files, where every
    /// segment file bears its own name and no dead segment holds a `Rm`
    /// record.
    pub proof fn lemma_compacted_synced(self)
        requires
            self.synced(),
            self.has_plain_names(),
            self.compaction_keeps_log(),
        ensures
            self.compacted().synced(),
    {
        let after = self.compacted();
        let ids = segment_ids(self.files);
        let dead = self.dead_ids();
        self.lemma_files_compacted();
        assert forall|id: u32| #[trigger] dead.contains(id) && ids.contains(id) implies holds_no_rm(
            self.files[segment_name(id)],
            0,
        ) by {
            assert(self.is_dead(id));
        }
        lemma_replay_below_without(self.files, ids, after.files, dead, id_limit());
        let without = replayed(after.files)->Ok_0;
        assert(without =~= self.index) by {
            assert forall|key: Seq<char>|
                self.index.contains_key(key) == without.contains_key(key) && (
                self.index.contains_key(key) ==> self.index[key] == without[key]) by {
                if self.index.contains_key(key) {
                    assert(is_live(self.index, self.index[key].file_id));
                }
            }
        }
    }

    /// Writing to the active segment adds its number to the segments that
    /// the files hold, and makes no file name bad.
    pub proof fn lemma_ids_appended(self, record: Seq<u8>)
        ensures
            segment_ids(self.appended(record)) == segment_ids(self.files).insert(self.current),
            has_bad_name(self.appended(record)) == has_bad_name(self.files),
            self.has_plain_names() ==> self.with_record(record).has_plain_names(),
    {
        let before = self.files;
        let after = self.appended(record);
        let active = self.active_name();
        lemma_segment_name_round_trip(self.current);
        assert forall|id: u32| segment_ids(after).contains(id) <==> segment_ids(before).insert(
            self.current,
        ).contains(id) by {
            if segment_ids(after).contains(id) {
                let name = choose|name: Seq<char>|
                    after.contains_key(name) && #[trigger] segment_id_of(name) == Some(id);
                if name != active {
                    assert(before.contains_key(name));
                }
            }
            if segment_ids(before).contains(id) {
                let name = choose|name: Seq<char>|
                    before.contains_key(name) && #[trigger] segment_id_of(name) == Some(id);
                assert(after.contains_key(name));
            }
            if id == self.current {
                assert(after.contains_key(active) && segment_id_of(active) == Some(id));
            }
        }
        assert(segment_ids(after) =~= segment_ids(before).insert(self.current));
        if has_bad_name(after) {
            let name = choose|name: Seq<char>| after.contains_key(name) && #[trigger] is_bad_name(name);
            assert(before.contains_key(name));
        }
        if has_bad_name(before) {
            let name = choose|name: Seq<char>| before.contains_key(name) && #[trigger] is_bad_name(name);
            assert(after.contains_key(name));
        }
        if self.has_plain_names() {
            assert forall|name: Seq<char>| #[trigger] after.contains_key(name) implies (segment_id_of(
                name,
            ) matches Some(id) ==> name == segment_name(id)) by {
                if name != active {
                    assert(before.contains_key(name));
                }
            }
        }
    }

    /// After one more record in the active segment, replaying the files
    /// gives what it gave before, with that record applied.
    pub proof fn lemma_replayed_appended(self, record: Seq<u8>)
        requires
            self.replays(),
            decode_spec(record) is Some,
            !record.contains(NEWLINE),
        ensures
            self.with_record(record).replays(),
            replayed(self.appended(record)) == Ok::<Map<Seq<char>, KvLocation>, Fault>(
                apply(replayed(self.files)->Ok_0, decode_spec(record)->0, self.next_place()),
            ),
    {
        let before = self.files;
        let after = self.appended(record);
        let ids = segment_ids(before);
        let more = segment_ids(after);
        let active = self.active_name();
        let current = self.current;
        let found = replayed(before)->Ok_0;
        self.lemma_ids_appended(record);
        lemma_segment_name_round_trip(current);
        // what was replayed before the active segment is replayed as before
        assert forall|id: u32|
            id < current && ids.contains(id) && before.contains_key(
                #[trigger] segment_name(id),
            ) implies before[segment_name(id)] == after[segment_name(id)] by {
            if segment_name(id) == active {
                lemma_segment_name_injective(id, current);
            }
        }
        assert forall|id: u32| id < current && ids.contains(id) implies before.contains_key(
            #[trigger] segment_name(id),
        ) == after.contains_key(segment_name(id)) by {
            if segment_name(id) == active {
                lemma_segment_name_injective(id, current);
            }
        }
        lemma_replay_below_same(before, ids, after, more, current as nat);
        // no segment lies beyond the active one
        lemma_replay_below_gap(before, ids, (current + 1) as nat, id_limit());
        lemma_replay_below_gap(after, more, (current + 1) as nat, id_limit());
        let sofar = replay_below(before, ids, current as nat);
        assert(replay_below(before, ids, (current + 1) as nat) == Ok::<
            Map<Seq<char>, KvLocation>,
            Fault,
        >(found));
        assert(sofar is Ok);
        let start = sofar->Ok_0;
        let data = self.active_data();
        if ids.contains(current) {
            assert(replay_segment(before, current, start) == Ok::<
                Map<Seq<char>, KvLocation>,
                Fault,
            >(found));
            assert(before.contains_key(active));
        } else {
            assert(!before.contains_key(active)) by {
                if before.contains_key(active) {
                    assert(segment_id_of(active) == Some(current));
                    assert(ids.contains(current));
                }
            }
            assert(data =~= Seq::<u8>::empty());
            assert(start == found);
        }
        assert(replay_from(data, current, 0, start) == Some(found));
        lemma_replay_append(data, current, 0, start, record);
        assert(replay_segment(after, current, start) == Ok::<Map<Seq<char>, KvLocation>, Fault>(
            apply(found, decode_spec(record)->0, self.next_place()),
        ));
    }

    /// Writing a `Set` record loses no entry of the index for a replay, and
    /// keeps the index in step with the files.
    pub proof fn lemma_written_recoverable(self, key: Seq<char>, value: Seq<char>, record: Seq<u8>)
        requires
            self.recoverable(),
            decode_spec(record) == Some(Record::Put(key, value)),
            !record.contains(NEWLINE),
        ensures
            self.written(key, record).recoverable(),
            self.synced() ==> self.written(key, record).synced(),
            self.has_plain_names() ==> self.written(key, record).has_plain_names(),
    {
        self.lemma_replayed_appended(record);
        self.lemma_ids_appended(record);
    }

    /// Writing a `Rm` record and taking the key out of the index loses no
    /// entry of the index for a replay, and keeps the index in step with
    /// the files.
    pub proof fn lemma_deleted_recoverable(self, key: Seq<char>)
        requires
            self.recoverable(),
            encodes_well(Record::Rm(key)),
        ensures
            self.deleted(key).recoverable(),
            self.synced() ==> self.deleted(key).synced(),
            self.has_plain_names() ==> self.deleted(key).has_plain_names(),
    {
        self.lemma_replayed_appended(record_bytes(Record::Rm(key)));
        self.lemma_ids_appended(record_bytes(Record::Rm(key)));
    }

    /// Closing the active segment loses no entry of the index for a replay,
    /// where every segment file bears its own name. It keeps the index in
    /// step with the files where the compaction removes no `Rm` record.
    pub proof fn lemma_rotated_recoverable(self)
        requires
            self.recoverable(),
            self.has_plain_names(),
            self.current < u32::MAX,
        ensures
            self.rotated().recoverable(),
            self.rotated().has_plain_names(),
            self.synced() && (self.compaction_is_due() ==> self.closed().compaction_keeps_log())
                ==> self.rotated().synced(),
    {
        if self.compaction_is_due() {
            self.closed().lemma_compacted_recoverable();
            if self.synced() && self.closed().compaction_keeps_log() {
                self.closed().lemma_compacted_synced();
            }
        }
    }

    /// `set` loses no entry of the index for a replay, where every segment
    /// file bears its own name. It keeps the index in step with the files
    /// where it removes no `Rm` record.
    pub proof fn lemma_put_recoverable(self, key: Seq<char>, value: Seq<char>)
        requires
            self.recoverable(),
            self.has_plain_names(),
            encodes_well(Record::Put(key, value)),
            self.current < u32::MAX,
        ensures
            self.put(key, value).recoverable(),
            self.put(key, value).has_plain_names(),
            self.synced() && self.put_keeps_log(key, value) ==> self.put(key, value).synced(),
    {
        let record = record_bytes(Record::Put(key, value));
        self.lemma_written_recoverable(key, value, record);
        let written = self.written(key, record);
        if written.is_full() {
            written.lemma_rotated_recoverable();
        }
    }

    /// Opening the files of a store gives a store that holds every key of
    /// this one with its value. It holds no other key where the index is in
    /// step with the files, and only there.
    pub proof fn lemma_reopened(self)
        requires
            self.wf(),
            self.recoverable(),
        ensures
            opened(self.files) is Ok,
            opened(self.files)->Ok_0.files == self.files,
            covers(opened(self.files)->Ok_0.index, self.index),
            forall|key: Seq<char>| #[trigger]
                self.contents().contains_key(key) ==> opened(
                    self.files,
                )->Ok_0.contents().contains_key(key) && opened(self.files)->Ok_0.contents()[key]
                    == self.contents()[key],
            self.synced() <==> opened(self.files)->Ok_0.contents() == self.contents(),
            opened(self.files)->Ok_0.wf(),
            opened(self.files)->Ok_0.synced(),
    {
        let again = opened(self.files)->Ok_0;
        let ids = segment_ids(self.files);
        lemma_opened(self.files);
        if self.synced() {
            assert(again.contents() =~= self.contents());
        }
        if again.contents() == self.contents() {
            assert forall|key: Seq<char>| again.index.contains_key(key) implies self.index.contains_key(
                key,
            ) by {
                assert(again.contents().contains_key(key));
            }
            assert(again.index =~= self.index);
        }
        if exists|id: u32| ids.contains(id) {
            lemma_highest(ids);
        }
    }
}

} // verus!
