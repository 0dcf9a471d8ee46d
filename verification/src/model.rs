//! The store as a mathematical value, and what each operation does to it.
//!
//! A `StoreModel` holds what the store knows (the active segment, the
//! segments it has seen, the index) and the files it works on. The
//! operations of the store are functions on it; the lemmas of this module
//! say what they keep.
use vstd::prelude::*;
use crate::codec::{decode_spec, encodes_well, record_bytes, Record, NEWLINE};
use crate::directory::file_or_empty;
use crate::log::{lemma_line_end, lemma_line_end_is, line_end, record_at, replay_from, KvLocation};
use crate::segment::{is_bad_name, lemma_segment_name_injective, segment_id_of, segment_name};

verus! {

/// A segment is closed once it is longer than this many bytes.
pub const LOG_FILE_SIZE: u64 = 1048576;

/// Closing a segment whose number is a multiple of this runs the compaction.
pub const LOG_COMPACTION_COUNT: u32 = 10;

/// One more than the greatest segment number.
pub open spec fn id_limit() -> nat {
    0x1_0000_0000
}

/// Why a directory cannot be opened as a store.
pub enum Fault {
    /// A file has the extension of a segment and no number before it.
    BadName,
    /// A segment number was found, and the file of that segment is missing.
    MissingFile,
    /// A segment holds a malformed record, or ends in one that was cut off.
    BadRecord,
}

/// The segment numbers that the names of the files hold.
pub open spec fn segment_ids(files: Map<Seq<char>, Seq<u8>>) -> Set<u32> {
    Set::new(
        |id: u32|
            exists|name: Seq<char>|
                files.contains_key(name) && #[trigger] segment_id_of(name) == Some(id),
    )
}

/// True where a file has the extension of a segment and no number before it.
pub open spec fn has_bad_name(files: Map<Seq<char>, Seq<u8>>) -> bool {
    exists|name: Seq<char>| files.contains_key(name) && #[trigger] is_bad_name(name)
}

/// The index after all records of one segment.
pub open spec fn replay_segment(
    files: Map<Seq<char>, Seq<u8>>,
    id: u32,
    index: Map<Seq<char>, KvLocation>,
) -> Result<Map<Seq<char>, KvLocation>, Fault> {
    if !files.contains_key(segment_name(id)) {
        Err(Fault::MissingFile)
    } else {
        match replay_from(files[segment_name(id)], id, 0, index) {
            Some(after) => Ok(after),
            None => Err(Fault::BadRecord),
        }
    }
}

/// The index after the segments with a number below `bound`, in ascending
/// order, starting from the empty index.
pub open spec fn replay_below(
    files: Map<Seq<char>, Seq<u8>>,
    ids: Set<u32>,
    bound: nat,
) -> Result<Map<Seq<char>, KvLocation>, Fault>
    decreases bound,
{
    if bound == 0 {
        Ok(Map::empty())
    } else {
        match replay_below(files, ids, (bound - 1) as nat) {
            Err(fault) => Err(fault),
            Ok(index) => if ids.contains((bound - 1) as u32) {
                replay_segment(files, (bound - 1) as u32, index)
            } else {
                Ok(index)
            },
        }
    }
}

/// The greatest of a set of numbers, 0 for the empty set.
pub open spec fn highest(ids: Set<u32>) -> u32 {
    if exists|id: u32| ids.contains(id) {
        choose|id: u32| ids.contains(id) && forall|other: u32| ids.contains(other) ==> other <= id
    } else {
        0
    }
}

/// True where some entry of the index points into the segment.
pub open spec fn is_live(index: Map<Seq<char>, KvLocation>, id: u32) -> bool {
    exists|key: Seq<char>| index.contains_key(key) && (#[trigger] index[key]).file_id == id
}

/// The record that lies at a place of the log.
pub open spec fn record_in(files: Map<Seq<char>, Seq<u8>>, at: KvLocation) -> Option<Record> {
    if files.contains_key(segment_name(at.file_id)) {
        record_at(files[segment_name(at.file_id)], at.offset as int)
    } else {
        None
    }
}

/// True where every entry of the index points at a `Set` record of its own key.
pub open spec fn index_holds(
    files: Map<Seq<char>, Seq<u8>>,
    index: Map<Seq<char>, KvLocation>,
) -> bool {
    forall|key: Seq<char>| #[trigger]
        index.contains_key(key) ==> (record_in(files, index[key]) matches Some(
            Record::Put(k, _),
        ) && k == key)
}

/// True where no record of a segment from `from` on is a `Rm` record.
pub open spec fn holds_no_rm(data: Seq<u8>, from: int) -> bool
    decreases data.len() - from,
    when from >= 0
    via holds_no_rm_decreases
{
    if from >= data.len() || line_end(data, from) >= data.len() {
        true
    } else {
        match decode_spec(data.subrange(from, line_end(data, from))) {
            Some(Record::Rm(_)) => false,
            Some(_) => holds_no_rm(data, line_end(data, from) + 1),
            None => true,
        }
    }
}

#[via_fn]
proof fn holds_no_rm_decreases(data: Seq<u8>, from: int) {
    if 0 <= from <= data.len() {
        lemma_line_end(data, from);
    }
}

/// The state of a store.
#[verifier::ext_equal]
pub struct StoreModel {
    /// The number of the active segment.
    pub current: u32,
    /// The segments that the store found when it was opened, or has closed since.
    pub known: Set<u32>,
    /// Where the latest `Set` record of each live key lies.
    pub index: Map<Seq<char>, KvLocation>,
    /// The files of the root directory.
    pub files: Map<Seq<char>, Seq<u8>>,
}

impl StoreModel {
    /// The record that lies at a place of the log.
    pub open spec fn record_of(self, at: KvLocation) -> Option<Record> {
        record_in(self.files, at)
    }

    /// Every entry of the index points at a `Set` record of its own key, and
    /// the file of every known segment is there.
    pub open spec fn wf(self) -> bool {
        &&& index_holds(self.files, self.index)
        &&& forall|id: u32| #[trigger]
            self.known.contains(id) ==> self.files.contains_key(segment_name(id))
        &&& forall|name: Seq<char>| #[trigger]
            self.files.contains_key(name) ==> self.files[name].len() <= usize::MAX
    }

    /// The value that the record at a place of the log sets.
    pub open spec fn value_of(self, at: KvLocation) -> Seq<char> {
        match self.record_of(at) {
            Some(Record::Put(_, value)) => value,
            _ => Seq::empty(),
        }
    }

    /// What the store holds: each live key with its value.
    pub open spec fn contents(self) -> Map<Seq<char>, Seq<char>> {
        Map::new(
            |key: Seq<char>| self.index.contains_key(key),
            |key: Seq<char>| self.value_of(self.index[key]),
        )
    }

    /// The name of the active segment's file.
    pub open spec fn active_name(self) -> Seq<char> {
        segment_name(self.current)
    }

    /// The bytes of the active segment.
    pub open spec fn active_data(self) -> Seq<u8> {
        file_or_empty(self.files, self.active_name())
    }

    /// The files after one more record in the active segment.
    pub open spec fn appended(self, record: Seq<u8>) -> Map<Seq<char>, Seq<u8>> {
        self.files.insert(self.active_name(), self.active_data() + record.push(NEWLINE))
    }

    /// The state after one more record in the active segment.
    pub open spec fn with_record(self, record: Seq<u8>) -> StoreModel {
        StoreModel { files: self.appended(record), ..self }
    }

    /// The place at which the next record of the active segment starts.
    pub open spec fn next_place(self) -> KvLocation {
        KvLocation { file_id: self.current, offset: self.active_data().len() as u64 }
    }

    /// The state after a `Set` record for `key` was written and indexed.
    pub open spec fn written(self, key: Seq<char>, record: Seq<u8>) -> StoreModel {
        StoreModel {
            index: self.index.insert(key, self.next_place()),
            files: self.appended(record),
            ..self
        }
    }

    /// True once the active segment is longer than a segment may grow.
    pub open spec fn is_full(self) -> bool {
        self.active_data().len() > LOG_FILE_SIZE
    }

    /// True of a known segment that no entry of the index points into.
    pub open spec fn is_dead(self, id: u32) -> bool {
        self.known.contains(id) && !is_live(self.index, id)
    }

    /// The names of the files that a compaction removes.
    pub open spec fn dead_names(self) -> Set<Seq<char>> {
        Set::new(|name: Seq<char>| exists|id: u32| self.is_dead(id) && #[trigger] segment_name(id) == name)
    }

    /// The state after a compaction: the dead segments are forgotten and
    /// their files are gone.
    pub open spec fn compacted(self) -> StoreModel {
        StoreModel {
            known: self.known.filter(|id: u32| is_live(self.index, id)),
            files: self.files.remove_keys(self.dead_names()),
            ..self
        }
    }

    /// The state with the active segment among the known ones.
    pub open spec fn closed(self) -> StoreModel {
        StoreModel { known: self.known.insert(self.current), ..self }
    }

    /// True where closing the active segment runs the compaction.
    pub open spec fn compaction_is_due(self) -> bool {
        self.current % LOG_COMPACTION_COUNT == 0
    }

    /// The state after the active segment was closed: it is known, a
    /// compaction has run if its number called for one, and the next
    /// segment is active.
    pub open spec fn rotated(self) -> StoreModel {
        let kept = if self.compaction_is_due() {
            self.closed().compacted()
        } else {
            self.closed()
        };
        StoreModel { current: (self.current + 1) as u32, ..kept }
    }

    /// The state after `set(key, value)`.
    pub open spec fn put(self, key: Seq<char>, value: Seq<char>) -> StoreModel {
        let written = self.written(key, record_bytes(Record::Put(key, value)));
        if written.is_full() {
            written.rotated()
        } else {
            written
        }
    }

    /// True where every segment file bears the name that the store gives
    /// to its segment.
    pub open spec fn has_plain_names(self) -> bool {
        forall|name: Seq<char>| #[trigger]
            self.files.contains_key(name) ==> (segment_id_of(name) matches Some(id) ==> name
                == segment_name(id))
    }

    /// True where a compaction removes no `Rm` record: no dead segment
    /// holds one.
    pub open spec fn compaction_keeps_log(self) -> bool {
        forall|id: u32| #[trigger]
            self.is_dead(id) ==> holds_no_rm(self.files[segment_name(id)], 0)
    }

    /// True where `set(key, value)` removes no `Rm` record: the segment is
    /// not closed, or no compaction runs, or no dead segment holds a `Rm`
    /// record.
    pub open spec fn put_keeps_log(self, key: Seq<char>, value: Seq<char>) -> bool {
        let written = self.written(key, record_bytes(Record::Put(key, value)));
        written.is_full() && written.compaction_is_due()
            ==> written.closed().compaction_keeps_log()
    }

    /// The state after `remove(key)` of a key that is in the index.
    pub open spec fn deleted(self, key: Seq<char>) -> StoreModel {
        StoreModel {
            index: self.index.remove(key),
            files: self.appended(record_bytes(Record::Rm(key))),
            ..self
        }
    }

    /// True where the files can be replayed, and no segment lies beyond
    /// the active one.
    pub open spec fn replays(self) -> bool {
        &&& !has_bad_name(self.files)
        &&& forall|id: u32| #[trigger] segment_ids(self.files).contains(id) ==> id <= self.current
        &&& replayed(self.files) is Ok
    }

    /// True where opening the files again would give every entry of this
    /// index. It may give more: a key that was removed comes back where a
    /// compaction has removed the record of its removal.
    pub open spec fn recoverable(self) -> bool {
        self.replays() && covers(replayed(self.files)->Ok_0, self.index)
    }

    /// True where opening the files again would give this index, and no more.
    pub open spec fn synced(self) -> bool {
        self.replays() && replayed(self.files)->Ok_0 == self.index
    }
}

/// The index that replaying all segments of a directory gives.
pub open spec fn replayed(files: Map<Seq<char>, Seq<u8>>) -> Result<
    Map<Seq<char>, KvLocation>,
    Fault,
> {
    replay_below(files, segment_ids(files), id_limit())
}

/// True where the first index holds every entry of the second.
pub open spec fn covers(
    whole: Map<Seq<char>, KvLocation>,
    part: Map<Seq<char>, KvLocation>,
) -> bool {
    forall|key: Seq<char>| #[trigger]
        part.contains_key(key) ==> whole.contains_key(key) && whole[key] == part[key]
}

/// The state of a store that was opened on the files, or why it cannot be.
pub open spec fn opened(files: Map<Seq<char>, Seq<u8>>) -> Result<StoreModel, Fault> {
    if has_bad_name(files) {
        Err(Fault::BadName)
    } else {
        match replayed(files) {
            Err(fault) => Err(fault),
            Ok(index) => Ok(
                StoreModel {
                    current: highest(segment_ids(files)),
                    known: segment_ids(files),
                    index,
                    files,
                },
            ),
        }
    }
}

/// True where the second directory comes from the first by files that
/// grow at their end, appear, or disappear: no byte that was written has
/// changed.
pub open spec fn only_grows(
    before: Map<Seq<char>, Seq<u8>>,
    after: Map<Seq<char>, Seq<u8>>,
) -> bool {
    forall|name: Seq<char>| #[trigger]
        before.contains_key(name) && after.contains_key(name) ==> before[name].is_prefix_of(
            after[name],
        )
}

/// A record that is closed by a line feed is not changed by what is written
/// behind it.
pub proof fn lemma_record_kept(data: Seq<u8>, more: Seq<u8>, offset: int)
    requires
        record_at(data, offset) is Some,
    ensures
        record_at(data + more, offset) == record_at(data, offset),
{
    let end = line_end(data, offset);
    lemma_line_end(data, offset);
    let longer = data + more;
    assert forall|i: int| offset <= i < end implies longer[i] != NEWLINE by {
        assert(longer[i] == data[i]);
    }
    assert(longer[end] == data[end]);
    lemma_line_end_is(longer, offset, end);
    assert(longer.subrange(offset, end) =~= data.subrange(offset, end));
}

/// A record written at the end of a segment, with its line feed, is read
/// back from the place where the segment ended.
pub proof fn lemma_record_written(data: Seq<u8>, record: Seq<u8>)
    requires
        !record.contains(NEWLINE),
    ensures
        line_end(data + record.push(NEWLINE), data.len() as int) == data.len() + record.len(),
        record_at(data + record.push(NEWLINE), data.len() as int) == decode_spec(record),
{
    let longer = data + record.push(NEWLINE);
    let start = data.len() as int;
    let end = start + record.len();
    assert forall|i: int| start <= i < end implies longer[i] != NEWLINE by {
        assert(longer[i] == record[i - start]);
        assert(record.contains(record[i - start]));
    }
    assert(longer[end] == NEWLINE);
    lemma_line_end_is(longer, start, end);
    assert(longer.subrange(start, end) =~= record);
}

impl StoreModel {
    /// What lies at a place of the log still lies there after a record was
    /// written to the active segment.
    pub proof fn lemma_appended_keeps(self, record: Seq<u8>, at: KvLocation)
        requires
            self.record_of(at) is Some,
        ensures
            self.with_record(record).record_of(at) == self.record_of(at),
    {
        if at.file_id == self.current {
            lemma_record_kept(self.active_data(), record.push(NEWLINE), at.offset as int);
        } else {
            if segment_name(at.file_id) == segment_name(self.current) {
                lemma_segment_name_injective(at.file_id, self.current);
            }
        }
    }

    /// Writing a `Set` record keeps the store well formed, and gives the key
    /// the value of the record.
    pub proof fn lemma_written(self, key: Seq<char>, value: Seq<char>, record: Seq<u8>)
        requires
            self.wf(),
            decode_spec(record) == Some(Record::Put(key, value)),
            !record.contains(NEWLINE),
            self.active_data().len() + record.len() + 1 <= usize::MAX,
        ensures
            self.written(key, record).wf(),
            self.written(key, record).contents() == self.contents().insert(key, value),
            self.written(key, record).files.contains_key(self.active_name()),
    {
        let after = self.written(key, record);
        let at = self.next_place();
        lemma_record_written(self.active_data(), record);
        assert(after.record_of(at) == Some(Record::Put(key, value)));
        assert forall|k: Seq<char>| #[trigger] after.index.contains_key(k) implies (after.record_of(
            after.index[k],
        ) matches Some(Record::Put(k2, _)) && k2 == k) by {
            if k != key {
                self.lemma_appended_keeps(record, self.index[k]);
            }
        }
        assert forall|k: Seq<char>| after.contents().contains_key(k) implies after.contents()[k]
            == self.contents().insert(key, value)[k] by {
            if k != key {
                self.lemma_appended_keeps(record, self.index[k]);
            }
        }
        assert(after.contents() =~= self.contents().insert(key, value));
    }

    /// Writing a `Rm` record and taking the key out of the index keeps the
    /// store well formed, and takes the key out of what it holds.
    pub proof fn lemma_deleted(self, key: Seq<char>)
        requires
            self.wf(),
            self.active_data().len() + record_bytes(Record::Rm(key)).len() + 1 <= usize::MAX,
        ensures
            self.deleted(key).wf(),
            self.deleted(key).contents() == self.contents().remove(key),
    {
        let after = self.deleted(key);
        let record = record_bytes(Record::Rm(key));
        assert forall|k: Seq<char>| #[trigger] after.index.contains_key(k) implies (after.record_of(
            after.index[k],
        ) matches Some(Record::Put(k2, _)) && k2 == k) by {
            self.lemma_appended_keeps(record, self.index[k]);
        }
        assert forall|k: Seq<char>| after.contents().contains_key(k) implies after.contents()[k]
            == self.contents().remove(key)[k] by {
            self.lemma_appended_keeps(record, self.index[k]);
        }
        assert(after.contents() =~= self.contents().remove(key));
    }

    /// A compaction keeps the store well formed and loses nothing of what it
    /// holds; the files it removes are gone, and no entry of the index
    /// points into them.
    pub proof fn lemma_compacted(self)
        requires
            self.wf(),
        ensures
            self.compacted().wf(),
            self.compacted().contents() == self.contents(),
            forall|id: u32| #[trigger]
                self.is_dead(id) ==> !self.compacted().files.contains_key(segment_name(id))
                    && !self.compacted().known.contains(id) && !is_live(
                    self.compacted().index,
                    id,
                ),
            forall|id: u32| #[trigger]
                is_live(self.index, id) ==> self.compacted().files.contains_key(segment_name(id)),
    {
        let after = self.compacted();
        assert forall|at: KvLocation| is_live(self.index, at.file_id) implies after.record_of(at)
            == self.record_of(at) by {
            let name = segment_name(at.file_id);
            if self.dead_names().contains(name) {
                let id = choose|id: u32| self.is_dead(id) && #[trigger] segment_name(id) == name;
                lemma_segment_name_injective(id, at.file_id);
            }
        }
        assert forall|k: Seq<char>| #[trigger] after.index.contains_key(k) implies (after.record_of(
            after.index[k],
        ) matches Some(Record::Put(k2, _)) && k2 == k) by {
            assert(is_live(self.index, self.index[k].file_id));
        }
        assert forall|id: u32| #[trigger] after.known.contains(id) implies after.files.contains_key(
            segment_name(id),
        ) by {
            let name = segment_name(id);
            if self.dead_names().contains(name) {
                let other = choose|other: u32|
                    self.is_dead(other) && #[trigger] segment_name(other) == name;
                lemma_segment_name_injective(other, id);
            }
        }
        assert forall|k: Seq<char>| after.contents().contains_key(k) implies after.contents()[k]
            == self.contents()[k] by {
            assert(is_live(self.index, self.index[k].file_id));
        }
        assert(after.contents() =~= self.contents());
        assert forall|id: u32| #[trigger] self.is_dead(id) implies !after.files.contains_key(
            segment_name(id),
        ) && !after.known.contains(id) && !is_live(after.index, id) by {
            assert(self.dead_names().contains(segment_name(id)));
        }
        assert forall|id: u32| #[trigger] is_live(self.index, id) implies after.files.contains_key(
            segment_name(id),
        ) by {
            let k = choose|k: Seq<char>|
                self.index.contains_key(k) && (#[trigger] self.index[k]).file_id == id;
            assert(self.record_of(self.index[k]) is Some);
            let name = segment_name(id);
            if self.dead_names().contains(name) {
                let other = choose|other: u32|
                    self.is_dead(other) && #[trigger] segment_name(other) == name;
                lemma_segment_name_injective(other, id);
            }
        }
    }

    /// Closing the active segment keeps the store well formed and loses
    /// nothing of what it holds.
    pub proof fn lemma_rotated(self)
        requires
            self.wf(),
            self.files.contains_key(self.active_name()),
            self.current < u32::MAX,
        ensures
            self.rotated().wf(),
            self.rotated().contents() == self.contents(),
            self.rotated().current == self.current + 1,
    {
        let closed = self.closed();
        assert(closed.wf());
        assert(closed.contents() =~= self.contents());
        if self.compaction_is_due() {
            closed.lemma_compacted();
            let kept = closed.compacted();
            let after = self.rotated();
            assert(after.contents() =~= kept.contents());
        } else {
            let after = self.rotated();
            assert(after.contents() =~= closed.contents());
        }
    }

    /// The log is append-only: `set` and `remove` change no byte that was
    /// written. A file grows at its end, or appears, or is removed whole by
    /// the compaction.
    pub proof fn lemma_append_only(self, key: Seq<char>, value: Seq<char>)
        ensures
            only_grows(self.files, self.put(key, value).files),
            only_grows(self.files, self.deleted(key).files),
            only_grows(self.files, self.compacted().files),
            forall|name: Seq<char>|
                self.files.contains_key(name) && name != self.active_name() && #[trigger] self.put(
                    key,
                    value,
                ).files.contains_key(name) ==> self.put(key, value).files[name] == self.files[name],
    {
        let record = record_bytes(Record::Put(key, value));
        let written = self.written(key, record);
        assert(only_grows(self.files, written.files));
        assert(only_grows(self.files, written.closed().compacted().files));
    }

    /// `set` keeps the store well formed, and gives the key its value:
    /// whatever value the key had, and whether or not the segment was closed
    /// and a compaction ran.
    pub proof fn lemma_put(self, key: Seq<char>, value: Seq<char>)
        requires
            self.wf(),
            encodes_well(Record::Put(key, value)),
            self.current < u32::MAX,
            self.active_data().len() + record_bytes(Record::Put(key, value)).len() + 1
                <= usize::MAX,
        ensures
            self.put(key, value).wf(),
            self.put(key, value).contents() == self.contents().insert(key, value),
            self.put(key, value).current == self.current || self.put(key, value).current
                == self.current + 1,
    {
        let record = record_bytes(Record::Put(key, value));
        self.lemma_written(key, value, record);
        let written = self.written(key, record);
        if written.is_full() {
            written.lemma_rotated();
        }
    }
}

} // verus!
