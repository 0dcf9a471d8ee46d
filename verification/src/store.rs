//! The store: `open`, `set`, `get`, `remove`, and the compaction.
use vstd::prelude::*;
use vstd::slice::slice_subrange;
use crate::assoc::AssocList;
use crate::codec::{
    cut_off_error, decode, encode, encode_spec, encodes_well, KvCommand, Record, NEWLINE,
};
use crate::directory::Directory;
use crate::error::{missing_file, KvError};
use crate::log::{find_line_end, read_record, replay_from, KvLocation};
use crate::model::{
    has_bad_name, highest, id_limit, index_holds, is_live, opened, record_in,
    replay_below, replay_segment, segment_ids, Fault, StoreModel, LOG_COMPACTION_COUNT,
    LOG_FILE_SIZE,
};
use crate::recovery::{
    lemma_highest, lemma_highest_is, lemma_replay_below_gap, lemma_replayed_files,
};
use crate::segment::{
    is_bad_name, load_file_ids, segment_file_name, segment_id_of, segment_name,
    strictly_ascending,
};

verus! {

/// Replays one segment over an index: every `Set` record puts its key at
/// the place of the record, every `Rm` record takes its key out.
pub fn update_cache(cache: AssocList<KvLocation>, log_id: u32, files: &Directory) -> (res: Result<
    AssocList<KvLocation>,
    KvError,
>)
    requires
        cache.wf(),
        files.wf(),
    ensures
        res matches Ok(after) ==> {
            &&& after.wf()
            &&& replay_segment(files@, log_id, cache@) == Ok::<Map<Seq<char>, KvLocation>, Fault>(
                after@,
            )
            &&& index_holds(files@, cache@) ==> index_holds(files@, after@)
        },
        res matches Err(e) ==> match replay_segment(files@, log_id, cache@) {
            Err(Fault::MissingFile) => e is IoError,
            Err(Fault::BadRecord) => e is SerdeError,
            _ => false,
        },
{
    let name = segment_file_name(log_id);
    let data: &Vec<u8> = match files.read(&name) {
        Some(data) => data,
        None => {
            return Err(KvError::IoError(missing_file()));
        },
    };
    let mut index = cache;
    let mut offset: usize = 0;
    while offset < data.len()
        invariant
            index.wf(),
            offset <= data.len(),
            files@.contains_key(segment_name(log_id)),
            files@[segment_name(log_id)] == data@,
            replay_from(data@, log_id, 0, cache@) == replay_from(
                data@,
                log_id,
                offset as int,
                index@,
            ),
            index_holds(files@, cache@) ==> index_holds(files@, index@),
        decreases data.len() - offset,
    {
        let end: usize = find_line_end(data.as_slice(), offset);
        if end >= data.len() {
            return Err(cut_off_error());
        }
        let at = KvLocation { file_id: log_id, offset: offset as u64 };
        match decode(slice_subrange(data.as_slice(), offset, end)) {
            Ok(KvCommand::Put(key, _value)) => {
                assert(record_in(files@, at) == Some(Record::Put(key@, _value@)));
                index.insert(key, at);
            },
            Ok(KvCommand::Rm(key)) => {
                index.remove(&key);
            },
            Ok(KvCommand::Get(_)) => {},
            Err(e) => {
                return Err(e);
            },
        }
        offset = end + 1;
    }
    Ok(index)
}

/// True where some entry of the index points into the segment.
pub fn points_into(cache: &AssocList<KvLocation>, id: u32) -> (yes: bool)
    requires
        cache.wf(),
    ensures
        yes == is_live(cache@, id),
{
    let n: usize = cache.len();
    let mut i: usize = 0;
    while i < n
        invariant
            cache.wf(),
            n == cache.spec_len(),
            i <= n,
            forall|j: int| 0 <= j < i ==> cache.spec_value(j).file_id != id,
        decreases n - i,
    {
        if cache.value(i).file_id == id {
            proof {
                cache.lemma_entry(i as int);
            }
            return true;
        }
        i += 1;
    }
    proof {
        if is_live(cache@, id) {
            let key = choose|key: Seq<char>|
                cache@.contains_key(key) && (#[trigger] cache@[key]).file_id == id;
            let j = cache.lemma_place(key);
        }
    }
    false
}

fn contains_id(ids: &Vec<u32>, id: u32) -> (yes: bool)
    ensures
        yes == ids@.contains(id),
{
    let mut i: usize = 0;
    while i < ids.len()
        invariant
            i <= ids.len(),
            forall|j: int| 0 <= j < i ==> ids@[j] != id,
        decreases ids.len() - i,
    {
        if ids[i] == id {
            return true;
        }
        i += 1;
    }
    false
}

/// A key-value store over the files of one directory.
#[derive(Debug)]
pub struct KvStore {
    current_file_id: u32,
    path: String,
    file_ids: Vec<u32>,
    cache: AssocList<KvLocation>,
    files: Directory,
}

impl View for KvStore {
    type V = StoreModel;

    closed spec fn view(&self) -> StoreModel {
        StoreModel {
            current: self.current_file_id,
            known: self.file_ids@.to_set(),
            index: self.cache@,
            files: self.files@,
        }
    }
}

impl KvStore {
    /// The index points at `Set` records of its keys, the files of the
    /// known segments are there, and no segment is listed twice.
    pub closed spec fn wf(&self) -> bool {
        &&& self.cache.wf()
        &&& self.files.wf()
        &&& self.file_ids@.no_duplicates()
        &&& self@.wf()
    }

    /// The root directory that the store was opened on.
    pub closed spec fn spec_path(&self) -> Seq<char> {
        self.path@
    }

    /// The state of a well formed store is well formed.
    pub proof fn lemma_wf(&self)
        requires
            self.wf(),
        ensures
            self@.wf(),
    {
    }

    /// Opens the store on the files of its root directory: finds the
    /// segments, replays them in ascending order, and makes the highest of
    /// them the active one (segment 0 where there is none).
    pub fn open(path: String, files: Directory) -> (res: Result<KvStore, KvError>)
        requires
            files.wf(),
        ensures
            res matches Ok(store) ==> {
                &&& store.wf()
                &&& opened(files@) == Ok::<StoreModel, Fault>(store@)
                &&& store@.synced()
                &&& store.spec_path() == path@
            },
            res matches Err(e) ==> match opened(files@) {
                Err(Fault::BadName) => e.is_bad_segment_name(),
                Err(Fault::MissingFile) => e is IoError,
                Err(Fault::BadRecord) => e is SerdeError,
                Ok(_) => false,
            },
    {
        let names = files.names();
        let file_ids = match load_file_ids(&names) {
            Ok(file_ids) => file_ids,
            Err(e) => {
                proof {
                    let i = choose|i: int| 0 <= i < names.len() && is_bad_name(#[trigger] names[i]@);
                    assert(files@.contains_key(names[i]@));
                }
                return Err(e);
            },
        };
        proof {
            let listed = names@.map_values(|name: String| name@);
            assert forall|name: Seq<char>| files@.contains_key(name) implies exists|i: int|
                0 <= i < listed.len() && #[trigger] listed[i] == name by {
                let i = choose|i: int| 0 <= i < names.len() && #[trigger] names[i]@ == name;
                assert(listed[i] == name);
            }
            assert forall|id: u32|
                file_ids@.contains(id) <==> exists|i: int|
                    0 <= i < listed.len() && segment_id_of(#[trigger] listed[i]) == Some(id) by {
                if file_ids@.contains(id) {
                    let i = choose|i: int|
                        0 <= i < names.len() && segment_id_of(#[trigger] names[i]@) == Some(id);
                    assert(segment_id_of(listed[i]) == Some(id));
                }
                if exists|i: int|
                    0 <= i < listed.len() && segment_id_of(#[trigger] listed[i]) == Some(id) {
                    let i = choose|i: int|
                        0 <= i < listed.len() && segment_id_of(#[trigger] listed[i]) == Some(id);
                    assert(segment_id_of(names[i]@) == Some(id));
                }
            }
            assert forall|i: int| 0 <= i < listed.len() implies files@.contains_key(
                #[trigger] listed[i],
            ) && !is_bad_name(listed[i]) by {
                assert(listed[i] == names[i]@);
            }
            lemma_listed(files@, listed, file_ids@);
        }
        let n: usize = file_ids.len();
        let current_file_id: u32 = if n > 0 {
            file_ids[n - 1]
        } else {
            0
        };
        proof {
            lemma_last_is_highest(file_ids@);
        }
        let cache = match replay_all(&file_ids, &files) {
            Ok(cache) => cache,
            Err(e) => {
                return Err(e);
            },
        };
        let store = KvStore { current_file_id, path, file_ids, cache, files };
        proof {
            assert forall|id: u32| #[trigger]
                store@.known.contains(id) implies store@.files.contains_key(segment_name(id)) by {
                lemma_replayed_files(files@, segment_ids(files@), id_limit(), id);
            }
            files.lemma_bounds();
            if n > 0 {
                assert(file_ids@.contains(file_ids@[0]));
                assert(segment_ids(files@).contains(file_ids@[0]));
                lemma_highest(segment_ids(files@));
            }
        }
        Ok(store)
    }
}

/// The numbers that `load_file_ids` gives for the names of a directory are
/// the segment numbers that its files hold.
proof fn lemma_listed(files: Map<Seq<char>, Seq<u8>>, names: Seq<Seq<char>>, ids: Seq<u32>)
    requires
        forall|i: int| 0 <= i < names.len() ==> files.contains_key(#[trigger] names[i]),
        forall|name: Seq<char>|
            files.contains_key(name) ==> exists|i: int|
                0 <= i < names.len() && #[trigger] names[i] == name,
        forall|i: int| 0 <= i < names.len() ==> !is_bad_name(#[trigger] names[i]),
        forall|id: u32|
            ids.contains(id) <==> exists|i: int|
                0 <= i < names.len() && segment_id_of(#[trigger] names[i]) == Some(id),
    ensures
        !has_bad_name(files),
        ids.to_set() == segment_ids(files),
{
    if has_bad_name(files) {
        let name = choose|name: Seq<char>| files.contains_key(name) && #[trigger] is_bad_name(name);
        let i = choose|i: int| 0 <= i < names.len() && #[trigger] names[i] == name;
        assert(!is_bad_name(names[i]));
    }
    assert forall|id: u32| ids.contains(id) <==> segment_ids(files).contains(id) by {
        if ids.contains(id) {
            let i = choose|i: int|
                0 <= i < names.len() && segment_id_of(#[trigger] names[i]) == Some(id);
            assert(files.contains_key(names[i]));
        }
        if segment_ids(files).contains(id) {
            let name = choose|name: Seq<char>|
                files.contains_key(name) && #[trigger] segment_id_of(name) == Some(id);
            let i = choose|i: int| 0 <= i < names.len() && #[trigger] names[i] == name;
            assert(segment_id_of(names[i]) == Some(id));
        }
    }
    assert(ids.to_set() =~= segment_ids(files));
}

/// The last of an ascending list is its greatest member.
proof fn lemma_last_is_highest(ids: Seq<u32>)
    requires
        strictly_ascending(ids),
    ensures
        ids.len() > 0 ==> highest(ids.to_set()) == ids.last(),
        ids.len() == 0 ==> highest(ids.to_set()) == 0,
{
    if ids.len() > 0 {
        assert(ids.contains(ids.last()));
        assert forall|id: u32| ids.to_set().contains(id) implies id <= ids.last() by {
            let j = choose|j: int| 0 <= j < ids.len() && ids[j] == id;
        }
        lemma_highest_is(ids.to_set(), ids.last());
    } else {
        assert forall|id: u32| !ids.to_set().contains(id) by {
            if ids.to_set().contains(id) {
                assert(ids.contains(id));
            }
        }
    }
}

/// No member of an ascending list lies between two neighbours, below the
/// first, or above the last.
proof fn lemma_between(ids: Seq<u32>, i: int, id: u32)
    requires
        strictly_ascending(ids),
        0 <= i <= ids.len(),
        i > 0 ==> ids[i - 1] < id,
        i < ids.len() ==> id < ids[i],
    ensures
        !ids.to_set().contains(id),
{
    if ids.to_set().contains(id) {
        let j = choose|j: int| 0 <= j < ids.len() && ids[j] == id;
        if j < i {
            assert(ids[j] <= ids[i - 1]);
        } else {
            assert(ids[i] <= ids[j]);
        }
    }
}

/// The bound up to which the segments before place `i` of the list have been replayed.
spec fn replayed_to(ids: Seq<u32>, i: int) -> nat {
    if i < ids.len() {
        ids[i] as nat
    } else {
        id_limit()
    }
}

/// Replays the segments of an ascending list, one after the other.
fn replay_all(file_ids: &Vec<u32>, files: &Directory) -> (res: Result<AssocList<KvLocation>, KvError>)
    requires
        files.wf(),
        strictly_ascending(file_ids@),
    ensures
        res matches Ok(cache) ==> {
            &&& cache.wf()
            &&& index_holds(files@, cache@)
            &&& replay_below(files@, file_ids@.to_set(), id_limit()) == Ok::<
                Map<Seq<char>, KvLocation>,
                Fault,
            >(cache@)
        },
        res matches Err(e) ==> match replay_below(files@, file_ids@.to_set(), id_limit()) {
            Err(Fault::MissingFile) => e is IoError,
            Err(Fault::BadRecord) => e is SerdeError,
            _ => false,
        },
{
    let ghost ids = file_ids@.to_set();
    let n: usize = file_ids.len();
    let mut cache: AssocList<KvLocation> = AssocList::new();
    let mut i: usize = 0;
    proof {
        assert forall|id: u32| 0 <= id < replayed_to(file_ids@, 0) implies !ids.contains(id) by {
            lemma_between(file_ids@, 0, id);
        }
        lemma_replay_below_gap(files@, ids, 0, replayed_to(file_ids@, 0));
    }
    while i < n
        invariant
            files.wf(),
            cache.wf(),
            i <= n,
            n == file_ids.len(),
            strictly_ascending(file_ids@),
            ids == file_ids@.to_set(),
            index_holds(files@, cache@),
            replay_below(files@, ids, replayed_to(file_ids@, i as int)) == Ok::<
                Map<Seq<char>, KvLocation>,
                Fault,
            >(cache@),
        decreases n - i,
    {
        let id: u32 = file_ids[i];
        let ghost before = cache@;
        proof {
            assert(file_ids@.contains(file_ids@[i as int]));
            let next = replayed_to(file_ids@, i + 1);
            assert forall|other: u32| id + 1 <= other < next implies !ids.contains(other) by {
                lemma_between(file_ids@, i + 1, other);
            }
            lemma_replay_below_gap(files@, ids, (id + 1) as nat, next);
            assert(replay_below(files@, ids, (id + 1) as nat) == replay_segment(files@, id, before));
        }
        match update_cache(cache, id, files) {
            Ok(after) => {
                cache = after;
            },
            Err(e) => {
                proof {
                    lemma_replay_failed(files@, ids, (id + 1) as nat, id_limit());
                }
                return Err(e);
            },
        }
        i += 1;
    }
    Ok(cache)
}

/// Once replaying has failed, it has failed for every greater bound.
proof fn lemma_replay_failed(
    files: Map<Seq<char>, Seq<u8>>,
    ids: Set<u32>,
    low: nat,
    high: nat,
)
    requires
        low <= high,
        replay_below(files, ids, low) is Err,
    ensures
        replay_below(files, ids, high) == replay_below(files, ids, low),
    decreases high - low,
{
    if low < high {
        lemma_replay_failed(files, ids, low, (high - 1) as nat);
    }
}

/// Reads the value that the `Set` record at a place of the log sets.
pub fn read_value(files: &Directory, at: KvLocation) -> (res: Result<String, KvError>)
    requires
        files.wf(),
    ensures
        res matches Ok(value) ==> record_in(files@, at) matches Some(Record::Put(_, v)) && v
            == value@,
        res matches Err(e) ==> match record_in(files@, at) {
            Some(Record::Put(_, _)) => false,
            Some(_) => e.is_inconsistent(),
            None => if files@.contains_key(segment_name(at.file_id)) {
                e is SerdeError
            } else {
                e is IoError
            },
        },
{
    let name = segment_file_name(at.file_id);
    let data: &Vec<u8> = match files.read(&name) {
        Some(data) => data,
        None => {
            return Err(KvError::IoError(missing_file()));
        },
    };
    match read_record(data.as_slice(), at.offset) {
        Ok(KvCommand::Put(_key, value)) => Ok(value),
        Ok(_) => Err(KvError::inconsistent()),
        Err(e) => Err(e),
    }
}

/// The members of a list with one more at its end are those of the list, and that one.
proof fn lemma_pushed_set(ids: Seq<u32>, id: u32)
    ensures
        ids.push(id).to_set() == ids.to_set().insert(id),
{
    let more = ids.push(id);
    assert forall|x: u32| more.to_set().contains(x) <==> ids.to_set().insert(id).contains(x) by {
        if more.contains(x) {
            let k = choose|k: int| 0 <= k < more.len() && more[k] == x;
            if k < ids.len() {
                assert(ids[k] == x);
                assert(ids.contains(x));
            }
        }
        if ids.contains(x) {
            let k = choose|k: int| 0 <= k < ids.len() && ids[k] == x;
            assert(more[k] == x);
        }
        if x == id {
            assert(more[ids.len() as int] == x);
        }
    }
    assert(more.to_set() =~= ids.to_set().insert(id));
}

/// The names of the files that a compaction has removed once it has gone
/// through the first `upto` of the known segments.
spec fn dead_before(ids: Seq<u32>, index: Map<Seq<char>, KvLocation>, upto: int) -> Set<Seq<char>> {
    Set::new(
        |name: Seq<char>|
            exists|j: int|
                0 <= j < upto && !is_live(index, ids[j]) && #[trigger] segment_name(ids[j]) == name,
    )
}

/// Removes the file of every listed segment that no entry of the index
/// points into, and gives the segments that stay.
fn sweep(file_ids: &Vec<u32>, cache: &AssocList<KvLocation>, files: &mut Directory) -> (kept: Vec<u32>)
    requires
        cache.wf(),
        old(files).wf(),
        file_ids@.no_duplicates(),
    ensures
        final(files).wf(),
        final(files)@ == old(files)@.remove_keys(dead_before(file_ids@, cache@, file_ids@.len() as int)),
        forall|id: u32| kept@.contains(id) <==> file_ids@.contains(id) && is_live(cache@, id),
        kept@.no_duplicates(),
{
    let n: usize = file_ids.len();
    let mut kept: Vec<u32> = Vec::new();
    let mut i: usize = 0;
    assert(files@ =~= old(files)@.remove_keys(dead_before(file_ids@, cache@, 0)));
    while i < n
        invariant
            cache.wf(),
            files.wf(),
            i <= n,
            n == file_ids.len(),
            file_ids@.no_duplicates(),
            kept@.no_duplicates(),
            files@ == old(files)@.remove_keys(dead_before(file_ids@, cache@, i as int)),
            forall|id: u32|
                kept@.contains(id) <==> (exists|j: int| 0 <= j < i && file_ids@[j] == id) && is_live(
                    cache@,
                    id,
                ),
        decreases n - i,
    {
        let id: u32 = file_ids[i];
        let ghost kept_before = kept@;
        let ghost files_before = files@;
        if points_into(cache, id) {
            kept.push(id);
            proof {
                assert(dead_before(file_ids@, cache@, i + 1) =~= dead_before(
                    file_ids@,
                    cache@,
                    i as int,
                ));
                assert(kept@.last() == id);
                assert(!kept_before.contains(id)) by {
                    if kept_before.contains(id) {
                        let j = choose|j: int| 0 <= j < i && file_ids@[j] == id;
                        assert(file_ids@[j] == file_ids@[i as int]);
                    }
                }
                assert forall|a: int, b: int| 0 <= a < kept@.len() && 0 <= b < kept@.len() && a
                    != b implies kept@[a] != kept@[b] by {
                    if a < kept_before.len() {
                        assert(kept_before.contains(kept_before[a]));
                    }
                    if b < kept_before.len() {
                        assert(kept_before.contains(kept_before[b]));
                    }
                }
                assert forall|x: u32|
                    kept@.contains(x) <==> (exists|j: int| 0 <= j < i + 1 && file_ids@[j] == x)
                        && is_live(cache@, x) by {
                    if kept@.contains(x) {
                        let k = choose|k: int| 0 <= k < kept@.len() && kept@[k] == x;
                        if k < kept_before.len() {
                            assert(kept_before[k] == x);
                            assert(kept_before.contains(x));
                            let j = choose|j: int| 0 <= j < i && file_ids@[j] == x;
                            assert(0 <= j < i + 1 && file_ids@[j] == x);
                        } else {
                            assert(file_ids@[i as int] == x);
                        }
                    }
                    if (exists|j: int| 0 <= j < i + 1 && file_ids@[j] == x) && is_live(cache@, x) {
                        let j = choose|j: int| 0 <= j < i + 1 && file_ids@[j] == x;
                        if j < i {
                            assert(kept_before.contains(x));
                            let k = choose|k: int| 0 <= k < kept_before.len() && kept_before[k] == x;
                            assert(kept@[k] == x);
                        } else {
                            assert(kept@[kept@.len() - 1] == x);
                        }
                    }
                }
            }
        } else {
            let name = segment_file_name(id);
            files.remove(&name);
            proof {
                let upto = dead_before(file_ids@, cache@, i as int);
                let more = dead_before(file_ids@, cache@, i + 1);
                assert(more =~= upto.insert(name@)) by {
                    assert forall|other: Seq<char>| more.contains(other) <==> upto.insert(
                        name@,
                    ).contains(other) by {
                        if more.contains(other) {
                            let j = choose|j: int|
                                0 <= j < i + 1 && !is_live(cache@, file_ids@[j])
                                    && #[trigger] segment_name(file_ids@[j]) == other;
                            if j < i {
                                assert(upto.contains(other));
                            }
                        }
                        if upto.contains(other) {
                            let j = choose|j: int|
                                0 <= j < i && !is_live(cache@, file_ids@[j])
                                    && #[trigger] segment_name(file_ids@[j]) == other;
                            assert(0 <= j < i + 1);
                        }
                        if other == name@ {
                            assert(segment_name(file_ids@[i as int]) == other);
                        }
                    }
                }
                assert(files@ =~= old(files)@.remove_keys(more));
                assert forall|x: u32|
                    kept@.contains(x) <==> (exists|j: int| 0 <= j < i + 1 && file_ids@[j] == x)
                        && is_live(cache@, x) by {
                    if kept@.contains(x) {
                        let j = choose|j: int| 0 <= j < i && file_ids@[j] == x;
                        assert(0 <= j < i + 1 && file_ids@[j] == x);
                    }
                    if (exists|j: int| 0 <= j < i + 1 && file_ids@[j] == x) && is_live(cache@, x) {
                        let j = choose|j: int| 0 <= j < i + 1 && file_ids@[j] == x;
                        assert(j < i);
                    }
                }
            }
        }
        i += 1;
    }
    proof {
        assert forall|id: u32| kept@.contains(id) <==> file_ids@.contains(id) && is_live(
            cache@,
            id,
        ) by {
            if file_ids@.contains(id) {
                let j = choose|j: int| 0 <= j < file_ids@.len() && file_ids@[j] == id;
                assert(0 <= j < n && file_ids@[j] == id);
            }
        }
    }
    kept
}

impl KvStore {
    /// The root directory that the store was opened on.
    pub fn path(&self) -> (path: &String)
        ensures
            path@ == self.spec_path(),
    {
        &self.path
    }

    /// The number of the active segment.
    pub fn current_file_id(&self) -> (id: u32)
        ensures
            id == self@.current,
    {
        self.current_file_id
    }

    /// The segments that the store found when it was opened, or has closed since.
    pub fn file_ids(&self) -> (ids: Vec<u32>)
        requires
            self.wf(),
        ensures
            ids@.to_set() == self@.known,
            ids@.no_duplicates(),
    {
        self.file_ids.clone()
    }

    /// The files of the store, as they stand.
    pub fn directory(&self) -> (files: &Directory)
        requires
            self.wf(),
        ensures
            files.wf(),
            files@ == self@.files,
    {
        &self.files
    }

    /// Closes the store and gives its files.
    pub fn into_directory(self) -> (files: Directory)
        requires
            self.wf(),
        ensures
            files.wf(),
            files@ == self@.files,
    {
        self.files
    }

    /// Where the latest `Set` record of a key lies.
    pub fn locate(&self, key: &String) -> (found: Option<KvLocation>)
        requires
            self.wf(),
        ensures
            found matches Some(at) ==> self@.index.contains_key(key@) && at == self@.index[key@],
            found is None ==> !self@.index.contains_key(key@),
    {
        match self.cache.get(key) {
            Some(at) => Some(*at),
            None => None,
        }
    }

    /// The value of a key, `None` for a key that the store does not hold.
    /// The value is read from the `Set` record that the index points at; in
    /// a well formed store that record is there, so the lookup cannot fail.
    pub fn get(&self, key: String) -> (res: Result<Option<String>, KvError>)
        requires
            self.wf(),
        ensures
            match res {
                Ok(Some(value)) => self@.contents().contains_key(key@) && value@
                    == self@.contents()[key@],
                Ok(None) => !self@.contents().contains_key(key@),
                Err(_) => false,
            },
    {
        match self.cache.get(&key) {
            Some(at) => {
                match read_value(&self.files, *at) {
                    Ok(value) => Ok(Some(value)),
                    Err(e) => Err(e),
                }
            },
            None => Ok(None),
        }
    }

    /// Removes the file of every known segment that no entry of the index
    /// points into, and forgets the segment.
    pub fn compact(&mut self)
        requires
            old(self).wf(),
        ensures
            final(self).wf(),
            final(self)@ == old(self)@.compacted(),
            final(self)@.contents() == old(self)@.contents(),
            final(self).spec_path() == old(self).spec_path(),
            old(self)@.recoverable() && old(self)@.has_plain_names()
                ==> final(self)@.recoverable() && final(self)@.has_plain_names(),
            old(self)@.synced() && old(self)@.has_plain_names()
                && old(self)@.compaction_keeps_log() ==> final(self)@.synced(),
    {
        let kept = sweep(&self.file_ids, &self.cache, &mut self.files);
        proof {
            let before = old(self)@;
            assert(dead_before(old(self).file_ids@, before.index, old(self).file_ids@.len() as int)
                =~= before.dead_names()) by {
                let ids = old(self).file_ids@;
                let upto = dead_before(ids, before.index, ids.len() as int);
                assert forall|name: Seq<char>| upto.contains(name) <==> before.dead_names().contains(
                    name,
                ) by {
                    if upto.contains(name) {
                        let j = choose|j: int|
                            0 <= j < ids.len() && !is_live(before.index, ids[j])
                                && #[trigger] segment_name(ids[j]) == name;
                        assert(ids.contains(ids[j]));
                        assert(before.is_dead(ids[j]) && segment_name(ids[j]) == name);
                    }
                    if before.dead_names().contains(name) {
                        let id = choose|id: u32|
                            before.is_dead(id) && #[trigger] segment_name(id) == name;
                        let j = choose|j: int| 0 <= j < ids.len() && ids[j] == id;
                        assert(segment_name(ids[j]) == name);
                    }
                }
            }
            assert(kept@.to_set() =~= before.known.filter(|id: u32| is_live(before.index, id)));
            before.lemma_compacted();
            if before.recoverable() && before.has_plain_names() {
                before.lemma_compacted_recoverable();
            }
            if before.synced() && before.has_plain_names() && before.compaction_keeps_log() {
                before.lemma_compacted_synced();
            }
        }
        self.file_ids = kept;
        assert(self@ =~= old(self)@.compacted());
    }

    /// Sets the value of a key; a value that the key had is replaced. The
    /// record goes to the end of the active segment. Once that segment is
    /// longer than a segment may grow it is closed: every tenth time the
    /// compaction runs, and the next segment becomes the active one.
    pub fn set(&mut self, key: String, value: String) -> (res: Result<(), KvError>)
        requires
            old(self).wf(),
            old(self)@.current < u32::MAX,
        ensures
            final(self).wf(),
            final(self).spec_path() == old(self).spec_path(),
            res is Ok <==> encode_spec(Record::Put(key@, value@)) is Some,
            res is Ok ==> {
                &&& encodes_well(Record::Put(key@, value@))
                &&& final(self)@ == old(self)@.put(key@, value@)
                &&& final(self)@.contents() == old(self)@.contents().insert(key@, value@)
            },
            res is Ok && old(self)@.recoverable() && old(self)@.has_plain_names()
                ==> final(self)@.recoverable() && final(self)@.has_plain_names(),
            res is Ok && old(self)@.synced() && old(self)@.has_plain_names()
                && old(self)@.put_keeps_log(key@, value@) ==> final(self)@.synced(),
            res matches Err(e) ==> e is SerdeError && final(self)@ == old(self)@,
    {
        let ghost before = self@;
        let command = KvCommand::Put(key.clone(), value);
        let record = match encode(&command) {
            Ok(record) => record,
            Err(e) => {
                return Err(e);
            },
        };
        let ghost bytes = record@;
        let mut line = record;
        line.push(NEWLINE);
        let name = segment_file_name(self.current_file_id);
        let lengths = self.files.append(name, line);
        let at = KvLocation { file_id: self.current_file_id, offset: lengths.0 as u64 };
        self.cache.insert(key, at);
        let ghost written = before.written(key@, bytes);
        proof {
            before.lemma_written(key@, value@, bytes);
            assert(self@ =~= written);
            if before.recoverable() {
                before.lemma_written_recoverable(key@, value@, bytes);
            }
        }
        if lengths.1 as u64 > LOG_FILE_SIZE {
            if !contains_id(&self.file_ids, self.current_file_id) {
                self.file_ids.push(self.current_file_id);
            }
            let ghost closed = written.closed();
            proof {
                assert(self.file_ids@.to_set() =~= written.known.insert(written.current)) by {
                    if !old(self).file_ids@.contains(written.current) {
                        assert(self.file_ids@ == old(self).file_ids@.push(written.current));
                        lemma_pushed_set(old(self).file_ids@, written.current);
                    }
                }
                assert(self.file_ids@.no_duplicates()) by {
                    let ids = old(self).file_ids@;
                    if !ids.contains(written.current) {
                        assert forall|a: int, b: int|
                            0 <= a < self.file_ids@.len() && 0 <= b < self.file_ids@.len() && a
                                != b implies self.file_ids@[a] != self.file_ids@[b] by {
                            if a < ids.len() {
                                assert(ids.contains(ids[a]));
                            }
                            if b < ids.len() {
                                assert(ids.contains(ids[b]));
                            }
                        }
                    }
                }
                assert(self@ =~= closed);
                written.lemma_rotated();
            }
            if self.current_file_id % LOG_COMPACTION_COUNT == 0 {
                self.compact();
            }
            self.current_file_id += 1;
            proof {
                assert(self@ =~= written.rotated());
                if before.recoverable() && before.has_plain_names() {
                    written.lemma_rotated_recoverable();
                }
            }
        }
        Ok(())
    }

    /// Removes a key. The key must be in the store: removing one that is
    /// not is an error. The `Rm` record goes to the end of the active segment.
    pub fn remove(&mut self, key: String) -> (res: Result<(), KvError>)
        requires
            old(self).wf(),
        ensures
            final(self).wf(),
            final(self).spec_path() == old(self).spec_path(),
            !old(self)@.contents().contains_key(key@) ==> (res matches Err(e) && e.is_not_found()
                && final(self)@ == old(self)@),
            old(self)@.contents().contains_key(key@) ==> match res {
                Ok(_) => {
                    &&& encodes_well(Record::Rm(key@))
                    &&& final(self)@ == old(self)@.deleted(key@)
                    &&& final(self)@.contents() == old(self)@.contents().remove(key@)
                },
                Err(e) => encode_spec(Record::Rm(key@)) is None && e is SerdeError && final(self)@
                    == old(self)@,
            },
            res is Ok && old(self)@.recoverable() ==> final(self)@.recoverable(),
            res is Ok && old(self)@.synced() ==> final(self)@.synced(),
            old(self)@.has_plain_names() ==> final(self)@.has_plain_names(),
    {
        let ghost before = self@;
        if self.cache.find(&key).is_none() {
            return Err(KvError::not_found());
        }
        let command = KvCommand::Rm(key);
        let record = match encode(&command) {
            Ok(record) => record,
            Err(e) => {
                return Err(e);
            },
        };
        let key = match command {
            KvCommand::Rm(key) => key,
            KvCommand::Put(key, _) => key,
            KvCommand::Get(key) => key,
        };
        let ghost bytes = record@;
        let mut line = record;
        line.push(NEWLINE);
        let name = segment_file_name(self.current_file_id);
        let lengths = self.files.append(name, line);
        self.cache.remove(&key);
        proof {
            before.lemma_deleted(key@);
            assert(self@ =~= before.deleted(key@));
            if before.recoverable() {
                before.lemma_deleted_recoverable(key@);
            }
            before.lemma_ids_appended(bytes);
            assert(self@.files == before.with_record(bytes).files);
            if before.has_plain_names() {
                assert(before.with_record(bytes).has_plain_names());
                assert(self@.has_plain_names());
            }
        }
        Ok(())
    }
}

} // verus!
