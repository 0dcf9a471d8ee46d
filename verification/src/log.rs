//! One segment of the log: records one behind the other, each closed by a
//! line feed, and what replaying them does to the index.
//!
//! A record that is not closed by a line feed was cut off while it was
//! written. It is never read as a record: replaying a segment that ends in
//! one fails, as it does for any other malformed record.
use vstd::prelude::*;
use vstd::slice::slice_subrange;
use crate::codec::{cut_off_error, decode, decode_spec, KvCommand, Record, NEWLINE};
use crate::error::KvError;

verus! {

/// Where a record lies: the segment, and the place of its first byte in it.
#[derive(Debug, Clone, Copy, PartialEq, Eq)]
pub struct KvLocation {
    pub file_id: u32,
    pub offset: u64,
}

/// The place of the first line feed at or after `from`; the length of the
/// data where there is none.
pub open spec fn line_end(data: Seq<u8>, from: int) -> int
    decreases data.len() - from,
{
    if from < 0 || from >= data.len() {
        data.len() as int
    } else if data[from] == NEWLINE {
        from
    } else {
        line_end(data, from + 1)
    }
}

/// The record that starts at `offset`, `None` where there is none, where it
/// is not closed by a line feed, or where its bytes are no record.
pub open spec fn record_at(data: Seq<u8>, offset: int) -> Option<Record> {
    if 0 <= offset < data.len() && line_end(data, offset) < data.len() {
        decode_spec(data.subrange(offset, line_end(data, offset)))
    } else {
        None
    }
}

/// The index after one record that lies at `at`.
pub open spec fn apply(
    index: Map<Seq<char>, KvLocation>,
    record: Record,
    at: KvLocation,
) -> Map<Seq<char>, KvLocation> {
    match record {
        Record::Put(key, _) => index.insert(key, at),
        Record::Rm(key) => index.remove(key),
        Record::Get(_) => index,
    }
}

/// The index after the records of a segment from `from` on, in the order in
/// which they lie; `None` where one of them is malformed or cut off.
pub open spec fn replay_from(
    data: Seq<u8>,
    id: u32,
    from: int,
    index: Map<Seq<char>, KvLocation>,
) -> Option<Map<Seq<char>, KvLocation>>
    decreases data.len() - from,
    when from >= 0
    via replay_from_decreases
{
    if from >= data.len() {
        Some(index)
    } else if line_end(data, from) >= data.len() {
        None
    } else {
        match decode_spec(data.subrange(from, line_end(data, from))) {
            None => None,
            Some(record) => replay_from(
                data,
                id,
                line_end(data, from) + 1,
                apply(index, record, KvLocation { file_id: id, offset: from as u64 }),
            ),
        }
    }
}

#[via_fn]
proof fn replay_from_decreases(
    data: Seq<u8>,
    id: u32,
    from: int,
    index: Map<Seq<char>, KvLocation>,
) {
    if 0 <= from <= data.len() {
        lemma_line_end(data, from);
    }
}

/// A line ends at or after its start, at a line feed or at the end of the
/// data, and holds no line feed.
pub proof fn lemma_line_end(data: Seq<u8>, from: int)
    requires
        0 <= from <= data.len(),
    ensures
        from <= line_end(data, from) <= data.len(),
        line_end(data, from) < data.len() ==> data[line_end(data, from)] == NEWLINE,
        forall|i: int| from <= i < line_end(data, from) ==> data[i] != NEWLINE,
    decreases data.len() - from,
{
    if from < data.len() && data[from] != NEWLINE {
        lemma_line_end(data, from + 1);
    }
}

/// The first line feed at or after `from` is where the line ends.
pub proof fn lemma_line_end_is(data: Seq<u8>, from: int, end: int)
    requires
        0 <= from <= end <= data.len(),
        forall|i: int| from <= i < end ==> data[i] != NEWLINE,
        end < data.len() ==> data[end] == NEWLINE,
    ensures
        line_end(data, from) == end,
    decreases end - from,
{
    if from < end {
        lemma_line_end_is(data, from + 1, end);
    }
}

/// Finds the end of the line that starts at `from`.
pub fn find_line_end(data: &[u8], from: usize) -> (end: usize)
    requires
        from <= data.len(),
    ensures
        end == line_end(data@, from as int),
        from <= end <= data.len(),
{
    let mut end: usize = from;
    while end < data.len() && data[end] != NEWLINE
        invariant
            from <= end <= data.len(),
            forall|i: int| from <= i < end ==> data@[i] != NEWLINE,
        decreases data.len() - end,
    {
        end += 1;
    }
    proof {
        lemma_line_end_is(data@, from as int, end as int);
    }
    end
}

/// Reads the record that starts at `offset`.
pub fn read_record(data: &[u8], offset: u64) -> (res: Result<KvCommand, KvError>)
    ensures
        res matches Ok(command) ==> record_at(data@, offset as int) == Some(command@),
        res matches Err(e) ==> record_at(data@, offset as int) is None && e is SerdeError,
{
    if offset >= data.len() as u64 {
        // nothing lies here: the empty text is no record
        return decode(slice_subrange(data, 0, 0));
    }
    let from: usize = offset as usize;
    let end: usize = find_line_end(data, from);
    if end >= data.len() {
        return Err(cut_off_error());
    }
    decode(slice_subrange(data, from, end))
}

} // verus!
