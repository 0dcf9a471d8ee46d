//! Segment files: how a segment number becomes a file name, and back.
//!
//! A segment is named by its number in decimal, padded with zeros to nine
//! digits, with the extension `log`: `000000001.log`.
use vstd::prelude::*;
use crate::error::KvError;

verus! {

/// `String::push` of std: the text afterwards is the text before, with the
/// character at its end.
pub assume_specification[ String::push ](text: &mut String, c: char)
    ensures
        final(text)@ == old(text)@.push(c),
;

/// `.log`, the end of every segment file name.
pub open spec fn log_suffix() -> Seq<char> {
    seq!['.', 'l', 'o', 'g']
}

/// True of the ten decimal digits.
pub open spec fn is_digit(c: char) -> bool {
    '0' <= c <= '9'
}

/// True of a text that holds decimal digits only.
pub open spec fn all_digits(text: Seq<char>) -> bool {
    forall|i: int| 0 <= i < text.len() ==> is_digit(#[trigger] text[i])
}

/// The character of one decimal digit.
pub open spec fn digit_char(d: int) -> char {
    ((d + 48) as u8) as char
}

/// The number that a run of decimal digits stands for.
pub open spec fn digits_value(text: Seq<char>) -> nat
    decreases text.len(),
{
    if text.len() == 0 {
        0
    } else {
        (digits_value(text.drop_last()) * 10 + (text.last() as u8 - 48)) as nat
    }
}

/// The least number of digits in a segment file name.
pub const NAME_DIGITS: usize = 9;

/// A number in decimal, without leading zeros.
pub open spec fn decimal(n: nat) -> Seq<char>
    decreases n,
{
    if n < 10 {
        seq![digit_char(n as int)]
    } else {
        decimal(n / 10).push(digit_char((n % 10) as int))
    }
}

/// `count` zeros.
pub open spec fn zeros(count: nat) -> Seq<char> {
    Seq::new(count, |i: int| '0')
}

/// A text with zeros put before it until it is `width` long.
pub open spec fn zero_padded(text: Seq<char>, width: nat) -> Seq<char> {
    if text.len() >= width {
        text
    } else {
        zeros((width - text.len()) as nat) + text
    }
}

/// The file name of a segment.
pub open spec fn segment_name(id: u32) -> Seq<char> {
    zero_padded(decimal(id as nat), NAME_DIGITS as nat) + log_suffix()
}

/// True of a file name whose extension is `log`.
pub open spec fn is_segment_name(name: Seq<char>) -> bool {
    name.len() > 4 && name.subrange(name.len() - 4, name.len() as int) == log_suffix()
}

/// A file name without its last four characters.
pub open spec fn stem_of(name: Seq<char>) -> Seq<char> {
    name.subrange(0, name.len() - 4)
}

/// The number that a text is read as: decimal digits, a `+` allowed before
/// them, and a value that fits in 32 bits.
pub open spec fn parse_u32(text: Seq<char>) -> Option<u32> {
    let digits = if text.len() > 0 && text[0] == '+' {
        text.skip(1)
    } else {
        text
    };
    if digits.len() > 0 && all_digits(digits) && digits_value(digits) <= u32::MAX {
        Some(digits_value(digits) as u32)
    } else {
        None
    }
}

/// The segment number in a file name, `None` for a file that is no segment
/// or whose number cannot be read.
pub open spec fn segment_id_of(name: Seq<char>) -> Option<u32> {
    if is_segment_name(name) {
        parse_u32(stem_of(name))
    } else {
        None
    }
}

/// True of a file name with the extension of a segment and no number before it.
pub open spec fn is_bad_name(name: Seq<char>) -> bool {
    is_segment_name(name) && parse_u32(stem_of(name)) is None
}

/// The path of a file in a directory: the directory, a `/` unless the
/// directory is empty or ends in one, and the file name.
pub open spec fn joined(dir: Seq<char>, name: Seq<char>) -> Seq<char> {
    if dir.len() == 0 || dir.last() == '/' {
        dir + name
    } else {
        dir.push('/') + name
    }
}

/// True of a list in which every number is less than the one behind it.
pub open spec fn strictly_ascending(ids: Seq<u32>) -> bool {
    forall|i: int, j: int| 0 <= i < j < ids.len() ==> ids[i] < ids[j]
}

proof fn lemma_decimal(n: nat)
    ensures
        decimal(n).len() >= 1,
        all_digits(decimal(n)),
        digits_value(decimal(n)) == n,
    decreases n,
{
    if n < 10 {
        let s = decimal(n);
        assert(s.drop_last().len() == 0);
        assert(digits_value(s.drop_last()) == 0);
        assert(s.last() == digit_char(n as int));
    } else {
        lemma_decimal(n / 10);
        let s = decimal(n);
        let head = decimal(n / 10);
        assert(s.drop_last() =~= head);
        assert(s.last() == digit_char((n % 10) as int));
        assert forall|i: int| 0 <= i < s.len() implies is_digit(#[trigger] s[i]) by {
            if i < head.len() {
                assert(s[i] == head[i]);
            }
        }
    }
}

proof fn lemma_only_zeros(count: nat)
    ensures
        digits_value(zeros(count)) == 0,
    decreases count,
{
    if count > 0 {
        assert(zeros(count).drop_last() =~= zeros((count - 1) as nat));
        lemma_only_zeros((count - 1) as nat);
    }
}

proof fn lemma_zeros_value(count: nat, text: Seq<char>)
    requires
        text.len() >= 1,
    ensures
        digits_value(zeros(count) + text) == digits_value(text),
    decreases text.len(),
{
    let whole = zeros(count) + text;
    assert(whole.last() == text.last());
    if text.len() == 1 {
        assert(whole.drop_last() =~= zeros(count));
        lemma_only_zeros(count);
        assert(text.drop_last().len() == 0);
        assert(digits_value(text.drop_last()) == 0);
    } else {
        assert(whole.drop_last() =~= zeros(count) + text.drop_last());
        lemma_zeros_value(count, text.drop_last());
    }
}

/// The number of a segment can be read back from its file name.
pub proof fn lemma_segment_name_round_trip(id: u32)
    ensures
        is_segment_name(segment_name(id)),
        !is_bad_name(segment_name(id)),
        segment_id_of(segment_name(id)) == Some(id),
{
    let digits = decimal(id as nat);
    lemma_decimal(id as nat);
    let padded = zero_padded(digits, NAME_DIGITS as nat);
    let name = segment_name(id);
    assert(name.subrange(name.len() - 4, name.len() as int) =~= log_suffix());
    assert(stem_of(name) =~= padded);
    assert(padded[0] != '+');
    if digits.len() < NAME_DIGITS {
        lemma_zeros_value((NAME_DIGITS - digits.len()) as nat, digits);
        assert forall|i: int| 0 <= i < padded.len() implies is_digit(#[trigger] padded[i]) by {
            if i >= NAME_DIGITS - digits.len() {
                assert(padded[i] == digits[i - (NAME_DIGITS - digits.len())]);
            }
        }
    }
}

/// Two segments with one file name are one segment.
pub proof fn lemma_segment_name_injective(a: u32, b: u32)
    requires
        segment_name(a) == segment_name(b),
    ensures
        a == b,
{
    lemma_segment_name_round_trip(a);
    lemma_segment_name_round_trip(b);
}

proof fn lemma_prefix_value(text: Seq<char>, k: int)
    requires
        0 <= k <= text.len(),
        all_digits(text),
    ensures
        digits_value(text.take(k)) <= digits_value(text),
    decreases text.len() - k,
{
    if k == text.len() {
        assert(text.take(k) =~= text);
    } else {
        lemma_prefix_value(text, k + 1);
        assert(text.take(k + 1).drop_last() =~= text.take(k));
        assert(is_digit(text[k]));
    }
}

/// The characters of a text, one by one.
pub fn chars_of(text: &str) -> (out: Vec<char>)
    ensures
        out@ == text@,
{
    let mut out: Vec<char> = Vec::new();
    for c in it: text.chars()
        invariant
            it.seq() == text@,
            out@ == text@.take(it.index()),
    {
        out.push(c);
    }
    out
}

fn digit(d: u32) -> (c: char)
    requires
        d < 10,
    ensures
        c == digit_char(d as int),
        is_digit(c),
{
    ((d + 48) as u8) as char
}

/// Writes a number in decimal behind a text.
fn push_decimal(name: &mut String, n: u32)
    ensures
        final(name)@ == old(name)@ + decimal(n as nat),
    decreases n,
{
    if n >= 10 {
        push_decimal(name, n / 10);
    }
    name.push(digit(n % 10));
    assert(name@ =~= old(name)@ + decimal(n as nat));
}

/// The number of digits of a number in decimal.
fn decimal_len(n: u32) -> (len: usize)
    ensures
        len == decimal(n as nat).len(),
        1 <= len <= n / 10 + 1,
    decreases n,
{
    if n >= 10 {
        1 + decimal_len(n / 10)
    } else {
        1
    }
}

/// The file name of a segment.
pub fn segment_file_name(id: u32) -> (name: String)
    ensures
        name@ == segment_name(id),
{
    let mut name = String::new();
    let len: usize = decimal_len(id);
    let mut pad: usize = 0;
    while len < NAME_DIGITS && pad < NAME_DIGITS - len
        invariant
            name@ == zeros(pad as nat),
            len < NAME_DIGITS ==> pad <= NAME_DIGITS - len,
            len >= NAME_DIGITS ==> pad == 0,
        decreases NAME_DIGITS - pad,
    {
        name.push('0');
        pad += 1;
        assert(name@ =~= zeros(pad as nat));
    }
    proof {
        if len >= NAME_DIGITS {
            assert(name@ =~= Seq::<char>::empty());
        }
    }
    push_decimal(&mut name, id);
    assert(name@ =~= zero_padded(decimal(id as nat), NAME_DIGITS as nat));
    name.push('.');
    name.push('l');
    name.push('o');
    name.push('g');
    assert(name@ =~= segment_name(id));
    name
}

/// The path of a segment file below a directory.
pub fn file_path(path: &str, file_id: u32) -> (full: String)
    ensures
        full@ == joined(path@, segment_name(file_id)),
{
    let name = segment_file_name(file_id);
    let dir = chars_of(path);
    let mut full = path.to_owned();
    if dir.len() > 0 && dir[dir.len() - 1] != '/' {
        full.push('/');
    }
    full.append(name.as_str());
    full
}

/// Reads the characters from `from` up to `to` as a number.
fn parse_number(text: &Vec<char>, from: usize, to: usize) -> (res: Option<u32>)
    requires
        from <= to <= text.len(),
    ensures
        res == parse_u32(text@.subrange(from as int, to as int)),
{
    let ghost whole = text@.subrange(from as int, to as int);
    let mut i: usize = from;
    if i < to && text[i] == '+' {
        i += 1;
    }
    let start: usize = i;
    let ghost digits = text@.subrange(start as int, to as int);
    assert(digits =~= if whole.len() > 0 && whole[0] == '+' {
        whole.skip(1)
    } else {
        whole
    });
    if i == to {
        return None;
    }
    let mut acc: u64 = 0;
    while i < to
        invariant
            from <= start <= i <= to <= text.len(),
            whole == text@.subrange(from as int, to as int),
            digits == text@.subrange(start as int, to as int),
            digits == if whole.len() > 0 && whole[0] == '+' {
                whole.skip(1)
            } else {
                whole
            },
            all_digits(digits.take(i - start)),
            acc == digits_value(digits.take(i - start)),
            acc <= u32::MAX,
        decreases to - i,
    {
        let c: char = text[i];
        assert(digits[i - start] == c);
        if c < '0' || c > '9' {
            assert(!is_digit(digits[i - start]));
            return None;
        }
        let ghost before = digits.take(i - start);
        let ghost after = digits.take(i - start + 1);
        proof {
            assert(after.drop_last() =~= before);
            assert(after.last() == c);
            assert forall|j: int| 0 <= j < after.len() implies is_digit(#[trigger] after[j]) by {
                if j < before.len() {
                    assert(after[j] == before[j]);
                }
            }
        }
        acc = acc * 10 + ((c as u8 - 48) as u64);
        if acc > 0xffff_ffff {
            proof {
                if all_digits(digits) {
                    lemma_prefix_value(digits, i - start + 1);
                }
            }
            return None;
        }
        i += 1;
    }
    assert(digits.take(i - start) =~= digits);
    Some(acc as u32)
}

/// The segment number in a file name: `Ok(None)` for a file that is no
/// segment, an error for a segment file whose number cannot be read.
pub fn segment_id(name: &str) -> (res: Result<Option<u32>, KvError>)
    ensures
        res matches Ok(found) ==> !is_bad_name(name@) && found == segment_id_of(name@),
        res matches Err(e) ==> is_bad_name(name@) && e.is_bad_segment_name(),
{
    let chars = chars_of(name);
    let n: usize = chars.len();
    if n > 4 && chars[n - 4] == '.' && chars[n - 3] == 'l' && chars[n - 2] == 'o' && chars[n - 1]
        == 'g' {
        assert(name@.subrange(n - 4, n as int) =~= log_suffix());
        match parse_number(&chars, 0, n - 4) {
            Some(id) => Ok(Some(id)),
            None => Err(KvError::bad_segment_name()),
        }
    } else {
        proof {
            if n > 4 {
                let tail = name@.subrange(n - 4, n as int);
                assert(tail[0] == name@[n - 4]);
                assert(tail[1] == name@[n - 3]);
                assert(tail[2] == name@[n - 2]);
                assert(tail[3] == name@[n - 1]);
            }
        }
        Ok(None)
    }
}

/// Puts a number into an ascending list, unless it is there.
fn insert_id(ids: &mut Vec<u32>, id: u32)
    requires
        strictly_ascending(old(ids)@),
    ensures
        strictly_ascending(final(ids)@),
        forall|x: u32| final(ids)@.contains(x) <==> (old(ids)@.contains(x) || x == id),
{
    let mut i: usize = 0;
    while i < ids.len() && ids[i] < id
        invariant
            i <= ids.len(),
            ids@ == old(ids)@,
            forall|j: int| 0 <= j < i ==> ids@[j] < id,
        decreases ids.len() - i,
    {
        i += 1;
    }
    if i < ids.len() && ids[i] == id {
        assert(ids@.contains(id));
        return ;
    }
    ids.insert(i, id);
    proof {
        let before = old(ids)@;
        let after = ids@;
        assert forall|a: int, b: int| 0 <= a < b < after.len() implies after[a] < after[b] by {
            if a < i && b > i {
                assert(after[b] == before[b - 1]);
            } else if a > i {
                assert(after[a] == before[a - 1] && after[b] == before[b - 1]);
            }
        }
        assert forall|x: u32| after.contains(x) <==> (before.contains(x) || x == id) by {
            if after.contains(x) {
                let k = choose|k: int| 0 <= k < after.len() && after[k] == x;
                if k < i {
                    assert(before[k] == x);
                } else if k > i {
                    assert(before[k - 1] == x);
                }
            }
            if before.contains(x) {
                let k = choose|k: int| 0 <= k < before.len() && before[k] == x;
                if k < i {
                    assert(after[k] == x);
                } else {
                    assert(after[k + 1] == x);
                }
            }
            if x == id {
                assert(after[i as int] == x);
            }
        }
    }
}

/// The segment numbers among the file names of a directory, ascending,
/// each once. A file with the extension `log` and no number before it is
/// an error.
pub fn load_file_ids(names: &Vec<String>) -> (res: Result<Vec<u32>, KvError>)
    ensures
        res matches Ok(ids) ==> {
            &&& strictly_ascending(ids@)
            &&& forall|i: int| 0 <= i < names.len() ==> !is_bad_name(#[trigger] names[i]@)
            &&& forall|id: u32|
                ids@.contains(id) <==> exists|i: int|
                    0 <= i < names.len() && segment_id_of(#[trigger] names[i]@) == Some(id)
        },
        res matches Err(e) ==> {
            &&& e.is_bad_segment_name()
            &&& exists|i: int| 0 <= i < names.len() && is_bad_name(#[trigger] names[i]@)
        },
{
    let mut ids: Vec<u32> = Vec::new();
    let mut n: usize = 0;
    while n < names.len()
        invariant
            n <= names.len(),
            strictly_ascending(ids@),
            forall|i: int| 0 <= i < n ==> !is_bad_name(#[trigger] names[i]@),
            forall|id: u32|
                ids@.contains(id) <==> exists|i: int|
                    0 <= i < n && segment_id_of(#[trigger] names[i]@) == Some(id),
        decreases names.len() - n,
    {
        let ghost before = ids@;
        match segment_id(names[n].as_str()) {
            Ok(Some(id)) => {
                insert_id(&mut ids, id);
            },
            Ok(None) => {},
            Err(e) => {
                return Err(e);
            },
        }
        proof {
            let found = segment_id_of(names[n as int]@);
            assert forall|id: u32|
                ids@.contains(id) <==> exists|i: int|
                    0 <= i < n + 1 && segment_id_of(#[trigger] names[i]@) == Some(id) by {
                if ids@.contains(id) {
                    if before.contains(id) {
                        let w = choose|i: int|
                            0 <= i < n && segment_id_of(#[trigger] names[i]@) == Some(id);
                        assert(0 <= w < n + 1 && segment_id_of(names[w]@) == Some(id));
                    } else {
                        assert(segment_id_of(names[n as int]@) == Some(id));
                    }
                }
                if exists|i: int|
                    0 <= i < n + 1 && segment_id_of(#[trigger] names[i]@) == Some(id) {
                    let w = choose|i: int|
                        0 <= i < n + 1 && segment_id_of(#[trigger] names[i]@) == Some(id);
                    if w < n {
                        assert(before.contains(id));
                    }
                }
            }
        }
        n += 1;
    }
    Ok(ids)
}

} // verus!
