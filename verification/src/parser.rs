//! The naming convention of backup archives, and the parser that reads it.
//!
//! An archive is named `<target>-<YYYY><MM><DD>-<hh><mm><ss>.<extension>`:
//!
//! * the name holds a `.`, and the first one ends the timestamp;
//! * the sixteen characters before that `.` are a `-`, eight decimal digits
//!   for year, month and day, a `-`, and six decimal digits for hour, minute
//!   and second;
//! * month, day, hour, minute and second lie in `01..=12`, `01..=31`,
//!   `00..=23`, `00..=59` and `00..=59`; days are not checked against the
//!   length of the month;
//! * the target is what stands before the timestamp, and is not empty; it
//!   may hold `-` but, standing before the first `.`, no `.`;
//! * the extension is what follows the `.`, and is not empty.
//!
//! `db-20240131-235959.tar.gz` is the archive of target `db` taken in the
//! last second of January 2024. Any other name is not an archive's.

use crate::record::{views, BackupRecord, RecordView, Timestamp};
use vstd::prelude::*;
use vstd::string::StrSliceExecFns;

verus! {

/// The width of `-YYYYMMDD-hhmmss`.
pub const STAMP_WIDTH: usize = 16;

/// `c` is one of the decimal digits `0` to `9`.
pub open spec fn is_digit(c: char) -> bool {
    48 <= c as u32 <= 57
}

/// The value of the decimal digit `c`.
pub open spec fn digit_value(c: char) -> int {
    c as u32 - 48
}

/// Every character of `s` is a decimal digit.
pub open spec fn all_digits(s: Seq<char>) -> bool {
    forall|i: int| 0 <= i < s.len() ==> is_digit(#[trigger] s[i])
}

/// The number that the decimal digits `s` denote.
pub open spec fn number(s: Seq<char>) -> int
    decreases s.len(),
{
    if s.len() == 0 {
        0
    } else {
        number(s.drop_last()) * 10 + digit_value(s.last())
    }
}

/// `s` has the shape `-YYYYMMDD-hhmmss` with calendar fields in range.
pub open spec fn well_formed_stamp(s: Seq<char>) -> bool {
    &&& s.len() == STAMP_WIDTH
    &&& s[0] == '-'
    &&& all_digits(s.subrange(1, 9))
    &&& s[9] == '-'
    &&& all_digits(s.subrange(10, 16))
    &&& 1 <= number(s.subrange(5, 7)) <= 12
    &&& 1 <= number(s.subrange(7, 9)) <= 31
    &&& number(s.subrange(10, 12)) <= 23
    &&& number(s.subrange(12, 14)) <= 59
    &&& number(s.subrange(14, 16)) <= 59
}

/// The timestamp that a well-formed stamp denotes.
pub open spec fn stamp_value(s: Seq<char>) -> Timestamp {
    Timestamp {
        year: number(s.subrange(1, 5)) as u32,
        month: number(s.subrange(5, 7)) as u8,
        day: number(s.subrange(7, 9)) as u8,
        hour: number(s.subrange(10, 12)) as u8,
        minute: number(s.subrange(12, 14)) as u8,
        second: number(s.subrange(14, 16)) as u8,
    }
}

/// `dot` is the position of the first `.` in `name`.
pub open spec fn first_dot(name: Seq<char>, dot: int) -> bool {
    &&& 0 <= dot < name.len()
    &&& name[dot] == '.'
    &&& forall|i: int| 0 <= i < dot ==> #[trigger] name[i] != '.'
}

/// `name`, whose first `.` stands at `dot`, is an archive's name.
pub open spec fn is_archive_name(name: Seq<char>, dot: int) -> bool {
    &&& first_dot(name, dot)
    &&& STAMP_WIDTH < dot
    &&& dot + 1 < name.len()
    &&& well_formed_stamp(name.subrange(dot - STAMP_WIDTH, dot))
}

/// The record that the entry name `name` denotes, if it is an archive's.
pub open spec fn parsed(name: Seq<char>) -> Option<RecordView> {
    if exists|dot: int| is_archive_name(name, dot) {
        let dot = choose|dot: int| is_archive_name(name, dot);
        Some(
            RecordView {
                location: name,
                target: name.take(dot - STAMP_WIDTH),
                timestamp: stamp_value(name.subrange(dot - STAMP_WIDTH, dot)),
            },
        )
    } else {
        None
    }
}

/// A name has at most one first `.`.
pub proof fn lemma_first_dot_unique(name: Seq<char>, a: int, b: int)
    requires
        first_dot(name, a),
        first_dot(name, b),
    ensures
        a == b,
{
}

/// Digits denote a number below the power of ten of their count.
proof fn lemma_number_bounds(s: Seq<char>)
    requires
        all_digits(s),
        s.len() <= 4,
    ensures
        0 <= number(s),
        s.len() == 0 ==> number(s) == 0,
        s.len() == 1 ==> number(s) <= 9,
        s.len() == 2 ==> number(s) <= 99,
        s.len() == 3 ==> number(s) <= 999,
        s.len() == 4 ==> number(s) <= 9999,
    decreases s.len(),
{
    if s.len() > 0 {
        let front = s.drop_last();
        assert(is_digit(s[s.len() - 1]));
        assert forall|i: int| 0 <= i < front.len() implies is_digit(#[trigger] front[i]) by {
            assert(front[i] == s[i]);
        }
        lemma_number_bounds(front);
    }
}

/// What an archive's name says of its record: the location is the name; the
/// target is a nonempty beginning of the name and holds no `.`; the year has
/// four digits, and the other calendar fields lie in their ranges.
pub proof fn lemma_parsed_shape(name: Seq<char>)
    requires
        parsed(name) is Some,
    ensures
        ({
            let r = parsed(name)->0;
            &&& r.location == name
            &&& 0 < r.target.len() < name.len()
            &&& r.target == name.take(r.target.len() as int)
            &&& !r.target.contains('.')
            &&& name[r.target.len() + STAMP_WIDTH] == '.'
            &&& r.timestamp.year <= 9999
            &&& 1 <= r.timestamp.month <= 12
            &&& 1 <= r.timestamp.day <= 31
            &&& r.timestamp.hour <= 23
            &&& r.timestamp.minute <= 59
            &&& r.timestamp.second <= 59
        }),
{
    let dot = choose|dot: int| is_archive_name(name, dot);
    let r = parsed(name)->0;
    let stamp = name.subrange(dot - STAMP_WIDTH, dot);
    lemma_digits_of_parts(stamp);
    lemma_number_bounds(stamp.subrange(1, 5));
    lemma_number_bounds(stamp.subrange(10, 12));
    lemma_number_bounds(stamp.subrange(12, 14));
    lemma_number_bounds(stamp.subrange(14, 16));
    if r.target.contains('.') {
        let i = choose|i: int| 0 <= i < r.target.len() && r.target[i] == '.';
        assert(name[i] == '.');
    }
}

/// Reads the decimal number that stands in `chars` from `from` up to `to`.
///
/// Returns `None` if a character there is no digit.
fn read_number(chars: &Vec<char>, from: usize, to: usize) -> (value: Option<u32>)
    requires
        from <= to <= chars.len(),
        to - from <= 4,
    ensures
        value is Some <==> all_digits(chars@.subrange(from as int, to as int)),
        value matches Some(v) ==> v == number(chars@.subrange(from as int, to as int)),
{
    let mut value: u32 = 0;
    let mut at: usize = from;
    proof {
        assert(chars@.subrange(from as int, from as int) =~= Seq::<char>::empty());
    }
    while at < to
        invariant
            from <= at <= to <= chars.len(),
            to - from <= 4,
            all_digits(chars@.subrange(from as int, at as int)),
            value == number(chars@.subrange(from as int, at as int)),
            at - from == 0 ==> value == 0,
            at - from == 1 ==> value <= 9,
            at - from == 2 ==> value <= 99,
            at - from == 3 ==> value <= 999,
        decreases to - at,
    {
        let c: char = chars[at];
        let code: u32 = c as u32;
        let ghost read = chars@.subrange(from as int, at as int);
        let ghost more = chars@.subrange(from as int, at + 1);
        proof {
            assert(more.drop_last() =~= read);
            assert(more.last() == c);
        }
        if code < 48 || code > 57 {
            proof {
                let whole = chars@.subrange(from as int, to as int);
                assert(whole[at - from] == c);
            }
            return None;
        }
        value = value * 10 + (code - 48);
        at += 1;
        proof {
            assert forall|i: int| 0 <= i < more.len() implies is_digit(#[trigger] more[i]) by {
                if i < read.len() {
                    assert(read[i] == more[i]);
                }
            }
        }
    }
    Some(value)
}

/// Reads an entry name.
///
/// Returns the record of the archive that the name denotes, or `None` where
/// the name is not an archive's; such an entry is no error, the directory
/// may hold other files.
pub fn parse(name: &str) -> (record: Option<BackupRecord>)
    ensures
        record is Some <==> parsed(name@) is Some,
        record matches Some(r) ==> Some(r@) == parsed(name@),
{
    let mut chars: Vec<char> = Vec::new();
    for c in rest: name.chars()
        invariant
            rest.seq() == name@,
            chars@ == name@.take(rest.index()),
    {
        chars.push(c);
        proof {
            assert(name@.take(rest.index() + 1) =~= name@.take(rest.index()).push(c));
        }
    }
    proof {
        assert(name@.take(name@.len() as int) =~= name@);
    }
    let length: usize = chars.len();
    let mut dot: usize = 0;
    while dot < length && chars[dot] != '.'
        invariant
            dot <= length == chars.len(),
            forall|i: int| 0 <= i < dot ==> #[trigger] chars@[i] != '.',
        decreases length - dot,
    {
        dot += 1;
    }
    if dot >= length {
        proof {
            assert forall|d: int| !is_archive_name(name@, d) by {}
        }
        return None;
    }
    proof {
        assert(first_dot(name@, dot as int));
        assert forall|d: int| is_archive_name(name@, d) implies d == dot by {
            lemma_first_dot_unique(name@, d, dot as int);
        }
    }
    if dot <= STAMP_WIDTH || length - dot < 2 {
        return None;
    }
    let start: usize = dot - STAMP_WIDTH;
    let ghost stamp = name@.subrange(start as int, dot as int);
    proof {
        assert(stamp.subrange(1, 5) =~= name@.subrange(start + 1, start + 5));
        assert(stamp.subrange(5, 7) =~= name@.subrange(start + 5, start + 7));
        assert(stamp.subrange(7, 9) =~= name@.subrange(start + 7, start + 9));
        assert(stamp.subrange(10, 12) =~= name@.subrange(start + 10, start + 12));
        assert(stamp.subrange(12, 14) =~= name@.subrange(start + 12, start + 14));
        assert(stamp.subrange(14, 16) =~= name@.subrange(start + 14, start + 16));
        lemma_digits_of_parts(stamp);
    }
    if chars[start] != '-' || chars[start + 9] != '-' {
        return None;
    }
    let year = read_number(&chars, start + 1, start + 5);
    let month = read_number(&chars, start + 5, start + 7);
    let day = read_number(&chars, start + 7, start + 9);
    let hour = read_number(&chars, start + 10, start + 12);
    let minute = read_number(&chars, start + 12, start + 14);
    let second = read_number(&chars, start + 14, start + 16);
    match (year, month, day, hour, minute, second) {
        (Some(year), Some(month), Some(day), Some(hour), Some(minute), Some(second)) => {
            if month < 1 || month > 12 || day < 1 || day > 31 || hour > 23 || minute > 59
                || second > 59 {
                return None;
            }
            let timestamp = Timestamp {
                year,
                month: month as u8,
                day: day as u8,
                hour: hour as u8,
                minute: minute as u8,
                second: second as u8,
            };
            let target = name.substring_char(0, start).to_owned();
            let location = name.to_owned();
            proof {
                assert(is_archive_name(name@, dot as int));
                assert(name@.subrange(0, start as int) =~= name@.take(start as int));
            }
            Some(BackupRecord { location, target, timestamp })
        },
        _ => None,
    }
}

/// The entry names that `names` hold, in the same order.
pub open spec fn name_views(names: Seq<String>) -> Seq<Seq<char>> {
    names.map_values(|name: String| name@)
}

/// The records that the entry names `names` denote, in the order of the
/// names; a name that is not an archive's contributes nothing.
pub open spec fn parsed_entries(names: Seq<Seq<char>>) -> Seq<RecordView>
    decreases names.len(),
{
    if names.len() == 0 {
        Seq::empty()
    } else {
        match parsed(names.last()) {
            Some(r) => parsed_entries(names.drop_last()).push(r),
            None => parsed_entries(names.drop_last()),
        }
    }
}

/// Reads the entry names of a directory and returns the records of the
/// archives among them. Other entries are passed over in silence.
pub fn parse_entries(names: &Vec<String>) -> (records: Vec<BackupRecord>)
    ensures
        views(records@) == parsed_entries(name_views(names@)),
{
    let ghost all = name_views(names@);
    let mut records: Vec<BackupRecord> = Vec::new();
    let mut at: usize = 0;
    proof {
        assert(all.take(0) =~= Seq::<Seq<char>>::empty());
        assert(views(records@) =~= parsed_entries(all.take(0)));
    }
    while at < names.len()
        invariant
            at <= names.len(),
            all == name_views(names@),
            views(records@) == parsed_entries(all.take(at as int)),
        decreases names.len() - at,
    {
        let ghost before = views(records@);
        proof {
            assert(all.take(at + 1).drop_last() =~= all.take(at as int));
            assert(all.take(at + 1).last() == names@[at as int]@);
        }
        match parse(names[at].as_str()) {
            Some(record) => {
                records.push(record);
                proof {
                    assert(views(records@) =~= before.push(record@));
                }
            },
            None => {},
        }
        at += 1;
    }
    proof {
        assert(all.take(names.len() as int) =~= all);
    }
    records
}

/// The digits of a stamp are digits exactly if those of its six fields are.
pub proof fn lemma_digits_of_parts(stamp: Seq<char>)
    requires
        stamp.len() == STAMP_WIDTH,
    ensures
        (all_digits(stamp.subrange(1, 9)) && all_digits(stamp.subrange(10, 16))) <==> (
        all_digits(stamp.subrange(1, 5)) && all_digits(stamp.subrange(5, 7)) && all_digits(
            stamp.subrange(7, 9),
        ) && all_digits(stamp.subrange(10, 12)) && all_digits(stamp.subrange(12, 14))
            && all_digits(stamp.subrange(14, 16))),
{
    let date = stamp.subrange(1, 9);
    let time = stamp.subrange(10, 16);
    if all_digits(date) && all_digits(time) {
        assert forall|i: int| 0 <= i < 4 implies is_digit(#[trigger] stamp.subrange(1, 5)[i]) by {
            assert(date[i] == stamp[i + 1]);
        }
        assert forall|i: int| 0 <= i < 2 implies is_digit(#[trigger] stamp.subrange(5, 7)[i]) by {
            assert(date[i + 4] == stamp[i + 5]);
        }
        assert forall|i: int| 0 <= i < 2 implies is_digit(#[trigger] stamp.subrange(7, 9)[i]) by {
            assert(date[i + 6] == stamp[i + 7]);
        }
        assert forall|i: int| 0 <= i < 2 implies is_digit(#[trigger] stamp.subrange(10, 12)[i]) by {
            assert(time[i] == stamp[i + 10]);
        }
        assert forall|i: int| 0 <= i < 2 implies is_digit(#[trigger] stamp.subrange(12, 14)[i]) by {
            assert(time[i + 2] == stamp[i + 12]);
        }
        assert forall|i: int| 0 <= i < 2 implies is_digit(#[trigger] stamp.subrange(14, 16)[i]) by {
            assert(time[i + 4] == stamp[i + 14]);
        }
    }
    if all_digits(stamp.subrange(1, 5)) && all_digits(stamp.subrange(5, 7)) && all_digits(
        stamp.subrange(7, 9),
    ) && all_digits(stamp.subrange(10, 12)) && all_digits(stamp.subrange(12, 14)) && all_digits(
        stamp.subrange(14, 16),
    ) {
        assert forall|i: int| 0 <= i < date.len() implies is_digit(#[trigger] date[i]) by {
            if i < 4 {
                assert(stamp.subrange(1, 5)[i] == date[i]);
            } else if i < 6 {
                assert(stamp.subrange(5, 7)[i - 4] == date[i]);
            } else {
                assert(stamp.subrange(7, 9)[i - 6] == date[i]);
            }
        }
        assert forall|i: int| 0 <= i < time.len() implies is_digit(#[trigger] time[i]) by {
            if i < 2 {
                assert(stamp.subrange(10, 12)[i] == time[i]);
            } else if i < 4 {
                assert(stamp.subrange(12, 14)[i - 2] == time[i]);
            } else {
                assert(stamp.subrange(14, 16)[i - 4] == time[i]);
            }
        }
    }
}

} // verus!
