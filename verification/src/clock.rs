//! Time stamps and new ids: what the library takes from the clock and from
//! the random number generator.
use vstd::prelude::*;
use crate::trusted::{
    parse_rfc3339, random_uuid_value, rfc3339_from_unix, rfc3339_in_utc, rfc3339_of_unix,
    unix_time, uuid_text, uuid_to_text,
};

verus! {

/// The time stamp of an instant given as seconds and nanoseconds since
/// the Unix epoch, where the instant can be written as one.
pub fn timestamp_from_unix(secs: i64, nanos: u32) -> (text: Option<String>)
    ensures
        match text {
            Some(t) => rfc3339_of_unix(secs, nanos) == Some(t@),
            None => rfc3339_of_unix(secs, nanos) is None,
        },
{
    rfc3339_from_unix(secs, nanos)
}

/// The time stamp that was read, or `fallback` where none was.
pub fn timestamp_or(read: Option<String>, fallback: &str) -> (text: String)
    ensures
        text@ == match read {
            Some(t) => t@,
            None => fallback@,
        },
{
    match read {
        Some(t) => t,
        None => fallback.to_owned(),
    }
}

/// The time stamp of a reading of the clock, given as seconds and
/// nanoseconds since the Unix epoch. A clock that could not be read as a
/// time after the epoch gives no reading, and the epoch stands in for it;
/// so it does for a reading that cannot be written as a time stamp.
pub open spec fn reading_text(reading: Option<(i64, u32)>) -> Seq<char> {
    let read = match reading {
        Some((secs, nanos)) => rfc3339_of_unix(secs, nanos),
        None => rfc3339_of_unix(0, 0),
    };
    match read {
        Some(t) => t,
        None => "1970-01-01T00:00:00+00:00"@,
    }
}

/// The time stamp of a reading of the clock.
pub fn timestamp_of_reading(reading: Option<(i64, u32)>) -> (text: String)
    ensures
        text@ == reading_text(reading),
{
    let read = match reading {
        Some((secs, nanos)) => rfc3339_from_unix(secs, nanos),
        None => rfc3339_from_unix(0, 0),
    };
    timestamp_or(read, "1970-01-01T00:00:00+00:00")
}

/// The time stamp of the present moment: the clock is read once, and the
/// result is the time stamp of that reading. Where the clock cannot be
/// read as a time after the Unix epoch, the epoch stands in for it.
pub fn current_timestamp() -> (text: String)
    ensures
        exists|reading: Option<(i64, u32)>| text@ == #[trigger] reading_text(reading),
{
    let reading = unix_time();
    let text = timestamp_of_reading(reading);
    assert(text@ == reading_text(reading));
    text
}

/// The time stamp of a file that was last changed at `modified`, in
/// seconds since the Unix epoch; `now` where that time is not known or
/// cannot be written.
pub fn timestamp_of_file(modified: Option<i64>, now: &str) -> (text: String)
    ensures
        text@ == match modified {
            Some(secs) => match rfc3339_of_unix(secs, 0) {
                Some(t) => t,
                None => now@,
            },
            None => now@,
        },
{
    match modified {
        Some(secs) => timestamp_or(rfc3339_from_unix(secs, 0), now),
        None => now.to_owned(),
    }
}

/// A time stamp as the index keeps it: brought to UTC where it can be
/// read, and `fallback` where it cannot.
pub fn normalized_timestamp(text: &str, fallback: &str) -> (out: String)
    ensures
        out@ == match rfc3339_in_utc(text@) {
            Some(t) => t,
            None => fallback@,
        },
{
    timestamp_or(parse_rfc3339(text), fallback)
}

/// The id that a 128-bit value stands for: the hyphenated text of the
/// UUID with that value.
pub fn note_id_of(value: u128) -> (id: String)
    ensures
        id@ == uuid_text(value),
{
    uuid_to_text(value)
}

/// A new random id: a 128-bit value is drawn, and the result is the id
/// that the value stands for.
pub fn new_note_id() -> (id: String)
    ensures
        exists|value: u128| id@ == #[trigger] uuid_text(value),
{
    let value = random_uuid_value();
    let id = note_id_of(value);
    assert(id@ == uuid_text(value));
    id
}

} // verus!
