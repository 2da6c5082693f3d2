//! The session log: the lines it records, the clock stamp each carries, and the ring buffer the
//! log window reads. Writing the file is left to the caller, which is handed the finished line.
use crate::calendar::{civil_from_days, days_from_civil, is_valid_date};
use crate::text::{padded, push_padded, push_signed_padded, push_str, signed_padded};
use std::collections::VecDeque;
use vstd::prelude::*;
use vstd::string::StringExecFns;

verus! {

/// How serious a recorded line is.
#[derive(Clone, Copy, Debug, PartialEq, Eq, Structural)]
pub enum Level {
    Info,
    Warning,
    Error,
}

/// The label a level is written under.
pub open spec fn level_label(level: Level) -> Seq<char> {
    match level {
        Level::Info => "INFO"@,
        Level::Warning => "WARN"@,
        Level::Error => "ERROR"@,
    }
}

impl Level {
    pub fn label(self) -> (label: &'static str)
        ensures
            label@ == level_label(self),
    {
        match self {
            Level::Info => "INFO",
            Level::Warning => "WARN",
            Level::Error => "ERROR",
        }
    }
}

/// One recorded line.
#[derive(Clone, Debug, PartialEq)]
pub struct Entry {
    pub timestamp: String,
    pub level: Level,
    pub message: String,
}

/// How many lines the buffer keeps.
pub const MAX_ENTRIES: usize = 1000;

/// The clock stamp `hh:mm:ss.mmm` of a moment `total_seconds` after the epoch.
pub open spec fn clock_stamp(total_seconds: nat, milliseconds: nat) -> Seq<char> {
    padded(total_seconds / 3600 % 24, 2) + seq![':'] + padded(total_seconds / 60 % 60, 2) + seq![
        ':',
    ] + padded(total_seconds % 60, 2) + seq!['.'] + padded(milliseconds, 3)
}

/// A stamp some moment of the clock can produce.
pub open spec fn is_clock_stamp(stamp: Seq<char>) -> bool {
    exists|seconds: nat, milliseconds: nat|
        milliseconds < 1000 && stamp == #[trigger] clock_stamp(seconds, milliseconds)
}

/// The full stamp of the session banner, `yyyy-mm-ddThh:mm:ssZ`.
pub open spec fn iso_stamp(
    year: int,
    month: nat,
    day: nat,
    hours: nat,
    minutes: nat,
    seconds: nat,
) -> Seq<char> {
    signed_padded(year, 4) + seq!['-'] + padded(month, 2) + seq!['-'] + padded(day, 2) + seq!['T']
        + padded(hours, 2) + seq![':'] + padded(minutes, 2) + seq![':'] + padded(seconds, 2)
        + seq!['Z']
}

/// `stamp` is the full stamp of the day `date_seconds` falls on, at the time of day of
/// `clock_seconds`.
pub open spec fn is_iso_stamp_of(stamp: Seq<char>, date_seconds: nat, clock_seconds: nat) -> bool {
    exists|year: int, month: nat, day: nat|
        {
            &&& is_valid_date(year, month as int, day as int)
            &&& days_from_civil(year, month as int, day as int) == date_seconds / 86400
            &&& stamp == #[trigger] iso_stamp(
                year,
                month,
                day,
                clock_seconds / 3600 % 24,
                clock_seconds / 60 % 60,
                clock_seconds % 60,
            )
        }
}

/// The banner that opens a session in the log file: `--- Session stamp ---`.
pub open spec fn banner_line(stamp: Seq<char>) -> Seq<char> {
    "--- Session "@ + stamp + " ---"@
}

/// The line the log file receives for an entry: `stamp [LABEL] message`.
pub open spec fn entry_line(timestamp: Seq<char>, level: Level, message: Seq<char>) -> Seq<char> {
    timestamp + seq![' ', '['] + level_label(level) + seq![']', ' '] + message
}

/// The moment the system clock reads, as whole seconds since the Unix epoch and the
/// milliseconds past that second.
///
/// Calls `std::time::SystemTime::now` and measures it from `UNIX_EPOCH`; a clock set before
/// the epoch reads as the epoch itself, as `unwrap_or_default` makes it. The contract states
/// only that the milliseconds are below a thousand, which `Duration::subsec_millis` documents:
/// what the clock reads is the machine's.
#[verifier::external_body]
fn system_time_since_epoch() -> (now: (u64, u32))
    ensures
        now.1 < 1000,
{
    let elapsed = std::time::SystemTime::now().duration_since(std::time::UNIX_EPOCH).unwrap_or_default();
    (elapsed.as_secs(), elapsed.subsec_millis())
}

/// A count of seconds since the epoch and the milliseconds past it, as hours, minutes and
/// seconds of the day and milliseconds.
pub open spec fn clock_split(total_seconds: u64, milliseconds: u32) -> (u64, u64, u64, u64) {
    (total_seconds / 3600 % 24, total_seconds / 60 % 60, total_seconds % 60, milliseconds as u64)
}

/// Seconds since the epoch, split into a wall clock time: hours, minutes, seconds, milliseconds.
pub fn clock_parts(total_seconds: u64, milliseconds: u32) -> (parts: (u64, u64, u64, u64))
    ensures
        parts == (total_seconds / 3600 % 24, total_seconds / 60 % 60, total_seconds % 60,
            milliseconds as u64),
{
    (total_seconds / 3600 % 24, total_seconds / 60 % 60, total_seconds % 60, milliseconds as u64)
}

/// The clock reading now, split as [`clock_parts`] splits it: the hours, minutes and seconds
/// of the day of some count of whole seconds since the epoch, and the milliseconds past it.
pub fn parts() -> (parts: (u64, u64, u64, u64))
    ensures
        exists|total_seconds: u64, milliseconds: u32|
            milliseconds < 1000 && parts == #[trigger] clock_split(total_seconds, milliseconds),
        parts.0 < 24 && parts.1 < 60 && parts.2 < 60 && parts.3 < 1000,
{
    let (total, milliseconds) = system_time_since_epoch();
    let split = clock_parts(total, milliseconds);
    assert(split == clock_split(total, milliseconds));
    split
}

/// The clock stamp for a moment, as hours, minutes, seconds and milliseconds.
pub fn clock_stamp_at(total_seconds: u64, milliseconds: u32) -> (stamp: String)
    requires
        milliseconds < 1000,
    ensures
        stamp@ == clock_stamp(total_seconds as nat, milliseconds as nat),
        stamp@.len() == 12,
        stamp@[2] == ':' && stamp@[5] == ':' && stamp@[8] == '.',
        forall|i: int| 0 <= i < 12 && i != 2 && i != 5 && i != 8 ==> '0' <= #[trigger] stamp@[i] <= '9',
{
    let (hours, minutes, seconds, millis) = clock_parts(total_seconds, milliseconds);
    let mut stamp = String::new();
    push_padded(&mut stamp, hours as u128, 2);
    stamp.push(':');
    push_padded(&mut stamp, minutes as u128, 2);
    stamp.push(':');
    push_padded(&mut stamp, seconds as u128, 2);
    stamp.push('.');
    push_padded(&mut stamp, millis as u128, 3);
    proof {
        lemma_clock_stamp_shape(total_seconds as nat, milliseconds as nat);
    }
    assert(stamp@ =~= clock_stamp(total_seconds as nat, milliseconds as nat));
    stamp
}

proof fn lemma_padded_small(n: nat, width: int)
    requires
        width == 2 && n < 100 || width == 3 && n < 1000,
    ensures
        padded(n, width).len() == width,
        forall|i: int| 0 <= i < width ==> '0' <= #[trigger] padded(n, width)[i] <= '9',
{
    crate::text::lemma_decimal_small(n);
    crate::text::lemma_decimal_digits(n);
    let d = crate::text::decimal(n);
    assert forall|i: int| 0 <= i < width implies '0' <= #[trigger] padded(n, width)[i] <= '9' by {
        let z = width - d.len();
        if i >= z {
            assert(padded(n, width)[i] == d[i - z]);
        }
    }
}

/// A clock stamp is twelve characters: digits, with `:` `:` `.` between the fields.
pub proof fn lemma_clock_stamp_shape(seconds: nat, milliseconds: nat)
    requires
        milliseconds < 1000,
    ensures
        clock_stamp(seconds, milliseconds).len() == 12,
        clock_stamp(seconds, milliseconds)[2] == ':',
        clock_stamp(seconds, milliseconds)[5] == ':',
        clock_stamp(seconds, milliseconds)[8] == '.',
        forall|i: int|
            0 <= i < 12 && i != 2 && i != 5 && i != 8 ==> '0' <= #[trigger] clock_stamp(
                seconds,
                milliseconds,
            )[i] <= '9',
{
    let h = padded(seconds / 3600 % 24, 2);
    let m = padded(seconds / 60 % 60, 2);
    let s = padded(seconds % 60, 2);
    let ms = padded(milliseconds, 3);
    lemma_padded_small(seconds / 3600 % 24, 2);
    lemma_padded_small(seconds / 60 % 60, 2);
    lemma_padded_small(seconds % 60, 2);
    lemma_padded_small(milliseconds, 3);
    let stamp = clock_stamp(seconds, milliseconds);
    assert(stamp =~= h + seq![':'] + m + seq![':'] + s + seq!['.'] + ms);
    assert forall|i: int|
        0 <= i < 12 && i != 2 && i != 5 && i != 8 implies '0' <= #[trigger] stamp[i] <= '9' by {
        if i < 2 {
            assert(stamp[i] == h[i]);
        } else if i < 5 {
            assert(stamp[i] == m[i - 3]);
        } else if i < 8 {
            assert(stamp[i] == s[i - 6]);
        } else {
            assert(stamp[i] == ms[i - 9]);
        }
    }
}

/// The clock stamp each line carries, read from the clock now.
pub fn timestamp_clock() -> (stamp: String)
    ensures
        is_clock_stamp(stamp@),
        stamp@.len() == 12,
{
    let (total, milliseconds) = system_time_since_epoch();
    let stamp = clock_stamp_at(total, milliseconds);
    assert(stamp@ == clock_stamp(total as nat, milliseconds as nat));
    stamp
}

/// The full stamp for a moment: the date `date_seconds` falls on and the time of day of
/// `clock_seconds`.
pub fn iso_stamp_at(date_seconds: u64, clock_seconds: u64) -> (stamp: String)
    ensures
        is_iso_stamp_of(stamp@, date_seconds as nat, clock_seconds as nat),
{
    let days: i64 = (date_seconds / 86_400) as i64;
    let (year, month, day) = civil_from_days(days);
    let (hours, minutes, seconds, _) = clock_parts(clock_seconds, 0);
    let mut stamp = String::new();
    push_signed_padded(&mut stamp, year, 4);
    stamp.push('-');
    push_padded(&mut stamp, month as u128, 2);
    stamp.push('-');
    push_padded(&mut stamp, day as u128, 2);
    stamp.push('T');
    push_padded(&mut stamp, hours as u128, 2);
    stamp.push(':');
    push_padded(&mut stamp, minutes as u128, 2);
    stamp.push(':');
    push_padded(&mut stamp, seconds as u128, 2);
    stamp.push('Z');
    assert(stamp@ =~= iso_stamp(
        year as int,
        month as nat,
        day as nat,
        clock_seconds as nat / 3600 % 24,
        clock_seconds as nat / 60 % 60,
        clock_seconds as nat % 60,
    ));
    stamp
}

/// A full stamp for the session banner, read from the clock now.
///
/// The date and the time of day are read from the clock one after the other.
pub fn timestamp_iso() -> (stamp: String)
    ensures
        exists|date_seconds: nat, clock_seconds: nat|
            #[trigger] is_iso_stamp_of(stamp@, date_seconds, clock_seconds),
{
    let (date_seconds, _) = system_time_since_epoch();
    let (clock_seconds, _) = system_time_since_epoch();
    let stamp = iso_stamp_at(date_seconds, clock_seconds);
    assert(is_iso_stamp_of(stamp@, date_seconds as nat, clock_seconds as nat));
    stamp
}

/// The banner that opens a session in the log file, stamped with the clock now.
pub fn session_banner() -> (banner: String)
    ensures
        exists|stamp: Seq<char>, date_seconds: nat, clock_seconds: nat|
            #[trigger] is_iso_stamp_of(stamp, date_seconds, clock_seconds) && banner@ == banner_line(
                stamp,
            ),
{
    let stamp = timestamp_iso();
    let mut banner = String::new();
    push_str(&mut banner, "--- Session ");
    push_str(&mut banner, stamp.as_str());
    push_str(&mut banner, " ---");
    assert(banner@ =~= banner_line(stamp@));
    banner
}

/// The line the log file receives for an entry.
pub fn entry_line_of(entry: &Entry) -> (line: String)
    ensures
        line@ == entry_line(entry.timestamp@, entry.level, entry.message@),
{
    let mut line = String::new();
    push_str(&mut line, entry.timestamp.as_str());
    line.push(' ');
    line.push('[');
    push_str(&mut line, entry.level.label());
    line.push(']');
    line.push(' ');
    push_str(&mut line, entry.message.as_str());
    assert(line@ =~= entry_line(entry.timestamp@, entry.level, entry.message@));
    line
}

/// The recorded lines, oldest first, capped at [`MAX_ENTRIES`].
pub struct LogBuffer {
    entries: VecDeque<Entry>,
}

/// What the buffer holds after recording `entry`: the oldest lines give way so that no more
/// than [`MAX_ENTRIES`] remain, and the new one is last.
pub open spec fn recorded(entries: Seq<Entry>, entry: Entry) -> Seq<Entry> {
    if entries.len() >= MAX_ENTRIES {
        entries.skip(entries.len() - (MAX_ENTRIES - 1)).push(entry)
    } else {
        entries.push(entry)
    }
}

impl View for LogBuffer {
    type V = Seq<Entry>;

    closed spec fn view(&self) -> Seq<Entry> {
        self.entries@
    }
}

impl LogBuffer {
    #[verifier::type_invariant]
    closed spec fn capped(self) -> bool {
        self.entries@.len() <= MAX_ENTRIES
    }

    pub fn new() -> (buffer: Self)
        ensures
            buffer@ == Seq::<Entry>::empty(),
    {
        LogBuffer { entries: VecDeque::new() }
    }

    /// How many lines are held, which is never more than [`MAX_ENTRIES`].
    pub fn len(&self) -> (count: usize)
        ensures
            count == self@.len(),
            count <= MAX_ENTRIES,
    {
        proof {
            use_type_invariant(self);
        }
        self.entries.len()
    }

    /// Records an entry, dropping the oldest ones first when the buffer is full.
    pub fn record(&mut self, entry: Entry)
        ensures
            final(self)@ == recorded(old(self)@, entry),
    {
        proof {
            use_type_invariant(&*self);
        }
        let ghost before = self.entries@;
        let mut entries = VecDeque::new();
        std::mem::swap(&mut entries, &mut self.entries);
        while entries.len() >= MAX_ENTRIES
            invariant
                entries@.len() <= MAX_ENTRIES,
                before.len() <= MAX_ENTRIES,
                before.len() >= MAX_ENTRIES ==> entries@.len() >= MAX_ENTRIES - 1,
                before.len() >= MAX_ENTRIES ==> entries@ == before.skip(before.len() - entries@.len()),
                before.len() < MAX_ENTRIES ==> entries@ == before,
            decreases entries@.len(),
        {
            let _ = entries.pop_front();
            assert(entries@ =~= before.skip(before.len() - entries@.len()));
        }
        entries.push_back(entry);
        assert(entries@ =~= recorded(before, entry));
        self.entries = entries;
    }

    pub fn entries(&self) -> (entries: Vec<Entry>)
        ensures
            entries@ == self@,
    {
        let mut result: Vec<Entry> = Vec::new();
        let mut index: usize = 0;
        while index < self.entries.len()
            invariant
                index <= self.entries@.len(),
                result@ == self.entries@.take(index as int),
            decreases self.entries@.len() - index,
        {
            let entry = &self.entries[index];
            result.push(copy_entry(entry));
            index = index + 1;
            assert(result@ =~= self.entries@.take(index as int));
        }
        assert(result@ =~= self.entries@);
        result
    }

    pub fn clear(&mut self)
        ensures
            final(self)@ == Seq::<Entry>::empty(),
    {
        self.entries = VecDeque::new();
    }
}

fn copy_entry(entry: &Entry) -> (copy: Entry)
    ensures
        copy == *entry,
{
    Entry { timestamp: entry.timestamp.clone(), level: entry.level, message: entry.message.clone() }
}

/// Records a line in the buffer, stamped with the clock now, and returns the line for the log
/// file.
pub fn log(buffer: &mut LogBuffer, level: Level, message: String) -> (line: String)
    ensures
        exists|entry: Entry|
            {
                &&& is_clock_stamp(entry.timestamp@)
                &&& entry.level == level
                &&& entry.message == message
                &&& final(buffer)@ == recorded(old(buffer)@, entry)
                &&& line@ == #[trigger] entry_line(entry.timestamp@, level, message@)
            },
{
    let entry = Entry { timestamp: timestamp_clock(), level, message };
    let line = entry_line_of(&entry);
    buffer.record(entry);
    line
}

pub fn info(buffer: &mut LogBuffer, message: String) -> (line: String)
    ensures
        exists|entry: Entry|
            {
                &&& is_clock_stamp(entry.timestamp@)
                &&& entry.level == Level::Info
                &&& entry.message == message
                &&& final(buffer)@ == recorded(old(buffer)@, entry)
                &&& line@ == #[trigger] entry_line(entry.timestamp@, Level::Info, message@)
            },
{
    log(buffer, Level::Info, message)
}

pub fn warn(buffer: &mut LogBuffer, message: String) -> (line: String)
    ensures
        exists|entry: Entry|
            {
                &&& is_clock_stamp(entry.timestamp@)
                &&& entry.level == Level::Warning
                &&& entry.message == message
                &&& final(buffer)@ == recorded(old(buffer)@, entry)
                &&& line@ == #[trigger] entry_line(entry.timestamp@, Level::Warning, message@)
            },
{
    log(buffer, Level::Warning, message)
}

pub fn error(buffer: &mut LogBuffer, message: String) -> (line: String)
    ensures
        exists|entry: Entry|
            {
                &&& is_clock_stamp(entry.timestamp@)
                &&& entry.level == Level::Error
                &&& entry.message == message
                &&& final(buffer)@ == recorded(old(buffer)@, entry)
                &&& line@ == #[trigger] entry_line(entry.timestamp@, Level::Error, message@)
            },
{
    log(buffer, Level::Error, message)
}

/// Every recorded line, newest last.
pub fn entries(buffer: &LogBuffer) -> (entries: Vec<Entry>)
    ensures
        entries@ == buffer@,
{
    buffer.entries()
}

pub fn clear(buffer: &mut LogBuffer)
    ensures
        final(buffer)@ == Seq::<Entry>::empty(),
{
    buffer.clear()
}

/// Recording keeps the lines in the order they came and never more than the cap: the newest is
/// last, and every earlier line still held is one that was recorded before it, in order.
pub proof fn lemma_recording_keeps_order(entries: Seq<Entry>, entry: Entry)
    requires
        entries.len() <= MAX_ENTRIES,
    ensures
        recorded(entries, entry).len() <= MAX_ENTRIES,
        recorded(entries, entry).last() == entry,
        recorded(entries, entry).drop_last() =~= entries.skip(
            entries.len() - (recorded(entries, entry).len() - 1),
        ),
        entries.len() < MAX_ENTRIES ==> recorded(entries, entry).len() == entries.len() + 1,
{
}

} // verus!
