//! What Debug > Performance Timers reports: the lines an import, a preview and a batch run
//! write to the session log. Whether the timers are on is the caller's to remember.
use crate::logging::{entry_line, info, is_clock_stamp, recorded, Entry, Level, LogBuffer};
use crate::text::{decimal, push_decimal, push_str};
use vstd::string::StringExecFns;
use vstd::prelude::*;

verus! {

/// How an import went, in the terms the thumbnail cache counts it.
#[derive(Clone, Copy, Debug, Default)]
pub struct Import {
    pub images: usize,
    /// Thumbnails that were already on disk and still current.
    pub cached: usize,
    /// Thumbnails that had to be made, or remade because the file had changed.
    pub generated: usize,
    pub processes: usize,
    pub milliseconds: u128,
}

/// How one preview render went.
#[derive(Clone, Copy, Debug, Default)]
pub struct Preview {
    pub nodes: usize,
    /// Whether the worker had this exact result already.
    pub reused: bool,
    pub processes: usize,
    pub milliseconds: u128,
}

/// How a batch run went.
#[derive(Clone, Copy, Debug, Default)]
pub struct Run {
    pub processed: usize,
    pub skipped: usize,
    pub failed: usize,
    pub processes: usize,
    pub milliseconds: u128,
}

/// The average of `total` over `count`, or a dash when there was nothing to average.
pub open spec fn average_text(total: nat, count: nat) -> Seq<char> {
    if count == 0 {
        "-"@
    } else {
        decimal(total / count) + "ms"@
    }
}

pub open spec fn import_text(import: Import) -> (Seq<char>, Seq<char>) {
    (
        "[timings] Import - "@ + decimal(import.images as nat) + " image(s) in "@ + decimal(
            import.milliseconds as nat,
        ) + "ms, "@ + average_text(import.milliseconds as nat, import.images as nat) + " each"@,
        "[timings]   cached: "@ + decimal(import.cached as nat) + "  generated: "@ + decimal(
            import.generated as nat,
        ) + "  magick processes: "@ + decimal(import.processes as nat),
    )
}

pub open spec fn preview_text(preview: Preview) -> Seq<char> {
    "[timings] Preview - "@ + decimal(preview.nodes as nat) + " node(s) in "@ + decimal(
        preview.milliseconds as nat,
    ) + "ms, "@ + decimal(preview.processes as nat) + " magick process(es)"@ + if preview.reused {
        ", reused"@
    } else {
        Seq::empty()
    }
}

pub open spec fn run_text(run: Run) -> (Seq<char>, Seq<char>) {
    (
        "[timings] Run - "@ + decimal(run.processed as nat) + " processed, "@ + decimal(
            run.skipped as nat,
        ) + " skipped, "@ + decimal(run.failed as nat) + " failed in "@ + decimal(
            run.milliseconds as nat,
        ) + "ms, "@ + average_text(run.milliseconds as nat, run.processed as nat) + " each"@,
        "[timings]   magick processes: "@ + decimal(run.processes as nat),
    )
}

/// The average of `total` over `count`, or nothing when there was nothing to average.
pub fn per(total: u128, count: usize) -> (text: String)
    ensures
        text@ == average_text(total as nat, count as nat),
{
    let mut text = String::new();
    if count == 0 {
        push_str(&mut text, "-");
        return text;
    }
    push_decimal(&mut text, total / count as u128);
    push_str(&mut text, "ms");
    text
}

/// The two lines an import reports.
pub fn import_lines(import: Import) -> (lines: [String; 2])
    ensures
        (lines[0]@, lines[1]@) == import_text(import),
{
    let mut first = String::new();
    push_str(&mut first, "[timings] Import - ");
    push_decimal(&mut first, import.images as u128);
    push_str(&mut first, " image(s) in ");
    push_decimal(&mut first, import.milliseconds);
    push_str(&mut first, "ms, ");
    let average = per(import.milliseconds, import.images);
    push_str(&mut first, average.as_str());
    push_str(&mut first, " each");
    let mut second = String::new();
    push_str(&mut second, "[timings]   cached: ");
    push_decimal(&mut second, import.cached as u128);
    push_str(&mut second, "  generated: ");
    push_decimal(&mut second, import.generated as u128);
    push_str(&mut second, "  magick processes: ");
    push_decimal(&mut second, import.processes as u128);
    [first, second]
}

/// The line a preview reports.
pub fn preview_line(preview: Preview) -> (line: String)
    ensures
        line@ == preview_text(preview),
{
    let mut line = String::new();
    push_str(&mut line, "[timings] Preview - ");
    push_decimal(&mut line, preview.nodes as u128);
    push_str(&mut line, " node(s) in ");
    push_decimal(&mut line, preview.milliseconds);
    push_str(&mut line, "ms, ");
    push_decimal(&mut line, preview.processes as u128);
    push_str(&mut line, " magick process(es)");
    let ghost before = line@;
    if preview.reused {
        push_str(&mut line, ", reused");
    } else {
        assert(line@ =~= before + Seq::<char>::empty());
    }
    line
}

/// The two lines a run reports.
pub fn run_lines(run: Run) -> (lines: [String; 2])
    ensures
        (lines[0]@, lines[1]@) == run_text(run),
{
    let mut first = String::new();
    push_str(&mut first, "[timings] Run - ");
    push_decimal(&mut first, run.processed as u128);
    push_str(&mut first, " processed, ");
    push_decimal(&mut first, run.skipped as u128);
    push_str(&mut first, " skipped, ");
    push_decimal(&mut first, run.failed as u128);
    push_str(&mut first, " failed in ");
    push_decimal(&mut first, run.milliseconds);
    push_str(&mut first, "ms, ");
    let average = per(run.milliseconds, run.processed);
    push_str(&mut first, average.as_str());
    push_str(&mut first, " each");
    let mut second = String::new();
    push_str(&mut second, "[timings]   magick processes: ");
    push_decimal(&mut second, run.processes as u128);
    [first, second]
}

/// The line that says the timers were switched on or off.
pub open spec fn switch_text(enabled: bool) -> Seq<char> {
    if enabled {
        "[timings] enabled"@
    } else {
        "[timings] disabled"@
    }
}

/// Whether `after` is `before` with one information line of `message` recorded, which the log
/// file gets as `line`.
pub open spec fn logged(before: Seq<Entry>, after: Seq<Entry>, message: Seq<char>, line: Seq<char>) -> bool {
    exists|entry: Entry|
        {
            &&& is_clock_stamp(entry.timestamp@)
            &&& entry.level == Level::Info
            &&& entry.message@ == message
            &&& after == recorded(before, entry)
            &&& line == #[trigger] entry_line(entry.timestamp@, Level::Info, message)
        }
}

/// Whether the log went from `before` to `after` by recording each of `messages` in turn, as
/// information lines, giving the log file `lines`.
pub open spec fn logged_all(
    before: Seq<Entry>,
    after: Seq<Entry>,
    messages: Seq<Seq<char>>,
    lines: Seq<Seq<char>>,
) -> bool
    decreases messages.len(),
{
    if messages.len() == 0 {
        after == before && lines.len() == 0
    } else {
        lines.len() == messages.len() && exists|middle: Seq<Entry>|
            logged_all(before, middle, messages.drop_last(), lines.drop_last()) && #[trigger] logged(
                middle,
                after,
                messages.last(),
                lines.last(),
            )
    }
}

/// Records in the log that the timers were switched on or off, and gives the line for the log
/// file. Where the switch is kept is the caller's.
pub fn set_enabled(enabled: bool, buffer: &mut LogBuffer) -> (line: String)
    ensures
        logged(old(buffer)@, final(buffer)@, switch_text(enabled), line@),
{
    let message = if enabled {
        String::from_str("[timings] enabled")
    } else {
        String::from_str("[timings] disabled")
    };
    info(buffer, message)
}

/// The performance timer switch: off until the menu turns it on.
pub struct Timers {
    pub on: bool,
}

impl Timers {
    /// The switch as a session starts: off.
    pub fn new() -> (timers: Self)
        ensures
            !timers.on,
    {
        Timers { on: false }
    }

    /// Turns the timers on or off, records that in the log, and gives the line for the log
    /// file.
    pub fn set_enabled(&mut self, enabled: bool, buffer: &mut LogBuffer) -> (line: String)
        ensures
            final(self).on == enabled,
            logged(old(buffer)@, final(buffer)@, switch_text(enabled), line@),
    {
        self.on = enabled;
        set_enabled(enabled, buffer)
    }

    /// Whether the timers are on.
    pub fn enabled(&self) -> (on: bool)
        ensures
            on == self.on,
    {
        self.on
    }
}

fn log_lines(buffer: &mut LogBuffer, first: String, second: String) -> (lines: Vec<String>)
    ensures
        logged_all(
            old(buffer)@,
            final(buffer)@,
            seq![first@, second@],
            lines@.map_values(|line: String| line@),
        ),
{
    let ghost start = buffer@;
    let ghost messages = seq![first@, second@];
    let one = info(buffer, first);
    let ghost middle = buffer@;
    let two = info(buffer, second);
    let mut lines: Vec<String> = Vec::new();
    lines.push(one);
    lines.push(two);
    let ghost texts = lines@.map_values(|line: String| line@);
    proof {
        assert(messages.drop_last().drop_last() =~= Seq::<Seq<char>>::empty());
        assert(texts.drop_last().drop_last() =~= Seq::<Seq<char>>::empty());
        assert(logged_all(start, start, Seq::empty(), Seq::empty()));
        assert(messages.drop_last().last() == first@);
        assert(texts.drop_last().last() == one@);
        assert(logged(start, middle, first@, one@));
        assert(logged_all(start, middle, messages.drop_last(), texts.drop_last()));
        assert(logged(middle, buffer@, second@, two@));
        assert(texts.len() == 2);
        assert(texts.last() == two@);
        assert(messages.last() == second@);
        assert(logged(middle, buffer@, messages.last(), texts.last()));
        assert(logged_all(start, buffer@, messages, texts));
    }
    lines
}

/// Records the two lines of an import where the timers are on, and gives them for the log
/// file; records nothing where they are off.
pub fn report_import(enabled: bool, import: Import, buffer: &mut LogBuffer) -> (lines: Vec<String>)
    ensures
        enabled ==> logged_all(
            old(buffer)@,
            final(buffer)@,
            seq![import_text(import).0, import_text(import).1],
            lines@.map_values(|line: String| line@),
        ),
        !enabled ==> final(buffer)@ == old(buffer)@ && lines@.len() == 0,
{
    if !enabled {
        return Vec::new();
    }
    let lines = import_lines(import);
    log_lines(buffer, lines[0].clone(), lines[1].clone())
}

/// Records the line of a preview where the timers are on, and gives it for the log file;
/// records nothing where they are off.
pub fn report_preview(enabled: bool, preview: Preview, buffer: &mut LogBuffer) -> (line: Option<String>)
    ensures
        enabled ==> (line matches Some(text) && logged(
            old(buffer)@,
            final(buffer)@,
            preview_text(preview),
            text@,
        )),
        !enabled ==> final(buffer)@ == old(buffer)@ && line is None,
{
    if !enabled {
        return None;
    }
    Some(info(buffer, preview_line(preview)))
}

/// Records the two lines of a run where the timers are on, and gives them for the log file;
/// records nothing where they are off.
pub fn report_run(enabled: bool, run: Run, buffer: &mut LogBuffer) -> (lines: Vec<String>)
    ensures
        enabled ==> logged_all(
            old(buffer)@,
            final(buffer)@,
            seq![run_text(run).0, run_text(run).1],
            lines@.map_values(|line: String| line@),
        ),
        !enabled ==> final(buffer)@ == old(buffer)@ && lines@.len() == 0,
{
    if !enabled {
        return Vec::new();
    }
    let lines = run_lines(run);
    log_lines(buffer, lines[0].clone(), lines[1].clone())
}

} // verus!
