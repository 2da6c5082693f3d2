//! Debug > View Log: the lines of the log file as the window reads them, and what the window
//! remembers between frames. Reading the file itself is the caller's part.
use crate::logging::{Level, banner_line, entry_line, is_clock_stamp, is_iso_stamp_of, iso_stamp, lemma_clock_stamp_shape, clock_stamp};
use crate::text::{chars_of, equals_text, is_whitespace, find_char, find_from, is_blank, lemma_skip_back_bounds, lemma_skip_back_run, lemma_skip_from_bounds, lemma_skip_from_run, other_than, skip_back, skip_from, skip_whitespace, starts_with, string_of, trim_start, whitespace_class};
use crate::words::lemma_skip_from_shift;
use vstd::prelude::*;
use vstd::string::StrSliceExecFns;
use vstd::utf8::*;

verus! {

/// One line of the file as the window shows it.
#[derive(Clone, Debug, PartialEq)]
pub struct Line {
    pub timestamp: String,
    pub level: Level,
    pub message: String,
    /// A session banner, which carries no level and rules off the lines before it.
    pub banner: bool,
}

/// A line as plain values: its stamp, level, message and whether it is a banner.
pub type LineView = (Seq<char>, Level, Seq<char>, bool);

impl View for Line {
    type V = LineView;

    open spec fn view(&self) -> LineView {
        (self.timestamp@, self.level, self.message@, self.banner)
    }
}

pub open spec fn dash_or_space() -> spec_fn(char) -> bool {
    |c: char| c == '-' || c == ' '
}

pub open spec fn open_bracket() -> spec_fn(char) -> bool {
    |c: char| c == '['
}

/// `str::trim_matches(['-', ' '])`.
pub open spec fn trim_dashes(chars: Seq<char>) -> Seq<char> {
    let start = skip_from(chars, 0, dash_or_space());
    let end = skip_back(chars, chars.len() as int, dash_or_space());
    if start < end {
        chars.subrange(start, end)
    } else {
        Seq::empty()
    }
}

/// The level a bracketed tag names; anything unrecognised reads as a notice.
pub open spec fn level_of_tag(tag: Seq<char>) -> Level {
    if tag == "WARN"@ {
        Level::Warning
    } else if tag == "ERROR"@ {
        Level::Error
    } else {
        Level::Info
    }
}

pub open spec fn is_banner(line: Seq<char>) -> bool {
    line.len() >= 11 && line.take(11) == "--- Session"@
}

/// Whether the first bytes of a line have the shape of a clock stamp followed by a space.
pub open spec fn is_stamped(bytes: Seq<u8>) -> bool {
    &&& bytes.len() > 13
    &&& bytes[2] == 58
    &&& bytes[5] == 58
    &&& bytes[8] == 46
    &&& bytes[12] == 32
}

/// What the rest of a stamped line holds after its stamp: level and message.
pub open spec fn parsed_rest(rest: Seq<char>) -> (Level, Seq<char>) {
    let close = find_from(rest, ']', 0);
    if close < rest.len() {
        let tag = rest.take(close);
        (level_of_tag(tag.skip(skip_from(tag, 0, open_bracket()))), trim_start(rest.skip(close + 1)))
    } else {
        (Level::Info, rest)
    }
}

/// A line of the log file read the way the logger writes one: `12:34:56.789 [INFO] message`.
/// Anything else is kept as it stands.
pub open spec fn parsed(line: Seq<char>) -> LineView {
    let bytes = encode_utf8(line);
    if is_banner(line) {
        (Seq::empty(), Level::Info, trim_dashes(line), true)
    } else if !is_stamped(bytes) {
        (Seq::empty(), Level::Info, line, false)
    } else {
        let stamp = decode_utf8(bytes.subrange(0, 12));
        let rest = trim_start(decode_utf8(bytes.subrange(12, bytes.len() as int)));
        let (level, message) = parsed_rest(rest);
        (stamp, level, message, false)
    }
}

fn tag_level(tag: &Vec<char>) -> (level: Level)
    ensures
        level == level_of_tag(tag@),
{
    if equals_text(tag, "WARN") {
        Level::Warning
    } else if equals_text(tag, "ERROR") {
        Level::Error
    } else {
        Level::Info
    }
}

/// Level and message of what follows a stamp, once its leading whitespace is gone.
fn parse_rest(rest: &Vec<char>, from: usize) -> (parsed: (Level, String))
    requires
        from <= rest@.len(),
    ensures
        (parsed.0, parsed.1@) == parsed_rest(rest@.skip(from as int)),
{
    let ghost tail = rest@.skip(from as int);
    let close = find_char(rest, ']', from);
    proof {
        lemma_skip_from_bounds(rest@, from as int, other_than(']'));
        lemma_find_shift(rest@, from as int, ']');
    }
    if close < rest.len() {
        let mut start = from;
        while start < close && rest[start] == '['
            invariant
                from <= start <= close < rest@.len(),
                forall|i: int| from <= i < start ==> rest@[i] == '[',
            decreases close - start,
        {
            start = start + 1;
        }
        let ghost tag = tail.take(close - from);
        proof {
            lemma_skip_bounded_shift(rest@, from as int, close as int, start as int);
            assert(tag =~= rest@.subrange(from as int, close as int));
            assert(tag.skip(skip_from(tag, 0, open_bracket())) =~= rest@.subrange(start as int, close as int));
        }
        let mut tag_chars: Vec<char> = Vec::new();
        let mut index = start;
        while index < close
            invariant
                start <= index <= close < rest@.len(),
                tag_chars@ == rest@.subrange(start as int, index as int),
            decreases close - index,
        {
            tag_chars.push(rest[index]);
            index = index + 1;
            assert(tag_chars@ =~= rest@.subrange(start as int, index as int));
        }
        let level = tag_level(&tag_chars);
        let body = skip_whitespace(rest, close + 1);
        proof {
            lemma_skip_from_bounds(rest@, close + 1, whitespace_class());
            lemma_trim_shift(rest@, close + 1);
            assert(tail.skip(close - from + 1) =~= rest@.skip(close + 1));
        }
        let message = string_of(rest, body, rest.len());
        assert(message@ =~= trim_start(tail.skip(close - from + 1)));
        (level, message)
    } else {
        let message = string_of(rest, from, rest.len());
        assert(message@ =~= tail);
        (Level::Info, message)
    }
}

/// Finding a character in a suffix is finding it in the whole from where the suffix starts.
proof fn lemma_find_shift(chars: Seq<char>, from: int, c: char)
    requires
        0 <= from <= chars.len(),
    ensures
        find_from(chars.skip(from), c, 0) == find_from(chars, c, from) - from,
{
    lemma_skip_from_bounds(chars, from, other_than(c));
    let end = find_from(chars, c, from);
    lemma_skip_from_run(chars.skip(from), 0, end - from, other_than(c));
}

proof fn lemma_trim_shift(chars: Seq<char>, from: int)
    requires
        0 <= from <= chars.len(),
    ensures
        trim_start(chars.skip(from)) =~= chars.skip(skip_from(chars, from, whitespace_class())),
{
    lemma_skip_from_bounds(chars, from, whitespace_class());
    let end = skip_from(chars, from, whitespace_class());
    lemma_skip_from_run(chars.skip(from), 0, end - from, whitespace_class());
}

proof fn lemma_skip_bounded_shift(chars: Seq<char>, from: int, close: int, start: int)
    requires
        0 <= from <= start <= close < chars.len(),
        forall|i: int| from <= i < start ==> chars[i] == '[',
        start < close ==> chars[start] != '[',
    ensures
        skip_from(chars.subrange(from, close), 0, open_bracket()) == start - from,
{
    lemma_skip_from_run(chars.subrange(from, close), 0, start - from, open_bracket());
}

/// Reads a line the way the logger writes one: `12:34:56.789 [INFO] message`.
///
/// Anything else is kept as it stands, so a stack trace or a wrapped line is still readable
/// rather than being dropped for not matching.
pub fn parse(line: &str) -> (parsed_line: Line)
    ensures
        parsed_line@ == parsed(line@),
{
    let chars = chars_of(line);
    let banner = starts_with(&chars, "--- Session");
    proof {
        reveal_strlit("--- Session");
    }
    if banner {
        let start = skip_dashes(&chars);
        let end = skip_dashes_back(&chars);
        proof {
            lemma_skip_from_bounds(chars@, 0, dash_or_space());
            lemma_skip_back_bounds(chars@, chars@.len() as int, dash_or_space());
        }
        let message = if start < end {
            string_of(&chars, start, end)
        } else {
            String::new()
        };
        assert(message@ =~= trim_dashes(line@));
        return Line { timestamp: String::new(), level: Level::Info, message, banner: true };
    }
    let bytes = line.as_bytes();
    let stamped = bytes.len() > 13 && bytes[2] == 58 && bytes[5] == 58 && bytes[8] == 46 && bytes[12]
        == 32;
    if !stamped {
        let message = string_of(&chars, 0, chars.len());
        assert(message@ =~= line@);
        return Line { timestamp: String::new(), level: Level::Info, message, banner: false };
    }
    proof {
        encode_utf8_valid_utf8(line@);
        is_char_boundary_iff_not_is_continuation_byte(bytes@, 12);
    }
    let (stamp, rest) = line.split_at(12);
    proof {
        encode_utf8_decode_utf8(stamp@);
        encode_utf8_decode_utf8(rest@);
    }
    let rest_chars = chars_of(rest);
    let body = skip_whitespace(&rest_chars, 0);
    proof {
        lemma_skip_from_bounds(rest_chars@, 0, whitespace_class());
    }
    let (level, message) = parse_rest(&rest_chars, body);
    let timestamp = stamp.to_owned();
    Line { timestamp, level, message, banner: false }
}

fn skip_dashes(chars: &Vec<char>) -> (index: usize)
    ensures
        index == skip_from(chars@, 0, dash_or_space()),
{
    let mut index: usize = 0;
    while index < chars.len() && (chars[index] == '-' || chars[index] == ' ')
        invariant
            index <= chars@.len(),
            skip_from(chars@, index as int, dash_or_space()) == skip_from(chars@, 0, dash_or_space()),
        decreases chars@.len() - index,
    {
        index = index + 1;
    }
    index
}

fn skip_dashes_back(chars: &Vec<char>) -> (end: usize)
    ensures
        end == skip_back(chars@, chars@.len() as int, dash_or_space()),
{
    let mut end: usize = chars.len();
    while end > 0 && (chars[end - 1] == '-' || chars[end - 1] == ' ')
        invariant
            end <= chars@.len(),
            skip_back(chars@, end as int, dash_or_space()) == skip_back(
                chars@,
                chars@.len() as int,
                dash_or_space(),
            ),
        decreases end,
    {
        end = end - 1;
    }
    end
}

/// Encoding a concatenation encodes each part in turn.
pub proof fn lemma_encode_concat(first: Seq<char>, second: Seq<char>)
    ensures
        encode_utf8(first + second) == encode_utf8(first) + encode_utf8(second),
    decreases first.len(),
{
    if first.len() == 0 {
        assert(first + second =~= second);
    } else {
        lemma_encode_concat(first.drop_first(), second);
        assert((first + second).drop_first() =~= first.drop_first() + second);
        assert((first + second)[0] == first[0]);
    }
}

proof fn lemma_ascii_byte(scalar: u32)
    requires
        scalar < 0x80,
    ensures
        leading_byte_width_1(scalar) == scalar as u8,
{
    assert((scalar & 0x7F) as u8 == scalar as u8) by (bit_vector)
        requires
            scalar < 0x80,
    ;
}

/// Text made of ASCII characters encodes to one byte per character, each its code.
pub proof fn lemma_encode_ascii(chars: Seq<char>)
    requires
        forall|i: int| 0 <= i < chars.len() ==> (#[trigger] chars[i] as u32) < 0x80,
    ensures
        encode_utf8(chars).len() == chars.len(),
        forall|i: int| 0 <= i < chars.len() ==> #[trigger] encode_utf8(chars)[i] == chars[i] as u32 as u8,
    decreases chars.len(),
{
    if chars.len() > 0 {
        let rest = chars.drop_first();
        assert forall|i: int| 0 <= i < rest.len() implies (#[trigger] rest[i] as u32) < 0x80 by {
            assert(rest[i] == chars[i + 1]);
        }
        lemma_encode_ascii(rest);
        lemma_ascii_byte(chars[0] as u32);
        assert forall|i: int| 0 <= i < chars.len() implies #[trigger] encode_utf8(chars)[i]
            == chars[i] as u32 as u8 by {
            if i > 0 {
                assert(encode_utf8(chars)[i] == encode_utf8(rest)[i - 1]);
                assert(rest[i - 1] == chars[i]);
            }
        }
    }
}

/// The banner that opens a session reads back as a banner whose message is `Session` and the
/// session's stamp, with the dashes around it gone.
pub proof fn lemma_parse_reads_session_banner(stamp: Seq<char>, date_seconds: nat, clock_seconds: nat)
    requires
        is_iso_stamp_of(stamp, date_seconds, clock_seconds),
    ensures
        parsed(banner_line(stamp)) == (Seq::<char>::empty(), Level::Info, "Session "@ + stamp, true),
{
    let (year, month, day) = choose|year: int, month: nat, day: nat|
        {
            &&& crate::calendar::is_valid_date(year, month as int, day as int)
            &&& crate::calendar::days_from_civil(year, month as int, day as int) == date_seconds / 86400
            &&& stamp == #[trigger] iso_stamp(
                year,
                month,
                day,
                clock_seconds / 3600 % 24,
                clock_seconds / 60 % 60,
                clock_seconds % 60,
            )
        };
    assert(stamp.len() > 0 && stamp.last() == 'Z');
    let line = banner_line(stamp);
    reveal_strlit("--- Session ");
    reveal_strlit(" ---");
    reveal_strlit("--- Session");
    reveal_strlit("Session ");
    let len = line.len() as int;
    assert(line.len() == stamp.len() + 16);
    assert(line.take(11) =~= "--- Session"@);
    assert(is_banner(line));
    lemma_skip_from_run(line, 0, 4, dash_or_space());
    assert(line[len - 5] == 'Z');
    lemma_skip_back_run(line, len - 4, len, dash_or_space());
    assert(line.subrange(4, len - 4) =~= "Session "@ + stamp);
}

/// What the logger writes, the window reads back: a line made of a clock stamp, a level and a
/// message that does not itself begin with whitespace parses into exactly those three.
pub proof fn lemma_parse_reads_what_log_writes(timestamp: Seq<char>, level: Level, message: Seq<char>)
    requires
        is_clock_stamp(timestamp),
        message.len() == 0 || !is_whitespace(message[0]),
    ensures
        parsed(entry_line(timestamp, level, message)) == (timestamp, level, message, false),
{
    reveal_strlit("INFO");
    reveal_strlit("WARN");
    reveal_strlit("ERROR");
    reveal_strlit("--- Session");
    let (seconds, milliseconds) = choose|seconds: nat, milliseconds: nat|
        milliseconds < 1000 && timestamp == #[trigger] clock_stamp(seconds, milliseconds);
    lemma_clock_stamp_shape(seconds, milliseconds);
    let label = crate::logging::level_label(level);
    let tail = seq![' ', '['] + label + seq![']', ' '] + message;
    let line = entry_line(timestamp, level, message);
    assert(line =~= timestamp + tail);
    assert forall|i: int| 0 <= i < timestamp.len() implies (#[trigger] timestamp[i] as u32) < 0x80 by {
        if i != 2 && i != 5 && i != 8 {
            assert('0' <= timestamp[i] <= '9');
        }
    }
    lemma_encode_ascii(timestamp);
    lemma_encode_concat(timestamp, tail);
    let bytes = encode_utf8(line);
    let tail_bytes = encode_utf8(tail);
    lemma_encode_concat(seq![' ', '['], label + seq![']', ' '] + message);
    assert(tail =~= seq![' ', '['] + (label + seq![']', ' '] + message));
    lemma_encode_ascii(seq![' ', '[']);
    assert(bytes.len() > 13);
    assert(bytes[2] == 58 && bytes[5] == 58 && bytes[8] == 46);
    assert(bytes[12] == tail_bytes[0]);
    assert(bytes[12] == 32);
    assert(bytes.subrange(0, 12) =~= encode_utf8(timestamp));
    assert(bytes.subrange(12, bytes.len() as int) =~= tail_bytes);
    encode_utf8_decode_utf8(timestamp);
    encode_utf8_decode_utf8(tail);
    assert(!is_banner(line)) by {
        assert(line[0] == timestamp[0]);
        assert("--- Session"@[0] == '-');
        if line.take(11) == "--- Session"@ {
            assert(line.take(11)[0] == line[0]);
        }
    }
    // The space after the stamp is the only whitespace the reader skips.
    lemma_skip_from_run(tail, 0, 1, whitespace_class());
    let rest = tail.skip(1);
    assert(rest =~= seq!['['] + label + seq![']', ' '] + message);
    let close: int = 1 + label.len() as int;
    assert forall|i: int| 0 <= i < close implies (other_than(']'))(#[trigger] rest[i]) by {
        if i > 0 {
            assert(rest[i] == label[i - 1]);
        }
    }
    lemma_skip_from_run(rest, 0, close, other_than(']'));
    let tag = rest.take(close);
    assert(tag =~= seq!['['] + label);
    lemma_skip_from_run(tag, 0, 1, open_bracket());
    assert(tag.skip(1) =~= label);
    let after = rest.skip(close + 1);
    assert(after =~= seq![' '] + message);
    if message.len() > 0 {
        lemma_skip_from_run(after, 0, 1, whitespace_class());
    } else {
        lemma_skip_from_run(after, 0, 1, whitespace_class());
    }
    assert(after.skip(1) =~= message);
}

/// The tag and the rest `split_tag` divides a message into.
pub open spec fn tag_split(message: Seq<char>) -> (Option<Seq<char>>, Seq<char>) {
    let close = find_from(message, ']', 0);
    if message.len() == 0 || message[0] != '[' || close >= message.len() {
        (None, message)
    } else {
        (Some(message.take(close + 1)), message.skip(close + 1))
    }
}

/// Splits a message into its opening `[tag]` and the rest, which the viewer colors apart.
pub fn split_tag(message: &str) -> (split: (Option<&str>, &str))
    ensures
        split.0 is Some ==> tag_split(message@).0 == Some(split.0.unwrap()@),
        split.0 is None ==> tag_split(message@).0 is None,
        split.1@ == tag_split(message@).1,
{
    let chars = chars_of(message);
    if chars.len() == 0 || chars[0] != '[' {
        return (None, message);
    }
    let close = find_char(&chars, ']', 0);
    proof {
        lemma_skip_from_bounds(chars@, 0, other_than(']'));
    }
    if close >= chars.len() {
        return (None, message);
    }
    let tag = message.substring_char(0, close + 1);
    let rest = message.substring_char(close + 1, chars.len());
    assert(rest@ =~= message@.skip(close + 1));
    (Some(tag), rest)
}

/// Whatever `split_tag` divides a message into, the two parts put back together are the
/// message.
pub proof fn lemma_split_tag_loses_nothing(message: Seq<char>)
    ensures
        match tag_split(message).0 {
            Some(tag) => tag + tag_split(message).1 == message,
            None => tag_split(message).1 == message,
        },
{
    let close = find_from(message, ']', 0);
    if !(message.len() == 0 || message[0] != '[' || close >= message.len()) {
        lemma_skip_from_bounds(message, 0, other_than(']'));
        assert(message.take(close + 1) + message.skip(close + 1) =~= message);
    }
}

/// The lines of `text` from the character `from` on, as `str::lines` divides it: at each `\n`,
/// with a `\r` before it dropped too, and no empty line after a final line ending.
pub open spec fn lines_from(text: Seq<char>, from: int) -> Seq<Seq<char>>
    decreases text.len() - from,
{
    if from < 0 || from >= text.len() {
        Seq::empty()
    } else {
        let end = find_from(text, '\n', from);
        let piece = text.subrange(from, end);
        if end < text.len() {
            let line = if piece.len() > 0 && piece.last() == '\r' {
                piece.drop_last()
            } else {
                piece
            };
            proof {
                lemma_skip_from_bounds(text, from, other_than('\n'));
            }
            seq![line] + lines_from(text, end + 1)
        } else {
            seq![piece]
        }
    }
}

/// The lines the window takes from a run of file lines: each one that is not blank, parsed.
pub open spec fn absorbed(lines: Seq<Seq<char>>) -> Seq<LineView>
    decreases lines.len(),
{
    if lines.len() == 0 {
        Seq::empty()
    } else {
        let first: Seq<LineView> = if is_blank(lines[0]) {
            Seq::empty()
        } else {
            seq![parsed(lines[0])]
        };
        first + absorbed(lines.drop_first())
    }
}

proof fn lemma_lines_from_shift(text: Seq<char>, from: int, at: int)
    requires
        0 <= from <= text.len(),
        0 <= at,
    ensures
        lines_from(text.skip(from), at) == lines_from(text, from + at),
    decreases text.len() - from - at,
{
    let rest = text.skip(from);
    if at < rest.len() {
        lemma_skip_from_shift(text, from, at, other_than('\n'));
        lemma_skip_from_bounds(rest, at, other_than('\n'));
        let end = find_from(rest, '\n', at);
        assert(rest.subrange(at, end) =~= text.subrange(from + at, from + end));
        if end < rest.len() {
            lemma_lines_from_shift(text, from, end + 1);
        }
    }
}

/// The file is read a line at a time: a line that holds no line feed, then a line feed, then
/// the rest, reads as that line (without a carriage return before the feed) followed by the
/// lines of the rest; a last line without a feed is kept whole; nothing reads as no line.
pub proof fn lemma_lines_split_at_line_feeds(line: Seq<char>, rest: Seq<char>)
    requires
        forall|i: int| 0 <= i < line.len() ==> line[i] != '\n',
    ensures
        lines_from(line + seq!['\n'] + rest, 0) == seq![
            if line.len() > 0 && line.last() == '\r' {
                line.drop_last()
            } else {
                line
            },
        ] + lines_from(rest, 0),
        line.len() > 0 ==> lines_from(line, 0) == seq![line],
        lines_from(Seq::empty(), 0) == Seq::<Seq<char>>::empty(),
{
    let text = line + seq!['\n'] + rest;
    assert forall|i: int| 0 <= i < line.len() implies other_than('\n')(#[trigger] text[i]) by {
        assert(text[i] == line[i]);
    }
    assert(text[line.len() as int] == '\n');
    lemma_skip_from_run(text, 0, line.len() as int, other_than('\n'));
    assert(text.subrange(0, line.len() as int) =~= line);
    lemma_lines_from_shift(text, line.len() as int + 1, 0);
    assert(text.skip(line.len() as int + 1) =~= rest);
    if line.len() > 0 {
        assert forall|i: int| 0 <= i < line.len() implies other_than('\n')(#[trigger] line[i]) by {}
        lemma_skip_from_run(line, 0, line.len() as int, other_than('\n'));
        assert(line.subrange(0, line.len() as int) =~= line);
    }
}

/// The window takes each line of a run that is not blank, parsed, in order: what it takes of
/// two runs one after the other is what it takes of the first and then of the second.
pub proof fn lemma_absorbed_line_by_line(first: Seq<Seq<char>>, second: Seq<Seq<char>>, line: Seq<char>)
    ensures
        absorbed(first + second) == absorbed(first) + absorbed(second),
        absorbed(seq![line]) == if is_blank(line) {
            Seq::<LineView>::empty()
        } else {
            seq![parsed(line)]
        },
    decreases first.len(),
{
    if first.len() > 0 {
        lemma_absorbed_line_by_line(first.drop_first(), second, line);
        assert((first + second).drop_first() =~= first.drop_first() + second);
        assert((first + second)[0] == first[0]);
    } else {
        assert(first + second =~= second);
    }
    assert(seq![line].drop_first() =~= Seq::<Seq<char>>::empty());
    assert(absorbed(Seq::<Seq<char>>::empty()) =~= Seq::<LineView>::empty());
}

pub open spec fn views(lines: Seq<Line>) -> Seq<LineView> {
    lines.map_values(|line: Line| line@)
}

/// Whether a window with these filters shows a line.
pub open spec fn shows_line(show_info: bool, show_warning: bool, show_error: bool, line: Line) -> bool {
    line.banner || match line.level {
        Level::Info => show_info,
        Level::Warning => show_warning,
        Level::Error => show_error,
    }
}

/// The lines the filters let through, in order.
pub open spec fn shown(show_info: bool, show_warning: bool, show_error: bool, lines: Seq<Line>) -> Seq<Line>
    decreases lines.len(),
{
    if lines.len() == 0 {
        Seq::empty()
    } else {
        let rest = shown(show_info, show_warning, show_error, lines.drop_last());
        if shows_line(show_info, show_warning, show_error, lines.last()) {
            rest.push(lines.last())
        } else {
            rest
        }
    }
}

/// The filters keep, in order, exactly the banners and the lines whose level has its box
/// ticked: a notice only with notices shown, a warning only with warnings shown, an error only
/// with errors shown.
pub proof fn lemma_filters_keep_exactly_the_ticked_levels(
    show_info: bool,
    show_warning: bool,
    show_error: bool,
    lines: Seq<Line>,
)
    ensures
        shown(show_info, show_warning, show_error, lines) == lines.filter(
            |line: Line|
                line.banner || (line.level is Info && show_info) || (line.level is Warning && show_warning) || (
                line.level is Error && show_error),
        ),
    decreases lines.len(),
{
    let keep = |line: Line|
        line.banner || (line.level is Info && show_info) || (line.level is Warning && show_warning) || (
        line.level is Error && show_error);
    reveal(Seq::filter);
    if lines.len() > 0 {
        lemma_filters_keep_exactly_the_ticked_levels(show_info, show_warning, show_error, lines.drop_last());
        assert(shows_line(show_info, show_warning, show_error, lines.last()) == keep(lines.last()));
    }
}

/// Of the lines a window shows, none but a banner is of a level whose box is unticked.
pub proof fn lemma_visible_lines_obey_the_filters(window: LogWindow, start: int, k: int)
    requires
        0 <= start <= window.lines().len(),
        0 <= k < shown(window.show_info, window.show_warning, window.show_error, window.lines().skip(start)).len(),
    ensures
        ({
            let line = shown(window.show_info, window.show_warning, window.show_error, window.lines().skip(start))[k];
            line.banner || (line.level is Info ==> window.show_info) && (line.level is Warning
                ==> window.show_warning) && (line.level is Error ==> window.show_error)
        }),
{
    let lines = window.lines().skip(start);
    let keep = |line: Line|
        line.banner || (line.level is Info && window.show_info) || (line.level is Warning && window.show_warning)
            || (line.level is Error && window.show_error);
    lemma_filters_keep_exactly_the_ticked_levels(window.show_info, window.show_warning, window.show_error, lines);
    broadcast use vstd::seq_lib::group_filter_ensures;

    let line = lines.filter(keep)[k];
    assert(keep(line));
}

fn copy_line(line: &Line) -> (copy: Line)
    ensures
        copy == *line,
{
    Line {
        timestamp: line.timestamp.clone(),
        level: line.level,
        message: line.message.clone(),
        banner: line.banner,
    }
}

/// Clearing hides exactly the lines held when it happened: whatever lines come after it, the
/// window shows what the filters let through of those alone.
pub proof fn lemma_clearing_hides_only_what_was_there(
    show_info: bool,
    show_warning: bool,
    show_error: bool,
    held: Seq<Line>,
    added: Seq<Line>,
)
    ensures
        shown(show_info, show_warning, show_error, (held + added).skip(held.len() as int)) == shown(
            show_info,
            show_warning,
            show_error,
            added,
        ),
{
    assert((held + added).skip(held.len() as int) =~= added);
}

/// What the window remembers between frames.
pub struct LogWindow {
    pub open: bool,
    pub show_info: bool,
    pub show_warning: bool,
    pub show_error: bool,
    /// What has been read of the log file, and what of it is shown.
    pub file: LogFile,
}

/// The lines a log window holds and how far it has read its file.
pub struct LogFile {
    lines: Vec<Line>,
    /// Whether the window follows the file. A window given its lines directly, as the
    /// capture scene does, shows those instead.
    follows_file: bool,
    /// How many bytes of the file have been read, so only new text is parsed.
    read: u64,
    /// Lines before this are not shown. Clear moves the mark rather than emptying the file.
    hidden: usize,
}

impl LogFile {
    /// The lines read so far, oldest first.
    pub closed spec fn lines(&self) -> Seq<Line> {
        self.lines@
    }

    /// Whether the window reads its file at all.
    pub closed spec fn follows(&self) -> bool {
        self.follows_file
    }

    /// How many bytes of the file have been read.
    pub closed spec fn read_mark(&self) -> nat {
        self.read as nat
    }

    /// How many of the lines a clear has hidden.
    pub closed spec fn hidden_mark(&self) -> nat {
        self.hidden as nat
    }
}

impl Default for LogWindow {
    fn default() -> (window: Self)
        ensures
            !window.opened(),
            window.filters().0 && window.filters().1 && window.filters().2,
            window.lines() == Seq::<Line>::empty(),
            window.follows(),
            window.read_mark() == 0,
            window.hidden_mark() == 0,
    {
        LogWindow {
            open: false,
            show_info: true,
            show_warning: true,
            show_error: true,
            file: LogFile { lines: Vec::new(), follows_file: true, read: 0, hidden: 0 },
        }
    }
}

impl LogWindow {
    pub open spec fn opened(&self) -> bool {
        self.open
    }

    /// Whether notices, warnings and errors are shown, in that order.
    pub open spec fn filters(&self) -> (bool, bool, bool) {
        (self.show_info, self.show_warning, self.show_error)
    }

    pub open spec fn lines(&self) -> Seq<Line> {
        self.file.lines()
    }

    pub open spec fn follows(&self) -> bool {
        self.file.follows()
    }

    pub open spec fn read_mark(&self) -> nat {
        self.file.read_mark()
    }

    pub open spec fn hidden_mark(&self) -> nat {
        self.file.hidden_mark()
    }

    /// A window over the given lines, with the default filters, following the file.
    pub fn with_lines(lines: Vec<Line>) -> (window: Self)
        ensures
            !window.opened(),
            window.filters().0 && window.filters().1 && window.filters().2,
            window.lines() == lines@,
            window.follows(),
            window.read_mark() == 0,
            window.hidden_mark() == 0,
    {
        LogWindow {
            open: false,
            show_info: true,
            show_warning: true,
            show_error: true,
            file: LogFile { lines, follows_file: true, read: 0, hidden: 0 },
        }
    }

    /// Opens the window from the start of the file: nothing read, nothing hidden. The caller
    /// then reads the file, as [`LogWindow::prepare_read`] and [`LogWindow::absorb`] describe.
    pub fn show(&mut self)
        ensures
            final(self).opened(),
            final(self).lines() == Seq::<Line>::empty(),
            final(self).read_mark() == 0,
            final(self).hidden_mark() == 0,
            final(self).follows() == old(self).follows(),
            final(self).filters().0 == old(self).filters().0,
            final(self).filters().1 == old(self).filters().1,
            final(self).filters().2 == old(self).filters().2,
    {
        self.open = true;
        self.file.lines.clear();
        self.file.read = 0;
        self.file.hidden = 0;
    }

    /// Whether a line of this level is shown.
    pub fn shows(&self, level: Level) -> (shown: bool)
        ensures
            shown == match level {
                Level::Info => self.filters().0,
                Level::Warning => self.filters().1,
                Level::Error => self.filters().2,
            },
    {
        match level {
            Level::Info => self.show_info,
            Level::Warning => self.show_warning,
            Level::Error => self.show_error,
        }
    }

    /// Whether the window reads the log file at all.
    pub fn follows_file(&self) -> (follows: bool)
        ensures
            follows == self.follows(),
    {
        self.file.follows_file
    }

    /// Decides, from the file's length now, whether it must be read. A window given its lines
    /// directly reads nothing; a file as long as what has been read has nothing new; a shorter
    /// one was replaced, so the window starts over.
    pub fn prepare_read(&mut self, length: u64) -> (read: bool)
        ensures
            read == (old(self).follows() && length != old(self).read_mark()),
            old(self).follows() && length < old(self).read_mark() ==> final(self).lines()
                == Seq::<Line>::empty() && final(self).read_mark() == 0 && final(self).hidden_mark() == 0,
            !old(self).follows() || length >= old(self).read_mark() ==> final(self).lines() == old(
                self,
            ).lines() && final(self).read_mark() == old(self).read_mark() && final(self).hidden_mark()
                == old(self).hidden_mark(),
            final(self).follows() == old(self).follows(),
            final(self).opened() == old(self).opened(),
            final(self).filters().0 == old(self).filters().0,
            final(self).filters().1 == old(self).filters().1,
            final(self).filters().2 == old(self).filters().2,
    {
        if !self.file.follows_file {
            return false;
        }
        if length == self.file.read {
            return false;
        }
        if length < self.file.read {
            self.file.lines.clear();
            self.file.hidden = 0;
            self.file.read = 0;
        }
        true
    }

    /// Shows or hides the lines of one level, as the viewer's filter boxes do.
    pub fn set_shown(&mut self, level: Level, shown: bool)
        ensures
            final(self).filters() == match level {
                Level::Info => (shown, old(self).filters().1, old(self).filters().2),
                Level::Warning => (old(self).filters().0, shown, old(self).filters().2),
                Level::Error => (old(self).filters().0, old(self).filters().1, shown),
            },
            final(self).lines() == old(self).lines(),
            final(self).follows() == old(self).follows(),
            final(self).opened() == old(self).opened(),
            final(self).read_mark() == old(self).read_mark(),
            final(self).hidden_mark() == old(self).hidden_mark(),
    {
        match level {
            Level::Info => self.show_info = shown,
            Level::Warning => self.show_warning = shown,
            Level::Error => self.show_error = shown,
        }
    }

    /// Takes in the file's whole text: the part after what was already read is split into
    /// lines, each one that is not blank is parsed and added, and the whole text counts as read.
    /// When the mark does not fall on a character of the text, all of it is taken as new. A
    /// window given its lines directly takes in nothing.
    pub fn absorb(&mut self, text: &str)
        ensures
            !old(self).follows() ==> final(self).lines() == old(self).lines() && final(self).read_mark()
                == old(self).read_mark(),
            old(self).follows() ==> ({
                let bytes = encode_utf8(text@);
                let mark = old(self).read_mark() as usize as int;
                let fresh = if mark <= bytes.len() && is_char_boundary(bytes, mark) {
                    decode_utf8(bytes.subrange(mark, bytes.len() as int))
                } else {
                    text@
                };
                views(final(self).lines()) == views(old(self).lines()) + absorbed(lines_from(fresh, 0))
            }),
            old(self).follows() ==> final(self).read_mark() == text.len(),
            final(self).hidden_mark() == old(self).hidden_mark(),
            final(self).follows() == old(self).follows(),
            final(self).opened() == old(self).opened(),
            final(self).filters().0 == old(self).filters().0,
            final(self).filters().1 == old(self).filters().1,
            final(self).filters().2 == old(self).filters().2,
    {
        if !self.file.follows_file {
            return;
        }
        let mark = self.file.read as usize;
        proof {
            encode_utf8_valid_utf8(text@);
        }
        let fresh = if text.is_char_boundary(mark) {
            let (_, tail) = text.split_at(mark);
            proof {
                encode_utf8_decode_utf8(tail@);
                assert(mark <= encode_utf8(text@).len()) by {
                    if mark > encode_utf8(text@).len() {
                        assert(!is_char_boundary(encode_utf8(text@), mark as int));
                    }
                }
            }
            tail
        } else {
            proof {
                if mark as int <= encode_utf8(text@).len() {
                    assert(!is_char_boundary(encode_utf8(text@), mark as int));
                }
            }
            text
        };
        let chars = chars_of(fresh);
        let ghost before = views(self.file.lines@);
        let ghost all = lines_from(chars@, 0);
        let mut from: usize = 0;
        while from < chars.len()
            invariant
                from <= chars@.len(),
                before + absorbed(all) == views(self.file.lines@) + absorbed(lines_from(chars@, from as int)),
                self.file.hidden == old(self).file.hidden,
                self.file.follows_file == old(self).file.follows_file,
                self.open == old(self).open,
                self.show_info == old(self).show_info,
                self.show_warning == old(self).show_warning,
                self.show_error == old(self).show_error,
            decreases chars@.len() - from,
        {
            let end = find_char(&chars, '\n', from);
            proof {
                lemma_skip_from_bounds(chars@, from as int, other_than('\n'));
            }
            let mut stop = end;
            if end < chars.len() && end > from && chars[end - 1] == '\r' {
                stop = end - 1;
            }
            let piece = string_of(&chars, from, stop);
            let ghost line = chars@.subrange(from as int, stop as int);
            let ghost rest = if end < chars@.len() {
                lines_from(chars@, end + 1)
            } else {
                Seq::<Seq<char>>::empty()
            };
            proof {
                let p = chars@.subrange(from as int, end as int);
                if end < chars@.len() && end > from && chars@[end - 1] == '\r' {
                    assert(p.drop_last() =~= line);
                } else {
                    assert(p =~= line);
                }
                assert(lines_from(chars@, from as int) =~= seq![line] + rest);
                assert((seq![line] + rest).drop_first() =~= rest);
            }
            let piece_chars = chars_of(piece.as_str());
            let blank = crate::text::is_blank_chars(&piece_chars);
            if !blank {
                let parsed_line = parse(piece.as_str());
                self.file.lines.push(parsed_line);
                proof {
                    assert(views(self.file.lines@) =~= views(old(self).file.lines@.take(0)) + views(self.file.lines@));
                }
            }
            proof {
                assert(views(self.file.lines@) + absorbed(rest) =~= views(self.file.lines@) + absorbed(rest));
            }
            from = if end < chars.len() {
                end + 1
            } else {
                chars.len()
            };
        }
        self.file.read = text.len() as u64;
    }

    /// Opens the window on lines given directly, for a capture that must not depend on
    /// whatever the machine's log happens to hold.
    pub fn seed(&mut self, lines: Vec<Line>)
        ensures
            final(self).lines() == lines@,
            !final(self).follows(),
            final(self).hidden_mark() == 0,
            final(self).opened(),
            final(self).read_mark() == old(self).read_mark(),
            final(self).filters().0 == old(self).filters().0,
            final(self).filters().1 == old(self).filters().1,
            final(self).filters().2 == old(self).filters().2,
    {
        self.file.lines = lines;
        self.file.follows_file = false;
        self.file.hidden = 0;
        self.open = true;
    }

    /// Hides everything recorded so far, as the viewer's Clear button does.
    pub fn clear(&mut self)
        ensures
            final(self).hidden_mark() == old(self).lines().len(),
            final(self).lines() == old(self).lines(),
            final(self).follows() == old(self).follows(),
            final(self).read_mark() == old(self).read_mark(),
            final(self).opened() == old(self).opened(),
            final(self).filters().0 == old(self).filters().0,
            final(self).filters().1 == old(self).filters().1,
            final(self).filters().2 == old(self).filters().2,
    {
        self.file.hidden = self.file.lines.len();
    }

    /// The lines the filters let through, from the last clear on.
    pub fn visible(&self) -> (visible: Vec<Line>)
        ensures
            visible@ == shown(
                self.filters().0,
                self.filters().1,
                self.filters().2,
                self.lines().skip(
                    if self.hidden_mark() < self.lines().len() {
                        self.hidden_mark() as int
                    } else {
                        self.lines().len() as int
                    },
                ),
            ),
    {
        let start = if self.file.hidden < self.file.lines.len() {
            self.file.hidden
        } else {
            self.file.lines.len()
        };
        let mut visible: Vec<Line> = Vec::new();
        let mut index = start;
        while index < self.file.lines.len()
            invariant
                start <= index <= self.file.lines@.len(),
                visible@ == shown(
                    self.show_info,
                    self.show_warning,
                    self.show_error,
                    self.file.lines@.subrange(start as int, index as int),
                ),
            decreases self.file.lines@.len() - index,
        {
            let line = &self.file.lines[index];
            let ghost next = self.file.lines@.subrange(start as int, index + 1);
            assert(next.drop_last() =~= self.file.lines@.subrange(start as int, index as int));
            if line.banner || self.shows(line.level) {
                visible.push(copy_line(line));
            }
            index = index + 1;
        }
        assert(self.file.lines@.subrange(start as int, self.file.lines@.len() as int) =~= self.file.lines@.skip(
            start as int,
        ));
        visible
    }
}

} // verus!
