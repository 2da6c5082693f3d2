//! The thumbnail cache of the importer: where each picture's thumbnail lives, what is still
//! known about a picture since it was last read, the ImageMagick commands that make the
//! thumbnails that are missing, and reading back what those commands measured.
//!
//! The files themselves are read, stamped and handed to ImageMagick by the caller; every
//! decision about them is made here.
use crate::paths::extension;
use crate::text::{
    ascii_lowercase, ascii_uppercase, decimal, hex_fixed, push_decimal, push_hex_fixed, push_str,
    uppercase_ascii,
};
use crate::texture::{fnv1a, fnv1a_text};
use crate::words::{lines, lines_of, parse_u32, parsed_u32, words, words_of};
use vstd::prelude::*;
use vstd::string::StringExecFns;
use vstd::utf8::encode_utf8;

verus! {

/// The smallest thumbnail side a batch can ask for.
pub const MIN_THUMBNAIL_SIZE: u32 = 1;

/// The largest thumbnail side a batch can ask for.
pub const MAX_THUMBNAIL_SIZE: u32 = 16384;

/// How long what was read of a picture is trusted, in nanoseconds: ten minutes.
pub const DEFAULT_TTL_NS: u128 = 600_000_000_000;

/// How many pictures one ImageMagick command thumbnails by default.
pub const DEFAULT_BATCH_SIZE: usize = 8;

/// The most workers an import uses by default.
pub const MAX_DEFAULT_JOBS: usize = 8;

/// One picture of an import and its thumbnail.
#[derive(Clone, Debug)]
pub struct ThumbnailInfo {
    pub path: String,
    pub thumbnail: String,
    pub width: u32,
    pub height: u32,
    pub format: String,
    pub size_bytes: u64,
}

/// How the thumbnail cache has been doing, in memory and on disk.
#[derive(Clone, Copy, Debug, PartialEq, Eq, Structural)]
pub struct ThumbnailStats {
    pub memory_hits: usize,
    pub memory_misses: usize,
    pub disk_hits: usize,
    pub disk_misses: usize,
    pub invalidations: usize,
}

/// What a file was when it was read: its length and when it was last written, in nanoseconds
/// since the Unix epoch (zero where the system cannot say).
#[derive(Clone, Copy, Debug, PartialEq, Eq, Structural)]
pub struct Stamp {
    pub size: u64,
    pub modified_ns: u128,
}

/// What the file system says of a thumbnail that exists: its length, and when it was last
/// written, in nanoseconds since the Unix epoch, where the system can say.
#[derive(Clone, Copy, Debug, PartialEq, Eq, Structural)]
pub struct FileState {
    pub size: u64,
    pub modified_ns: Option<u128>,
}

/// What was read of a picture, and when, on the caller's monotonic clock in nanoseconds.
#[derive(Clone, Debug)]
pub struct CachedInfo {
    pub stamp: Stamp,
    pub inserted: u128,
    pub width: u32,
    pub height: u32,
    pub format: String,
}

/// The thumbnails of imported pictures, and what is known of each picture since it was read.
pub struct ThumbnailCache {
    pub directory: String,
    /// How long what was read of a picture is trusted, in nanoseconds.
    pub ttl_ns: u128,
    pub batch_size: usize,
    pub jobs: usize,
    pub stats: ThumbnailStats,
    /// The files the last batch could not read, with the reason.
    pub failures: Vec<(String, String)>,
    /// What is remembered of each picture since it was read.
    pub metadata: PictureMemory,
}

impl Default for ThumbnailStats {
    fn default() -> (stats: Self)
        ensures
            stats == (ThumbnailStats {
                memory_hits: 0,
                memory_misses: 0,
                disk_hits: 0,
                disk_misses: 0,
                invalidations: 0,
            }),
    {
        ThumbnailStats { memory_hits: 0, memory_misses: 0, disk_hits: 0, disk_misses: 0, invalidations: 0 }
    }
}

/// How many workers an import uses: half the hardware threads, at least one and at most eight,
/// or one where the machine cannot say.
pub open spec fn jobs_for(parallelism: Option<usize>) -> usize {
    match parallelism {
        Some(count) => if count / 2 < 1 {
            1
        } else if count / 2 > MAX_DEFAULT_JOBS {
            MAX_DEFAULT_JOBS
        } else {
            count / 2
        },
        None => 1,
    }
}

/// The number of workers an import uses, from the hardware threads the machine reports.
pub fn default_jobs(parallelism: Option<usize>) -> (jobs: usize)
    ensures
        jobs == jobs_for(parallelism),
        1 <= jobs <= MAX_DEFAULT_JOBS,
{
    match parallelism {
        Some(count) => {
            let half = count / 2;
            if half < 1 {
                1
            } else if half > MAX_DEFAULT_JOBS {
                MAX_DEFAULT_JOBS
            } else {
                half
            }
        },
        None => 1,
    }
}

/// The error a batch gives for a thumbnail size outside what it can make.
pub fn size_error() -> (message: String)
    ensures
        message@ == "thumbnail size must be between 1 and 16384"@,
{
    String::from_str("thumbnail size must be between 1 and 16384")
}

/// Accepts a thumbnail side a batch can make, and refuses any other.
pub fn check_size(size: u32) -> (checked: Result<(), String>)
    ensures
        checked is Ok <==> MIN_THUMBNAIL_SIZE <= size <= MAX_THUMBNAIL_SIZE,
        checked matches Err(message) ==> message@ == "thumbnail size must be between 1 and 16384"@,
{
    if size == 0 || size > MAX_THUMBNAIL_SIZE {
        return Err(size_error());
    }
    Ok(())
}

/// The file name of a picture's thumbnail at a size: the FNV-1a hash of the picture's path in
/// sixteen hexadecimal digits, then the size.
pub open spec fn thumbnail_name(source: Seq<char>, size: u32) -> Seq<char> {
    "thumb_"@ + hex_fixed(fnv1a(encode_utf8(source)) as nat, 16) + "_"@ + decimal(size as nat)
        + ".webp"@
}

/// A file name placed in a directory, with a `/` between them where the directory has none at
/// its end.
pub open spec fn joined(directory: Seq<char>, name: Seq<char>) -> Seq<char> {
    if directory.len() == 0 || directory.last() == '/' {
        directory + name
    } else {
        directory + seq!['/'] + name
    }
}

/// Where a thumbnail of `source` at `size` lives inside `directory`.
pub fn thumbnail_file(directory: &str, source: &str, size: u32) -> (path: String)
    ensures
        path@ == joined(directory@, thumbnail_name(source@, size)),
{
    let mut path = String::from_str(directory);
    let length: usize = directory.unicode_len();
    if length > 0 && directory.get_char(length - 1) != '/' {
        path.push('/');
    }
    let ghost start = path@;
    push_str(&mut path, "thumb_");
    push_hex_fixed(&mut path, fnv1a_text(source), 16);
    push_str(&mut path, "_");
    push_decimal(&mut path, size as u128);
    push_str(&mut path, ".webp");
    assert(path@ =~= joined(directory@, thumbnail_name(source@, size)));
    path
}

/// The number in the `k`th word, or zero where there is no such word or it is no number.
pub open spec fn number_at(words: Seq<Seq<char>>, k: int) -> u32 {
    if 0 <= k < words.len() {
        match parsed_u32(words[k]) {
            Some(value) => value,
            None => 0,
        }
    } else {
        0
    }
}

/// What `%w %h %m` printed: the width, the height and the format, a missing or unreadable
/// number read as zero and a missing format as `UNKNOWN`.
pub open spec fn measured(text: Seq<char>) -> (u32, u32, Seq<char>) {
    let words = words_of(text);
    (number_at(words, 0), number_at(words, 1), if words.len() > 2 {
        words[2]
    } else {
        "UNKNOWN"@
    })
}

/// What `%w %h %m` prints reads back as it was printed: a width and a height in decimal and a
/// format name, one space between each.
pub proof fn lemma_measurement_reads_what_was_printed(width: u32, height: u32, format: Seq<char>)
    requires
        format.len() > 0,
        forall|i: int| 0 <= i < format.len() ==> !crate::text::is_whitespace(#[trigger] format[i]),
    ensures
        measured(decimal(width as nat) + seq![' '] + decimal(height as nat) + seq![' '] + format) == (
            width,
            height,
            format,
        ),
{
    let w = decimal(width as nat);
    let h = decimal(height as nat);
    crate::text::lemma_decimal_digits(width as nat);
    crate::text::lemma_decimal_digits(height as nat);
    crate::words::lemma_decimal_reads_back(width as nat);
    crate::words::lemma_decimal_reads_back(height as nat);
    assert forall|i: int| 0 <= i < w.len() implies !crate::text::is_whitespace(#[trigger] w[i]) by {
        assert(crate::text::is_digit_char(w[i]));
    }
    assert forall|i: int| 0 <= i < h.len() implies !crate::text::is_whitespace(#[trigger] h[i]) by {
        assert(crate::text::is_digit_char(h[i]));
    }
    let tail = seq![' '] + format;
    crate::words::lemma_words_open_with(format, Seq::empty());
    assert(format + Seq::<char>::empty() =~= format);
    assert(words_of(Seq::<char>::empty()) =~= Seq::<Seq<char>>::empty());
    crate::words::lemma_words_skip_leading_space(' ', format);
    crate::words::lemma_words_open_with(h, tail);
    crate::words::lemma_words_skip_leading_space(' ', h + tail);
    crate::words::lemma_words_open_with(w, seq![' '] + (h + tail));
    let text = decimal(width as nat) + seq![' '] + decimal(height as nat) + seq![' '] + format;
    assert(text =~= w + (seq![' '] + (h + tail)));
    assert(words_of(text) =~= seq![w, h, format]);
}

fn number_in(words: &Vec<Vec<char>>, k: usize) -> (value: u32)
    ensures
        value == number_at(words@.map_values(|word: Vec<char>| word@), k as int),
{
    if k < words.len() {
        match parse_u32(&words[k]) {
            Some(value) => value,
            None => 0,
        }
    } else {
        0
    }
}

/// Reads the width, height and format that `%w %h %m` printed.
pub fn measurement(text: &Vec<char>) -> (values: (u32, u32, String))
    ensures
        values.0 == measured(text@).0,
        values.1 == measured(text@).1,
        values.2@ == measured(text@).2,
{
    let found = words(text);
    let ghost seen = found@.map_values(|word: Vec<char>| word@);
    let width = number_in(&found, 0);
    let height = number_in(&found, 1);
    let format = if found.len() > 2 {
        let mut format = String::new();
        let word = &found[2];
        let mut index: usize = 0;
        while index < word.len()
            invariant
                index <= word@.len(),
                format@ == word@.take(index as int),
            decreases word@.len() - index,
        {
            format.push(word[index]);
            index = index + 1;
            assert(format@ =~= word@.take(index as int));
        }
        assert(word@.take(index as int) =~= word@);
        assert(seen[2] == word@);
        format
    } else {
        String::from_str("UNKNOWN")
    };
    (width, height, format)
}

/// Reads the width, height and format that `identify -format "%w %h %m"` printed.
pub fn identified(output: &str) -> (values: (u32, u32, String))
    ensures
        values.0 == measured(output@).0,
        values.1 == measured(output@).1,
        values.2@ == measured(output@).2,
{
    let chars = crate::text::chars_of(output);
    measurement(&chars)
}

/// The position among the first `count` printed entries of the last that names `index`, or
/// minus one.
pub open spec fn last_print(printed: Seq<usize>, count: int, index: int) -> int
    decreases count,
{
    if count <= 0 {
        -1
    } else if printed[count - 1] == index {
        count - 1
    } else {
        last_print(printed, count - 1, index)
    }
}

/// How many lines of a command's output are read: one per printed entry, as far as both go.
pub open spec fn read_count(output: Seq<char>, printed: Seq<usize>) -> int {
    if lines_of(output).len() < printed.len() {
        lines_of(output).len() as int
    } else {
        printed.len() as int
    }
}

/// A picture with the measurements of one printed line applied.
pub open spec fn remeasured(item: ThumbnailInfo, line: Seq<char>, updated: ThumbnailInfo) -> bool {
    &&& updated.path == item.path
    &&& updated.thumbnail == item.thumbnail
    &&& updated.size_bytes == item.size_bytes
    &&& updated.width == measured(line).0
    &&& updated.height == measured(line).1
    &&& updated.format@ == measured(line).2
}

/// Each picture after a command's output was read: as it was, unless a line was printed for
/// it, and then measured by the last such line.
pub open spec fn measured_items(
    before: Seq<ThumbnailInfo>,
    after: Seq<ThumbnailInfo>,
    output: Seq<char>,
    printed: Seq<usize>,
    count: int,
) -> bool {
    &&& after.len() == before.len()
    &&& forall|i: int|
        0 <= i < before.len() ==> {
            let k = #[trigger] last_print(printed, count, i);
            if k < 0 {
                after[i] == before[i]
            } else {
                remeasured(before[i], lines_of(output)[k], after[i])
            }
        }
}

proof fn lemma_last_print_bounds(printed: Seq<usize>, count: int, index: int)
    requires
        0 <= count <= printed.len(),
    ensures
        -1 <= last_print(printed, count, index) < count,
        last_print(printed, count, index) >= 0 ==> printed[last_print(printed, count, index)]
            == index,
    decreases count,
{
    if count > 0 && printed[count - 1] != index {
        lemma_last_print_bounds(printed, count - 1, index);
    }
}

/// Applies what one command printed to the pictures it printed for: each line, in order, to
/// the next printed picture.
pub fn measure(items: &mut Vec<ThumbnailInfo>, output: &str, printed: &[usize])
    requires
        forall|k: int| 0 <= k < read_count(output@, printed@) ==> printed@[k] < old(items)@.len(),
    ensures
        measured_items(old(items)@, final(items)@, output@, printed@, read_count(output@, printed@)),
{
    let found = lines(output);
    let ghost seen = found@.map_values(|line: Vec<char>| line@);
    let count: usize = if found.len() < printed.len() {
        found.len()
    } else {
        printed.len()
    };
    let mut k: usize = 0;
    while k < count
        invariant
            seen == lines_of(output@),
            seen == found@.map_values(|line: Vec<char>| line@),
            count == read_count(output@, printed@),
            count <= found@.len() && count <= printed@.len(),
            k <= count,
            forall|j: int| 0 <= j < count ==> printed@[j] < old(items)@.len(),
            measured_items(old(items)@, items@, output@, printed@, k as int),
        decreases count - k,
    {
        let index = printed[k];
        let (width, height, format) = measurement(&found[k]);
        let item = &items[index];
        let updated = ThumbnailInfo {
            path: item.path.clone(),
            thumbnail: item.thumbnail.clone(),
            width,
            height,
            format,
            size_bytes: item.size_bytes,
        };
        let ghost previous = items@;
        items.set(index, updated);
        proof {
            assert forall|i: int| 0 <= i < old(items)@.len() implies {
                let last = #[trigger] last_print(printed@, k + 1, i);
                if last < 0 {
                    items@[i] == old(items)@[i]
                } else {
                    remeasured(old(items)@[i], lines_of(output@)[last], items@[i])
                }
            } by {
                lemma_last_print_bounds(printed@, k as int, i);
                let _ = last_print(printed@, k as int, i);
                if i == index {
                    assert(seen[k as int] == found@[k as int]@);
                }
            }
        }
        k = k + 1;
    }
}

/// Whether a path names a JPEG by its extension, in any case.
pub open spec fn is_jpeg_path(path: Seq<char>) -> bool {
    match extension(path) {
        Some(ext) => ascii_lowercase(ext) == "jpg"@ || ascii_lowercase(ext) == "jpeg"@,
        None => false,
    }
}

/// Whether a picture still lacks a width or a height.
pub open spec fn unmeasured(item: ThumbnailInfo) -> bool {
    item.width == 0 || item.height == 0
}

/// The arguments that thumbnail one picture: a JPEG is decoded at twice the thumbnail's size,
/// an unmeasured picture prints its measurements, and every picture but the last is written
/// and dropped so that the next can be read.
pub open spec fn member_args(item: ThumbnailInfo, size: u32, last: bool) -> Seq<Seq<char>> {
    let double = decimal(2 * size as nat);
    (if is_jpeg_path(item.path@) {
        seq!["-define"@, "jpeg:size="@ + double + "x"@ + double]
    } else {
        Seq::empty()
    }) + seq![item.path@ + "[0]"@] + (if unmeasured(item) {
        seq!["-print"@, "%w %h %m\n"@]
    } else {
        Seq::empty()
    }) + seq![
        "-thumbnail"@,
        decimal(size as nat) + "x"@ + decimal(size as nat) + ">"@,
        "-quality"@,
        "85"@,
    ] + (if last {
        seq![item.thumbnail@]
    } else {
        seq!["-write"@, item.thumbnail@, "+delete"@]
    })
}

/// The arguments for the first `count` members of a command.
pub open spec fn command_args(
    items: Seq<ThumbnailInfo>,
    members: Seq<usize>,
    size: u32,
    count: int,
) -> Seq<Seq<char>>
    decreases count,
{
    if count <= 0 {
        Seq::empty()
    } else {
        command_args(items, members, size, count - 1) + member_args(
            items[members[count - 1] as int],
            size,
            count == members.len(),
        )
    }
}

/// The members among the first `count` that the command prints measurements for, in order.
pub open spec fn printed_members(items: Seq<ThumbnailInfo>, members: Seq<usize>, count: int) -> Seq<
    usize,
>
    decreases count,
{
    if count <= 0 {
        Seq::empty()
    } else if unmeasured(items[members[count - 1] as int]) {
        printed_members(items, members, count - 1).push(members[count - 1])
    } else {
        printed_members(items, members, count - 1)
    }
}

fn owned(text: &str) -> (owned: String)
    ensures
        owned@ == text@,
{
    String::from_str(text)
}

fn is_jpeg(path: &str) -> (jpeg: bool)
    ensures
        jpeg == is_jpeg_path(path@),
{
    match crate::paths::path_extension(path) {
        Some(ext) => {
            let chars = crate::text::chars_of(ext.as_str());
            let lower = crate::text::lowercase_ascii(&chars);
            crate::text::equals_text(&lower, "jpg") || crate::text::equals_text(&lower, "jpeg")
        },
        None => false,
    }
}

/// The view of each argument.
pub open spec fn texts(args: Seq<String>) -> Seq<Seq<char>> {
    args.map_values(|arg: String| arg@)
}

fn push_arg(args: &mut Vec<String>, arg: String)
    ensures
        texts(final(args)@) == texts(old(args)@).push(arg@),
{
    args.push(arg);
    assert(texts(args@) =~= texts(old(args)@).push(arg@));
}

fn push_member_args(args: &mut Vec<String>, item: &ThumbnailInfo, size: u32, last: bool)
    ensures
        texts(final(args)@) == texts(old(args)@) + member_args(*item, size, last),
{
    let ghost start = texts(args@);
    let ghost double = decimal(2 * size as nat);
    let ghost mut added: Seq<Seq<char>> = Seq::empty();
    if is_jpeg(item.path.as_str()) {
        push_arg(args, owned("-define"));
        let mut define = owned("jpeg:size=");
        push_decimal(&mut define, size as u128 * 2);
        push_str(&mut define, "x");
        push_decimal(&mut define, size as u128 * 2);
        push_arg(args, define);
        proof {
            added = seq!["-define"@, "jpeg:size="@ + double + "x"@ + double];
        }
    }
    assert(texts(args@) =~= start + added);
    let mut source = item.path.clone();
    push_str(&mut source, "[0]");
    push_arg(args, source);
    proof {
        added = added.push(item.path@ + "[0]"@);
    }
    assert(texts(args@) =~= start + added);
    if item.width == 0 || item.height == 0 {
        push_arg(args, owned("-print"));
        push_arg(args, owned("%w %h %m\n"));
        proof {
            added = added + seq!["-print"@, "%w %h %m\n"@];
        }
    }
    assert(texts(args@) =~= start + added);
    push_arg(args, owned("-thumbnail"));
    let mut bound = String::new();
    push_decimal(&mut bound, size as u128);
    push_str(&mut bound, "x");
    push_decimal(&mut bound, size as u128);
    push_str(&mut bound, ">");
    push_arg(args, bound);
    push_arg(args, owned("-quality"));
    push_arg(args, owned("85"));
    proof {
        added = added + seq![
            "-thumbnail"@,
            decimal(size as nat) + "x"@ + decimal(size as nat) + ">"@,
            "-quality"@,
            "85"@,
        ];
    }
    assert(texts(args@) =~= start + added);
    if last {
        push_arg(args, item.thumbnail.clone());
        proof {
            added = added.push(item.thumbnail@);
        }
    } else {
        push_arg(args, owned("-write"));
        push_arg(args, item.thumbnail.clone());
        push_arg(args, owned("+delete"));
        proof {
            added = added + seq!["-write"@, item.thumbnail@, "+delete"@];
        }
    }
    assert(texts(args@) =~= start + added);
    assert(added =~= member_args(*item, size, last));
}

/// The arguments that write thumbnails for `members`, and which of them the command prints
/// measurements for, in the order it prints them.
pub fn thumbnail_command(items: &[ThumbnailInfo], members: &[usize], size: u32) -> (command: (
    Vec<String>,
    Vec<usize>,
))
    requires
        forall|k: int| 0 <= k < members@.len() ==> members@[k] < items@.len(),
    ensures
        texts(command.0@) == command_args(items@, members@, size, members@.len() as int),
        command.1@ == printed_members(items@, members@, members@.len() as int),
{
    let mut args: Vec<String> = Vec::new();
    let mut printed: Vec<usize> = Vec::new();
    let mut position: usize = 0;
    assert(texts(args@) =~= Seq::<Seq<char>>::empty());
    while position < members.len()
        invariant
            position <= members@.len(),
            forall|k: int| 0 <= k < members@.len() ==> members@[k] < items@.len(),
            texts(args@) == command_args(items@, members@, size, position as int),
            printed@ == printed_members(items@, members@, position as int),
        decreases members@.len() - position,
    {
        let index = members[position];
        let item = &items[index];
        push_member_args(&mut args, item, size, position + 1 == members.len());
        if item.width == 0 || item.height == 0 {
            printed.push(index);
        }
        position = position + 1;
    }
    (args, printed)
}

/// Whether what was read at `inserted` is still trusted at `now`: the time between them, or
/// none where the clock reads earlier, is at most the time to live.
pub open spec fn fresh(inserted: u128, now: u128, ttl: u128) -> bool {
    now <= inserted || now - inserted <= ttl
}

/// Whether a thumbnail on disk is current: not empty, and written no earlier than the
/// picture it was made from.
pub open spec fn disk_current(file: Option<FileState>, stamp: Stamp) -> bool {
    match file {
        Some(state) => state.size > 0 && match state.modified_ns {
            Some(modified) => modified >= stamp.modified_ns,
            None => false,
        },
        None => false,
    }
}

/// The format a picture is listed with before anything else measured it: the one its header
/// names, else its extension in capitals.
pub open spec fn header_format(path: Seq<char>, header: Option<(u32, u32, String)>) -> Seq<char> {
    match header {
        Some((_, _, name)) => name@,
        None => ascii_uppercase(
            match extension(path) {
                Some(ext) => ext,
                None => Seq::empty(),
            },
        ),
    }
}

/// The counters after one picture: a hit or a miss in memory and on disk, and an invalidation
/// for each of the two that held something no longer current.
pub open spec fn counted(
    stats: ThumbnailStats,
    memory_hit: bool,
    known: bool,
    disk_hit: bool,
    on_disk: bool,
) -> ThumbnailStats {
    ThumbnailStats {
        memory_hits: (stats.memory_hits + if memory_hit { 1int } else { 0 }) as usize,
        memory_misses: (stats.memory_misses + if memory_hit { 0int } else { 1 }) as usize,
        disk_hits: (stats.disk_hits + if disk_hit { 1int } else { 0 }) as usize,
        disk_misses: (stats.disk_misses + if disk_hit { 0int } else { 1 }) as usize,
        invalidations: (stats.invalidations + (if !memory_hit && known { 1int } else { 0 }) + (if !disk_hit
            && on_disk { 1int } else { 0 })) as usize,
    }
}

/// Whether every counter can take two more.
pub open spec fn has_room(stats: ThumbnailStats) -> bool {
    &&& stats.memory_hits < usize::MAX - 1
    &&& stats.memory_misses < usize::MAX - 1
    &&& stats.disk_hits < usize::MAX - 1
    &&& stats.disk_misses < usize::MAX - 1
    &&& stats.invalidations < usize::MAX - 1
}

impl ThumbnailStats {
    /// Whether every counter can take two more.
    pub fn can_count(&self) -> (room: bool)
        ensures
            room == has_room(*self),
    {
        self.memory_hits < usize::MAX - 1 && self.memory_misses < usize::MAX - 1 && self.disk_hits
            < usize::MAX - 1 && self.disk_misses < usize::MAX - 1 && self.invalidations < usize::MAX
            - 1
    }
}

/// Whether a picture's entry in memory can be used: it was read from the file as it stands,
/// and not too long ago.
pub open spec fn memory_hit(
    cached: Map<Seq<char>, CachedInfo>,
    ttl: u128,
    path: Seq<char>,
    stamp: Stamp,
    now: u128,
) -> bool {
    &&& cached.contains_key(path)
    &&& cached[path].stamp == stamp
    &&& fresh(cached[path].inserted, now, ttl)
}

/// The width, height and format a picture is listed with: those in memory on a hit, else its
/// header's (zero where there is none) and the format [`header_format`] gives.
pub open spec fn listed(
    cached: Map<Seq<char>, CachedInfo>,
    ttl: u128,
    path: Seq<char>,
    stamp: Stamp,
    header: Option<(u32, u32, String)>,
    now: u128,
) -> (u32, u32, Seq<char>) {
    if memory_hit(cached, ttl, path, stamp, now) {
        (cached[path].width, cached[path].height, cached[path].format@)
    } else {
        match header {
            Some((width, height, _)) => (width, height, header_format(path, header)),
            None => (0, 0, header_format(path, header)),
        }
    }
}

/// Whether two texts hold the same characters.
pub fn same_text(first: &str, second: &str) -> (same: bool)
    ensures
        same == (first@ == second@),
{
    let chars = crate::text::chars_of(first);
    crate::text::equals_text(&chars, second)
}

/// What is remembered of each picture read so far, by its path: one entry per path.
pub struct PictureMemory {
    entries: Vec<(String, CachedInfo)>,
}

impl View for PictureMemory {
    type V = Map<Seq<char>, CachedInfo>;

    closed spec fn view(&self) -> Map<Seq<char>, CachedInfo> {
        Map::new(
            |key: Seq<char>|
                exists|i: int| 0 <= i < self.entries@.len() && self.entries@[i].0@ == key,
            |key: Seq<char>|
                self.entries@[choose|i: int|
                    0 <= i < self.entries@.len() && self.entries@[i].0@ == key].1,
        )
    }
}

impl PictureMemory {
    #[verifier::type_invariant]
    closed spec fn unique(self) -> bool {
        forall|i: int, j: int|
            0 <= i < j < self.entries@.len() ==> self.entries@[i].0@ != self.entries@[j].0@
    }

    proof fn lemma_entry(&self, i: int)
        requires
            self.unique(),
            0 <= i < self.entries@.len(),
        ensures
            self@.contains_key(self.entries@[i].0@),
            self@[self.entries@[i].0@] == self.entries@[i].1,
    {
        let key = self.entries@[i].0@;
        assert(self@.contains_key(key));
        let j = choose|j: int| 0 <= j < self.entries@.len() && self.entries@[j].0@ == key;
        if j != i {
            if j < i {
                assert(self.entries@[j].0@ != self.entries@[i].0@);
            } else {
                assert(self.entries@[i].0@ != self.entries@[j].0@);
            }
        }
    }

    /// Nothing remembered.
    pub fn new() -> (memory: Self)
        ensures
            memory@ == Map::<Seq<char>, CachedInfo>::empty(),
    {
        let memory = PictureMemory { entries: Vec::new() };
        assert(memory@ =~= Map::<Seq<char>, CachedInfo>::empty());
        memory
    }

    /// The position of a picture's entry, if there is one.
    fn find(&self, path: &str) -> (found: Option<usize>)
        ensures
            match found {
                Some(i) => i < self.entries@.len() && self.entries@[i as int].0@ == path@,
                None => !self@.contains_key(path@),
            },
    {
        let mut index: usize = 0;
        while index < self.entries.len()
            invariant
                index <= self.entries@.len(),
                forall|i: int| 0 <= i < index ==> self.entries@[i].0@ != path@,
            decreases self.entries@.len() - index,
        {
            if same_text(self.entries[index].0.as_str(), path) {
                return Some(index);
            }
            index = index + 1;
        }
        None
    }

    /// What is remembered of a picture.
    pub fn get(&self, path: &str) -> (info: Option<&CachedInfo>)
        ensures
            match info {
                Some(found) => self@.contains_key(path@) && *found == self@[path@],
                None => !self@.contains_key(path@),
            },
    {
        proof {
            use_type_invariant(self);
        }
        match self.find(path) {
            Some(i) => {
                proof {
                    self.lemma_entry(i as int);
                }
                Some(&self.entries[i].1)
            },
            None => None,
        }
    }

    /// Remembers `info` for a picture, in place of whatever was remembered of it before.
    pub fn insert(&mut self, path: String, info: CachedInfo)
        ensures
            final(self)@ == old(self)@.insert(path@, info),
    {
        proof {
            use_type_invariant(&*self);
        }
        let ghost before = *self;
        let found = self.find(path.as_str());
        let mut entries: Vec<(String, CachedInfo)> = Vec::new();
        std::mem::swap(&mut entries, &mut self.entries);
        match found {
            Some(i) => {
                let ghost key = path@;
                entries.set(i, (path, info));
                self.entries = entries;
                proof {
                    assert forall|a: int, b: int| 0 <= a < b < self.entries@.len() implies self.entries@[a].0@
                        != self.entries@[b].0@ by {
                        if a != i && b != i {
                            assert(before.entries@[a].0@ != before.entries@[b].0@);
                        } else if a == i {
                            assert(before.entries@[a].0@ != before.entries@[b].0@);
                        } else {
                            assert(before.entries@[a].0@ != before.entries@[b].0@);
                        }
                    }
                    assert(self.entries@[i as int].0@ == key && self.entries@[i as int].1 == info);
                    assert forall|a: int| 0 <= a < self.entries@.len() && self.entries@[a].0@ != key implies exists|j: int|
                        0 <= j < before.entries@.len() && before.entries@[j] == self.entries@[a] by {
                        assert(before.entries@[a] == self.entries@[a]);
                    }
                    assert forall|j: int| 0 <= j < before.entries@.len() && before.entries@[j].0@ != key implies exists|a: int|
                        0 <= a < self.entries@.len() && self.entries@[a] == before.entries@[j] by {
                        assert(before.entries@[j] == self.entries@[j]);
                    }
                    self.lemma_map_after(before, key, info);
                }
            },
            None => {
                let ghost key = path@;
                entries.push((path, info));
                self.entries = entries;
                proof {
                    assert forall|a: int, b: int| 0 <= a < b < self.entries@.len() implies self.entries@[a].0@
                        != self.entries@[b].0@ by {
                        if b < before.entries@.len() {
                            assert(before.entries@[a].0@ != before.entries@[b].0@);
                        } else {
                            assert(before@.contains_key(before.entries@[a].0@));
                        }
                    }
                    let last = self.entries@.len() - 1;
                    assert(self.entries@[last].0@ == key && self.entries@[last].1 == info);
                    assert forall|a: int| 0 <= a < self.entries@.len() && self.entries@[a].0@ != key implies exists|j: int|
                        0 <= j < before.entries@.len() && before.entries@[j] == self.entries@[a] by {
                        assert(before.entries@[a] == self.entries@[a]);
                    }
                    assert forall|j: int| 0 <= j < before.entries@.len() && before.entries@[j].0@ != key implies exists|a: int|
                        0 <= a < self.entries@.len() && self.entries@[a] == before.entries@[j] by {
                        assert(before.entries@[j] == self.entries@[j]);
                    }
                    self.lemma_map_after(before, key, info);
                }
            },
        }
    }

    /// With unique keys on both sides, a memory that holds `info` for `key` and otherwise what
    /// `before` holds is `before` with that one entry put in.
    proof fn lemma_map_after(&self, before: PictureMemory, key: Seq<char>, info: CachedInfo)
        requires
            self.unique(),
            before.unique(),
            exists|i: int| 0 <= i < self.entries@.len() && self.entries@[i] .0@ == key && self.entries@[i].1 == info,
            forall|i: int|
                0 <= i < self.entries@.len() && self.entries@[i].0@ != key ==> exists|j: int|
                    0 <= j < before.entries@.len() && before.entries@[j] == self.entries@[i],
            forall|j: int|
                0 <= j < before.entries@.len() && before.entries@[j].0@ != key ==> exists|i: int|
                    0 <= i < self.entries@.len() && self.entries@[i] == before.entries@[j],
        ensures
            self@ == before@.insert(key, info),
    {
        assert forall|k: Seq<char>| #[trigger] self@.contains_key(k) == before@.insert(key, info).contains_key(k)
            by {
            if k != key {
                if self@.contains_key(k) {
                    let i = choose|i: int| 0 <= i < self.entries@.len() && self.entries@[i].0@ == k;
                    let j = choose|j: int| 0 <= j < before.entries@.len() && before.entries@[j] == self.entries@[i];
                    assert(before.entries@[j].0@ == k);
                }
                if before@.contains_key(k) {
                    let j = choose|j: int| 0 <= j < before.entries@.len() && before.entries@[j].0@ == k;
                    let i = choose|i: int| 0 <= i < self.entries@.len() && self.entries@[i] == before.entries@[j];
                    assert(self.entries@[i].0@ == k);
                }
            } else {
                let i = choose|i: int| 0 <= i < self.entries@.len() && self.entries@[i].0@ == key && self.entries@[i].1 == info;
                assert(self.entries@[i].0@ == k);
            }
        }
        assert forall|k: Seq<char>| #[trigger] self@.contains_key(k) implies self@[k] == before@.insert(key, info)[k]
            by {
            if k != key {
                let i = choose|i: int| 0 <= i < self.entries@.len() && self.entries@[i].0@ == k;
                let j = choose|j: int| 0 <= j < before.entries@.len() && before.entries@[j] == self.entries@[i];
                self.lemma_entry(i);
                before.lemma_entry(j);
            } else {
                let i = choose|i: int| 0 <= i < self.entries@.len() && self.entries@[i].0@ == key && self.entries@[i].1 == info;
                self.lemma_entry(i);
            }
        }
        assert(self@ =~= before@.insert(key, info));
    }
}

impl ThumbnailCache {
    /// A cache that remembers nothing yet, with the default time to live and batch size and
    /// as many workers as the machine's hardware threads call for.
    pub fn new(directory: String, parallelism: Option<usize>) -> (cache: Self)
        ensures
            cache.directory == directory,
            cache.ttl_ns == DEFAULT_TTL_NS,
            cache.batch_size == DEFAULT_BATCH_SIZE,
            cache.jobs == jobs_for(parallelism),
            cache.stats == ThumbnailStats::default_counts(),
            cache.failures@.len() == 0,
            cache.metadata@ == Map::<Seq<char>, CachedInfo>::empty(),
    {
        ThumbnailCache {
            directory,
            ttl_ns: DEFAULT_TTL_NS,
            batch_size: DEFAULT_BATCH_SIZE,
            jobs: default_jobs(parallelism),
            stats: ThumbnailStats::default(),
            failures: Vec::new(),
            metadata: PictureMemory::new(),
        }
    }

    /// Where the thumbnail of `source` at `size` lives.
    pub fn thumbnail_path(&self, source: &str, size: u32) -> (path: String)
        ensures
            path@ == joined(self.directory@, thumbnail_name(source@, size)),
    {
        thumbnail_file(self.directory.as_str(), source, size)
    }
}

impl ThumbnailStats {
    /// Every counter at zero.
    pub open spec fn default_counts() -> ThumbnailStats {
        ThumbnailStats { memory_hits: 0, memory_misses: 0, disk_hits: 0, disk_misses: 0, invalidations: 0 }
    }
}

/// Whether two caches differ in nothing but their counters and their list of failures.
pub open spec fn same_settings(first: &ThumbnailCache, second: &ThumbnailCache) -> bool {
    &&& first.directory == second.directory
    &&& first.ttl_ns == second.ttl_ns
    &&& first.batch_size == second.batch_size
    &&& first.jobs == second.jobs
    &&& first.metadata@ == second.metadata@
}

fn is_fresh(inserted: u128, now: u128, ttl: u128) -> (fresh_now: bool)
    ensures
        fresh_now == fresh(inserted, now, ttl),
{
    now <= inserted || now - inserted <= ttl
}

fn is_disk_current(file: Option<FileState>, stamp: Stamp) -> (current: bool)
    ensures
        current == disk_current(file, stamp),
{
    match file {
        Some(state) => state.size > 0 && match state.modified_ns {
            Some(modified) => modified >= stamp.modified_ns,
            None => false,
        },
        None => false,
    }
}

fn format_of(path: &str, header: &Option<(u32, u32, String)>) -> (format: String)
    ensures
        format@ == header_format(path@, *header),
{
    match header {
        Some((_, _, name)) => name.clone(),
        None => match crate::paths::path_extension(path) {
            Some(ext) => uppercase_ascii(ext.as_str()),
            None => {
                let empty = String::new();
                assert(ascii_uppercase(Seq::<char>::empty()) =~= Seq::<char>::empty());
                empty
            },
        },
    }
}

impl ThumbnailCache {
    /// Takes in one picture of a batch, given what reading its file gave (its stamp and what
    /// its header said, or why it could not be read), what the file system says of its
    /// thumbnail, the thumbnail size, and the time on the caller's monotonic clock.
    ///
    /// A picture that could not be read is recorded among the failures and left out. Any other
    /// is listed in `items`, measured from memory where what is remembered of it is current,
    /// else from its header; its position goes to `misses` where its thumbnail has to be
    /// made. The counters count each hit, miss and invalidation.
    pub fn take_in(
        &mut self,
        path: &str,
        probe: Result<(Stamp, Option<(u32, u32, String)>), String>,
        thumbnail: Option<FileState>,
        size: u32,
        now: u128,
        items: &mut Vec<ThumbnailInfo>,
        misses: &mut Vec<usize>,
    )
        requires
            has_room(old(self).stats),
        ensures
            same_settings(&*final(self), &*old(self)),
            match probe {
                Err(error) => {
                    &&& final(self).stats == old(self).stats
                    &&& final(self).failures@.len() == old(self).failures@.len() + 1
                    &&& final(self).failures@.take(old(self).failures@.len() as int)
                        == old(self).failures@
                    &&& final(self).failures@.last().0@ == path@
                    &&& final(self).failures@.last().1 == error
                    &&& final(items)@ == old(items)@
                    &&& final(misses)@ == old(misses)@
                },
                Ok((stamp, header)) => {
                    let hit = memory_hit(old(self).metadata@, old(self).ttl_ns, path@, stamp, now);
                    let values = listed(old(self).metadata@, old(self).ttl_ns, path@, stamp, header, now);
                    let disk_hit = disk_current(thumbnail, stamp);
                    &&& final(self).failures@ == old(self).failures@
                    &&& final(self).stats == counted(
                        old(self).stats,
                        hit,
                        old(self).metadata@.contains_key(path@),
                        disk_hit,
                        thumbnail is Some,
                    )
                    &&& final(items)@.len() == old(items)@.len() + 1
                    &&& final(items)@.take(old(items)@.len() as int) == old(items)@
                    &&& final(items)@.last().path@ == path@
                    &&& final(items)@.last().thumbnail@ == joined(
                        old(self).directory@,
                        thumbnail_name(path@, size),
                    )
                    &&& final(items)@.last().width == values.0
                    &&& final(items)@.last().height == values.1
                    &&& final(items)@.last().format@ == values.2
                    &&& final(items)@.last().size_bytes == stamp.size
                    &&& final(misses)@ == if disk_hit {
                        old(misses)@
                    } else {
                        old(misses)@.push(old(items)@.len() as usize)
                    }
                },
            },
    {
        let (stamp, header) = match probe {
            Ok(found) => found,
            Err(error) => {
                self.failures.push((String::from_str(path), error));
                return ;
            },
        };
        let format = format_of(path, &header);
        let known = self.metadata.get(path);
        let (width, height, format, hit) = match known {
            Some(cached) => {
                if cached.stamp == stamp && is_fresh(cached.inserted, now, self.ttl_ns) {
                    (cached.width, cached.height, cached.format.clone(), true)
                } else {
                    match header {
                        Some((width, height, _)) => (width, height, format, false),
                        None => (0, 0, format, false),
                    }
                }
            },
            None => match header {
                Some((width, height, _)) => (width, height, format, false),
                None => (0, 0, format, false),
            },
        };
        if hit {
            self.stats.memory_hits = self.stats.memory_hits + 1;
        } else {
            if known.is_some() {
                self.stats.invalidations = self.stats.invalidations + 1;
            }
            self.stats.memory_misses = self.stats.memory_misses + 1;
        }
        let thumbnail_path = self.thumbnail_path(path, size);
        if is_disk_current(thumbnail, stamp) {
            self.stats.disk_hits = self.stats.disk_hits + 1;
        } else {
            if thumbnail.is_some() {
                self.stats.invalidations = self.stats.invalidations + 1;
            }
            self.stats.disk_misses = self.stats.disk_misses + 1;
            misses.push(items.len());
        }
        let ghost before = items@;
        items.push(
            ThumbnailInfo {
                path: String::from_str(path),
                thumbnail: thumbnail_path,
                width,
                height,
                format,
                size_bytes: stamp.size,
            },
        );
        assert(items@.take(before.len() as int) =~= before);
    }

    /// Starts a batch at thumbnail side `size`: the failures of the last batch are forgotten,
    /// whatever comes of the call, and a size outside what a batch can make is refused.
    pub fn start_batch(&mut self, size: u32) -> (started: Result<(), String>)
        ensures
            final(self).failures@.len() == 0,
            started is Ok <==> MIN_THUMBNAIL_SIZE <= size <= MAX_THUMBNAIL_SIZE,
            started matches Err(message) ==> message@ == "thumbnail size must be between 1 and 16384"@,
            same_settings(&*final(self), &*old(self)),
            final(self).stats == old(self).stats,
    {
        self.failures = Vec::new();
        check_size(size)
    }

    /// Remembers what was read of a picture once its thumbnail is made, with the file's stamp
    /// and the time on the caller's monotonic clock.
    pub fn remember(&mut self, item: &ThumbnailInfo, stamp: Stamp, now: u128)
        ensures
            final(self).metadata@ == old(self).metadata@.insert(
                item.path@,
                CachedInfo {
                    stamp,
                    inserted: now,
                    width: item.width,
                    height: item.height,
                    format: item.format,
                },
            ),
            final(self).directory == old(self).directory,
            final(self).ttl_ns == old(self).ttl_ns,
            final(self).batch_size == old(self).batch_size,
            final(self).jobs == old(self).jobs,
            final(self).stats == old(self).stats,
            final(self).failures@ == old(self).failures@,
    {
        self.metadata.insert(
            item.path.clone(),
            CachedInfo {
                stamp,
                inserted: now,
                width: item.width,
                height: item.height,
                format: item.format.clone(),
            },
        );
    }
}

/// `slice::chunks`: the sequence cut into runs of `size`, the last run holding what is left.
pub open spec fn chunks_of(items: Seq<usize>, size: nat) -> Seq<Seq<usize>>
    decreases items.len(),
{
    if items.len() == 0 || size == 0 {
        Seq::empty()
    } else {
        let cut = if size < items.len() {
            size as int
        } else {
            items.len() as int
        };
        seq![items.take(cut)] + chunks_of(items.skip(cut), size)
    }
}

/// Every run holds something, and only what the sequence holds.
pub proof fn lemma_chunks_hold(items: Seq<usize>, size: nat)
    requires
        size > 0,
    ensures
        forall|k: int, j: int|
            0 <= k < chunks_of(items, size).len() && 0 <= j < chunks_of(items, size)[k].len() ==> items.contains(
                #[trigger] chunks_of(items, size)[k][j],
            ),
        forall|k: int| 0 <= k < chunks_of(items, size).len() ==> #[trigger] chunks_of(items, size)[k].len() > 0,
    decreases items.len(),
{
    if items.len() > 0 {
        let cut = if size < items.len() {
            size as int
        } else {
            items.len() as int
        };
        let rest = items.skip(cut);
        lemma_chunks_hold(rest, size);
        let chunks = chunks_of(items, size);
        assert(chunks == seq![items.take(cut)] + chunks_of(rest, size));
        assert forall|k: int, j: int| 0 <= k < chunks.len() && 0 <= j < chunks[k].len() implies items.contains(
            #[trigger] chunks[k][j],
        ) by {
            if k == 0 {
                assert(chunks[k][j] == items[j]);
            } else {
                assert(chunks[k] == chunks_of(rest, size)[k - 1]);
                let x = chunks[k][j];
                assert(rest.contains(x));
                let i = choose|i: int| 0 <= i < rest.len() && rest[i] == x;
                assert(items[i + cut] == x);
            }
        }
        assert forall|k: int| 0 <= k < chunks.len() implies #[trigger] chunks[k].len() > 0 by {
            if k > 0 {
                assert(chunks[k] == chunks_of(rest, size)[k - 1]);
            }
        }
    }
}

/// The `j`th entry of the `k`th run is the entry at `k * size + j` of the sequence.
pub proof fn lemma_chunk_position(items: Seq<usize>, size: nat, k: int, j: int)
    requires
        size > 0,
        0 <= k < chunks_of(items, size).len(),
        0 <= j < chunks_of(items, size)[k].len(),
    ensures
        j < size,
        0 <= k * size + j < items.len(),
        chunks_of(items, size)[k][j] == items[k * size + j],
    decreases items.len(),
{
    let cut = if size < items.len() {
        size as int
    } else {
        items.len() as int
    };
    let rest = items.skip(cut);
    let chunks = chunks_of(items, size);
    assert(items.len() > 0);
    assert(chunks == seq![items.take(cut)] + chunks_of(rest, size));
    if k == 0 {
        assert(chunks[0] == items.take(cut));
        assert(0 * size + j == j) by (nonlinear_arith);
    } else {
        let inner = chunks_of(rest, size);
        assert(chunks[k] == inner[k - 1]);
        if rest.len() == 0 {
            assert(inner.len() == 0);
        }
        assert(cut == size);
        lemma_chunk_position(rest, size, k - 1, j);
        let m = (k - 1) * size + j;
        assert(rest[m] == items[m + cut]);
        assert(m + cut == k * size + j) by (nonlinear_arith)
            requires
                cut == size,
                m == (k - 1) * size + j,
        ;
    }
}

/// Runs cut from a sequence that holds nothing twice hold nothing twice among them.
pub proof fn lemma_chunks_distinct(items: Seq<usize>, size: nat)
    requires
        size > 0,
        items.no_duplicates(),
    ensures
        forall|a: int, b: int, c: int, d: int|
            0 <= a < chunks_of(items, size).len() && 0 <= b < chunks_of(items, size)[a].len() && 0 <= c
                < chunks_of(items, size).len() && 0 <= d < chunks_of(items, size)[c].len() && (a != c || b
                != d) ==> #[trigger] chunks_of(items, size)[a][b] != #[trigger] chunks_of(items, size)[c][d],
{
    let chunks = chunks_of(items, size);
    assert forall|a: int, b: int, c: int, d: int|
        0 <= a < chunks.len() && 0 <= b < chunks[a].len() && 0 <= c < chunks.len() && 0 <= d < chunks[c].len() && (
        a != c || b != d) implies #[trigger] chunks[a][b] != #[trigger] chunks[c][d] by {
        lemma_chunk_position(items, size, a, b);
        lemma_chunk_position(items, size, c, d);
        let x = a * size + b;
        let y = c * size + d;
        if x == y {
            assert(a == c && b == d) by (nonlinear_arith)
                requires
                    x == a * size + b,
                    y == c * size + d,
                    x == y,
                    0 <= b < size,
                    0 <= d < size,
                    0 <= a,
                    0 <= c,
            ;
        }
    }
}

/// The pictures each command thumbnails: the misses in runs of the batch size, or one by one
/// where the batch size is zero.
pub fn batches(misses: &[usize], batch_size: usize) -> (runs: Vec<Vec<usize>>)
    ensures
        runs@.map_values(|run: Vec<usize>| run@) == chunks_of(
            misses@,
            if batch_size < 1 { 1 } else { batch_size as nat },
        ),
{
    let size: usize = if batch_size < 1 {
        1
    } else {
        batch_size
    };
    let mut runs: Vec<Vec<usize>> = Vec::new();
    let mut from: usize = 0;
    assert(misses@.skip(0) =~= misses@);
    while from < misses.len()
        invariant
            size >= 1,
            size == if batch_size < 1 { 1 } else { batch_size as nat },
            from <= misses@.len(),
            runs@.map_values(|run: Vec<usize>| run@) + chunks_of(misses@.skip(from as int), size as nat)
                == chunks_of(misses@, size as nat),
        decreases misses@.len() - from,
    {
        let ghost rest = misses@.skip(from as int);
        let to: usize = if size < misses.len() - from {
            from + size
        } else {
            misses.len()
        };
        let mut run: Vec<usize> = Vec::new();
        let mut index: usize = from;
        while index < to
            invariant
                from <= index <= to <= misses@.len(),
                run@ == misses@.subrange(from as int, index as int),
            decreases to - index,
        {
            run.push(misses[index]);
            index = index + 1;
            assert(run@ =~= misses@.subrange(from as int, index as int));
        }
        let ghost before = runs@.map_values(|run: Vec<usize>| run@);
        runs.push(run);
        proof {
            assert(rest.take(to - from) =~= misses@.subrange(from as int, to as int));
            assert(rest.skip(to - from) =~= misses@.skip(to as int));
            assert(runs@.map_values(|run: Vec<usize>| run@) =~= before.push(
                misses@.subrange(from as int, to as int),
            ));
        }
        from = to;
    }
    assert(misses@.skip(from as int) =~= Seq::<usize>::empty());
    assert(runs@.map_values(|run: Vec<usize>| run@) + chunks_of(misses@.skip(from as int), size as nat)
        =~= runs@.map_values(|run: Vec<usize>| run@));
    runs
}

/// The first `count` pictures without those whose position is among `dropped`, in order.
pub open spec fn kept(items: Seq<ThumbnailInfo>, dropped: Seq<usize>, count: int) -> Seq<ThumbnailInfo>
    decreases count,
{
    if count <= 0 {
        Seq::empty()
    } else if dropped.contains((count - 1) as usize) {
        kept(items, dropped, count - 1)
    } else {
        kept(items, dropped, count - 1).push(items[count - 1])
    }
}

fn copy_info(item: &ThumbnailInfo) -> (copy: ThumbnailInfo)
    ensures
        copy == *item,
{
    ThumbnailInfo {
        path: item.path.clone(),
        thumbnail: item.thumbnail.clone(),
        width: item.width,
        height: item.height,
        format: item.format.clone(),
        size_bytes: item.size_bytes,
    }
}

fn holds(list: &[usize], value: usize) -> (found: bool)
    ensures
        found == list@.contains(value),
{
    let mut index: usize = 0;
    while index < list.len()
        invariant
            index <= list@.len(),
            forall|i: int| 0 <= i < index ==> list@[i] != value,
        decreases list@.len() - index,
    {
        if list[index] == value {
            return true;
        }
        index = index + 1;
    }
    false
}

/// The pictures of a batch that were not dropped, in order.
pub fn retained(items: &[ThumbnailInfo], dropped: &[usize]) -> (kept_items: Vec<ThumbnailInfo>)
    ensures
        kept_items@ == kept(items@, dropped@, items@.len() as int),
{
    let mut result: Vec<ThumbnailInfo> = Vec::new();
    let mut index: usize = 0;
    while index < items.len()
        invariant
            index <= items@.len(),
            result@ == kept(items@, dropped@, index as int),
        decreases items@.len() - index,
    {
        if !holds(dropped, index) {
            result.push(copy_info(&items[index]));
        }
        index = index + 1;
    }
    result
}

/// A command ends by writing the thumbnail of its last picture: the thumbnails of the others
/// are written and dropped before it, so only the last stands as the command's output.
pub proof fn lemma_command_ends_with_last_thumbnail(
    items: Seq<ThumbnailInfo>,
    members: Seq<usize>,
    size: u32,
)
    requires
        members.len() > 0,
        forall|k: int| 0 <= k < members.len() ==> members[k] < items.len(),
    ensures
        command_args(items, members, size, members.len() as int).last()
            == items[members.last() as int].thumbnail@,
{
    let count = members.len() as int;
    let item = items[members[count - 1] as int];
    let tail = member_args(item, size, true);
    assert(tail.last() == item.thumbnail@);
    assert(command_args(items, members, size, count) == command_args(items, members, size, count - 1)
        + tail);
}

/// What is remembered of a picture is what a later batch lists it with: read again with the
/// same stamp within the time to live, it is a hit in memory, measured as it was remembered,
/// whatever its header says.
pub proof fn lemma_remembered_picture_is_reused(
    cached: Map<Seq<char>, CachedInfo>,
    ttl: u128,
    item: ThumbnailInfo,
    stamp: Stamp,
    now: u128,
    later: u128,
    header: Option<(u32, u32, String)>,
)
    requires
        fresh(now, later, ttl),
    ensures
        ({
            let remembered = cached.insert(
                item.path@,
                CachedInfo { stamp, inserted: now, width: item.width, height: item.height, format: item.format },
            );
            &&& memory_hit(remembered, ttl, item.path@, stamp, later)
            &&& listed(remembered, ttl, item.path@, stamp, header, later) == (item.width, item.height, item.format@)
        }),
{
}

} // verus!
