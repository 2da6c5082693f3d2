//! File names: the extension a path ends in, and whether it names a picture the editor can
//! import.
use crate::text::{ascii_lower, ascii_lowercase, chars_of, equals_text, lowercase_ascii};
use vstd::prelude::*;

verus! {

/// The components of a path: the pieces between `/` that are neither empty nor `.`.
pub open spec fn components(path: Seq<char>) -> Seq<Seq<char>>
    decreases path.len(),
{
    if path.len() == 0 {
        Seq::empty()
    } else {
        let start = last_separator_end(path, path.len() as int);
        proof {
            lemma_last_separator_end(path, path.len() as int);
        }
        let piece = path.subrange(start, path.len() as int);
        let before = if start > 0 {
            path.take(start - 1)
        } else {
            Seq::empty()
        };
        let rest = components(before);
        if piece.len() == 0 || piece == seq!['.'] {
            rest
        } else {
            rest.push(piece)
        }
    }
}

/// The index just after the last `/` before `end`, or zero.
pub open spec fn last_separator_end(path: Seq<char>, end: int) -> int
    decreases end,
{
    if end <= 0 || end > path.len() {
        0
    } else if path[end - 1] == '/' {
        end
    } else {
        last_separator_end(path, end - 1)
    }
}

/// `Path::file_name`: the last component, unless it is `..` or there is none.
pub open spec fn file_name(path: Seq<char>) -> Option<Seq<char>> {
    let parts = components(path);
    if parts.len() == 0 || parts.last() == seq!['.', '.'] {
        None
    } else {
        Some(parts.last())
    }
}

/// `Path::extension`: what follows the last dot of the file name, when the name has a dot
/// that is not its first character.
pub open spec fn extension(path: Seq<char>) -> Option<Seq<char>> {
    match file_name(path) {
        None => None,
        Some(name) => {
            let after_dot = last_dot_end(name, name.len() as int);
            if after_dot <= 1 {
                None
            } else {
                Some(name.skip(after_dot))
            }
        },
    }
}

/// The index just after the last `.` before `end`, or zero.
pub open spec fn last_dot_end(name: Seq<char>, end: int) -> int
    decreases end,
{
    if end <= 0 || end > name.len() {
        0
    } else if name[end - 1] == '.' {
        end
    } else {
        last_dot_end(name, end - 1)
    }
}

/// Where the last separator ends: within bounds, just after a `/`, with no `/` after it.
pub proof fn lemma_last_separator_end(path: Seq<char>, end: int)
    requires
        0 <= end <= path.len(),
    ensures
        0 <= last_separator_end(path, end) <= end,
        last_separator_end(path, end) > 0 ==> path[last_separator_end(path, end) - 1] == '/',
        forall|i: int| last_separator_end(path, end) <= i < end ==> path[i] != '/',
    decreases end,
{
    if end > 0 && path[end - 1] != '/' {
        lemma_last_separator_end(path, end - 1);
    }
}

proof fn lemma_last_dot_end(name: Seq<char>, end: int)
    requires
        0 <= end <= name.len(),
    ensures
        0 <= last_dot_end(name, end) <= end,
    decreases end,
{
    if end > 0 && name[end - 1] != '.' {
        lemma_last_dot_end(name, end - 1);
    }
}

fn separator_end(path: &Vec<char>, end: usize) -> (start: usize)
    requires
        end <= path@.len(),
    ensures
        start == last_separator_end(path@, end as int),
{
    let mut start = end;
    while start > 0 && path[start - 1] != '/'
        invariant
            start <= end <= path@.len(),
            last_separator_end(path@, start as int) == last_separator_end(path@, end as int),
        decreases start,
    {
        start = start - 1;
    }
    start
}

/// The last component of the first `end` characters, or nothing when there is none.
fn last_component(path: &Vec<char>, end: usize) -> (found: Option<(usize, usize)>)
    requires
        end <= path@.len(),
    ensures
        match found {
            Some((from, to)) => {
                &&& from <= to <= end
                &&& components(path@.take(end as int)).len() > 0
                &&& components(path@.take(end as int)).last() == path@.subrange(from as int, to as int)
            },
            None => components(path@.take(end as int)).len() == 0,
        },
    decreases end,
{
    if end == 0 {
        assert(path@.take(0).len() == 0);
        return None;
    }
    let ghost prefix = path@.take(end as int);
    let start = separator_end(path, end);
    proof {
        lemma_last_separator_end(path@, end as int);
        lemma_separator_prefix(path@, end as int);
    }
    let dot_only = end - start == 1 && path[start] == '.';
    proof {
        let piece = prefix.subrange(start as int, end as int);
        assert(piece =~= path@.subrange(start as int, end as int));
        if piece == seq!['.'] {
            assert(piece[0] == path@[start as int]);
        }
        if dot_only {
            assert(piece =~= seq!['.']);
        }
        if start > 0 {
            assert(prefix.take(start - 1) =~= path@.take(start - 1));
        } else {
            assert(path@.take(0) =~= Seq::<char>::empty());
        }
    }
    if start == end || dot_only {
        if start == 0 {
            proof {
                assert(prefix.subrange(0, end as int) =~= prefix);
                assert(components(Seq::<char>::empty()).len() == 0);
            }
            return None;
        }
        last_component(path, start - 1)
    } else {
        Some((start, end))
    }
}

proof fn lemma_separator_prefix(path: Seq<char>, end: int)
    requires
        0 < end <= path.len(),
    ensures
        last_separator_end(path.take(end), end) == last_separator_end(path, end),
    decreases end,
{
    let prefix = path.take(end);
    lemma_separator_prefix_at(path, end, end);
}

proof fn lemma_separator_prefix_at(path: Seq<char>, end: int, at: int)
    requires
        0 <= at <= end <= path.len(),
    ensures
        last_separator_end(path.take(end), at) == last_separator_end(path, at),
    decreases at,
{
    if at > 0 {
        lemma_separator_prefix_at(path, end, at - 1);
    }
}

/// The extension of a path, as a range of its characters.
fn extension_range(path: &Vec<char>) -> (found: Option<(usize, usize)>)
    ensures
        match extension(path@) {
            Some(ext) => found matches Some((from, to)) && from <= to <= path@.len() && path@.subrange(
                from as int,
                to as int,
            ) == ext,
            None => found is None,
        },
{
    assert(path@.take(path@.len() as int) =~= path@);
    match last_component(path, path.len()) {
        None => None,
        Some((from, to)) => {
            let ghost name = path@.subrange(from as int, to as int);
            if to - from == 2 && path[from] == '.' && path[from + 1] == '.' {
                assert(name =~= seq!['.', '.']);
                return None;
            }
            proof {
                if name == seq!['.', '.'] {
                    assert(name.len() == 2);
                    assert(name[0] == '.' && name[1] == '.');
                    assert(name[0] == path@[from as int]);
                    assert(name[1] == path@[from + 1]);
                }
            }
            let mut after_dot = to;
            while after_dot > from && path[after_dot - 1] != '.'
                invariant
                    from <= after_dot <= to <= path@.len(),
                    name == path@.subrange(from as int, to as int),
                    last_dot_end(name, after_dot - from) == last_dot_end(name, name.len() as int),
                decreases after_dot,
            {
                after_dot = after_dot - 1;
            }
            if after_dot - from <= 1 {
                None
            } else {
                assert(name.skip(after_dot - from) =~= path@.subrange(after_dot as int, to as int));
                Some((after_dot, to))
            }
        },
    }
}

/// The extension of a path, if its file name has one.
pub fn path_extension(path: &str) -> (ext: Option<String>)
    ensures
        match extension(path@) {
            Some(e) => ext matches Some(s) && s@ == e,
            None => ext is None,
        },
{
    let chars = chars_of(path);
    match extension_range(&chars) {
        Some((from, to)) => Some(crate::text::string_of(&chars, from, to)),
        None => None,
    }
}

/// The image extensions the editor accepts.
pub open spec fn image_extensions() -> Seq<Seq<char>> {
    seq![
        "jpg"@, "jpeg"@, "png"@, "gif"@, "webp"@, "avif"@, "svg"@, "svgz"@, "ico"@, "bmp"@,
        "tif"@, "tiff"@, "heic"@, "heif"@, "jp2"@, "j2k"@, "jpf"@, "jpx"@, "jxl"@, "psd"@,
        "psb"@, "exr"@, "hdr"@, "dpx"@, "cin"@, "cr2"@, "cr3"@, "nef"@, "nrw"@, "arw"@, "dng"@,
        "orf"@, "raf"@, "rw2"@, "pef"@, "srw"@, "x3f"@, "3fr"@, "kdc"@, "mrw"@, "erf"@, "rwl"@,
        "tga"@, "pcx"@, "ppm"@, "pbm"@, "pgm"@, "pnm"@, "sgi"@, "rgb"@, "rgba"@, "miff"@,
        "mng"@, "jng"@, "xbm"@, "xpm"@, "xwd"@, "sun"@, "iff"@, "lbm"@, "wbmp"@, "pict"@,
        "pct"@, "dds"@, "fits"@, "fts"@,
    ]
}

/// The image extensions the editor accepts.
pub fn image_extension_list() -> (list: Vec<&'static str>)
    ensures
        list@.map_values(|name: &str| name@) == image_extensions(),
{
    let list: Vec<&'static str> = vec![
        "jpg", "jpeg", "png", "gif", "webp", "avif", "svg", "svgz", "ico", "bmp", "tif", "tiff",
        "heic", "heif", "jp2", "j2k", "jpf", "jpx", "jxl", "psd", "psb", "exr", "hdr", "dpx", "cin",
        "cr2", "cr3", "nef", "nrw", "arw", "dng", "orf", "raf", "rw2", "pef", "srw", "x3f", "3fr",
        "kdc", "mrw", "erf", "rwl", "tga", "pcx", "ppm", "pbm", "pgm", "pnm", "sgi", "rgb", "rgba",
        "miff", "mng", "jng", "xbm", "xpm", "xwd", "sun", "iff", "lbm", "wbmp", "pict", "pct", "dds",
        "fits", "fts",
    ];
    assert(list@.map_values(|name: &str| name@) =~= image_extensions());
    list
}

/// Whether a path names a picture: its extension, in any case, is one the editor accepts.
pub open spec fn is_image_name(path: Seq<char>) -> bool {
    match extension(path) {
        Some(ext) => image_extensions().contains(ascii_lowercase(ext)),
        None => false,
    }
}

/// Whether a path names a picture does not depend on the case of its extension.
pub proof fn lemma_image_names_ignore_case(path: Seq<char>, other: Seq<char>)
    requires
        extension(path) is Some,
        extension(other) is Some,
        ascii_lowercase(extension(path).unwrap()) == ascii_lowercase(extension(other).unwrap()),
    ensures
        is_image_name(path) == is_image_name(other),
{
}

/// Whether two texts differ at most in the case of ASCII letters.
pub open spec fn same_but_case(first: Seq<char>, second: Seq<char>) -> bool {
    first.len() == second.len() && forall|i: int|
        0 <= i < first.len() ==> ascii_lower(#[trigger] first[i]) == ascii_lower(second[i])
}

/// A character whose small form is a separator or a dot is that character.
proof fn lemma_lower_keeps_marks(c: char)
    ensures
        ascii_lower(c) == '/' <==> c == '/',
        ascii_lower(c) == '.' <==> c == '.',
{
    if 'A' <= c <= 'Z' {
        assert(('A' as u32) <= (c as u32) <= ('Z' as u32));
        let lowered = ((c as u32) + 32) as char;
        assert(lowered as u32 == (c as u32) + 32);
        assert(lowered != '/' && lowered != '.');
    }
}

proof fn lemma_marks_agree(first: Seq<char>, second: Seq<char>, i: int)
    requires
        same_but_case(first, second),
        0 <= i < first.len(),
    ensures
        first[i] == '/' <==> second[i] == '/',
        first[i] == '.' <==> second[i] == '.',
{
    lemma_lower_keeps_marks(first[i]);
    lemma_lower_keeps_marks(second[i]);
}

proof fn lemma_separator_agrees(first: Seq<char>, second: Seq<char>, end: int)
    requires
        same_but_case(first, second),
    ensures
        last_separator_end(first, end) == last_separator_end(second, end),
    decreases end,
{
    if 0 < end <= first.len() {
        lemma_marks_agree(first, second, end - 1);
        lemma_separator_agrees(first, second, end - 1);
    }
}

proof fn lemma_dot_agrees(first: Seq<char>, second: Seq<char>, end: int)
    requires
        same_but_case(first, second),
    ensures
        last_dot_end(first, end) == last_dot_end(second, end),
    decreases end,
{
    if 0 < end <= first.len() {
        lemma_marks_agree(first, second, end - 1);
        lemma_dot_agrees(first, second, end - 1);
    }
}

proof fn lemma_parts_agree(first: Seq<char>, second: Seq<char>, from: int, to: int)
    requires
        same_but_case(first, second),
        0 <= from <= to <= first.len(),
    ensures
        same_but_case(first.subrange(from, to), second.subrange(from, to)),
{
    assert forall|i: int| 0 <= i < to - from implies ascii_lower(#[trigger] first.subrange(from, to)[i])
        == ascii_lower(second.subrange(from, to)[i]) by {
        assert(first.subrange(from, to)[i] == first[from + i]);
        assert(second.subrange(from, to)[i] == second[from + i]);
    }
}

proof fn lemma_components_agree(first: Seq<char>, second: Seq<char>)
    requires
        same_but_case(first, second),
    ensures
        components(first).len() == components(second).len(),
        forall|k: int|
            0 <= k < components(first).len() ==> same_but_case(#[trigger] components(first)[k], components(second)[k]),
    decreases first.len(),
{
    if first.len() > 0 {
        let start = last_separator_end(first, first.len() as int);
        lemma_separator_agrees(first, second, first.len() as int);
        lemma_last_separator_end(first, first.len() as int);
        let piece = first.subrange(start, first.len() as int);
        let other = second.subrange(start, second.len() as int);
        lemma_parts_agree(first, second, start, first.len() as int);
        let before = if start > 0 {
            first.take(start - 1)
        } else {
            Seq::empty()
        };
        let other_before = if start > 0 {
            second.take(start - 1)
        } else {
            Seq::empty()
        };
        if start > 0 {
            lemma_parts_agree(first, second, 0, start - 1);
            assert(first.subrange(0, start - 1) =~= before);
            assert(second.subrange(0, start - 1) =~= other_before);
        }
        lemma_components_agree(before, other_before);
        if piece.len() == 1 {
            lemma_marks_agree(piece, other, 0);
        }
        assert((piece.len() == 0 || piece == seq!['.']) == (other.len() == 0 || other == seq!['.'])) by {
            if piece.len() == 1 {
                if piece == seq!['.'] {
                    assert(piece[0] == '.');
                    assert(other =~= seq!['.']);
                }
                if other == seq!['.'] {
                    assert(other[0] == '.');
                    assert(piece =~= seq!['.']);
                }
            }
        }
    }
}

proof fn lemma_extensions_agree(first: Seq<char>, second: Seq<char>)
    requires
        same_but_case(first, second),
    ensures
        extension(first) is Some <==> extension(second) is Some,
        extension(first) is Some ==> same_but_case(extension(first).unwrap(), extension(second).unwrap()),
{
    lemma_components_agree(first, second);
    let parts = components(first);
    let others = components(second);
    if parts.len() > 0 {
        let name = parts.last();
        let other = others.last();
        assert(same_but_case(name, other));
        assert((name == seq!['.', '.']) == (other == seq!['.', '.'])) by {
            if name.len() == 2 {
                lemma_marks_agree(name, other, 0);
                lemma_marks_agree(name, other, 1);
                if name == seq!['.', '.'] {
                    assert(name[0] == '.' && name[1] == '.');
                    assert(other =~= seq!['.', '.']);
                }
                if other == seq!['.', '.'] {
                    assert(other[0] == '.' && other[1] == '.');
                    assert(name =~= seq!['.', '.']);
                }
            }
        }
        lemma_dot_agrees(name, other, name.len() as int);
        let after_dot = last_dot_end(name, name.len() as int);
        lemma_last_dot_end(name, name.len() as int);
        if after_dot > 1 {
            lemma_parts_agree(name, other, after_dot, name.len() as int);
            assert(name.skip(after_dot) =~= name.subrange(after_dot, name.len() as int));
            assert(other.skip(after_dot) =~= other.subrange(after_dot, other.len() as int));
        }
    }
}

/// Two paths that differ at most in the case of ASCII letters, anywhere in them, name pictures
/// alike: whether a path names a picture does not depend on case.
pub proof fn lemma_image_paths_ignore_case(path: Seq<char>, other: Seq<char>)
    requires
        same_but_case(path, other),
    ensures
        is_image_name(path) == is_image_name(other),
{
    lemma_extensions_agree(path, other);
    if extension(path) is Some {
        let first = extension(path).unwrap();
        let second = extension(other).unwrap();
        assert(ascii_lowercase(first) =~= ascii_lowercase(second));
    }
}

/// A text and its ASCII capitals differ only in case.
pub proof fn lemma_uppercase_only_changes_case(text: Seq<char>)
    ensures
        same_but_case(text, crate::text::ascii_uppercase(text)),
{
    let upper = crate::text::ascii_uppercase(text);
    assert forall|i: int| 0 <= i < text.len() implies ascii_lower(#[trigger] text[i]) == ascii_lower(upper[i]) by {
        let c = text[i];
        if 'a' <= c <= 'z' {
            let raised = ((c as u32) - 32) as char;
            assert(raised as u32 == (c as u32) - 32);
            assert('A' <= raised <= 'Z');
            let lowered = ((raised as u32) + 32) as char;
            assert(lowered as u32 == c as u32);
            vstd::utf8::char_u32_cast(lowered, c as u32);
            vstd::utf8::char_u32_cast(c, c as u32);
        }
    }
}

/// A file named with an extension names a picture alike whatever the case of the extension.
pub proof fn lemma_extension_case_is_ignored(stem: Seq<char>, ext: Seq<char>)
    ensures
        is_image_name(stem + seq!['.'] + ext) == is_image_name(stem + seq!['.'] + crate::text::ascii_uppercase(ext)),
{
    let first = stem + seq!['.'] + ext;
    let second = stem + seq!['.'] + crate::text::ascii_uppercase(ext);
    lemma_uppercase_only_changes_case(ext);
    assert forall|i: int| 0 <= i < first.len() implies ascii_lower(#[trigger] first[i]) == ascii_lower(second[i]) by {
        if i > stem.len() {
            assert(first[i] == ext[i - stem.len() - 1]);
            assert(second[i] == crate::text::ascii_uppercase(ext)[i - stem.len() - 1]);
        } else {
            assert(first[i] == second[i]);
        }
    }
    lemma_image_paths_ignore_case(first, second);
}

/// True when a path looks like an image the editor can import.
pub fn is_image_path(path: &str) -> (image: bool)
    ensures
        image == is_image_name(path@),
{
    let chars = chars_of(path);
    match extension_range(&chars) {
        None => false,
        Some((from, to)) => {
            let mut ext: Vec<char> = Vec::new();
            let mut index = from;
            while index < to
                invariant
                    from <= index <= to <= chars@.len(),
                    ext@ == chars@.subrange(from as int, index as int),
                decreases to - index,
            {
                ext.push(chars[index]);
                index = index + 1;
                assert(ext@ =~= chars@.subrange(from as int, index as int));
            }
            assert(extension(path@) == Some(ext@));
            let lower = lowercase_ascii(&ext);
            let list = image_extension_list();
            let ghost names = list@.map_values(|name: &str| name@);
            let mut k: usize = 0;
            while k < list.len()
                invariant
                    k <= list@.len(),
                    names == list@.map_values(|name: &str| name@),
                    names == image_extensions(),
                    ext@ == chars@.subrange(from as int, to as int),
                    lower@ == ascii_lowercase(ext@),
                    chars@ == path@,
                    extension(path@) == Some(ext@),
                    forall|i: int| 0 <= i < k ==> names[i] != lower@,
                decreases list@.len() - k,
            {
                if equals_text(&lower, list[k]) {
                    assert(names[k as int] == lower@);
                    assert(ext@ == extension(path@).unwrap());
                    assert(image_extensions().contains(ascii_lowercase(ext@)));
                    return true;
                }
                k = k + 1;
            }
            false
        },
    }
}

/// `is_image_path` under the name the importer uses for it.
pub fn is_image(path: &str) -> (image: bool)
    ensures
        image == is_image_name(path@),
{
    is_image_path(path)
}

/// `Path::file_stem`: the file name without its extension; the whole name where it has no
/// dot, or only a leading one.
pub open spec fn file_stem(path: Seq<char>) -> Option<Seq<char>> {
    match file_name(path) {
        None => None,
        Some(name) => {
            let after_dot = last_dot_end(name, name.len() as int);
            if after_dot <= 1 {
                Some(name)
            } else {
                Some(name.take(after_dot - 1))
            }
        },
    }
}

/// The window title: the workflow's file stem, or `Untitled`, after an asterisk while there
/// are unsaved edits.
pub open spec fn title_text(path: Option<Seq<char>>, dirty: bool) -> Seq<char> {
    let name = match path {
        Some(p) => match file_stem(p) {
            Some(stem) => stem,
            None => "Untitled"@,
        },
        None => "Untitled"@,
    };
    (if dirty {
        "*"@
    } else {
        Seq::empty()
    }) + name + " - Bite"@
}

/// The file stem of a path, as a range of its characters.
fn stem_range(path: &Vec<char>) -> (found: Option<(usize, usize)>)
    ensures
        match file_stem(path@) {
            Some(stem) => found matches Some((from, to)) && from <= to <= path@.len() && path@.subrange(
                from as int,
                to as int,
            ) == stem,
            None => found is None,
        },
{
    assert(path@.take(path@.len() as int) =~= path@);
    match last_component(path, path.len()) {
        None => None,
        Some((from, to)) => {
            let ghost name = path@.subrange(from as int, to as int);
            if to - from == 2 && path[from] == '.' && path[from + 1] == '.' {
                assert(name =~= seq!['.', '.']);
                return None;
            }
            proof {
                if name == seq!['.', '.'] {
                    assert(name.len() == 2);
                    assert(name[0] == path@[from as int]);
                    assert(name[1] == path@[from + 1]);
                }
            }
            let mut after_dot = to;
            while after_dot > from && path[after_dot - 1] != '.'
                invariant
                    from <= after_dot <= to <= path@.len(),
                    name == path@.subrange(from as int, to as int),
                    last_dot_end(name, after_dot - from) == last_dot_end(name, name.len() as int),
                decreases after_dot,
            {
                after_dot = after_dot - 1;
            }
            if after_dot - from <= 1 {
                Some((from, to))
            } else {
                assert(name.take(after_dot - from - 1) =~= path@.subrange(from as int, after_dot - 1));
                Some((from, after_dot - 1))
            }
        },
    }
}

/// The window title, with an asterisk while the workflow has unsaved edits.
pub fn window_title(path: Option<&str>, dirty: bool) -> (title: String)
    ensures
        title@ == title_text(
            match path {
                Some(p) => Some(p@),
                None => None,
            },
            dirty,
        ),
{
    let mut title = String::new();
    if dirty {
        title.push('*');
    }
    let ghost start = title@;
    let ghost spec_path = match path {
        Some(p) => Some(p@),
        None => None::<Seq<char>>,
    };
    let ghost name = match spec_path {
        Some(p) => match file_stem(p) {
            Some(stem) => stem,
            None => "Untitled"@,
        },
        None => "Untitled"@,
    };
    match path {
        Some(p) => {
            let chars = chars_of(p);
            match stem_range(&chars) {
                Some((from, to)) => {
                    let mut index = from;
                    while index < to
                        invariant
                            from <= index <= to <= chars@.len(),
                            title@ == start + chars@.subrange(from as int, index as int),
                        decreases to - index,
                    {
                        title.push(chars[index]);
                        index = index + 1;
                        assert(title@ =~= start + chars@.subrange(from as int, index as int));
                    }
                },
                None => {
                    crate::text::push_str(&mut title, "Untitled");
                },
            }
        },
        None => {
            crate::text::push_str(&mut title, "Untitled");
        },
    }
    assert(title@ == start + name);
    crate::text::push_str(&mut title, " - Bite");
    proof {
        reveal_strlit("*");
        if !dirty {
            assert(start =~= Seq::<char>::empty());
        } else {
            assert(start =~= "*"@);
        }
    }
    assert(title@ =~= title_text(spec_path, dirty));
    title
}

/// The file name of a path, or nothing where it has none.
pub open spec fn name_or_empty(path: Seq<char>) -> Seq<char> {
    match file_name(path) {
        Some(name) => name,
        None => Seq::empty(),
    }
}

/// The file name of a path, or the empty text where it has none.
pub fn file_name_text(path: &str) -> (name: String)
    ensures
        name@ == name_or_empty(path@),
{
    let chars = chars_of(path);
    assert(chars@.take(chars@.len() as int) =~= chars@);
    match last_component(&chars, chars.len()) {
        None => String::new(),
        Some((from, to)) => {
            if to - from == 2 && chars[from] == '.' && chars[from + 1] == '.' {
                assert(chars@.subrange(from as int, to as int) =~= seq!['.', '.']);
                return String::new();
            }
            proof {
                let name = chars@.subrange(from as int, to as int);
                if name == seq!['.', '.'] {
                    assert(name.len() == 2);
                    assert(name[0] == chars@[from as int]);
                    assert(name[1] == chars@[from + 1]);
                }
            }
            crate::text::string_of(&chars, from, to)
        },
    }
}

/// The file names of a branch's pictures, in order, for the inspector previews.
pub fn active_names(paths: &[String]) -> (names: Vec<String>)
    ensures
        names@.map_values(|name: String| name@) == paths@.map_values(|path: String| name_or_empty(path@)),
{
    let mut names: Vec<String> = Vec::new();
    let mut index: usize = 0;
    while index < paths.len()
        invariant
            index <= paths@.len(),
            names@.map_values(|name: String| name@) == paths@.take(index as int).map_values(
                |path: String| name_or_empty(path@),
            ),
        decreases paths@.len() - index,
    {
        let name = file_name_text(paths[index].as_str());
        let ghost before = names@.map_values(|name: String| name@);
        names.push(name);
        proof {
            assert(names@.map_values(|name: String| name@) =~= before.push(name_or_empty(paths@[index as int]@)));
            assert(paths@.take(index + 1).map_values(|path: String| name_or_empty(path@)) =~= paths@.take(
                index as int,
            ).map_values(|path: String| name_or_empty(path@)).push(name_or_empty(paths@[index as int]@)));
        }
        index = index + 1;
    }
    assert(paths@.take(paths@.len() as int) =~= paths@);
    names
}

} // verus!
