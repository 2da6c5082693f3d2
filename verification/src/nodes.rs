//! The text the node inspectors work out for themselves: command line names, preview
//! headings, the example names a rename preview falls back to, and the sets a Process As Set
//! node would form from a folder of names.
use crate::text::{
    ascii_lower, decimal, lower_char, push_decimal, push_str, chars_of, string_of, skip_back, other_than,
};
use vstd::prelude::*;
use vstd::string::StringExecFns;

verus! {

/// `char::is_ascii_alphanumeric`.
pub open spec fn is_ascii_alphanumeric(c: char) -> bool {
    ('0' <= c <= '9') || ('a' <= c <= 'z') || ('A' <= c <= 'Z')
}

/// `char::is_ascii_whitespace`: space, tab, line feed, form feed and carriage return.
pub open spec fn is_ascii_whitespace(c: char) -> bool {
    c == ' ' || c == '\t' || c == '\n' || c == '\u{0C}' || c == '\r'
}

/// What one character of a name becomes in a command line name, if it stays at all.
pub open spec fn cli_char(c: char) -> Option<char> {
    let lower = ascii_lower(c);
    if is_ascii_alphanumeric(lower) || lower == '-' {
        Some(lower)
    } else if is_ascii_whitespace(lower) {
        Some('-')
    } else {
        None
    }
}

/// A name restricted to the characters the export accepts.
pub open spec fn cli_name(value: Seq<char>) -> Seq<char>
    decreases value.len(),
{
    if value.len() == 0 {
        Seq::empty()
    } else {
        let rest = cli_name(value.drop_last());
        match cli_char(value.last()) {
            Some(c) => rest.push(c),
            None => rest,
        }
    }
}

/// A command line name holds only small letters, digits and hyphens.
pub proof fn lemma_cli_name_characters(value: Seq<char>)
    ensures
        forall|i: int|
            0 <= i < cli_name(value).len() ==> {
                let c = #[trigger] cli_name(value)[i];
                ('0' <= c <= '9') || ('a' <= c <= 'z') || c == '-'
            },
        cli_name(value).len() <= value.len(),
    decreases value.len(),
{
    if value.len() > 0 {
        lemma_cli_name_characters(value.drop_last());
    }
}

/// A command line name is made character by character, in order: the name of a joined text is
/// the two names joined. Small letters, digits and hyphens stay as they are, capitals become
/// their small letters, each whitespace character becomes a hyphen, and every other character
/// is dropped.
pub proof fn lemma_cli_name_by_character(first: Seq<char>, second: Seq<char>, c: char)
    ensures
        cli_name(first + second) == cli_name(first) + cli_name(second),
        ('a' <= c <= 'z') || ('0' <= c <= '9') || c == '-' ==> cli_name(seq![c]) == seq![c],
        ('A' <= c <= 'Z') ==> cli_name(seq![c]).len() == 1 && cli_name(seq![c])[0] as u32 == c as u32 + 32,
        c == ' ' || c == '\t' || c == '\n' || c == '\u{0C}' || c == '\r' ==> cli_name(seq![c]) == seq!['-'],
        !(('a' <= c <= 'z') || ('A' <= c <= 'Z') || ('0' <= c <= '9') || c == '-' || c == ' ' || c == '\t' || c
            == '\n' || c == '\u{0C}' || c == '\r') ==> cli_name(seq![c]).len() == 0,
    decreases second.len(),
{
    if second.len() > 0 {
        lemma_cli_name_by_character(first, second.drop_last(), c);
        assert((first + second).drop_last() =~= first + second.drop_last());
        assert((first + second).last() == second.last());
    } else {
        assert(first + second =~= first);
        assert(cli_name(second) =~= Seq::<char>::empty());
    }
    let single = seq![c];
    assert(single.drop_last() =~= Seq::<char>::empty());
    assert(cli_name(single.drop_last()) =~= Seq::<char>::empty());
    assert(single.last() == c);
    let lower = ascii_lower(c);
    if 'A' <= c <= 'Z' {
        assert(lower as u32 == c as u32 + 32);
        assert('a' <= lower <= 'z');
        assert(cli_char(c) == Some(lower));
    } else {
        assert(lower == c);
    }
    assert(cli_name(single) == match cli_char(c) {
        Some(d) => Seq::<char>::empty().push(d),
        None => Seq::<char>::empty(),
    });
    assert(Seq::<char>::empty().push(c) =~= seq![c]);
    assert(Seq::<char>::empty().push('-') =~= seq!['-']);
}

/// Restricts a command line name to the characters the export accepts.
pub fn sanitize_cli_name(value: &str) -> (name: String)
    ensures
        name@ == cli_name(value@),
{
    let chars = chars_of(value);
    let mut name = String::new();
    let mut index: usize = 0;
    while index < chars.len()
        invariant
            index <= chars@.len(),
            name@ == cli_name(chars@.take(index as int)),
        decreases chars@.len() - index,
    {
        let lower = lower_char(chars[index]);
        let ghost taken = chars@.take(index + 1);
        assert(taken.drop_last() =~= chars@.take(index as int));
        if ('0' <= lower && lower <= '9') || ('a' <= lower && lower <= 'z') || ('A' <= lower && lower
            <= 'Z') || lower == '-' {
            name.push(lower);
        } else if lower == ' ' || lower == '\t' || lower == '\n' || lower == '\u{0C}' || lower
            == '\r' {
            name.push('-');
        }
        index = index + 1;
    }
    assert(chars@.take(chars@.len() as int) =~= chars@);
    name
}

/// The heading of the text preview section.
pub open spec fn text_preview_heading(
    image_count: nat,
    line_count: nat,
    pending: bool,
    slot_count: nat,
) -> Seq<char> {
    if slot_count == 0 {
        "Preview (connect a port)"@
    } else if image_count == 0 {
        "Preview (no files loaded)"@
    } else if pending {
        "Preview..."@
    } else if image_count > 10 {
        "Preview - first 10 of "@ + decimal(image_count) + " files"@
    } else {
        "Preview - "@ + decimal(line_count) + " line(s)"@
    }
}

/// The heading the text preview section shows.
pub fn text_preview_title(
    image_count: usize,
    line_count: usize,
    pending: bool,
    slot_count: usize,
) -> (title: String)
    ensures
        title@ == text_preview_heading(image_count as nat, line_count as nat, pending, slot_count as nat),
{
    let mut title = String::new();
    if slot_count == 0 {
        push_str(&mut title, "Preview (connect a port)");
    } else if image_count == 0 {
        push_str(&mut title, "Preview (no files loaded)");
    } else if pending {
        push_str(&mut title, "Preview...");
    } else if image_count > 10 {
        push_str(&mut title, "Preview - first 10 of ");
        push_decimal(&mut title, image_count as u128);
        push_str(&mut title, " files");
    } else {
        push_str(&mut title, "Preview - ");
        push_decimal(&mut title, line_count as u128);
        push_str(&mut title, " line(s)");
    }
    title
}

/// The heading over the rename preview, which counts files rather than `file(s)`.
pub open spec fn rename_preview_heading(images: nat) -> Seq<char> {
    if images == 0 {
        "Preview (no files loaded)"@
    } else if images == 1 {
        "Preview - 1 file"@
    } else if images > 10 {
        "Preview - first 10 of "@ + decimal(images) + " files"@
    } else {
        "Preview - "@ + decimal(images) + " files"@
    }
}

/// The heading over the rename preview, which counts files rather than `file(s)`.
pub fn rename_preview_title(images: usize) -> (title: String)
    ensures
        title@ == rename_preview_heading(images as nat),
{
    let mut title = String::new();
    if images == 0 {
        push_str(&mut title, "Preview (no files loaded)");
    } else if images == 1 {
        push_str(&mut title, "Preview - 1 file");
    } else if images > 10 {
        push_str(&mut title, "Preview - first 10 of ");
        push_decimal(&mut title, images as u128);
        push_str(&mut title, " files");
    } else {
        push_str(&mut title, "Preview - ");
        push_decimal(&mut title, images as u128);
        push_str(&mut title, " files");
    }
    title
}

/// The names the rename preview shows: the first ten imported, or three examples when nothing
/// has been imported.
pub fn rename_preview_names(images: &[String]) -> (names: Vec<String>)
    ensures
        images@.len() == 0 ==> names@.len() == 3 && names@[0]@ == "photo_001.jpg"@ && names@[1]@
            == "IMG_5432.jpg"@ && names@[2]@ == "vacation shot.png"@,
        images@.len() > 0 ==> names@ == images@.take(if images@.len() > 10 {
            10
        } else {
            images@.len() as int
        }),
{
    if images.len() == 0 {
        let mut names: Vec<String> = Vec::new();
        names.push(String::from_str("photo_001.jpg"));
        names.push(String::from_str("IMG_5432.jpg"));
        names.push(String::from_str("vacation shot.png"));
        return names;
    }
    let count = if images.len() > 10 {
        10
    } else {
        images.len()
    };
    let mut names: Vec<String> = Vec::new();
    let mut index: usize = 0;
    while index < count
        invariant
            count <= images@.len(),
            index <= count,
            names@ == images@.take(index as int),
        decreases count - index,
    {
        names.push(images[index].clone());
        index = index + 1;
        assert(names@ =~= images@.take(index as int));
    }
    names
}

/// The order `String` sorts in: character by character, a prefix first.
pub open spec fn lex_less(a: Seq<char>, b: Seq<char>) -> bool
    decreases a.len(),
{
    if a.len() == 0 {
        b.len() > 0
    } else if b.len() == 0 {
        false
    } else if a[0] != b[0] {
        (a[0] as u32) < (b[0] as u32)
    } else {
        lex_less(a.drop_first(), b.drop_first())
    }
}

pub proof fn lemma_lex_irreflexive(a: Seq<char>)
    ensures
        !lex_less(a, a),
    decreases a.len(),
{
    if a.len() > 0 {
        lemma_lex_irreflexive(a.drop_first());
    }
}

pub proof fn lemma_lex_total(a: Seq<char>, b: Seq<char>)
    ensures
        a != b ==> lex_less(a, b) || lex_less(b, a),
        !(lex_less(a, b) && lex_less(b, a)),
    decreases a.len(),
{
    if a.len() > 0 && b.len() > 0 {
        lemma_lex_total(a.drop_first(), b.drop_first());
        vstd::utf8::char_u32_cast(a[0], a[0] as u32);
        vstd::utf8::char_u32_cast(b[0], b[0] as u32);
        if a[0] == b[0] && a.drop_first() == b.drop_first() {
            assert(a =~= seq![a[0]] + a.drop_first());
            assert(b =~= seq![b[0]] + b.drop_first());
        }
    } else if a.len() == 0 && b.len() == 0 {
        assert(a =~= b);
    }
}

pub proof fn lemma_lex_transitive(a: Seq<char>, b: Seq<char>, c: Seq<char>)
    requires
        lex_less(a, b),
        lex_less(b, c),
    ensures
        lex_less(a, c),
    decreases a.len(),
{
    if a.len() > 0 && b.len() > 0 && c.len() > 0 {
        if a[0] == b[0] && b[0] == c[0] {
            lemma_lex_transitive(a.drop_first(), b.drop_first(), c.drop_first());
        }
    }
}

/// The part of a file name before its last dot, or all of it when it has none.
pub open spec fn stem_of(name: Seq<char>) -> Seq<char> {
    let after_dot = skip_back(name, name.len() as int, other_than('.'));
    if after_dot > 0 {
        name.take(after_dot - 1)
    } else {
        name
    }
}

pub open spec fn ends_with(text: Seq<char>, suffix: Seq<char>) -> bool {
    suffix.len() <= text.len() && text.skip(text.len() - suffix.len()) == suffix
}

/// The first of `suffixes` from `from` on that `text` ends with, or the count of suffixes.
pub open spec fn first_suffix(text: Seq<char>, suffixes: Seq<Seq<char>>, from: int) -> int
    decreases suffixes.len() - from,
{
    if from < 0 || from >= suffixes.len() {
        suffixes.len() as int
    } else if ends_with(text, suffixes[from]) {
        from
    } else {
        first_suffix(text, suffixes, from + 1)
    }
}

/// The set a file name belongs to and the suffix it fills, if it belongs to one: the name
/// must start with the prefix, and its stem end with one of the suffixes.
pub open spec fn set_member(name: Seq<char>, prefix: Seq<char>, suffixes: Seq<Seq<char>>) -> Option<(Seq<char>, int)> {
    let stem = stem_of(name);
    if !(prefix.len() <= stem.len() && stem.take(prefix.len() as int) == prefix) {
        None
    } else {
        let remainder = stem.skip(prefix.len() as int);
        let index = first_suffix(remainder, suffixes, 0);
        if index >= suffixes.len() {
            None
        } else {
            Some((prefix + remainder.take(remainder.len() - suffixes[index].len()), index))
        }
    }
}

/// Every set the names form, with which of the suffixes each has a file for.
pub open spec fn sets_of(names: Seq<Seq<char>>, prefix: Seq<char>, suffixes: Seq<Seq<char>>) -> Map<Seq<char>, Seq<bool>>
    decreases names.len(),
{
    if names.len() == 0 {
        Map::empty()
    } else {
        let sets = sets_of(names.drop_last(), prefix, suffixes);
        match set_member(names.last(), prefix, suffixes) {
            None => sets,
            Some((key, index)) => {
                let flags = if sets.contains_key(key) {
                    sets[key]
                } else {
                    Seq::new(suffixes.len(), |i: int| false)
                };
                sets.insert(key, flags.update(index, true))
            },
        }
    }
}

/// The suffixes that take part: the ones that are not empty, in order.
pub open spec fn active_suffixes(suffixes: Seq<Seq<char>>) -> Seq<Seq<char>>
    decreases suffixes.len(),
{
    if suffixes.len() == 0 {
        Seq::empty()
    } else {
        let rest = active_suffixes(suffixes.drop_last());
        if suffixes.last().len() == 0 {
            rest
        } else {
            rest.push(suffixes.last())
        }
    }
}

pub open spec fn vec_views(chars: Seq<Vec<char>>) -> Seq<Seq<char>> {
    chars.map_values(|v: Vec<char>| v@)
}

pub open spec fn string_views(strings: Seq<String>) -> Seq<Seq<char>> {
    strings.map_values(|s: String| s@)
}

proof fn lemma_sets_flags(names: Seq<Seq<char>>, prefix: Seq<char>, suffixes: Seq<Seq<char>>)
    ensures
        forall|key: Seq<char>| #[trigger] sets_of(names, prefix, suffixes).contains_key(key)
            ==> sets_of(names, prefix, suffixes)[key].len() == suffixes.len(),
    decreases names.len(),
{
    if names.len() > 0 {
        lemma_sets_flags(names.drop_last(), prefix, suffixes);
        let sets = sets_of(names.drop_last(), prefix, suffixes);
        match set_member(names.last(), prefix, suffixes) {
            None => {},
            Some((key, index)) => {
                lemma_first_suffix_bound(names.last(), prefix, suffixes);
                let flags = if sets.contains_key(key) {
                    sets[key]
                } else {
                    Seq::new(suffixes.len(), |i: int| false)
                };
                assert(flags.len() == suffixes.len());
                assert forall|k: Seq<char>| #[trigger] sets_of(names, prefix, suffixes).contains_key(k)
                    implies sets_of(names, prefix, suffixes)[k].len() == suffixes.len() by {
                    if k != key {
                        assert(sets.contains_key(k));
                    }
                }
            },
        }
    }
}

/// The sets are made of the names and of nothing else: a set is listed exactly when some name
/// belongs to it, and its flag for a suffix is ticked exactly when some name fills that suffix
/// of that set; no name overwrites what another recorded.
pub proof fn lemma_sets_record_every_member(names: Seq<Seq<char>>, prefix: Seq<char>, suffixes: Seq<Seq<char>>)
    ensures
        forall|key: Seq<char>|
            #[trigger] sets_of(names, prefix, suffixes).contains_key(key) <==> exists|i: int|
                0 <= i < names.len() && (#[trigger] set_member(names[i], prefix, suffixes) matches Some((found, _)) && found == key),
        forall|key: Seq<char>, j: int|
            sets_of(names, prefix, suffixes).contains_key(key) && 0 <= j < suffixes.len() ==> (#[trigger] sets_of(
                names,
                prefix,
                suffixes,
            )[key][j] <==> exists|i: int|
                0 <= i < names.len() && #[trigger] set_member(names[i], prefix, suffixes) == Some((key, j))),
    decreases names.len(),
{
    lemma_sets_flags(names, prefix, suffixes);
    if names.len() > 0 {
        let init = names.drop_last();
        lemma_sets_record_every_member(init, prefix, suffixes);
        lemma_sets_flags(init, prefix, suffixes);
        let sets = sets_of(init, prefix, suffixes);
        let after = sets_of(names, prefix, suffixes);
        let last = names.len() - 1;
        assert(names[last] == names.last());
        assert forall|i: int| 0 <= i < init.len() implies #[trigger] names[i] == init[i] by {}
        match set_member(names.last(), prefix, suffixes) {
            None => {
                assert forall|key: Seq<char>|
                    #[trigger] after.contains_key(key) <==> exists|i: int|
                        0 <= i < names.len() && (#[trigger] set_member(names[i], prefix, suffixes) matches Some((found, _)) && found == key) by {
                    if exists|i: int|
                        0 <= i < names.len() && (#[trigger] set_member(names[i], prefix, suffixes) matches Some((found, _)) && found == key) {
                        let i = choose|i: int|
                            0 <= i < names.len() && (#[trigger] set_member(names[i], prefix, suffixes) matches Some((found, _)) && found == key);
                        assert(i < init.len());
                        assert(set_member(init[i], prefix, suffixes) == set_member(names[i], prefix, suffixes));
                    }
                    if after.contains_key(key) {
                        let i = choose|i: int|
                            0 <= i < init.len() && (#[trigger] set_member(init[i], prefix, suffixes) matches Some((found, _)) && found == key);
                        assert(set_member(names[i], prefix, suffixes) == set_member(init[i], prefix, suffixes));
                    }
                }
                assert forall|key: Seq<char>, j: int|
                    after.contains_key(key) && 0 <= j < suffixes.len() implies (#[trigger] after[key][j] <==> exists|i: int|
                        0 <= i < names.len() && #[trigger] set_member(names[i], prefix, suffixes) == Some((key, j))) by {
                    if exists|i: int| 0 <= i < names.len() && #[trigger] set_member(names[i], prefix, suffixes) == Some((key, j)) {
                        let i = choose|i: int|
                            0 <= i < names.len() && #[trigger] set_member(names[i], prefix, suffixes) == Some((key, j));
                        assert(i < init.len());
                        assert(set_member(init[i], prefix, suffixes) == Some((key, j)));
                    }
                    if after[key][j] {
                        let i = choose|i: int|
                            0 <= i < init.len() && #[trigger] set_member(init[i], prefix, suffixes) == Some((key, j));
                        assert(set_member(names[i], prefix, suffixes) == Some((key, j)));
                    }
                }
            },
            Some((added, index)) => {
                lemma_first_suffix_bound(names.last(), prefix, suffixes);
                let flags = if sets.contains_key(added) {
                    sets[added]
                } else {
                    Seq::new(suffixes.len(), |i: int| false)
                };
                assert(after == sets.insert(added, flags.update(index, true)));
                assert forall|key: Seq<char>|
                    #[trigger] after.contains_key(key) <==> exists|i: int|
                        0 <= i < names.len() && (#[trigger] set_member(names[i], prefix, suffixes) matches Some((found, _)) && found == key) by {
                    if exists|i: int|
                        0 <= i < names.len() && (#[trigger] set_member(names[i], prefix, suffixes) matches Some((found, _)) && found == key) {
                        let i = choose|i: int|
                            0 <= i < names.len() && (#[trigger] set_member(names[i], prefix, suffixes) matches Some((found, _)) && found == key);
                        if i < init.len() {
                            assert(set_member(init[i], prefix, suffixes) == set_member(names[i], prefix, suffixes));
                        }
                    }
                    if after.contains_key(key) && key != added {
                        let i = choose|i: int|
                            0 <= i < init.len() && (#[trigger] set_member(init[i], prefix, suffixes) matches Some((found, _)) && found == key);
                        assert(set_member(names[i], prefix, suffixes) == set_member(init[i], prefix, suffixes));
                    }
                    if key == added {
                        assert(set_member(names[last], prefix, suffixes) == Some((key, index)));
                    }
                }
                assert forall|key: Seq<char>, j: int|
                    after.contains_key(key) && 0 <= j < suffixes.len() implies (#[trigger] after[key][j] <==> exists|i: int|
                        0 <= i < names.len() && #[trigger] set_member(names[i], prefix, suffixes) == Some((key, j))) by {
                    if exists|i: int| 0 <= i < names.len() && #[trigger] set_member(names[i], prefix, suffixes) == Some((key, j)) {
                        let i = choose|i: int|
                            0 <= i < names.len() && #[trigger] set_member(names[i], prefix, suffixes) == Some((key, j));
                        if i < init.len() {
                            assert(set_member(init[i], prefix, suffixes) == Some((key, j)));
                        }
                    }
                    if key == added && j == index {
                        assert(set_member(names[last], prefix, suffixes) == Some((key, j)));
                    } else if after[key][j] {
                        if key == added {
                            assert(sets.contains_key(added));
                            assert(after[key][j] == sets[key][j]);
                        }
                        let i = choose|i: int|
                            0 <= i < init.len() && #[trigger] set_member(init[i], prefix, suffixes) == Some((key, j));
                        assert(set_member(names[i], prefix, suffixes) == Some((key, j)));
                    }
                }
            },
        }
    }
}

proof fn lemma_first_suffix(text: Seq<char>, suffixes: Seq<Seq<char>>, from: int)
    requires
        0 <= from,
    ensures
        from <= first_suffix(text, suffixes, from) <= suffixes.len() || from > suffixes.len(),
        first_suffix(text, suffixes, from) < suffixes.len() ==> ends_with(
            text,
            suffixes[first_suffix(text, suffixes, from)],
        ),
    decreases suffixes.len() - from,
{
    if from < suffixes.len() && !ends_with(text, suffixes[from]) {
        lemma_first_suffix(text, suffixes, from + 1);
    }
}

proof fn lemma_first_suffix_bound(name: Seq<char>, prefix: Seq<char>, suffixes: Seq<Seq<char>>)
    ensures
        set_member(name, prefix, suffixes) matches Some((key, index)) ==> 0 <= index < suffixes.len(),
{
    let stem = stem_of(name);
    if prefix.len() <= stem.len() {
        lemma_first_suffix(stem.skip(prefix.len() as int), suffixes, 0);
    }
}

fn lex_less_exec(a: &Vec<char>, b: &Vec<char>) -> (less: bool)
    ensures
        less == lex_less(a@, b@),
{
    let mut index: usize = 0;
    assert(a@.skip(0) =~= a@);
    assert(b@.skip(0) =~= b@);
    while index < a.len() && index < b.len() && a[index] == b[index]
        invariant
            index <= a@.len(),
            index <= b@.len(),
            lex_less(a@.skip(index as int), b@.skip(index as int)) == lex_less(a@, b@),
        decreases a@.len() - index,
    {
        assert(a@.skip(index as int).drop_first() =~= a@.skip(index + 1));
        assert(b@.skip(index as int).drop_first() =~= b@.skip(index + 1));
        index = index + 1;
    }
    if index == a.len() {
        index < b.len()
    } else if index == b.len() {
        false
    } else {
        (a[index] as u32) < (b[index] as u32)
    }
}

fn chars_equal(a: &Vec<char>, b: &Vec<char>) -> (equal: bool)
    ensures
        equal == (a@ == b@),
{
    if a.len() != b.len() {
        return false;
    }
    let mut index: usize = 0;
    while index < a.len()
        invariant
            a@.len() == b@.len(),
            index <= a@.len(),
            forall|i: int| 0 <= i < index ==> a@[i] == b@[i],
        decreases a@.len() - index,
    {
        if a[index] != b[index] {
            return false;
        }
        index = index + 1;
    }
    assert(a@ =~= b@);
    true
}

fn ends_with_exec(text: &Vec<char>, suffix: &Vec<char>) -> (found: bool)
    ensures
        found == ends_with(text@, suffix@),
{
    if suffix.len() > text.len() {
        return false;
    }
    let offset = text.len() - suffix.len();
    let mut index: usize = 0;
    while index < suffix.len()
        invariant
            offset + suffix@.len() == text.len(),
            index <= suffix@.len(),
            forall|i: int| 0 <= i < index ==> text@[offset + i] == suffix@[i],
        decreases suffix@.len() - index,
    {
        assert(offset + index < text@.len());
        if text[offset + index] != suffix[index] {
            assert(text@.skip(offset as int)[index as int] != suffix@[index as int]);
            return false;
        }
        index = index + 1;
    }
    assert(text@.skip(offset as int) =~= suffix@);
    true
}

/// The set key and suffix index of one file name.
fn member_of(name: &Vec<char>, prefix: &Vec<char>, suffixes: &Vec<Vec<char>>) -> (member: Option<(Vec<char>, usize)>)
    ensures
        match set_member(name@, prefix@, vec_views(suffixes@)) {
            Some((key, index)) => member matches Some((k, i)) && k@ == key && i == index,
            None => member is None,
        },
{
    let ghost views = vec_views(suffixes@);
    let mut after_dot = name.len();
    while after_dot > 0 && name[after_dot - 1] != '.'
        invariant
            after_dot <= name@.len(),
            skip_back(name@, after_dot as int, other_than('.')) == skip_back(
                name@,
                name@.len() as int,
                other_than('.'),
            ),
        decreases after_dot,
    {
        after_dot = after_dot - 1;
    }
    let stem_end = if after_dot > 0 {
        after_dot - 1
    } else {
        name.len()
    };
    assert(stem_of(name@) =~= name@.take(stem_end as int));
    if prefix.len() > stem_end {
        return None;
    }
    let mut index: usize = 0;
    while index < prefix.len()
        invariant
            prefix@.len() <= stem_end <= name@.len(),
            stem_of(name@) == name@.take(stem_end as int),
            index <= prefix@.len(),
            forall|i: int| 0 <= i < index ==> name@[i] == prefix@[i],
        decreases prefix@.len() - index,
    {
        if name[index] != prefix[index] {
            assert(name@.take(stem_end as int).take(prefix@.len() as int)[index as int] != prefix@[index as int]);
            return None;
        }
        index = index + 1;
    }
    assert(name@.take(stem_end as int).take(prefix@.len() as int) =~= prefix@);
    let remainder = string_chars(name, prefix.len(), stem_end);
    let ghost stem = name@.take(stem_end as int);
    assert(remainder@ =~= stem.skip(prefix@.len() as int));
    let mut which: usize = 0;
    while which < suffixes.len() && !ends_with_exec(&remainder, &suffixes[which])
        invariant
            which <= suffixes@.len(),
            views.len() == suffixes@.len(),
            forall|i: int| 0 <= i < suffixes@.len() ==> #[trigger] views[i] == suffixes@[i]@,
            first_suffix(remainder@, views, which as int) == first_suffix(remainder@, views, 0),
        decreases suffixes@.len() - which,
    {
        which = which + 1;
    }
    if which >= suffixes.len() {
        return None;
    }
    let suffix_len = suffixes[which].len();
    let mut key: Vec<char> = Vec::new();
    let mut k: usize = 0;
    while k < prefix.len()
        invariant
            k <= prefix@.len(),
            key@ == prefix@.take(k as int),
        decreases prefix@.len() - k,
    {
        key.push(prefix[k]);
        k = k + 1;
        assert(key@ =~= prefix@.take(k as int));
    }
    let middle_end = remainder.len() - suffix_len;
    let mut m: usize = 0;
    while m < middle_end
        invariant
            middle_end <= remainder@.len(),
            m <= middle_end,
            key@ == prefix@ + remainder@.take(m as int),
        decreases middle_end - m,
    {
        key.push(remainder[m]);
        m = m + 1;
        assert(key@ =~= prefix@ + remainder@.take(m as int));
    }
    assert(prefix@.take(prefix@.len() as int) =~= prefix@);
    Some((key, which))
}

/// The characters `from..to` of `chars`.
fn string_chars(chars: &Vec<char>, from: usize, to: usize) -> (part: Vec<char>)
    requires
        from <= to <= chars@.len(),
    ensures
        part@ == chars@.subrange(from as int, to as int),
{
    let mut part: Vec<char> = Vec::new();
    let mut index = from;
    while index < to
        invariant
            from <= index <= to <= chars@.len(),
            part@ == chars@.subrange(from as int, index as int),
        decreases to - index,
    {
        part.push(chars[index]);
        index = index + 1;
        assert(part@ =~= chars@.subrange(from as int, index as int));
    }
    part
}

/// Keys in strictly ascending order.
pub open spec fn ascending(groups: Seq<(Seq<char>, Seq<bool>)>) -> bool {
    forall|i: int, j: int|
        #![trigger groups[i], groups[j]]
        0 <= i < j < groups.len() ==> lex_less(groups[i].0, groups[j].0)
}

/// `groups` lists the entries of `sets`, each once, in ascending order of key.
pub open spec fn lists(groups: Seq<(Seq<char>, Seq<bool>)>, sets: Map<Seq<char>, Seq<bool>>) -> bool {
    &&& ascending(groups)
    &&& forall|i: int|
        0 <= i < groups.len() ==> #[trigger] sets.contains_key(groups[i].0) && sets[groups[i].0]
            == groups[i].1
    &&& forall|key: Seq<char>|
        #[trigger] sets.contains_key(key) ==> exists|i: int| 0 <= i < groups.len() && #[trigger] groups[i].0 == key
}

pub open spec fn group_views(groups: Seq<(Vec<char>, Vec<bool>)>) -> Seq<(Seq<char>, Seq<bool>)> {
    groups.map_values(|g: (Vec<char>, Vec<bool>)| (g.0@, g.1@))
}

/// Updating the entry of a key already listed keeps the listing.
proof fn lemma_lists_update(
    groups: Seq<(Seq<char>, Seq<bool>)>,
    sets: Map<Seq<char>, Seq<bool>>,
    pos: int,
    flags: Seq<bool>,
)
    requires
        lists(groups, sets),
        0 <= pos < groups.len(),
    ensures
        lists(groups.update(pos, (groups[pos].0, flags)), sets.insert(groups[pos].0, flags)),
{
    let key = groups[pos].0;
    let updated = groups.update(pos, (key, flags));
    let map = sets.insert(key, flags);
    assert forall|i: int, j: int|
        #![trigger updated[i], updated[j]]
        0 <= i < j < updated.len() implies lex_less(updated[i].0, updated[j].0) by {
        assert(groups[i] == groups[i] && groups[j] == groups[j]);
    }
    assert forall|i: int| 0 <= i < updated.len() implies #[trigger] map.contains_key(updated[i].0)
        && map[updated[i].0] == updated[i].1 by {
        if i != pos {
            assert(groups[i] == groups[i] && groups[pos] == groups[pos]);
            if i < pos {
                assert(lex_less(groups[i].0, groups[pos].0));
            } else {
                assert(lex_less(groups[pos].0, groups[i].0));
            }
            lemma_lex_irreflexive(key);
            assert(groups[i].0 != key);
        }
    }
    assert forall|k: Seq<char>| #[trigger] map.contains_key(k) implies exists|i: int|
        0 <= i < updated.len() && #[trigger] updated[i].0 == k by {
        if k == key {
            assert(updated[pos].0 == k);
        } else {
            assert(sets.contains_key(k));
            let i = choose|i: int| 0 <= i < groups.len() && #[trigger] groups[i].0 == k;
            assert(updated[i].0 == k);
        }
    }
}

/// Inserting a new key where it belongs in the order keeps the listing.
proof fn lemma_lists_insert(
    groups: Seq<(Seq<char>, Seq<bool>)>,
    sets: Map<Seq<char>, Seq<bool>>,
    pos: int,
    key: Seq<char>,
    flags: Seq<bool>,
)
    requires
        lists(groups, sets),
        0 <= pos <= groups.len(),
        forall|i: int| 0 <= i < pos ==> lex_less(#[trigger] groups[i].0, key),
        pos < groups.len() ==> !lex_less(groups[pos].0, key) && groups[pos].0 != key,
    ensures
        !sets.contains_key(key),
        lists(groups.insert(pos, (key, flags)), sets.insert(key, flags)),
{
    let inserted = groups.insert(pos, (key, flags));
    let map = sets.insert(key, flags);
    lemma_lex_irreflexive(key);
    if pos < groups.len() {
        lemma_lex_total(groups[pos].0, key);
    }
    // Everything from `pos` on comes after the new key.
    assert forall|i: int| pos <= i < groups.len() implies lex_less(key, #[trigger] groups[i].0) by {
        if i > pos {
            assert(groups[pos] == groups[pos] && groups[i] == groups[i]);
            lemma_lex_transitive(key, groups[pos].0, groups[i].0);
        }
    }
    assert(!sets.contains_key(key)) by {
        if sets.contains_key(key) {
            let i = choose|i: int| 0 <= i < groups.len() && #[trigger] groups[i].0 == key;
            if i < pos {
                assert(lex_less(groups[i].0, key));
            } else {
                assert(lex_less(key, groups[i].0));
            }
        }
    }
    assert forall|i: int, j: int|
        #![trigger inserted[i], inserted[j]]
        0 <= i < j < inserted.len() implies lex_less(inserted[i].0, inserted[j].0) by {
        if i < pos && j < pos {
            assert(groups[i] == groups[i] && groups[j] == groups[j]);
        } else if i < pos && j == pos {
        } else if i < pos && j > pos {
            assert(lex_less(groups[i].0, key));
            assert(lex_less(key, groups[j - 1].0));
            lemma_lex_transitive(groups[i].0, key, groups[j - 1].0);
        } else if i == pos {
            assert(lex_less(key, groups[j - 1].0));
        } else {
            assert(groups[i - 1] == groups[i - 1] && groups[j - 1] == groups[j - 1]);
        }
    }
    assert forall|i: int| 0 <= i < inserted.len() implies #[trigger] map.contains_key(inserted[i].0)
        && map[inserted[i].0] == inserted[i].1 by {
        if i < pos {
            assert(sets.contains_key(groups[i].0));
            assert(groups[i].0 != key);
        } else if i > pos {
            assert(sets.contains_key(groups[i - 1].0));
            assert(lex_less(key, groups[i - 1].0));
            assert(groups[i - 1].0 != key);
        }
    }
    assert forall|k: Seq<char>| #[trigger] map.contains_key(k) implies exists|i: int|
        0 <= i < inserted.len() && #[trigger] inserted[i].0 == k by {
        if k == key {
            assert(inserted[pos].0 == k);
        } else {
            assert(sets.contains_key(k));
            let i = choose|i: int| 0 <= i < groups.len() && #[trigger] groups[i].0 == k;
            if i < pos {
                assert(inserted[i].0 == k);
            } else {
                assert(inserted[i + 1].0 == k);
            }
        }
    }
}

proof fn lemma_no_suffixes_no_sets(names: Seq<Seq<char>>, prefix: Seq<char>)
    ensures
        sets_of(names, prefix, Seq::empty()) == Map::<Seq<char>, Seq<bool>>::empty(),
    decreases names.len(),
{
    if names.len() > 0 {
        lemma_no_suffixes_no_sets(names.drop_last(), prefix);
    }
}

/// Every set the names form is named with the prefix in front, carries one flag per suffix,
/// at least one of them set, and there are no more sets than names.
pub proof fn lemma_sets_shape(names: Seq<Seq<char>>, prefix: Seq<char>, suffixes: Seq<Seq<char>>)
    ensures
        sets_of(names, prefix, suffixes).dom().finite(),
        sets_of(names, prefix, suffixes).dom().len() <= names.len(),
        forall|key: Seq<char>|
            #[trigger] sets_of(names, prefix, suffixes).contains_key(key) ==> {
                &&& sets_of(names, prefix, suffixes)[key].len() == suffixes.len()
                &&& prefix.len() <= key.len() && key.take(prefix.len() as int) == prefix
                &&& sets_of(names, prefix, suffixes)[key].contains(true)
            },
    decreases names.len(),
{
    lemma_sets_flags(names, prefix, suffixes);
    if names.len() > 0 {
        lemma_sets_shape(names.drop_last(), prefix, suffixes);
        let sets = sets_of(names.drop_last(), prefix, suffixes);
        match set_member(names.last(), prefix, suffixes) {
            None => {},
            Some((key, index)) => {
                lemma_first_suffix_bound(names.last(), prefix, suffixes);
                let flags = if sets.contains_key(key) {
                    sets[key]
                } else {
                    Seq::new(suffixes.len(), |i: int| false)
                };
                let updated = flags.update(index, true);
                let after = sets_of(names, prefix, suffixes);
                assert(after == sets.insert(key, updated));
                assert(updated[index] == true);
                assert(key.take(prefix.len() as int) =~= prefix);
                assert(after.dom() =~= sets.dom().insert(key));
                assert forall|k: Seq<char>| #[trigger] after.contains_key(k) implies after[k].contains(true) by {
                    if k == key {
                        assert(after[k][index] == true);
                    } else {
                        assert(sets.contains_key(k));
                    }
                }
            },
        }
    } else {
        assert(sets_of(names, prefix, suffixes).dom() =~= Set::<Seq<char>>::empty());
    }
}

/// Groups file names into sets by the prefix and the suffix list.
///
/// A name belongs to a set when its stem, the part before the last dot, starts with the prefix
/// and ends with one of the suffixes that are not empty, the first that fits; the set is named
/// by the stem without that suffix. Each set comes with a flag per suffix, set when some name
/// supplies it, and the sets come in the order of their names.
pub fn matched_sets(names: &[String], prefix: &str, suffixes: &[String]) -> (sets: Vec<(String, Vec<bool>)>)
    ensures
        ({
            let map = sets_of(
                string_views(names@),
                prefix@,
                active_suffixes(string_views(suffixes@)),
            );
            &&& forall|i: int, j: int|
                #![trigger sets@[i], sets@[j]]
                0 <= i < j < sets@.len() ==> lex_less(sets@[i].0@, sets@[j].0@)
            &&& forall|i: int|
                0 <= i < sets@.len() ==> #[trigger] map.contains_key(sets@[i].0@) && map[sets@[i].0@]
                    == sets@[i].1@
            &&& forall|key: Seq<char>|
                #[trigger] map.contains_key(key) ==> exists|i: int|
                    0 <= i < sets@.len() && #[trigger] sets@[i].0@ == key
        }),
        active_suffixes(string_views(suffixes@)).len() == 0 ==> sets@.len() == 0,
        sets@.len() <= names@.len(),
        forall|i: int|
            0 <= i < sets@.len() ==> {
                &&& (#[trigger] sets@[i]).1@.len() == active_suffixes(string_views(suffixes@)).len()
                &&& prefix@.len() <= sets@[i].0@.len() && sets@[i].0@.take(prefix@.len() as int) == prefix@
                &&& sets@[i].1@.contains(true)
            },
{
    let ghost suffix_views = string_views(suffixes@);
    let mut active: Vec<Vec<char>> = Vec::new();
    let mut s: usize = 0;
    while s < suffixes.len()
        invariant
            s <= suffixes@.len(),
            suffix_views == string_views(suffixes@),
            vec_views(active@) == active_suffixes(suffix_views.take(s as int)),
        decreases suffixes@.len() - s,
    {
        let chars = chars_of(suffixes[s].as_str());
        let ghost taken = suffix_views.take(s + 1);
        assert(taken.drop_last() =~= suffix_views.take(s as int));
        assert(taken.last() == suffixes@[s as int]@);
        if chars.len() > 0 {
            active.push(chars);
            assert(vec_views(active@) =~= active_suffixes(taken));
        }
        s = s + 1;
    }
    assert(suffix_views.take(suffixes@.len() as int) =~= suffix_views);
    let ghost active_views = vec_views(active@);
    let ghost name_views = string_views(names@);
    if active.len() == 0 {
        proof {
            assert(active_views =~= Seq::<Seq<char>>::empty());
            lemma_no_suffixes_no_sets(name_views, prefix@);
        }
        return Vec::new();
    }
    let prefix_chars = chars_of(prefix);
    let mut groups: Vec<(Vec<char>, Vec<bool>)> = Vec::new();
    let mut n: usize = 0;
    while n < names.len()
        invariant
            n <= names@.len(),
            name_views == string_views(names@),
            active_views == vec_views(active@),
            prefix_chars@ == prefix@,
            lists(group_views(groups@), sets_of(name_views.take(n as int), prefix@, active_views)),
            forall|i: int| 0 <= i < groups@.len() ==> (#[trigger] groups@[i]).1@.len() == active@.len(),
        decreases names@.len() - n,
    {
        let ghost before = sets_of(name_views.take(n as int), prefix@, active_views);
        let ghost taken = name_views.take(n + 1);
        assert(taken.drop_last() =~= name_views.take(n as int));
        assert(taken.last() == names@[n as int]@);
        let name_chars = chars_of(names[n].as_str());
        match member_of(&name_chars, &prefix_chars, &active) {
            None => {},
            Some((key, which)) => {
                proof {
                    lemma_first_suffix_bound(name_chars@, prefix@, active_views);
                }
                let mut pos: usize = 0;
                while pos < groups.len() && lex_less_exec(&groups[pos].0, &key)
                    invariant
                        pos <= groups@.len(),
                        forall|i: int| 0 <= i < pos ==> lex_less(#[trigger] groups@[i].0@, key@),
                    decreases groups@.len() - pos,
                {
                    pos = pos + 1;
                }
                let ghost views = group_views(groups@);
                assert forall|i: int| 0 <= i < pos implies lex_less(#[trigger] views[i].0, key@) by {
                    assert(views[i].0 == groups@[i].0@);
                }
                if pos < groups.len() && chars_equal(&groups[pos].0, &key) {
                    let (old_key, mut flags) = groups.remove(pos);
                    proof {
                        assert(views[pos as int].1 == flags@);
                        assert(views[pos as int].0 == key@);
                        assert(before.contains_key(views[pos as int].0));
                    }
                    flags.set(which, true);
                    groups.insert(pos, (old_key, flags));
                    proof {
                        lemma_lists_update(views, before, pos as int, flags@);
                        assert(group_views(groups@) =~= views.update(pos as int, (views[pos as int].0, flags@)));
                    }
                } else {
                    let mut flags: Vec<bool> = Vec::new();
                    let mut f: usize = 0;
                    while f < active.len()
                        invariant
                            f <= active@.len(),
                            flags@ == Seq::new(f as nat, |i: int| false),
                        decreases active@.len() - f,
                    {
                        flags.push(false);
                        f = f + 1;
                        assert(flags@ =~= Seq::new(f as nat, |i: int| false));
                    }
                    flags.set(which, true);
                    proof {
                        if pos < groups@.len() {
                            assert(views[pos as int].0 == groups@[pos as int].0@);
                        }
                        lemma_lists_insert(views, before, pos as int, key@, flags@);
                    }
                    groups.insert(pos, (key, flags));
                    proof {
                        assert(group_views(groups@) =~= views.insert(pos as int, (key@, flags@)));
                    }
                }
            },
        }
        n = n + 1;
    }
    assert(name_views.take(names@.len() as int) =~= name_views);
    let ghost final_views = group_views(groups@);
    let ghost map = sets_of(name_views, prefix@, active_views);
    assert(lists(final_views, map));
    let total = groups.len();
    let mut sets: Vec<(String, Vec<bool>)> = Vec::new();
    let mut index: usize = 0;
    while groups.len() > 0
        invariant
            index + groups@.len() == total,
            total == final_views.len(),
            group_views(groups@) == final_views.skip(index as int),
            sets@.len() == index,
            forall|i: int| 0 <= i < index ==> (#[trigger] sets@[i]).0@ == final_views[i].0 && sets@[i].1@ == final_views[i].1,
        decreases groups@.len(),
    {
        let ghost remaining = groups@;
        let (key, flags) = groups.remove(0);
        let name = string_of(&key, 0, key.len());
        assert(key@.subrange(0, key@.len() as int) =~= key@);
        assert(group_views(remaining)[0] == final_views.skip(index as int)[0]);
        assert(final_views[index as int] == (key@, flags@));
        sets.push((name, flags));
        assert(group_views(groups@) =~= group_views(remaining).skip(1));
        index = index + 1;
        assert(group_views(groups@) =~= final_views.skip(index as int));
    }
    assert forall|i: int, j: int|
        #![trigger sets@[i], sets@[j]]
        0 <= i < j < sets@.len() implies lex_less(sets@[i].0@, sets@[j].0@) by {
        assert(final_views[i] == final_views[i] && final_views[j] == final_views[j]);
    }
    assert forall|i: int| 0 <= i < sets@.len() implies #[trigger] map.contains_key(sets@[i].0@)
        && map[sets@[i].0@] == sets@[i].1@ by {
        assert(map.contains_key(final_views[i].0));
    }
    assert forall|key: Seq<char>| #[trigger] map.contains_key(key) implies exists|i: int|
        0 <= i < sets@.len() && #[trigger] sets@[i].0@ == key by {
        let i = choose|i: int| 0 <= i < final_views.len() && #[trigger] final_views[i].0 == key;
        assert(sets@[i].0@ == key);
    }
    proof {
        lemma_sets_shape(name_views, prefix@, active_views);
        assert forall|i: int| 0 <= i < sets@.len() implies {
            &&& (#[trigger] sets@[i]).1@.len() == active_views.len()
            &&& prefix@.len() <= sets@[i].0@.len() && sets@[i].0@.take(prefix@.len() as int) == prefix@
            &&& sets@[i].1@.contains(true)
        } by {
            assert(map.contains_key(sets@[i].0@));
        }
        let keys = sets@.map_values(|entry: (String, Vec<bool>)| entry.0@);
        assert forall|a: int, b: int| 0 <= a < b < keys.len() implies keys[a] != keys[b] by {
            assert(lex_less(sets@[a].0@, sets@[b].0@));
            lemma_lex_irreflexive(sets@[a].0@);
        }
        keys.unique_seq_to_set();
        assert(keys.to_set().subset_of(map.dom())) by {
            assert forall|k: Seq<char>| keys.to_set().contains(k) implies map.dom().contains(k) by {
                let i = choose|i: int| 0 <= i < keys.len() && keys[i] == k;
                assert(map.contains_key(sets@[i].0@));
            }
        }
        vstd::set_lib::lemma_len_subset(keys.to_set(), map.dom());
    }
    sets
}

/// Whether a node's command line name, if it has one, is `name`.
pub open spec fn holds_name(held: Option<String>, name: Seq<char>) -> bool {
    match held {
        Some(other) => other@ == name,
        None => false,
    }
}

/// Whether another node than `node_id` already goes by `name` on the command line; each node
/// is given as its identifier and the command line name it holds, if it holds one.
pub open spec fn name_taken(name: Seq<char>, node_id: Seq<char>, names: Seq<(String, Option<String>)>) -> bool {
    exists|i: int|
        0 <= i < names.len() && (#[trigger] names[i]).0@ != node_id && holds_name(names[i].1, name)
}

/// The hint beneath a command line name field, and whether it reports a problem.
pub open spec fn cli_hint(name: Seq<char>, node_id: Seq<char>, names: Seq<(String, Option<String>)>) -> (Seq<char>, bool) {
    if name.len() == 0 {
        ("No flag (node won't appear in exported script)"@, false)
    } else if name_taken(name, node_id, names) {
        ("Name already used by another node"@, true)
    } else {
        ("Flag: --"@ + name, false)
    }
}

/// The hint reports a problem exactly when the name is not empty and some node of the graph,
/// wherever it stands in the list, other than the one being named already holds that name; a
/// name with no such holder is shown as its flag. Adding a node that holds the name, under
/// another identifier, at the end of the list makes the name taken.
pub proof fn lemma_hint_reports_exactly_the_names_in_use(
    name: Seq<char>,
    node_id: Seq<char>,
    names: Seq<(String, Option<String>)>,
    holder: (String, Option<String>),
)
    ensures
        cli_hint(name, node_id, names).1 <==> name.len() > 0 && exists|i: int|
            0 <= i < names.len() && (#[trigger] names[i]).0@ != node_id && (names[i].1 matches Some(other)
                && other@ == name),
        name.len() > 0 && !cli_hint(name, node_id, names).1 ==> cli_hint(name, node_id, names).0 == "Flag: --"@
            + name,
        name.len() > 0 && holder.0@ != node_id && (holder.1 matches Some(other) && other@ == name) ==> cli_hint(
            name,
            node_id,
            names.push(holder),
        ).1,
{
    if name.len() > 0 && holder.0@ != node_id && (holder.1 matches Some(other) && other@ == name) {
        let grown = names.push(holder);
        assert(grown[names.len() as int] == holder);
        assert(holds_name(grown[names.len() as int].1, name));
    }
}

/// The hint beneath a command line name field, and whether it reports a problem: an empty
/// name exports no flag, and a name another node already uses is refused.
pub fn cli_name_hint(name: &str, node_id: &str, names: &[(String, Option<String>)]) -> (hint: (String, bool))
    ensures
        (hint.0@, hint.1) == cli_hint(name@, node_id@, names@),
{
    let chars = chars_of(name);
    if chars.len() == 0 {
        return (String::from_str("No flag (node won't appear in exported script)"), false);
    }
    let mut index: usize = 0;
    while index < names.len()
        invariant
            index <= names@.len(),
            chars@ == name@,
            name@.len() > 0,
            forall|i: int|
                0 <= i < index ==> !((#[trigger] names@[i]).0@ != node_id@ && holds_name(names@[i].1, name@)),
        decreases names@.len() - index,
    {
        let (id, other) = &names[index];
        if !crate::thumbnails::same_text(id.as_str(), node_id) {
            if let Some(other) = other {
                if crate::thumbnails::same_text(other.as_str(), name) {
                    proof {
                        assert(names@[index as int].0@ != node_id@ && holds_name(names@[index as int].1, name@));
                        assert(name_taken(name@, node_id@, names@));
                    }
                    return (String::from_str("Name already used by another node"), true);
                }
            }
        }
        index = index + 1;
    }
    let mut hint = String::from_str("Flag: --");
    push_str(&mut hint, name);
    (hint, false)
}

} // verus!
