//! Character-level text: decimal numbers, ASCII classes, and the string plumbing the rest of
//! the library builds its messages with.
use vstd::prelude::*;
use vstd::string::StringExecFns;
use vstd::string::StrSliceExecFns;

verus! {

/// Appending a character to a `String` adds that one character at its end.
pub assume_specification[ String::push ](string: &mut String, ch: char)
    ensures
        final(string)@ == old(string)@.push(ch),
;

/// The character of a decimal digit.
pub open spec fn digit_char(digit: int) -> char {
    if digit == 0 {
        '0'
    } else if digit == 1 {
        '1'
    } else if digit == 2 {
        '2'
    } else if digit == 3 {
        '3'
    } else if digit == 4 {
        '4'
    } else if digit == 5 {
        '5'
    } else if digit == 6 {
        '6'
    } else if digit == 7 {
        '7'
    } else if digit == 8 {
        '8'
    } else {
        '9'
    }
}

/// The value of a decimal digit character.
pub open spec fn char_digit(c: char) -> int {
    c as int - '0' as int
}

pub open spec fn is_digit_char(c: char) -> bool {
    '0' <= c <= '9'
}

/// `n` written in decimal, without leading zeros.
pub open spec fn decimal(n: nat) -> Seq<char>
    decreases n,
{
    if n < 10 {
        seq![digit_char(n as int)]
    } else {
        decimal(n / 10).push(digit_char((n % 10) as int))
    }
}

/// `count` zero characters.
pub open spec fn zeros(count: int) -> Seq<char> {
    Seq::new(if count > 0 {
        count as nat
    } else {
        0
    }, |i: int| '0')
}

/// `n` in decimal, zero-padded on the left to at least `width` characters.
pub open spec fn padded(n: nat, width: int) -> Seq<char> {
    zeros(width - decimal(n).len()) + decimal(n)
}

/// A signed number padded the way `{:0width}` pads one: the sign counts toward the width.
pub open spec fn signed_padded(value: int, width: int) -> Seq<char> {
    if value < 0 {
        seq!['-'] + padded((-value) as nat, width - 1)
    } else {
        padded(value as nat, width)
    }
}

pub proof fn lemma_decimal_digits(n: nat)
    ensures
        decimal(n).len() >= 1,
        forall|i: int| 0 <= i < decimal(n).len() ==> is_digit_char(#[trigger] decimal(n)[i]),
    decreases n,
{
    if n >= 10 {
        lemma_decimal_digits(n / 10);
    }
}

pub proof fn lemma_decimal_small(n: nat)
    ensures
        n < 10 ==> decimal(n).len() == 1,
        10 <= n < 100 ==> decimal(n).len() == 2,
        100 <= n < 1000 ==> decimal(n).len() == 3,
        1000 <= n < 10000 ==> decimal(n).len() == 4,
    decreases n,
{
    if n >= 10 {
        lemma_decimal_small(n / 10);
    }
}

fn digit(value: u128) -> (c: char)
    requires
        value < 10,
    ensures
        c == digit_char(value as int),
{
    if value == 0 {
        '0'
    } else if value == 1 {
        '1'
    } else if value == 2 {
        '2'
    } else if value == 3 {
        '3'
    } else if value == 4 {
        '4'
    } else if value == 5 {
        '5'
    } else if value == 6 {
        '6'
    } else if value == 7 {
        '7'
    } else if value == 8 {
        '8'
    } else {
        '9'
    }
}

/// Appends `n` in decimal.
pub fn push_decimal(out: &mut String, n: u128)
    ensures
        final(out)@ == old(out)@ + decimal(n as nat),
    decreases n,
{
    if n >= 10 {
        push_decimal(out, n / 10);
    }
    out.push(digit(n % 10));
}

/// Appends `n` in decimal, zero-padded to `width` characters.
pub fn push_padded(out: &mut String, n: u128, width: usize)
    ensures
        final(out)@ == old(out)@ + padded(n as nat, width as int),
{
    let ghost start = out@;
    let mut digits = String::new();
    push_decimal(&mut digits, n);
    assert(digits@ =~= decimal(n as nat));
    let length: usize = digits.as_str().unicode_len();
    let mut count: usize = length;
    while count < width
        invariant
            length == decimal(n as nat).len(),
            length <= count,
            count <= width || count == length,
            out@ == start + zeros(count - length),
        decreases width - count,
    {
        out.push('0');
        count = count + 1;
        assert(out@ =~= start + zeros(count - length));
    }
    assert(zeros(count - length) =~= zeros(width - decimal(n as nat).len()));
    push_str(out, digits.as_str());
    assert(out@ =~= start + padded(n as nat, width as int));
}

/// Appends a signed number the way `{:0width}` writes one.
pub fn push_signed_padded(out: &mut String, value: i64, width: usize)
    ensures
        final(out)@ == old(out)@ + signed_padded(value as int, width as int),
{
    if value < 0 {
        let ghost start = out@;
        out.push('-');
        let magnitude: u128 = (0 - (value as i128)) as u128;
        let inner: usize = if width >= 1 {
            width - 1
        } else {
            0
        };
        push_padded(out, magnitude, inner);
        assert(padded(magnitude as nat, inner as int) =~= padded(magnitude as nat, width - 1));
        assert(out@ =~= start + signed_padded(value as int, width as int));
    } else {
        push_padded(out, value as u128, width);
    }
}

/// Appends every character of `text`.
pub fn push_str(out: &mut String, text: &str)
    ensures
        final(out)@ == old(out)@ + text@,
{
    out.append(text);
}

/// The characters of `text`, one by one.
pub fn chars_of(text: &str) -> (chars: Vec<char>)
    ensures
        chars@ == text@,
{
    let mut chars: Vec<char> = Vec::new();
    for c in it: text.chars()
        invariant
            chars@ == it.seq().take(it.index() as int),
    {
        chars.push(c);
    }
    chars
}

/// `char::is_whitespace`: the characters with the Unicode `White_Space` property.
pub open spec fn is_whitespace(c: char) -> bool {
    ||| c == '\t' || c == '\n' || c == '\u{0B}' || c == '\u{0C}' || c == '\r' || c == ' '
    ||| c == '\u{85}' || c == '\u{A0}' || c == '\u{1680}'
    ||| '\u{2000}' <= c <= '\u{200A}'
    ||| c == '\u{2028}' || c == '\u{2029}' || c == '\u{202F}' || c == '\u{205F}'
    ||| c == '\u{3000}'
}

pub open spec fn whitespace_class() -> spec_fn(char) -> bool {
    |c: char| is_whitespace(c)
}

pub fn is_whitespace_char(c: char) -> (b: bool)
    ensures
        b == is_whitespace(c),
{
    c == '\t' || c == '\n' || c == '\u{0B}' || c == '\u{0C}' || c == '\r' || c == ' ' || c
        == '\u{85}' || c == '\u{A0}' || c == '\u{1680}' || ('\u{2000}' <= c && c <= '\u{200A}')
        || c == '\u{2028}' || c == '\u{2029}' || c == '\u{202F}' || c == '\u{205F}' || c
        == '\u{3000}'
}

/// The first index at or after `from` whose character is not in `class`, or the length.
pub open spec fn skip_from(chars: Seq<char>, from: int, class: spec_fn(char) -> bool) -> int
    decreases chars.len() - from,
{
    if 0 <= from < chars.len() && class(chars[from]) {
        skip_from(chars, from + 1, class)
    } else {
        from
    }
}

/// The end of `chars` once the characters of `class` before `to` are cut off the end.
pub open spec fn skip_back(chars: Seq<char>, to: int, class: spec_fn(char) -> bool) -> int
    decreases to,
{
    if 0 < to <= chars.len() && class(chars[to - 1]) {
        skip_back(chars, to - 1, class)
    } else {
        to
    }
}

/// The class of every character but `c`.
pub open spec fn other_than(c: char) -> spec_fn(char) -> bool {
    |x: char| x != c
}

/// The first index at or after `from` that holds `c`, or the length.
pub open spec fn find_from(chars: Seq<char>, c: char, from: int) -> int {
    skip_from(chars, from, other_than(c))
}

/// `str::trim_start`: the text without its leading whitespace.
pub open spec fn trim_start(chars: Seq<char>) -> Seq<char> {
    chars.skip(skip_from(chars, 0, whitespace_class()))
}

/// Whether the text is nothing but whitespace, as `str::trim().is_empty()` asks.
pub open spec fn is_blank(chars: Seq<char>) -> bool {
    forall|i: int| 0 <= i < chars.len() ==> is_whitespace(#[trigger] chars[i])
}

pub proof fn lemma_skip_from_bounds(chars: Seq<char>, from: int, class: spec_fn(char) -> bool)
    requires
        0 <= from <= chars.len(),
    ensures
        from <= skip_from(chars, from, class) <= chars.len(),
        forall|i: int| from <= i < skip_from(chars, from, class) ==> class(#[trigger] chars[i]),
        skip_from(chars, from, class) < chars.len() ==> !class(chars[skip_from(chars, from, class)]),
    decreases chars.len() - from,
{
    if from < chars.len() && class(chars[from]) {
        lemma_skip_from_bounds(chars, from + 1, class);
    }
}

pub proof fn lemma_skip_back_bounds(chars: Seq<char>, to: int, class: spec_fn(char) -> bool)
    requires
        0 <= to <= chars.len(),
    ensures
        0 <= skip_back(chars, to, class) <= to,
        forall|i: int| skip_back(chars, to, class) <= i < to ==> class(#[trigger] chars[i]),
        skip_back(chars, to, class) > 0 ==> !class(chars[skip_back(chars, to, class) - 1]),
    decreases to,
{
    if 0 < to && class(chars[to - 1]) {
        lemma_skip_back_bounds(chars, to - 1, class);
    }
}

/// A run of characters of `class` that starts at `from` and stops before one outside it ends
/// where [`skip_from`] says it does.
pub proof fn lemma_skip_from_run(chars: Seq<char>, from: int, end: int, class: spec_fn(char) -> bool)
    requires
        0 <= from <= end <= chars.len(),
        forall|i: int| from <= i < end ==> class(#[trigger] chars[i]),
        end < chars.len() ==> !class(chars[end]),
    ensures
        skip_from(chars, from, class) == end,
    decreases end - from,
{
    if from < end {
        lemma_skip_from_run(chars, from + 1, end, class);
    }
}

/// A run of characters of `class` that ends at `to` and starts after one outside it begins
/// where [`skip_back`] says it does.
pub proof fn lemma_skip_back_run(chars: Seq<char>, start: int, to: int, class: spec_fn(char) -> bool)
    requires
        0 <= start <= to <= chars.len(),
        forall|i: int| start <= i < to ==> class(#[trigger] chars[i]),
        start > 0 ==> !class(chars[start - 1]),
    ensures
        skip_back(chars, to, class) == start,
    decreases to - start,
{
    if start < to {
        lemma_skip_back_run(chars, start, to - 1, class);
    }
}

/// The index of the first character at or after `from` that is not whitespace.
pub fn skip_whitespace(chars: &Vec<char>, from: usize) -> (index: usize)
    requires
        from <= chars@.len(),
    ensures
        index == skip_from(chars@, from as int, whitespace_class()),
{
    let mut index = from;
    while index < chars.len() && is_whitespace_char(chars[index])
        invariant
            from <= index <= chars@.len(),
            skip_from(chars@, index as int, whitespace_class()) == skip_from(
                chars@,
                from as int,
                whitespace_class(),
            ),
        decreases chars@.len() - index,
    {
        index = index + 1;
    }
    index
}

/// The index of the first `c` at or after `from`, or the length.
pub fn find_char(chars: &Vec<char>, c: char, from: usize) -> (index: usize)
    requires
        from <= chars@.len(),
    ensures
        index == find_from(chars@, c, from as int),
{
    let mut index = from;
    while index < chars.len() && chars[index] != c
        invariant
            from <= index <= chars@.len(),
            skip_from(chars@, index as int, other_than(c)) == skip_from(
                chars@,
                from as int,
                other_than(c),
            ),
        decreases chars@.len() - index,
    {
        index = index + 1;
    }
    index
}

/// The characters `from..to` as a string.
pub fn string_of(chars: &Vec<char>, from: usize, to: usize) -> (text: String)
    requires
        from <= to <= chars@.len(),
    ensures
        text@ == chars@.subrange(from as int, to as int),
{
    let mut text = String::new();
    let mut index = from;
    while index < to
        invariant
            from <= index <= to <= chars@.len(),
            text@ == chars@.subrange(from as int, index as int),
        decreases to - index,
    {
        text.push(chars[index]);
        index = index + 1;
        assert(text@ =~= chars@.subrange(from as int, index as int));
    }
    text
}

/// Whether `chars` begins with `prefix`.
pub fn starts_with(chars: &Vec<char>, prefix: &str) -> (found: bool)
    ensures
        found == (prefix@.len() <= chars@.len() && chars@.take(prefix@.len() as int) == prefix@),
{
    let wanted = chars_of(prefix);
    if wanted.len() > chars.len() {
        return false;
    }
    let mut index: usize = 0;
    while index < wanted.len()
        invariant
            wanted@ == prefix@,
            wanted@.len() <= chars@.len(),
            index <= wanted@.len(),
            forall|i: int| 0 <= i < index ==> chars@[i] == wanted@[i],
        decreases wanted@.len() - index,
    {
        if chars[index] != wanted[index] {
            assert(chars@.take(wanted@.len() as int)[index as int] != wanted@[index as int]);
            return false;
        }
        index = index + 1;
    }
    assert(chars@.take(wanted@.len() as int) =~= wanted@);
    true
}

/// `char::to_ascii_lowercase`.
pub open spec fn ascii_lower(c: char) -> char {
    if 'A' <= c <= 'Z' {
        ((c as u32) + 32) as char
    } else {
        c
    }
}

/// `str::to_ascii_lowercase`: every ASCII capital replaced by its small letter.
pub open spec fn ascii_lowercase(chars: Seq<char>) -> Seq<char> {
    chars.map_values(|c: char| ascii_lower(c))
}

pub fn lower_char(c: char) -> (lower: char)
    ensures
        lower == ascii_lower(c),
{
    if 'A' <= c && c <= 'Z' {
        ((c as u8) + 32) as char
    } else {
        c
    }
}

pub fn lowercase_ascii(chars: &Vec<char>) -> (lower: Vec<char>)
    ensures
        lower@ == ascii_lowercase(chars@),
{
    let mut lower: Vec<char> = Vec::new();
    let mut index: usize = 0;
    while index < chars.len()
        invariant
            index <= chars@.len(),
            lower@ == ascii_lowercase(chars@.take(index as int)),
        decreases chars@.len() - index,
    {
        lower.push(lower_char(chars[index]));
        index = index + 1;
        assert(lower@ =~= ascii_lowercase(chars@.take(index as int)));
    }
    assert(chars@.take(chars@.len() as int) =~= chars@);
    lower
}

/// Whether `chars` are exactly the characters of `text`.
pub fn equals_text(chars: &Vec<char>, text: &str) -> (equal: bool)
    ensures
        equal == (chars@ == text@),
{
    let wanted = chars_of(text);
    if wanted.len() != chars.len() {
        return false;
    }
    let mut index: usize = 0;
    while index < wanted.len()
        invariant
            wanted@ == text@,
            wanted@.len() == chars@.len(),
            index <= wanted@.len(),
            forall|i: int| 0 <= i < index ==> chars@[i] == wanted@[i],
        decreases wanted@.len() - index,
    {
        if chars[index] != wanted[index] {
            return false;
        }
        index = index + 1;
    }
    assert(chars@ =~= wanted@);
    true
}

/// Whether every character is whitespace.
pub fn is_blank_chars(chars: &Vec<char>) -> (blank: bool)
    ensures
        blank == is_blank(chars@),
{
    let end = skip_whitespace(chars, 0);
    proof {
        lemma_skip_from_bounds(chars@, 0, whitespace_class());
    }
    end == chars.len()
}

/// The character of a lowercase hexadecimal digit.
pub open spec fn hex_char(digit: int) -> char {
    if digit < 10 {
        digit_char(digit)
    } else if digit == 10 {
        'a'
    } else if digit == 11 {
        'b'
    } else if digit == 12 {
        'c'
    } else if digit == 13 {
        'd'
    } else if digit == 14 {
        'e'
    } else {
        'f'
    }
}

/// The last `width` hexadecimal digits of `n`, lowercase: for `n` below sixteen to the power
/// `width`, what `{:0width$x}` writes.
pub open spec fn hex_fixed(n: nat, width: nat) -> Seq<char>
    decreases width,
{
    if width == 0 {
        Seq::empty()
    } else {
        hex_fixed(n / 16, (width - 1) as nat).push(hex_char((n % 16) as int))
    }
}

fn hex_digit(value: u64) -> (c: char)
    requires
        value < 16,
    ensures
        c == hex_char(value as int),
{
    if value < 10 {
        digit(value as u128)
    } else if value == 10 {
        'a'
    } else if value == 11 {
        'b'
    } else if value == 12 {
        'c'
    } else if value == 13 {
        'd'
    } else if value == 14 {
        'e'
    } else {
        'f'
    }
}

/// Appends the last `width` hexadecimal digits of `n`.
pub fn push_hex_fixed(out: &mut String, n: u64, width: usize)
    ensures
        final(out)@ == old(out)@ + hex_fixed(n as nat, width as nat),
    decreases width,
{
    if width > 0 {
        push_hex_fixed(out, n / 16, width - 1);
        out.push(hex_digit(n % 16));
    }
}

/// `char::to_ascii_uppercase`.
pub open spec fn ascii_upper(c: char) -> char {
    if 'a' <= c <= 'z' {
        ((c as u32) - 32) as char
    } else {
        c
    }
}

/// `str::to_ascii_uppercase`: every ASCII small letter replaced by its capital.
pub open spec fn ascii_uppercase(chars: Seq<char>) -> Seq<char> {
    chars.map_values(|c: char| ascii_upper(c))
}

pub fn upper_char(c: char) -> (upper: char)
    ensures
        upper == ascii_upper(c),
{
    if 'a' <= c && c <= 'z' {
        ((c as u8) - 32) as char
    } else {
        c
    }
}

/// `text` with its ASCII small letters made capitals.
pub fn uppercase_ascii(text: &str) -> (upper: String)
    ensures
        upper@ == ascii_uppercase(text@),
{
    let chars = chars_of(text);
    let mut upper = String::new();
    let mut index: usize = 0;
    while index < chars.len()
        invariant
            chars@ == text@,
            index <= chars@.len(),
            upper@ == ascii_uppercase(chars@.take(index as int)),
        decreases chars@.len() - index,
    {
        upper.push(upper_char(chars[index]));
        index = index + 1;
        assert(upper@ =~= ascii_uppercase(chars@.take(index as int)));
    }
    assert(chars@.take(chars@.len() as int) =~= chars@);
    upper
}

} // verus!
