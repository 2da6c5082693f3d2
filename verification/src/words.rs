//! Reading what a command printed: its lines, the words of a line, and unsigned numbers.
use crate::text::{
    char_digit, chars_of, find_char, find_from, is_digit_char, is_whitespace, is_whitespace_char,
    lemma_skip_from_bounds, skip_from, skip_whitespace, string_of, whitespace_class,
};
use vstd::prelude::*;

verus! {

/// `str::lines`: the text cut at each `\n`, a `\r` just before it dropped, with no empty line
/// after a final `\n`.
pub open spec fn lines_of(text: Seq<char>) -> Seq<Seq<char>>
    decreases text.len(),
{
    if text.len() == 0 {
        Seq::empty()
    } else {
        let end = find_from(text, '\n', 0);
        proof {
            lemma_skip_from_bounds(text, 0, crate::text::other_than('\n'));
        }
        if end >= text.len() {
            seq![text]
        } else {
            let line = if end > 0 && text[end - 1] == '\r' {
                text.take(end - 1)
            } else {
                text.take(end)
            };
            seq![line] + lines_of(text.skip(end + 1))
        }
    }
}

/// The class of the characters that are not whitespace.
pub open spec fn word_class() -> spec_fn(char) -> bool {
    |c: char| !is_whitespace(c)
}

/// `str::split_whitespace`: the runs of characters between whitespace.
pub open spec fn words_of(text: Seq<char>) -> Seq<Seq<char>>
    decreases text.len(),
{
    let start = skip_from(text, 0, whitespace_class());
    proof {
        lemma_skip_from_bounds(text, 0, whitespace_class());
    }
    if start >= text.len() {
        Seq::empty()
    } else {
        let end = skip_from(text, start, word_class());
        proof {
            lemma_skip_from_bounds(text, start, word_class());
        }
        seq![text.subrange(start, end)] + words_of(text.skip(end))
    }
}

/// The value of a string of decimal digits.
pub open spec fn digits_value(digits: Seq<char>) -> nat
    decreases digits.len(),
{
    if digits.len() == 0 {
        0
    } else {
        digits_value(digits.drop_last()) * 10 + char_digit(digits.last()) as nat
    }
}

/// Whether every character is an ASCII digit.
pub open spec fn all_digits(digits: Seq<char>) -> bool {
    forall|i: int| 0 <= i < digits.len() ==> is_digit_char(#[trigger] digits[i])
}

/// `str::parse::<u32>`: an optional `+`, then at least one digit, for a value that fits.
pub open spec fn parsed_u32(token: Seq<char>) -> Option<u32> {
    let digits = if token.len() > 0 && token[0] == '+' {
        token.skip(1)
    } else {
        token
    };
    if digits.len() > 0 && all_digits(digits) && digits_value(digits) <= u32::MAX {
        Some(digits_value(digits) as u32)
    } else {
        None
    }
}

proof fn lemma_digits_value_grows(digits: Seq<char>, count: int)
    requires
        0 <= count <= digits.len(),
        all_digits(digits),
    ensures
        digits_value(digits.take(count)) <= digits_value(digits),
    decreases digits.len() - count,
{
    if count < digits.len() {
        let next = digits.take(count + 1);
        assert(next.drop_last() =~= digits.take(count));
        assert(is_digit_char(digits[count]));
        lemma_digits_value_grows(digits, count + 1);
    } else {
        assert(digits.take(count) =~= digits);
    }
}

/// A number written in decimal reads back as itself.
pub proof fn lemma_decimal_reads_back(n: nat)
    requires
        n <= u32::MAX,
    ensures
        parsed_u32(crate::text::decimal(n)) == Some(n as u32),
{
    lemma_decimal_value(n);
    crate::text::lemma_decimal_digits(n);
    let digits = crate::text::decimal(n);
    assert(is_digit_char(digits[0]));
}

proof fn lemma_decimal_value(n: nat)
    ensures
        digits_value(crate::text::decimal(n)) == n,
    decreases n,
{
    let digits = crate::text::decimal(n);
    let d = n % 10;
    assert(char_digit(crate::text::digit_char(d as int)) == d);
    if n < 10 {
        assert(d == n);
        assert(digits.drop_last() =~= Seq::<char>::empty());
        assert(digits.last() == crate::text::digit_char(n as int));
    } else {
        lemma_decimal_value(n / 10);
        assert(digits.drop_last() =~= crate::text::decimal(n / 10));
        assert(digits.last() == crate::text::digit_char(d as int));
        assert(n == (n / 10) * 10 + d);
    }
    assert(digits_value(Seq::<char>::empty()) == 0);
    assert(digits_value(digits) == digits_value(digits.drop_last()) * 10 + char_digit(digits.last()) as nat);
}

/// A word that the text opens with, followed by whitespace or by nothing, is its first word,
/// and the words after it are those of the rest.
pub proof fn lemma_words_open_with(word: Seq<char>, rest: Seq<char>)
    requires
        word.len() > 0,
        forall|i: int| 0 <= i < word.len() ==> !is_whitespace(#[trigger] word[i]),
        rest.len() == 0 || is_whitespace(rest[0]),
    ensures
        words_of(word + rest) == seq![word] + words_of(rest),
{
    let text = word + rest;
    assert(!whitespace_class()(text[0]));
    assert forall|i: int| 0 <= i < word.len() implies word_class()(#[trigger] text[i]) by {
        assert(text[i] == word[i]);
    }
    if rest.len() > 0 {
        assert(text[word.len() as int] == rest[0]);
    }
    crate::text::lemma_skip_from_run(text, 0, word.len() as int, word_class());
    assert(text.subrange(0, word.len() as int) =~= word);
    assert(text.skip(word.len() as int) =~= rest);
}

/// Whitespace before a text adds no word to it.
pub proof fn lemma_words_skip_leading_space(c: char, rest: Seq<char>)
    requires
        is_whitespace(c),
    ensures
        words_of(seq![c] + rest) == words_of(rest),
{
    let text = seq![c] + rest;
    assert(text.skip(1) =~= rest);
    lemma_skip_from_shift(text, 1, 0, whitespace_class());
    lemma_skip_from_bounds(text, 1, whitespace_class());
    lemma_skip_from_bounds(rest, 0, whitespace_class());
    let start = skip_from(text, 0, whitespace_class());
    assert(start == skip_from(text, 1, whitespace_class()));
    if start < text.len() {
        lemma_skip_from_shift(text, 1, start - 1, word_class());
        lemma_skip_from_bounds(text, start, word_class());
        let end = skip_from(text, start, word_class());
        assert(text.subrange(start, end) =~= rest.subrange(start - 1, end - 1));
        assert(text.skip(end) =~= rest.skip(end - 1));
    }
}

/// The number a word spells, as `str::parse::<u32>` reads it.
pub fn parse_u32(token: &Vec<char>) -> (value: Option<u32>)
    ensures
        value == parsed_u32(token@),
{
    let start: usize = if token.len() > 0 && token[0] == '+' {
        1
    } else {
        0
    };
    let ghost digits = if token@.len() > 0 && token@[0] == '+' {
        token@.skip(1)
    } else {
        token@
    };
    assert(digits =~= token@.skip(start as int));
    assert(parsed_u32(token@) == if digits.len() > 0 && all_digits(digits) && digits_value(digits)
        <= u32::MAX {
        Some(digits_value(digits) as u32)
    } else {
        None::<u32>
    });
    if start >= token.len() {
        return None;
    }
    let mut value: u64 = 0;
    let mut index: usize = start;
    while index < token.len()
        invariant
            start <= index <= token@.len(),
            digits == token@.skip(start as int),
            all_digits(digits.take(index - start)),
            value == digits_value(digits.take(index - start)),
            value <= u32::MAX,
            digits.len() > 0,
            parsed_u32(token@) == if all_digits(digits) && digits_value(digits) <= u32::MAX {
                Some(digits_value(digits) as u32)
            } else {
                None::<u32>
            },
        decreases token@.len() - index,
    {
        let c = token[index];
        let ghost before = digits.take(index - start);
        let ghost after = digits.take(index + 1 - start);
        assert(after.drop_last() =~= before);
        assert(after.last() == c);
        if c < '0' || c > '9' {
            assert(digits[index - start] == token@[index as int]);
            assert(!is_digit_char(digits[index - start]));
            assert(!all_digits(digits));
            return None;
        }
        let next: u64 = value * 10 + (c as u64 - '0' as u64);
        assert(next == digits_value(after));
        assert(all_digits(after)) by {
            assert forall|i: int| 0 <= i < after.len() implies is_digit_char(#[trigger] after[i]) by {
                if i < after.len() - 1 {
                    assert(after[i] == before[i]);
                }
            }
        }
        if next > 0xffff_ffff {
            proof {
                if all_digits(digits) {
                    lemma_digits_value_grows(digits, index + 1 - start);
                    assert(digits_value(digits) > u32::MAX);
                }
                assert(parsed_u32(token@) is None);
            }
            return None;
        }
        value = next;
        index = index + 1;
    }
    assert(digits.take(index - start) =~= digits);
    Some(value as u32)
}

/// The lines of `text`, each as its characters.
pub fn lines(text: &str) -> (lines: Vec<Vec<char>>)
    ensures
        lines@.map_values(|line: Vec<char>| line@) == lines_of(text@),
{
    let chars = chars_of(text);
    let mut lines: Vec<Vec<char>> = Vec::new();
    let mut from: usize = 0;
    assert(chars@.skip(0) =~= chars@);
    while from < chars.len()
        invariant
            chars@ == text@,
            from <= chars@.len(),
            lines@.map_values(|line: Vec<char>| line@) + lines_of(chars@.skip(from as int))
                == lines_of(text@),
        decreases chars@.len() - from,
    {
        let ghost rest = chars@.skip(from as int);
        let end = find_char(&chars, '\n', from);
        proof {
            lemma_skip_from_bounds(chars@, from as int, crate::text::other_than('\n'));
            lemma_find_in_rest(chars@, from as int);
        }
        let cut: usize = if end > from && chars[end - 1] == '\r' && end < chars.len() {
            end - 1
        } else {
            end
        };
        let mut line: Vec<char> = Vec::new();
        let mut index: usize = from;
        while index < cut
            invariant
                from <= index <= cut <= chars@.len(),
                line@ == chars@.subrange(from as int, index as int),
            decreases cut - index,
        {
            line.push(chars[index]);
            index = index + 1;
            assert(line@ =~= chars@.subrange(from as int, index as int));
        }
        let ghost before = lines@.map_values(|line: Vec<char>| line@);
        lines.push(line);
        proof {
            let local_end = end - from;
            if end >= chars@.len() {
                assert(rest =~= chars@.subrange(from as int, cut as int));
                assert(chars@.skip(end as int) =~= Seq::<char>::empty());
            } else {
                if cut < end {
                    assert(rest.take(local_end - 1) =~= chars@.subrange(from as int, cut as int));
                } else {
                    assert(rest.take(local_end) =~= chars@.subrange(from as int, cut as int));
                }
                assert(rest.skip(local_end + 1) =~= chars@.skip(end + 1));
            }
            assert(lines@.map_values(|line: Vec<char>| line@) =~= before.push(
                chars@.subrange(from as int, cut as int),
            ));
        }
        if end >= chars.len() {
            from = chars.len();
            assert(lines_of(chars@.skip(from as int)) =~= Seq::<Seq<char>>::empty()) by {
                assert(chars@.skip(from as int) =~= Seq::<char>::empty());
            }
            assert(lines@.map_values(|line: Vec<char>| line@) + lines_of(chars@.skip(from as int))
                =~= lines@.map_values(|line: Vec<char>| line@));
        } else {
            from = end + 1;
        }
    }
    assert(chars@.skip(from as int) =~= Seq::<char>::empty());
    assert(lines@.map_values(|line: Vec<char>| line@) + lines_of(chars@.skip(from as int))
        =~= lines@.map_values(|line: Vec<char>| line@));
    lines
}

/// Where the next `\n` lies, seen from the rest of the text.
proof fn lemma_find_in_rest(chars: Seq<char>, from: int)
    requires
        0 <= from <= chars.len(),
    ensures
        find_from(chars.skip(from), '\n', 0) == find_from(chars, '\n', from) - from,
    decreases chars.len() - from,
{
    lemma_skip_from_shift(chars, from, 0, crate::text::other_than('\n'));
}

/// Skipping from a position of the rest of a text is skipping from the same position of the
/// whole, shifted.
pub proof fn lemma_skip_from_shift(chars: Seq<char>, from: int, at: int, class: spec_fn(char) -> bool)
    requires
        0 <= from <= chars.len(),
        0 <= at <= chars.len() - from,
    ensures
        skip_from(chars.skip(from), at, class) == skip_from(chars, from + at, class) - from,
    decreases chars.len() - from - at,
{
    if at < chars.len() - from && class(chars[from + at]) {
        lemma_skip_from_shift(chars, from, at + 1, class);
    }
}

/// The index of the first whitespace character at or after `from`, or the length.
fn skip_word(chars: &Vec<char>, from: usize) -> (index: usize)
    requires
        from <= chars@.len(),
    ensures
        index == skip_from(chars@, from as int, word_class()),
{
    let mut index = from;
    while index < chars.len() && !is_whitespace_char(chars[index])
        invariant
            from <= index <= chars@.len(),
            skip_from(chars@, index as int, word_class()) == skip_from(
                chars@,
                from as int,
                word_class(),
            ),
        decreases chars@.len() - index,
    {
        index = index + 1;
    }
    index
}

/// The words of `chars`, as `str::split_whitespace` gives them.
pub fn words(chars: &Vec<char>) -> (words: Vec<Vec<char>>)
    ensures
        words@.map_values(|word: Vec<char>| word@) == words_of(chars@),
{
    let mut words: Vec<Vec<char>> = Vec::new();
    let mut from: usize = 0;
    assert(chars@.skip(0) =~= chars@);
    loop
        invariant
            from <= chars@.len(),
            words@.map_values(|word: Vec<char>| word@) + words_of(chars@.skip(from as int))
                == words_of(chars@),
        decreases chars@.len() - from,
    {
        let ghost rest = chars@.skip(from as int);
        let start = skip_whitespace(chars, from);
        proof {
            lemma_skip_from_bounds(chars@, from as int, whitespace_class());
            lemma_skip_from_shift(chars@, from as int, 0, whitespace_class());
        }
        if start >= chars.len() {
            assert(words_of(rest) =~= Seq::<Seq<char>>::empty());
            assert(words@.map_values(|word: Vec<char>| word@) + words_of(rest)
                =~= words@.map_values(|word: Vec<char>| word@));
            return words;
        }
        let end = skip_word(chars, start);
        proof {
            lemma_skip_from_bounds(chars@, start as int, word_class());
            lemma_skip_from_shift(chars@, from as int, start - from, word_class());
            assert(rest.subrange(start - from, end - from) =~= chars@.subrange(
                start as int,
                end as int,
            ));
            assert(rest.skip(end - from) =~= chars@.skip(end as int));
        }
        let word = crate::words::slice_chars(chars, start, end);
        let ghost before = words@.map_values(|word: Vec<char>| word@);
        words.push(word);
        assert(words@.map_values(|word: Vec<char>| word@) =~= before.push(
            chars@.subrange(start as int, end as int),
        ));
        from = end;
    }
}

/// The characters `from..to`.
pub fn slice_chars(chars: &Vec<char>, from: usize, to: usize) -> (part: Vec<char>)
    requires
        from <= to <= chars@.len(),
    ensures
        part@ == chars@.subrange(from as int, to as int),
{
    let mut part: Vec<char> = Vec::new();
    let mut index: usize = from;
    while index < to
        invariant
            from <= index <= to <= chars@.len(),
            part@ == chars@.subrange(from as int, index as int),
        decreases to - index,
    {
        part.push(chars[index]);
        index = index + 1;
        assert(part@ =~= chars@.subrange(from as int, index as int));
    }
    part
}

} // verus!
