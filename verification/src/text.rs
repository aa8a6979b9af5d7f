//! Text helpers shared by the other modules.

use vstd::prelude::*;
use vstd::utf8::is_ascii_chars;

verus! {

/// Appends `c` to `s`.
///
/// Calls [`String::push`], which is documented to append the character to the
/// end of the string.
#[verifier::external_body]
pub(crate) fn push_char(s: &mut String, c: char)
    ensures
        final(s)@ == old(s)@.push(c),
{
    s.push(c);
}

/// The characters of `s`, in order.
pub fn chars_of(s: &str) -> (chars: Vec<char>)
    ensures
        chars@ == s@,
{
    let mut chars: Vec<char> = Vec::new();
    for c in it: s.chars()
        invariant
            it.seq() == s@,
            chars@ == s@.take(it.index()),
    {
        chars.push(c);
    }
    chars
}

/// The string made of `chars`.
pub fn string_of(chars: &Vec<char>) -> (s: String)
    ensures
        s@ == chars@,
{
    let mut s = String::new();
    for i in 0..chars.len()
        invariant
            s@ == chars@.take(i as int),
    {
        push_char(&mut s, chars[i]);
    }
    s
}

/// Whether `a` and `b` hold the same characters.
pub fn same_text(a: &str, b: &str) -> (same: bool)
    ensures
        same == (a@ == b@),
{
    a.to_string() == b.to_string()
}

/// The characters of a text that may be missing.
pub open spec fn text_view(text: Option<String>) -> Option<Seq<char>> {
    match text {
        Some(t) => Some(t@),
        None => None,
    }
}

/// A copy of a text that may be missing.
pub fn copy_text(text: &Option<String>) -> (copy: Option<String>)
    ensures
        text_view(copy) == text_view(*text),
{
    match text {
        Some(t) => Some(t.clone()),
        None => None,
    }
}

/// Whether `c` has the Unicode property `White_Space`.
pub open spec fn is_white_space(c: char) -> bool {
    ||| '\u{9}' <= c <= '\u{d}'
    ||| c == '\u{20}'
    ||| c == '\u{85}'
    ||| c == '\u{a0}'
    ||| c == '\u{1680}'
    ||| '\u{2000}' <= c <= '\u{200a}'
    ||| c == '\u{2028}'
    ||| c == '\u{2029}'
    ||| c == '\u{202f}'
    ||| c == '\u{205f}'
    ||| c == '\u{3000}'
}

/// Whether `c` has the Unicode property `White_Space`.
pub fn white_space(c: char) -> (white: bool)
    ensures
        white == is_white_space(c),
{
    (c >= '\u{9}' && c <= '\u{d}') || c == '\u{20}' || c == '\u{85}' || c == '\u{a0}' || c
        == '\u{1680}' || (c >= '\u{2000}' && c <= '\u{200a}') || c == '\u{2028}' || c == '\u{2029}'
        || c == '\u{202f}' || c == '\u{205f}' || c == '\u{3000}'
}

/// `text` without the white space that it starts with.
pub open spec fn trimmed_start(text: Seq<char>) -> Seq<char>
    decreases text.len(),
{
    if text.len() > 0 && is_white_space(text[0]) {
        trimmed_start(text.skip(1))
    } else {
        text
    }
}

/// `text` without the white space that it ends with.
pub open spec fn trimmed_end(text: Seq<char>) -> Seq<char>
    decreases text.len(),
{
    if text.len() > 0 && is_white_space(text.last()) {
        trimmed_end(text.drop_last())
    } else {
        text
    }
}

/// `text` without the white space that it starts and ends with.
pub open spec fn trimmed(text: Seq<char>) -> Seq<char> {
    trimmed_end(trimmed_start(text))
}

/// `text` without the white space that it starts and ends with.
pub fn trim(text: &Vec<char>) -> (core: Vec<char>)
    ensures
        core@ == trimmed(text@),
{
    let mut start: usize = 0;
    assert(text@.skip(0) =~= text@);
    while start < text.len() && white_space(text[start])
        invariant
            start <= text@.len(),
            trimmed_start(text@) == trimmed_start(text@.skip(start as int)),
        decreases text.len() - start,
    {
        assert(text@.skip(start as int).skip(1) =~= text@.skip(start + 1));
        start = start + 1;
    }
    let ghost from = text@.skip(start as int);
    assert(trimmed_start(text@) == from);
    let mut end: usize = text.len();
    assert(text@.subrange(start as int, end as int) =~= from);
    while end > start && white_space(text[end - 1])
        invariant
            start <= end <= text@.len(),
            trimmed_end(from) == trimmed_end(text@.subrange(start as int, end as int)),
        decreases end,
    {
        assert(text@.subrange(start as int, end as int).drop_last() =~= text@.subrange(
            start as int,
            end - 1,
        ));
        end = end - 1;
    }
    let mut core: Vec<char> = Vec::new();
    let mut i: usize = start;
    while i < end
        invariant
            start <= i <= end <= text@.len(),
            core@ == text@.subrange(start as int, i as int),
        decreases end - i,
    {
        core.push(text[i]);
        i = i + 1;
        assert(core@ =~= text@.subrange(start as int, i as int));
    }
    core
}

/// `c` with an ASCII letter in lower case.
pub open spec fn ascii_lower(c: char) -> char {
    if 'A' <= c <= 'Z' {
        (c as int + 32) as char
    } else {
        c
    }
}

/// `c` with an ASCII letter in upper case.
pub open spec fn ascii_upper(c: char) -> char {
    if 'a' <= c <= 'z' {
        (c as int - 32) as char
    } else {
        c
    }
}

/// `text` with its ASCII letters in lower case.
pub open spec fn ascii_lowered(text: Seq<char>) -> Seq<char> {
    text.map_values(|c: char| ascii_lower(c))
}

/// `text` with its ASCII letters in upper case.
pub open spec fn ascii_uppered(text: Seq<char>) -> Seq<char> {
    text.map_values(|c: char| ascii_upper(c))
}

/// `c` with an ASCII letter in lower case.
fn to_ascii_lower(c: char) -> (lower: char)
    ensures
        lower == ascii_lower(c),
{
    if c >= 'A' && c <= 'Z' {
        ((c as u8) + 32) as char
    } else {
        c
    }
}

/// Whether `a` and `b` are the same but for the case of ASCII letters.
pub fn same_ignoring_ascii_case(a: &str, b: &str) -> (same: bool)
    ensures
        same == (ascii_lowered(a@) == ascii_lowered(b@)),
{
    let x = chars_of(a);
    let y = chars_of(b);
    if x.len() != y.len() {
        assert(ascii_lowered(a@).len() != ascii_lowered(b@).len());
        return false;
    }
    for i in 0..x.len()
        invariant
            x@ == a@,
            y@ == b@,
            x@.len() == y@.len(),
            forall|j: int| 0 <= j < i ==> ascii_lower(x@[j]) == ascii_lower(y@[j]),
    {
        if to_ascii_lower(x[i]) != to_ascii_lower(y[i]) {
            assert(ascii_lowered(a@)[i as int] != ascii_lowered(b@)[i as int]);
            return false;
        }
    }
    assert(ascii_lowered(a@) =~= ascii_lowered(b@));
    true
}

/// What [`str::to_uppercase`] makes of a text.
pub uninterp spec fn uppercased(text: Seq<char>) -> Seq<char>;

/// `text` in upper case, as Unicode defines it.
///
/// Calls [`str::to_uppercase`]. Claimed of it: the result depends on the text
/// alone, and a text of ASCII characters has its letters turned to upper case
/// and nothing else changed.
#[verifier::external_body]
pub(crate) fn to_uppercase(text: &str) -> (upper: String)
    ensures
        upper@ == uppercased(text@),
        is_ascii_chars(text@) ==> upper@ == ascii_uppered(text@),
{
    text.to_uppercase()
}

/// Text compares equal, the case of ASCII letters ignored, only where it is equal
/// at every place but for the case of a letter.
pub proof fn law_case_is_all_that_is_ignored(a: Seq<char>, b: Seq<char>)
    ensures
        ascii_lowered(a) == ascii_lowered(b) <==> {
            &&& a.len() == b.len()
            &&& forall|k: int|
                0 <= k < a.len() ==> {
                    ||| (#[trigger] a[k]) == b[k]
                    ||| 65 <= (a[k] as int) <= 90 && (b[k] as int) == (a[k] as int) + 32
                    ||| 65 <= (b[k] as int) <= 90 && (a[k] as int) == (b[k] as int) + 32
                }
        },
{
    let x = ascii_lowered(a);
    let y = ascii_lowered(b);
    if x == y {
        assert(x.len() == a.len() && y.len() == b.len());
        assert forall|k: int| 0 <= k < a.len() implies {
            ||| (#[trigger] a[k]) == b[k]
            ||| 65 <= (a[k] as int) <= 90 && (b[k] as int) == (a[k] as int) + 32
            ||| 65 <= (b[k] as int) <= 90 && (a[k] as int) == (b[k] as int) + 32
        } by {
            assert(x[k] == ascii_lower(a[k]));
            assert(y[k] == ascii_lower(b[k]));
        }
    } else {
        if a.len() == b.len() && forall|k: int|
            0 <= k < a.len() ==> {
                ||| (#[trigger] a[k]) == b[k]
                ||| 65 <= (a[k] as int) <= 90 && (b[k] as int) == (a[k] as int) + 32
                ||| 65 <= (b[k] as int) <= 90 && (a[k] as int) == (b[k] as int) + 32
            } {
            assert forall|k: int| 0 <= k < x.len() implies x[k] == y[k] by {
                assert(a[k] == a[k]);
            }
            assert(x =~= y);
        }
    }
}

/// Capital letters stand in for the 26 small ASCII letters, place by place, and
/// every other character stays.
pub proof fn law_only_small_letters_change(text: Seq<char>)
    ensures
        ascii_uppered(text).len() == text.len(),
        forall|k: int|
            0 <= k < text.len() ==> (#[trigger] ascii_uppered(text)[k] as int) == (if 97
                <= (text[k] as int) <= 122 {
                (text[k] as int) - 32
            } else {
                text[k] as int
            }),
{
}

/// White space is the characters with these codes.
pub proof fn law_white_space_codes(c: char)
    ensures
        is_white_space(c) <==> {
            ||| 9 <= (c as int) <= 13
            ||| (c as int) == 32
            ||| (c as int) == 133
            ||| (c as int) == 160
            ||| (c as int) == 5760
            ||| 8192 <= (c as int) <= 8202
            ||| 8232 <= (c as int) <= 8233
            ||| (c as int) == 8239
            ||| (c as int) == 8287
            ||| (c as int) == 12288
        },
{
}

/// What is left of a text, white space trimmed off its start.
proof fn lemma_trimmed_start(text: Seq<char>) -> (start: int)
    ensures
        0 <= start <= text.len(),
        trimmed_start(text) == text.skip(start),
        forall|k: int| 0 <= k < start ==> is_white_space(#[trigger] text[k]),
        start < text.len() ==> !is_white_space(text[start]),
    decreases text.len(),
{
    if text.len() > 0 && is_white_space(text[0]) {
        let rest = text.skip(1);
        let inner = lemma_trimmed_start(rest);
        assert(rest.skip(inner) =~= text.skip(inner + 1));
        assert forall|k: int| 0 <= k < inner + 1 implies is_white_space(#[trigger] text[k]) by {
            if k > 0 {
                assert(text[k] == rest[k - 1]);
            }
        }
        inner + 1
    } else {
        assert(text.skip(0) =~= text);
        0
    }
}

/// What is left of a text, white space trimmed off its end.
proof fn lemma_trimmed_end(text: Seq<char>) -> (end: int)
    ensures
        0 <= end <= text.len(),
        trimmed_end(text) == text.take(end),
        forall|k: int| end <= k < text.len() ==> is_white_space(#[trigger] text[k]),
        end > 0 ==> !is_white_space(text[end - 1]),
    decreases text.len(),
{
    if text.len() > 0 && is_white_space(text.last()) {
        let front = text.drop_last();
        let end = lemma_trimmed_end(front);
        assert(front.take(end) =~= text.take(end));
        assert forall|k: int| end <= k < text.len() implies is_white_space(#[trigger] text[k]) by {
            if k < front.len() {
                assert(text[k] == front[k]);
            }
        }
        end
    } else {
        assert(text.take(text.len() as int) =~= text);
        text.len() as int
    }
}

/// Trimming takes off white space at both ends and nothing else: what is left
/// stands in the text, with white space around it and none at its own ends.
pub proof fn law_trimming_takes_off_white_space(text: Seq<char>) -> (bounds: (int, int))
    ensures
        0 <= bounds.0 <= bounds.1 <= text.len(),
        trimmed(text) == text.subrange(bounds.0, bounds.1),
        forall|k: int|
            0 <= k < bounds.0 || bounds.1 <= k < text.len() ==> is_white_space(#[trigger] text[k]),
        bounds.0 < bounds.1 ==> !is_white_space(text[bounds.0]) && !is_white_space(
            text[bounds.1 - 1],
        ),
{
    let start = lemma_trimmed_start(text);
    let rest = text.skip(start);
    let end = lemma_trimmed_end(rest);
    assert(rest.take(end) =~= text.subrange(start, start + end));
    assert forall|k: int| 0 <= k < start || start + end <= k < text.len() implies is_white_space(
        #[trigger] text[k],
    ) by {
        if k >= start {
            assert(text[k] == rest[k - start]);
        }
    }
    if end > 0 {
        assert(rest[end - 1] == text[start + end - 1]);
    }
    (start, start + end)
}

} // verus!
