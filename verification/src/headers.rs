//! HTTP headers: what is sent with a request, and what is read off a response.

use reqwest::header::{HeaderMap, HeaderName, HeaderValue, InvalidHeaderName, InvalidHeaderValue};
use vstd::prelude::*;
use vstd::utf8::encode_utf8;

use crate::text::{ascii_lowered, push_char};
use crate::x402_client::X402ClientError;

verus! {

/// [`HeaderMap`] of the `http` crate, opaque here; [`header_values`] says what
/// it holds.
#[verifier::external_type_specification]
#[verifier::external_body]
#[verifier::reject_recursive_types(T)]
pub struct ExHeaderMap<T>(HeaderMap<T>);

/// [`HeaderValue`] of the `http` crate, opaque here.
#[verifier::external_type_specification]
#[verifier::external_body]
pub struct ExHeaderValue(HeaderValue);

/// [`InvalidHeaderName`] of the `http` crate, opaque here.
#[verifier::external_type_specification]
#[verifier::external_body]
pub struct ExInvalidHeaderName(InvalidHeaderName);

/// [`InvalidHeaderValue`] of the `http` crate, opaque here.
#[verifier::external_type_specification]
#[verifier::external_body]
pub struct ExInvalidHeaderValue(InvalidHeaderValue);

/// What a header map holds: for each header name, in lower case, its values in
/// the order in which they were added.
pub uninterp spec fn header_values(map: HeaderMap<HeaderValue>) -> Map<Seq<char>, Seq<Seq<u8>>>;

/// What an empty header map holds.
pub open spec fn no_headers() -> Map<Seq<char>, Seq<Seq<u8>>> {
    Map::empty()
}

/// A header map with fewer names than this takes one more.
pub const HEADER_ROOM: usize = 6554;

/// Whether `c` may stand in a header name.
pub open spec fn is_name_char(c: char) -> bool {
    ||| '0' <= c <= '9'
    ||| 'A' <= c <= 'Z'
    ||| '^' <= c <= 'z'
    ||| c == '!'
    ||| '#' <= c <= '\''
    ||| c == '*'
    ||| c == '+'
    ||| c == '-'
    ||| c == '.'
    ||| c == '|'
    ||| c == '~'
}

/// Whether `text` is a header name.
pub open spec fn is_header_name(text: Seq<char>) -> bool {
    &&& 1 <= text.len() <= 65535
    &&& forall|i: int| 0 <= i < text.len() ==> is_name_char(#[trigger] text[i])
}

/// Whether `c` may stand in a header value: no control character but the tab.
pub open spec fn is_value_char(c: char) -> bool {
    c == '\t' || (c >= ' ' && c != '\u{7f}')
}

/// Whether `text` may be sent as a header value.
pub open spec fn is_header_text(text: Seq<char>) -> bool {
    forall|i: int| 0 <= i < text.len() ==> is_value_char(#[trigger] text[i])
}

/// An empty header map.
///
/// Calls `HeaderMap::new`, which makes a map without entries.
#[verifier::external_body]
fn empty_header_map() -> (map: HeaderMap<HeaderValue>)
    ensures
        header_values(map) == no_headers(),
{
    HeaderMap::new()
}

/// `text` as a header name, which is kept in lower case.
///
/// Calls `HeaderName::from_bytes`. Claimed of it: it takes the texts that
/// [`is_header_name`] describes, and turns their letters to lower case.
#[verifier::external_body]
fn header_name(text: &str) -> (name: Result<String, InvalidHeaderName>)
    ensures
        match name {
            Ok(n) => is_header_name(text@) && n@ == ascii_lowered(text@),
            Err(_) => !is_header_name(text@),
        },
{
    HeaderName::from_bytes(text.as_bytes()).map(|name| name.as_str().to_string())
}

/// The bytes of `text` as a header value.
///
/// Calls `HeaderValue::from_str`. Claimed of it: it takes the texts that
/// [`is_header_text`] describes, and keeps their UTF-8 bytes.
#[verifier::external_body]
fn header_value(text: &str) -> (value: Result<Vec<u8>, InvalidHeaderValue>)
    ensures
        match value {
            Ok(v) => is_header_text(text@) && v@ == encode_utf8(text@),
            Err(_) => !is_header_text(text@),
        },
{
    HeaderValue::from_str(text).map(|value| value.as_bytes().to_vec())
}

/// Gives the header `name` the one value `value`, unless the map is full.
///
/// Calls `HeaderMap::try_insert`; `HeaderMap::insert` is the same but panics
/// where the map is full. Claimed of it: it replaces all values that the name
/// had; where it refuses, the map holds what it held; and it does not refuse a
/// map with fewer than [`HEADER_ROOM`] names. When it refuses a larger one
/// depends on how the names hash, and is left unsaid.
#[verifier::external_body]
fn insert_header(map: &mut HeaderMap<HeaderValue>, name: &String, text: &String) -> (inserted: bool)
    requires
        is_header_name(name@),
        is_header_text(text@),
    ensures
        inserted ==> header_values(*final(map)) == header_values(*old(map)).insert(
            ascii_lowered(name@),
            seq![encode_utf8(text@)],
        ),
        !inserted ==> header_values(*final(map)) == header_values(*old(map)),
        header_values(*old(map)).dom().len() < HEADER_ROOM ==> inserted,
{
    let name = HeaderName::from_bytes(name.as_bytes()).unwrap();
    map.try_insert(name, HeaderValue::from_str(text).unwrap()).is_ok()
}

/// The first value of the header `name`, if the map has one.
///
/// Calls `HeaderMap::get`, which is documented to return the first of several
/// values; letters in the name count as lower case.
#[verifier::external_body]
fn first_value(map: &HeaderMap<HeaderValue>, name: &str) -> (value: Option<Vec<u8>>)
    ensures
        match value {
            Some(v) => {
                &&& header_values(*map).dom().contains(ascii_lowered(name@))
                &&& header_values(*map)[ascii_lowered(name@)].len() > 0
                &&& v@ == header_values(*map)[ascii_lowered(name@)][0]
            },
            None => !header_values(*map).dom().contains(ascii_lowered(name@)),
        },
{
    map.get(name).map(|value| value.as_bytes().to_vec())
}

/// The values that `pairs` give `name`, in order.
pub open spec fn named_values(pairs: Seq<(String, Vec<u8>)>, name: Seq<char>) -> Seq<Seq<u8>>
    decreases pairs.len(),
{
    if pairs.len() == 0 {
        Seq::empty()
    } else if pairs.last().0@ == name {
        named_values(pairs.drop_last(), name).push(pairs.last().1@)
    } else {
        named_values(pairs.drop_last(), name)
    }
}

/// The values of `name` in what a header map holds; none if it lacks the name.
pub open spec fn values_of(held: Map<Seq<char>, Seq<Seq<u8>>>, name: Seq<char>) -> Seq<Seq<u8>> {
    if held.dom().contains(name) {
        held[name]
    } else {
        Seq::empty()
    }
}

/// The headers of the map, each name once per value.
///
/// Calls `HeaderMap::iter`. Claimed of it: it yields each name in lower case,
/// with all of its values in the order in which they were added, and nothing
/// else. The order of the names among each other is left unsaid.
#[verifier::external_body]
fn header_pairs(map: &HeaderMap<HeaderValue>) -> (pairs: Vec<(String, Vec<u8>)>)
    ensures
        forall|name: Seq<char>| #[trigger] named_values(pairs@, name) == values_of(header_values(*map), name),
{
    map.iter().map(|(name, value)| (name.as_str().to_string(), value.as_bytes().to_vec())).collect()
}

/// Whether HTTP allows a header.
pub open spec fn is_header(header: (String, String)) -> bool {
    is_header_name(header.0@) && is_header_text(header.1@)
}

/// What a header map holds once `headers` have been set in it, one after the
/// other; the last of several with one name stays.
pub open spec fn headers_set(headers: Seq<(String, String)>) -> Map<Seq<char>, Seq<Seq<u8>>>
    decreases headers.len(),
{
    if headers.len() == 0 {
        no_headers()
    } else {
        headers_set(headers.drop_last()).insert(
            ascii_lowered(headers.last().0@),
            seq![encode_utf8(headers.last().1@)],
        )
    }
}

/// There are no more names than headers.
proof fn lemma_headers_set_size(headers: Seq<(String, String)>)
    ensures
        headers_set(headers).dom().finite(),
        headers_set(headers).dom().len() <= headers.len(),
    decreases headers.len(),
{
    if headers.len() > 0 {
        lemma_headers_set_size(headers.drop_last());
        let before = headers_set(headers.drop_last());
        let name = ascii_lowered(headers.last().0@);
        assert(headers_set(headers).dom() =~= before.dom().insert(name));
    }
}

/// Whether `headers` holds one that HTTP does not allow at `place`, and none
/// before it.
pub open spec fn first_bad_header(headers: Seq<(String, String)>, place: int) -> bool {
    &&& 0 <= place < headers.len()
    &&& !is_header(headers[place])
    &&& forall|i: int| 0 <= i < place ==> is_header(#[trigger] headers[i])
}

/// Whether `error` is one that `headers` give: it tells of the first that HTTP
/// does not allow, or that there are too many.
pub open spec fn refuses_headers(headers: Seq<(String, String)>, error: X402ClientError) -> bool {
    match error {
        X402ClientError::InvalidHeaderName { name, source } => exists|i: int|
            #[trigger] first_bad_header(headers, i) && !is_header_name(headers[i].0@) && name@
                == headers[i].0@,
        X402ClientError::InvalidHeaderValue { name } => exists|i: int|
            #[trigger] first_bad_header(headers, i) && is_header_name(headers[i].0@) && name@
                == headers[i].0@,
        X402ClientError::TooManyHeaders => headers.len() > HEADER_ROOM,
        _ => false,
    }
}

/// The headers of a request, in the order in which they are given.
pub fn build_header_map(input: &Vec<(String, String)>) -> (map: Result<
    HeaderMap<HeaderValue>,
    X402ClientError,
>)
    ensures
        match map {
            Ok(m) => {
                &&& forall|i: int| 0 <= i < input@.len() ==> is_header(#[trigger] input@[i])
                &&& header_values(m) == headers_set(input@)
            },
            Err(error) => refuses_headers(input@, error),
        },
{
    let mut map = empty_header_map();
    let mut i: usize = 0;
    assert(input@.take(0) =~= seq![]);
    while i < input.len()
        invariant
            i <= input@.len(),
            header_values(map) == headers_set(input@.take(i as int)),
            forall|j: int| 0 <= j < i ==> is_header(#[trigger] input@[j]),
        decreases input.len() - i,
    {
        let name = &input[i].0;
        let text = &input[i].1;
        match header_name(name.as_str()) {
            Ok(_) => {},
            Err(source) => {
                assert(first_bad_header(input@, i as int));
                return Err(X402ClientError::InvalidHeaderName { name: name.clone(), source });
            },
        }
        match header_value(text.as_str()) {
            Ok(_) => {},
            Err(_) => {
                assert(first_bad_header(input@, i as int));
                return Err(X402ClientError::InvalidHeaderValue { name: name.clone() });
            },
        }
        proof {
            lemma_headers_set_size(input@.take(i as int));
            assert(input@.take(i + 1).drop_last() =~= input@.take(i as int));
        }
        if !insert_header(&mut map, name, text) {
            return Err(X402ClientError::TooManyHeaders);
        }
        i = i + 1;
    }
    assert(input@.take(i as int) =~= input@);
    Ok(map)
}

/// Whether `b` is a visible ASCII character, a space or a tab.
pub open spec fn is_visible(b: u8) -> bool {
    b == 9 || 32 <= b < 127
}

/// Whether a header value can be read as text.
pub open spec fn is_visible_value(value: Seq<u8>) -> bool {
    forall|i: int| 0 <= i < value.len() ==> is_visible(#[trigger] value[i])
}

/// The characters with the codes in `value`.
pub open spec fn ascii_text(value: Seq<u8>) -> Seq<char> {
    value.map_values(|b: u8| b as char)
}

/// The text of a header value, if it can be read as text.
pub open spec fn value_text(value: Seq<u8>) -> Option<Seq<char>> {
    if is_visible_value(value) {
        Some(ascii_text(value))
    } else {
        None
    }
}

/// The text of a header value, if it can be read as text.
fn visible_text(value: &Vec<u8>) -> (text: Option<String>)
    ensures
        match text {
            Some(t) => value_text(value@) == Some(t@),
            None => value_text(value@) is None,
        },
{
    let mut text = String::new();
    for i in 0..value.len()
        invariant
            forall|j: int| 0 <= j < i ==> is_visible(#[trigger] value@[j]),
            text@ == ascii_text(value@.take(i as int)),
    {
        let b: u8 = value[i];
        if !(b == 9 || (32 <= b && b < 127)) {
            return None;
        }
        push_char(&mut text, b as char);
        assert(text@ =~= ascii_text(value@.take(i + 1)));
    }
    assert(value@.take(value@.len() as int) =~= value@);
    Some(text)
}

/// The text of the last of `values` that can be read as text.
pub open spec fn last_text(values: Seq<Seq<u8>>) -> Option<Seq<char>>
    decreases values.len(),
{
    if values.len() == 0 {
        None
    } else if is_visible_value(values.last()) {
        Some(ascii_text(values.last()))
    } else {
        last_text(values.drop_last())
    }
}

/// The text that `pairs` give `name`: that of the first pair with this name.
pub open spec fn text_for(pairs: Seq<(String, String)>, name: Seq<char>) -> Option<Seq<char>>
    decreases pairs.len(),
{
    if pairs.len() == 0 {
        None
    } else if text_for(pairs.drop_last(), name) is Some {
        text_for(pairs.drop_last(), name)
    } else if pairs.last().0@ == name {
        Some(pairs.last().1@)
    } else {
        None
    }
}

/// Whether no name occurs twice.
pub open spec fn distinct_names(pairs: Seq<(String, String)>) -> bool {
    forall|i: int, j: int|
        0 <= i < j < pairs.len() ==> (#[trigger] pairs[i]).0@ != (#[trigger] pairs[j]).0@
}

/// The text for a name is that of a pair with the name, and there is none
/// without such a pair.
proof fn lemma_text_for(pairs: Seq<(String, String)>, name: Seq<char>)
    requires
        distinct_names(pairs),
    ensures
        forall|i: int|
            0 <= i < pairs.len() && (#[trigger] pairs[i]).0@ == name ==> text_for(pairs, name) == Some(
                pairs[i].1@,
            ),
        (forall|i: int| 0 <= i < pairs.len() ==> (#[trigger] pairs[i]).0@ != name) ==> text_for(
            pairs,
            name,
        ) is None,
    decreases pairs.len(),
{
    if pairs.len() > 0 {
        let front = pairs.drop_last();
        lemma_text_for(front, name);
        assert forall|i: int| 0 <= i < pairs.len() && (#[trigger] pairs[i]).0@ == name implies text_for(
            pairs,
            name,
        ) == Some(pairs[i].1@) by {
            if i < front.len() {
                assert(front[i] == pairs[i]);
            } else {
                assert forall|j: int| 0 <= j < front.len() implies (#[trigger] front[j]).0@ != name by {
                    assert(front[j] == pairs[j]);
                }
            }
        }
        if forall|i: int| 0 <= i < pairs.len() ==> (#[trigger] pairs[i]).0@ != name {
            assert forall|j: int| 0 <= j < front.len() implies (#[trigger] front[j]).0@ != name by {
                assert(front[j] == pairs[j]);
            }
        }
    }
}

/// Gives `name` the text `text`, in place of what it had.
fn set_text(pairs: &mut Vec<(String, String)>, name: String, text: String)
    requires
        distinct_names(old(pairs)@),
    ensures
        distinct_names(final(pairs)@),
        text_for(final(pairs)@, name@) == Some(text@),
        forall|other: Seq<char>|
            other != name@ ==> #[trigger] text_for(final(pairs)@, other) == text_for(old(pairs)@, other),
{
    let ghost before = pairs@;
    let mut i: usize = 0;
    while i < pairs.len()
        invariant
            i <= pairs@.len(),
            pairs@ == before,
            before == old(pairs)@,
            distinct_names(before),
            forall|j: int| 0 <= j < i ==> (#[trigger] pairs@[j]).0@ != name@,
        decreases pairs.len() - i,
    {
        if pairs[i].0 == name {
            let ghost named = name@;
            pairs.set(i, (name, text));
            proof {
                let after = pairs@;
                assert forall|j: int, k: int| 0 <= j < k < after.len() implies (#[trigger] after[j]).0@
                    != (#[trigger] after[k]).0@ by {
                    assert(after[j].0@ == before[j].0@);
                    assert(after[k].0@ == before[k].0@);
                }
                lemma_text_for(after, named);
                assert(after[i as int].0@ == named);
                assert forall|other: Seq<char>| other != named implies #[trigger] text_for(after, other)
                    == text_for(before, other) by {
                    lemma_text_for(after, other);
                    lemma_text_for(before, other);
                    if exists|j: int| 0 <= j < before.len() && (#[trigger] before[j]).0@ == other {
                        let j = choose|j: int| 0 <= j < before.len() && (#[trigger] before[j]).0@ == other;
                        assert(after[j] == before[j]);
                    } else {
                        assert forall|j: int| 0 <= j < after.len() implies (#[trigger] after[j]).0@
                            != other by {
                            assert(before[j].0@ != other);
                        }
                    }
                }
            }
            return;
        }
        i = i + 1;
    }
    let ghost named = name@;
    pairs.push((name, text));
    proof {
        assert(pairs@.drop_last() =~= before);
        lemma_text_for(before, named);
    }
}

/// The headers of a response that can be read as text; of several values of a
/// name the last that can be.
pub fn serialize_headers(map: &HeaderMap<HeaderValue>) -> (headers: Vec<(String, String)>)
    ensures
        distinct_names(headers@),
        forall|name: Seq<char>|
            #[trigger] text_for(headers@, name) == last_text(values_of(header_values(*map), name)),
{
    let pairs = header_pairs(map);
    let mut headers: Vec<(String, String)> = Vec::new();
    let mut i: usize = 0;
    assert(pairs@.take(0) =~= seq![]);
    while i < pairs.len()
        invariant
            i <= pairs@.len(),
            distinct_names(headers@),
            forall|name: Seq<char>|
                #[trigger] text_for(headers@, name) == last_text(
                    named_values(pairs@.take(i as int), name),
                ),
        decreases pairs.len() - i,
    {
        let ghost front = pairs@.take(i as int);
        let ghost upto = pairs@.take(i + 1);
        let ghost before = headers@;
        assert(upto.drop_last() =~= front);
        if let Some(text) = visible_text(&pairs[i].1) {
            set_text(&mut headers, pairs[i].0.clone(), text);
        }
        proof {
            assert forall|name: Seq<char>| #[trigger] text_for(headers@, name) == last_text(
                named_values(upto, name),
            ) by {
                assert(text_for(before, name) == last_text(named_values(front, name)));
                if upto.last().0@ == name {
                    assert(named_values(upto, name).drop_last() =~= named_values(front, name));
                }
            }
        }
        i = i + 1;
    }
    assert(pairs@.take(i as int) =~= pairs@);
    headers
}

/// The text of the first value of the header `name`, if the map has one that
/// can be read as text.
pub fn header_text(map: &HeaderMap<HeaderValue>, name: &str) -> (text: Option<String>)
    ensures
        match text {
            Some(t) => first_text(header_values(*map), name@) == Some(t@),
            None => first_text(header_values(*map), name@) is None,
        },
{
    match first_value(map, name) {
        Some(value) => visible_text(&value),
        None => None,
    }
}

/// The text of the first value of the header `name`, if there is one that can
/// be read as text.
pub open spec fn first_text(held: Map<Seq<char>, Seq<Seq<u8>>>, name: Seq<char>) -> Option<Seq<char>> {
    if held.dom().contains(ascii_lowered(name)) {
        value_text(held[ascii_lowered(name)][0])
    } else {
        None
    }
}

/// Header names are made of the token characters of HTTP, by their codes.
pub proof fn law_header_name_codes(text: Seq<char>)
    ensures
        is_header_name(text) <==> {
            &&& 1 <= text.len() <= 65535
            &&& forall|k: int|
                0 <= k < text.len() ==> {
                    ||| (#[trigger] text[k] as int) == 33
                    ||| 35 <= (text[k] as int) <= 39
                    ||| 42 <= (text[k] as int) <= 43
                    ||| 45 <= (text[k] as int) <= 46
                    ||| 48 <= (text[k] as int) <= 57
                    ||| 65 <= (text[k] as int) <= 90
                    ||| 94 <= (text[k] as int) <= 122
                    ||| (text[k] as int) == 124
                    ||| (text[k] as int) == 126
                }
        },
{
    if is_header_name(text) {
        assert forall|k: int| 0 <= k < text.len() implies {
            ||| (#[trigger] text[k] as int) == 33
            ||| 35 <= (text[k] as int) <= 39
            ||| 42 <= (text[k] as int) <= 43
            ||| 45 <= (text[k] as int) <= 46
            ||| 48 <= (text[k] as int) <= 57
            ||| 65 <= (text[k] as int) <= 90
            ||| 94 <= (text[k] as int) <= 122
            ||| (text[k] as int) == 124
            ||| (text[k] as int) == 126
        } by {
            assert(is_name_char(text[k]));
        }
    }
}

/// Header values are made of tabs and of every character from the space on but one.
pub proof fn law_header_value_codes(text: Seq<char>)
    ensures
        is_header_text(text) <==> forall|k: int|
            0 <= k < text.len() ==> (#[trigger] text[k] as int) == 9 || (32 <= (text[k] as int) && (
            text[k] as int) != 127),
{
    if is_header_text(text) {
        assert forall|k: int| 0 <= k < text.len() implies (#[trigger] text[k] as int) == 9 || (32 <= (
        text[k] as int) && (text[k] as int) != 127) by {
            assert(is_value_char(text[k]));
        }
    }
}

/// Each header is sent with the value that was given last for its name, whatever the
/// case of its letters, and no other header is.
pub proof fn law_last_header_is_sent(headers: Seq<(String, String)>)
    ensures
        forall|i: int|
            0 <= i < headers.len() && (forall|j: int|
                i < j < headers.len() ==> ascii_lowered((#[trigger] headers[j]).0@)
                    != ascii_lowered(headers[i].0@)) ==> headers_set(headers).dom().contains(
                ascii_lowered((#[trigger] headers[i]).0@),
            ) && headers_set(headers)[ascii_lowered(headers[i].0@)] == seq![
                encode_utf8(headers[i].1@),
            ],
        forall|name: Seq<char>| #[trigger]
            headers_set(headers).dom().contains(name) ==> exists|i: int|
                0 <= i < headers.len() && ascii_lowered((#[trigger] headers[i]).0@) == name,
    decreases headers.len(),
{
    if headers.len() > 0 {
        let front = headers.drop_last();
        let last = headers.last();
        law_last_header_is_sent(front);
        assert forall|i: int|
            0 <= i < headers.len() && (forall|j: int|
                i < j < headers.len() ==> ascii_lowered((#[trigger] headers[j]).0@)
                    != ascii_lowered(headers[i].0@)) implies headers_set(headers).dom().contains(
            ascii_lowered((#[trigger] headers[i]).0@),
        ) && headers_set(headers)[ascii_lowered(headers[i].0@)] == seq![
            encode_utf8(headers[i].1@),
        ] by {
            if i < front.len() {
                assert(headers[headers.len() - 1] == last);
                assert(front[i] == headers[i]);
                assert forall|j: int| i < j < front.len() implies ascii_lowered(
                    (#[trigger] front[j]).0@,
                ) != ascii_lowered(front[i].0@) by {
                    assert(front[j] == headers[j]);
                }
            }
        }
        assert forall|name: Seq<char>| #[trigger]
            headers_set(headers).dom().contains(name) implies exists|i: int|
            0 <= i < headers.len() && ascii_lowered((#[trigger] headers[i]).0@) == name by {
            if headers_set(front).dom().contains(name) {
                let i = choose|i: int|
                    0 <= i < front.len() && ascii_lowered((#[trigger] front[i]).0@) == name;
                assert(headers[i] == front[i]);
            } else {
                assert(headers[headers.len() - 1] == last);
            }
        }
    }
}

/// What a refusal of headers tells: that of the first header that HTTP does not
/// allow, by its name or else by its value, or that there are more than fit.
pub proof fn law_header_refusal_has_a_cause(
    headers: Seq<(String, String)>,
    error: X402ClientError,
) -> (place: int)
    requires
        refuses_headers(headers, error),
    ensures
        match error {
            X402ClientError::InvalidHeaderName { name, source } => {
                &&& 0 <= place < headers.len()
                &&& name@ == headers[place].0@
                &&& !is_header_name(headers[place].0@)
            },
            X402ClientError::InvalidHeaderValue { name } => {
                &&& 0 <= place < headers.len()
                &&& name@ == headers[place].0@
                &&& is_header_name(headers[place].0@)
                &&& !is_header_text(headers[place].1@)
            },
            X402ClientError::TooManyHeaders => headers.len() > 6554 && place == 0,
            _ => false,
        },
        forall|j: int|
            0 <= j < place ==> is_header_name((#[trigger] headers[j]).0@) && is_header_text(
                headers[j].1@,
            ),
{
    match error {
        X402ClientError::InvalidHeaderName { name, source } => {
            let i = choose|i: int|
                #[trigger] first_bad_header(headers, i) && !is_header_name(headers[i].0@) && name@
                    == headers[i].0@;
            assert forall|j: int| 0 <= j < i implies is_header_name((#[trigger] headers[j]).0@)
                && is_header_text(headers[j].1@) by {
                assert(is_header(headers[j]));
            }
            i
        },
        X402ClientError::InvalidHeaderValue { name } => {
            let i = choose|i: int|
                #[trigger] first_bad_header(headers, i) && is_header_name(headers[i].0@) && name@
                    == headers[i].0@;
            assert forall|j: int| 0 <= j < i implies is_header_name((#[trigger] headers[j]).0@)
                && is_header_text(headers[j].1@) by {
                assert(is_header(headers[j]));
            }
            i
        },
        _ => 0,
    }
}

/// A value can be read if it is made of the visible ASCII characters, spaces and
/// tabs, and is read byte by byte.
pub proof fn law_readable_bytes(value: Seq<u8>)
    ensures
        is_visible_value(value) <==> forall|k: int|
            0 <= k < value.len() ==> (#[trigger] value[k]) == 9 || 32 <= value[k] <= 126,
        ascii_text(value).len() == value.len(),
        forall|k: int|
            0 <= k < value.len() ==> (#[trigger] ascii_text(value)[k] as int) == value[k] as int,
        value_text(value) is Some <==> is_visible_value(value),
        value_text(value) is Some ==> value_text(value)->0 == ascii_text(value),
{
    if is_visible_value(value) {
        assert forall|k: int| 0 <= k < value.len() implies (#[trigger] value[k]) == 9 || 32
            <= value[k] <= 126 by {
            assert(is_visible(value[k]));
        }
    }
}

/// Of the values of a header the last that can be read is shown; none if there is
/// no such value.
pub proof fn law_last_readable_value_is_shown(values: Seq<Seq<u8>>, place: int)
    requires
        -1 <= place < values.len(),
        forall|j: int| place < j < values.len() ==> !is_visible_value(#[trigger] values[j]),
        place >= 0 ==> is_visible_value(values[place]),
    ensures
        place >= 0 ==> last_text(values) == Some(ascii_text(values[place])),
        place == -1 ==> last_text(values) is None,
    decreases values.len(),
{
    if values.len() > 0 && place < values.len() - 1 {
        let front = values.drop_last();
        assert(!is_visible_value(values[values.len() - 1]));
        assert forall|j: int| place < j < front.len() implies !is_visible_value(
            #[trigger] front[j],
        ) by {
            assert(front[j] == values[j]);
        }
        law_last_readable_value_is_shown(front, place);
    }
}

/// What a list of headers gives for a name is what stands beside the name in it, and
/// nothing where the name is not in it; in a list without a name twice.
pub proof fn law_header_is_found_by_name(pairs: Seq<(String, String)>, name: Seq<char>)
    requires
        forall|i: int, j: int|
            0 <= i < j < pairs.len() ==> (#[trigger] pairs[i]).0@ != (#[trigger] pairs[j]).0@,
    ensures
        forall|i: int|
            0 <= i < pairs.len() && (#[trigger] pairs[i]).0@ == name ==> text_for(pairs, name)
                == Some(pairs[i].1@),
        (forall|i: int| 0 <= i < pairs.len() ==> (#[trigger] pairs[i]).0@ != name) ==> text_for(
            pairs,
            name,
        ) is None,
{
    lemma_text_for(pairs, name);
}

/// A list without a name twice has different names at different places.
pub proof fn law_names_occur_once(pairs: Seq<(String, String)>, i: int, j: int)
    requires
        distinct_names(pairs),
        0 <= i < j < pairs.len(),
    ensures
        pairs[i].0@ != pairs[j].0@,
{
}

/// The values of a header are those that the map holds under its name, or none.
pub proof fn law_values_are_those_held(held: Map<Seq<char>, Seq<Seq<u8>>>, name: Seq<char>)
    ensures
        held.dom().contains(name) ==> values_of(held, name) == held[name],
        !held.dom().contains(name) ==> values_of(held, name).len() == 0,
{
}

/// A header is allowed if its name and its value are.
pub proof fn law_header_is_name_and_value(header: (String, String))
    ensures
        is_header(header) <==> is_header_name(header.0@) && is_header_text(header.1@),
{
}

/// What is read of a header is the first of the values that the map holds under its
/// name in small letters, if that can be read.
pub proof fn law_first_value_is_read(held: Map<Seq<char>, Seq<Seq<u8>>>, name: Seq<char>)
    ensures
        !held.dom().contains(ascii_lowered(name)) ==> first_text(held, name) is None,
        held.dom().contains(ascii_lowered(name)) ==> {
            let value = held[ascii_lowered(name)][0];
            &&& is_visible_value(value) ==> first_text(held, name) == Some(ascii_text(value))
            &&& !is_visible_value(value) ==> first_text(held, name) is None
        },
{
}

} // verus!
