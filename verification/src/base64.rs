//! Base64 with the standard alphabet and padding, as x402 headers carry it.

use vstd::prelude::*;

verus! {

/// The character that stands for the six bits `v`.
pub open spec fn symbol(v: int) -> char {
    if v < 26 {
        (v + 'A' as int) as char
    } else if v < 52 {
        (v - 26 + 'a' as int) as char
    } else if v < 62 {
        (v - 52 + '0' as int) as char
    } else if v == 62 {
        '+'
    } else {
        '/'
    }
}

/// The four groups of six bits that three bytes make.
pub open spec fn sextets(a: u8, b: u8, c: u8) -> (int, int, int, int) {
    (
        a as int / 4,
        a as int % 4 * 16 + b as int / 16,
        b as int % 16 * 4 + c as int / 64,
        c as int % 64,
    )
}

/// The base64 text of `bytes`.
pub open spec fn encoded(bytes: Seq<u8>) -> Seq<char>
    decreases bytes.len(),
{
    if bytes.len() == 0 {
        Seq::empty()
    } else if bytes.len() == 1 {
        let (v0, v1, v2, v3) = sextets(bytes[0], 0, 0);
        seq![symbol(v0), symbol(v1), '=', '=']
    } else if bytes.len() == 2 {
        let (v0, v1, v2, v3) = sextets(bytes[0], bytes[1], 0);
        seq![symbol(v0), symbol(v1), symbol(v2), '=']
    } else {
        let (v0, v1, v2, v3) = sextets(bytes[0], bytes[1], bytes[2]);
        seq![symbol(v0), symbol(v1), symbol(v2), symbol(v3)] + encoded(bytes.skip(3))
    }
}

/// The six bits that a character stands for.
spec fn symbol_bits(c: char) -> Option<int> {
    if 'A' <= c <= 'Z' {
        Some(c as int - 'A' as int)
    } else if 'a' <= c <= 'z' {
        Some(c as int - 'a' as int + 26)
    } else if '0' <= c <= '9' {
        Some(c as int - '0' as int + 52)
    } else if c == '+' {
        Some(62)
    } else if c == '/' {
        Some(63)
    } else {
        None
    }
}

/// Characters and six bits go together one to one, and padding stands for none.
proof fn lemma_symbol_bits()
    ensures
        forall|v: int| 0 <= v < 64 ==> symbol_bits(#[trigger] symbol(v)) == Some(v),
        forall|c: char|
            #[trigger] symbol_bits(c) matches Some(v) ==> 0 <= v < 64 && symbol(v) == c,
        symbol_bits('=') is None,
{
}

/// The six bits that a character stands for.
fn bits_of(c: char) -> (bits: Option<u32>)
    ensures
        match bits {
            Some(b) => symbol_bits(c) == Some(b as int) && b < 64,
            None => symbol_bits(c) is None,
        },
{
    if c >= 'A' && c <= 'Z' {
        Some(c as u32 - 65)
    } else if c >= 'a' && c <= 'z' {
        Some(c as u32 - 97 + 26)
    } else if c >= '0' && c <= '9' {
        Some(c as u32 - 48 + 52)
    } else if c == '+' {
        Some(62)
    } else if c == '/' {
        Some(63)
    } else {
        None
    }
}

/// Text is encoded piece by piece, where a piece ends on a group of three.
proof fn lemma_encoded_concat(front: Seq<u8>, back: Seq<u8>)
    requires
        front.len() % 3 == 0,
    ensures
        encoded(front + back) == encoded(front) + encoded(back),
        encoded(front).len() * 3 == front.len() * 4,
    decreases front.len(),
{
    if front.len() == 0 {
        assert(front + back =~= back);
        assert(encoded(front) + encoded(back) =~= encoded(back));
    } else {
        lemma_encoded_concat(front.skip(3), back);
        assert((front + back).skip(3) =~= front.skip(3) + back);
        assert(encoded(front + back) =~= encoded(front) + encoded(back));
    }
}

/// What the first four characters say of the bytes that they encode.
proof fn lemma_first_group(rest: Seq<u8>)
    requires
        rest.len() > 0,
    ensures
        encoded(rest).len() >= 4,
        symbol_bits(encoded(rest)[0]) == Some(rest[0] as int / 4),
        rest.len() == 1 ==> {
            &&& encoded(rest).len() == 4
            &&& symbol_bits(encoded(rest)[1]) == Some(rest[0] as int % 4 * 16)
            &&& encoded(rest)[2] == '='
            &&& encoded(rest)[3] == '='
        },
        rest.len() >= 2 ==> symbol_bits(encoded(rest)[1]) == Some(
            rest[0] as int % 4 * 16 + rest[1] as int / 16,
        ),
        rest.len() == 2 ==> {
            &&& encoded(rest).len() == 4
            &&& symbol_bits(encoded(rest)[2]) == Some(rest[1] as int % 16 * 4)
            &&& encoded(rest)[3] == '='
        },
        rest.len() >= 3 ==> {
            &&& symbol_bits(encoded(rest)[2]) == Some(rest[1] as int % 16 * 4 + rest[2] as int / 64)
            &&& symbol_bits(encoded(rest)[3]) == Some(rest[2] as int % 64)
        },
{
    lemma_symbol_bits();
}

/// Bytes whose text starts with that of `front` are encoded, after `front`, by
/// the rest of the text.
proof fn lemma_rest(text: Seq<char>, front: Seq<u8>, bytes: Seq<u8>)
    requires
        front.len() % 3 == 0,
        bytes.len() >= front.len(),
        bytes.take(front.len() as int) == front,
        encoded(bytes) == text,
    ensures
        encoded(bytes.skip(front.len() as int)) == text.skip(encoded(front).len() as int),
{
    let back = bytes.skip(front.len() as int);
    assert(front + back =~= bytes);
    lemma_encoded_concat(front, back);
    assert(text.skip(encoded(front).len() as int) =~= encoded(back));
}

/// What decoding has found once it has read `text` up to `place`.
#[verifier::opaque]
spec fn decoded_to(text: Seq<char>, place: int, bytes: Seq<u8>) -> bool {
    &&& 0 <= place <= text.len()
    &&& bytes.len() * 4 == place * 3
    &&& bytes.len() % 3 == 0
    &&& encoded(bytes) == text.take(place)
    &&& forall|all: Seq<u8>|
        #[trigger] encoded(all) == text ==> all.len() >= bytes.len() && all.take(bytes.len() as int)
            == bytes
}

/// Whether `rest` starts as the text of some bytes does.
spec fn is_group(rest: Seq<char>) -> bool {
    &&& rest.len() >= 4
    &&& symbol_bits(rest[0]) is Some
    &&& symbol_bits(rest[1]) is Some
    &&& {
        ||| symbol_bits(rest[2]) is Some && symbol_bits(rest[3]) is Some
        ||| {
            &&& rest.len() == 4
            &&& symbol_bits(rest[2]) matches Some(v2) && v2 % 4 == 0
            &&& rest[3] == '='
        }
        ||| {
            &&& rest.len() == 4
            &&& symbol_bits(rest[1]) matches Some(v1) && v1 % 16 == 0
            &&& rest[2] == '='
            &&& rest[3] == '='
        }
    }
}

/// Text that does not go on, from `place`, as the text of some bytes does is not
/// the text of any.
proof fn lemma_refused(text: Seq<char>, place: int, bytes: Seq<u8>)
    requires
        decoded_to(text, place, bytes),
        place < text.len(),
        !is_group(text.skip(place)),
    ensures
        forall|all: Seq<u8>| #[trigger] encoded(all) != text,
{
    reveal(decoded_to);
    lemma_symbol_bits();
    assert forall|all: Seq<u8>| #[trigger] encoded(all) != text by {
        if encoded(all) == text {
            lemma_rest(text, bytes, all);
            let rest = all.skip(bytes.len() as int);
            assert(encoded(rest) == text.skip(place));
            if rest.len() > 0 {
                lemma_first_group(rest);
            }
        }
    }
}

/// The last two bytes, from three characters.
proof fn lemma_last_two(text: Seq<char>, place: int, bytes: Seq<u8>, a: u8, b: u8)
    requires
        decoded_to(text, place, bytes),
        place + 4 == text.len(),
        symbol_bits(text[place]) == Some(a as int / 4),
        symbol_bits(text[place + 1]) == Some(a as int % 4 * 16 + b as int / 16),
        symbol_bits(text[place + 2]) == Some(b as int % 16 * 4),
        text[place + 3] == '=',
    ensures
        encoded(bytes.push(a).push(b)) == text,
{
    reveal(decoded_to);
    lemma_symbol_bits();
    let last = seq![a, b];
    assert(bytes.push(a).push(b) =~= bytes + last);
    lemma_encoded_concat(bytes, last);
    assert(encoded(last) =~= text.skip(place));
    assert(text.take(place) + text.skip(place) =~= text);
}

/// The last byte, from two characters.
proof fn lemma_last_one(text: Seq<char>, place: int, bytes: Seq<u8>, a: u8)
    requires
        decoded_to(text, place, bytes),
        place + 4 == text.len(),
        symbol_bits(text[place]) == Some(a as int / 4),
        symbol_bits(text[place + 1]) == Some(a as int % 4 * 16),
        text[place + 2] == '=',
        text[place + 3] == '=',
    ensures
        encoded(bytes.push(a)) == text,
{
    reveal(decoded_to);
    lemma_symbol_bits();
    let last = seq![a];
    assert(bytes.push(a) =~= bytes + last);
    lemma_encoded_concat(bytes, last);
    assert(encoded(last) =~= text.skip(place));
    assert(text.take(place) + text.skip(place) =~= text);
}

/// One group of four characters further.
proof fn lemma_step(text: Seq<char>, place: int, bytes: Seq<u8>, a: u8, b: u8, c: u8)
    requires
        decoded_to(text, place, bytes),
        place + 4 <= text.len(),
        ({
            let (v0, v1, v2, v3) = sextets(a, b, c);
            &&& symbol_bits(text[place]) == Some(v0)
            &&& symbol_bits(text[place + 1]) == Some(v1)
            &&& symbol_bits(text[place + 2]) == Some(v2)
            &&& symbol_bits(text[place + 3]) == Some(v3)
        }),
    ensures
        decoded_to(text, place + 4, bytes.push(a).push(b).push(c)),
{
    reveal(decoded_to);
    lemma_symbol_bits();
    let group = seq![a, b, c];
    let longer = bytes.push(a).push(b).push(c);
    assert(longer =~= bytes + group);
    lemma_encoded_concat(bytes, group);
    assert(group.skip(3) =~= seq![]);
    assert(encoded(group.skip(3)) =~= seq![]);
    assert(encoded(group) =~= text.subrange(place, place + 4));
    assert(text.take(place + 4) =~= text.take(place) + text.subrange(place, place + 4));
    assert forall|all: Seq<u8>| #[trigger] encoded(all) == text implies all.len() >= longer.len()
        && all.take(longer.len() as int) == longer by {
        let n = bytes.len() as int;
        lemma_rest(text, bytes, all);
        let rest = all.skip(n);
        assert(encoded(rest) == text.skip(place));
        assert(rest.len() > 0);
        lemma_first_group(rest);
        assert(text.skip(place)[0] == text[place]);
        assert(text.skip(place)[1] == text[place + 1]);
        assert(text.skip(place)[2] == text[place + 2]);
        assert(text.skip(place)[3] == text[place + 3]);
        assert(rest.len() >= 3);
        assert(rest[0] == a);
        assert(rest[1] == b);
        assert(rest[2] == c);
        assert(all.take(longer.len() as int) =~= all.take(n) + rest.take(3));
        assert(rest.take(3) =~= group);
    }
}

/// The bytes that `text` encodes, if it is the base64 text of any.
pub open spec fn decoded(text: Seq<char>) -> Option<Seq<u8>> {
    if exists|bytes: Seq<u8>| #[trigger] encoded(bytes) == text {
        Some(choose|bytes: Seq<u8>| #[trigger] encoded(bytes) == text)
    } else {
        None
    }
}

/// Decoding undoes encoding.
pub proof fn law_base64_round_trip(bytes: Seq<u8>)
    ensures
        decoded(encoded(bytes)) == Some(bytes),
{
    let text = encoded(bytes);
    let found = choose|b: Seq<u8>| #[trigger] encoded(b) == text;
    law_base64_is_one_to_one(found, bytes);
}

/// The bytes that `text` encodes, if it is the base64 text of any.
pub fn decode(text: &Vec<char>) -> (bytes: Option<Vec<u8>>)
    ensures
        match bytes {
            Some(b) => encoded(b@) == text@ && decoded(text@) == Some(b@),
            None => decoded(text@) is None,
        },
{
    let mut bytes: Vec<u8> = Vec::new();
    let mut i: usize = 0;
    assert(decoded_to(text@, 0, bytes@)) by {
        reveal(decoded_to);
        assert(text@.take(0) =~= seq![]);
        assert forall|all: Seq<u8>| #[trigger] encoded(all) == text@ implies all.take(0) == bytes@ by {
            assert(all.take(0) =~= bytes@);
        }
    }
    while i < text.len()
        invariant
            i <= text@.len(),
            decoded_to(text@, i as int, bytes@),
        decreases text.len() - i,
    {
        let ghost rest = text@.skip(i as int);
        let mut group: bool = text.len() - i >= 4;
        if group {
            let v0 = bits_of(text[i]);
            let v1 = bits_of(text[i + 1]);
            let v2 = bits_of(text[i + 2]);
            let v3 = bits_of(text[i + 3]);
            let last: bool = text.len() - i == 4 && text[i + 3] == '=';
            match (v0, v1, v2, v3) {
                (Some(v0), Some(v1), Some(v2), Some(v3)) => {
                    let a: u8 = (v0 * 4 + v1 / 16) as u8;
                    let b: u8 = (v1 % 16 * 16 + v2 / 4) as u8;
                    let c: u8 = (v2 % 4 * 64 + v3) as u8;
                    proof {
                        lemma_step(text@, i as int, bytes@, a, b, c);
                    }
                    bytes.push(a);
                    bytes.push(b);
                    bytes.push(c);
                },
                (Some(v0), Some(v1), Some(v2), None) => {
                    if last && v2 % 4 == 0 {
                        let a: u8 = (v0 * 4 + v1 / 16) as u8;
                        let b: u8 = (v1 % 16 * 16 + v2 / 4) as u8;
                        proof {
                            lemma_last_two(text@, i as int, bytes@, a, b);
                        }
                        bytes.push(a);
                        bytes.push(b);
                        proof {
                            law_base64_round_trip(bytes@);
                        }
                        return Some(bytes);
                    }
                    group = false;
                },
                (Some(v0), Some(v1), None, _) => {
                    if last && text[i + 2] == '=' && v1 % 16 == 0 {
                        let a: u8 = (v0 * 4 + v1 / 16) as u8;
                        proof {
                            lemma_last_one(text@, i as int, bytes@, a);
                        }
                        bytes.push(a);
                        proof {
                            law_base64_round_trip(bytes@);
                        }
                        return Some(bytes);
                    }
                    group = false;
                },
                _ => {
                    group = false;
                },
            }
        }
        if !group {
            proof {
                lemma_symbol_bits();
                assert(!is_group(rest));
                lemma_refused(text@, i as int, bytes@);
            }
            return None;
        }
        i = i + 4;
    }
    assert(encoded(bytes@) == text@) by {
        reveal(decoded_to);
        assert(text@.take(i as int) =~= text@);
    }
    proof {
        law_base64_round_trip(bytes@);
    }
    Some(bytes)
}

/// No two byte strings have one base64 text.
pub proof fn law_base64_is_one_to_one(a: Seq<u8>, b: Seq<u8>)
    requires
        encoded(a) == encoded(b),
    ensures
        a == b,
    decreases a.len(),
{
    lemma_symbol_bits();
    if a.len() == 0 || b.len() == 0 {
        if a.len() > 0 {
            lemma_first_group(a);
        }
        if b.len() > 0 {
            lemma_first_group(b);
        }
        assert(a =~= b);
    } else {
        lemma_first_group(a);
        lemma_first_group(b);
        if a.len() >= 3 {
            assert(b.len() >= 3);
            assert(encoded(a).skip(4) =~= encoded(a.skip(3)));
            assert(encoded(b).skip(4) =~= encoded(b.skip(3)));
            law_base64_is_one_to_one(a.skip(3), b.skip(3));
            assert(a =~= a.take(3) + a.skip(3));
            assert(b =~= b.take(3) + b.skip(3));
            assert(a.take(3) =~= b.take(3));
        } else {
            assert(a =~= b);
        }
    }
}

/// Three bytes become four characters of the alphabet, which write the number that
/// the bytes make in base 64; one or two bytes at the end become two or three, filled
/// up to four with equals signs.
pub proof fn law_three_bytes_make_four_characters(a: u8, b: u8, c: u8, rest: Seq<u8>) -> (v: (
    int,
    int,
    int,
    int,
))
    ensures
        0 <= v.0 < 64 && 0 <= v.1 < 64 && 0 <= v.2 < 64 && 0 <= v.3 < 64,
        v.0 * 262144 + v.1 * 4096 + v.2 * 64 + v.3 == a * 65536 + b * 256 + c,
        encoded(seq![a, b, c] + rest) == seq![symbol(v.0), symbol(v.1), symbol(v.2), symbol(v.3)]
            + encoded(rest),
        encoded(Seq::<u8>::empty()).len() == 0,
        c == 0 ==> encoded(seq![a, b]) == seq![symbol(v.0), symbol(v.1), symbol(v.2), '='],
        b == 0 && c == 0 ==> encoded(seq![a]) == seq![symbol(v.0), symbol(v.1), '=', '='],
{
    let v = sextets(a, b, c);
    assert((seq![a, b, c] + rest).skip(3) =~= rest);
    v
}

/// The alphabet: capital letters, small letters, digits, the plus sign, the slash.
pub proof fn law_alphabet(v: int)
    requires
        0 <= v < 64,
    ensures
        0 <= v < 26 ==> (symbol(v) as int) == 65 + v,
        26 <= v < 52 ==> (symbol(v) as int) == 97 + v - 26,
        52 <= v < 62 ==> (symbol(v) as int) == 48 + v - 52,
        v == 62 ==> symbol(v) == '+',
        v == 63 ==> symbol(v) == '/',
{
}

} // verus!
