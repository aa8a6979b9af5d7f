//! Unsigned decimal integers of any length, and the amounts computed from them.

use vstd::arithmetic::power::{lemma_pow_increases, pow};
use vstd::arithmetic::power2::{lemma2_to64, lemma_pow2_strictly_increases, lemma_pow2_unfold, pow2};
use vstd::prelude::*;

use crate::double::{
    cut_off, excess_bits, lemma_cut_bit, round_half_even, round_integer, round_up, tail_after, tail_of,
    Tail, MANTISSA_END,
};

verus! {

/// The number that a sequence of decimal digits writes, most significant first.
pub open spec fn digits_value(digits: Seq<u8>) -> nat
    decreases digits.len(),
{
    if digits.len() == 0 {
        0
    } else {
        10 * digits_value(digits.drop_last()) + digits.last() as nat
    }
}

/// Whether every element is a decimal digit.
pub open spec fn all_digits(digits: Seq<u8>) -> bool {
    forall|i: int| 0 <= i < digits.len() ==> digits[i] <= 9
}

/// A prefix writes no greater number than the whole.
proof fn lemma_prefix_value(digits: Seq<u8>, n: int)
    requires
        0 <= n <= digits.len(),
    ensures
        digits_value(digits.take(n)) <= digits_value(digits),
    decreases digits.len() - n,
{
    if n < digits.len() {
        assert(digits.take(n + 1).drop_last() =~= digits.take(n));
        lemma_prefix_value(digits, n + 1);
    } else {
        assert(digits.take(n) =~= digits);
    }
}

/// `n` digits write a number below two to the power `4 n`.
proof fn lemma_digits_bound(digits: Seq<u8>)
    requires
        all_digits(digits),
    ensures
        digits_value(digits) < pow2(4 * digits.len()),
    decreases digits.len(),
{
    lemma2_to64();
    if digits.len() > 0 {
        let n = digits.len();
        lemma_digits_bound(digits.drop_last());
        lemma_pow2_unfold(4 * n);
        lemma_pow2_unfold((4 * n - 1) as nat);
        lemma_pow2_unfold((4 * n - 2) as nat);
        lemma_pow2_unfold((4 * n - 3) as nat);
        assert(4 * n - 4 == 4 * digits.drop_last().len());
    }
}

/// The number that `digits` writes, where it is below [`MANTISSA_END`].
fn small_value(digits: &Vec<u8>) -> (value: Option<u64>)
    requires
        all_digits(digits@),
    ensures
        value is Some <==> digits_value(digits@) < MANTISSA_END,
        value matches Some(v) ==> v == digits_value(digits@),
{
    let mut value: u64 = 0;
    for i in 0..digits.len()
        invariant
            all_digits(digits@),
            value == digits_value(digits@.take(i as int)),
            value < MANTISSA_END,
    {
        assert(digits@.take(i + 1).drop_last() =~= digits@.take(i as int));
        value = value * 10 + digits[i] as u64;
        if value >= MANTISSA_END {
            proof {
                lemma_prefix_value(digits@, i + 1);
            }
            return None;
        }
    }
    assert(digits@.take(digits@.len() as int) =~= digits@);
    Some(value)
}

/// Halves the number that `digits` writes, returning the bit that falls off.
fn halve(digits: &Vec<u8>) -> (halved: (Vec<u8>, bool))
    requires
        all_digits(digits@),
    ensures
        all_digits(halved.0@),
        halved.0@.len() == digits@.len(),
        digits_value(digits@) == 2 * digits_value(halved.0@) + if halved.1 {
            1int
        } else {
            0
        },
{
    let mut out: Vec<u8> = Vec::new();
    let mut carry: u8 = 0;
    for i in 0..digits.len()
        invariant
            all_digits(digits@),
            all_digits(out@),
            out@.len() == i,
            carry <= 1,
            digits_value(digits@.take(i as int)) == 2 * digits_value(out@) + carry,
    {
        let current: u8 = carry * 10 + digits[i];
        let ghost before = out@;
        out.push(current / 2);
        carry = current % 2;
        assert(digits@.take(i + 1).drop_last() =~= digits@.take(i as int));
        assert(out@.drop_last() =~= before);
    }
    assert(digits@.take(digits@.len() as int) =~= digits@);
    (out, carry == 1)
}

/// Rounds the number that `digits` writes to 53 significant bits, as a mantissa
/// and a power of two.
pub(crate) fn round_digits(digits: &Vec<u8>) -> (rounded: (u64, u128))
    requires
        all_digits(digits@),
    ensures
        rounded.0 <= MANTISSA_END,
        rounded.1 <= 4 * digits@.len(),
        rounded.0 as nat * pow2(rounded.1 as nat) == round_integer(digits_value(digits@)),
{
    let ghost n = digits_value(digits@);
    let len: usize = digits.len();
    let mut rest: Vec<u8> = digits.clone();
    let mut shift: u128 = 0;
    let mut dirty: bool = false;
    let mut tail: Tail = Tail::Below;
    let ghost mut low: nat = 0;
    assert(rest@ =~= digits@);
    proof {
        lemma2_to64();
        lemma_digits_bound(digits@);
    }
    loop
        invariant
            all_digits(digits@),
            all_digits(rest@),
            n == digits_value(digits@),
            n < pow2(4 * digits@.len()),
            n == digits_value(rest@) * pow2(shift as nat) + low,
            low < pow2(shift as nat),
            dirty == (low > 0),
            tail_of(tail, low, pow2(shift as nat)),
            excess_bits(n) == shift + excess_bits(digits_value(rest@)),
            shift <= 4 * digits@.len(),
            len == digits@.len(),
        decreases digits_value(rest@),
    {
        match small_value(&rest) {
            Some(mantissa) => {
                let up = round_up(mantissa, tail);
                assert(round_half_even(n, pow2(shift as nat)) == if up {
                    mantissa + 1
                } else {
                    mantissa as int
                });
                return (
                    if up {
                        mantissa + 1
                    } else {
                        mantissa
                    },
                    shift,
                );
            },
            None => {},
        }
        let (half, bit) = halve(&rest);
        let ghost unit = pow2(shift as nat);
        proof {
            lemma_cut_bit(n, digits_value(rest@), digits_value(half@), bit, unit, low);
            lemma_pow2_unfold((shift + 1) as nat);
            assert(digits_value(half@) == digits_value(rest@) / 2);
            assert(shift < 4 * digits@.len()) by {
                if shift >= 4 * digits@.len() {
                    if shift > 4 * digits@.len() {
                        lemma_pow2_strictly_increases(4 * digits@.len(), shift as nat);
                    }
                    assert(digits_value(rest@) * unit >= unit) by (nonlinear_arith)
                        requires
                            digits_value(rest@) >= 1,
                    ;
                }
            }
            low = cut_off(low, unit, bit);
        }
        tail = tail_after(bit, dirty);
        dirty = dirty || bit;
        rest = half;
        shift = shift + 1;
    }
}

/// Rounds `n` to 53 significant bits, as a mantissa and a power of two.
pub(crate) fn round_u64(n: u64) -> (rounded: (u64, u128))
    ensures
        rounded.0 <= MANTISSA_END,
        rounded.1 <= 64,
        rounded.0 as nat * pow2(rounded.1 as nat) == round_integer(n as nat),
{
    let mut rest: u64 = n;
    let mut shift: u128 = 0;
    let mut dirty: bool = false;
    let mut tail: Tail = Tail::Below;
    let ghost mut low: nat = 0;
    proof {
        lemma2_to64();
    }
    while rest >= MANTISSA_END
        invariant
            n == rest * pow2(shift as nat) + low,
            low < pow2(shift as nat),
            dirty == (low > 0),
            tail_of(tail, low, pow2(shift as nat)),
            excess_bits(n as nat) == shift + excess_bits(rest as nat),
            shift <= 64,
            pow2(64) == 0x1_0000_0000_0000_0000,
        decreases rest,
    {
        let half: u64 = rest / 2;
        let bit: bool = rest % 2 == 1;
        let ghost unit = pow2(shift as nat);
        proof {
            lemma_cut_bit(n as nat, rest as nat, half as nat, bit, unit, low);
            lemma_pow2_unfold((shift + 1) as nat);
            assert(rest * unit >= unit) by (nonlinear_arith)
                requires
                    rest >= 1,
            ;
            low = cut_off(low, unit, bit);
        }
        tail = tail_after(bit, dirty);
        dirty = dirty || bit;
        rest = half;
        shift = shift + 1;
    }
    let up = round_up(rest, tail);
    assert(round_half_even(n as nat, pow2(shift as nat)) == if up {
        rest + 1
    } else {
        rest as int
    });
    (
        if up {
            rest + 1
        } else {
            rest
        },
        shift,
    )
}

/// Whether `c` is a decimal digit.
pub open spec fn is_digit(c: char) -> bool {
    '0' <= c <= '9'
}

/// The value of a decimal digit.
pub open spec fn digit_value(c: char) -> u8 {
    (c as int - '0' as int) as u8
}

/// Whether `text` is one decimal digit or more and nothing else.
pub open spec fn is_number(text: Seq<char>) -> bool {
    text.len() > 0 && (forall|i: int| 0 <= i < text.len() ==> is_digit(#[trigger] text[i]))
}

/// `text` without the plus sign that it may start with.
pub open spec fn unsigned_part(text: Seq<char>) -> Seq<char> {
    if text.len() > 0 && text[0] == '+' {
        text.skip(1)
    } else {
        text
    }
}

/// The values of the digits in `text`.
pub open spec fn digit_values(text: Seq<char>) -> Seq<u8> {
    text.map_values(|c: char| digit_value(c))
}

/// The digits that `text` writes an unsigned integer with, if it does: a plus
/// sign may stand before them, and nothing else.
pub open spec fn integer_digits(text: Seq<char>) -> Option<Seq<u8>> {
    if is_number(unsigned_part(text)) {
        Some(digit_values(unsigned_part(text)))
    } else {
        None
    }
}

/// The digits of the unsigned integer that `text` writes, if it writes one.
pub(crate) fn parse_digits(text: &Vec<char>) -> (digits: Option<Vec<u8>>)
    ensures
        integer_digits(text@) is Some <==> digits is Some,
        digits matches Some(d) ==> all_digits(d@) && integer_digits(text@) == Some(d@),
{
    let start: usize = if text.len() > 0 && text[0] == '+' {
        1
    } else {
        0
    };
    let ghost body = unsigned_part(text@);
    assert(text@.skip(0) =~= text@);
    let mut digits: Vec<u8> = Vec::new();
    let mut i: usize = start;
    while i < text.len()
        invariant
            start <= i <= text@.len(),
            body == text@.skip(start as int),
            body == unsigned_part(text@),
            digits@.len() == i - start,
            all_digits(digits@),
            forall|j: int|
                0 <= j < i - start ==> is_digit(#[trigger] body[j]) && digits@[j] == digit_value(
                    body[j],
                ),
        decreases text.len() - i,
    {
        let c: char = text[i];
        assert(c == body[i - start]);
        if c < '0' || c > '9' {
            return None;
        }
        digits.push((c as u8) - 48);
        i = i + 1;
    }
    if digits.len() == 0 {
        return None;
    }
    assert(digits@ =~= digit_values(body));
    Some(digits)
}

/// Whether `a` and `b` agree up to a place where `a` has the smaller character.
pub open spec fn differs_below(a: Seq<char>, b: Seq<char>, place: int) -> bool {
    0 <= place < a.len() && place < b.len() && a.take(place) == b.take(place) && a[place] < b[place]
}

/// The order of decimal numbers by their text: a shorter one comes first, and
/// of two of one length the one with the smaller digit where they first differ.
pub open spec fn precedes(a: Seq<char>, b: Seq<char>) -> bool {
    a.len() < b.len() || (a.len() == b.len() && exists|place: int| differs_below(a, b, place))
}

/// Whether `a` comes before `b`.
pub(crate) fn comes_before(a: &Vec<char>, b: &Vec<char>) -> (before: bool)
    ensures
        before == precedes(a@, b@),
{
    if a.len() != b.len() {
        return a.len() < b.len();
    }
    let mut i: usize = 0;
    while i < a.len()
        invariant
            i <= a@.len(),
            a@.len() == b@.len(),
            a@.take(i as int) == b@.take(i as int),
        decreases a.len() - i,
    {
        if a[i] != b[i] {
            if a[i] < b[i] {
                assert(differs_below(a@, b@, i as int));
                return true;
            }
            assert forall|place: int| !differs_below(a@, b@, place) by {
                if differs_below(a@, b@, place) {
                    if place < i {
                        assert(a@.take(i as int)[place] == b@.take(i as int)[place]);
                    } else if place > i {
                        assert(a@.take(place)[i as int] == b@.take(place)[i as int]);
                    }
                }
            }
            return false;
        }
        assert(a@.take(i + 1) =~= a@.take(i as int).push(a@[i as int]));
        assert(b@.take(i + 1) =~= b@.take(i as int).push(b@[i as int]));
        i = i + 1;
    }
    assert forall|place: int| !differs_below(a@, b@, place) by {
        if differs_below(a@, b@, place) {
            assert(a@.take(i as int)[place] == b@.take(i as int)[place]);
        }
    }
    false
}

/// The order is transitive.
pub(crate) proof fn lemma_precedes_transitive(a: Seq<char>, b: Seq<char>, c: Seq<char>)
    requires
        precedes(a, b),
        precedes(b, c),
    ensures
        precedes(a, c),
{
    if a.len() == c.len() {
        let p = choose|p: int| differs_below(a, b, p);
        let q = choose|q: int| differs_below(b, c, q);
        let r = if p < q {
            p
        } else {
            q
        };
        assert(a.take(r) =~= a.take(p).take(r));
        assert(b.take(r) =~= b.take(p).take(r));
        assert(b.take(r) =~= b.take(q).take(r));
        assert(c.take(r) =~= c.take(q).take(r));
        if p < q {
            assert(b[p] == b.take(q)[p]);
            assert(c[p] == c.take(q)[p]);
        } else if q < p {
            assert(a[q] == a.take(p)[q]);
            assert(b[q] == b.take(p)[q]);
        }
        assert(differs_below(a, c, r));
    }
}

/// Of two texts that agree on their first `n` characters one comes before the
/// other, or they are the same.
proof fn lemma_precedes_from(a: Seq<char>, b: Seq<char>, n: int)
    requires
        a.len() == b.len(),
        0 <= n <= a.len(),
        a.take(n) == b.take(n),
    ensures
        a == b || precedes(a, b) || precedes(b, a),
    decreases a.len() - n,
{
    if n == a.len() {
        assert(a.take(n) =~= a);
        assert(b.take(n) =~= b);
    } else if a[n] < b[n] {
        assert(differs_below(a, b, n));
    } else if b[n] < a[n] {
        assert(differs_below(b, a, n));
    } else {
        assert(a.take(n + 1) =~= a.take(n).push(a[n]));
        assert(b.take(n + 1) =~= b.take(n).push(b[n]));
        lemma_precedes_from(a, b, n + 1);
    }
}

/// Of two texts one comes before the other, or they are the same.
pub(crate) proof fn lemma_precedes_total(a: Seq<char>, b: Seq<char>)
    ensures
        a == b || precedes(a, b) || precedes(b, a),
{
    if a.len() == b.len() {
        assert(a.take(0) =~= b.take(0));
        lemma_precedes_from(a, b, 0);
    }
}

/// The number that a decimal text writes.
pub open spec fn decimal_value(text: Seq<char>) -> nat {
    digits_value(digit_values(text))
}

/// Whether `text` writes a number without leading zeros.
pub open spec fn is_canonical(text: Seq<char>) -> bool {
    is_number(text) && (text.len() > 1 ==> text[0] != '0')
}

/// The number is ten times the one without the last digit, plus that digit.
proof fn lemma_decimal_value_last(text: Seq<char>)
    requires
        is_number(text),
    ensures
        decimal_value(text) == 10 * decimal_value(text.drop_last()) + digit_value(text.last()),
        digit_value(text.last()) <= 9,
        digit_value(text.last()) == text.last() as int - '0' as int,
{
    assert(digit_values(text).drop_last() =~= digit_values(text.drop_last()));
    assert(is_digit(text[text.len() - 1]));
}

/// Of two numbers with as many digits, the one with the smaller digit where they
/// first differ is the smaller one.
proof fn lemma_same_length_order(a: Seq<char>, b: Seq<char>)
    requires
        a.len() == b.len(),
        a.len() > 0 ==> is_number(a) && is_number(b),
    ensures
        (exists|place: int| differs_below(a, b, place)) <==> decimal_value(a) < decimal_value(b),
        a == b <==> decimal_value(a) == decimal_value(b),
    decreases a.len(),
{
    if a.len() > 0 {
        let x = a.drop_last();
        let y = b.drop_last();
        assert forall|i: int| 0 <= i < x.len() implies is_digit(#[trigger] x[i]) by {
            assert(is_digit(a[i]));
        }
        assert forall|i: int| 0 <= i < y.len() implies is_digit(#[trigger] y[i]) by {
            assert(is_digit(b[i]));
        }
        lemma_same_length_order(x, y);
        lemma_decimal_value_last(a);
        lemma_decimal_value_last(b);
        let last = a.len() - 1;
        if exists|place: int| differs_below(x, y, place) {
            let place = choose|place: int| differs_below(x, y, place);
            assert(a.take(place) =~= x.take(place));
            assert(b.take(place) =~= y.take(place));
            assert(differs_below(a, b, place));
        } else if x == y && a.last() < b.last() {
            assert(a.take(last) =~= x);
            assert(b.take(last) =~= y);
            assert(differs_below(a, b, last));
        } else {
            assert forall|place: int| !differs_below(a, b, place) by {
                if differs_below(a, b, place) {
                    if place < last {
                        assert(a.take(place) =~= x.take(place));
                        assert(b.take(place) =~= y.take(place));
                        assert(differs_below(x, y, place));
                    } else {
                        assert(a.take(last) =~= x);
                        assert(b.take(last) =~= y);
                    }
                }
            }
        }
        if a.last() == b.last() && x == y {
            assert(a =~= x.push(a.last()));
            assert(b =~= y.push(b.last()));
        }
    } else {
        assert(a =~= b);
    }
}

/// Ten to the power of the number of digits bounds the number, and of one digit
/// less bounds it from below where the first digit is not zero.
proof fn lemma_decimal_value_bounds(text: Seq<char>)
    requires
        is_number(text),
    ensures
        decimal_value(text) < pow(10, text.len()),
        text[0] != '0' ==> decimal_value(text) >= pow(10, (text.len() - 1) as nat),
    decreases text.len(),
{
    reveal(pow);
    lemma_decimal_value_last(text);
    let front = text.drop_last();
    if text.len() == 1 {
        assert(digit_values(front) =~= seq![]);
        assert(pow(10, 0) == 1);
        assert(pow(10, 1) == 10 * pow(10, 0));
        assert(is_digit(text[0]));
    } else {
        assert forall|i: int| 0 <= i < front.len() implies is_digit(#[trigger] front[i]) by {
            assert(is_digit(text[i]));
        }
        lemma_decimal_value_bounds(front);
        assert(pow(10, text.len()) == 10 * pow(10, front.len()));
        assert(pow(10, front.len()) == 10 * pow(10, (front.len() - 1) as nat));
    }
}

/// The order of decimal numbers by their text is the order of the numbers.
pub proof fn law_text_order_is_numeric(a: Seq<char>, b: Seq<char>)
    requires
        is_canonical(a),
        is_canonical(b),
    ensures
        precedes(a, b) <==> decimal_value(a) < decimal_value(b),
{
    if a.len() == b.len() {
        lemma_same_length_order(a, b);
    } else {
        let (short, long) = if a.len() < b.len() {
            (a, b)
        } else {
            (b, a)
        };
        lemma_decimal_value_bounds(short);
        lemma_decimal_value_bounds(long);
        lemma_pow_increases(10, short.len(), (long.len() - 1) as nat);
    }
}

} // verus!
