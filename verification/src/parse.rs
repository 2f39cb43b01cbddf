//! Reading numbers from their decimal text.
//!
//! The text of a number is a sign, digits with or without a point, and an
//! exponent of ten; or `inf`, `infinity` or `nan`. The number that a text
//! stands for is the number nearest to the exact decimal value.

use crate::arith::{lemma_nearest_of_nothing, NAN_BITS};
use crate::conversion::{
    decimal_den, decimal_num, lemma_decimal_overflows, lemma_decimal_vanishes, nearest_decimal,
    zero_below,
};
use crate::decimal::{are_digits, digits_value, lemma_digits_bound, lemma_digits_of_nothing};
use crate::nearest::{nearest, signed};
use crate::number::{units_per_one, Number, INFINITY_MAGNITUDE, SIGN_BIT};
use crate::rounding::{lemma_power_positive, power};
use crate::text::{digit_value, is_digit, is_numeral, numeral_value};
use vstd::prelude::*;
use vstd::string::*;

verus! {

/// Whether `c` is a letter, small or capital.
pub open spec fn is_letter(c: char, small: char, capital: char) -> bool {
    c == small || c == capital
}

/// Whether `s` spells `inf`, in small or capital letters.
pub open spec fn spells_inf(s: Seq<char>) -> bool {
    &&& s.len() == 3
    &&& is_letter(s[0], 'i', 'I')
    &&& is_letter(s[1], 'n', 'N')
    &&& is_letter(s[2], 'f', 'F')
}

/// Whether `s` spells `infinity`, in small or capital letters.
pub open spec fn spells_infinity(s: Seq<char>) -> bool {
    &&& s.len() == 8
    &&& spells_inf(s.take(3))
    &&& is_letter(s[3], 'i', 'I')
    &&& is_letter(s[4], 'n', 'N')
    &&& is_letter(s[5], 'i', 'I')
    &&& is_letter(s[6], 't', 'T')
    &&& is_letter(s[7], 'y', 'Y')
}

/// Whether `s` spells `nan`, in small or capital letters.
pub open spec fn spells_nan(s: Seq<char>) -> bool {
    &&& s.len() == 3
    &&& is_letter(s[0], 'n', 'N')
    &&& is_letter(s[1], 'a', 'A')
    &&& is_letter(s[2], 'n', 'N')
}

/// Whether `s` begins with a sign.
pub open spec fn has_sign(s: Seq<char>) -> bool {
    s.len() > 0 && (s[0] == '+' || s[0] == '-')
}

/// Whether `s` begins with a minus.
pub open spec fn has_minus(s: Seq<char>) -> bool {
    s.len() > 0 && s[0] == '-'
}

/// `s` without its sign.
pub open spec fn unsigned_part(s: Seq<char>) -> Seq<char> {
    if has_sign(s) {
        s.drop_first()
    } else {
        s
    }
}

/// The number of digits that `s` begins with.
pub open spec fn digits_ahead(s: Seq<char>) -> nat
    decreases s.len(),
{
    if s.len() > 0 && is_digit(s[0]) {
        1 + digits_ahead(s.drop_first())
    } else {
        0
    }
}

/// The parts of a decimal text without its sign: how many digits stand
/// before the point, whether there is a point, and how many digits stand
/// behind it.
pub struct Shape {
    pub whole: nat,
    pub pointed: bool,
    pub fraction: nat,
}

/// The shape of the digits that `body` begins with.
pub open spec fn shape_of(body: Seq<char>) -> Shape {
    let whole = digits_ahead(body);
    let pointed = whole < body.len() && body[whole as int] == '.';
    Shape {
        whole,
        pointed,
        fraction: if pointed {
            digits_ahead(body.skip(whole as int + 1))
        } else {
            0
        },
    }
}

impl Shape {
    /// Where the digits and the point end.
    pub open spec fn end(self) -> nat {
        if self.pointed {
            self.whole + 1 + self.fraction
        } else {
            self.whole
        }
    }

    /// The digits before and behind the point, in one row.
    pub open spec fn digits(self, body: Seq<char>) -> Seq<char> {
        if self.pointed {
            body.take(self.whole as int) + body.subrange(self.whole as int + 1, self.end() as int)
        } else {
            body.take(self.whole as int)
        }
    }
}

/// The exponent that a text behind the digits stands for: none for no
/// text, and else an `e`, a sign or none, and a decimal numeral.
pub open spec fn exponent_of(tail: Seq<char>) -> Option<int> {
    if tail.len() == 0 {
        Some(0int)
    } else if is_letter(tail[0], 'e', 'E') && is_numeral(unsigned_part(tail.drop_first())) {
        let size = numeral_value(unsigned_part(tail.drop_first())) as int;
        Some(
            if has_minus(tail.drop_first()) {
                -size
            } else {
                size
            },
        )
    } else {
        None
    }
}

/// The number that digits with a point and an exponent stand for, under
/// a sign: the number nearest to their exact value. There is a digit at
/// least, before or behind the point.
pub open spec fn decimal_number(negative: bool, body: Seq<char>) -> Option<Number> {
    let shape = shape_of(body);
    if shape.whole + shape.fraction == 0 {
        None
    } else {
        match exponent_of(body.skip(shape.end() as int)) {
            None => None,
            Some(exponent) => {
                let x = exponent - shape.fraction;
                Some(
                    nearest(
                        negative,
                        decimal_num(numeral_value(shape.digits(body)), x),
                        decimal_den(x),
                    ),
                )
            },
        }
    }
}

/// The number that a word stands for, under a sign: infinity for `inf`
/// and `infinity`, not a number for `nan`.
pub open spec fn word_number(negative: bool, body: Seq<char>) -> Option<Number> {
    if spells_inf(body) || spells_infinity(body) {
        Some(signed(negative, INFINITY_MAGNITUDE as nat))
    } else if spells_nan(body) {
        Some(signed(negative, NAN_BITS as nat))
    } else {
        None
    }
}

/// The number that a text stands for, if it stands for one.
///
/// A text is a sign or none, and then `inf`, `infinity` or `nan` in small
/// or capital letters, or digits with at most one point among them, before
/// them or behind them, and an exponent or none. It has no blanks and no
/// characters beyond ASCII.
pub open spec fn parsed_number(text: Seq<char>) -> Option<Number> {
    let negative = has_minus(text);
    let body = unsigned_part(text);
    if !vstd::utf8::is_ascii_chars(text) {
        None
    } else if word_number(negative, body) is Some {
        word_number(negative, body)
    } else {
        decimal_number(negative, body)
    }
}

/// The digits of a row of digit characters, the lowest first.
pub open spec fn lowest_first(chars: Seq<char>) -> Seq<u8> {
    Seq::new(chars.len(), |k: int| digit_value(chars[chars.len() - 1 - k]) as u8)
}

/// The digits of a numeral, the lowest first, stand for what the numeral
/// stands for.
proof fn lemma_lowest_first(chars: Seq<char>)
    requires
        forall|k: int| 0 <= k < chars.len() ==> is_digit(#[trigger] chars[k]),
    ensures
        are_digits(lowest_first(chars)),
        digits_value(lowest_first(chars)) == numeral_value(chars),
    decreases chars.len(),
{
    if chars.len() > 0 {
        let front = chars.drop_last();
        lemma_lowest_first(front);
        assert(lowest_first(chars).drop_first() =~= lowest_first(front));
        assert(is_digit(chars[chars.len() - 1]));
    }
    assert forall|k: int| 0 <= k < chars.len() implies lowest_first(chars)[k] < 10 by {
        assert(is_digit(chars[chars.len() - 1 - k]));
    }
}

/// The digits ahead of a place, counted from the place behind a digit.
proof fn lemma_digit_ahead(s: Seq<char>, i: int)
    requires
        0 <= i < s.len(),
    ensures
        is_digit(s[i]) ==> digits_ahead(s.skip(i)) == 1 + digits_ahead(s.skip(i + 1)),
        !is_digit(s[i]) ==> digits_ahead(s.skip(i)) == 0,
        digits_ahead(s.skip(s.len() as int)) == 0,
{
    assert(s.skip(i)[0] == s[i]);
    assert(s.skip(i).drop_first() =~= s.skip(i + 1));
}

/// The end of the digits that begin at `from`.
fn scan_digits(text: &str, from: usize, n: usize) -> (to: usize)
    requires
        text.is_ascii(),
        n == text@.len(),
        from <= n,
    ensures
        from <= to <= n,
        to - from == digits_ahead(text@.skip(from as int)),
        forall|k: int| from <= k < to ==> is_digit(#[trigger] text@[k]),
        to < n ==> !is_digit(text@[to as int]),
{
    let mut i: usize = from;
    while i < n
        invariant
            from <= i <= n,
            n == text@.len(),
            text.is_ascii(),
            digits_ahead(text@.skip(from as int)) == (i - from) + digits_ahead(
                text@.skip(i as int),
            ),
            forall|k: int| from <= k < i ==> is_digit(#[trigger] text@[k]),
        decreases n - i,
    {
        let b: u8 = text.get_ascii(i);
        proof {
            lemma_digit_ahead(text@, i as int);
        }
        if b < 48 || b > 57 {
            assert(!is_digit(text@[i as int]));
            return i;
        }
        assert(is_digit(text@[i as int]));
        i = i + 1;
    }
    assert(text@.skip(n as int).len() == 0);
    i
}

/// The greatest exponent that is read as it stands: two to the power of
/// 100. What is beyond comes out as this.
pub const EXPONENT_CAP: u128 = 0x1_0000_0000_0000_0000_0000_0000;

/// The numeral that stands from `from` to the end, as far as it is below
/// the cap; none where what stands there is no numeral.
fn capped_numeral(text: &str, from: usize, n: usize) -> (r: Option<u128>)
    requires
        text.is_ascii(),
        n == text@.len(),
        from <= n,
    ensures
        r is Some <==> is_numeral(text@.skip(from as int)),
        r matches Some(v) ==> {
            &&& numeral_value(text@.skip(from as int)) < EXPONENT_CAP ==> v == numeral_value(
                text@.skip(from as int),
            )
            &&& numeral_value(text@.skip(from as int)) >= EXPONENT_CAP ==> v == EXPONENT_CAP
        },
{
    let ghost body = text@.skip(from as int);
    if from == n {
        return None;
    }
    let mut acc: u128 = 0;
    let mut i: usize = from;
    assert(body.take(0) =~= Seq::<char>::empty());
    while i < n
        invariant
            from <= i <= n,
            from < n,
            n == text@.len(),
            text.is_ascii(),
            body == text@.skip(from as int),
            forall|k: int| 0 <= k < i - from ==> is_digit(#[trigger] body[k]),
            acc <= EXPONENT_CAP,
            numeral_value(body.take(i - from)) < EXPONENT_CAP ==> acc == numeral_value(
                body.take(i - from),
            ),
            numeral_value(body.take(i - from)) >= EXPONENT_CAP ==> acc == EXPONENT_CAP,
        decreases n - i,
    {
        let b: u8 = text.get_ascii(i);
        assert(text@[i as int] == body[i - from]);
        if b < 48 || b > 57 {
            assert(!is_digit(body[i - from]));
            return None;
        }
        assert(is_digit(body[i - from]));
        assert(body.take(i - from + 1).drop_last() =~= body.take(i - from));
        let next: u128 = acc * 10 + (b - 48) as u128;
        acc = if next > EXPONENT_CAP {
            EXPONENT_CAP
        } else {
            next
        };
        i = i + 1;
    }
    assert(body.take(n - from) =~= body);
    Some(acc)
}

/// The digits of two stretches of digit characters, the lowest first.
fn gather_digits(text: &str, a: usize, b: usize, c: usize, d: usize) -> (r: Vec<u8>)
    requires
        text.is_ascii(),
        a <= b <= c <= d <= text@.len(),
        forall|k: int| a <= k < b ==> is_digit(#[trigger] text@[k]),
        forall|k: int| c <= k < d ==> is_digit(#[trigger] text@[k]),
    ensures
        r@ == lowest_first(text@.subrange(a as int, b as int) + text@.subrange(c as int, d as int)),
{
    let ghost chars = text@.subrange(a as int, b as int) + text@.subrange(c as int, d as int);
    let ghost goal = lowest_first(chars);
    let mut r: Vec<u8> = Vec::new();
    let mut i: usize = d;
    while i > c
        invariant
            c <= i <= d,
            a <= b <= c <= d <= text@.len(),
            text.is_ascii(),
            chars == text@.subrange(a as int, b as int) + text@.subrange(c as int, d as int),
            goal == lowest_first(chars),
            forall|k: int| c <= k < d ==> is_digit(#[trigger] text@[k]),
            r@ == goal.take(d - i),
        decreases i,
    {
        i = i - 1;
        let byte: u8 = text.get_ascii(i);
        assert(is_digit(text@[i as int]));
        assert(chars[chars.len() - 1 - (d - 1 - i)] == text@[i as int]);
        r.push(byte - 48);
        assert(r@ =~= goal.take(d - i));
    }
    let mut j: usize = b;
    while j > a
        invariant
            a <= j <= b,
            a <= b <= c <= d <= text@.len(),
            text.is_ascii(),
            chars == text@.subrange(a as int, b as int) + text@.subrange(c as int, d as int),
            goal == lowest_first(chars),
            forall|k: int| a <= k < b ==> is_digit(#[trigger] text@[k]),
            r@ == goal.take((d - c) + (b - j)),
        decreases j,
    {
        j = j - 1;
        let byte: u8 = text.get_ascii(j);
        assert(is_digit(text@[j as int]));
        assert(chars[chars.len() - 1 - ((d - c) + (b - 1 - j))] == text@[j as int]);
        r.push(byte - 48);
        assert(r@ =~= goal.take((d - c) + (b - j)));
    }
    assert(goal.take(goal.len() as int) =~= goal);
    r
}

/// The exponent that stands from `from` to the end: its sign and its
/// size, as far as the size is below the cap.
fn read_exponent(text: &str, from: usize, n: usize) -> (r: Option<(bool, u128)>)
    requires
        text.is_ascii(),
        n == text@.len(),
        from <= n,
    ensures
        r is Some <==> exponent_of(text@.skip(from as int)) is Some,
        r matches Some((minus, size)) ==> {
            let exponent = exponent_of(text@.skip(from as int))->0;
            &&& minus ==> exponent <= 0
            &&& !minus ==> exponent >= 0
            &&& size <= EXPONENT_CAP
            &&& size < EXPONENT_CAP ==> exponent == if minus {
                -(size as int)
            } else {
                size as int
            }
            &&& size == EXPONENT_CAP ==> exponent >= EXPONENT_CAP || exponent <= -(EXPONENT_CAP
                as int)
        },
{
    let ghost tail = text@.skip(from as int);
    if from == n {
        return Some((false, 0));
    }
    let letter: u8 = text.get_ascii(from);
    assert(tail[0] == text@[from as int]);
    if !(letter == 101 || letter == 69) {
        return None;
    }
    let after: usize = from + 1;
    let ghost rest = tail.drop_first();
    assert(rest =~= text@.skip(after as int));
    let mark: u8 = if after < n {
        text.get_ascii(after)
    } else {
        0
    };
    proof {
        if after < n {
            assert(rest[0] == text@[after as int]);
        }
    }
    let signed: bool = after < n && (mark == 43 || mark == 45);
    let minus: bool = after < n && mark == 45;
    let begin: usize = if signed {
        after + 1
    } else {
        after
    };
    assert(unsigned_part(rest) =~= text@.skip(begin as int));
    match capped_numeral(text, begin, n) {
        None => None,
        Some(size) => Some((minus, size)),
    }
}

/// The number of digits that are not all zero, times ten to the power of
/// an exponent that is given by sign and size, less the places behind the
/// point.
fn settle(
    negative: bool,
    digits: &Vec<u8>,
    minus: bool,
    size: u128,
    places: usize,
    Ghost(exponent): Ghost<int>,
) -> (r: Number)
    requires
        are_digits(digits@),
        digits_value(digits@) >= 1,
        size <= EXPONENT_CAP,
        minus ==> exponent <= 0,
        !minus ==> exponent >= 0,
        size < EXPONENT_CAP ==> exponent == if minus {
            -(size as int)
        } else {
            size as int
        },
        size == EXPONENT_CAP ==> exponent >= EXPONENT_CAP || exponent <= -(EXPONENT_CAP as int),
    ensures
        r == nearest(
            negative,
            decimal_num(digits_value(digits@), exponent - places),
            decimal_den(exponent - places),
        ),
{
    let sign: u64 = if negative {
        SIGN_BIT
    } else {
        0
    };
    let ghost x = exponent - places;
    let ghost d = digits_value(digits@);
    if size == EXPONENT_CAP {
        if minus {
            proof {
                lemma_digits_bound(digits@);
                lemma_decimal_vanishes(d, x, digits.len() as nat);
            }
            return Number { bits: sign };
        } else {
            proof {
                lemma_decimal_overflows(d, x);
            }
            return Number { bits: sign + INFINITY_MAGNITUDE };
        }
    }
    let x: i128 = if minus {
        -(size as i128) - places as i128
    } else {
        size as i128 - places as i128
    };
    if x > 1000 {
        proof {
            lemma_decimal_overflows(d, x as int);
        }
        return Number { bits: sign + INFINITY_MAGNITUDE };
    }
    nearest_decimal(negative, digits, x)
}

/// The number of the word that stands from `start` to the end.
fn read_word(text: &str, start: usize, n: usize, negative: bool) -> (r: Option<Number>)
    requires
        text.is_ascii(),
        n == text@.len(),
        start <= n,
    ensures
        r == word_number(negative, text@.skip(start as int)),
{
    let sign: u64 = if negative {
        SIGN_BIT
    } else {
        0
    };
    let ghost body = text@.skip(start as int);
    if n - start == 3 {
        let b0: u8 = text.get_ascii(start);
        let b1: u8 = text.get_ascii(start + 1);
        let b2: u8 = text.get_ascii(start + 2);
        assert(body[0] == text@[start as int] && body[1] == text@[start + 1] && body[2] == text@[
            start + 2]);
        if (b0 == 105 || b0 == 73) && (b1 == 110 || b1 == 78) && (b2 == 102 || b2 == 70) {
            return Some(Number { bits: sign + INFINITY_MAGNITUDE });
        }
        if (b0 == 110 || b0 == 78) && (b1 == 97 || b1 == 65) && (b2 == 110 || b2 == 78) {
            return Some(Number { bits: sign + NAN_BITS });
        }
        return None;
    }
    if n - start == 8 {
        let b0: u8 = text.get_ascii(start);
        let b1: u8 = text.get_ascii(start + 1);
        let b2: u8 = text.get_ascii(start + 2);
        let b3: u8 = text.get_ascii(start + 3);
        let b4: u8 = text.get_ascii(start + 4);
        let b5: u8 = text.get_ascii(start + 5);
        let b6: u8 = text.get_ascii(start + 6);
        let b7: u8 = text.get_ascii(start + 7);
        proof {
            assert(body[0] == text@[start as int] && body[1] == text@[start + 1] && body[2]
                == text@[start + 2] && body[3] == text@[start + 3]);
            assert(body[4] == text@[start + 4] && body[5] == text@[start + 5] && body[6] == text@[
                start + 6] && body[7] == text@[start + 7]);
            assert(body.take(3)[0] == body[0] && body.take(3)[1] == body[1] && body.take(3)[2]
                == body[2]);
        }
        if (b0 == 105 || b0 == 73) && (b1 == 110 || b1 == 78) && (b2 == 102 || b2 == 70) && (b3
            == 105 || b3 == 73) && (b4 == 110 || b4 == 78) && (b5 == 105 || b5 == 73) && (b6
            == 116 || b6 == 84) && (b7 == 121 || b7 == 89) {
            return Some(Number { bits: sign + INFINITY_MAGNITUDE });
        }
    }
    None
}

/// Where the digits and the point end that begin at `start`: the end of
/// the digits before the point, and the begin and the end of the digits
/// behind it.
fn read_shape(text: &str, start: usize, n: usize) -> (ends: (usize, usize, usize))
    requires
        text.is_ascii(),
        n == text@.len(),
        start <= n,
    ensures
        start <= ends.0 <= ends.1 <= ends.2 <= n,
        ends.0 - start == shape_of(text@.skip(start as int)).whole,
        ends.2 - ends.1 == shape_of(text@.skip(start as int)).fraction,
        ends.2 - start == shape_of(text@.skip(start as int)).end(),
        shape_of(text@.skip(start as int)).pointed == (ends.1 == ends.0 + 1),
        ends.1 <= ends.0 + 1,
        forall|k: int| start <= k < ends.0 ==> is_digit(#[trigger] text@[k]),
        forall|k: int| ends.1 <= k < ends.2 ==> is_digit(#[trigger] text@[k]),
{
    let ghost body = text@.skip(start as int);
    let whole_end: usize = scan_digits(text, start, n);
    let pointed: bool = whole_end < n && text.get_ascii(whole_end) == 46;
    proof {
        if whole_end < n {
            assert(body[whole_end - start] == text@[whole_end as int]);
        }
    }
    if pointed {
        let fraction_end: usize = scan_digits(text, whole_end + 1, n);
        assert(body.skip(whole_end - start + 1) =~= text@.skip(whole_end + 1));
        (whole_end, whole_end + 1, fraction_end)
    } else {
        (whole_end, whole_end, whole_end)
    }
}

/// The number of the digits, the point and the exponent that stand from
/// `start` to the end.
fn read_decimal(text: &str, start: usize, n: usize, negative: bool) -> (r: Option<Number>)
    requires
        text.is_ascii(),
        n == text@.len(),
        start <= n,
    ensures
        r == decimal_number(negative, text@.skip(start as int)),
{
    let ghost body = text@.skip(start as int);
    let ghost shape = shape_of(body);
    let (whole_end, fraction_start, fraction_end) = read_shape(text, start, n);
    if (whole_end - start) + (fraction_end - fraction_start) == 0 {
        return None;
    }
    assert(body.skip(shape.end() as int) =~= text@.skip(fraction_end as int));
    let (minus, size) = match read_exponent(text, fraction_end, n) {
        None => {
            return None;
        },
        Some(found) => found,
    };
    let ghost exponent = exponent_of(text@.skip(fraction_end as int))->0;
    let digits: Vec<u8> = gather_digits(text, start, whole_end, fraction_start, fraction_end);
    let ghost chars = shape.digits(body);
    proof {
        assert(body.take(shape.whole as int) =~= text@.subrange(start as int, whole_end as int));
        if shape.pointed {
            assert(body.subrange(shape.whole as int + 1, shape.end() as int) =~= text@.subrange(
                fraction_start as int,
                fraction_end as int,
            ));
        } else {
            assert(text@.subrange(fraction_start as int, fraction_end as int) =~= Seq::<
                char,
            >::empty());
        }
        assert(chars =~= text@.subrange(start as int, whole_end as int) + text@.subrange(
            fraction_start as int,
            fraction_end as int,
        ));
        assert forall|k: int| 0 <= k < chars.len() implies is_digit(#[trigger] chars[k]) by {
            if k < whole_end - start {
                assert(chars[k] == text@[start + k]);
            } else {
                assert(chars[k] == text@[fraction_start + (k - (whole_end - start))]);
            }
        }
        lemma_lowest_first(chars);
        lemma_digits_of_nothing(digits@);
    }
    if zero_below(&digits, digits.len()) {
        let sign: u64 = if negative {
            SIGN_BIT
        } else {
            0
        };
        proof {
            let x = exponent - shape.fraction;
            assert(decimal_num(0, x) == 0) by {
                assert(0 * units_per_one() == 0) by (nonlinear_arith);
                assert((0 * power(10, x as nat)) * units_per_one() == 0) by (nonlinear_arith);
            }
            lemma_power_positive(10, (-x) as nat);
            lemma_nearest_of_nothing(decimal_den(x));
        }
        return Some(Number { bits: sign });
    }
    Some(settle(negative, &digits, minus, size, fraction_end - fraction_start, Ghost(exponent)))
}

/// Reads a number from its text.
pub fn parse_number(text: &str) -> (r: Option<Number>)
    ensures
        r == parsed_number(text@),
{
    if !text.is_ascii() {
        return None;
    }
    let n: usize = text.unicode_len();
    let first: u8 = if n > 0 {
        text.get_ascii(0)
    } else {
        0
    };
    let negative: bool = n > 0 && first == 45;
    let start: usize = if n > 0 && (first == 43 || first == 45) {
        1
    } else {
        0
    };
    assert(unsigned_part(text@) =~= text@.skip(start as int));
    match read_word(text, start, n, negative) {
        Some(number) => Some(number),
        None => read_decimal(text, start, n, negative),
    }
}

} // verus!
