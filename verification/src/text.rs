//! Text building blocks: decimal numerals, repeated characters, columns.

use crate::rounding::power;
use vstd::prelude::*;
use vstd::string::*;

verus! {

/// `n` copies of `c`.
pub open spec fn repeat(c: char, n: nat) -> Seq<char> {
    Seq::new(n, |i: int| c)
}

/// `text` right-justified in a column of `width` characters: spaces are put
/// in front until the column is full; a text that is too long is kept whole.
pub open spec fn pad_left(text: Seq<char>, width: nat) -> Seq<char> {
    if text.len() >= width {
        text
    } else {
        repeat(' ', (width - text.len()) as nat) + text
    }
}

/// The character of a decimal digit.
pub open spec fn digit(d: nat) -> char
    recommends
        d < 10,
{
    seq!['0', '1', '2', '3', '4', '5', '6', '7', '8', '9'][d as int]
}

/// The decimal numeral of `n`, without sign or leading zeros.
pub open spec fn decimal(n: nat) -> Seq<char>
    decreases n,
{
    if n < 10 {
        seq![digit(n)]
    } else {
        decimal(n / 10).push(digit(n % 10))
    }
}

/// The characters of the digits of `low`, the last digit first.
pub open spec fn tail_of(low: Seq<u8>) -> Seq<char> {
    Seq::new(low.len(), |i: int| digit(low[low.len() - 1 - i] as nat))
}

fn digit_text(d: u8) -> (s: &'static str)
    requires
        d < 10,
    ensures
        s@ == seq![digit(d as nat)],
{
    proof {
        reveal_strlit("0");
        reveal_strlit("1");
        reveal_strlit("2");
        reveal_strlit("3");
        reveal_strlit("4");
        reveal_strlit("5");
        reveal_strlit("6");
        reveal_strlit("7");
        reveal_strlit("8");
        reveal_strlit("9");
    }
    let s = match d {
        0 => "0",
        1 => "1",
        2 => "2",
        3 => "3",
        4 => "4",
        5 => "5",
        6 => "6",
        7 => "7",
        8 => "8",
        _ => "9",
    };
    assert(s@ =~= seq![digit(d as nat)]);
    s
}

/// Appends the digits of `low`, the last first.
pub(crate) fn push_digits(out: &mut String, low: &Vec<u8>)
    requires
        forall|k: int| 0 <= k < low.len() ==> low[k] < 10,
    ensures
        final(out)@ == old(out)@ + tail_of(low@),
{
    let mut i: usize = low.len();
    while i > 0
        invariant
            i <= low.len(),
            forall|k: int| 0 <= k < low.len() ==> low[k] < 10,
            out@ == old(out)@ + tail_of(low@).take(low.len() - i),
        decreases i,
    {
        i = i - 1;
        out.append(digit_text(low[i]));
        assert(out@ =~= old(out)@ + tail_of(low@).take(low.len() - i));
    }
    assert(tail_of(low@).take(low.len() as int) =~= tail_of(low@));
}

/// Appends the decimal numeral of `n`.
pub fn push_decimal(out: &mut String, n: u128)
    ensures
        final(out)@ == old(out)@ + decimal(n as nat),
{
    let mut low: Vec<u8> = Vec::new();
    let mut rest: u128 = n;
    while rest >= 10
        invariant
            decimal(n as nat) == decimal(rest as nat) + tail_of(low@),
            forall|i: int| 0 <= i < low.len() ==> low[i] < 10,
        decreases rest,
    {
        let ghost before = low@;
        let d: u8 = (rest % 10) as u8;
        low.push(d);
        assert(decimal(rest as nat) == decimal((rest / 10) as nat).push(digit(d as nat)));
        assert(decimal((rest / 10) as nat).push(digit(d as nat)) + tail_of(before) =~= decimal(
            (rest / 10) as nat,
        ) + tail_of(low@));
        rest = rest / 10;
    }
    out.append(digit_text(rest as u8));
    push_digits(out, &low);
    assert(out@ =~= old(out)@ + (decimal(rest as nat) + tail_of(low@)));
}

/// Appends the lowest `width` decimal digits of `v`, with leading zeros.
pub(crate) fn push_zero_padded(out: &mut String, v: u128, width: u8)
    ensures
        final(out)@ == old(out)@ + zero_padded(v as nat, width as nat),
{
    let mut low: Vec<u8> = Vec::new();
    let mut rest: u128 = v;
    let mut i: u8 = 0;
    while i < width
        invariant
            i <= width,
            low.len() == i,
            forall|k: int| 0 <= k < low.len() ==> low[k] < 10,
            zero_padded(v as nat, width as nat) == zero_padded(rest as nat, (width - i) as nat)
                + tail_of(low@),
        decreases width - i,
    {
        let ghost before = low@;
        let d: u8 = (rest % 10) as u8;
        low.push(d);
        assert(zero_padded(rest as nat, (width - i) as nat) == zero_padded(
            (rest / 10) as nat,
            (width - i - 1) as nat,
        ).push(digit(d as nat)));
        assert(zero_padded((rest / 10) as nat, (width - i - 1) as nat).push(digit(d as nat))
            + tail_of(before) =~= zero_padded((rest / 10) as nat, (width - i - 1) as nat)
            + tail_of(low@));
        rest = rest / 10;
        i = i + 1;
    }
    push_digits(out, &low);
    assert(out@ =~= old(out)@ + (zero_padded(rest as nat, 0) + tail_of(low@)));
}

/// Appends `n` copies of the one-character text `piece`.
pub(crate) fn push_copies(out: &mut String, piece: &str, n: u128)
    requires
        piece@.len() == 1,
    ensures
        final(out)@ == old(out)@ + repeat(piece@[0], n as nat),
{
    let mut i: u128 = 0;
    while i < n
        invariant
            i <= n,
            piece@.len() == 1,
            out@ == old(out)@ + repeat(piece@[0], i as nat),
        decreases n - i,
    {
        out.append(piece);
        i = i + 1;
        assert(out@ =~= old(out)@ + repeat(piece@[0], i as nat));
    }
}

/// Appends `n` spaces.
pub fn push_spaces(out: &mut String, n: u64)
    ensures
        final(out)@ == old(out)@ + repeat(' ', n as nat),
{
    proof {
        reveal_strlit(" ");
    }
    push_copies(out, " ", n as u128);
}

/// Appends `text` right-justified in a column of `width` characters.
pub fn push_padded(out: &mut String, text: &str, width: u64)
    ensures
        final(out)@ == old(out)@ + pad_left(text@, width as nat),
{
    let len: usize = text.unicode_len();
    if (len as u64) < width {
        push_spaces(out, width - len as u64);
    }
    out.append(text);
    assert(out@ =~= old(out)@ + pad_left(text@, width as nat));
}

/// The lowest `width` decimal digits of `v`, with leading zeros.
pub open spec fn zero_padded(v: nat, width: nat) -> Seq<char>
    decreases width,
{
    if width == 0 {
        Seq::empty()
    } else {
        zero_padded(v / 10, (width - 1) as nat).push(digit(v % 10))
    }
}

/// The number `t / 10^places` written out: the whole part, and behind a
/// point the `places` digits of the rest. Without places there is no point.
pub open spec fn point_text(t: nat, places: nat) -> Seq<char> {
    if places == 0 {
        decimal(t)
    } else {
        decimal(t / power(10, places)) + seq!['.'] + zero_padded(t % power(10, places), places)
    }
}

/// Whether `c` is a decimal digit.
pub open spec fn is_digit(c: char) -> bool {
    '0' <= c <= '9'
}

/// The number that a decimal digit stands for.
pub open spec fn digit_value(c: char) -> nat
    recommends
        is_digit(c),
{
    (c as nat - '0' as nat) as nat
}

/// Whether `s` is a decimal numeral: one digit or more and nothing else.
pub open spec fn is_numeral(s: Seq<char>) -> bool {
    s.len() > 0 && forall|i: int| 0 <= i < s.len() ==> is_digit(#[trigger] s[i])
}

/// The number that a decimal numeral stands for.
pub open spec fn numeral_value(s: Seq<char>) -> nat
    decreases s.len(),
{
    if s.len() == 0 {
        0
    } else {
        10 * numeral_value(s.drop_last()) + digit_value(s.last())
    }
}

/// `s` without a plus sign in front.
pub open spec fn unsigned(s: Seq<char>) -> Seq<char> {
    if s.len() > 0 && s[0] == '+' {
        s.drop_first()
    } else {
        s
    }
}

/// The 64-bit number that `s` stands for: a decimal numeral, with or
/// without a plus sign in front, of a number that fits.
pub open spec fn parsed_u64(s: Seq<char>) -> Option<u64> {
    let body = unsigned(s);
    if is_numeral(body) && numeral_value(body) <= u64::MAX {
        Some(numeral_value(body) as u64)
    } else {
        None
    }
}

/// A numeral stands for no less than each of its beginnings.
proof fn lemma_numeral_value_grows(s: Seq<char>, n: nat)
    requires
        n <= s.len(),
    ensures
        numeral_value(s.take(n as int)) <= numeral_value(s),
    decreases s.len() - n,
{
    if n < s.len() {
        lemma_numeral_value_grows(s, n + 1);
        assert(s.take(n as int + 1).drop_last() =~= s.take(n as int));
    } else {
        assert(s.take(n as int) =~= s);
    }
}

/// The decimal numeral of a number is a numeral, and stands for the number.
pub proof fn lemma_decimal_is_numeral(n: nat)
    ensures
        is_numeral(decimal(n)),
        numeral_value(decimal(n)) == n,
    decreases n,
{
    if n < 10 {
        assert(decimal(n).drop_last() =~= Seq::<char>::empty());
        assert(numeral_value(decimal(n).drop_last()) == 0);
    } else {
        lemma_decimal_is_numeral(n / 10);
        assert(decimal(n).drop_last() =~= decimal(n / 10));
        assert(is_digit(digit(n % 10)));
    }
}

/// Reading the decimal numeral of a 64-bit number gives the number back.
pub proof fn lemma_decimal_round_trip(n: u64)
    ensures
        parsed_u64(decimal(n as nat)) == Some(n),
{
    lemma_decimal_is_numeral(n as nat);
    assert(decimal(n as nat)[0] != '+');
}

/// Reads a 64-bit number from its decimal numeral.
pub fn parse_u64(s: &str) -> (r: Option<u64>)
    ensures
        r == parsed_u64(s@),
{
    let ghost body = unsigned(s@);
    if !s.is_ascii() {
        proof {
            let i = choose|i: int| 0 <= i < s@.len() && !('\0' <= #[trigger] s@[i] <= '\u{7f}');
            if s@.len() > 0 && s@[0] == '+' {
                assert(!is_digit(body[i - 1]));
            } else {
                assert(!is_digit(body[i]));
            }
        }
        return None;
    }
    let n: usize = s.unicode_len();
    let start: usize = if n > 0 && s.get_ascii(0) == 43 {
        1
    } else {
        0
    };
    assert(body =~= s@.subrange(start as int, n as int));
    if start == n {
        return None;
    }
    let mut acc: u64 = 0;
    let mut i: usize = start;
    while i < n
        invariant
            start <= i <= n,
            n == s@.len(),
            s.is_ascii(),
            body == unsigned(s@),
            body == s@.subrange(start as int, n as int),
            forall|k: int| 0 <= k < i - start ==> is_digit(#[trigger] body[k]),
            acc == numeral_value(body.take(i - start)),
        decreases n - i,
    {
        let b: u8 = s.get_ascii(i);
        assert(s@[i as int] == body[i - start]);
        if b < 48 || b > 57 {
            assert(!is_digit(body[i - start]));
            return None;
        }
        assert(is_digit(body[i - start]));
        let d: u64 = (b - 48) as u64;
        assert(d == digit_value(body[i - start]));
        assert(body.take(i - start + 1).drop_last() =~= body.take(i - start));
        proof {
            lemma_numeral_value_grows(body, (i - start + 1) as nat);
        }
        let next = match acc.checked_mul(10) {
            Some(tenfold) => tenfold.checked_add(d),
            None => None,
        };
        match next {
            Some(value) => {
                acc = value;
            },
            None => {
                return None;
            },
        }
        i = i + 1;
    }
    assert(body.take(n - start) =~= body);
    Some(acc)
}

/// The text of a string that may be absent.
pub open spec fn text_of(value: Option<String>) -> Option<Seq<char>> {
    match value {
        Some(text) => Some(text@),
        None => None,
    }
}

/// The texts of a vector of strings.
pub open spec fn texts(v: Seq<String>) -> Seq<Seq<char>> {
    Seq::new(v.len(), |i: int| v[i]@)
}

} // verus!
