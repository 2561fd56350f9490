//! Decimal numbers as text: fixed-width rendering and parsing.

use vstd::prelude::*;
use vstd::string::*;
use crate::order::{lemma_lex_common_head, lemma_lex_common_len, lex_lt};

verus! {

/// The decimal digit of a number below ten.
pub open spec fn digit_char(d: int) -> char {
    if d == 0 { '0' } else if d == 1 { '1' } else if d == 2 { '2' } else if d == 3 { '3' }
    else if d == 4 { '4' } else if d == 5 { '5' } else if d == 6 { '6' } else if d == 7 { '7' }
    else if d == 8 { '8' } else { '9' }
}

/// The last `width` decimal digits of `n`, with leading zeros.
pub open spec fn decimal(n: nat, width: nat) -> Seq<char>
    decreases width,
{
    if width == 0 {
        Seq::empty()
    } else {
        decimal(n / 10, (width - 1) as nat).push(digit_char((n % 10) as int))
    }
}

fn digit(d: u64) -> (c: char)
    requires
        d < 10,
    ensures
        c == digit_char(d as int),
{
    if d == 0 { '0' } else if d == 1 { '1' } else if d == 2 { '2' } else if d == 3 { '3' }
    else if d == 4 { '4' } else if d == 5 { '5' } else if d == 6 { '6' } else if d == 7 { '7' }
    else if d == 8 { '8' } else { '9' }
}

/// Append the last `width` decimal digits of `n` to `out`.
pub fn push_decimal(out: &mut String, n: u64, width: u32)
    ensures
        final(out)@ == old(out)@ + decimal(n as nat, width as nat),
    decreases width,
{
    if width > 0 {
        push_decimal(out, n / 10, width - 1);
        out.push(digit(n % 10));
    }
    assert(out@ =~= old(out)@ + decimal(n as nat, width as nat));
}

/// The value of a decimal digit, if `c` is one.
pub open spec fn digit_value(c: char) -> Option<int> {
    if c == '0' { Some(0int) } else if c == '1' { Some(1int) } else if c == '2' { Some(2int) }
    else if c == '3' { Some(3int) } else if c == '4' { Some(4int) } else if c == '5' { Some(5int) }
    else if c == '6' { Some(6int) } else if c == '7' { Some(7int) } else if c == '8' { Some(8int) }
    else if c == '9' { Some(9int) } else { None }
}

pub open spec fn all_digits(s: Seq<char>) -> bool {
    forall|i: int| 0 <= i < s.len() ==> digit_value(#[trigger] s[i]) is Some
}

/// The number that a sequence of decimal digits denotes.
pub open spec fn digits_value(s: Seq<char>) -> nat
    decreases s.len(),
{
    if s.len() == 0 {
        0
    } else {
        (digits_value(s.drop_last()) * 10 + digit_value(s.last())->0) as nat
    }
}

/// What `str::parse` reads as a `u64`: decimal digits, at least one, perhaps behind one `+`,
/// whose value fits.
pub open spec fn u64_of_text(s: Seq<char>) -> Option<u64> {
    let d = if s.len() > 0 && s[0] == '+' { s.skip(1) } else { s };
    if d.len() > 0 && all_digits(d) && digits_value(d) <= u64::MAX {
        Some(digits_value(d) as u64)
    } else {
        None
    }
}

fn value_of_digit(c: char) -> (r: Option<u64>)
    ensures
        r is Some == digit_value(c) is Some,
        r is Some ==> r->0 == digit_value(c)->0 && r->0 < 10,
{
    if c == '0' { Some(0) } else if c == '1' { Some(1) } else if c == '2' { Some(2) }
    else if c == '3' { Some(3) } else if c == '4' { Some(4) } else if c == '5' { Some(5) }
    else if c == '6' { Some(6) } else if c == '7' { Some(7) } else if c == '8' { Some(8) }
    else if c == '9' { Some(9) } else { None }
}

/// Digits added behind a number never make it smaller.
proof fn lemma_digits_value_grows(s: Seq<char>, n: int)
    requires
        0 <= n <= s.len(),
        all_digits(s),
    ensures
        digits_value(s.take(n)) <= digits_value(s),
    decreases s.len() - n,
{
    if n == s.len() {
        assert(s.take(n) =~= s);
    } else {
        lemma_digits_value_grows(s, n + 1);
        assert(s.take(n + 1).drop_last() =~= s.take(n));
        assert(digit_value(s[n]) is Some);
    }
}

/// Read characters `start..end` as a `u64`.
pub fn parse_u64(chars: &Vec<char>, start: usize, end: usize) -> (r: Option<u64>)
    requires
        start <= end <= chars.len(),
    ensures
        r == u64_of_text(chars@.subrange(start as int, end as int)),
{
    let ghost s = chars@.subrange(start as int, end as int);
    let from: usize = if start < end && chars[start] == '+' { start + 1 } else { start };
    let ghost d = chars@.subrange(from as int, end as int);
    proof {
        if from == start + 1 {
            assert(s.skip(1) =~= d);
        }
        assert(d == (if s.len() > 0 && s[0] == '+' { s.skip(1) } else { s }));
    }
    if from == end {
        return None;
    }
    let mut value: u64 = 0;
    let mut i: usize = from;
    assert(d.take(0) =~= Seq::empty());
    while i < end
        invariant
            start <= from < end <= chars.len(),
            from <= i <= end,
            s == chars@.subrange(start as int, end as int),
            d == chars@.subrange(from as int, end as int),
            d == (if s.len() > 0 && s[0] == '+' { s.skip(1) } else { s }),
            forall|j: int| 0 <= j < i - from ==> digit_value(#[trigger] d[j]) is Some,
            value == digits_value(d.take(i - from)),
        decreases end - i,
    {
        let c: char = chars[i];
        assert(d[i - from] == c);
        match value_of_digit(c) {
            None => {
                return None;
            }
            Some(v) => {
                proof {
                    assert(d.take(i - from + 1).drop_last() =~= d.take(i - from));
                    assert(d.take(i - from + 1).last() == c);
                    if all_digits(d) {
                        lemma_digits_value_grows(d, i - from + 1);
                    }
                }
                if value > (u64::MAX - v) / 10 {
                    assert(value * 10 + v > u64::MAX);
                    return None;
                }
                value = value * 10 + v;
            }
        }
        i += 1;
    }
    assert(d.take(end - from) =~= d);
    Some(value)
}

/// Ten to the power of `width`.
pub open spec fn pow10(width: nat) -> nat
    decreases width,
{
    if width == 0 {
        1
    } else {
        10 * pow10((width - 1) as nat)
    }
}

/// Fixed-width decimal text denotes the number it was made from, if that number fits the width.
pub proof fn lemma_decimal_denotes(n: nat, width: nat)
    requires
        n < pow10(width),
    ensures
        decimal(n, width).len() == width,
        all_digits(decimal(n, width)),
        digits_value(decimal(n, width)) == n,
    decreases width,
{
    if width > 0 {
        lemma_decimal_denotes(n / 10, (width - 1) as nat);
        let s = decimal(n, width);
        assert(s.drop_last() =~= decimal(n / 10, (width - 1) as nat));
    }
}

/// Every `u64` fits twenty decimal digits.
pub proof fn lemma_u64_fits_twenty_digits(n: u64)
    ensures
        n < pow10(20),
{
    reveal_with_fuel(pow10, 21);
}

/// Fixed-width decimal text is ordered as the numbers are.
pub proof fn lemma_decimal_order(n: nat, m: nat, width: nat)
    requires
        n < pow10(width),
        m < pow10(width),
    ensures
        lex_lt(decimal(n, width), decimal(m, width)) == (n < m),
    decreases width,
{
    if width > 0 {
        let w = (width - 1) as nat;
        let a = decimal(n / 10, w);
        let b = decimal(m / 10, w);
        let x = seq![digit_char((n % 10) as int)];
        let y = seq![digit_char((m % 10) as int)];
        assert(decimal(n, width) =~= a + x);
        assert(decimal(m, width) =~= b + y);
        lemma_decimal_denotes(n / 10, w);
        lemma_decimal_denotes(m / 10, w);
        lemma_decimal_order(n / 10, m / 10, w);
        if n / 10 == m / 10 {
            lemma_lex_common_head(a, x, y);
            assert(x.drop_first() =~= y.drop_first());
            assert(!lex_lt(x.drop_first(), y.drop_first()));
        } else {
            lemma_lex_common_len(a, b, x, y);
        }
    }
}

/// Digits are the ten characters from `0` on, in order; no other character is one.
pub proof fn law_digits_stand_in_order(d: int, c: char)
    ensures
        0 <= d < 10 ==> digit_char(d) as int == '0' as int + d,
        digit_value(c) is Some <==> '0' as int <= c as int <= '9' as int,
        digit_value(c) matches Some(v) ==> v == c as int - '0' as int,
{
}

/// One more digit behind a number makes it ten times as much, and the digit more.
pub proof fn law_one_more_digit(digits: Seq<char>, c: char)
    requires
        all_digits(digits),
        digit_value(c) is Some,
        digits.len() > 0,
    ensures
        u64_of_text(digits.push(c)) == (match u64_of_text(digits) {
            Some(n) => if n * 10 + (c as int - '0' as int) <= u64::MAX {
                Some((n * 10 + (c as int - '0' as int)) as u64)
            } else {
                None
            },
            None => None,
        }),
        u64_of_text(seq![c]) == Some((c as int - '0' as int) as u64),
        u64_of_text(seq!['+'] + digits) == u64_of_text(digits),
        u64_of_text(seq!['+'] + (seq!['+'] + digits)) is None,
        u64_of_text(Seq::empty()) is None,
        u64_of_text(seq!['+']) is None,
{
    let more = digits.push(c);
    assert(more.drop_last() =~= digits);
    assert(digit_value(digits[0]) is Some);
    assert(digit_value(more[0]) is Some);
    assert forall|i: int| 0 <= i < more.len() implies digit_value(#[trigger] more[i]) is Some by {
        if i < digits.len() {
            assert(more[i] == digits[i]);
        }
    }
    let one = seq![c];
    assert(one.drop_last() =~= Seq::empty());
    assert((seq!['+'] + digits).skip(1) =~= digits);
    let twice = seq!['+'] + (seq!['+'] + digits);
    assert(twice.skip(1) =~= seq!['+'] + digits);
    assert(digit_value(twice.skip(1)[0]) is None);
    assert(seq!['+'].skip(1) =~= Seq::<char>::empty());
}

/// What reads as a number is digits and nothing else, but for one `+` before them.
pub proof fn law_only_digits_read_as_a_number(s: Seq<char>, i: int)
    requires
        u64_of_text(s) is Some,
        0 <= i < s.len(),
    ensures
        ('0' as int <= s[i] as int <= '9' as int) || (i == 0 && s[0] == '+' && s.len() > 1),
{
    let d = if s[0] == '+' { s.skip(1) } else { s };
    if s[0] == '+' {
        if i > 0 {
            assert(d[i - 1] == s[i]);
            assert(digit_value(d[i - 1]) is Some);
        }
    } else {
        assert(digit_value(d[i]) is Some);
    }
}

} // verus!
