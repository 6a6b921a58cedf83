//! Numbers written out, and read back.

use vstd::prelude::*;

verus! {

/// The character for a value below sixteen, in lower case.
pub open spec fn digit(d: int) -> char {
    if d < 10 {
        (48 + d) as char
    } else {
        (87 + d) as char
    }
}

/// A number in decimal, without leading zeros.
pub open spec fn decimal(n: nat) -> Seq<char>
    decreases n,
{
    if n < 10 {
        seq![digit(n as int)]
    } else {
        decimal(n / 10).push(digit((n % 10) as int))
    }
}

/// A signed number in decimal: a minus sign in front of a negative one.
pub open spec fn signed_decimal(n: int) -> Seq<char> {
    if n < 0 {
        seq!['-'] + decimal((-n) as nat)
    } else {
        decimal(n as nat)
    }
}

/// A number in lower case hexadecimal, without leading zeros.
pub open spec fn hexadecimal(n: nat) -> Seq<char>
    decreases n,
{
    if n < 16 {
        seq![digit(n as int)]
    } else {
        hexadecimal(n / 16).push(digit((n % 16) as int))
    }
}

/// The value of a run of decimal digits, if it is nothing else.
pub open spec fn digits_value(s: Seq<char>) -> Option<nat>
    decreases s.len(),
{
    if s.len() == 0 {
        Some(0)
    } else {
        match digits_value(s.drop_last()) {
            Some(v) if '0' <= s.last() <= '9' => Some((v * 10 + (s.last() as int - 48)) as nat),
            _ => None,
        }
    }
}

/// What a text says as a number of 32 bits: an optional plus sign, then
/// decimal digits and nothing else, at least one of them, and not too large.
pub open spec fn number_in(s: Seq<char>) -> Option<u32> {
    let digits = if s.len() > 0 && s[0] == '+' {
        s.skip(1)
    } else {
        s
    };
    match digits_value(digits) {
        Some(v) if digits.len() > 0 && v <= u32::MAX => Some(v as u32),
        _ => None,
    }
}

/// The character for a value below sixteen.
pub fn digit_of(d: u8) -> (r: char)
    requires
        d < 16,
    ensures
        r == digit(d as int),
{
    if d < 10 {
        (48 + d) as char
    } else {
        (87 + d) as char
    }
}

/// Writes a number in decimal at the end of a text.
pub fn write_decimal(out: &mut String, n: u64)
    ensures
        final(out)@ == old(out)@ + decimal(n as nat),
    decreases n,
{
    let ghost before = out@;
    if n >= 10 {
        write_decimal(out, n / 10);
    }
    out.push(digit_of((n % 10) as u8));
    proof {
        assert(out@ =~= before + decimal(n as nat));
    }
}

/// Writes a signed number in decimal at the end of a text.
pub fn write_signed(out: &mut String, n: i64)
    ensures
        final(out)@ == old(out)@ + signed_decimal(n as int),
{
    let ghost before = out@;
    if n < 0 {
        out.push('-');
        let size: u64 = if n == i64::MIN {
            0x8000_0000_0000_0000
        } else {
            (0 - n) as u64
        };
        write_decimal(out, size);
        proof {
            assert(out@ =~= before + signed_decimal(n as int));
        }
    } else {
        write_decimal(out, n as u64);
    }
}

/// Writes a number in hexadecimal at the end of a text.
pub fn write_hexadecimal(out: &mut String, n: u64)
    ensures
        final(out)@ == old(out)@ + hexadecimal(n as nat),
    decreases n,
{
    let ghost before = out@;
    if n >= 16 {
        write_hexadecimal(out, n / 16);
    }
    out.push(digit_of((n % 16) as u8));
    proof {
        assert(out@ =~= before + hexadecimal(n as nat));
    }
}

/// Reads a number of 32 bits out of characters that hold nothing else.
pub fn read_number(chars: &[char]) -> (r: Option<u32>)
    ensures
        r == number_in(chars@),
{
    let from: usize = if chars.len() > 0 && chars[0] == '+' {
        1
    } else {
        0
    };
    let ghost digits = chars@.skip(from as int);
    proof {
        assert(from == 0 ==> digits =~= chars@);
        assert(chars@.subrange(from as int, from as int) =~= Seq::<char>::empty());
    }
    if chars.len() == from {
        return None;
    }
    let mut value: u64 = 0;
    for i in from..chars.len()
        invariant
            from <= chars@.len(),
            digits == chars@.skip(from as int),
            digits.len() > 0,
            number_in(chars@) == (match digits_value(digits) {
                Some(v) if digits.len() > 0 && v <= u32::MAX => Some(v as u32),
                _ => None,
            }),
            value <= u32::MAX,
            digits_value(chars@.subrange(from as int, i as int)) == Some(value as nat),
    {
        let c = chars[i];
        let ghost so_far = chars@.subrange(from as int, i + 1);
        proof {
            assert(so_far.drop_last() =~= chars@.subrange(from as int, i as int));
            assert(so_far =~= digits.take(i + 1 - from));
        }
        if c < '0' || c > '9' {
            proof {
                lemma_digits_prefix(digits, i + 1 - from);
            }
            return None;
        }
        value = value * 10 + (c as u64 - 48);
        if value > 0xffff_ffff {
            proof {
                lemma_digits_prefix(digits, i + 1 - from);
            }
            return None;
        }
    }
    proof {
        assert(chars@.subrange(from as int, chars@.len() as int) =~= digits);
    }
    Some(value as u32)
}

/// What more digits say is no number, or one that is no smaller.
proof fn lemma_digits_prefix(s: Seq<char>, n: int)
    requires
        0 <= n <= s.len(),
    ensures
        digits_value(s) is Some ==> digits_value(s.take(n)) is Some && digits_value(s.take(n))->0
            <= digits_value(s)->0,
    decreases s.len(),
{
    if n == s.len() {
        assert(s.take(n) =~= s);
    } else {
        assert(s.drop_last().take(n) =~= s.take(n));
        lemma_digits_prefix(s.drop_last(), n);
    }
}

/// Reading back what was written in decimal gives the number.
pub proof fn law_decimal_is_read_back(n: u32)
    ensures
        number_in(decimal(n as nat)) == Some(n),
{
    lemma_decimal_value(n as nat);
}

proof fn lemma_decimal_value(n: nat)
    ensures
        decimal(n).len() > 0,
        digits_value(decimal(n)) == Some(n),
        '0' <= decimal(n)[0] <= '9',
    decreases n,
{
    let d = decimal(n);
    if n < 10 {
        assert(d.drop_last() =~= Seq::<char>::empty());
        assert(digits_value(d.drop_last()) == Some(0nat));
    } else {
        lemma_decimal_value(n / 10);
        assert(d.drop_last() =~= decimal(n / 10));
    }
}

/// Whether a character is a digit of a number in hexadecimal.
pub open spec fn is_digit(c: char) -> bool {
    '0' <= c <= '9' || 'a' <= c <= 'f'
}

/// No digit of a number in hexadecimal is anything but a digit.
pub proof fn lemma_hexadecimal_digits(n: nat)
    ensures
        hexadecimal(n).len() > 0,
        forall|i: int| 0 <= i < hexadecimal(n).len() ==> is_digit(#[trigger] hexadecimal(n)[i]),
    decreases n,
{
    if n >= 16 {
        lemma_hexadecimal_digits(n / 16);
    }
}

/// No digit of a number in decimal is anything but a digit.
pub proof fn lemma_decimal_digits(n: nat)
    ensures
        decimal(n).len() > 0,
        forall|i: int| 0 <= i < decimal(n).len() ==> '0' <= #[trigger] decimal(n)[i] <= '9',
    decreases n,
{
    if n >= 10 {
        lemma_decimal_digits(n / 10);
    }
}

/// Two numbers written alike in hexadecimal are one number.
pub proof fn lemma_hexadecimal_injective(a: nat, b: nat)
    requires
        hexadecimal(a) == hexadecimal(b),
    ensures
        a == b,
    decreases a,
{
    let s = hexadecimal(a);
    let t = hexadecimal(b);
    assert(s.last() == digit((a % 16) as int));
    assert(t.last() == digit((b % 16) as int));
    lemma_digit_injective((a % 16) as int, (b % 16) as int);
    if a >= 16 {
        lemma_hexadecimal_digits(a / 16);
        assert(s.len() > 1);
    }
    if b >= 16 {
        lemma_hexadecimal_digits(b / 16);
        assert(t.len() > 1);
    }
    if a >= 16 {
        assert(b >= 16);
        assert(s.drop_last() =~= hexadecimal(a / 16));
        assert(t.drop_last() =~= hexadecimal(b / 16));
        lemma_hexadecimal_injective(a / 16, b / 16);
        assert(a == 16 * (a / 16) + a % 16);
        assert(b == 16 * (b / 16) + b % 16);
    }
}

pub proof fn lemma_digit_injective(a: int, b: int)
    requires
        0 <= a < 16,
        0 <= b < 16,
        digit(a) == digit(b),
    ensures
        a == b,
{
    assert(digit(a) as int == if a < 10 {
        48 + a
    } else {
        87 + a
    });
    assert(digit(b) as int == if b < 10 {
        48 + b
    } else {
        87 + b
    });
}

/// Two numbers written alike in decimal are one number.
pub proof fn lemma_decimal_injective(a: nat, b: nat)
    requires
        decimal(a) == decimal(b),
    ensures
        a == b,
{
    lemma_decimal_value(a);
    lemma_decimal_value(b);
}

/// A number is written digit by digit: one more digit behind a number is ten
/// times the number, or sixteen times, and what the digit stands for. Nothing
/// stands in front of a single digit.
pub proof fn law_numbers_are_written_digit_by_digit(n: nat, d: nat)
    ensures
        d < 10 ==> decimal(d) == seq!["0123456789"@[d as int]],
        d < 10 && n > 0 ==> decimal(10 * n + d) == decimal(n).push("0123456789"@[d as int]),
        d < 16 ==> hexadecimal(d) == seq!["0123456789abcdef"@[d as int]],
        d < 16 && n > 0 ==> hexadecimal(16 * n + d) == hexadecimal(n).push("0123456789abcdef"@[d as int]),
        signed_decimal(n as int) == decimal(n),
        n > 0 ==> signed_decimal(-(n as int)) == seq!['-'] + decimal(n),
{
    reveal_strlit("0123456789");
    reveal_strlit("0123456789abcdef");
    if d < 10 && n > 0 {
        assert((10 * n + d) / 10 == n && (10 * n + d) % 10 == d);
    }
    if d < 16 && n > 0 {
        assert((16 * n + d) / 16 == n && (16 * n + d) % 16 == d);
    }
}

proof fn lemma_zeros_value(zeros: Seq<char>)
    requires
        forall|i: int| 0 <= i < zeros.len() ==> #[trigger] zeros[i] == '0',
    ensures
        digits_value(zeros) == Some(0nat),
    decreases zeros.len(),
{
    if zeros.len() > 0 {
        assert(zeros.last() == zeros[zeros.len() - 1]);
        lemma_zeros_value(zeros.drop_last());
    }
}

proof fn lemma_zeros_in_front(zeros: Seq<char>, n: nat)
    requires
        forall|i: int| 0 <= i < zeros.len() ==> #[trigger] zeros[i] == '0',
    ensures
        digits_value(zeros + decimal(n)) == Some(n),
    decreases n,
{
    let d = zeros + decimal(n);
    if n < 10 {
        lemma_zeros_value(zeros);
        assert(d.drop_last() =~= zeros);
    } else {
        lemma_zeros_in_front(zeros, n / 10);
        assert(d.drop_last() =~= zeros + decimal(n / 10));
    }
}

proof fn lemma_zeros_taken_off(d: Seq<char>) -> (zeros: Seq<char>)
    requires
        d.len() > 0,
        digits_value(d) is Some,
    ensures
        forall|i: int| 0 <= i < zeros.len() ==> #[trigger] zeros[i] == '0',
        d == zeros + decimal(digits_value(d)->0),
    decreases d.len(),
{
    let short = d.drop_last();
    let v = digits_value(d)->0;
    let v0 = digits_value(short)->0;
    let c = d.last();
    assert(v == v0 * 10 + (c as int - 48));
    assert(digit((v % 10) as int) == c);
    if short.len() == 0 {
        assert(d =~= Seq::<char>::empty() + decimal(v));
        Seq::<char>::empty()
    } else {
        let zeros = lemma_zeros_taken_off(short);
        assert(d =~= short.push(c));
        assert(short == zeros + decimal(v0));
        if v0 == 0 {
            assert(decimal(v0) =~= seq!['0']);
            assert(decimal(v) =~= seq![c]);
            assert(short =~= zeros.push('0'));
            assert(d =~= zeros.push('0') + decimal(v));
            zeros.push('0')
        } else {
            assert(v / 10 == v0);
            assert(v >= 10);
            assert(decimal(v) == decimal(v0).push(c));
            assert(d =~= zeros + decimal(v));
            zeros
        }
    }
}

/// What reads as a number is its digits, with zeros in front of them and one
/// plus sign in front of those, if any; and all of that reads as the number.
pub proof fn law_a_number_is_read_from_its_digits(s: Seq<char>, zeros: Seq<char>, n: u32)
    requires
        forall|i: int| 0 <= i < zeros.len() ==> #[trigger] zeros[i] == '0',
    ensures
        number_in(zeros + decimal(n as nat)) == Some(n),
        number_in(seq!['+'] + zeros + decimal(n as nat)) == Some(n),
        number_in(s) is Some ==> exists|some: Seq<char>|
            (forall|i: int| 0 <= i < some.len() ==> #[trigger] some[i] == '0') && (s == #[trigger] (some
                + decimal(number_in(s)->0 as nat)) || s == seq!['+'] + (some + decimal(
                number_in(s)->0 as nat,
            ))),
{
    lemma_zeros_in_front(zeros, n as nat);
    let d = zeros + decimal(n as nat);
    lemma_decimal_digits(n as nat);
    assert(d[0] != '+') by {
        if zeros.len() > 0 {
            assert(d[0] == zeros[0]);
        } else {
            assert(d[0] == decimal(n as nat)[0]);
        }
    }
    let p = seq!['+'] + zeros + decimal(n as nat);
    assert(p.skip(1) =~= d);
    if number_in(s) is Some {
        let digits = if s.len() > 0 && s[0] == '+' {
            s.skip(1)
        } else {
            s
        };
        let some = lemma_zeros_taken_off(digits);
        let v = number_in(s)->0;
        assert(digits == some + decimal(v as nat));
        if s.len() > 0 && s[0] == '+' {
            assert(s =~= seq!['+'] + (some + decimal(v as nat)));
        }
    }
}

} // verus!
