//! Reading and writing numbers.
use vstd::prelude::*;
use vstd::slice::slice_subrange;

verus! {

// ───────────────────────── digits ─────────────────────────

/// The value of `c` as a digit of base 10 or 16.
pub open spec fn digit_value(c: char, base: int) -> Option<int> {
    if '0' <= c <= '9' {
        Some(c as int - '0' as int)
    } else if base == 16 && 'a' <= c <= 'f' {
        Some(c as int - 'a' as int + 10)
    } else if base == 16 && 'A' <= c <= 'F' {
        Some(c as int - 'A' as int + 10)
    } else {
        None
    }
}

/// Every character of `s` is a digit.
pub open spec fn all_digits(s: Seq<char>, base: int) -> bool {
    forall|i: int| 0 <= i < s.len() ==> digit_value(#[trigger] s[i], base) is Some
}

/// The number that the digits `s` write.
pub open spec fn digits_value(s: Seq<char>, base: int) -> int
    decreases s.len(),
{
    if s.len() == 0 {
        0
    } else {
        digits_value(s.drop_last(), base) * base + digit_value(s.last(), base)->0
    }
}

/// What follows an optional plus sign.
pub open spec fn unsigned_part(s: Seq<char>) -> Seq<char> {
    if s.len() > 0 && s[0] == '+' {
        s.subrange(1, s.len() as int)
    } else {
        s
    }
}

/// The number no greater than `max` that `s` writes: digits, at least one, after an
/// optional plus sign.
pub open spec fn unsigned(s: Seq<char>, base: int, max: int) -> Option<int> {
    let d = unsigned_part(s);
    if d.len() > 0 && all_digits(d, base) && digits_value(d, base) <= max {
        Some(digits_value(d, base))
    } else {
        None
    }
}

/// The number between `-max - 1` and `max` that `s` writes in decimal, after an optional
/// sign.
pub open spec fn signed(s: Seq<char>, max: int) -> Option<int> {
    if s.len() > 0 && s[0] == '-' {
        let d = s.subrange(1, s.len() as int);
        if d.len() > 0 && all_digits(d, 10) && digits_value(d, 10) <= max + 1 {
            Some(-digits_value(d, 10))
        } else {
            None
        }
    } else {
        unsigned(s, 10, max)
    }
}

/// More digits never write a smaller number.
pub proof fn lemma_digits_grow(s: Seq<char>, n: int, base: int)
    requires
        0 <= n <= s.len(),
        all_digits(s, base),
        base == 10 || base == 16,
    ensures
        0 <= digits_value(s.take(n), base) <= digits_value(s, base),
    decreases s.len(),
{
    if s.len() == 0 {
        assert(s.take(n) =~= s);
    } else if n == s.len() {
        assert(s.take(n) =~= s);
        lemma_digits_grow(s.drop_last(), s.len() - 1, base);
        assert(s.drop_last().take(s.len() - 1) =~= s.drop_last());
        assert(digit_value(s[s.len() - 1], base) is Some);
        assert(digits_value(s.drop_last(), base) * base >= 0) by (nonlinear_arith)
            requires
                digits_value(s.drop_last(), base) >= 0,
                base > 0,
        ;
    } else {
        lemma_digits_grow(s.drop_last(), n, base);
        assert(s.drop_last().take(n) =~= s.take(n));
        assert(digit_value(s[s.len() - 1], base) is Some);
        assert(digits_value(s.drop_last(), base) * base >= digits_value(s.drop_last(), base))
            by (nonlinear_arith)
            requires
                digits_value(s.drop_last(), base) >= 0,
                base >= 1,
        ;
    }
}

/// The value of `c` as a digit of base 10 or 16.
pub fn digit(c: char, base: u64) -> (r: Option<u64>)
    requires
        base == 10 || base == 16,
    ensures
        match r {
            Some(v) => digit_value(c, base as int) == Some(v as int) && v < base,
            None => digit_value(c, base as int) is None,
        },
{
    if '0' <= c && c <= '9' {
        Some(c as u64 - '0' as u64)
    } else if base == 16 && 'a' <= c && c <= 'f' {
        Some(c as u64 - 'a' as u64 + 10)
    } else if base == 16 && 'A' <= c && c <= 'F' {
        Some(c as u64 - 'A' as u64 + 10)
    } else {
        None
    }
}

/// The number no greater than `max` that the digits `s` write.
pub fn read_digits(s: &[char], base: u64, max: u64) -> (r: Option<u64>)
    requires
        base == 10 || base == 16,
    ensures
        match r {
            Some(v) => s@.len() > 0 && all_digits(s@, base as int) && digits_value(
                s@,
                base as int,
            ) == v && v <= max,
            None => !(s@.len() > 0 && all_digits(s@, base as int) && digits_value(s@, base as int)
                <= max),
        },
{
    if s.len() == 0 {
        return None;
    }
    let mut v: u64 = 0;
    let mut i: usize = 0;
    assert(s@.take(0) =~= seq![]);
    while i < s.len()
        invariant
            base == 10 || base == 16,
            i <= s@.len(),
            v <= max,
            v == digits_value(s@.take(i as int), base as int),
            all_digits(s@.take(i as int), base as int),
        decreases s.len() - i,
    {
        let ghost t = s@.take(i + 1);
        assert(t.drop_last() =~= s@.take(i as int));
        match digit(s[i], base) {
            None => {
                return None;
            },
            Some(d) => {
                if d > max || v > (max - d) / base {
                    proof {
                        if all_digits(s@, base as int) {
                            lemma_digits_grow(s@, i + 1, base as int);
                        }
                        if d <= max {
                            assert(v * base + d > max) by (nonlinear_arith)
                                requires
                                    v > (max - d) / base as int,
                                    base == 10 || base == 16,
                                    d <= max,
                            ;
                        } else {
                            assert(v * base >= 0) by (nonlinear_arith);
                        }
                    }
                    return None;
                }
                assert(v * base + d <= max) by (nonlinear_arith)
                    requires
                        v <= (max - d) / base as int,
                        base == 10 || base == 16,
                        d <= max,
                ;
                v = v * base + d;
                assert forall|j: int| 0 <= j < t.len() implies digit_value(
                    #[trigger] t[j],
                    base as int,
                ) is Some by {
                    if j < i {
                        assert(t[j] == s@.take(i as int)[j]);
                    }
                }
                i += 1;
            },
        }
    }
    assert(s@.take(i as int) =~= s@);
    Some(v)
}

/// Reads an unsigned number: an optional plus sign, then digits.
pub fn read_unsigned(s: &[char], base: u64, max: u64) -> (r: Option<u64>)
    requires
        base == 10 || base == 16,
    ensures
        match r {
            Some(v) => unsigned(s@, base as int, max as int) == Some(v as int) && v <= max,
            None => unsigned(s@, base as int, max as int) is None,
        },
{
    if s.len() > 0 && s[0] == '+' {
        read_digits(slice_subrange(s, 1, s.len()), base, max)
    } else {
        read_digits(s, base, max)
    }
}

/// Reads a signed decimal number: an optional sign, then digits.
pub fn read_signed(s: &[char], max: i64) -> (r: Option<i64>)
    requires
        0 <= max,
    ensures
        match r {
            Some(v) => signed(s@, max as int) == Some(v as int) && -max - 1 <= v <= max,
            None => signed(s@, max as int) is None,
        },
{
    if s.len() > 0 && s[0] == '-' {
        match read_digits(slice_subrange(s, 1, s.len()), 10, max as u64 + 1) {
            Some(v) => if v == max as u64 + 1 {
                Some(-max - 1)
            } else {
                Some(-(v as i64))
            },
            None => None,
        }
    } else {
        match read_unsigned(s, 10, max as u64) {
            Some(v) => Some(v as i64),
            None => None,
        }
    }
}

/// The quotient `a / b`, rounded towards zero, for a positive `b`.
pub open spec fn quotient(a: int, b: int) -> int {
    if a >= 0 {
        a / b
    } else {
        -((-a) / b)
    }
}

/// The quotient `a / b`, rounded towards zero.
pub fn divide(a: i64, b: i64) -> (r: i64)
    requires
        b > 0,
        a > i64::MIN,
    ensures
        r == quotient(a as int, b as int),
{
    if a >= 0 {
        a / b
    } else {
        -((-a) / b)
    }
}

// ───────────────────────── hexadecimal digits in bytes ─────────────────────────

/// The value of a hexadecimal digit.
pub open spec fn hex_value(b: u8) -> Option<u8> {
    if 0x30 <= b <= 0x39 {
        Some((b - 0x30) as u8)
    } else if 0x61 <= b <= 0x66 {
        Some((b - 0x61 + 10) as u8)
    } else if 0x41 <= b <= 0x46 {
        Some((b - 0x41 + 10) as u8)
    } else {
        None
    }
}

/// The value of a hexadecimal digit.
pub fn hex_val(b: u8) -> (r: Option<u8>)
    ensures
        r == hex_value(b),
        r matches Some(v) ==> v < 16,
{
    if 0x30 <= b && b <= 0x39 {
        Some(b - 0x30)
    } else if 0x61 <= b && b <= 0x66 {
        Some(b - 0x61 + 10)
    } else if 0x41 <= b && b <= 0x46 {
        Some(b - 0x41 + 10)
    } else {
        None
    }
}

/// The byte that the two hexadecimal digits from `i` on write.
pub open spec fn hex_pair(b: Seq<u8>, i: int) -> Option<u8> {
    if i + 1 < b.len() {
        match (hex_value(b[i]), hex_value(b[i + 1])) {
            (Some(hi), Some(lo)) => Some((hi * 16 + lo) as u8),
            _ => None,
        }
    } else {
        None
    }
}

/// The byte that the two hexadecimal digits from `i` on write.
pub fn read_hex_pair(b: &[u8], i: usize) -> (r: Option<u8>)
    ensures
        r == hex_pair(b@, i as int),
{
    if i < b.len() && 1 < b.len() - i {
        match (hex_val(b[i]), hex_val(b[i + 1])) {
            (Some(hi), Some(lo)) => Some(hi * 16 + lo),
            _ => None,
        }
    } else {
        None
    }
}

/// The hexadecimal digit for a number below 16.
pub open spec fn hex_digit(n: int) -> u8 {
    if n < 10 {
        (0x30 + n) as u8
    } else {
        (0x41 + n - 10) as u8
    }
}

/// A hexadecimal digit has the value that it was written for.
pub proof fn lemma_hex_digit(n: int)
    requires
        0 <= n < 16,
    ensures
        hex_value(hex_digit(n)) == Some(n as u8),
        0x30 <= hex_digit(n) <= 0x39 || 0x41 <= hex_digit(n) <= 0x46,
{
}

// ───────────────────────── writing ─────────────────────────

/// The decimal digit for a number below 10.
pub open spec fn digit_char(d: int) -> char {
    (d + '0' as int) as u8 as char
}

/// `n` in decimal, without leading zeros.
pub open spec fn decimal(n: nat) -> Seq<char>
    decreases n,
{
    if n < 10 {
        seq![digit_char(n as int)]
    } else {
        decimal(n / 10).push(digit_char((n % 10) as int))
    }
}

/// Appends `n` in decimal to `out`.
pub fn push_decimal(out: &mut Vec<char>, n: u64)
    ensures
        final(out)@ == old(out)@ + decimal(n as nat),
    decreases n,
{
    if n >= 10 {
        push_decimal(out, n / 10);
    }
    let d: u8 = (n % 10) as u8 + 48;
    let ghost before = out@;
    out.push(d as char);
    proof {
        if n >= 10 {
            assert(out@ =~= old(out)@ + decimal(n as nat));
        } else {
            assert(out@ =~= old(out)@ + decimal(n as nat));
        }
    }
}

/// Every number is written with at least one digit, and with digits only; reading them back
/// gives the number.
pub proof fn lemma_decimal(n: nat)
    ensures
        decimal(n).len() > 0,
        all_digits(decimal(n), 10),
        digits_value(decimal(n), 10) == n,
        decimal(n)[0] != '+',
        decimal(n)[0] != '-',
    decreases n,
{
    if n < 10 {
        let s = decimal(n);
        assert(s.drop_last() =~= seq![]);
        assert(digits_value(s.drop_last(), 10) == 0);
    } else {
        lemma_decimal(n / 10);
        let s = decimal(n);
        assert(s.drop_last() =~= decimal(n / 10));
        assert forall|i: int| 0 <= i < s.len() implies digit_value(#[trigger] s[i], 10) is Some by {
            if i < s.len() - 1 {
                assert(s[i] == decimal(n / 10)[i]);
            }
        }
    }
}

/// Writing a number and reading it back gives the number.
pub proof fn decimal_round_trip(n: nat, max: int)
    requires
        n <= max,
    ensures
        unsigned(decimal(n), 10, max) == Some(n as int),
{
    lemma_decimal(n);
}

/// `n` in decimal with at least two digits.
pub open spec fn two_digits(n: nat) -> Seq<char> {
    if n < 10 {
        seq!['0'] + decimal(n)
    } else {
        decimal(n)
    }
}

/// Appends `n` in decimal with at least two digits to `out`.
pub fn push_two_digits(out: &mut Vec<char>, n: u64)
    ensures
        final(out)@ == old(out)@ + two_digits(n as nat),
{
    if n < 10 {
        out.push('0');
    }
    push_decimal(out, n);
    assert(out@ =~= old(out)@ + two_digits(n as nat));
}

/// The digits from 10 on may be letters of either case, and nothing else is a hexadecimal digit.
pub proof fn hexadecimal_digits_in_either_case(n: int, b: u8)
    requires
        0 <= n < 16,
    ensures
        hex_value(
            (if n < 10 {
                48 + n
            } else {
                55 + n
            }) as u8,
        ) == Some(n as u8),
        hex_value(
            (if n < 10 {
                48 + n
            } else {
                87 + n
            }) as u8,
        ) == Some(n as u8),
        hex_value(b) matches Some(v) ==> v < 16 && (b == 48 + v && v < 10 || b == 55 + v && v >= 10
            || b == 87 + v && v >= 10),
        hex_value(b) is None ==> b < 48 || 57 < b < 65 || 70 < b < 97 || b > 102,
{
}

/// A number may have a plus sign and zeros before it, and where it may be negative a minus sign; one
/// that is too large is none.
pub proof fn numbers_may_have_signs_and_zeros(n: nat, max: int)
    requires
        max >= 0,
    ensures
        n <= max ==> unsigned(seq!['+'] + decimal(n), 10, max) == Some(n as int),
        n <= max ==> unsigned(seq!['0'] + decimal(n), 10, max) == Some(n as int),
        n > max ==> unsigned(decimal(n), 10, max) is None,
        n <= max ==> signed(decimal(n), max) == Some(n as int),
        n <= max + 1 ==> signed(seq!['-'] + decimal(n), max) == Some(-n),
        unsigned(seq!['-'] + decimal(n), 10, max) is None,
        unsigned(seq![], 10, max) is None,
{
    lemma_decimal(n);
    let d = decimal(n);
    let p = seq!['+'] + d;
    assert(p.subrange(1, p.len() as int) =~= d);
    let m = seq!['-'] + d;
    assert(m.subrange(1, m.len() as int) =~= d);
    assert(m[0] == '-');
    assert(digit_value(m[0], 10) is None);
    let z = seq!['0'] + d;
    lemma_leading_zero(d);
    assert forall|i: int| 0 <= i < z.len() implies digit_value(#[trigger] z[i], 10) is Some by {
        if i > 0 {
            assert(z[i] == d[i - 1]);
        }
    }
    let none = Seq::<char>::empty();
    assert(unsigned_part(none) =~= none);
}

proof fn lemma_leading_zero(d: Seq<char>)
    ensures
        digits_value(seq!['0'] + d, 10) == digits_value(d, 10),
    decreases d.len(),
{
    let z = seq!['0'] + d;
    if d.len() == 0 {
        assert(z.drop_last() =~= d);
    } else {
        assert(z.drop_last() =~= seq!['0'] + d.drop_last());
        assert(z.last() == d.last());
        lemma_leading_zero(d.drop_last());
    }
}

} // verus!
