//! Numbers written as text.

use crate::text;
use vstd::prelude::*;

verus! {

/// The value of a digit in a radix of at most sixteen.
pub open spec fn digit_value(c: char, radix: nat) -> Option<nat> {
    let v = if '0' <= c <= '9' {
        (c as int) - ('0' as int)
    } else if 'a' <= c <= 'f' {
        (c as int) - ('a' as int) + 10
    } else if 'A' <= c <= 'F' {
        (c as int) - ('A' as int) + 10
    } else {
        16
    };
    if v < radix && v < 16 {
        Some(v as nat)
    } else {
        None
    }
}

/// `s` consists of digits of the radix.
pub open spec fn all_digits(s: Seq<char>, radix: nat) -> bool {
    forall|i: int| 0 <= i < s.len() ==> digit_value(#[trigger] s[i], radix) is Some
}

/// The number that the digits `s` write, most significant digit first.
pub open spec fn digits_value(s: Seq<char>, radix: nat) -> nat
    decreases s.len(),
{
    if s.len() == 0 {
        0
    } else {
        digits_value(s.drop_last(), radix) * radix + digit_value(s.last(), radix).unwrap_or(0)
    }
}

/// The digits of a written number: a plus sign may precede them.
pub open spec fn unsigned_digits(s: Seq<char>) -> Seq<char> {
    if s.len() > 1 && s[0] == '+' {
        s.drop_first()
    } else {
        s
    }
}

/// The number that `s` writes, if it is one of at most `max`: an optional plus sign followed by
/// one or more digits and nothing else.
pub open spec fn parse_unsigned(s: Seq<char>, radix: nat, max: nat) -> Option<nat> {
    let d = unsigned_digits(s);
    if d.len() > 0 && all_digits(d, radix) && digits_value(d, radix) <= max {
        Some(digits_value(d, radix))
    } else {
        None
    }
}

/// The digit of a value below sixteen.
pub open spec fn digit_char(v: nat) -> char {
    if v < 10 {
        (('0' as u32) + v) as char
    } else {
        (('a' as u32) + (v - 10)) as char
    }
}

/// `n` written in the radix without leading zeros.
pub open spec fn written(n: nat, radix: nat) -> Seq<char>
    decreases n,
{
    if radix < 2 || n < radix {
        seq![digit_char(n)]
    } else {
        proof {
            assert(n / radix < n) by (nonlinear_arith)
                requires
                    n >= radix,
                    radix >= 2,
            ;
        }
        written(n / radix, radix).push(digit_char(n % radix))
    }
}

/// `n` in decimal.
pub open spec fn decimal(n: nat) -> Seq<char> {
    written(n, 10)
}

/// A number with its sign, in decimal digits.
pub open spec fn signed_decimal(n: int) -> Seq<char> {
    if n < 0 {
        "-"@ + decimal((-n) as nat)
    } else {
        decimal(n as nat)
    }
}

/// The last `width` hexadecimal digits of `n`, with leading zeros.
pub open spec fn padded_hex(n: nat, width: nat) -> Seq<char>
    decreases width,
{
    if width == 0 {
        Seq::empty()
    } else {
        padded_hex(n / 16, (width - 1) as nat).push(digit_char(n % 16))
    }
}

/// A prefix of a written number writes no larger number.
proof fn lemma_prefix_value(s: Seq<char>, k: int, radix: nat)
    requires
        0 <= k <= s.len(),
        radix >= 1,
    ensures
        digits_value(s.take(k), radix) <= digits_value(s, radix),
    decreases s.len() - k,
{
    if k < s.len() {
        lemma_prefix_value(s, k + 1, radix);
        assert(s.take(k + 1).drop_last() =~= s.take(k));
        let a = digits_value(s.take(k), radix);
        assert(a * radix >= a) by (nonlinear_arith)
            requires
                radix >= 1,
                a >= 0,
        ;
    } else {
        assert(s.take(k) =~= s);
    }
}

/// The value of a digit, or sixteen where `c` is none.
fn digit_of(c: char, radix: u64) -> (r: Option<u64>)
    ensures
        match r {
            Some(v) => digit_value(c, radix as nat) == Some(v as nat) && v < 16,
            None => digit_value(c, radix as nat) is None,
        },
{
    let v: u64 = if '0' <= c && c <= '9' {
        (c as u64) - ('0' as u64)
    } else if 'a' <= c && c <= 'f' {
        (c as u64) - ('a' as u64) + 10
    } else if 'A' <= c && c <= 'F' {
        (c as u64) - ('A' as u64) + 10
    } else {
        16
    };
    if v < radix && v < 16 {
        Some(v)
    } else {
        None
    }
}

/// The number that `s` writes, if it is one of at most `max`.
pub fn read_unsigned(s: &[char], radix: u64, max: u64) -> (r: Option<u64>)
    requires
        2 <= radix <= 16,
    ensures
        match r {
            Some(v) => parse_unsigned(s@, radix as nat, max as nat) == Some(v as nat),
            None => parse_unsigned(s@, radix as nat, max as nat) is None,
        },
{
    let n: usize = s.len();
    let start: usize = if n > 1 && s[0] == '+' {
        1
    } else {
        0
    };
    let ghost d = unsigned_digits(s@);
    assert(d =~= s@.subrange(start as int, n as int));
    if n == 0 {
        return None;
    }
    let mut i: usize = start;
    let mut acc: u64 = 0;
    while i < n
        invariant
            start <= i <= n,
            n == s@.len(),
            start < n,
            2 <= radix <= 16,
            d == unsigned_digits(s@),
            d == s@.subrange(start as int, n as int),
            acc == digits_value(d.take(i - start), radix as nat),
            acc <= max,
            forall|j: int| 0 <= j < i - start ==> digit_value(#[trigger] d[j], radix as nat) is Some,
        decreases n - i,
    {
        let ghost k = i - start;
        match digit_of(s[i], radix) {
            None => {
                assert(digit_value(d[k], radix as nat) is None);
                return None;
            },
            Some(v) => {
                proof {
                    assert(d.take(k + 1).drop_last() =~= d.take(k));
                    assert(d.take(k + 1).last() == s@[i as int]);
                    lemma_prefix_value(d, k + 1, radix as nat);
                }
                let wide: u128 = acc as u128;
                assert(wide * (radix as u128) <= 0xffff_ffff_ffff_ffff * 16) by (nonlinear_arith)
                    requires
                        wide <= 0xffff_ffff_ffff_ffff,
                        radix <= 16,
                ;
                let next: u128 = wide * (radix as u128) + (v as u128);
                if next > max as u128 {
                    return None;
                }
                acc = next as u64;
                i = i + 1;
            },
        }
    }
    assert(d.take(i - start) =~= d);
    Some(acc)
}

/// The digit of a value below sixteen.
fn digit_for(v: u64) -> (r: char)
    requires
        v < 16,
    ensures
        r == digit_char(v as nat),
{
    if v < 10 {
        ('0' as u8 + v as u8) as char
    } else {
        ('a' as u8 + (v as u8 - 10)) as char
    }
}

/// `n` in decimal.
pub fn to_decimal(n: u64) -> (r: String)
    ensures
        r@ == decimal(n as nat),
    decreases n,
{
    if n < 10 {
        let mut s = String::new();
        s.push(digit_for(n));
        assert(s@ =~= seq![digit_char(n as nat)]);
        s
    } else {
        let mut s = to_decimal(n / 10);
        s.push(digit_for(n % 10));
        s
    }
}

/// A number with its sign, in decimal digits.
pub fn to_signed_decimal(n: i32) -> (r: String)
    ensures
        r@ == signed_decimal(n as int),
{
    if n < 0 {
        let size: i64 = -(n as i64);
        let digits = to_decimal(size as u64);
        let mut out = "-".to_owned();
        out.append(digits.as_str());
        out
    } else {
        to_decimal(n as u64)
    }
}

/// The last `width` hexadecimal digits of `n`, with leading zeros.
pub fn to_padded_hex(n: u64, width: usize) -> (r: String)
    ensures
        r@ == padded_hex(n as nat, width as nat),
    decreases width,
{
    if width == 0 {
        String::new()
    } else {
        let mut s = to_padded_hex(n / 16, width - 1);
        s.push(digit_for(n % 16));
        s
    }
}

// ---------------------------------------------------------------------------
// Laws
// ---------------------------------------------------------------------------

/// The digit of a value has that value.
proof fn lemma_digit(v: nat, radix: nat)
    requires
        v < radix <= 16,
    ensures
        digit_value(digit_char(v), radix) == Some(v),
        '0' <= digit_char(v) <= '9' || 'a' <= digit_char(v) <= 'f',
{
}

/// A written number consists of digits, of which the first may be looked at, and has its value.
pub proof fn lemma_written(n: nat, radix: nat)
    requires
        2 <= radix <= 16,
    ensures
        written(n, radix).len() > 0,
        all_digits(written(n, radix), radix),
        digits_value(written(n, radix), radix) == n,
        forall|i: int|
            0 <= i < written(n, radix).len() ==> '0' <= #[trigger] written(n, radix)[i] <= '9'
                || 'a' <= written(n, radix)[i] <= 'f',
    decreases n,
{
    let w = written(n, radix);
    reveal_with_fuel(digits_value, 2);
    if n < radix {
        lemma_digit(n, radix);
        assert(w.drop_last() =~= Seq::empty());
    } else {
        assert(n / radix < n && n % radix < radix && (n / radix) * radix + n % radix == n)
            by (nonlinear_arith)
            requires
                n >= radix,
                radix >= 2,
        ;
        lemma_written(n / radix, radix);
        lemma_digit(n % radix, radix);
        assert(w.drop_last() =~= written(n / radix, radix));
    }
}

/// A number that was written in a radix is read back from it.
pub proof fn law_written_reads_back(n: nat, radix: nat, max: nat)
    requires
        2 <= radix <= 16,
        n <= max,
    ensures
        parse_unsigned(written(n, radix), radix, max) == Some(n),
{
    lemma_written(n, radix);
    assert(written(n, radix)[0] != '+');
}

/// A padded number has as many digits as it is to have.
pub proof fn law_padded_width(n: nat, width: nat)
    ensures
        padded_hex(n, width).len() == width,
        forall|i: int|
            0 <= i < width ==> '0' <= #[trigger] padded_hex(n, width)[i] <= '9' || 'a'
                <= padded_hex(n, width)[i] <= 'f',
    decreases width,
{
    if width > 0 {
        law_padded_width(n / 16, (width - 1) as nat);
        lemma_digit(n % 16, 16);
    }
}

/// A number in decimal is the digits of its tens, if there are any, and the digit of what is left.
pub proof fn law_decimal_places(n: nat, k: nat)
    requires
        k < 10,
    ensures
        decimal(k) == seq![(48 + k) as char],
        n > 0 ==> decimal(n * 10 + k) == decimal(n).push((48 + k) as char),
{
    assert(digit_char(k) == (48 + k) as char);
    if n > 0 {
        let m = n * 10 + k;
        assert(m / 10 == n && m % 10 == k);
    }
}

/// The value of a digit is told by its character, in hexadecimal by letters of either case, and
/// nothing else is a digit.
pub proof fn law_digits(c: char)
    ensures
        '0' <= c <= '9' ==> digit_value(c, 10) == Some((c as int - 48) as nat),
        '0' <= c <= '9' ==> digit_value(c, 16) == Some((c as int - 48) as nat),
        'a' <= c <= 'f' ==> digit_value(c, 16) == Some((c as int - 87) as nat),
        'A' <= c <= 'F' ==> digit_value(c, 16) == Some((c as int - 55) as nat),
        !('0' <= c <= '9') ==> digit_value(c, 10) is None,
        !('0' <= c <= '9' || 'a' <= c <= 'f' || 'A' <= c <= 'F') ==> digit_value(c, 16) is None,
{
}

/// One more digit behind a number multiplies it by the radix and adds the value of the digit; what
/// is larger than it may be is refused, and so is what holds anything but digits behind a sign.
pub proof fn law_read_places(s: Seq<char>, c: char, radix: nat, max: nat, n: nat, d: nat)
    requires
        2 <= radix <= 16,
        parse_unsigned(s, radix, max) == Some(n),
        s[0] != '+',
    ensures
        digit_value(c, radix) == Some(d) && n * radix + d <= max ==> parse_unsigned(
            s.push(c),
            radix,
            max,
        ) == Some(n * radix + d),
        digit_value(c, radix) == Some(d) && n * radix + d > max ==> parse_unsigned(
            s.push(c),
            radix,
            max,
        ) is None,
        digit_value(c, radix) is None ==> parse_unsigned(s.push(c), radix, max) is None,
{
    let t = s.push(c);
    assert(t.drop_last() =~= s);
    assert(t.last() == c);
    assert(t[0] == s[0]);
    assert(unsigned_digits(t) == t && unsigned_digits(s) == s);
    if digit_value(c, radix) is Some {
        assert(all_digits(t, radix)) by {
            assert forall|i: int| 0 <= i < t.len() implies digit_value(#[trigger] t[i], radix)
                is Some by {
                if i < s.len() {
                    assert(t[i] == s[i]);
                }
            }
        }
    } else {
        assert(digit_value(t[t.len() - 1], radix) is None);
    }
}

/// One digit is read as its value, and nothing is no number.
pub proof fn law_read_digit(c: char, radix: nat, max: nat, d: nat)
    requires
        2 <= radix <= 16,
        d <= max,
    ensures
        digit_value(c, radix) == Some(d) ==> parse_unsigned(seq![c], radix, max) == Some(d),
        digit_value(c, radix) is None ==> parse_unsigned(seq![c], radix, max) is None,
        parse_unsigned(Seq::empty(), radix, max) is None,
{
    let s = seq![c];
    assert(s.drop_last() =~= Seq::empty());
    assert(digits_value(Seq::empty(), radix) == 0);
    assert(0 * radix == 0) by (nonlinear_arith);
    assert(digits_value(s, radix) == digit_value(c, radix).unwrap_or(0));
    assert(s[0] == c);
    assert(unsigned_digits(s) == s);
}

/// The digits of values below sixteen differ.
proof fn lemma_digits_differ(a: nat, b: nat)
    requires
        a < 16,
        b < 16,
        digit_char(a) == digit_char(b),
    ensures
        a == b,
{
    lemma_digit(a, 16);
    lemma_digit(b, 16);
}

/// How many numbers can be told apart by this many hexadecimal digits.
pub open spec fn hex_range(width: nat) -> nat
    decreases width,
{
    if width == 0 {
        1
    } else {
        16 * hex_range((width - 1) as nat)
    }
}

/// Numbers that fit into the digits to which they are padded are written differently.
pub proof fn law_padded_numbers_differ(a: nat, b: nat, width: nat)
    requires
        a < hex_range(width),
        b < hex_range(width),
        padded_hex(a, width) == padded_hex(b, width),
    ensures
        a == b,
    decreases width,
{
    if width > 0 {
        let w = (width - 1) as nat;
        let x = padded_hex(a, width);
        let y = padded_hex(b, width);
        assert(x.last() == digit_char(a % 16) && y.last() == digit_char(b % 16));
        assert(x.drop_last() =~= padded_hex(a / 16, w));
        assert(y.drop_last() =~= padded_hex(b / 16, w));
        lemma_digits_differ(a % 16, b % 16);
        law_padded_numbers_differ(a / 16, b / 16, w);
    }
}

/// A number with a sign is the sign, if it is negative, and the number without it.
pub proof fn law_signed_decimal(n: nat)
    ensures
        signed_decimal(n as int) == decimal(n),
        n > 0 ==> signed_decimal(-(n as int)) == seq!['-'] + decimal(n),
{
    reveal_strlit("-");
    assert("-"@ =~= seq!['-']);
}

/// A plus sign in front of a number does not matter, and a sign alone is no number.
pub proof fn law_plus_sign(s: Seq<char>, radix: nat, max: nat)
    requires
        2 <= radix <= 16,
        s.len() > 0 ==> s[0] != '+',
    ensures
        s.len() > 0 ==> parse_unsigned(seq!['+'] + s, radix, max) == parse_unsigned(s, radix, max),
        parse_unsigned(seq!['+'], radix, max) is None,
{
    let signed = seq!['+'] + s;
    assert(signed.drop_first() =~= s);
    let sign = seq!['+'];
    assert(digit_value(sign[0], radix) is None);
}

} // verus!
