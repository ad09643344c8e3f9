//! Primitives of the wire form: decimal numbers, escaped strings, and
//! timestamp text.
//!
//! Each primitive comes three ways: a spec function that says what the
//! emitted characters are, a spec parser that says what a character
//! sequence means, and verified executable counterparts.  Round-trip
//! lemmas tie the two spec sides together.

use vstd::prelude::*;
use vstd::arithmetic::div_mod::lemma_mod_breakdown;
use crate::time::{spec_days_in_month, days_in_month, Timestamp};

verus! {

/// Whether `c` is a decimal digit.
pub open spec fn is_digit(c: char) -> bool {
    48 <= (c as u32) && (c as u32) <= 57
}

/// The value of a decimal digit character.
pub open spec fn digit_val(c: char) -> int {
    c as u32 - 48
}

/// The character of a decimal digit value.
pub open spec fn char_of_digit(d: int) -> char {
    ((48 + d) as u32) as char
}

/// `10^k`.
pub open spec fn pow10(k: nat) -> int
    decreases k,
{
    if k == 0 {
        1
    } else {
        10 * pow10((k - 1) as nat)
    }
}

pub proof fn lemma_pow10_pos(k: nat)
    ensures
        pow10(k) >= 1,
    decreases k,
{
    if k > 0 {
        lemma_pow10_pos((k - 1) as nat);
    }
}

/// The decimal digits of `n`, most significant first, without leading
/// zeros (`0` is the single digit `0`).
pub open spec fn fmt_u32(n: u32) -> Seq<char>
    decreases n,
{
    if n < 10 {
        seq![char_of_digit(n as int)]
    } else {
        fmt_u32((n as int / 10) as u32).push(char_of_digit(n as int % 10))
    }
}

/// A digit character is a digit and carries its value.
proof fn lemma_char_of_digit(d: int)
    requires
        0 <= d <= 9,
    ensures
        is_digit(char_of_digit(d)),
        digit_val(char_of_digit(d)) == d,
{
    assert((((48 + d) as u32) as char) as u32 == 48 + d);
}

/// The first digit of a positive number is not zero, and is a digit.
pub proof fn lemma_fmt_u32_first_digit(n: u32)
    ensures
        fmt_u32(n).len() >= 1,
        is_digit(fmt_u32(n)[0]),
        n >= 1 ==> digit_val(fmt_u32(n)[0]) >= 1,
        n >= 10 ==> fmt_u32(n).len() >= 2,
    decreases n,
{
    if n < 10 {
        lemma_char_of_digit(n as int);
    } else {
        lemma_fmt_u32_first_digit((n as int / 10) as u32);
    }
}

/// Greedy digit-run parser: consumes decimal digits from `i`, extending
/// `acc`, and fails on u32 overflow.
pub open spec fn p_u32_loop(s: Seq<char>, i: int, acc: u32) -> Option<(u32, int)>
    decreases s.len() - i,
{
    if 0 <= i < s.len() && is_digit(s[i]) {
        if acc as int * 10 + digit_val(s[i]) > u32::MAX as int {
            None
        } else {
            p_u32_loop(s, i + 1, (acc as int * 10 + digit_val(s[i])) as u32)
        }
    } else {
        Some((acc, i))
    }
}

/// A decimal number at position `i`: at least one digit, no leading zero
/// (except the number `0` itself), value within `u32`.
pub open spec fn p_u32(s: Seq<char>, i: int) -> Option<(u32, int)> {
    if 0 <= i < s.len() && is_digit(s[i]) {
        if digit_val(s[i]) == 0 && i + 1 < s.len() && is_digit(s[i + 1]) {
            None
        } else {
            p_u32_loop(s, i, 0)
        }
    } else {
        None
    }
}

/// Appends the decimal digits of `n`.
pub fn push_u32(out: &mut Vec<char>, n: u32)
    ensures
        final(out)@ == old(out)@ + fmt_u32(n),
    decreases n,
{
    if n < 10 {
        out.push((48 + n) as u8 as char);
        proof {
            assert(final(out)@ =~= old(out)@ + fmt_u32(n));
        }
    } else {
        push_u32(out, n / 10);
        out.push((48 + n % 10) as u8 as char);
        proof {
            assert(final(out)@ =~= old(out)@ + fmt_u32(n));
        }
    }
}

/// Whether `c` is a decimal digit.
pub fn is_digit_exec(c: char) -> (r: bool)
    ensures
        r == is_digit(c),
{
    let v = c as u32;
    48 <= v && v <= 57
}

/// Reads a decimal number at position `i`, as `p_u32` describes it.
pub fn parse_u32(s: &Vec<char>, i: usize) -> (r: Option<(u32, usize)>)
    requires
        i <= s@.len(),
    ensures
        match r {
            Some(v) => p_u32(s@, i as int) == Some((v.0, v.1 as int)) && i <= v.1 <= s@.len(),
            None => p_u32(s@, i as int) is None,
        },
{
    if i >= s.len() || !is_digit_exec(s[i]) {
        return None;
    }
    if s[i] as u32 == 48 && i + 1 < s.len() && is_digit_exec(s[i + 1]) {
        return None;
    }
    let mut j: usize = i;
    let mut acc: u32 = 0;
    loop
        invariant
            i <= j <= s@.len(),
            p_u32(s@, i as int) == p_u32_loop(s@, j as int, acc),
        decreases s@.len() - j,
    {
        if j >= s.len() || !is_digit_exec(s[j]) {
            return Some((acc, j));
        }
        let d = s[j] as u32 - 48;
        let wide: u64 = acc as u64 * 10 + d as u64;
        if wide > u32::MAX as u64 {
            return None;
        }
        acc = wide as u32;
        j = j + 1;
    }
}

/// Running the digit parser over the digits of `n` accumulates `n` into
/// `acc`, provided the total stays within `u32`.
proof fn lemma_p_u32_loop_run(n: u32, s: Seq<char>, i: int, acc: u32)
    requires
        0 <= i,
        i + fmt_u32(n).len() <= s.len(),
        s.subrange(i, i + fmt_u32(n).len() as int) == fmt_u32(n),
        acc as int * pow10(fmt_u32(n).len() as nat) + n <= u32::MAX as int,
    ensures
        p_u32_loop(s, i, acc) == p_u32_loop(
            s,
            i + fmt_u32(n).len() as int,
            (acc as int * pow10(fmt_u32(n).len() as nat) + n) as u32,
        ),
    decreases n,
{
    let len = fmt_u32(n).len() as int;
    if n < 10 {
        assert(s[i] == fmt_u32(n)[0]) by {
            assert(s.subrange(i, i + len)[0] == fmt_u32(n)[0]);
        }
        assert(s[i] == char_of_digit(n as int));
        lemma_char_of_digit(n as int);
        assert(digit_val(s[i]) == n);
        assert(pow10(0) == 1);
        assert(pow10(1) == 10);
        assert(p_u32_loop(s, i, acc) == p_u32_loop(s, i + 1, (acc * 10 + n) as u32));
    } else {
        let m = (n as int / 10) as u32;
        let d = n as int % 10;
        let lm = fmt_u32(m).len() as int;
        assert(fmt_u32(n) == fmt_u32(m).push(char_of_digit(d)));
        assert(len == lm + 1);
        assert(s.subrange(i, i + lm) =~= fmt_u32(m)) by {
            assert forall|k: int| 0 <= k < lm implies s.subrange(i, i + lm)[k] == fmt_u32(m)[k] by {
                assert(s.subrange(i, i + len)[k] == fmt_u32(n)[k]);
            }
        }
        lemma_pow10_pos(lm as nat);
        assert(pow10(len as nat) == 10 * pow10(lm as nat));
        assert(acc as int * pow10(lm as nat) + m <= u32::MAX as int) by (nonlinear_arith)
            requires
                acc as int * pow10(len as nat) + n <= u32::MAX as int,
                pow10(len as nat) == 10 * pow10(lm as nat),
                pow10(lm as nat) >= 1,
                m == n as int / 10,
                d == n as int % 10,
                n >= 10,
                acc >= 0,
                n <= u32::MAX,
        ;
        lemma_p_u32_loop_run(m, s, i, acc);
        let acc1 = (acc as int * pow10(lm as nat) + m) as u32;
        assert(s[i + lm] == fmt_u32(n)[lm]) by {
            assert(s.subrange(i, i + len)[lm] == fmt_u32(n)[lm]);
        }
        assert(s[i + lm] == char_of_digit(d));
        lemma_char_of_digit(d);
        assert(digit_val(s[i + lm]) == d);
        assert(acc1 as int * 10 + d == acc as int * pow10(len as nat) + n) by (nonlinear_arith)
            requires
                acc1 as int == acc as int * pow10(lm as nat) + m,
                pow10(len as nat) == 10 * pow10(lm as nat),
                m == n as int / 10,
                d == n as int % 10,
                n >= 0,
        ;
        assert(p_u32_loop(s, i + lm, acc1) == p_u32_loop(
            s,
            i + len,
            (acc as int * pow10(len as nat) + n) as u32,
        ));
    }
}

/// Parsing the printed digits of `n` yields `n` back, when the run ends at
/// `i + |fmt_u32(n)|`.
pub proof fn lemma_parse_fmt_u32(n: u32, s: Seq<char>, i: int)
    requires
        0 <= i,
        i + fmt_u32(n).len() <= s.len(),
        s.subrange(i, i + fmt_u32(n).len() as int) == fmt_u32(n),
        i + fmt_u32(n).len() == s.len() || !is_digit(s[i + fmt_u32(n).len()]),
    ensures
        p_u32(s, i) == Some((n, i + fmt_u32(n).len() as int)),
{
    let len = fmt_u32(n).len() as int;
    lemma_fmt_u32_first_digit(n);
    assert(s[i] == fmt_u32(n)[0]) by {
        assert(s.subrange(i, i + len)[0] == fmt_u32(n)[0]);
    }
    assert(is_digit(s[i]));
    if n == 0 {
        assert(len == 1);
        assert(digit_val(s[i]) == 0);
        assert(!(i + 1 < s.len() && is_digit(s[i + 1])));
    } else {
        assert(digit_val(s[i]) >= 1);
    }
    lemma_pow10_pos(len as nat);
    lemma_p_u32_loop_run(n, s, i, 0);
    assert(0 * pow10(len as nat) + n == n);
    assert(p_u32_loop(s, i + len, n) == Some((n, i + len)));
}

/// The last `k` decimal digits of `n`, zero padded, most significant
/// first.
pub open spec fn fmt_pad(n: u32, k: nat) -> Seq<char>
    decreases k,
{
    if k == 0 {
        Seq::empty()
    } else {
        fmt_pad((n as int / 10) as u32, (k - 1) as nat).push(char_of_digit(n as int % 10))
    }
}

/// Whether every position of `s` in `[i, j)` holds a decimal digit.
pub open spec fn seq_digits_at(s: Seq<char>, i: int, j: int) -> bool {
    forall|k: int| i <= k < j ==> is_digit(#[trigger] s[k])
}

/// The value of the decimal digits of `s` at positions `[i, j)`.
pub open spec fn val_at(s: Seq<char>, i: int, j: int) -> int
    decreases j - i,
{
    if i < j {
        val_at(s, i, j - 1) * 10 + digit_val(s[j - 1])
    } else {
        0
    }
}

/// A padded number is `k` digits long, all digits.
pub proof fn lemma_fmt_pad_digits(n: u32, k: nat)
    ensures
        fmt_pad(n, k).len() == k,
        forall|i: int| 0 <= i < k ==> is_digit(#[trigger] fmt_pad(n, k)[i]),
    decreases k,
{
    if k > 0 {
        lemma_fmt_pad_digits((n as int / 10) as u32, (k - 1) as nat);
        lemma_char_of_digit(n as int % 10);
    }
}

/// Reading the digits of a placed padded number gives the number back,
/// modulo the padding width.
pub proof fn lemma_val_at_fmt_pad(n: u32, k: nat, s: Seq<char>, a: int)
    requires
        0 <= a,
        a + k <= s.len(),
        s.subrange(a, a + k) == fmt_pad(n, k),
    ensures
        val_at(s, a, a + k) == n as int % pow10(k),
    decreases k,
{
    lemma_fmt_pad_digits(n, k);
    if k == 0 {
        assert(pow10(0) == 1);
    } else {
        let m = (n as int / 10) as u32;
        let km = (k - 1) as nat;
        assert(s.subrange(a, a + km) =~= fmt_pad(m, km)) by {
            lemma_fmt_pad_digits(m, km);
            assert forall|t: int| 0 <= t < km implies s.subrange(a, a + km)[t] == fmt_pad(m, km)[t]
            by {
                assert(s.subrange(a, a + k)[t] == fmt_pad(n, k)[t]);
            }
        }
        lemma_val_at_fmt_pad(m, km, s, a);
        assert(s[a + km] == fmt_pad(n, k)[k - 1]) by {
            assert(s.subrange(a, a + k)[k - 1] == fmt_pad(n, k)[k - 1]);
        }
        lemma_char_of_digit(n as int % 10);
        lemma_pow10_pos(km);
        lemma_mod_breakdown(n as int, 10, pow10(km));
        assert(pow10(k) == 10 * pow10(km));
        assert(val_at(s, a, a + k) == val_at(s, a, a + km) * 10 + digit_val(s[a + km]));
        assert(m as int == n as int / 10);
        assert(val_at(s, a, a + km) == m as int % pow10(km));
        assert(n as int % (10 * pow10(km)) == 10 * ((n as int / 10) % pow10(km)) + n as int % 10);
    }
}

/// Digit values at `[i, j)` are below the width's power of ten.
pub proof fn lemma_val_at_bound(s: Seq<char>, i: int, j: int)
    requires
        0 <= i <= j <= s.len(),
        seq_digits_at(s, i, j),
    ensures
        0 <= val_at(s, i, j) < pow10((j - i) as nat),
    decreases j - i,
{
    if i < j {
        lemma_val_at_bound(s, i, j - 1);
        assert(pow10((j - i) as nat) == 10 * pow10((j - i - 1) as nat));
    } else {
        assert(pow10(0) == 1);
    }
}

/// Appends the last `k` decimal digits of `n`, zero padded.
pub fn push_pad(out: &mut Vec<char>, n: u32, k: u8)
    ensures
        final(out)@ == old(out)@ + fmt_pad(n, k as nat),
    decreases k,
{
    if k == 0 {
        proof {
            assert(final(out)@ =~= old(out)@ + fmt_pad(n, 0));
        }
    } else {
        push_pad(out, n / 10, k - 1);
        out.push((48 + n % 10) as u8 as char);
        proof {
            assert(final(out)@ =~= old(out)@ + fmt_pad(n, k as nat));
        }
    }
}

/// Reads the value of the digits at `[a, b)`; `None` when a non-digit
/// stands there.
pub fn read_digits_val(s: &Vec<char>, a: usize, b: usize) -> (r: Option<u32>)
    requires
        a <= b <= s@.len(),
        b - a <= 9,
    ensures
        r is Some <==> seq_digits_at(s@, a as int, b as int),
        r matches Some(v) ==> v as int == val_at(s@, a as int, b as int),
    decreases b - a,
{
    let mut i: usize = a;
    let mut acc: u32 = 0;
    while i < b
        invariant
            a <= i <= b <= s@.len(),
            b - a <= 9,
            seq_digits_at(s@, a as int, i as int),
            acc as int == val_at(s@, a as int, i as int),
            (acc as int) < pow10((i - a) as nat),
        decreases b - i,
    {
        if !is_digit_exec(s[i]) {
            return None;
        }
        let d = s[i] as u32 - 48;
        proof {
            assert(pow10(((i - a) + 1) as nat) == 10 * pow10((i - a) as nat));
            lemma_pow10_le((i + 1 - a) as nat, 9);
            assert(pow10(9) == 1000000000) by {
                reveal_with_fuel(pow10, 11);
            }
        }
        acc = acc * 10 + d;
        i = i + 1;
    }
    Some(acc)
}

/// `pow10` is monotone.
pub proof fn lemma_pow10_le(a: nat, b: nat)
    requires
        a <= b,
    ensures
        pow10(a) <= pow10(b),
    decreases b,
{
    if a < b {
        lemma_pow10_le(a, (b - 1) as nat);
        lemma_pow10_pos((b - 1) as nat);
    }
}

/// The first position at or after `i` that does not hold a digit.
pub open spec fn digit_run_end(s: Seq<char>, i: int) -> int
    decreases s.len() - i,
{
    if 0 <= i < s.len() && is_digit(s[i]) {
        digit_run_end(s, i + 1)
    } else {
        i
    }
}

/// `digit_run_end` is the boundary of the run.
pub proof fn lemma_digit_run_end(s: Seq<char>, i: int, j: int)
    requires
        0 <= i <= j <= s.len(),
        seq_digits_at(s, i, j),
        j == s.len() || !is_digit(s[j]),
    ensures
        digit_run_end(s, i) == j,
    decreases j - i,
{
    if i < j {
        lemma_digit_run_end(s, i + 1, j);
    }
}

/// The timestamp wire text: `YYYY-MM-DDTHH:MM:SS`, a nine-digit fraction
/// exactly when the nanosecond field is not zero, and the UTC offset
/// `+00:00`.
pub open spec fn fmt_ts(t: Timestamp) -> Seq<char> {
    fmt_pad(t.year, 4) + seq!['-'] + fmt_pad(t.month, 2) + seq!['-'] + fmt_pad(t.day, 2)
        + seq!['T'] + fmt_pad(t.hour, 2) + seq![':'] + fmt_pad(t.minute, 2) + seq![':'] + fmt_pad(
        t.second,
        2,
    ) + (if t.nanos == 0 {
        Seq::<char>::empty()
    } else {
        seq!['.'] + fmt_pad(t.nanos, 9)
    }) + seq!['+', '0', '0', ':', '0', '0']
}

/// Whether the fixed (date and whole-second) part of a timestamp text is
/// shaped correctly.
pub open spec fn ts_fixed_ok(s: Seq<char>) -> bool {
    s.len() >= 19 && seq_digits_at(s, 0, 4) && s[4] == '-' && seq_digits_at(s, 5, 7) && s[7] == '-'
        && seq_digits_at(s, 8, 10) && s[10] == 'T' && seq_digits_at(s, 11, 13) && s[13] == ':'
        && seq_digits_at(s, 14, 16) && s[16] == ':' && seq_digits_at(s, 17, 19)
}

/// Whether the timestamp text ends at `i` with a UTC designator.
pub open spec fn ts_tz_ok(s: Seq<char>, i: int) -> bool {
    (s.len() == i + 1 && s[i] == 'Z') || (s.len() == i + 6 && s[i] == '+' && s[i + 1] == '0' && s[i
        + 2] == '0' && s[i + 3] == ':' && s[i + 4] == '0' && s[i + 5] == '0')
}

/// What a timestamp text means: the instant it names, or nothing when it
/// is not shaped correctly or names no real instant.
pub open spec fn p_ts(s: Seq<char>) -> Option<Timestamp> {
    if !ts_fixed_ok(s) {
        None
    } else {
        let year = val_at(s, 0, 4);
        let month = val_at(s, 5, 7);
        let day = val_at(s, 8, 10);
        let hour = val_at(s, 11, 13);
        let minute = val_at(s, 14, 16);
        let second = val_at(s, 17, 19);
        let frac: Option<(int, int)> = if s.len() > 19 && s[19] == '.' {
            let e = digit_run_end(s, 20);
            if 1 <= e - 20 <= 9 {
                Some((val_at(s, 20, e) * pow10((9 - (e - 20)) as nat), e))
            } else {
                None
            }
        } else {
            Some((0, 19))
        };
        match frac {
            None => None,
            Some((nanos, i)) => {
                if ts_tz_ok(s, i) && 1 <= month <= 12 && 1 <= day && day <= spec_days_in_month(
                    year as u32,
                    month as u32,
                ) && hour <= 23 && minute <= 59 && second <= 59 && nanos <= 999_999_999 {
                    Some(
                        Timestamp {
                            year: year as u32,
                            month: month as u32,
                            day: day as u32,
                            hour: hour as u32,
                            minute: minute as u32,
                            second: second as u32,
                            nanos: nanos as u32,
                        },
                    )
                } else {
                    None
                }
            },
        }
    }
}

/// `pow10` of a sum is the product of the `pow10`s.
pub proof fn lemma_pow10_add(a: nat, b: nat)
    ensures
        pow10(a + b) == pow10(a) * pow10(b),
    decreases a,
{
    if a == 0 {
        assert(pow10(0) == 1);
    } else {
        lemma_pow10_add((a - 1) as nat, b);
        assert(pow10(((a - 1) + b) as nat) == pow10((a - 1) as nat) * pow10(b));
        assert(pow10(a + b) == 10 * pow10(((a - 1) + b) as nat));
        assert(10 * (pow10((a - 1) as nat) * pow10(b)) == (10 * pow10((a - 1) as nat)) * pow10(b))
            by (nonlinear_arith);
    }
}

/// `10^k` as a machine number, for small `k`.
pub fn pow10_u32(k: u8) -> (r: u32)
    requires
        k <= 9,
    ensures
        r as int == pow10(k as nat),
    decreases k,
{
    proof {
        reveal_with_fuel(pow10, 11);
    }
    if k == 0 {
        1
    } else {
        10 * pow10_u32(k - 1)
    }
}

/// Reads a whole timestamp text, as `p_ts` describes it.
pub fn parse_ts(s: &Vec<char>) -> (r: Option<Timestamp>)
    ensures
        r == p_ts(s@),
{
    let n = s.len();
    if n < 19 {
        return None;
    }
    let year = match read_digits_val(s, 0, 4) {
        Some(v) => v,
        None => {
            return None;
        },
    };
    if s[4] != '-' {
        return None;
    }
    let month = match read_digits_val(s, 5, 7) {
        Some(v) => v,
        None => {
            return None;
        },
    };
    if s[7] != '-' {
        return None;
    }
    let day = match read_digits_val(s, 8, 10) {
        Some(v) => v,
        None => {
            return None;
        },
    };
    if s[10] != 'T' {
        return None;
    }
    let hour = match read_digits_val(s, 11, 13) {
        Some(v) => v,
        None => {
            return None;
        },
    };
    if s[13] != ':' {
        return None;
    }
    let minute = match read_digits_val(s, 14, 16) {
        Some(v) => v,
        None => {
            return None;
        },
    };
    if s[16] != ':' {
        return None;
    }
    let second = match read_digits_val(s, 17, 19) {
        Some(v) => v,
        None => {
            return None;
        },
    };
    proof {
        assert(ts_fixed_ok(s@));
    }
    let mut nanos: u32 = 0;
    let mut pos: usize = 19;
    if n > 19 && s[19] == '.' {
        let mut e: usize = 20;
        while e < n && is_digit_exec(s[e])
            invariant
                20 <= e <= n == s@.len(),
                seq_digits_at(s@, 20, e as int),
            decreases n - e,
        {
            e = e + 1;
        }
        proof {
            lemma_digit_run_end(s@, 20, e as int);
        }
        let k = e - 20;
        if k < 1 || k > 9 {
            return None;
        }
        let v = match read_digits_val(s, 20, e) {
            Some(v) => v,
            None => {
                proof {
                    assert(false);
                }
                return None;
            },
        };
        let scale = pow10_u32((9 - k) as u8);
        proof {
            lemma_val_at_bound(s@, 20, e as int);
            lemma_pow10_add((k) as nat, (9 - k) as nat);
            lemma_pow10_pos((9 - k) as nat);
            assert((v as int) * (scale as int) < pow10(9)) by (nonlinear_arith)
                requires
                    (v as int) < pow10(k as nat),
                    scale as int == pow10((9 - k) as nat),
                    pow10(9) == pow10(k as nat) * pow10((9 - k) as nat),
                    scale as int >= 1,
                    v >= 0,
            ;
            assert(pow10(9) == 1000000000) by {
                reveal_with_fuel(pow10, 11);
            }
        }
        nanos = v * scale;
        pos = e;
    }
    let tz_good = if n == pos + 1 {
        s[pos] == 'Z'
    } else if n == pos + 6 {
        s[pos] == '+' && s[pos + 1] == '0' && s[pos + 2] == '0' && s[pos + 3] == ':' && s[pos + 4]
            == '0' && s[pos + 5] == '0'
    } else {
        false
    };
    if !tz_good {
        return None;
    }
    if !(1 <= month && month <= 12 && 1 <= day && day <= days_in_month(year, month) && hour <= 23
        && minute <= 59 && second <= 59 && nanos <= 999_999_999) {
        return None;
    }
    Some(Timestamp { year, month, day, hour, minute, second, nanos })
}

/// Parsing the printed form of a well-formed timestamp yields it back.
#[verifier::rlimit(100)]
#[verifier::spinoff_prover]
pub proof fn lemma_parse_fmt_ts(t: Timestamp)
    requires
        t.wf(),
    ensures
        p_ts(fmt_ts(t)) == Some(t),
{
    let s = fmt_ts(t);
    lemma_fmt_pad_digits(t.year, 4);
    lemma_fmt_pad_digits(t.month, 2);
    lemma_fmt_pad_digits(t.day, 2);
    lemma_fmt_pad_digits(t.hour, 2);
    lemma_fmt_pad_digits(t.minute, 2);
    lemma_fmt_pad_digits(t.second, 2);
    lemma_fmt_pad_digits(t.nanos, 9);
    let frac_len: int = if t.nanos == 0 { 0 } else { 10 };
    assert(s.len() == 25 + frac_len);
    assert(s.subrange(0, 4) =~= fmt_pad(t.year, 4));
    assert(s[4] == '-');
    assert(s.subrange(5, 7) =~= fmt_pad(t.month, 2));
    assert(s[7] == '-');
    assert(s.subrange(8, 10) =~= fmt_pad(t.day, 2));
    assert(s[10] == 'T');
    assert(s.subrange(11, 13) =~= fmt_pad(t.hour, 2));
    assert(s[13] == ':');
    assert(s.subrange(14, 16) =~= fmt_pad(t.minute, 2));
    assert(s[16] == ':');
    assert(s.subrange(17, 19) =~= fmt_pad(t.second, 2));
    assert(ts_fixed_ok(s));
    lemma_val_at_fmt_pad(t.year, 4, s, 0);
    lemma_val_at_fmt_pad(t.month, 2, s, 5);
    lemma_val_at_fmt_pad(t.day, 2, s, 8);
    lemma_val_at_fmt_pad(t.hour, 2, s, 11);
    lemma_val_at_fmt_pad(t.minute, 2, s, 14);
    lemma_val_at_fmt_pad(t.second, 2, s, 17);
    assert(pow10(4) == 10000 && pow10(2) == 100 && pow10(9) == 1000000000) by {
        reveal_with_fuel(pow10, 11);
    }
    assert(val_at(s, 0, 4) == t.year);
    assert(val_at(s, 5, 7) == t.month);
    assert(val_at(s, 8, 10) == t.day);
    assert(val_at(s, 11, 13) == t.hour);
    assert(val_at(s, 14, 16) == t.minute);
    assert(val_at(s, 17, 19) == t.second);
    if t.nanos == 0 {
        assert(s[19] == '+');
        assert(!(s.len() > 19 && s[19] == '.'));
        assert(ts_tz_ok(s, 19));
        assert(p_ts(s) == Some(t));
    } else {
        assert(s[19] == '.');
        assert(s.subrange(20, 29) =~= fmt_pad(t.nanos, 9));
        assert(seq_digits_at(s, 20, 29)) by {
            assert forall|k: int| 20 <= k < 29 implies is_digit(s[k]) by {
                assert(s.subrange(20, 29)[k - 20] == fmt_pad(t.nanos, 9)[k - 20]);
            }
        }
        assert(s[29] == '+');
        assert(!is_digit(s[29]));
        lemma_digit_run_end(s, 20, 29);
        assert(digit_run_end(s, 20) == 29);
        lemma_val_at_fmt_pad(t.nanos, 9, s, 20);
        assert(val_at(s, 20, 29) == t.nanos);
        assert(pow10(0) == 1);
        assert(val_at(s, 20, 29) * pow10(0) == t.nanos);
        assert(ts_tz_ok(s, 29));
        assert(p_ts(s) == Some(t));
    }
}

/// Hex digit characters, lower case.
pub open spec fn char_of_hex(d: int) -> char {
    if d < 10 {
        char_of_digit(d)
    } else {
        ((87 + d) as u32) as char
    }
}

/// Whether `c` is a hex digit (either case).
pub open spec fn is_hex(c: char) -> bool {
    (48 <= (c as u32) && (c as u32) <= 57) || (97 <= (c as u32) && (c as u32) <= 102) || (65 <= (
    c as u32) && (c as u32) <= 70)
}

/// The value of a hex digit character.
pub open spec fn hex_val(c: char) -> int {
    if 48 <= (c as u32) && (c as u32) <= 57 {
        c as u32 - 48
    } else if 97 <= (c as u32) && (c as u32) <= 102 {
        c as u32 - 87
    } else {
        c as u32 - 55
    }
}

/// A character is the character of its own code point.
proof fn lemma_char_code_id(c: char)
    ensures
        ((c as u32) as char) == c,
{
}

/// A hex digit character is one, and carries its value.
proof fn lemma_char_of_hex(d: int)
    requires
        0 <= d <= 15,
    ensures
        is_hex(char_of_hex(d)),
        hex_val(char_of_hex(d)) == d,
        !is_digit(char_of_hex(d)) || digit_val(char_of_hex(d)) == d,
{
    if d < 10 {
        lemma_char_of_digit(d);
    } else {
        assert((((87 + d) as u32) as char) as u32 == 87 + d);
    }
}

/// How one character is written inside a quoted string: quotes and
/// backslashes are escaped, the common control characters get their short
/// escapes, other control characters are written as `\u00XX`, and
/// everything else stands for itself.
pub open spec fn esc_char(c: char) -> Seq<char> {
    if c == '"' {
        seq!['\\', '"']
    } else if c == '\\' {
        seq!['\\', '\\']
    } else if c == '\n' {
        seq!['\\', 'n']
    } else if c == '\t' {
        seq!['\\', 't']
    } else if c == '\r' {
        seq!['\\', 'r']
    } else if (c as u32) < 32 {
        seq!['\\', 'u', '0', '0', char_of_hex((c as u32) as int / 16), char_of_hex(
            (c as u32) as int % 16,
        )]
    } else {
        seq![c]
    }
}

/// The escaped form of a whole string.
pub open spec fn enc_str(s: Seq<char>) -> Seq<char>
    decreases s.len(),
{
    if s.len() == 0 {
        Seq::empty()
    } else {
        esc_char(s[0]) + enc_str(s.drop_first())
    }
}

/// Escaping one more character appends its escape.
pub proof fn lemma_enc_str_push(s: Seq<char>, c: char)
    ensures
        enc_str(s.push(c)) == enc_str(s) + esc_char(c),
    decreases s.len(),
{
    if s.len() == 0 {
        assert(s.push(c).drop_first() =~= Seq::<char>::empty());
        assert(s.push(c)[0] == c);
        assert(enc_str(s.push(c)) == esc_char(c) + enc_str(Seq::<char>::empty()));
        assert(esc_char(c) + Seq::<char>::empty() =~= esc_char(c));
        assert(enc_str(s) + esc_char(c) =~= esc_char(c));
    } else {
        assert(s.push(c).drop_first() =~= s.drop_first().push(c));
        lemma_enc_str_push(s.drop_first(), c);
        assert(s.push(c)[0] == s[0]);
        assert(enc_str(s.push(c)) == esc_char(s[0]) + (enc_str(s.drop_first()) + esc_char(c)));
        assert(esc_char(s[0]) + (enc_str(s.drop_first()) + esc_char(c)) =~= (esc_char(s[0])
            + enc_str(s.drop_first())) + esc_char(c));
    }
}

/// The whole string token: quote, escaped content, quote.
pub open spec fn fmt_str(s: Seq<char>) -> Seq<char> {
    seq!['"'] + enc_str(s) + seq!['"']
}

/// Escaped-string content parser: reads until the closing quote,
/// resolving escapes, and fails on raw control characters, bad escapes,
/// escaped surrogates, or a missing closing quote.
pub open spec fn p_str_loop(s: Seq<char>, i: int, acc: Seq<char>) -> Option<(Seq<char>, int)>
    decreases s.len() - i,
{
    if i < 0 || i >= s.len() {
        None
    } else if s[i] == '"' {
        Some((acc, i + 1))
    } else if s[i] == '\\' {
        if i + 1 >= s.len() {
            None
        } else {
            let e = s[i + 1];
            if e == '"' {
                p_str_loop(s, i + 2, acc.push('"'))
            } else if e == '\\' {
                p_str_loop(s, i + 2, acc.push('\\'))
            } else if e == '/' {
                p_str_loop(s, i + 2, acc.push('/'))
            } else if e == 'n' {
                p_str_loop(s, i + 2, acc.push('\n'))
            } else if e == 't' {
                p_str_loop(s, i + 2, acc.push('\t'))
            } else if e == 'r' {
                p_str_loop(s, i + 2, acc.push('\r'))
            } else if e == 'b' {
                p_str_loop(s, i + 2, acc.push((8 as u32) as char))
            } else if e == 'f' {
                p_str_loop(s, i + 2, acc.push((12 as u32) as char))
            } else if e == 'u' {
                if i + 6 > s.len() {
                    None
                } else if is_hex(s[i + 2]) && is_hex(s[i + 3]) && is_hex(s[i + 4]) && is_hex(
                    s[i + 5],
                ) {
                    let v = ((hex_val(s[i + 2]) * 16 + hex_val(s[i + 3])) * 16 + hex_val(s[i + 4]))
                        * 16 + hex_val(s[i + 5]);
                    if 0xD800 <= v && v < 0xE000 {
                        None
                    } else {
                        p_str_loop(s, i + 6, acc.push((v as u32) as char))
                    }
                } else {
                    None
                }
            } else {
                None
            }
        }
    } else if (s[i] as u32) < 32 {
        None
    } else {
        p_str_loop(s, i + 1, acc.push(s[i]))
    }
}

/// A string token at position `i`.
pub open spec fn p_str(s: Seq<char>, i: int) -> Option<(Seq<char>, int)> {
    if 0 <= i < s.len() && s[i] == '"' {
        p_str_loop(s, i + 1, Seq::empty())
    } else {
        None
    }
}

/// A lower-case hex digit character, for values below 16.
fn hex_char(d: u32) -> (r: char)
    requires
        d < 16,
    ensures
        r == char_of_hex(d as int),
{
    if d < 10 {
        (48 + d) as u8 as char
    } else {
        (87 + d) as u8 as char
    }
}

/// Appends the escaped form of `v`.
pub fn push_escaped(out: &mut Vec<char>, v: &Vec<char>)
    ensures
        final(out)@ == old(out)@ + enc_str(v@),
{
    let mut i: usize = 0;
    proof {
        assert(out@ =~= old(out)@ + enc_str(v@.take(0)));
    }
    while i < v.len()
        invariant
            0 <= i <= v@.len(),
            out@ == old(out)@ + enc_str(v@.take(i as int)),
        decreases v@.len() - i,
    {
        let c = v[i];
        let ghost pre = out@;
        if c == '"' {
            out.push('\\');
            out.push('"');
        } else if c == '\\' {
            out.push('\\');
            out.push('\\');
        } else if c == '\n' {
            out.push('\\');
            out.push('n');
        } else if c == '\t' {
            out.push('\\');
            out.push('t');
        } else if c == '\r' {
            out.push('\\');
            out.push('r');
        } else if (c as u32) < 32 {
            let code = c as u32;
            out.push('\\');
            out.push('u');
            out.push('0');
            out.push('0');
            out.push(hex_char(code / 16));
            out.push(hex_char(code % 16));
        } else {
            out.push(c);
        }
        proof {
            assert(out@ =~= pre + esc_char(c));
            v@.lemma_take_succ_push(i as int);
            lemma_enc_str_push(v@.take(i as int), c);
            assert(out@ =~= old(out)@ + enc_str(v@.take(i + 1)));
        }
        i = i + 1;
    }
    proof {
        assert(v@.take(v@.len() as int) =~= v@);
    }
}

/// Relies on `char::from_u32`: it returns the character of the given code
/// point, and `None` exactly for surrogate codes and codes above the
/// highest scalar value.
#[verifier::external_body]
fn char_from_u32(v: u32) -> (r: Option<char>)
    ensures
        r is Some <==> (v < 0xD800 || (0xDFFF < v && v <= 0x10FFFF)),
        r matches Some(c) ==> c as u32 == v,
{
    char::from_u32(v)
}

/// The value of a hex digit character, if it is one.
fn hex_val_exec(c: char) -> (r: Option<u32>)
    ensures
        r is Some <==> is_hex(c),
        r matches Some(v) ==> v as int == hex_val(c),
{
    let code = c as u32;
    if 48 <= code && code <= 57 {
        Some(code - 48)
    } else if 97 <= code && code <= 102 {
        Some(code - 87)
    } else if 65 <= code && code <= 70 {
        Some(code - 55)
    } else {
        None
    }
}

/// Reads a string token at position `i`, as `p_str` describes it.
pub fn parse_str(s: &Vec<char>, i: usize) -> (r: Option<(Vec<char>, usize)>)
    requires
        i <= s@.len(),
    ensures
        match r {
            Some(v) => p_str(s@, i as int) == Some((v.0@, v.1 as int)) && i < v.1 <= s@.len(),
            None => p_str(s@, i as int) is None,
        },
{
    if i >= s.len() || s[i] != '"' {
        return None;
    }
    let mut j: usize = i + 1;
    let mut acc: Vec<char> = Vec::new();
    loop
        invariant
            i + 1 <= j <= s@.len(),
            i < s@.len(),
            s@[i as int] == '"',
            p_str(s@, i as int) == p_str_loop(s@, j as int, acc@),
        decreases s@.len() - j,
    {
        if j >= s.len() {
            return None;
        }
        let c = s[j];
        if c == '"' {
            return Some((acc, j + 1));
        }
        if c == '\\' {
            if j + 1 >= s.len() {
                return None;
            }
            let e = s[j + 1];
            if e == '"' {
                acc.push('"');
                j = j + 2;
            } else if e == '\\' {
                acc.push('\\');
                j = j + 2;
            } else if e == '/' {
                acc.push('/');
                j = j + 2;
            } else if e == 'n' {
                acc.push('\n');
                j = j + 2;
            } else if e == 't' {
                acc.push('\t');
                j = j + 2;
            } else if e == 'r' {
                acc.push('\r');
                j = j + 2;
            } else if e == 'b' {
                acc.push('\u{8}');
                j = j + 2;
            } else if e == 'f' {
                acc.push('\u{c}');
                j = j + 2;
            } else if e == 'u' {
                if s.len() - j < 6 {
                    return None;
                }
                let h0 = match hex_val_exec(s[j + 2]) {
                    Some(v) => v,
                    None => {
                        return None;
                    },
                };
                let h1 = match hex_val_exec(s[j + 3]) {
                    Some(v) => v,
                    None => {
                        return None;
                    },
                };
                let h2 = match hex_val_exec(s[j + 4]) {
                    Some(v) => v,
                    None => {
                        return None;
                    },
                };
                let h3 = match hex_val_exec(s[j + 5]) {
                    Some(v) => v,
                    None => {
                        return None;
                    },
                };
                let v = ((h0 * 16 + h1) * 16 + h2) * 16 + h3;
                if 0xD800 <= v && v < 0xE000 {
                    return None;
                }
                let ch = match char_from_u32(v) {
                    Some(ch) => ch,
                    None => {
                        proof {
                            assert(false);
                        }
                        return None;
                    },
                };
                proof {
                    lemma_char_code_id(ch);
                    assert(ch == ((v as u32) as char));
                }
                acc.push(ch);
                j = j + 6;
            } else {
                return None;
            }
        } else if (c as u32) < 32 {
            return None;
        } else {
            acc.push(c);
            j = j + 1;
        }
    }
}

/// Running the content parser over the escaped form of `name` appends
/// `name` to the accumulator.
proof fn lemma_p_str_loop_enc(name: Seq<char>, s: Seq<char>, i: int, acc: Seq<char>)
    requires
        0 <= i,
        i + enc_str(name).len() <= s.len(),
        s.subrange(i, i + enc_str(name).len() as int) == enc_str(name),
    ensures
        p_str_loop(s, i, acc) == p_str_loop(s, i + enc_str(name).len() as int, acc + name),
    decreases name.len(),
{
    let el = enc_str(name).len() as int;
    if name.len() == 0 {
        assert(acc + name =~= acc);
    } else {
        let c = name[0];
        let rest = name.drop_first();
        let ec = esc_char(c);
        let l = ec.len() as int;
        assert(enc_str(name) == ec + enc_str(rest));
        assert(el == l + enc_str(rest).len());
        assert forall|k: int| 0 <= k < l implies s[i + k] == ec[k] by {
            assert(s.subrange(i, i + el)[k] == enc_str(name)[k]);
        }
        assert(s.subrange(i + l, i + el) =~= enc_str(rest)) by {
            assert forall|k: int| 0 <= k < el - l implies s.subrange(i + l, i + el)[k] == enc_str(
                rest,
            )[k] by {
                assert(s.subrange(i, i + el)[k + l] == enc_str(name)[k + l]);
            }
        }
        assert(s[i + 0] == ec[0]);
        if c == '"' || c == '\\' || c == '\n' || c == '\t' || c == '\r' {
            assert(s[i] == '\\');
            assert(p_str_loop(s, i, acc) == p_str_loop(s, i + 2, acc.push(c)));
        } else if (c as u32) < 32 {
            let code = (c as u32) as int;
            assert(s[i] == '\\' && s[i + 1] == 'u' && s[i + 2] == '0' && s[i + 3] == '0');
            assert(s[i + 4] == char_of_hex(code / 16) && s[i + 5] == char_of_hex(code % 16));
            lemma_char_of_hex(code / 16);
            lemma_char_of_hex(code % 16);
            assert(hex_val('0') == 0);
            let v = ((hex_val(s[i + 2]) * 16 + hex_val(s[i + 3])) * 16 + hex_val(s[i + 4])) * 16
                + hex_val(s[i + 5]);
            assert(v == (code / 16) * 16 + code % 16);
            assert(v == code);
            assert(!(0xD800 <= v && v < 0xE000));
            lemma_char_code_id(c);
            assert((v as u32) as char == c);
            assert(p_str_loop(s, i, acc) == p_str_loop(s, i + 6, acc.push(c)));
        } else {
            assert(ec == seq![c]);
            assert(s[i] == c);
            assert(p_str_loop(s, i, acc) == p_str_loop(s, i + 1, acc.push(c)));
        }
        lemma_p_str_loop_enc(rest, s, i + l, acc.push(c));
        assert(acc.push(c) + rest =~= acc + name);
    }
}

/// Parsing the printed form of a string token yields the string back.
pub proof fn lemma_parse_fmt_str(name: Seq<char>, s: Seq<char>, i: int)
    requires
        0 <= i,
        i + fmt_str(name).len() <= s.len(),
        s.subrange(i, i + fmt_str(name).len() as int) == fmt_str(name),
    ensures
        p_str(s, i) == Some((name, i + fmt_str(name).len() as int)),
{
    let l = enc_str(name).len() as int;
    let fl = fmt_str(name).len() as int;
    assert(fl == l + 2);
    assert(s[i] == '"') by {
        assert(s.subrange(i, i + fl)[0] == fmt_str(name)[0]);
    }
    assert(s[i + 1 + l] == '"') by {
        assert(s.subrange(i, i + fl)[1 + l] == fmt_str(name)[1 + l]);
    }
    assert(s.subrange(i + 1, i + 1 + l) =~= enc_str(name)) by {
        assert forall|k: int| 0 <= k < l implies s.subrange(i + 1, i + 1 + l)[k] == enc_str(name)[k]
        by {
            assert(s.subrange(i, i + fl)[k + 1] == fmt_str(name)[k + 1]);
        }
    }
    lemma_p_str_loop_enc(name, s, i + 1, Seq::empty());
    assert(Seq::empty() + name =~= name);
    assert(p_str_loop(s, i + 1 + l, name) == Some((name, i + l + 2)));
}

/// The digit run's end lies between its start and the end of the text,
/// and everything before it is a digit.
pub proof fn lemma_digit_run_end_props(s: Seq<char>, i: int)
    requires
        0 <= i <= s.len(),
    ensures
        i <= digit_run_end(s, i) <= s.len(),
        seq_digits_at(s, i, digit_run_end(s, i)),
    decreases s.len() - i,
{
    if i < s.len() && is_digit(s[i]) {
        lemma_digit_run_end_props(s, i + 1);
    }
}

/// A timestamp text only ever names a real instant.
pub proof fn lemma_p_ts_wf(s: Seq<char>)
    ensures
        p_ts(s) matches Some(t) ==> t.wf(),
{
    if p_ts(s) is Some {
        lemma_val_at_bound(s, 0, 4);
        lemma_val_at_bound(s, 5, 7);
        lemma_val_at_bound(s, 8, 10);
        lemma_val_at_bound(s, 11, 13);
        lemma_val_at_bound(s, 14, 16);
        lemma_val_at_bound(s, 17, 19);
        assert(pow10(4) == 10000 && pow10(2) == 100) by {
            reveal_with_fuel(pow10, 5);
        }
        if s.len() > 19 && s[19] == '.' {
            lemma_digit_run_end_props(s, 20);
            let e = digit_run_end(s, 20);
            lemma_val_at_bound(s, 20, e);
            lemma_pow10_pos((9 - (e - 20)) as nat);
            assert(val_at(s, 20, e) * pow10((9 - (e - 20)) as nat) >= 0) by (nonlinear_arith)
                requires
                    val_at(s, 20, e) >= 0,
                    pow10((9 - (e - 20)) as nat) >= 1,
            ;
        }
    }
}

/// A character the escaper leaves untouched.
pub open spec fn plain_char(c: char) -> bool {
    c != '"' && c != '\\' && (c as u32) >= 32
}

/// A sequence of untouched characters.
pub open spec fn plain_seq(s: Seq<char>) -> bool {
    forall|i: int| 0 <= i < s.len() ==> plain_char(#[trigger] s[i])
}

/// Escaping a plain sequence changes nothing.
pub proof fn lemma_enc_str_plain(s: Seq<char>)
    requires
        plain_seq(s),
    ensures
        enc_str(s) == s,
    decreases s.len(),
{
    if s.len() > 0 {
        assert(plain_char(s[0]));
        assert(esc_char(s[0]) == seq![s[0]]);
        assert(plain_seq(s.drop_first())) by {
            assert forall|i: int| 0 <= i < s.drop_first().len() implies plain_char(
                #[trigger] s.drop_first()[i],
            ) by {
                assert(s.drop_first()[i] == s[i + 1]);
            }
        }
        lemma_enc_str_plain(s.drop_first());
        assert(enc_str(s) =~= s);
    }
}

/// Every character of a number is a digit.
pub proof fn lemma_fmt_u32_digits(n: u32)
    ensures
        forall|i: int| 0 <= i < fmt_u32(n).len() ==> is_digit(#[trigger] fmt_u32(n)[i]),
    decreases n,
{
    if n < 10 {
        lemma_char_of_digit(n as int);
    } else {
        let m = (n as int / 10) as u32;
        lemma_fmt_u32_digits(m);
        lemma_char_of_digit(n as int % 10);
        assert forall|i: int| 0 <= i < fmt_u32(n).len() implies is_digit(
            #[trigger] fmt_u32(n)[i],
        ) by {
            if i < fmt_u32(m).len() {
                assert(fmt_u32(n)[i] == fmt_u32(m)[i]);
            } else {
                assert(fmt_u32(n)[i] == char_of_digit(n as int % 10));
            }
        }
    }
}

/// A padded number's text is plain.
pub proof fn lemma_fmt_pad_plain(n: u32, k: nat)
    ensures
        plain_seq(fmt_pad(n, k)),
{
    lemma_fmt_pad_digits(n, k);
}

/// Concatenation keeps plainness.
pub proof fn lemma_plain_concat(a: Seq<char>, b: Seq<char>)
    requires
        plain_seq(a),
        plain_seq(b),
    ensures
        plain_seq(a + b),
{
    assert forall|i: int| 0 <= i < (a + b).len() implies plain_char(#[trigger] (a + b)[i]) by {
        if i < a.len() {
            assert((a + b)[i] == a[i]);
        } else {
            assert((a + b)[i] == b[i - a.len()]);
        }
    }
}

/// A timestamp's text is plain.
pub proof fn lemma_fmt_ts_plain(t: Timestamp)
    ensures
        plain_seq(fmt_ts(t)),
{
    lemma_fmt_pad_plain(t.year, 4);
    lemma_fmt_pad_plain(t.month, 2);
    lemma_fmt_pad_plain(t.day, 2);
    lemma_fmt_pad_plain(t.hour, 2);
    lemma_fmt_pad_plain(t.minute, 2);
    lemma_fmt_pad_plain(t.second, 2);
    lemma_fmt_pad_plain(t.nanos, 9);
    assert(plain_seq(seq!['-']));
    assert(plain_seq(seq!['T']));
    assert(plain_seq(seq![':']));
    assert(plain_seq(seq!['.']));
    assert(plain_seq(seq!['+', '0', '0', ':', '0', '0']));
    lemma_plain_concat(fmt_pad(t.year, 4), seq!['-']);
    lemma_plain_concat(fmt_pad(t.year, 4) + seq!['-'], fmt_pad(t.month, 2));
    lemma_plain_concat(fmt_pad(t.year, 4) + seq!['-'] + fmt_pad(t.month, 2), seq!['-']);
    lemma_plain_concat(
        fmt_pad(t.year, 4) + seq!['-'] + fmt_pad(t.month, 2) + seq!['-'],
        fmt_pad(t.day, 2),
    );
    lemma_plain_concat(
        fmt_pad(t.year, 4) + seq!['-'] + fmt_pad(t.month, 2) + seq!['-'] + fmt_pad(t.day, 2),
        seq!['T'],
    );
    let a1 = fmt_pad(t.year, 4) + seq!['-'] + fmt_pad(t.month, 2) + seq!['-'] + fmt_pad(t.day, 2)
        + seq!['T'];
    lemma_plain_concat(a1, fmt_pad(t.hour, 2));
    lemma_plain_concat(a1 + fmt_pad(t.hour, 2), seq![':']);
    lemma_plain_concat(a1 + fmt_pad(t.hour, 2) + seq![':'], fmt_pad(t.minute, 2));
    lemma_plain_concat(a1 + fmt_pad(t.hour, 2) + seq![':'] + fmt_pad(t.minute, 2), seq![':']);
    let a2 = a1 + fmt_pad(t.hour, 2) + seq![':'] + fmt_pad(t.minute, 2) + seq![':'];
    lemma_plain_concat(a2, fmt_pad(t.second, 2));
    let a3 = a2 + fmt_pad(t.second, 2);
    let frac: Seq<char> = if t.nanos == 0 {
        Seq::<char>::empty()
    } else {
        seq!['.'] + fmt_pad(t.nanos, 9)
    };
    if t.nanos != 0 {
        lemma_plain_concat(seq!['.'], fmt_pad(t.nanos, 9));
    }
    assert(plain_seq(frac));
    lemma_plain_concat(a3, frac);
    lemma_plain_concat(a3 + frac, seq!['+', '0', '0', ':', '0', '0']);
    assert(fmt_ts(t) == a3 + frac + seq!['+', '0', '0', ':', '0', '0']);
}

} // verus!
