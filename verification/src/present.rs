//! Display text for scan results: sizes, durations, counts and dates, and
//! the display-ready view of a scan summary.

use vstd::prelude::*;
use vstd::arithmetic::power2::{lemma2_to64, lemma2_to64_rest, pow2};
use crate::numbers::{
    as_f64, as_f64_exec, float_quotient, lemma_pow2_monotone, round_half_even, round_half_even_exec, thousandth_f64,
};
use crate::calendar::{civil_date, civil_from_days, lemma_civil_next_day};
use crate::model::{DuplicateFile, DuplicateGroup, MediaInfo, ScanSummary};
use crate::text::{
    all_digits, decimal, decimal_value, digit_char, digit_value, is_digit, lemma_decimal_len, lemma_decimal_reads_back, lemma_padded_reads_back,
    padded, push_char, push_decimal, push_padded, push_text,
};

verus! {

/// `n` in decimal with a comma between each group of three digits.
pub open spec fn count_text(n: nat) -> Seq<char>
    decreases n,
{
    if n < 1000 {
        decimal(n)
    } else {
        count_text(n / 1000) + seq![','] + padded(n % 1000, 3)
    }
}

fn push_count(s: &mut String, n: u64)
    ensures
        final(s)@ == old(s)@ + count_text(n as nat),
    decreases n,
{
    if n < 1000 {
        push_decimal(s, n as u128);
    } else {
        push_count(s, n / 1000);
        push_char(s, ',');
        push_padded(s, (n % 1000) as u128, 3);
        proof {
            assert(count_text(n as nat) == count_text((n / 1000) as nat) + seq![','] + padded((n % 1000) as nat, 3));
        }
    }
}

/// The digits of a number of at least four digits: those of its thousands,
/// then its last three digits, zero-padded.
proof fn lemma_decimal_thousands(a: nat, b: nat)
    requires
        a >= 1,
        b < 1000,
    ensures
        decimal(a * 1000 + b) == decimal(a) + padded(b, 3),
{
    let n = a * 1000 + b;
    assert(n / 10 == a * 100 + b / 10 && n % 10 == b % 10);
    assert((a * 100 + b / 10) / 10 == a * 10 + b / 100 && (a * 100 + b / 10) % 10 == (b / 10) % 10);
    assert((a * 10 + b / 100) / 10 == a && (a * 10 + b / 100) % 10 == b / 100);
    let tail = seq![digit_char(b / 100), digit_char((b / 10) % 10), digit_char(b % 10)];
    assert(decimal(n) == decimal(a) + tail) by {
        assert(decimal(a * 10 + b / 100) == decimal(a).push(digit_char(b / 100)));
        assert(decimal(a * 100 + b / 10) == decimal(a * 10 + b / 100).push(digit_char((b / 10) % 10)));
        assert(decimal(n) == decimal(a * 100 + b / 10).push(digit_char(b % 10)));
    }
    lemma_decimal_len(b);
    if b < 10 {
        assert(padded(b, 3) == tail);
    } else if b < 100 {
        assert(decimal(b) == decimal(b / 10).push(digit_char(b % 10)));
        assert(padded(b, 3) == tail);
    } else {
        assert(decimal(b) == decimal(b / 10).push(digit_char(b % 10)));
        assert(decimal(b / 10) == decimal(b / 100).push(digit_char((b / 10) % 10)));
        assert(padded(b, 3) == tail);
    }
}

/// Leaving the commas out of a count's text gives the number's plain decimal
/// digits: the separators are all that is added.
pub proof fn lemma_count_text_digits(n: nat)
    ensures
        count_text(n).filter(|c: char| c != ',') == decimal(n),
    decreases n,
{
    let keep = |c: char| c != ',';
    lemma_decimal_digits(n);
    if n < 1000 {
        lemma_keeps_all(decimal(n));
    } else {
        lemma_count_text_digits(n / 1000);
        let head = count_text(n / 1000);
        let tail = padded(n % 1000, 3);
        Seq::filter_distributes_over_add(head + seq![','], tail, keep);
        Seq::filter_distributes_over_add(head, seq![','], keep);
        assert(seq![','].filter(keep) =~= Seq::<char>::empty()) by {
            reveal(Seq::filter);
            assert(seq![','].drop_last() =~= Seq::<char>::empty());
        }
        lemma_decimal_digits(n % 1000);
        lemma_decimal_len(n % 1000);
        assert forall|i: int| 0 <= i < tail.len() implies tail[i] != ',' by {
            if decimal(n % 1000).len() < 3 {
                let z = (3 - decimal(n % 1000).len()) as int;
                if i >= z {
                    assert(tail[i] == decimal(n % 1000)[i - z]);
                }
            }
        }
        lemma_keeps_all(tail);
        lemma_decimal_thousands(n / 1000, n % 1000);
        assert(head + seq![','] + tail == count_text(n));
    }
}

proof fn lemma_padded_three(b: nat)
    requires
        b < 1000,
    ensures
        padded(b, 3).len() == 3,
        forall|i: int| 0 <= i < 3 ==> padded(b, 3)[i] != ',',
{
    lemma_decimal_digits(b);
    lemma_decimal_len(b);
    let tail = padded(b, 3);
    assert forall|i: int| 0 <= i < 3 implies tail[i] != ',' by {
        if decimal(b).len() < 3 {
            let z = (3 - decimal(b).len()) as int;
            if i >= z {
                assert(tail[i] == decimal(b)[i - z]);
            }
        }
    }
}

/// A count's text groups its digits in threes from the right: it starts with
/// a digit, and a character is a comma exactly when it stands a multiple of
/// four places from the end, so the first group has one to three digits and
/// every later one three; there is a comma exactly when the count is at
/// least 1000.
pub proof fn lemma_count_text_groups(n: nat)
    ensures
        count_text(n).len() > 0,
        count_text(n)[0] != ',',
        forall|i: int|
            0 <= i < count_text(n).len() ==> (count_text(n)[i] == ',' <==> (count_text(n).len() - i) % 4 == 0),
        (exists|i: int| 0 <= i < count_text(n).len() && count_text(n)[i] == ',') <==> n >= 1000,
    decreases n,
{
    let s = count_text(n);
    if n < 1000 {
        lemma_decimal_len(n);
        lemma_decimal_digits(n);
    } else {
        lemma_count_text_groups(n / 1000);
        lemma_padded_three(n % 1000);
        let t = count_text(n / 1000);
        let tail = padded(n % 1000, 3);
        assert(s == t + seq![','] + tail);
        assert forall|i: int| 0 <= i < s.len() implies (s[i] == ',' <==> (s.len() - i) % 4 == 0) by {
            if i < t.len() {
                assert(s[i] == t[i]);
            } else if i > t.len() {
                assert(s[i] == tail[i - t.len() - 1]);
            }
        }
        assert(s[t.len() as int] == ',');
        assert(s[0] == t[0]);
    }
}

/// No decimal digit is a comma.
proof fn lemma_decimal_digits(n: nat)
    ensures
        forall|i: int| 0 <= i < decimal(n).len() ==> decimal(n)[i] != ',',
    decreases n,
{
    if n >= 10 {
        lemma_decimal_digits(n / 10);
        assert forall|i: int| 0 <= i < decimal(n).len() implies decimal(n)[i] != ',' by {
            if i < decimal(n / 10).len() {
                assert(decimal(n)[i] == decimal(n / 10)[i]);
            }
        }
    }
}

/// A text without commas keeps all its characters when the commas are left out.
proof fn lemma_keeps_all(s: Seq<char>)
    requires
        forall|i: int| 0 <= i < s.len() ==> s[i] != ',',
    ensures
        s.filter(|c: char| c != ',') == s,
    decreases s.len(),
{
    reveal(Seq::filter);
    if s.len() > 0 {
        lemma_keeps_all(s.drop_last());
        assert(s.drop_last().push(s.last()) == s);
    }
}

/// `n` in decimal with thousands separators: `1234567` reads `1,234,567`.
pub fn format_count(n: u64) -> (r: String)
    ensures
        r@ == count_text(n as nat),
{
    let mut s = String::new();
    push_count(&mut s, n);
    s
}

/// The unit a byte count of (`f64`) value `v` is shown in: the largest of
/// B, KB, MB, GB and TB that is at most `v`.
pub open spec fn unit_index(v: nat) -> nat {
    if v >= pow2(40) {
        4
    } else if v >= pow2(30) {
        3
    } else if v >= pow2(20) {
        2
    } else if v >= pow2(10) {
        1
    } else {
        0
    }
}

/// The name of a byte unit.
pub open spec fn unit_name(u: nat) -> Seq<char> {
    if u == 0 {
        seq!['B']
    } else if u == 1 {
        seq!['K', 'B']
    } else if u == 2 {
        seq!['M', 'B']
    } else if u == 3 {
        seq!['G', 'B']
    } else {
        seq!['T', 'B']
    }
}

/// A byte count as text: the count (as an `f64`) in the largest unit it
/// reaches, with one decimal when that unit is above bytes and the value is
/// below ten, none otherwise, rounded half to even, then the unit.
pub open spec fn bytes_text(n: nat) -> Seq<char> {
    if n == 0 {
        seq!['0', ' ', 'B']
    } else {
        let v = as_f64(n);
        let u = unit_index(v);
        let d = pow2(10 * u);
        let number = if u == 0 || v >= 10 * d {
            decimal(round_half_even(v, d))
        } else {
            let r = round_half_even(10 * v, d);
            decimal(r / 10) + seq!['.', digit_char(r % 10)]
        };
        number + seq![' '] + unit_name(u)
    }
}

/// A nonzero byte count reads as a number, a space and its unit. With `v`
/// the count as an `f64` (the count itself below 2^53) and `d` the unit's
/// size, the number is whole bytes for the byte unit and from ten units on,
/// and otherwise has exactly one decimal; either way it lies within half of
/// its last digit's step of `v / d`.
pub proof fn lemma_bytes_number_reads(n: nat)
    requires
        n > 0,
    ensures
        ({
            let v = as_f64(n);
            let u = unit_index(n);
            let d = pow2(10 * u);
            let s = bytes_text(n);
            let tail = seq![' '] + unit_name(u);
            let num = s.subrange(0, s.len() - tail.len());
            &&& n < pow2(53) ==> v == n
            &&& s.len() > tail.len()
            &&& s.subrange(s.len() - tail.len(), s.len() as int) == tail
            &&& (u == 0 || v >= 10 * d) ==> {
                &&& reads_as_integer(num, decimal_value(num))
                &&& -(d as int) <= 2 * (decimal_value(num) * d - v) <= d
            }
            &&& !(u == 0 || v >= 10 * d) ==> exists|j: int|
                {
                    &&& 0 < j && j + 2 == num.len()
                    &&& num[j] == '.'
                    &&& #[trigger] reads_as_integer(num.subrange(0, j), decimal_value(num.subrange(0, j)))
                    &&& is_digit(num[j + 1])
                    &&& -(d as int) <= 2 * ((10 * decimal_value(num.subrange(0, j)) + digit_value(num[j + 1])) * d - 10
                        * v) <= d
                }
        }),
{
    let v = as_f64(n);
    lemma2_to64();
    lemma2_to64_rest();
    if n >= pow2(53) {
        crate::numbers::lemma_as_f64_large(n);
    }
    assert(unit_index(v) == unit_index(n));
    let u = unit_index(n);
    let d = pow2(10 * u);
    let s = bytes_text(n);
    let tail = seq![' '] + unit_name(u);
    if u == 0 || v >= 10 * d {
        let q = round_half_even(v, d);
        crate::numbers::lemma_round_half_even_close(v, d);
        lemma_decimal_reads_back(q);
        lemma_int_text_reads(q as int);
        assert(int_text(q as int) == decimal(q));
        assert(s == decimal(q) + tail);
        assert(s.subrange(0, s.len() - tail.len()) == decimal(q));
        assert(s.subrange(s.len() - tail.len(), s.len() as int) == tail);
    } else {
        let r = round_half_even(10 * v, d);
        crate::numbers::lemma_round_half_even_close(10 * v, d);
        let w = r / 10;
        lemma_decimal_reads_back(w);
        lemma_int_text_reads(w as int);
        assert(int_text(w as int) == decimal(w));
        crate::text::lemma_digit_char_value(r % 10);
        let num = decimal(w) + seq!['.', digit_char(r % 10)];
        assert(s == num + tail);
        assert(s.subrange(0, s.len() - tail.len()) == num);
        assert(s.subrange(s.len() - tail.len(), s.len() as int) == tail);
        let j = decimal(w).len() as int;
        assert(num.subrange(0, j) == decimal(w));
        assert(num[j + 1] == digit_char(r % 10));
        assert(r == 10 * w + r % 10);
        assert(reads_as_integer(num.subrange(0, j), decimal_value(num.subrange(0, j))));
    }
}

/// The byte units, smallest first: B, KB, MB, GB, TB.
pub proof fn lemma_unit_names()
    ensures
        unit_name(0) == seq!['B'],
        unit_name(1) == seq!['K', 'B'],
        unit_name(2) == seq!['M', 'B'],
        unit_name(3) == seq!['G', 'B'],
        unit_name(4) == seq!['T', 'B'],
{
}

/// One file is a `file`, any other count `files`.
pub proof fn lemma_file_nouns(n: nat)
    ensures
        n == 1 ==> noun(n) == seq!['f', 'i', 'l', 'e'],
        n != 1 ==> noun(n) == seq!['f', 'i', 'l', 'e', 's'],
{
}

/// A byte count is shown in the unit its own size reaches: bytes below
/// 2^10, KB below 2^20, MB below 2^30, GB below 2^40, TB from there on (there
/// is no larger unit); a count below 1024 reads as the plain number of bytes.
pub proof fn lemma_bytes_unit(n: nat)
    ensures
        exists|number: Seq<char>| bytes_text(n) == number + seq![' '] + unit_name(#[trigger] unit_index(n)),
        n < 1024 ==> bytes_text(n) == decimal(n) + seq![' ', 'B'],
{
    lemma2_to64();
    lemma2_to64_rest();
    if n == 0 {
        assert(bytes_text(n) == seq!['0'] + seq![' '] + unit_name(unit_index(n)));
    } else {
        let v = as_f64(n);
        if n >= pow2(53) {
            crate::numbers::lemma_as_f64_large(n);
        }
        assert(unit_index(v) == unit_index(n));
        let u = unit_index(v);
        let d = pow2(10 * u);
        let number = if u == 0 || v >= 10 * d {
            decimal(round_half_even(v, d))
        } else {
            let r = round_half_even(10 * v, d);
            decimal(r / 10) + seq!['.', digit_char(r % 10)]
        };
        assert(bytes_text(n) == number + seq![' '] + unit_name(unit_index(n)));
        if n < 1024 {
            assert(d == 1);
            assert(round_half_even(v, 1) == n);
        }
    }
}

fn push_unit(s: &mut String, u: u8)
    requires
        u <= 4,
    ensures
        final(s)@ == old(s)@ + unit_name(u as nat),
{
    if u == 0 {
        push_char(s, 'B');
    } else {
        let c = if u == 1 {
            'K'
        } else if u == 2 {
            'M'
        } else if u == 3 {
            'G'
        } else {
            'T'
        };
        push_char(s, c);
        push_char(s, 'B');
    }
}

fn push_bytes(s: &mut String, n: u64)
    ensures
        final(s)@ == old(s)@ + bytes_text(n as nat),
{
    if n == 0 {
        push_char(s, '0');
        push_char(s, ' ');
        push_char(s, 'B');
        return;
    }
    proof {
        lemma2_to64();
        lemma2_to64_rest();
    }
    let v = as_f64_exec(n);
    let u: u8 = if v >= 0x10000000000 {
        4
    } else if v >= 0x40000000 {
        3
    } else if v >= 0x100000 {
        2
    } else if v >= 0x400 {
        1
    } else {
        0
    };
    let d: u128 = if u == 4 {
        0x10000000000
    } else if u == 3 {
        0x40000000
    } else if u == 2 {
        0x100000
    } else if u == 1 {
        0x400
    } else {
        1
    };
    proof {
        assert(pow2(10 * u as nat) == d);
        assert(unit_index(v as nat) == u);
    }
    if u == 0 || v >= 10 * d {
        let r = round_half_even_exec(v, d);
        push_decimal(s, r);
    } else {
        let r = round_half_even_exec(10 * v, d);
        push_decimal(s, r / 10);
        push_char(s, '.');
        push_char(s, crate::text::digit_of(r % 10));
    }
    push_char(s, ' ');
    push_unit(s, u);
}

/// A byte count for display: `1536` reads `1.5 KB`.
pub fn format_bytes(n: u64) -> (r: String)
    ensures
        r@ == bytes_text(n as nat),
{
    let mut s = String::new();
    push_bytes(&mut s, n);
    s
}

/// Milliseconds as text: below a second as `250ms`, from a second on as
/// seconds with one decimal, as `(ms as f64 / 1000.0)` formats with `{:.1}`
/// (the quotient rounded to an `f64`, then half to even).
pub open spec fn ms_text(ms: nat) -> Seq<char> {
    if ms < 1000 {
        decimal(ms) + seq!['m', 's']
    } else {
        let (q, s) = float_quotient(as_f64(ms), 1000);
        let r = if s >= 0 {
            round_half_even(10 * q, pow2(s as nat))
        } else {
            10 * q * pow2((-s) as nat)
        };
        decimal(r / 10) + seq!['.', digit_char(r % 10), 's']
    }
}

/// `r` tenths of a second as text: `w.ds`.
pub open spec fn tenths_text(r: nat) -> Seq<char> {
    decimal(r / 10) + seq!['.', digit_char(r % 10), 's']
}

/// An elapsed time below a second reads as whole milliseconds, `250ms`; from
/// a second on, it reads as seconds with exactly one decimal, `1.5s`.
pub proof fn lemma_ms_text_shape(ms: nat)
    ensures
        ms < 1000 ==> ms_text(ms) == decimal(ms) + seq!['m', 's'],
        ms >= 1000 ==> exists|r: nat| ms_text(ms) == #[trigger] tenths_text(r),
{
    if ms >= 1000 {
        let (q, sc) = float_quotient(as_f64(ms), 1000);
        let r = if sc >= 0 {
            round_half_even(10 * q, pow2(sc as nat))
        } else {
            10 * q * pow2((-sc) as nat)
        };
        assert(ms_text(ms) == tenths_text(r));
    }
}

/// From a second on, an elapsed time reads as seconds with exactly one
/// decimal, `w.d` with `r = 10 * w + d`, and the shown value `r / 10` lies
/// within 0.05 s of the true `ms / 1000` (for counts up to 2^53 ms, which
/// an `f64` holds exactly).
pub proof fn lemma_ms_text_close(ms: nat)
    requires
        1000 <= ms <= pow2(53),
    ensures
        exists|r: nat| ms_text(ms) == #[trigger] tenths_text(r) && ms - 50 <= 100 * r <= ms + 50,
{
    lemma2_to64();
    lemma2_to64_rest();
    if ms == pow2(53) {
        crate::numbers::lemma_bit_length_range(ms, 53);
        crate::numbers::lemma_bit_length_range(ms, 54);
        assert(crate::numbers::bit_length(ms) == 54);
        assert(pow2((crate::numbers::bit_length(ms) - 53) as nat) == 2);
        assert(round_half_even(ms, 2) == pow2(52));
        assert(as_f64(ms) == round_half_even(ms, 2) * 2);
        assert(pow2(52) * 2 == pow2(53));
    }
    assert(as_f64(ms) == ms);
    let b = crate::numbers::bit_length(ms / 1000);
    assert(ms / 1000 < pow2(44)) by {
        assert(ms < 1000 * pow2(44));
    }
    assert(ms / 1000 >= 1);
    crate::numbers::lemma_bit_length_range(ms / 1000, 44);
    crate::numbers::lemma_bit_length_range(ms / 1000, 0);
    let (q, sc) = float_quotient(ms, 1000);
    assert(sc == 52 - (b - 1));
    assert(sc >= 9);
    let p = pow2(sc as nat);
    crate::numbers::lemma_pow2_monotone(9, sc as nat);
    assert(q == round_half_even(ms * p, 1000));
    let r = round_half_even(10 * q, p);
    crate::numbers::lemma_round_half_even_close(ms * p, 1000);
    crate::numbers::lemma_round_half_even_close(10 * q, p);
    let e1 = 1000 * q - ms * p;
    let e2 = p * r - 10 * q;
    let dd = 100 * r - ms;
    assert(p * dd == e1 + 100 * e2) by (nonlinear_arith)
        requires
            e1 == 1000 * q - ms * p,
            e2 == p * r - 10 * q,
            dd == 100 * r - ms,
    ;
    if dd > 50 {
        assert(p * dd >= p * 51) by (nonlinear_arith)
            requires
                dd >= 51,
                p > 0,
        ;
    }
    if dd < -50 {
        assert(p * dd <= p * -51) by (nonlinear_arith)
            requires
                dd <= -51,
                p > 0,
        ;
    }
    assert(ms_text(ms) == tenths_text(r));
}

/// An elapsed time in milliseconds for display.
pub fn format_ms(ms: u64) -> (r: String)
    ensures
        r@ == ms_text(ms as nat),
{
    let mut s = String::new();
    if ms < 1000 {
        push_decimal(&mut s, ms as u128);
        push_char(&mut s, 'm');
        push_char(&mut s, 's');
        return s;
    }
    let v = as_f64_exec(ms);
    proof {
        lemma2_to64();
        lemma2_to64_rest();
    }
    let (q, sc) = thousandth_f64(v);
    let r: u128 = if sc >= 0 {
        let p = crate::numbers::pow2_exec(sc as u32);
        round_half_even_exec(10 * q, p)
    } else {
        let p = crate::numbers::pow2_exec((-sc) as u32);
        proof {
            lemma_pow2_monotone((-sc) as nat, 2);
            assert(10 * q * p <= 10 * 0x100000000000000000000000000000u128 * 4) by (nonlinear_arith)
                requires
                    q <= 0x100000000000000000000000000000u128,
                    p <= 4,
            ;
        }
        10 * q * p
    };
    push_decimal(&mut s, r / 10);
    push_char(&mut s, '.');
    push_char(&mut s, crate::text::digit_of(r % 10));
    push_char(&mut s, 's');
    s
}

/// A duration given in microseconds, rounded to whole milliseconds (half
/// up), as hours, minutes (below 60), seconds (below 60) and milliseconds
/// (below 1000).
pub open spec fn duration_parts(micros: nat) -> (nat, nat, nat, nat) {
    let total_ms = (micros + 500) / 1000;
    let total_sec = total_ms / 1000;
    let total_min = total_sec / 60;
    (total_min / 60, total_min % 60, total_sec % 60, total_ms % 1000)
}

/// A duration given in microseconds as text, rounded to whole milliseconds
/// (half up): `m:ss.mmm`, or `h:mm:ss.mmm` from an hour on.
pub open spec fn duration_text(micros: nat) -> Seq<char> {
    let (h, min, sec, ms) = duration_parts(micros);
    let rest = seq![':'] + padded(sec, 2) + seq!['.'] + padded(ms, 3);
    if h > 0 {
        decimal(h) + seq![':'] + padded(min, 2) + rest
    } else {
        decimal(min) + rest
    }
}

/// A duration reads as its length rounded to whole milliseconds: with `t`
/// that many milliseconds, the text ends in `:ss.mmm`, where `mmm` is
/// exactly three digits reading `t % 1000` and `ss` two digits reading the
/// seconds `t / 1000 % 60`; before it stand the minutes `t / 60000` when
/// under an hour, and otherwise the hours `t / 3600000`, a colon and two
/// digits for the minutes `t / 60000 % 60`; so the parts add back up to `t`.
pub proof fn lemma_duration_text_reads(micros: nat)
    ensures
        ({
            let t = (micros + 500) / 1000;
            let s = duration_text(micros);
            let n = s.len() as int;
            &&& n >= 8
            &&& s[n - 4] == '.'
            &&& all_digits(s.subrange(n - 3, n))
            &&& decimal_value(s.subrange(n - 3, n)) == t % 1000
            &&& s[n - 7] == ':'
            &&& all_digits(s.subrange(n - 6, n - 4))
            &&& decimal_value(s.subrange(n - 6, n - 4)) == (t / 1000) % 60
            &&& t < 3600000 ==> reads_as_integer(s.subrange(0, n - 7), (t / 60000) as int)
            &&& t >= 3600000 ==> {
                &&& n >= 11
                &&& s[n - 10] == ':'
                &&& all_digits(s.subrange(n - 9, n - 7))
                &&& decimal_value(s.subrange(n - 9, n - 7)) == (t / 60000) % 60
                &&& reads_as_integer(s.subrange(0, n - 10), (t / 3600000) as int)
            }
        }),
{
    let t = (micros + 500) / 1000;
    let (h, min, sec, ms) = duration_parts(micros);
    vstd::arithmetic::div_mod::lemma_div_denominator(t as int, 1000, 60);
    vstd::arithmetic::div_mod::lemma_div_denominator(t as int, 60000, 60);
    assert(min == (t / 60000) % 60);
    assert(h == t / 3600000);
    lemma_padded_reads_back(sec, 2);
    lemma_padded_reads_back(ms, 3);
    let s = duration_text(micros);
    let tail = seq![':'] + padded(sec, 2) + seq!['.'] + padded(ms, 3);
    let n = s.len() as int;
    assert(tail.len() == 7);
    if h > 0 {
        lemma_padded_reads_back(min, 2);
        lemma_int_text_reads(h as int);
        let lead = decimal(h) + seq![':'] + padded(min, 2);
        assert(s == lead + tail);
        assert(int_text(h as int) == decimal(h));
        lemma_decimal_len(h);
        assert(s.subrange(0, n - 10) == decimal(h));
        assert(s.subrange(n - 9, n - 7) == padded(min, 2));
    } else {
        lemma_int_text_reads(min as int);
        lemma_decimal_len(min);
        assert(int_text(min as int) == decimal(min));
        assert(s == decimal(min) + tail);
        assert(s.subrange(0, n - 7) == decimal(min));
        assert(min == t / 60000);
    }
    assert(s.subrange(n - 3, n) == padded(ms, 3));
    assert(s.subrange(n - 6, n - 4) == padded(sec, 2));
}

fn duration_parts_of(micros: u64) -> (r: (u128, u128, u128, u128))
    ensures
        (r.0 as nat, r.1 as nat, r.2 as nat, r.3 as nat) == duration_parts(micros as nat),
{
    let total_ms: u128 = (micros as u128 + 500) / 1000;
    let total_sec = total_ms / 1000;
    let total_min = total_sec / 60;
    (total_min / 60, total_min % 60, total_sec % 60, total_ms % 1000)
}

pub(crate) fn push_duration(s: &mut String, micros: u64)
    ensures
        final(s)@ == old(s)@ + duration_text(micros as nat),
{
    let ghost start = s@;
    let (h, min, sec, ms) = duration_parts_of(micros);
    if h > 0 {
        push_decimal(s, h);
        push_char(s, ':');
        push_padded(s, min, 2);
    } else {
        push_decimal(s, min);
    }
    let ghost lead = s@;
    push_char(s, ':');
    push_padded(s, sec, 2);
    push_char(s, '.');
    push_padded(s, ms, 3);
    proof {
        let rest = seq![':'] + padded(sec as nat, 2) + seq!['.'] + padded(ms as nat, 3);
        assert(s@ == lead + rest);
        if h > 0 {
            assert(lead == start + (decimal(h as nat) + seq![':'] + padded(min as nat, 2)));
        } else {
            assert(lead == start + decimal(min as nat));
        }
    }
}

/// A media duration for display: 65.25 seconds reads `1:05.250`.
pub fn format_duration(micros: u64) -> (r: String)
    ensures
        r@ == duration_text(micros as nat),
{
    let mut s = String::new();
    push_duration(&mut s, micros);
    s
}

/// An integer in decimal, with a minus sign when negative.
pub open spec fn int_text(n: int) -> Seq<char> {
    if n < 0 {
        seq!['-'] + decimal((-n) as nat)
    } else {
        decimal(n as nat)
    }
}

/// The three-letter English name of month `m` (1 to 12).
pub open spec fn month_name(m: int) -> Seq<char> {
    if m == 1 {
        seq!['J', 'a', 'n']
    } else if m == 2 {
        seq!['F', 'e', 'b']
    } else if m == 3 {
        seq!['M', 'a', 'r']
    } else if m == 4 {
        seq!['A', 'p', 'r']
    } else if m == 5 {
        seq!['M', 'a', 'y']
    } else if m == 6 {
        seq!['J', 'u', 'n']
    } else if m == 7 {
        seq!['J', 'u', 'l']
    } else if m == 8 {
        seq!['A', 'u', 'g']
    } else if m == 9 {
        seq!['S', 'e', 'p']
    } else if m == 10 {
        seq!['O', 'c', 't']
    } else if m == 11 {
        seq!['N', 'o', 'v']
    } else {
        seq!['D', 'e', 'c']
    }
}

/// The English month abbreviations, January first.
pub open spec fn month_abbreviations() -> Seq<Seq<char>> {
    seq![
        seq!['J', 'a', 'n'],
        seq!['F', 'e', 'b'],
        seq!['M', 'a', 'r'],
        seq!['A', 'p', 'r'],
        seq!['M', 'a', 'y'],
        seq!['J', 'u', 'n'],
        seq!['J', 'u', 'l'],
        seq!['A', 'u', 'g'],
        seq!['S', 'e', 'p'],
        seq!['O', 'c', 't'],
        seq!['N', 'o', 'v'],
        seq!['D', 'e', 'c'],
    ]
}

/// Month `m` (1 to 12) reads as the `m`-th of Jan, Feb, Mar, Apr, May, Jun,
/// Jul, Aug, Sep, Oct, Nov, Dec, and no two months read alike.
pub proof fn lemma_month_names()
    ensures
        forall|m: int| 1 <= m <= 12 ==> #[trigger] month_name(m) == month_abbreviations()[m - 1],
        forall|a: int, b: int| 1 <= a <= 12 && 1 <= b <= 12 && a != b ==> #[trigger] month_name(a) != #[trigger] month_name(b),
{
    let t = month_abbreviations();
    assert forall|m: int| 1 <= m <= 12 implies #[trigger] month_name(m) == month_abbreviations()[m - 1] by {
        assert(month_name(m) =~= t[m - 1]);
    }
    assert(t[0][0] != t[1][0]);
    assert(t[0][0] != t[2][0]);
    assert(t[0][0] != t[3][0]);
    assert(t[0][0] != t[4][0]);
    assert(t[0][1] != t[5][1]);
    assert(t[0][1] != t[6][1]);
    assert(t[0][0] != t[7][0]);
    assert(t[0][0] != t[8][0]);
    assert(t[0][0] != t[9][0]);
    assert(t[0][0] != t[10][0]);
    assert(t[0][0] != t[11][0]);
    assert(t[1][0] != t[2][0]);
    assert(t[1][0] != t[3][0]);
    assert(t[1][0] != t[4][0]);
    assert(t[1][0] != t[5][0]);
    assert(t[1][0] != t[6][0]);
    assert(t[1][0] != t[7][0]);
    assert(t[1][0] != t[8][0]);
    assert(t[1][0] != t[9][0]);
    assert(t[1][0] != t[10][0]);
    assert(t[1][0] != t[11][0]);
    assert(t[2][0] != t[3][0]);
    assert(t[2][2] != t[4][2]);
    assert(t[2][0] != t[5][0]);
    assert(t[2][0] != t[6][0]);
    assert(t[2][0] != t[7][0]);
    assert(t[2][0] != t[8][0]);
    assert(t[2][0] != t[9][0]);
    assert(t[2][0] != t[10][0]);
    assert(t[2][0] != t[11][0]);
    assert(t[3][0] != t[4][0]);
    assert(t[3][0] != t[5][0]);
    assert(t[3][0] != t[6][0]);
    assert(t[3][1] != t[7][1]);
    assert(t[3][0] != t[8][0]);
    assert(t[3][0] != t[9][0]);
    assert(t[3][0] != t[10][0]);
    assert(t[3][0] != t[11][0]);
    assert(t[4][0] != t[5][0]);
    assert(t[4][0] != t[6][0]);
    assert(t[4][0] != t[7][0]);
    assert(t[4][0] != t[8][0]);
    assert(t[4][0] != t[9][0]);
    assert(t[4][0] != t[10][0]);
    assert(t[4][0] != t[11][0]);
    assert(t[5][2] != t[6][2]);
    assert(t[5][0] != t[7][0]);
    assert(t[5][0] != t[8][0]);
    assert(t[5][0] != t[9][0]);
    assert(t[5][0] != t[10][0]);
    assert(t[5][0] != t[11][0]);
    assert(t[6][0] != t[7][0]);
    assert(t[6][0] != t[8][0]);
    assert(t[6][0] != t[9][0]);
    assert(t[6][0] != t[10][0]);
    assert(t[6][0] != t[11][0]);
    assert(t[7][0] != t[8][0]);
    assert(t[7][0] != t[9][0]);
    assert(t[7][0] != t[10][0]);
    assert(t[7][0] != t[11][0]);
    assert(t[8][0] != t[9][0]);
    assert(t[8][0] != t[10][0]);
    assert(t[8][0] != t[11][0]);
    assert(t[9][0] != t[10][0]);
    assert(t[9][0] != t[11][0]);
    assert(t[10][0] != t[11][0]);
    assert forall|a: int, b: int| 1 <= a <= 12 && 1 <= b <= 12 && a != b implies #[trigger] month_name(a)
        != #[trigger] month_name(b) by {
        assert(month_name(a) == t[a - 1] && month_name(b) == t[b - 1]);
        if a < b {
            assert(t[a - 1] != t[b - 1]);
        } else {
            assert(t[b - 1] != t[a - 1]);
        }
    }
}

/// A Unix time as a short date, `Mar 5` in the year of `now`, `Mar 5, 2021`
/// otherwise (both in UTC).
pub open spec fn date_text(secs: int, now: int) -> Seq<char> {
    let (y, m, d) = civil_date(secs / 86400);
    let (now_year, _, _) = civil_date(now / 86400);
    if y == now_year {
        month_name(m) + seq![' '] + int_text(d)
    } else {
        month_name(m) + seq![' '] + int_text(d) + seq![',', ' '] + int_text(y)
    }
}

/// `t` reads as the integer `n`: its digits, after a minus sign when `n` is
/// negative, with no leading zero.
pub open spec fn reads_as_integer(t: Seq<char>, n: int) -> bool {
    let digits = if n < 0 { t.subrange(1, t.len() as int) } else { t };
    &&& n < 0 ==> t.len() > 0 && t[0] == '-'
    &&& digits.len() > 0
    &&& all_digits(digits)
    &&& decimal_value(digits) == if n < 0 { -n } else { n }
    &&& (digits.len() > 1 ==> digits[0] != '0')
}

proof fn lemma_int_text_reads(n: int)
    ensures
        reads_as_integer(int_text(n), n),
{
    let k: nat = if n < 0 { (-n) as nat } else { n as nat };
    lemma_decimal_reads_back(k);
    if n < 0 {
        assert(int_text(n).subrange(1, int_text(n).len() as int) =~= decimal(k));
    }
}

/// A file date reads as the month's abbreviation, a space and the day of
/// the month; when the date falls in another year than `now`, a comma, a
/// space and the year follow, and otherwise nothing does.
pub proof fn lemma_date_text_reads(secs: int, now: int)
    ensures
        ({
            let (y, m, d) = civil_date(secs / 86400);
            let (now_year, _, _) = civil_date(now / 86400);
            let t = date_text(secs, now);
            exists|k: int|
                {
                    &&& 5 <= k <= 6
                    &&& k <= t.len()
                    &&& t.subrange(0, 3) == month_abbreviations()[m - 1]
                    &&& t[3] == ' '
                    &&& #[trigger] reads_as_integer(t.subrange(4, k), d)
                    &&& (y == now_year <==> k == t.len())
                    &&& y != now_year ==> t[k] == ',' && t[k + 1] == ' ' && reads_as_integer(
                        t.subrange(k + 2, t.len() as int),
                        y,
                    )
                }
        }),
{
    let (y, m, d) = civil_date(secs / 86400);
    let (now_year, _, _) = civil_date(now / 86400);
    let t = date_text(secs, now);
    lemma_civil_next_day(secs / 86400);
    lemma_month_names();
    lemma_int_text_reads(d);
    lemma_int_text_reads(y);
    lemma_decimal_len(d as nat);
    let dt = int_text(d);
    let k: int = 4 + dt.len() as int;
    assert(month_name(m).len() == 3);
    assert(t.subrange(0, 3) == month_name(m));
    assert(t.subrange(4, k) == dt);
    if y != now_year {
        assert(t.subrange(k + 2, t.len() as int) == int_text(y));
    }
    assert(reads_as_integer(t.subrange(4, k), d));
}

/// The date text of an optional Unix time; empty when there is none.
pub open spec fn maybe_date_text(secs: Option<i64>, now: int) -> Seq<char> {
    match secs {
        None => Seq::empty(),
        Some(t) => date_text(t as int, now),
    }
}

fn push_int(s: &mut String, n: i64)
    ensures
        final(s)@ == old(s)@ + int_text(n as int),
{
    if n < 0 {
        push_char(s, '-');
        push_decimal(s, (-(n as i128)) as u128);
    } else {
        push_decimal(s, n as u128);
    }
}

fn push_month(s: &mut String, m: u32)
    requires
        1 <= m <= 12,
    ensures
        final(s)@ == old(s)@ + month_name(m as int),
{
    let (a, b, c) = if m == 1 {
        ('J', 'a', 'n')
    } else if m == 2 {
        ('F', 'e', 'b')
    } else if m == 3 {
        ('M', 'a', 'r')
    } else if m == 4 {
        ('A', 'p', 'r')
    } else if m == 5 {
        ('M', 'a', 'y')
    } else if m == 6 {
        ('J', 'u', 'n')
    } else if m == 7 {
        ('J', 'u', 'l')
    } else if m == 8 {
        ('A', 'u', 'g')
    } else if m == 9 {
        ('S', 'e', 'p')
    } else if m == 10 {
        ('O', 'c', 't')
    } else if m == 11 {
        ('N', 'o', 'v')
    } else {
        ('D', 'e', 'c')
    };
    push_char(s, a);
    push_char(s, b);
    push_char(s, c);
}

/// The day number (days since 1970-01-01, rounded down) of a Unix time.
fn day_of(secs: i64) -> (r: i64)
    ensures
        r == (secs as int) / 86400,
        -200_000_000_000_000 <= r <= 200_000_000_000_000,
{
    let shifted: u128 = (secs as i128 + 86400 * 0x800000000000i128) as u128;
    let days = (shifted / 86400) as i128 - 0x800000000000i128;
    days as i64
}

fn push_date(s: &mut String, secs: i64, now: i64)
    ensures
        final(s)@ == old(s)@ + date_text(secs as int, now as int),
{
    let (y, m, d) = civil_from_days(day_of(secs));
    let (now_year, _, _) = civil_from_days(day_of(now));
    push_month(s, m);
    push_char(s, ' ');
    push_int(s, d as i64);
    if y != now_year {
        push_char(s, ',');
        push_char(s, ' ');
        push_int(s, y);
    }
}

/// A file's modification date for display, as of the time `now_secs`.
pub fn format_date_at(unix_secs: Option<i64>, now_secs: i64) -> (r: String)
    ensures
        r@ == maybe_date_text(unix_secs, now_secs as int),
{
    let mut s = String::new();
    match unix_secs {
        None => {},
        Some(secs) => push_date(&mut s, secs, now_secs),
    }
    s
}

/// The current time in whole seconds since the Unix epoch, from
/// `std::time::SystemTime::now`; 0 when the clock reads before the epoch.
/// Nothing is stated of the value: it is the clock's.
#[verifier::external_body]
fn now_unix_secs() -> (r: i64) {
    std::time::SystemTime::now().duration_since(std::time::UNIX_EPOCH).map(|d| d.as_secs() as i64).unwrap_or(0)
}

/// A file's modification date for display, as of now: the year is left out
/// for dates in the current year.
pub fn format_date(unix_secs: Option<i64>) -> (r: String)
    ensures
        exists|now: i64| r@ == maybe_date_text(unix_secs, now as int),
{
    let now = now_unix_secs();
    format_date_at(unix_secs, now)
}

/// The upper-case form of a string, as `str::to_uppercase` computes it.
pub uninterp spec fn uppercase(s: Seq<char>) -> Seq<char>;

/// `str::to_uppercase`.
#[verifier::external_body]
fn to_uppercase(s: &str) -> (r: String)
    ensures
        r@ == uppercase(s@),
{
    s.to_uppercase()
}

/// The media details of a file for display: `1920×1080 H264 1:05.250`, with
/// the dimensions only when both are known and the codec only when known.
pub open spec fn badge_text(m: MediaInfo) -> Seq<char> {
    let dims = match (m.width, m.height) {
        (Some(w), Some(h)) => decimal(w as nat) + seq!['\u{d7}'] + decimal(h as nat) + seq![' '],
        _ => Seq::empty(),
    };
    let codec = match m.codec {
        Some(c) => uppercase(c@) + seq![' '],
        None => Seq::empty(),
    };
    dims + codec + duration_text(m.duration_micros as nat)
}

/// A media badge names the upper-cased codec followed by a space whenever
/// the codec is known, whether or not the dimensions are; when both
/// dimensions are known it starts with the width, `×`, the height and a
/// space; and it always ends with the duration's text.
pub proof fn lemma_badge_reads(m: MediaInfo)
    ensures
        ({
            let b = badge_text(m);
            let dur = duration_text(m.duration_micros as nat);
            &&& b.len() >= dur.len()
            &&& b.subrange(b.len() - dur.len(), b.len() as int) == dur
            &&& m.codec matches Some(c) ==> exists|i: int|
                0 <= i && i + uppercase(c@).len() + 1 <= b.len() && #[trigger] b.subrange(
                    i,
                    i + uppercase(c@).len() + 1,
                ) == uppercase(c@) + seq![' ']
            &&& m.width is Some && m.height is Some ==> exists|j: int, k: int|
                {
                    &&& 0 < j < k < b.len()
                    &&& #[trigger] reads_as_integer(b.subrange(0, j), m.width.unwrap() as int)
                    &&& b[j] == '\u{d7}'
                    &&& #[trigger] reads_as_integer(b.subrange(j + 1, k), m.height.unwrap() as int)
                    &&& b[k] == ' '
                }
        }),
{
    let b = badge_text(m);
    let dims = match (m.width, m.height) {
        (Some(w), Some(h)) => decimal(w as nat) + seq!['\u{d7}'] + decimal(h as nat) + seq![' '],
        _ => Seq::empty(),
    };
    let codec_part = match m.codec {
        Some(c) => uppercase(c@) + seq![' '],
        None => Seq::empty(),
    };
    let dur = duration_text(m.duration_micros as nat);
    assert(b == dims + codec_part + dur);
    assert(b.subrange(b.len() - dur.len(), b.len() as int) == dur);
    match m.codec {
        Some(c) => {
            let i = dims.len() as int;
            assert(b.subrange(i, i + uppercase(c@).len() + 1) == codec_part);
        },
        None => {},
    }
    match (m.width, m.height) {
        (Some(w), Some(h)) => {
            lemma_int_text_reads(w as int);
            lemma_int_text_reads(h as int);
            assert(int_text(w as int) == decimal(w as nat));
            assert(int_text(h as int) == decimal(h as nat));
            lemma_decimal_reads_back(w as nat);
            lemma_decimal_reads_back(h as nat);
            let j = decimal(w as nat).len() as int;
            let k = j + 1 + decimal(h as nat).len();
            assert(b.subrange(0, j) == decimal(w as nat));
            assert(b.subrange(j + 1, k) == decimal(h as nat));
            assert(b[j] == '\u{d7}');
            assert(b[k] == ' ');
            assert(reads_as_integer(b.subrange(0, j), w as int));
            assert(reads_as_integer(b.subrange(j + 1, k), h as int));
        },
        _ => {},
    }
}

fn push_badge(s: &mut String, m: &MediaInfo)
    ensures
        final(s)@ == old(s)@ + badge_text(*m),
{
    let ghost start = s@;
    match (m.width, m.height) {
        (Some(w), Some(h)) => {
            push_decimal(s, w as u128);
            push_char(s, '\u{d7}');
            push_decimal(s, h as u128);
            push_char(s, ' ');
        },
        _ => {},
    }
    let ghost after_dims = s@;
    match &m.codec {
        Some(c) => {
            let upper = to_uppercase(c.as_str());
            push_text(s, upper.as_str());
            push_char(s, ' ');
        },
        None => {},
    }
    push_duration(s, m.duration_micros);
    proof {
        let dims = match (m.width, m.height) {
            (Some(w), Some(h)) => decimal(w as nat) + seq!['\u{d7}'] + decimal(h as nat) + seq![' '],
            _ => Seq::empty(),
        };
        assert(after_dims == start + dims);
    }
}

/// A duplicate file as the results list shows it.
pub struct FileView {
    pub path: String,
    pub size: u64,
    pub size_text: String,
    pub detail_text: String,
    pub playable: bool,
}

/// A duplicate group as the results list shows it.
pub struct GroupView {
    pub files: Vec<FileView>,
    pub header_left: String,
    pub header_right: String,
}

/// A scan summary as the results page shows it.
pub struct ScanSummaryView {
    pub exact_groups: Vec<GroupView>,
    pub media_groups: Vec<GroupView>,
    pub files_scanned_text: String,
    pub reclaimable_text: String,
    pub elapsed_text: String,
    pub ffmpeg_available: bool,
}

/// The detail shown for a file: its media details, or else its date.
pub open spec fn detail_text(f: DuplicateFile, now: int) -> Seq<char> {
    match f.media {
        Some(m) => badge_text(m),
        None => maybe_date_text(f.entry.modified, now),
    }
}

/// `v` shows file `f` as of time `now`.
pub open spec fn shows_file(v: FileView, f: DuplicateFile, now: int) -> bool {
    &&& v.path@ == f.entry.path@
    &&& v.size == f.entry.size
    &&& v.size_text@ == bytes_text(f.entry.size as nat)
    &&& v.detail_text@ == detail_text(f, now)
    &&& v.playable == f.media is Some
}

fn present_file(file: &DuplicateFile, now: i64) -> (r: FileView)
    ensures
        shows_file(r, *file, now as int),
{
    let mut detail = String::new();
    match &file.media {
        Some(m) => push_badge(&mut detail, m),
        None => {
            detail = format_date_at(file.entry.modified, now);
        },
    }
    FileView {
        path: file.entry.path.clone(),
        size: file.entry.size,
        size_text: format_bytes(file.entry.size),
        detail_text: detail,
        playable: file.media.is_some(),
    }
}

/// The kinds of groups a summary lists.
#[derive(Clone, Copy, Debug, PartialEq, Eq, Structural)]
pub enum GroupKind {
    Exact,
    Media,
}

/// `file` or `files`, as the count asks.
pub open spec fn noun(n: nat) -> Seq<char> {
    if n == 1 {
        seq!['f', 'i', 'l', 'e']
    } else {
        seq!['f', 'i', 'l', 'e', 's']
    }
}

/// The largest media duration among the files, if any file has media details.
pub open spec fn longest(files: Seq<DuplicateFile>) -> Option<nat>
    decreases files.len(),
{
    if files.len() == 0 {
        None
    } else {
        let rest = longest(files.drop_last());
        match files.last().media {
            None => rest,
            Some(m) => match rest {
                None => Some(m.duration_micros as nat),
                Some(d) => Some(if m.duration_micros > d { m.duration_micros as nat } else { d }),
            },
        }
    }
}

/// The smallest media duration among the files, if any file has media details.
pub open spec fn shortest(files: Seq<DuplicateFile>) -> Option<nat>
    decreases files.len(),
{
    if files.len() == 0 {
        None
    } else {
        let rest = shortest(files.drop_last());
        match files.last().media {
            None => rest,
            Some(m) => match rest {
                None => Some(m.duration_micros as nat),
                Some(d) => Some(if m.duration_micros < d { m.duration_micros as nat } else { d }),
            },
        }
    }
}

/// The spread of the media durations of the files in seconds with two
/// decimals (rounded half to even); `-inf` when no file has media details,
/// as the spread of no durations is.
pub open spec fn spread_text(files: Seq<DuplicateFile>) -> Seq<char> {
    match (longest(files), shortest(files)) {
        (Some(hi), Some(lo)) => {
            let r = round_half_even((hi - lo) as nat, 10000);
            decimal(r / 100) + seq!['.'] + padded(r % 100, 2)
        },
        _ => seq!['-', 'i', 'n', 'f'],
    }
}

/// The longest media duration is one of the files' durations and no file
/// lasts longer; the shortest is one of them and no file is shorter; both
/// are missing exactly when no file has media details.
pub proof fn lemma_duration_extremes(files: Seq<DuplicateFile>)
    ensures
        longest(files) is None <==> shortest(files) is None,
        longest(files) is None <==> forall|i: int| 0 <= i < files.len() ==> (#[trigger] files[i]).media is None,
        longest(files) matches Some(hi) ==> (exists|i: int|
            0 <= i < files.len() && (#[trigger] files[i]).media is Some && files[i].media.unwrap().duration_micros == hi)
            && forall|i: int| 0 <= i < files.len() && (#[trigger] files[i]).media is Some
                ==> files[i].media.unwrap().duration_micros <= hi,
        shortest(files) matches Some(lo) ==> (exists|i: int|
            0 <= i < files.len() && (#[trigger] files[i]).media is Some && files[i].media.unwrap().duration_micros == lo)
            && forall|i: int| 0 <= i < files.len() && (#[trigger] files[i]).media is Some
                ==> files[i].media.unwrap().duration_micros >= lo,
    decreases files.len(),
{
    if files.len() > 0 {
        let rest = files.drop_last();
        lemma_duration_extremes(rest);
        let n = files.len() - 1;
        assert(files[n] == files.last());
        assert forall|i: int| 0 <= i < rest.len() implies #[trigger] rest[i] == files[i] by {}
        if longest(files) is None {
            assert forall|i: int| 0 <= i < files.len() implies (#[trigger] files[i]).media is None by {
                if i < n {
                    assert(rest[i] == files[i]);
                }
            }
        }
        match longest(files) {
            Some(hi) => {
                if files.last().media is Some && (longest(rest) is None || files.last().media.unwrap().duration_micros > longest(rest).unwrap()) {
                    assert(files[n].media.unwrap().duration_micros == hi);
                } else {
                    let j = choose|j: int| 0 <= j < rest.len() && (#[trigger] rest[j]).media is Some && rest[j].media.unwrap().duration_micros == longest(rest).unwrap();
                    assert(files[j] == rest[j]);
                }
                assert forall|i: int| 0 <= i < files.len() && (#[trigger] files[i]).media is Some implies files[i].media.unwrap().duration_micros <= hi by {
                    if i < n {
                        assert(rest[i] == files[i]);
                    }
                }
            },
            None => {},
        }
        match shortest(files) {
            Some(lo) => {
                if files.last().media is Some && (shortest(rest) is None || files.last().media.unwrap().duration_micros < shortest(rest).unwrap()) {
                    assert(files[n].media.unwrap().duration_micros == lo);
                } else {
                    let j = choose|j: int| 0 <= j < rest.len() && (#[trigger] rest[j]).media is Some && rest[j].media.unwrap().duration_micros == shortest(rest).unwrap();
                    assert(files[j] == rest[j]);
                }
                assert forall|i: int| 0 <= i < files.len() && (#[trigger] files[i]).media is Some implies files[i].media.unwrap().duration_micros >= lo by {
                    if i < n {
                        assert(rest[i] == files[i]);
                    }
                }
            },
            None => {},
        }
    }
}

/// The spread of a group's durations reads as seconds with exactly two
/// decimals, and the value shown lies within half a hundredth of a second
/// of the longest duration minus the shortest; with no durations it reads
/// `-inf`.
pub proof fn lemma_spread_text_reads(files: Seq<DuplicateFile>)
    ensures
        ({
            let s = spread_text(files);
            let n = s.len() as int;
            match (longest(files), shortest(files)) {
                (Some(hi), Some(lo)) => {
                    &&& n >= 4
                    &&& s[n - 3] == '.'
                    &&& reads_as_integer(s.subrange(0, n - 3), decimal_value(s.subrange(0, n - 3)))
                    &&& all_digits(s.subrange(n - 2, n))
                    &&& -5000 <= 10000 * (100 * decimal_value(s.subrange(0, n - 3)) + decimal_value(
                        s.subrange(n - 2, n),
                    )) - (hi - lo) <= 5000
                },
                _ => s == seq!['-', 'i', 'n', 'f'],
            }
        }),
{
    lemma_shortest_within_longest(files);
    match (longest(files), shortest(files)) {
        (Some(hi), Some(lo)) => {
            let r = round_half_even((hi - lo) as nat, 10000);
            crate::numbers::lemma_round_half_even_close((hi - lo) as nat, 10000);
            let w = r / 100;
            let f = r % 100;
            lemma_decimal_reads_back(w);
            lemma_decimal_len(w);
            lemma_padded_reads_back(f, 2);
            lemma_int_text_reads(w as int);
            assert(int_text(w as int) == decimal(w));
            let s = spread_text(files);
            let n = s.len() as int;
            assert(s == decimal(w) + seq!['.'] + padded(f, 2));
            assert(s.subrange(0, n - 3) == decimal(w));
            assert(s.subrange(n - 2, n) == padded(f, 2));
            assert(r == 100 * w + f);
        },
        _ => {},
    }
}

/// The left header of a group: its file count, and the size of each file for
/// exact duplicates or the spread of durations for likely ones.
pub open spec fn header_left_text(files: Seq<DuplicateFile>, kind: GroupKind) -> Seq<char> {
    let n = files.len();
    let lead = decimal(n) + seq![' '] + noun(n) + seq![' ', '\u{b7}', ' '];
    match kind {
        GroupKind::Exact => {
            let size = if n > 0 { files[0].entry.size as nat } else { 0 };
            lead + bytes_text(size) + seq![' ', 'e', 'a', 'c', 'h']
        },
        GroupKind::Media => lead + "duration spread "@ + spread_text(files) + seq!['s'],
    }
}

/// The longest and shortest media durations among the files.
fn duration_range(files: &Vec<DuplicateFile>) -> (r: (Option<u64>, Option<u64>))
    ensures
        match r.0 {
            Some(d) => longest(files@) == Some(d as nat),
            None => longest(files@) is None,
        },
        match r.1 {
            Some(d) => shortest(files@) == Some(d as nat),
            None => shortest(files@) is None,
        },
{
    let mut hi: Option<u64> = None;
    let mut lo: Option<u64> = None;
    let mut i: usize = 0;
    while i < files.len()
        invariant
            i <= files.len(),
            match hi {
                Some(d) => longest(files@.take(i as int)) == Some(d as nat),
                None => longest(files@.take(i as int)) is None,
            },
            match lo {
                Some(d) => shortest(files@.take(i as int)) == Some(d as nat),
                None => shortest(files@.take(i as int)) is None,
            },
        decreases files.len() - i,
    {
        proof {
            assert(files@.take(i + 1).drop_last() == files@.take(i as int));
        }
        match &files[i].media {
            None => {},
            Some(m) => {
                let d = m.duration_micros;
                hi = match hi {
                    None => Some(d),
                    Some(h) => Some(if d > h { d } else { h }),
                };
                lo = match lo {
                    None => Some(d),
                    Some(l) => Some(if d < l { d } else { l }),
                };
            },
        }
        i = i + 1;
    }
    proof {
        assert(files@.take(files.len() as int) == files@);
    }
    (hi, lo)
}

proof fn lemma_shortest_within_longest(files: Seq<DuplicateFile>)
    ensures
        longest(files) is Some <==> shortest(files) is Some,
        longest(files) is Some ==> shortest(files).unwrap() <= longest(files).unwrap(),
    decreases files.len(),
{
    if files.len() > 0 {
        lemma_shortest_within_longest(files.drop_last());
    }
}

fn push_lead(s: &mut String, n: usize)
    ensures
        final(s)@ == old(s)@ + (decimal(n as nat) + seq![' '] + noun(n as nat) + seq![' ', '\u{b7}', ' ']),
{
    let ghost start = s@;
    push_decimal(s, n as u128);
    push_char(s, ' ');
    push_char(s, 'f');
    push_char(s, 'i');
    push_char(s, 'l');
    push_char(s, 'e');
    if n != 1 {
        push_char(s, 's');
    }
    let ghost mid = s@;
    proof {
        assert(mid == start + (decimal(n as nat) + seq![' '] + noun(n as nat)));
    }
    push_char(s, ' ');
    push_char(s, '\u{b7}');
    push_char(s, ' ');
}

fn push_spread(s: &mut String, files: &Vec<DuplicateFile>)
    ensures
        final(s)@ == old(s)@ + spread_text(files@),
{
    let (hi, lo) = duration_range(files);
    proof {
        lemma_shortest_within_longest(files@);
    }
    match (hi, lo) {
        (Some(h), Some(l)) => {
            let r = round_half_even_exec((h - l) as u128, 10000);
            push_decimal(s, r / 100);
            push_char(s, '.');
            push_padded(s, r % 100, 2);
        },
        _ => {
            push_char(s, '-');
            push_char(s, 'i');
            push_char(s, 'n');
            push_char(s, 'f');
        },
    }
}

fn push_header_left(s: &mut String, files: &Vec<DuplicateFile>, kind: GroupKind)
    ensures
        final(s)@ == old(s)@ + header_left_text(files@, kind),
{
    let ghost start = s@;
    let n = files.len();
    push_lead(s, n);
    let ghost lead = decimal(n as nat) + seq![' '] + noun(n as nat) + seq![' ', '\u{b7}', ' '];
    match kind {
        GroupKind::Exact => {
            let size = if n > 0 { files[0].entry.size } else { 0 };
            push_bytes(s, size);
            let ghost mid = s@;
            push_text(s, " each");
            proof {
                assert(" each"@ == seq![' ', 'e', 'a', 'c', 'h']) by {
                    reveal_strlit(" each");
                }
                assert(s@ == start + (lead + bytes_text(size as nat) + seq![' ', 'e', 'a', 'c', 'h']));
            }
        },
        GroupKind::Media => {
            push_text(s, "duration spread ");
            push_spread(s, files);
            push_char(s, 's');
            proof {
                assert(s@ == start + (lead + "duration spread "@ + spread_text(files@) + seq!['s']));
            }
        },
    }
}

/// `v` shows group `g` of the given kind as of time `now`.
pub open spec fn shows_group(v: GroupView, g: DuplicateGroup, kind: GroupKind, now: int) -> bool {
    &&& v.header_left@ == header_left_text(g.files@, kind)
    &&& v.header_right@ == bytes_text(g.reclaimable_bytes as nat) + " reclaimable"@
    &&& v.files@.len() == g.files@.len()
    &&& forall|i: int| 0 <= i < v.files@.len() ==> shows_file(#[trigger] v.files@[i], g.files@[i], now)
}

fn present_group(group: &DuplicateGroup, kind: GroupKind, now: i64) -> (r: GroupView)
    ensures
        shows_group(r, *group, kind, now as int),
{
    let mut header_left = String::new();
    push_header_left(&mut header_left, &group.files, kind);
    let mut header_right = String::new();
    push_bytes(&mut header_right, group.reclaimable_bytes);
    push_text(&mut header_right, " reclaimable");
    let mut files: Vec<FileView> = Vec::new();
    let mut i: usize = 0;
    while i < group.files.len()
        invariant
            i <= group.files@.len(),
            files@.len() == i,
            forall|k: int| 0 <= k < i ==> shows_file(#[trigger] files@[k], group.files@[k], now as int),
        decreases group.files@.len() - i,
    {
        files.push(present_file(&group.files[i], now));
        i = i + 1;
    }
    GroupView { files, header_left, header_right }
}

/// `views` show `groups` of the given kind as of time `now`.
pub open spec fn shows_groups(views: Seq<GroupView>, groups: Seq<DuplicateGroup>, kind: GroupKind, now: int) -> bool {
    &&& views.len() == groups.len()
    &&& forall|i: int| 0 <= i < views.len() ==> shows_group(#[trigger] views[i], groups[i], kind, now)
}

fn present_groups(groups: &Vec<DuplicateGroup>, kind: GroupKind, now: i64) -> (r: Vec<GroupView>)
    ensures
        shows_groups(r@, groups@, kind, now as int),
{
    let mut views: Vec<GroupView> = Vec::new();
    let mut i: usize = 0;
    while i < groups.len()
        invariant
            i <= groups@.len(),
            views@.len() == i,
            forall|k: int| 0 <= k < i ==> shows_group(#[trigger] views@[k], groups@[k], kind, now as int),
        decreases groups@.len() - i,
    {
        views.push(present_group(&groups[i], kind, now));
        i = i + 1;
    }
    views
}

/// `v` shows `summary` as of time `now`.
pub open spec fn shows_summary(v: ScanSummaryView, summary: ScanSummary, now: int) -> bool {
    &&& shows_groups(v.exact_groups@, summary.exact_groups@, GroupKind::Exact, now)
    &&& shows_groups(v.media_groups@, summary.media_groups@, GroupKind::Media, now)
    &&& v.files_scanned_text@ == count_text(summary.files_scanned as nat) + " files scanned"@
    &&& v.reclaimable_text@ == bytes_text(summary.reclaimable_bytes as nat) + " reclaimable"@
    &&& v.elapsed_text@ == "finished in "@ + ms_text(summary.elapsed_ms as nat)
    &&& v.ffmpeg_available == summary.ffmpeg_available
}

/// The display-ready view of a scan summary, with dates relative to the year
/// of `now_secs`.
pub fn present_summary_at(summary: &ScanSummary, now_secs: i64) -> (r: ScanSummaryView)
    ensures
        shows_summary(r, *summary, now_secs as int),
{
    let mut files_scanned_text = format_count(summary.files_scanned);
    push_text(&mut files_scanned_text, " files scanned");
    let mut reclaimable_text = format_bytes(summary.reclaimable_bytes);
    push_text(&mut reclaimable_text, " reclaimable");
    let mut elapsed_text = String::new();
    push_text(&mut elapsed_text, "finished in ");
    let ms = format_ms(summary.elapsed_ms);
    push_text(&mut elapsed_text, ms.as_str());
    ScanSummaryView {
        exact_groups: present_groups(&summary.exact_groups, GroupKind::Exact, now_secs),
        media_groups: present_groups(&summary.media_groups, GroupKind::Media, now_secs),
        files_scanned_text,
        reclaimable_text,
        elapsed_text,
        ffmpeg_available: summary.ffmpeg_available,
    }
}

/// The display-ready view of a scan summary, with dates relative to the
/// current year.
pub fn present_summary(summary: &ScanSummary) -> (r: ScanSummaryView)
    ensures
        exists|now: i64| shows_summary(r, *summary, now as int),
{
    let now = now_unix_secs();
    present_summary_at(summary, now)
}

} // verus!
