//! Fixed-point decimal amounts.
//!
//! Prices and quantities are held as integer counts of `1 / UNITS_PER_ONE`
//! (eight decimal places), which is finer than any precision the exchange uses.
use vstd::prelude::*;
use vstd::string::*;

verus! {

/// Number of units in one whole (10^8).
pub const UNITS_PER_ONE: u64 = 100_000_000;

/// Largest price the library holds (10^18 units, that is 10^10 wholes), so
/// that every grid price, up to eleven times the reference, fits in a `u64`.
pub const MAX_AMOUNT: u64 = 1_000_000_000_000_000_000;

pub open spec fn is_digit(c: char) -> bool {
    '0' <= c && c <= '9'
}

pub open spec fn digit_value(c: char) -> nat {
    ((c as int) - ('0' as int)) as nat
}

pub open spec fn all_digits(s: Seq<char>) -> bool {
    forall|i: int| 0 <= i < s.len() ==> is_digit(#[trigger] s[i])
}

/// The natural number written by the decimal digits `s` (most significant first).
pub open spec fn digits_value(s: Seq<char>) -> nat
    decreases s.len(),
{
    if s.len() == 0 {
        0
    } else {
        digits_value(s.drop_last()) * 10 + digit_value(s.last())
    }
}

pub open spec fn pow10(n: nat) -> nat
    decreases n,
{
    if n == 0 {
        1
    } else {
        10 * pow10((n - 1) as nat)
    }
}

/// `k` is the position of the first '.' in `s`.
pub open spec fn is_first_dot(s: Seq<char>, k: int) -> bool {
    &&& 0 <= k < s.len()
    &&& s[k] == '.'
    &&& forall|j: int| 0 <= j < k ==> s[j] != '.'
}

/// Units of a fractional digit string: its first eight digits, scaled to eight places.
pub open spec fn fraction_units(frac: Seq<char>) -> nat {
    if frac.len() <= 8 {
        digits_value(frac) * pow10((8 - frac.len()) as nat)
    } else {
        digits_value(frac.take(8))
    }
}

/// Units written by an integer part and a fractional part, when both are digit
/// strings and at least one digit is present.
pub open spec fn split_units(int_part: Seq<char>, frac: Seq<char>) -> Option<nat> {
    if all_digits(int_part) && all_digits(frac) && int_part.len() + frac.len() > 0 {
        Some(digits_value(int_part) * 100_000_000 + fraction_units(frac))
    } else {
        None
    }
}

/// The amount, in units, that a plain decimal text such as "123.45", "7",
/// ".5" or "5." writes; digits past the eighth decimal place are dropped.
pub open spec fn plain_units(s: Seq<char>) -> Option<nat> {
    if exists|k: int| is_first_dot(s, k) {
        let k = choose|k: int| is_first_dot(s, k);
        split_units(s.take(k), s.skip(k + 1))
    } else {
        split_units(s, Seq::empty())
    }
}

pub open spec fn is_exponent_mark(c: char) -> bool {
    c == 'e' || c == 'E'
}

/// `k` is the position of the first exponent mark ('e' or 'E') in `s`.
pub open spec fn is_first_exponent_mark(s: Seq<char>, k: int) -> bool {
    &&& 0 <= k < s.len()
    &&& is_exponent_mark(s[k])
    &&& forall|j: int| 0 <= j < k ==> !is_exponent_mark(s[j])
}

/// The digits of a mantissa (a plain decimal text) with its '.' left out,
/// and how many of them follow the '.'.
pub open spec fn mantissa_digits(m: Seq<char>) -> Option<(Seq<char>, nat)> {
    if exists|k: int| is_first_dot(m, k) {
        let k = choose|k: int| is_first_dot(m, k);
        let a = m.take(k);
        let b = m.skip(k + 1);
        if all_digits(a) && all_digits(b) && a.len() + b.len() > 0 {
            Some((a + b, b.len()))
        } else {
            None
        }
    } else if all_digits(m) && m.len() > 0 {
        Some((m, 0))
    } else {
        None
    }
}

/// The exponent that a text writes: an optional '+' or '-', then at least
/// one digit.
pub open spec fn exponent_value(x: Seq<char>) -> Option<int> {
    if x.len() > 0 && (x[0] == '+' || x[0] == '-') {
        let d = x.skip(1);
        if d.len() > 0 && all_digits(d) {
            Some(if x[0] == '-' { -digits_value(d) } else { digits_value(d) as int })
        } else {
            None
        }
    } else if x.len() > 0 && all_digits(x) {
        Some(digits_value(x) as int)
    } else {
        None
    }
}

/// `n * 10^shift`, rounded down.
pub open spec fn shifted(n: nat, shift: int) -> nat {
    if shift >= 0 {
        n * pow10(shift as nat)
    } else {
        n / pow10((-shift) as nat)
    }
}

/// The amount, in units, that an unsigned decimal text writes: a plain
/// decimal text, or a mantissa and an exponent of ten such as "1.5e3" or
/// "25E-2"; what falls below one unit is dropped.
pub open spec fn unsigned_units(s: Seq<char>) -> Option<nat> {
    if exists|k: int| is_first_exponent_mark(s, k) {
        let k = choose|k: int| is_first_exponent_mark(s, k);
        match (mantissa_digits(s.take(k)), exponent_value(s.skip(k + 1))) {
            (Some(m), Some(e)) => Some(shifted(digits_value(m.0), 8 + e - m.1)),
            _ => None,
        }
    } else {
        plain_units(s)
    }
}

/// The amount, in units, that a decimal text writes: an optional '+' sign,
/// then an unsigned decimal text.
pub open spec fn decimal_units(s: Seq<char>) -> Option<nat> {
    if s.len() > 0 && s[0] == '+' {
        unsigned_units(s.skip(1))
    } else {
        unsigned_units(s)
    }
}

/// The amount a decimal text writes, when it does not exceed `limit`.
pub open spec fn units_within(s: Seq<char>, limit: nat) -> Option<u64> {
    match decimal_units(s) {
        Some(v) => if v <= limit { Some(v as u64) } else { None },
        None => None,
    }
}

/// What `parse_amount` gives back: the amount when it is written correctly and
/// does not exceed `MAX_AMOUNT`.
pub open spec fn parsed_amount(s: Seq<char>) -> Option<u64> {
    units_within(s, MAX_AMOUNT as nat)
}

/// What `parse_quantity` gives back: the amount when it is written correctly
/// and fits in a `u64`.
pub open spec fn parsed_quantity(s: Seq<char>) -> Option<u64> {
    units_within(s, u64::MAX as nat)
}

pub proof fn lemma_first_dot_unique(s: Seq<char>, k1: int, k2: int)
    requires
        is_first_dot(s, k1),
        is_first_dot(s, k2),
    ensures
        k1 == k2,
{
}

proof fn lemma_digits_value_push(s: Seq<char>, i: int)
    requires
        0 <= i < s.len(),
    ensures
        digits_value(s.take(i + 1)) == digits_value(s.take(i)) * 10 + digit_value(s[i]),
{
    assert(s.take(i + 1).drop_last() =~= s.take(i));
}

proof fn lemma_pow10_positive(n: nat)
    ensures
        pow10(n) >= 1,
    decreases n,
{
    if n > 0 {
        lemma_pow10_positive((n - 1) as nat);
    }
}

proof fn lemma_digits_value_bound(s: Seq<char>)
    requires
        all_digits(s),
    ensures
        digits_value(s) < pow10(s.len()),
    decreases s.len(),
{
    if s.len() > 0 {
        assert(all_digits(s.drop_last()));
        lemma_digits_value_bound(s.drop_last());
        assert(is_digit(s[s.len() - 1]));
    }
}

/// 10^n as a machine integer.
pub fn pow10_u64(n: u32) -> (r: u64)
    requires
        n <= 18,
    ensures
        r == pow10(n as nat),
{
    let mut r: u64 = 1;
    let mut k: u32 = 0;
    while k < n
        invariant
            k <= n <= 18,
            r == pow10(k as nat),
            r <= 1_000_000_000_000_000_000,
        decreases n - k,
    {
        proof {
            lemma_pow10_monotone(k as nat + 1, 18);
            lemma_pow10_values();
        }
        r = r * 10;
        k = k + 1;
    }
    r
}

pub proof fn lemma_pow10_values()
    ensures
        pow10(2) == 100,
        pow10(8) == 100_000_000,
        pow10(18) == 1_000_000_000_000_000_000,
{
    reveal_with_fuel(pow10, 19);
}

pub proof fn lemma_pow10_monotone(a: nat, b: nat)
    requires
        a <= b,
    ensures
        pow10(a) <= pow10(b),
    decreases b - a,
{
    if a < b {
        lemma_pow10_monotone(a, (b - 1) as nat);
        lemma_pow10_positive((b - 1) as nat);
    }
}

/// Parses an unsigned decimal text into units: digits, at most one '.', and
/// at least one digit; `None` when the text is written otherwise or the
/// amount exceeds `limit`.
fn parse_plain(s: &str, limit: u64) -> (r: Option<u64>)
    ensures
        r == (match plain_units(s@) {
            Some(v) => if v <= limit { Some(v as u64) } else { None },
            None => None,
        }),
{
    let n = s.unicode_len();
    let mut i: usize = 0;
    let mut int_val: u64 = 0;
    let mut big = false;
    let mut saw_dot = false;
    // integer part, up to the first '.'
    while i < n
        invariant_except_break
            !saw_dot,
        invariant
            n == s@.len(),
            i <= n,
            all_digits(s@.take(i as int)),
            forall|j: int| 0 <= j < i ==> s@[j] != '.',
            !big ==> int_val == digits_value(s@.take(i as int)),
            !big ==> int_val <= 1_000_000_000_000,
            big ==> digits_value(s@.take(i as int)) > 1_000_000_000_000,
            saw_dot ==> i < n && s@[i as int] == '.',
        ensures
            saw_dot ==> i < n && s@[i as int] == '.',
            !saw_dot ==> i == n,
        decreases n - i,
    {
        let c = s.get_char(i);
        if c == '.' {
            saw_dot = true;
            break;
        }
        if !('0' <= c && c <= '9') {
            proof {
                if exists|k: int| is_first_dot(s@, k) {
                    let k = choose|k: int| is_first_dot(s@, k);
                    assert(k > i);
                    assert(s@.take(k)[i as int] == c);
                } else {
                    assert(s@[i as int] == c);
                }
            }
            return None;
        }
        proof {
            lemma_digits_value_push(s@, i as int);
            assert(s@.take(i as int + 1) =~= s@.take(i as int).push(c));
        }
        let d = (c as u32 - '0' as u32) as u64;
        if !big {
            if int_val > (1_000_000_000_000 - d) / 10 {
                big = true;
            } else {
                int_val = int_val * 10 + d;
            }
        }
        i = i + 1;
    }
    let ghost k = i as int;
    if !saw_dot {
        // no '.' at all
        proof {
            assert(s@.take(n as int) =~= s@);
            assert(!exists|k: int| is_first_dot(s@, k));
            assert(digits_value(Seq::<char>::empty()) == 0);
            assert(fraction_units(Seq::<char>::empty()) == 0) by {
                lemma_pow10_values();
            }
        }
        proof {
            if big {
                let dv = digits_value(s@);
                assert(dv * 100_000_000 > 100_000_000_000_000_000_000) by (nonlinear_arith)
                    requires dv > 1_000_000_000_000;
            }
        }
        if n == 0 || big {
            return None;
        }
        let total = (int_val as u128) * 100_000_000;
        if total > limit as u128 {
            return None;
        }
        return Some(total as u64);
    }
    proof {
        assert(is_first_dot(s@, k));
        if exists|k2: int| is_first_dot(s@, k2) {
            let k2 = choose|k2: int| is_first_dot(s@, k2);
            lemma_first_dot_unique(s@, k, k2);
        }
    }
    // fractional part
    let mut j: usize = i + 1;
    let mut frac_val: u64 = 0;
    let mut count: usize = 0;
    while j < n
        invariant
            n == s@.len(),
            k == i,
            i < n,
            plain_units(s@) == split_units(s@.take(k), s@.skip(k + 1)),
            i + 1 <= j <= n,
            count == j - i - 1,
            all_digits(s@.subrange(i + 1, j as int)),
            count <= 8 ==> frac_val == digits_value(s@.subrange(i + 1, j as int)),
            count > 8 ==> frac_val == digits_value(s@.subrange(i + 1, i + 9)),
            frac_val < 100_000_000,
        decreases n - j,
    {
        let c = s.get_char(j);
        if !('0' <= c && c <= '9') {
            proof {
                assert(s@.skip(i + 1)[j - i - 1] == c);
            }
            return None;
        }
        proof {
            let t = s@.subrange(i + 1, j as int + 1);
            assert(t.drop_last() =~= s@.subrange(i + 1, j as int));
            assert(t =~= s@.subrange(i + 1, j as int).push(c));
            if count < 8 {
                lemma_digits_value_bound(t);
                lemma_pow10_monotone(t.len(), 8);
                lemma_pow10_values();
            }
        }
        if count < 8 {
            frac_val = frac_val * 10 + (c as u32 - '0' as u32) as u64;
        }
        j = j + 1;
        count = count + 1;
    }
    let ghost frac = s@.skip(i + 1);
    proof {
        assert(frac =~= s@.subrange(i + 1, n as int));
        assert(s@.take(k) =~= s@.take(i as int));
        if count > 8 {
            assert(frac.take(8) =~= s@.subrange(i + 1, i + 9));
        }
    }
    proof {
        if big {
            let dv = digits_value(s@.take(i as int));
            assert(dv * 100_000_000 > 100_000_000_000_000_000_000) by (nonlinear_arith)
                requires dv > 1_000_000_000_000;
        }
    }
    if i + count == 0 || big {
        return None;
    }
    let scaled = if count <= 8 {
        let p = pow10_u64((8 - count) as u32);
        proof {
            lemma_digits_value_bound(frac);
            lemma_pow10_mul(frac.len(), (8 - frac.len()) as nat);
            lemma_pow10_values();
            assert(frac_val * p < 100_000_000) by (nonlinear_arith)
                requires
                    frac_val < pow10(frac.len()),
                    p == pow10((8 - frac.len()) as nat),
                    pow10(frac.len()) * pow10((8 - frac.len()) as nat) == 100_000_000;
        }
        frac_val * p
    } else {
        frac_val
    };
    let total = (int_val as u128) * 100_000_000 + (scaled as u128);
    if total > limit as u128 {
        return None;
    }
    Some(total as u64)
}

/// Exponents of at least this magnitude all read as "too large to matter".
pub const EXPONENT_CAP: u128 = 1_000_000_000_000_000_000_000_000_000_000;

/// `neg` and `mag` read the exponent `e`: exactly below `EXPONENT_CAP`, and at
/// the cap for every exponent of that magnitude or more.
pub open spec fn exponent_read(neg: bool, mag: u128, e: int) -> bool {
    &&& mag <= EXPONENT_CAP
    &&& mag < EXPONENT_CAP ==> e == (if neg { -(mag as int) } else { mag as int })
    &&& mag == EXPONENT_CAP ==> (if neg { e <= -(EXPONENT_CAP as int) } else { e >= EXPONENT_CAP as int })
}

proof fn lemma_digits_value_concat(a: Seq<char>, b: Seq<char>)
    ensures
        digits_value(a + b) == digits_value(a) * pow10(b.len()) + digits_value(b),
    decreases b.len(),
{
    if b.len() == 0 {
        assert(a + b =~= a);
        assert(pow10(0) == 1);
        assert(digits_value(b) == 0);
        assert(digits_value(a) * 1 == digits_value(a));
    } else {
        let b0 = b.drop_last();
        lemma_digits_value_concat(a, b0);
        assert((a + b).drop_last() =~= a + b0);
        assert((a + b).last() == b.last());
        let x = digits_value(a);
        let p = pow10(b0.len());
        let y = digits_value(b0);
        assert(pow10(b.len()) == 10 * p);
        assert(digits_value(a + b) == digits_value(a + b0) * 10 + digit_value(b.last()));
        assert(digits_value(b) == y * 10 + digit_value(b.last()));
        assert((x * p + y) * 10 + digit_value(b.last()) == x * (10 * p) + (y * 10 + digit_value(b.last())))
            by (nonlinear_arith);
    }
}

/// Dropping the last `k` digits divides the value by 10^k.
proof fn lemma_digits_value_div(d: Seq<char>, k: nat)
    requires
        all_digits(d),
        k <= d.len(),
    ensures
        digits_value(d) / pow10(k) == digits_value(d.take(d.len() - k)),
{
    let a = d.take(d.len() - k);
    let b = d.skip(d.len() - k);
    assert(a + b =~= d);
    lemma_digits_value_concat(a, b);
    assert(all_digits(b));
    lemma_digits_value_bound(b);
    lemma_pow10_positive(k);
    vstd::arithmetic::div_mod::lemma_fundamental_div_mod_converse(
        digits_value(d) as int,
        pow10(k) as int,
        digits_value(a) as int,
        digits_value(b) as int,
    );
}

/// A value of at most `k` digits divided by 10^k is zero.
proof fn lemma_digits_value_small_div(d: Seq<char>, k: nat)
    requires
        all_digits(d),
        k >= d.len(),
    ensures
        digits_value(d) / pow10(k) == 0,
{
    lemma_digits_value_bound(d);
    lemma_pow10_monotone(d.len(), k);
    vstd::arithmetic::div_mod::lemma_fundamental_div_mod_converse(
        digits_value(d) as int,
        pow10(k) as int,
        0,
        digits_value(d) as int,
    );
}

proof fn lemma_digits_prefix_monotone(d: Seq<char>, i: int, j: int)
    requires
        0 <= i <= j <= d.len(),
    ensures
        digits_value(d.take(i)) <= digits_value(d.take(j)),
    decreases j - i,
{
    if i < j {
        lemma_digits_prefix_monotone(d, i, j - 1);
        lemma_digits_value_push(d, j - 1);
    }
}

/// A non-zero value times 10^t, for t of 20 or more, exceeds any `u64`.
proof fn lemma_big_shift(n: nat, t: int)
    requires
        n >= 1,
        t >= 20,
    ensures
        shifted(n, t) > u64::MAX,
{
    lemma_pow10_monotone(20, t as nat);
    assert(pow10(20) == 100_000_000_000_000_000_000) by {
        reveal_with_fuel(pow10, 21);
    }
    let p = pow10(t as nat);
    assert(n * p >= p) by (nonlinear_arith)
        requires n >= 1, p >= 0;
}

/// Shifting by `t` or by the clamped `c` gives the same answer against any
/// `u64` limit.
proof fn lemma_shift_clamp(d: Seq<char>, t: int, c: int, limit: u64)
    requires
        all_digits(d),
        (t >= 20 && c == 20) || (t <= -(d.len() as int) && c == -(d.len() as int)) || t == c,
    ensures
        (shifted(digits_value(d), t) <= limit) == (shifted(digits_value(d), c) <= limit),
        shifted(digits_value(d), c) <= limit ==> shifted(digits_value(d), t) == shifted(digits_value(d), c),
{
    let nv = digits_value(d);
    if t == c {
    } else if t >= 20 && c == 20 {
        if nv == 0 {
            assert(0 * pow10(t as nat) == 0);
            assert(0 * pow10(20) == 0);
        } else {
            lemma_big_shift(nv, t);
            lemma_big_shift(nv, 20);
        }
    } else {
        lemma_digits_value_small_div(d, (-t) as nat);
        lemma_digits_value_small_div(d, d.len());
    }
}

/// The value of the first `m` digits of `d`, when it does not exceed `limit`.
fn digits_up_to(d: &Vec<char>, m: usize, limit: u64) -> (r: Option<u64>)
    requires
        all_digits(d@),
        m <= d.len(),
    ensures
        r == (if digits_value(d@.take(m as int)) <= limit {
            Some(digits_value(d@.take(m as int)) as u64)
        } else {
            None
        }),
{
    let mut v: u64 = 0;
    let mut i: usize = 0;
    assert(d@.take(0) =~= Seq::<char>::empty());
    while i < m
        invariant
            all_digits(d@),
            m <= d.len(),
            i <= m,
            v == digits_value(d@.take(i as int)),
            v <= limit,
        decreases m - i,
    {
        let c = d[i];
        proof {
            lemma_digits_value_push(d@, i as int);
            assert(is_digit(d@[i as int]));
        }
        let next = (v as u128) * 10 + ((c as u32 - '0' as u32) as u128);
        if next > limit as u128 {
            proof {
                lemma_digits_prefix_monotone(d@, i as int + 1, m as int);
            }
            return None;
        }
        v = next as u64;
        i = i + 1;
    }
    Some(v)
}

/// The value of the digits `d` times 10^shift, rounded down, when it does
/// not exceed `limit`.
fn shift_digits(d: &Vec<char>, shift: i128, limit: u64) -> (r: Option<u64>)
    requires
        all_digits(d@),
        -(d@.len() as int) <= shift <= 20,
    ensures
        r == (if shifted(digits_value(d@), shift as int) <= limit {
            Some(shifted(digits_value(d@), shift as int) as u64)
        } else {
            None
        }),
{
    let len = d.len();
    assert(d@.take(len as int) =~= d@);
    let ghost nv = digits_value(d@);
    if shift >= 0 {
        let s = shift as u32;
        proof {
            lemma_pow10_positive(s as nat);
        }
        match digits_up_to(d, len, limit) {
            None => {
                proof {
                    let p = pow10(s as nat);
                    assert(nv * p >= nv) by (nonlinear_arith)
                        requires p >= 1;
                }
                None
            },
            Some(v) => {
                if v == 0 {
                    assert(0 * pow10(s as nat) == 0);
                    return Some(0);
                }
                if s >= 20 {
                    proof {
                        lemma_big_shift(nv, s as int);
                    }
                    return None;
                }
                let mut acc: u64 = v;
                let mut j: u32 = 0;
                assert(pow10(0) == 1);
                while j < s
                    invariant
                        nv == digits_value(d@),
                        v == nv,
                        v >= 1,
                        s < 20,
                        s == shift,
                        j <= s,
                        acc == v * pow10(j as nat),
                        acc <= limit,
                    decreases s - j,
                {
                    proof {
                        assert(pow10(j as nat + 1) == 10 * pow10(j as nat));
                    }
                    if (acc as u128) * 10 > limit as u128 {
                        proof {
                            let rest = (s - j) as nat;
                            lemma_pow10_mul(j as nat, rest);
                            lemma_pow10_monotone(1, rest);
                            assert(pow10(1) == 10) by {
                                reveal_with_fuel(pow10, 2);
                            }
                            let pj = pow10(j as nat);
                            let pr = pow10(rest);
                            assert(j as nat + rest == s as nat);
                            assert(pj * pr == pow10(s as nat));
                            assert(v * pow10(s as nat) == acc * pr) by (nonlinear_arith)
                                requires
                                    acc == v * pj,
                                    pj * pr == pow10(s as nat);
                            assert(acc * pr >= acc * 10) by (nonlinear_arith)
                                requires pr >= 10, acc >= 0;
                            assert(acc * 10 > limit);
                            assert(shifted(nv, shift as int) == v * pow10(s as nat));
                        }
                        return None;
                    }
                    proof {
                        let pj = pow10(j as nat);
                        assert(v * (10 * pj) == (v * pj) * 10) by (nonlinear_arith);
                    }
                    acc = acc * 10;
                    j = j + 1;
                }
                Some(acc)
            },
        }
    } else {
        let k = (0 - shift) as usize;
        proof {
            lemma_digits_value_div(d@, k as nat);
        }
        digits_up_to(d, len - k, limit)
    }
}

/// The digits of a mantissa with its '.' left out, and how many of them
/// follow the '.' (see `mantissa_digits`).
fn parse_mantissa(m: &str) -> (r: Option<(Vec<char>, usize)>)
    ensures
        match mantissa_digits(m@) {
            Some(x) => (r matches Some(y) && y.0@ == x.0 && y.1 as nat == x.1),
            None => r is None,
        },
{
    let n = m.unicode_len();
    let mut digits: Vec<char> = Vec::new();
    let mut i: usize = 0;
    assert(m@.take(0) =~= Seq::<char>::empty());
    while i < n
        invariant
            n == m@.len(),
            i <= n,
            digits@ == m@.take(i as int),
            all_digits(m@.take(i as int)),
            forall|j: int| 0 <= j < i ==> m@[j] != '.',
        ensures
            i == n || m@[i as int] == '.',
        decreases n - i,
    {
        let c = m.get_char(i);
        if c == '.' {
            break;
        }
        if !('0' <= c && c <= '9') {
            proof {
                if exists|k: int| is_first_dot(m@, k) {
                    let k = choose|k: int| is_first_dot(m@, k);
                    assert(k > i);
                    assert(m@.take(k)[i as int] == c);
                } else {
                    assert(m@[i as int] == c);
                }
            }
            return None;
        }
        proof {
            assert(m@.take(i as int + 1) =~= m@.take(i as int).push(c));
        }
        digits.push(c);
        i = i + 1;
    }
    if i == n {
        proof {
            assert(m@.take(n as int) =~= m@);
            assert(!exists|k: int| is_first_dot(m@, k));
        }
        if n == 0 {
            return None;
        }
        return Some((digits, 0));
    }
    let k = i;
    proof {
        assert(is_first_dot(m@, k as int));
        let k2 = choose|k2: int| is_first_dot(m@, k2);
        lemma_first_dot_unique(m@, k as int, k2);
        assert(m@.subrange(k + 1, k + 1) =~= Seq::<char>::empty());
        assert(digits@ =~= m@.take(k as int) + m@.subrange(k + 1, k + 1));
    }
    let mut j: usize = k + 1;
    while j < n
        invariant
            n == m@.len(),
            k < n,
            k + 1 <= j <= n,
            is_first_dot(m@, k as int),
            all_digits(m@.take(k as int)),
            all_digits(m@.subrange(k + 1, j as int)),
            digits@ == m@.take(k as int) + m@.subrange(k + 1, j as int),
        decreases n - j,
    {
        let c = m.get_char(j);
        if !('0' <= c && c <= '9') {
            proof {
                let k2 = choose|k2: int| is_first_dot(m@, k2);
                lemma_first_dot_unique(m@, k as int, k2);
                assert(m@.skip(k + 1)[j - k - 1] == c);
            }
            return None;
        }
        proof {
            assert(m@.subrange(k + 1, j + 1) =~= m@.subrange(k + 1, j as int).push(c));
            assert(m@.take(k as int) + m@.subrange(k + 1, j + 1) =~= (m@.take(k as int) + m@.subrange(
                k + 1,
                j as int,
            )).push(c));
        }
        digits.push(c);
        j = j + 1;
    }
    proof {
        let k2 = choose|k2: int| is_first_dot(m@, k2);
        lemma_first_dot_unique(m@, k as int, k2);
        assert(m@.skip(k + 1) =~= m@.subrange(k + 1, n as int));
    }
    if n == 1 {
        return None;
    }
    Some((digits, n - k - 1))
}

/// The exponent `x` writes (see `exponent_value`), as a sign and a
/// magnitude (see `exponent_read`).
fn parse_exponent(x: &str) -> (r: Option<(bool, u128)>)
    ensures
        r is None <==> exponent_value(x@) is None,
        r matches Some(p) ==> exponent_read(p.0, p.1, exponent_value(x@)->0),
{
    let n = x.unicode_len();
    if n == 0 {
        return None;
    }
    let c0 = x.get_char(0);
    let signed = c0 == '+' || c0 == '-';
    let neg = c0 == '-';
    let start: usize = if signed { 1 } else { 0 };
    if start == n {
        proof {
            assert(x@.skip(1).len() == 0);
        }
        return None;
    }
    let mut mag: u128 = 0;
    let mut i: usize = start;
    assert(x@.subrange(start as int, start as int) =~= Seq::<char>::empty());
    while i < n
        invariant
            n == x@.len(),
            x@[0] == c0,
            signed == (c0 == '+' || c0 == '-'),
            start == (if signed { 1usize } else { 0usize }),
            start <= i <= n,
            start <= 1,
            all_digits(x@.subrange(start as int, i as int)),
            digits_value(x@.subrange(start as int, i as int)) < EXPONENT_CAP ==> mag == digits_value(
                x@.subrange(start as int, i as int),
            ),
            digits_value(x@.subrange(start as int, i as int)) >= EXPONENT_CAP ==> mag == EXPONENT_CAP,
        decreases n - i,
    {
        let c = x.get_char(i);
        if !('0' <= c && c <= '9') {
            proof {
                assert(x@[0] == c0);
                assert(!is_digit(c));
                if signed {
                    assert(x@.skip(1)[i - 1] == c);
                    assert(!all_digits(x@.skip(1)));
                } else {
                    assert(x@[i as int] == c);
                    assert(!all_digits(x@));
                }
            }
            return None;
        }
        let dv = (c as u32 - '0' as u32) as u128;
        proof {
            let t = x@.subrange(start as int, i + 1);
            assert(t.drop_last() =~= x@.subrange(start as int, i as int));
            assert(t =~= x@.subrange(start as int, i as int).push(c));
        }
        if mag < EXPONENT_CAP {
            let next = mag * 10 + dv;
            mag = if next >= EXPONENT_CAP { EXPONENT_CAP } else { next };
        }
        i = i + 1;
    }
    proof {
        assert(x@.subrange(start as int, n as int) =~= x@.skip(start as int));
        if !signed {
            assert(x@.skip(0) =~= x@);
        }
    }
    Some((neg, mag))
}

/// Parses an unsigned decimal text (see `unsigned_units`) into units; `None`
/// when it is written otherwise or the amount exceeds `limit`.
fn parse_unsigned(s: &str, limit: u64) -> (r: Option<u64>)
    ensures
        r == (match unsigned_units(s@) {
            Some(v) => if v <= limit { Some(v as u64) } else { None },
            None => None,
        }),
{
    let n = s.unicode_len();
    let mut i: usize = 0;
    while i < n
        invariant
            n == s@.len(),
            i <= n,
            forall|j: int| 0 <= j < i ==> !is_exponent_mark(s@[j]),
        ensures
            i == n || is_first_exponent_mark(s@, i as int),
        decreases n - i,
    {
        let c = s.get_char(i);
        if c == 'e' || c == 'E' {
            break;
        }
        i = i + 1;
    }
    if i == n {
        proof {
            assert(!exists|k: int| is_first_exponent_mark(s@, k));
        }
        return parse_plain(s, limit);
    }
    proof {
        let k2 = choose|k2: int| is_first_exponent_mark(s@, k2);
        assert(k2 == i);
    }
    let mantissa = s.substring_char(0, i);
    let exponent = s.substring_char(i + 1, n);
    proof {
        assert(mantissa@ =~= s@.take(i as int));
        assert(exponent@ =~= s@.skip(i + 1));
    }
    let m = parse_mantissa(mantissa);
    let e = parse_exponent(exponent);
    match (m, e) {
        (Some((d, f)), Some((neg, mag))) => {
            let len = d.len();
            let ghost t = 8 + exponent_value(exponent@)->0 - f;
            let shift: i128 = if mag >= EXPONENT_CAP {
                if neg {
                    -(len as i128)
                } else {
                    20
                }
            } else {
                let ev: i128 = if neg { -(mag as i128) } else { mag as i128 };
                let sh = 8 + ev - (f as i128);
                if sh > 20 {
                    20
                } else if sh < -(len as i128) {
                    -(len as i128)
                } else {
                    sh
                }
            };
            proof {
                lemma_shift_clamp(d@, t, shift as int, limit);
            }
            shift_digits(&d, shift, limit)
        },
        _ => None,
    }
}

/// Parses a decimal text into units, after an optional '+' sign; `None` when
/// the text is written otherwise or the amount exceeds `limit`.
fn parse_units(s: &str, limit: u64) -> (r: Option<u64>)
    ensures
        r == units_within(s@, limit as nat),
{
    let n = s.unicode_len();
    if n > 0 && s.get_char(0) == '+' {
        let rest = s.substring_char(1, n);
        proof {
            assert(rest@ =~= s@.skip(1));
        }
        parse_unsigned(rest, limit)
    } else {
        parse_unsigned(s, limit)
    }
}

/// Parses a price or an amount into units (see `parsed_amount`).
pub fn parse_amount(s: &str) -> (r: Option<u64>)
    ensures
        r == parsed_amount(s@),
{
    parse_units(s, MAX_AMOUNT)
}

/// Parses a quantity into units, up to what a `u64` holds (see
/// `parsed_quantity`).
pub fn parse_quantity(s: &str) -> (r: Option<u64>)
    ensures
        r == parsed_quantity(s@),
{
    parse_units(s, u64::MAX)
}

pub proof fn lemma_pow10_mul(a: nat, b: nat)
    ensures
        pow10(a) * pow10(b) == pow10(a + b),
    decreases a,
{
    if a == 0 {
        assert(pow10(0) == 1);
        assert(pow10(a) * pow10(b) == pow10(b));
    } else {
        lemma_pow10_mul((a - 1) as nat, b);
        assert(pow10(a + b) == 10 * pow10(((a - 1) + b) as nat));
        assert(pow10(a) * pow10(b) == 10 * (pow10((a - 1) as nat) * pow10(b))) by (nonlinear_arith)
            requires pow10(a) == 10 * pow10((a - 1) as nat);
    }
}

pub open spec fn digit_char(d: nat) -> char {
    ((d % 10) + ('0' as nat)) as char
}

/// The last `w` decimal digits of `v`, with leading zeros.
pub open spec fn fixed_digits(v: nat, w: nat) -> Seq<char>
    decreases w,
{
    if w == 0 {
        Seq::empty()
    } else {
        fixed_digits(v / 10, (w - 1) as nat).push(digit_char(v % 10))
    }
}

/// Number of decimal digits needed to write `v` (one for zero).
pub open spec fn digit_count(v: nat) -> nat
    decreases v,
{
    if v < 10 {
        1
    } else {
        1 + digit_count(v / 10)
    }
}

/// `v` written in decimal without leading zeros.
pub open spec fn nat_digits(v: nat) -> Seq<char> {
    fixed_digits(v, digit_count(v))
}

/// The `w`-digit fraction `f` with its trailing zeros removed.
pub open spec fn trimmed_fraction(f: nat, w: nat) -> Seq<char>
    decreases w,
{
    if w > 0 && f % 10 == 0 {
        trimmed_fraction(f / 10, (w - 1) as nat)
    } else {
        fixed_digits(f, w)
    }
}

/// The text `format_amount` writes for `x` units: the whole part, then, when
/// the fraction is not zero, a '.' and the fraction without trailing zeros.
pub open spec fn amount_text(x: nat) -> Seq<char> {
    let whole = nat_digits(x / 100_000_000);
    let frac = x % 100_000_000;
    if frac == 0 {
        whole
    } else {
        whole + seq!['.'] + trimmed_fraction(frac, 8)
    }
}

/// Appends one character to `s`.
///
/// Trusted: calls `String::push`, whose documentation says that it appends the
/// given char to the end of the string.
#[verifier::external_body]
pub(crate) fn push_char(s: &mut String, c: char)
    ensures
        final(s)@ == old(s)@.push(c),
{
    s.push(c);
}

fn digit_to_char(d: u64) -> (c: char)
    requires
        d < 10,
    ensures
        c == digit_char(d as nat),
        is_digit(c),
{
    let c = ('0' as u8 + d as u8) as char;
    c
}

fn push_fixed_digits(s: &mut String, v: u64, w: usize)
    ensures
        final(s)@ == old(s)@ + fixed_digits(v as nat, w as nat),
    decreases w,
{
    if w == 0 {
        assert(old(s)@ + Seq::<char>::empty() =~= old(s)@);
    } else {
        push_fixed_digits(s, v / 10, w - 1);
        let c = digit_to_char(v % 10);
        push_char(s, c);
        proof {
            let a = old(s)@;
            let b = fixed_digits((v / 10) as nat, (w - 1) as nat);
            assert((a + b).push(c) =~= a + b.push(c));
        }
    }
}

fn count_digits(v: u64) -> (r: usize)
    ensures
        r == digit_count(v as nat),
        r <= 20,
    decreases v,
{
    if v < 10 {
        1
    } else {
        let k = count_digits(v / 10);
        proof {
            lemma_digit_count_bound(v as nat);
        }
        1 + k
    }
}

proof fn lemma_digit_count_bound(v: nat)
    requires
        v <= u64::MAX,
    ensures
        digit_count(v) <= 20,
{
    assert(pow10(20) == 100_000_000_000_000_000_000) by {
        reveal_with_fuel(pow10, 21);
    }
    lemma_digit_count_le(v, 20);
}

proof fn lemma_digit_count_le(v: nat, k: nat)
    requires
        k >= 1,
        v < pow10(k),
    ensures
        digit_count(v) <= k,
    decreases k,
{
    if v >= 10 {
        assert(k > 1) by {
            if k == 1 {
                reveal_with_fuel(pow10, 2);
            }
        }
        assert(v / 10 < pow10((k - 1) as nat)) by {
            assert(pow10(k) == 10 * pow10((k - 1) as nat));
        }
        lemma_digit_count_le(v / 10, (k - 1) as nat);
    }
}

fn push_trimmed_fraction(s: &mut String, f: u64, w: usize)
    ensures
        final(s)@ == old(s)@ + trimmed_fraction(f as nat, w as nat),
    decreases w,
{
    if w > 0 && f % 10 == 0 {
        push_trimmed_fraction(s, f / 10, w - 1);
    } else {
        push_fixed_digits(s, f, w);
    }
}

/// Writes `x` units as a decimal text: "123.45", "100", "0.5".
pub fn format_amount(x: u64) -> (r: String)
    ensures
        r@ == amount_text(x as nat),
{
    let mut s = String::new();
    let whole = x / UNITS_PER_ONE;
    let frac = x % UNITS_PER_ONE;
    let n = count_digits(whole);
    push_fixed_digits(&mut s, whole, n);
    if frac != 0 {
        push_char(&mut s, '.');
        push_trimmed_fraction(&mut s, frac, 8);
    }
    proof {
        assert(Seq::<char>::empty() + nat_digits(whole as nat) =~= nat_digits(whole as nat));
    }
    s
}

/// Writes `v` in decimal, as `u64`'s `Display` does.
pub fn format_u64(v: u64) -> (r: String)
    ensures
        r@ == nat_digits(v as nat),
{
    let mut s = String::new();
    let n = count_digits(v);
    push_fixed_digits(&mut s, v, n);
    proof {
        assert(Seq::<char>::empty() + nat_digits(v as nat) =~= nat_digits(v as nat));
    }
    s
}

/// `x` units rounded to `d` decimal places, halves to even, in units of the
/// last place.
pub open spec fn rounded_places(x: nat, d: nat) -> nat {
    let step = pow10((8 - d) as nat);
    let q = x / step;
    let r = x % step;
    if 2 * r > step || (2 * r == step && q % 2 == 1) {
        q + 1
    } else {
        q
    }
}

/// The text `format_fixed` writes: `x` units with exactly `d` decimal
/// places, rounded halves to even.
pub open spec fn fixed_text(x: nat, d: nat) -> Seq<char> {
    let v = rounded_places(x, d);
    let whole = nat_digits(v / pow10(d));
    if d == 0 {
        whole
    } else {
        whole + seq!['.'] + fixed_digits(v % pow10(d), d)
    }
}

/// Writes `x` units with exactly `d` decimal places, as `{:.d}` formats a
/// number: "123.46".
pub fn format_fixed(x: u64, d: usize) -> (r: String)
    requires
        d <= 8,
    ensures
        r@ == fixed_text(x as nat, d as nat),
{
    let step = pow10_u64((8 - d) as u32);
    proof {
        lemma_pow10_positive((8 - d) as nat);
    }
    let q = x / step;
    let rem = x % step;
    let v = if 2 * (rem as u128) > step as u128 || (2 * (rem as u128) == step as u128 && q % 2 == 1) {
        assert(step >= 2);
        assert(q <= x / 2) by (nonlinear_arith)
            requires q == x / step, step >= 2;
        q + 1
    } else {
        q
    };
    proof {
        lemma_pow10_positive(d as nat);
        lemma_pow10_monotone(d as nat, 8);
        lemma_pow10_values();
    }
    let scale = pow10_u64(d as u32);
    let mut s = String::new();
    let whole = v / scale;
    let n = count_digits(whole);
    push_fixed_digits(&mut s, whole, n);
    if d > 0 {
        push_char(&mut s, '.');
        push_fixed_digits(&mut s, v % scale, d);
    }
    proof {
        assert(Seq::<char>::empty() + nat_digits(whole as nat) =~= nat_digits(whole as nat));
    }
    s
}

proof fn lemma_fixed_digits(v: nat, w: nat)
    ensures
        fixed_digits(v, w).len() == w,
        all_digits(fixed_digits(v, w)),
        digits_value(fixed_digits(v, w)) == v % pow10(w),
    decreases w,
{
    if w > 0 {
        lemma_fixed_digits(v / 10, (w - 1) as nat);
        let t = fixed_digits(v, w);
        let c = digit_char(v % 10);
        assert(t.drop_last() =~= fixed_digits(v / 10, (w - 1) as nat));
        assert(digit_value(c) == v % 10);
        lemma_pow10_positive((w - 1) as nat);
        vstd::arithmetic::div_mod::lemma_mod_breakdown(v as int, 10, pow10((w - 1) as nat) as int);
        assert(pow10(w) == 10 * pow10((w - 1) as nat));
    }
}

proof fn lemma_nat_digits(v: nat)
    ensures
        all_digits(nat_digits(v)),
        nat_digits(v).len() >= 1,
        digits_value(nat_digits(v)) == v,
{
    lemma_below_digit_count(v);
    lemma_fixed_digits(v, digit_count(v));
    vstd::arithmetic::div_mod::lemma_small_mod(v, pow10(digit_count(v)));
}

proof fn lemma_below_digit_count(v: nat)
    ensures
        digit_count(v) >= 1,
        v < pow10(digit_count(v)),
    decreases v,
{
    if v < 10 {
        reveal_with_fuel(pow10, 2);
    } else {
        lemma_below_digit_count(v / 10);
        assert(pow10(digit_count(v)) == 10 * pow10(digit_count(v / 10)));
    }
}

proof fn lemma_trimmed_fraction(f: nat, w: nat)
    requires
        f < pow10(w),
    ensures
        trimmed_fraction(f, w).len() <= w,
        all_digits(trimmed_fraction(f, w)),
        digits_value(trimmed_fraction(f, w)) * pow10((w - trimmed_fraction(f, w).len()) as nat) == f,
    decreases w,
{
    let t = trimmed_fraction(f, w);
    if w > 0 && f % 10 == 0 {
        assert(pow10(w) == 10 * pow10((w - 1) as nat));
        assert(f / 10 < pow10((w - 1) as nat));
        lemma_trimmed_fraction(f / 10, (w - 1) as nat);
        let e = (w - 1 - t.len()) as nat;
        assert(pow10((w - t.len()) as nat) == 10 * pow10(e));
        assert(digits_value(t) * (10 * pow10(e)) == 10 * (digits_value(t) * pow10(e))) by (nonlinear_arith);
        vstd::arithmetic::div_mod::lemma_fundamental_div_mod(f as int, 10);
    } else {
        lemma_fixed_digits(f, w);
        vstd::arithmetic::div_mod::lemma_small_mod(f, pow10(w));
        assert(pow10(0) == 1);
        assert(t.len() == w);
        assert(digits_value(t) * pow10(0) == digits_value(t));
    }
}

proof fn lemma_fraction_units_empty()
    ensures
        fraction_units(Seq::<char>::empty()) == 0,
{
    let e = Seq::<char>::empty();
    assert(digits_value(e) == 0);
    assert(e.len() <= 8);
    assert(fraction_units(e) == digits_value(e) * pow10(8));
    assert(0 * pow10(8) == 0);
}

/// Law: the text that `format_amount` writes for an amount parses back, with
/// `parse_amount`, to that same amount.
pub proof fn amount_text_round_trip(x: u64)
    requires
        x <= MAX_AMOUNT,
    ensures
        parsed_amount(amount_text(x as nat)) == Some(x),
{
    let q = (x / 100_000_000) as nat;
    let f = (x % 100_000_000) as nat;
    let whole = nat_digits(q);
    lemma_nat_digits(q);
    lemma_pow10_values();
    let text = amount_text(x as nat);
    assert(text[0] == whole[0]);
    assert(is_digit(whole[0]));
    if f != 0 {
        lemma_trimmed_fraction(f, 8);
    }
    assert forall|k: int| !is_first_exponent_mark(text, k) by {
        if 0 <= k < text.len() {
            if k < whole.len() {
                assert(text[k] == whole[k]);
                assert(is_digit(whole[k]));
            } else if k > whole.len() {
                let tf = trimmed_fraction(f, 8);
                assert(text[k] == tf[k - whole.len() - 1]);
                assert(is_digit(tf[k - whole.len() - 1]));
            }
        }
    }
    assert(decimal_units(text) == plain_units(text));
    if f == 0 {
        assert forall|k: int| !is_first_dot(text, k) by {
            if 0 <= k < text.len() {
                assert(is_digit(text[k]));
            }
        }
        assert(digits_value(Seq::<char>::empty()) == 0);
        lemma_fraction_units_empty();
        assert(text == whole);
        assert(split_units(text, Seq::<char>::empty()) == Some(q * 100_000_000 + 0));
        assert(plain_units(text) == Some(q * 100_000_000 + 0));
        assert(q * 100_000_000 == x) by {
            assert(x == 100_000_000 * q + f);
        }
    } else {
        let tf = trimmed_fraction(f, 8);
        lemma_trimmed_fraction(f, 8);
        let k = whole.len() as int;
        assert(text[k] == '.');
        assert forall|j: int| 0 <= j < k implies text[j] != '.' by {
            assert(text[j] == whole[j]);
            assert(is_digit(whole[j]));
        }
        assert(is_first_dot(text, k));
        let k2 = choose|k2: int| is_first_dot(text, k2);
        lemma_first_dot_unique(text, k, k2);
        assert(text.take(k) =~= whole);
        assert(text.skip(k + 1) =~= tf);
        assert(fraction_units(tf) == f);
    }
}

} // verus!
