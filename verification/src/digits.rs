//! Decimal rendering and parsing.
//!
//! The prettifier renders the seed in decimal, chops the digit string into
//! segments, and later parses the reassembled digit string back into a
//! number.  `dec_digits` and `dec_value` are the two directions at the
//! specification level; `render_decimal` and `parse_i64` implement them.

use vstd::prelude::*;

use crate::chars::all_digits;
use crate::chars::char_of_digit;
use crate::chars::char_to_digit;
use crate::chars::chars_to_string;
use crate::chars::digit_of;
use crate::chars::digit_to_char;
use crate::chars::is_digit_char;
use crate::chars::lemma_char_of_digit_of;
use crate::chars::lemma_digit_char_roundtrip;
use crate::chars::lemma_digit_of_range;
use crate::chars::lemma_pad_left_push;
use crate::chars::pad_left;
use crate::chars::str_to_chars;

verus! {

/// The `k`-th power of ten.
pub open spec fn pow10(k: nat) -> nat
    decreases k,
{
    if k == 0 {
        1
    } else {
        10 * pow10((k - 1) as nat)
    }
}

/// The decimal digit string of `n`, most significant digit first, with no
/// extraneous leading zeros; `0` renders as the single character `'0'`.
pub open spec fn dec_digits(n: nat) -> Seq<char>
    decreases n,
{
    if n < 10 {
        seq![char_of_digit(n as int)]
    } else {
        dec_digits(n / 10).push(char_of_digit((n % 10) as int))
    }
}

/// The number a digit string denotes, scanning left to right.
pub open spec fn dec_value(s: Seq<char>) -> int
    decreases s.len(),
{
    if s.len() == 0 {
        0
    } else {
        dec_value(s.drop_last()) * 10 + digit_of(s.last())
    }
}

/// Powers of ten are positive.
pub proof fn lemma_pow10_pos(k: nat)
    ensures
        pow10(k) >= 1,
    decreases k,
{
    if k > 0 {
        lemma_pow10_pos((k - 1) as nat);
    }
}

/// Powers of ten grow with the exponent.
pub proof fn lemma_pow10_mono(a: nat, b: nat)
    requires
        a <= b,
    ensures
        pow10(a) <= pow10(b),
    decreases b,
{
    if a < b {
        lemma_pow10_mono(a, (b - 1) as nat);
        lemma_pow10_pos((b - 1) as nat);
        let p = pow10((b - 1) as nat);
        assert(10 * p >= p) by (nonlinear_arith)
            requires
                p >= 1,
        ;
    }
}

/// The two powers of ten that bracket the 64-bit signed range.
pub proof fn lemma_pow10_values()
    ensures
        pow10(18) == 1_000_000_000_000_000_000,
        pow10(19) == 10_000_000_000_000_000_000,
{
    assert(pow10(0) == 1);
    assert(pow10(1) == 10);
    assert(pow10(2) == 100);
    assert(pow10(3) == 1_000);
    assert(pow10(4) == 10_000);
    assert(pow10(5) == 100_000);
    assert(pow10(6) == 1_000_000);
    assert(pow10(7) == 10_000_000);
    assert(pow10(8) == 100_000_000);
    assert(pow10(9) == 1_000_000_000);
    assert(pow10(10) == 10_000_000_000);
    assert(pow10(11) == 100_000_000_000);
    assert(pow10(12) == 1_000_000_000_000);
    assert(pow10(13) == 10_000_000_000_000);
    assert(pow10(14) == 100_000_000_000_000);
    assert(pow10(15) == 1_000_000_000_000_000);
    assert(pow10(16) == 10_000_000_000_000_000);
    assert(pow10(17) == 100_000_000_000_000_000);
    assert(pow10(18) == 1_000_000_000_000_000_000);
    assert(pow10(19) == 10_000_000_000_000_000_000);
}

/// A rendered number consists of digit characters, at least one.
pub proof fn lemma_dec_digits_digits(n: nat)
    ensures
        all_digits(dec_digits(n)),
        dec_digits(n).len() >= 1,
    decreases n,
{
    if n < 10 {
        lemma_digit_char_roundtrip(n as int);
    } else {
        lemma_dec_digits_digits(n / 10);
        lemma_digit_char_roundtrip((n % 10) as int);
    }
}

/// Rendering and reading back are inverse.
pub proof fn lemma_dec_digits_value(n: nat)
    ensures
        dec_value(dec_digits(n)) == n,
    decreases n,
{
    if n < 10 {
        lemma_digit_char_roundtrip(n as int);
        let s = dec_digits(n);
        assert(s.drop_last() =~= Seq::<char>::empty());
        assert(dec_value(Seq::<char>::empty()) == 0);
        assert(dec_value(s) == 0 * 10 + digit_of(char_of_digit(n as int)));
    } else {
        lemma_dec_digits_value(n / 10);
        lemma_digit_char_roundtrip((n % 10) as int);
        let s = dec_digits(n);
        assert(s.drop_last() =~= dec_digits(n / 10));
        assert(s.last() == char_of_digit((n % 10) as int));
        assert(dec_value(s) == dec_value(dec_digits(n / 10)) * 10 + digit_of(
            char_of_digit((n % 10) as int),
        ));
        assert(dec_value(s) == (n / 10) * 10 + (n % 10));
    }
}

/// A number below `10^k` renders in at most `k` digits.
pub proof fn lemma_dec_digits_len(n: nat, k: nat)
    requires
        k >= 1,
        n < pow10(k),
    ensures
        dec_digits(n).len() <= k,
    decreases n,
{
    if n >= 10 {
        assert(pow10(k) == 10 * pow10((k - 1) as nat));
        assert(n / 10 < pow10((k - 1) as nat)) by (nonlinear_arith)
            requires
                n < 10 * pow10((k - 1) as nat),
        ;
        assert(k >= 2) by {
            if k == 1 {
                assert(pow10(1nat) == 10);
            }
        }
        lemma_dec_digits_len(n / 10, (k - 1) as nat);
    }
}

/// A digit string's value is never negative.
pub proof fn lemma_dec_value_nonneg(s: Seq<char>)
    ensures
        dec_value(s) >= 0,
    decreases s.len(),
{
    if s.len() > 0 {
        lemma_dec_value_nonneg(s.drop_last());
    }
}

/// A digit string of length `k` denotes a value below `10^k`.
pub proof fn lemma_dec_value_bound(s: Seq<char>)
    requires
        all_digits(s),
    ensures
        dec_value(s) < pow10(s.len()),
    decreases s.len(),
{
    if s.len() > 0 {
        assert(all_digits(s.drop_last()));
        lemma_dec_value_bound(s.drop_last());
        lemma_digit_of_range(s.last());
        let v = dec_value(s.drop_last());
        let p = pow10((s.len() - 1) as nat);
        assert(v * 10 + digit_of(s.last()) < 10 * p) by (nonlinear_arith)
            requires
                v < p,
                digit_of(s.last()) < 10,
        ;
        assert(pow10(s.len()) == 10 * p);
    }
}

/// A string of `'0'` characters denotes zero.
pub proof fn lemma_dec_value_zeros(s: Seq<char>)
    requires
        forall|i: int| 0 <= i < s.len() ==> s[i] == '0',
    ensures
        dec_value(s) == 0,
    decreases s.len(),
{
    if s.len() > 0 {
        lemma_dec_value_zeros(s.drop_last());
    }
}

/// Splitting a digit string splits its value positionally.
pub proof fn lemma_dec_value_split(s: Seq<char>, i: int)
    requires
        0 <= i <= s.len(),
    ensures
        dec_value(s) == dec_value(s.subrange(0, i)) * pow10((s.len() - i) as nat) + dec_value(
            s.subrange(i, s.len() as int),
        ),
    decreases s.len() - i,
{
    if i == s.len() {
        assert(s.subrange(0, i) =~= s);
        assert(s.subrange(i, s.len() as int) =~= Seq::<char>::empty());
        assert(pow10(0nat) == 1);
        assert(dec_value(Seq::<char>::empty()) == 0);
        let pr = dec_value(s.subrange(0, i));
        assert(pr == dec_value(s));
        assert((s.len() - i) as nat == 0);
        assert(pow10((s.len() - i) as nat) == 1);
        assert(dec_value(s.subrange(i, s.len() as int)) == 0);
        assert(pr * 1 == pr) by (nonlinear_arith);
        assert(dec_value(s) == dec_value(s.subrange(0, i)) * pow10((s.len() - i) as nat)
            + dec_value(s.subrange(i, s.len() as int)));
    } else {
        let t = s.drop_last();
        lemma_dec_value_split(t, i);
        let suff = s.subrange(i, s.len() as int);
        assert(t.subrange(0, i) =~= s.subrange(0, i));
        assert(t.subrange(i, t.len() as int) =~= suff.drop_last());
        let p = dec_value(s.subrange(0, i));
        let q = dec_value(suff.drop_last());
        let m = (t.len() - i) as nat;
        let d = digit_of(s.last());
        assert(suff.len() > 0);
        assert(suff.last() == s.last());
        assert(dec_value(suff) == q * 10 + d);
        assert(dec_value(t) == p * pow10(m) + q);
        assert(dec_value(s) == dec_value(t) * 10 + d);
        assert(dec_value(s) == (p * pow10(m)) * 10 + (q * 10 + d));
        assert((p * pow10(m)) * 10 == p * (10 * pow10(m))) by (nonlinear_arith);
        assert(pow10(m + 1) == 10 * pow10(m));
        assert((s.len() - i) as nat == m + 1);
        assert(dec_value(s) == p * pow10(m + 1) + dec_value(suff));
        assert(dec_value(s) == dec_value(s.subrange(0, i)) * pow10((s.len() - i) as nat)
            + dec_value(s.subrange(i, s.len() as int)));
    }
}

/// Appending digits never decreases the value.
pub proof fn lemma_dec_value_prefix_le(s: Seq<char>, i: int)
    requires
        0 <= i <= s.len(),
    ensures
        dec_value(s.subrange(0, i)) <= dec_value(s),
{
    lemma_dec_value_split(s, i);
    lemma_dec_value_nonneg(s.subrange(0, i));
    lemma_dec_value_nonneg(s.subrange(i, s.len() as int));
    lemma_pow10_pos((s.len() - i) as nat);
    let p = dec_value(s.subrange(0, i));
    let q = pow10((s.len() - i) as nat);
    assert(p * q >= p * 1) by (nonlinear_arith)
        requires
            p >= 0,
            q >= 1,
    ;
}

/// Leading zeros do not change a string's value.
pub proof fn lemma_dec_value_pad(s: Seq<char>, width: int)
    ensures
        dec_value(pad_left(s, '0', width)) == dec_value(s),
{
    if s.len() < width {
        let p = pad_left(s, '0', width);
        let m = width - s.len();
        assert(p.subrange(0, m) =~= Seq::new(m as nat, |i: int| '0'));
        assert(p.subrange(m, p.len() as int) =~= s);
        lemma_dec_value_split(p, m);
        lemma_dec_value_zeros(p.subrange(0, m));
    }
}

/// Re-rendering a digit string's value and zero-padding back to its length
/// reproduces the string exactly.
pub proof fn lemma_dec_digits_pad_roundtrip(s: Seq<char>)
    requires
        all_digits(s),
        s.len() >= 1,
    ensures
        pad_left(dec_digits(dec_value(s) as nat), '0', s.len() as int) == s,
    decreases s.len(),
{
    lemma_dec_value_nonneg(s);
    let v = dec_value(s) as nat;
    if s.len() == 1 {
        lemma_digit_of_range(s[0]);
        assert(s.drop_last() =~= Seq::<char>::empty());
        assert(dec_value(Seq::<char>::empty()) == 0);
        assert(s.last() == s[0]);
        assert(dec_value(s) == 0 * 10 + digit_of(s[0]));
        assert(v == digit_of(s[0]));
        lemma_char_of_digit_of(s[0]);
        assert(dec_digits(v) =~= seq![s[0]]);
        assert(pad_left(dec_digits(v), '0', 1) =~= s);
    } else {
        let t = s.drop_last();
        let d = digit_of(s.last());
        lemma_digit_of_range(s.last());
        lemma_char_of_digit_of(s.last());
        assert(all_digits(t));
        lemma_dec_value_nonneg(t);
        lemma_dec_digits_pad_roundtrip(t);
        let vt = dec_value(t) as nat;
        assert(v == vt * 10 + d);
        if vt >= 1 {
            assert(v >= 10) by (nonlinear_arith)
                requires
                    v == vt * 10 + d,
                    vt >= 1,
                    d >= 0,
            ;
            assert(v / 10 == vt && v % 10 == d) by (nonlinear_arith)
                requires
                    v == vt * 10 + d,
                    0 <= d < 10,
            ;
            assert(dec_digits(v) == dec_digits(vt).push(s.last()));
            lemma_pad_left_push(dec_digits(vt), '0', s.len() as int, s.last());
            assert(pad_left(dec_digits(vt), '0', s.len() - 1).push(s.last()) =~= s);
        } else {
            // The whole prefix is zeros, and the value is the last digit.
            assert(v == d);
            assert(dec_digits(v) == seq![char_of_digit(d)]);
            assert(dec_digits(0nat) =~= seq!['0']);
            let padded_t = pad_left(dec_digits(0nat), '0', t.len() as int);
            assert(forall|j: int| 0 <= j < padded_t.len() ==> padded_t[j] == '0');
            assert(padded_t == t);
            assert(forall|j: int| 0 <= j < t.len() ==> t[j] == '0');
            assert(forall|j: int| 0 <= j < s.len() - 1 ==> s[j] == t[j]);
            let out = pad_left(dec_digits(v), '0', s.len() as int);
            assert(dec_digits(v).len() == 1);
            assert(out =~= s) by {
                assert(out.len() == s.len());
                assert(forall|j: int| 0 <= j < s.len() - 1 ==> out[j] == '0');
                assert(forall|j: int| 0 <= j < s.len() - 1 ==> s[j] == '0');
                assert(out[s.len() - 1] == char_of_digit(d));
                assert(s[s.len() - 1] == s.last());
            }
        }
    }
}

/// The decimal rendering of a non-negative 64-bit number.
pub fn render_decimal(n: i64) -> (r: String)
    requires
        n >= 0,
    ensures
        r@ == dec_digits(n as nat),
{
    let mut v: Vec<char> = Vec::new();
    let d0: u8 = (n % 10) as u8;
    v.push(digit_to_char(d0));
    let mut cur: i64 = n / 10;
    proof {
        if n >= 10 {
            assert(dec_digits(n as nat) == dec_digits((n as nat) / 10).push(
                char_of_digit(((n as nat) % 10) as int),
            ));
            assert(dec_digits(n as nat) =~= dec_digits(cur as nat) + v@);
        } else {
            assert(dec_digits(n as nat) =~= v@);
        }
    }
    while cur > 0
        invariant
            0 <= cur,
            cur == 0 ==> dec_digits(n as nat) == v@,
            cur > 0 ==> dec_digits(n as nat) == dec_digits(cur as nat) + v@,
        decreases cur,
    {
        let d: u8 = (cur % 10) as u8;
        let ghost prev = cur;
        let ghost prev_v = v@;
        v.insert(0, digit_to_char(d));
        cur = cur / 10;
        proof {
            if cur > 0 {
                assert(prev >= 10);
                assert(dec_digits(prev as nat) == dec_digits(cur as nat).push(
                    char_of_digit(((prev as nat) % 10) as int),
                ));
                assert(dec_digits(cur as nat) + v@ =~= dec_digits(prev as nat) + prev_v);
            } else {
                assert(prev < 10);
                assert(dec_digits(prev as nat) =~= seq![char_of_digit(prev as int)]);
                assert(v@ =~= dec_digits(prev as nat) + prev_v);
            }
        }
    }
    chars_to_string(&v)
}

/// What `i64` parsing accepts: an optional sign followed by at least one
/// digit, all characters digits, and a value within the 64-bit signed range.
pub open spec fn parse_i64_spec(s: Seq<char>) -> Option<i64> {
    if s.len() == 0 {
        None
    } else if s[0] == '+' || s[0] == '-' {
        let body = s.drop_first();
        if body.len() >= 1 && all_digits(body) {
            if s[0] == '-' {
                if dec_value(body) <= 0x8000_0000_0000_0000 {
                    Some((-dec_value(body)) as i64)
                } else {
                    None
                }
            } else {
                if dec_value(body) <= i64::MAX {
                    Some(dec_value(body) as i64)
                } else {
                    None
                }
            }
        } else {
            None
        }
    } else if all_digits(s) {
        if dec_value(s) <= i64::MAX {
            Some(dec_value(s) as i64)
        } else {
            None
        }
    } else {
        None
    }
}

/// Parses a decimal string as a signed 64-bit number: an optional `'+'` or
/// `'-'`, then one or more digits, rejecting values out of range.
pub fn parse_i64(s: &str) -> (r: Option<i64>)
    ensures
        r == parse_i64_spec(s@),
{
    let v = str_to_chars(s);
    let n = v.len();
    if n == 0 {
        return None;
    }
    let signed: bool = v[0] == '+' || v[0] == '-';
    let neg: bool = v[0] == '-';
    let start: usize = if signed {
        1
    } else {
        0
    };
    if n == start {
        return None;
    }
    let ghost body = v@.subrange(start as int, n as int);
    proof {
        if signed {
            assert(body =~= s@.drop_first());
        } else {
            assert(body =~= s@);
        }
    }
    let limit: u64 = if neg {
        0x8000_0000_0000_0000
    } else {
        0x7FFF_FFFF_FFFF_FFFF
    };
    let mut acc: u64 = 0;
    let mut i: usize = start;
    proof {
        assert(v@.subrange(start as int, start as int) =~= Seq::<char>::empty());
    }
    while i < n
        invariant
            start <= i <= n,
            n == v@.len(),
            v@ == s@,
            body == v@.subrange(start as int, n as int),
            start == 0 || start == 1,
            start == 1 ==> (s@.len() >= 1 && (s@[0] == '+' || s@[0] == '-')),
            start == 0 ==> (s@.len() >= 1 && s@[0] != '+' && s@[0] != '-'),
            neg <==> (s@.len() >= 1 && s@[0] == '-'),
            body.len() >= 1,
            limit == if neg {
                0x8000_0000_0000_0000u64
            } else {
                0x7FFF_FFFF_FFFF_FFFFu64
            },
            all_digits(v@.subrange(start as int, i as int)),
            acc as int == dec_value(v@.subrange(start as int, i as int)),
            acc <= limit,
        decreases n - i,
    {
        let ghost prefix = v@.subrange(start as int, i as int);
        let ghost prefix2 = v@.subrange(start as int, i as int + 1);
        proof {
            assert(prefix2.drop_last() =~= prefix);
            assert(prefix2.last() == v@[i as int]);
        }
        match char_to_digit(v[i]) {
            None => {
                proof {
                    assert(!is_digit_char(body[i - start]));
                    assert(!all_digits(body));
                }
                return None;
            },
            Some(d) => {
                proof {
                    assert(all_digits(prefix2));
                    assert(dec_value(prefix2) == acc * 10 + d);
                }
                if acc > limit / 10 || (acc == limit / 10 && d as u64 > limit % 10) {
                    proof {
                        assert(acc * 10 + d > limit);
                        lemma_dec_value_nonneg(prefix2);
                        if start == 1 {
                            assert(body =~= s@.drop_first());
                        } else {
                            assert(body =~= s@);
                        }
                        if all_digits(body) {
                            assert(body.subrange(0, i + 1 - start) =~= prefix2);
                            lemma_dec_value_prefix_le(body, i + 1 - start);
                            assert(dec_value(body) > limit);
                        }
                        assert(parse_i64_spec(s@) is None);
                    }
                    return None;
                }
                acc = acc * 10 + d as u64;
            },
        }
        i = i + 1;
    }
    proof {
        assert(v@.subrange(start as int, n as int) =~= body);
        assert(all_digits(body));
        assert(acc as int == dec_value(body));
    }
    if neg {
        if acc == 0x8000_0000_0000_0000 {
            Some(i64::MIN)
        } else {
            Some(-(acc as i64))
        }
    } else {
        Some(acc as i64)
    }
}

} // verus!
