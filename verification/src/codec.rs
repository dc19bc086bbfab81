//! Base-N encoding and decoding of numbers over an [`Alphabet`].
//!
//! `enc_base` and `dec_base` define the positional numeral system at the
//! specification level; [`AlphabetCodec`] implements both directions and is
//! proved against them.  Decoding tolerates redundant leading zero-digit
//! characters — they do not change the magnitude — and reports a character
//! outside the alphabet, or a value beyond the 64-bit signed range, as a
//! recoverable [`ConversionError`] rather than aborting.

use vstd::prelude::*;

use crate::alphabet::Alphabet;
use crate::alphabet::distinct_chars;
use crate::alphabet::lemma_alpha_index_of;
use crate::chars::chars_to_string;
use crate::chars::pad_left;
use crate::chars::str_to_chars;
use crate::prettifier::ConversionError;

verus! {

/// The `k`-th power of `b`.
pub open spec fn pow_nat(b: nat, k: nat) -> nat
    decreases k,
{
    if k == 0 {
        1
    } else {
        b * pow_nat(b, (k - 1) as nat)
    }
}

/// Every character of `s` belongs to the alphabet.
pub open spec fn in_alpha(alpha: Seq<char>, s: Seq<char>) -> bool {
    forall|i: int| 0 <= i < s.len() ==> alpha.contains(#[trigger] s[i])
}

/// The base-N digit string of `n` over `alpha`, most significant digit
/// first, with no extraneous leading zero digits; `0` encodes as the single
/// character at ordinal 0.
pub open spec fn enc_base(alpha: Seq<char>, n: nat) -> Seq<char>
    decreases n,
    via enc_base_decreases
{
    if alpha.len() <= 1 {
        Seq::empty()
    } else if n < alpha.len() {
        seq![alpha[n as int]]
    } else {
        enc_base(alpha, n / alpha.len()).push(alpha[(n % alpha.len()) as int])
    }
}

#[via_fn]
proof fn enc_base_decreases(alpha: Seq<char>, n: nat) {
    if alpha.len() > 1 && n >= alpha.len() {
        assert(n / alpha.len() < n) by (nonlinear_arith)
            requires
                alpha.len() >= 2,
                n >= alpha.len(),
        ;
    }
}

/// The number a digit string over `alpha` denotes, scanning left to right.
pub open spec fn dec_base(alpha: Seq<char>, s: Seq<char>) -> int
    decreases s.len(),
{
    if s.len() == 0 {
        0
    } else {
        dec_base(alpha, s.drop_last()) * alpha.len() + alpha.index_of(s.last())
    }
}

/// An encoding uses only alphabet characters, at least one of them.
pub proof fn lemma_enc_base_chars(alpha: Seq<char>, n: nat)
    requires
        alpha.len() >= 2,
    ensures
        in_alpha(alpha, enc_base(alpha, n)),
        enc_base(alpha, n).len() >= 1,
    decreases n,
{
    if n < alpha.len() {
        assert(alpha.contains(alpha[n as int]));
    } else {
        assert(n / alpha.len() < n) by (nonlinear_arith)
            requires
                alpha.len() >= 2,
                n >= alpha.len(),
        ;
        lemma_enc_base_chars(alpha, n / alpha.len());
        assert(alpha.contains(alpha[(n % alpha.len()) as int]));
        assert(enc_base(alpha, n).last() == alpha[(n % alpha.len()) as int]);
        assert(forall|i: int|
            0 <= i < enc_base(alpha, n).len() - 1 ==> enc_base(alpha, n)[i] == enc_base(
                alpha,
                n / alpha.len(),
            )[i]);
    }
}

/// Encoding and decoding are inverse.
pub proof fn lemma_dec_enc_roundtrip(alpha: Seq<char>, n: nat)
    requires
        distinct_chars(alpha),
        alpha.len() >= 2,
    ensures
        dec_base(alpha, enc_base(alpha, n)) == n,
    decreases n,
{
    let b = alpha.len();
    if n < b {
        lemma_alpha_index_of(alpha, n as int);
        let s = enc_base(alpha, n);
        assert(s.drop_last() =~= Seq::<char>::empty());
        assert(dec_base(alpha, Seq::<char>::empty()) == 0);
        assert(dec_base(alpha, s) == 0 * b + alpha.index_of(alpha[n as int]));
        assert(0 * b == 0) by (nonlinear_arith);
    } else {
        assert(n / b < n) by (nonlinear_arith)
            requires
                b >= 2,
                n >= b,
        ;
        lemma_dec_enc_roundtrip(alpha, n / b);
        lemma_alpha_index_of(alpha, (n % b) as int);
        let s = enc_base(alpha, n);
        assert(s.drop_last() =~= enc_base(alpha, n / b));
        assert(s.last() == alpha[(n % b) as int]);
        assert(dec_base(alpha, s) == dec_base(alpha, enc_base(alpha, n / b)) * b + alpha.index_of(
            alpha[(n % b) as int],
        ));
        assert(dec_base(alpha, s) == (n / b) * b + (n % b));
        vstd::arithmetic::div_mod::lemma_fundamental_div_mod(n as int, b as int);
        assert((n / b) * b == b * (n / b)) by (nonlinear_arith);
    }
}

/// A digit string's value over an alphabet is never negative.
pub proof fn lemma_dec_base_nonneg(alpha: Seq<char>, s: Seq<char>)
    requires
        distinct_chars(alpha),
        in_alpha(alpha, s),
    ensures
        dec_base(alpha, s) >= 0,
    decreases s.len(),
{
    if s.len() > 0 {
        assert(in_alpha(alpha, s.drop_last()));
        lemma_dec_base_nonneg(alpha, s.drop_last());
        let c = s.last();
        assert(alpha.contains(c));
        let i = choose|i: int| 0 <= i < alpha.len() && alpha[i] == c;
        lemma_alpha_index_of(alpha, i);
        assert(alpha.index_of(c) == i);
        let v = dec_base(alpha, s.drop_last());
        assert(v * alpha.len() >= 0) by (nonlinear_arith)
            requires
                v >= 0,
        ;
    }
}

/// Splitting a digit string splits its value positionally.
pub proof fn lemma_dec_base_split(alpha: Seq<char>, s: Seq<char>, i: int)
    requires
        0 <= i <= s.len(),
    ensures
        dec_base(alpha, s) == dec_base(alpha, s.subrange(0, i)) * pow_nat(
            alpha.len(),
            (s.len() - i) as nat,
        ) + dec_base(alpha, s.subrange(i, s.len() as int)),
    decreases s.len() - i,
{
    let b = alpha.len();
    if i == s.len() {
        assert(s.subrange(0, i) =~= s);
        assert(s.subrange(i, s.len() as int) =~= Seq::<char>::empty());
        assert(pow_nat(b, 0nat) == 1);
        let pr = dec_base(alpha, s);
        assert(pr * 1 == pr) by (nonlinear_arith);
    } else {
        let t = s.drop_last();
        lemma_dec_base_split(alpha, t, i);
        let suff = s.subrange(i, s.len() as int);
        assert(t.subrange(0, i) =~= s.subrange(0, i));
        assert(t.subrange(i, t.len() as int) =~= suff.drop_last());
        let p = dec_base(alpha, s.subrange(0, i));
        let q = dec_base(alpha, suff.drop_last());
        let m = (t.len() - i) as nat;
        let d = alpha.index_of(s.last());
        assert(suff.len() > 0);
        assert(suff.last() == s.last());
        assert(dec_base(alpha, suff) == q * b + d);
        assert(dec_base(alpha, t) == p * pow_nat(b, m) + q);
        assert(dec_base(alpha, s) == dec_base(alpha, t) * b + d);
        assert(dec_base(alpha, s) == (p * pow_nat(b, m) + q) * b + d);
        assert((p * pow_nat(b, m) + q) * b == (p * pow_nat(b, m)) * b + q * b) by (nonlinear_arith);
        assert((p * pow_nat(b, m)) * b == p * (b * pow_nat(b, m))) by (nonlinear_arith);
        assert(pow_nat(b, m + 1) == b * pow_nat(b, m));
        assert((s.len() - i) as nat == m + 1);
    }
}

/// Digits appended on the right never decrease the value.
pub proof fn lemma_dec_base_prefix_le(alpha: Seq<char>, s: Seq<char>, i: int)
    requires
        distinct_chars(alpha),
        in_alpha(alpha, s),
        alpha.len() >= 1,
        0 <= i <= s.len(),
    ensures
        dec_base(alpha, s.subrange(0, i)) <= dec_base(alpha, s),
{
    lemma_dec_base_split(alpha, s, i);
    assert(in_alpha(alpha, s.subrange(0, i)));
    assert(in_alpha(alpha, s.subrange(i, s.len() as int)));
    lemma_dec_base_nonneg(alpha, s.subrange(0, i));
    lemma_dec_base_nonneg(alpha, s.subrange(i, s.len() as int));
    lemma_pow_nat_pos(alpha.len(), (s.len() - i) as nat);
    let p = dec_base(alpha, s.subrange(0, i));
    let q = pow_nat(alpha.len(), (s.len() - i) as nat);
    assert(p * q >= p * 1) by (nonlinear_arith)
        requires
            p >= 0,
            q >= 1,
    ;
}

/// Powers of a positive base are positive.
pub proof fn lemma_pow_nat_pos(b: nat, k: nat)
    requires
        b >= 1,
    ensures
        pow_nat(b, k) >= 1,
    decreases k,
{
    if k > 0 {
        lemma_pow_nat_pos(b, (k - 1) as nat);
        let p = pow_nat(b, (k - 1) as nat);
        assert(b * p >= 1) by (nonlinear_arith)
            requires
                b >= 1,
                p >= 1,
        ;
    }
}

/// A run of the zero-ordinal character denotes zero.
pub proof fn lemma_dec_base_zeros(alpha: Seq<char>, s: Seq<char>)
    requires
        distinct_chars(alpha),
        alpha.len() >= 1,
        forall|i: int| 0 <= i < s.len() ==> s[i] == alpha[0],
    ensures
        dec_base(alpha, s) == 0,
    decreases s.len(),
{
    if s.len() > 0 {
        lemma_dec_base_zeros(alpha, s.drop_last());
        lemma_alpha_index_of(alpha, 0);
        assert(dec_base(alpha, s) == 0 * alpha.len() + alpha.index_of(alpha[0]));
        assert(0 * alpha.len() == 0) by (nonlinear_arith);
    }
}

/// Left-padding with the zero-ordinal character does not change the value:
/// redundant leading zero digits are meaningless.
pub proof fn lemma_dec_base_pad(alpha: Seq<char>, s: Seq<char>, width: int)
    requires
        distinct_chars(alpha),
        alpha.len() >= 1,
    ensures
        dec_base(alpha, pad_left(s, alpha[0], width)) == dec_base(alpha, s),
{
    if s.len() < width {
        let p = pad_left(s, alpha[0], width);
        let m = width - s.len();
        assert(p.subrange(0, m) =~= Seq::new(m as nat, |i: int| alpha[0]));
        assert(p.subrange(m, p.len() as int) =~= s);
        lemma_dec_base_split(alpha, p, m);
        lemma_dec_base_zeros(alpha, p.subrange(0, m));
    }
}

/// Encoding and decoding of numeric identifiers over an alphabet.
pub trait Codec: Sized {
    /// The digit characters of this codec, in ordinal order.
    spec fn alphabet(&self) -> Seq<char>;

    /// The codec is fit for use.
    spec fn wf(&self) -> bool;

    /// Encodes a non-negative numeric identifier as a base-N string.
    fn encode(&self, number: i64) -> (r: String)
        requires
            self.wf(),
            number >= 0,
        ensures
            r@ == enc_base(self.alphabet(), number as nat),
    ;

    /// Decodes a base-N string back into a numeric identifier; a character
    /// outside the alphabet, or a value beyond `i64::MAX`, is reported as
    /// `ConversionError::InvalidId` carrying the offending string.
    fn decode(&self, rep: &str) -> (r: Result<i64, ConversionError>)
        requires
            self.wf(),
        ensures
            match r {
                Ok(v) => in_alpha(self.alphabet(), rep@) && dec_base(self.alphabet(), rep@)
                    <= i64::MAX && v as int == dec_base(self.alphabet(), rep@),
                Err(e) => (!in_alpha(self.alphabet(), rep@) || dec_base(self.alphabet(), rep@)
                    > i64::MAX) && (e matches ConversionError::InvalidId(p) && p@ == rep@),
            },
    ;
}

/// A codec over a configurable [`Alphabet`].
#[derive(Debug, Clone)]
pub struct AlphabetCodec(pub Alphabet);

impl AlphabetCodec {
    /// Wraps the given alphabet as a codec.
    pub fn new(alphabet: Alphabet) -> (r: Self)
        ensures
            r.0 == alphabet,
    {
        AlphabetCodec(alphabet)
    }
}

/// The 23-character default alphabet, which leaves out letters easily
/// confused with digits or with each other, such as `I`, `O` and `L`.
pub fn base_23_alphabet() -> (r: Alphabet)
    ensures
        r.wf(),
        r.chars() == "ABCDEFGHJKLMNPQRSTUVXYZ"@,
        r.chars().len() == 23,
{
    proof {
        reveal_strlit("ABCDEFGHJKLMNPQRSTUVXYZ");
    }
    Alphabet::new("ABCDEFGHJKLMNPQRSTUVXYZ")
}

impl Default for AlphabetCodec {
    /// The codec over the default 23-character alphabet.
    fn default() -> (r: Self)
        ensures
            r.wf(),
            r.alphabet() == "ABCDEFGHJKLMNPQRSTUVXYZ"@,
    {
        AlphabetCodec::new(base_23_alphabet())
    }
}

/// Tracks the running result and the digit position while decoding.
#[derive(Debug, Default)]
pub struct ResultWithIndex {
    /// The accumulated numeric result.
    pub result: i64,
    /// The number of digit positions consumed so far.
    pub pos: usize,
}

impl ResultWithIndex {
    /// Steps to the next digit position, carrying the updated result.
    pub fn increment_w_result(self, result: i64) -> (r: Self)
        requires
            self.pos < usize::MAX,
        ensures
            r.result == result,
            r.pos == self.pos + 1,
    {
        ResultWithIndex { result, pos: self.pos + 1 }
    }
}

impl Codec for AlphabetCodec {
    open spec fn alphabet(&self) -> Seq<char> {
        self.0.chars()
    }

    open spec fn wf(&self) -> bool {
        self.0.wf()
    }

    fn encode(&self, number: i64) -> (r: String) {
        proof {
            assert(self.0.wf());
            assert(number >= 0);
        }
        let b: i64 = self.0.base as i64;
        let mut v: Vec<char> = Vec::new();
        let ghost alpha = self.0.chars();
        let d0: usize = (number % b) as usize;
        v.push(self.0.value_of(d0));
        let mut cur: i64 = number / b;
        proof {
            assert(0 <= number % b < b);
            assert(d0 == number % b);
            if number >= b {
                assert(cur >= 1) by (nonlinear_arith)
                    requires
                        number >= b,
                        b >= 2,
                        cur == number / b,
                ;
                assert(enc_base(alpha, number as nat) == enc_base(alpha, (number as nat) / (
                b as nat)).push(alpha[((number as nat) % (b as nat)) as int]));
                assert(cur as nat == (number as nat) / (b as nat));
                assert(d0 as int == ((number as nat) % (b as nat)) as int);
                assert(enc_base(alpha, number as nat) =~= enc_base(alpha, cur as nat) + v@);
            } else {
                assert(cur == 0) by (nonlinear_arith)
                    requires
                        0 <= number < b,
                        cur == number / b,
                ;
                assert(number % b == number) by (nonlinear_arith)
                    requires
                        0 <= number < b,
                ;
                assert((number as nat) < alpha.len());
                assert(enc_base(alpha, number as nat) == seq![alpha[number as int]]);
                assert(enc_base(alpha, number as nat) =~= v@);
            }
        }
        while cur > 0
            invariant
                self.0.wf(),
                alpha == self.0.chars(),
                b == self.0.base as i64,
                0 <= cur,
                cur == 0 ==> enc_base(alpha, number as nat) == v@,
                cur > 0 ==> enc_base(alpha, number as nat) == enc_base(alpha, cur as nat) + v@,
            decreases cur,
        {
            let d: usize = (cur % b) as usize;
            let ghost prev = cur;
            let ghost prev_v = v@;
            v.insert(0, self.0.value_of(d));
            cur = cur / b;
            proof {
                if cur > 0 {
                    assert(prev >= b) by (nonlinear_arith)
                        requires
                            b >= 2,
                            prev > 0,
                            cur == prev / b,
                            cur > 0,
                    ;
                    assert(enc_base(alpha, prev as nat) == enc_base(alpha, (prev as nat) / (
                    b as nat)).push(alpha[((prev as nat) % (b as nat)) as int]));
                    assert(enc_base(alpha, cur as nat) + v@ =~= enc_base(alpha, prev as nat)
                        + prev_v);
                } else {
                    assert(prev < b) by (nonlinear_arith)
                        requires
                            b >= 2,
                            prev > 0,
                            cur == prev / b,
                            cur == 0,
                    ;
                    assert(prev % b == prev) by (nonlinear_arith)
                        requires
                            0 <= prev < b,
                    ;
                    assert(enc_base(alpha, prev as nat) =~= seq![alpha[prev as int]]);
                    assert(v@ =~= enc_base(alpha, prev as nat) + prev_v);
                }
            }
        }
        chars_to_string(&v)
    }

    fn decode(&self, rep: &str) -> (r: Result<i64, ConversionError>) {
        let v = str_to_chars(rep);
        let n = v.len();
        let b: i64 = self.0.base as i64;
        let ghost alpha = self.0.chars();
        let mut acc = ResultWithIndex { result: 0, pos: 0 };
        proof {
            assert(v@.subrange(0, 0) =~= Seq::<char>::empty());
        }
        while acc.pos < n
            invariant
                self.0.wf(),
                alpha == self.0.chars(),
                b == self.0.base as i64,
                n == v@.len(),
                v@ == rep@,
                acc.pos <= n,
                in_alpha(alpha, v@.subrange(0, acc.pos as int)),
                0 <= acc.result,
                acc.result as int == dec_base(alpha, v@.subrange(0, acc.pos as int)),
            decreases n - acc.pos,
        {
            let i = acc.pos;
            let ghost prefix = v@.subrange(0, i as int);
            let ghost prefix2 = v@.subrange(0, i as int + 1);
            proof {
                assert(prefix2.drop_last() =~= prefix);
                assert(prefix2.last() == v@[i as int]);
            }
            match self.0.try_index_of(v[i]) {
                None => {
                    proof {
                        assert(!alpha.contains(v@[i as int]));
                        assert(!in_alpha(alpha, rep@));
                    }
                    return Err(ConversionError::InvalidId(String::from_str(rep)));
                },
                Some(idx) => {
                    proof {
                        assert(alpha[idx as int] == v@[i as int]);
                        lemma_alpha_index_of(alpha, idx as int);
                        assert(alpha.index_of(v@[i as int]) == idx as int);
                        assert(in_alpha(alpha, prefix2));
                        assert(dec_base(alpha, prefix2) == acc.result * b + idx);
                    }
                    let idx64: i64 = idx as i64;
                    if acc.result > (i64::MAX - idx64) / b {
                        proof {
                            let a = acc.result as int;
                            let bi = b as int;
                            let x = idx64 as int;
                            let m = i64::MAX - x;
                            vstd::arithmetic::div_mod::lemma_fundamental_div_mod(m, bi);
                            vstd::arithmetic::div_mod::lemma_mod_bound(m, bi);
                            assert(a * bi + x > i64::MAX) by (nonlinear_arith)
                                requires
                                    a > m / bi,
                                    bi >= 2,
                                    m >= 0,
                                    x == i64::MAX - m,
                                    m == bi * (m / bi) + (m % bi),
                                    0 <= m % bi < bi,
                            ;
                            if in_alpha(alpha, rep@) {
                                assert(rep@.subrange(0, i as int + 1) =~= prefix2);
                                lemma_dec_base_prefix_le(alpha, rep@, i as int + 1);
                                assert(dec_base(alpha, rep@) > i64::MAX);
                            }
                        }
                        return Err(ConversionError::InvalidId(String::from_str(rep)));
                    }
                    proof {
                        let a = acc.result as int;
                        let bi = b as int;
                        let x = idx64 as int;
                        let m = i64::MAX - x;
                        vstd::arithmetic::div_mod::lemma_fundamental_div_mod(m, bi);
                        vstd::arithmetic::div_mod::lemma_mod_bound(m, bi);
                        assert(a * bi + x <= i64::MAX) by (nonlinear_arith)
                            requires
                                a <= m / bi,
                                a >= 0,
                                bi >= 2,
                                m >= 0,
                                x == i64::MAX - m,
                                m == bi * (m / bi) + (m % bi),
                                0 <= m % bi < bi,
                        ;
                        assert(a * bi >= 0) by (nonlinear_arith)
                            requires
                                a >= 0,
                                bi >= 2,
                        ;
                    }
                    let next = acc.result * b + idx64;
                    acc = acc.increment_w_result(next);
                },
            }
        }
        proof {
            assert(v@.subrange(0, n as int) =~= rep@);
        }
        Ok(acc.result)
    }
}

} // verus!
