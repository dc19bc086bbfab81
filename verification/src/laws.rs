//! The prettifier's global guarantees.
//!
//! The central theorem here is the round trip: decoding undoes prettifying
//! for every seed in `[0, i64::MAX]` and every well-formed configuration.
//! Beside it stands tamper detection: changing a single digit of a direct
//! segment of a freshly prettified identifier always makes decoding fail.
//! The supporting lemmas relate joining to splitting and chunking to
//! concatenation.

use vstd::prelude::*;

use crate::chars::all_digits;
use crate::chars::is_digit_char;
use crate::chars::lemma_digit_char_roundtrip;
use crate::chars::lemma_pad_left_twice;
use crate::chars::pad_left;
use crate::codec::dec_base;
use crate::codec::enc_base;
use crate::codec::in_alpha;
use crate::codec::lemma_dec_base_nonneg;
use crate::codec::lemma_dec_base_pad;
use crate::codec::lemma_dec_enc_roundtrip;
use crate::codec::lemma_enc_base_chars;
use crate::damm::damm_valid;
use crate::digits::dec_digits;
use crate::digits::dec_value;
use crate::digits::lemma_dec_digits_digits;
use crate::digits::lemma_dec_digits_len;
use crate::digits::lemma_dec_digits_pad_roundtrip;
use crate::digits::lemma_dec_value_bound;
use crate::digits::lemma_dec_value_nonneg;
use crate::digits::lemma_pow10_mono;
use crate::digits::lemma_pow10_values;
use crate::digits::parse_i64_spec;
use crate::digits::pow10;
use crate::prettifier::IdPrettifier;
use crate::prettifier::checked_string;
use crate::prettifier::chunks_of;
use crate::prettifier::concat_all;
use crate::prettifier::direct_at;
use crate::prettifier::join_with;
use crate::prettifier::lemma_chunks_shape;
use crate::prettifier::lemma_split_len;
use crate::prettifier::max_parts;
use crate::prettifier::padded_parts;
use crate::prettifier::split_at_char;

verus! {

/// Concatenation distributes over appending part lists.
proof fn lemma_concat_app(a: Seq<Seq<char>>, b: Seq<Seq<char>>)
    ensures
        concat_all(a + b) == concat_all(a) + concat_all(b),
    decreases a.len(),
{
    if a.len() == 0 {
        assert(a + b =~~= b);
        assert(concat_all(a) =~= Seq::<char>::empty());
        assert(concat_all(a) + concat_all(b) =~= concat_all(b));
    } else {
        assert((a + b).drop_first() =~~= a.drop_first() + b);
        lemma_concat_app(a.drop_first(), b);
        assert((a + b)[0] == a[0]);
        assert(a[0] + (concat_all(a.drop_first()) + concat_all(b)) =~= (a[0] + concat_all(
            a.drop_first(),
        )) + concat_all(b));
    }
}

/// Concatenating the chunks of a string gives the string back.
proof fn lemma_concat_chunks(s: Seq<char>, k: int)
    requires
        k >= 1,
    ensures
        concat_all(chunks_of(s, k)) == s,
    decreases s.len(),
{
    if s.len() == 0 {
        assert(concat_all(chunks_of(s, k)) =~= s);
    } else if s.len() <= k {
        assert(chunks_of(s, k) == seq![s]);
        assert(seq![s].drop_first() =~~= Seq::<Seq<char>>::empty());
        assert(concat_all(Seq::<Seq<char>>::empty()) =~= Seq::<char>::empty());
        assert(concat_all(seq![s]) =~= s);
    } else {
        let t = s.subrange(0, s.len() - k);
        let last = s.subrange(s.len() - k, s.len() as int);
        lemma_concat_chunks(t, k);
        crate::prettifier::lemma_concat_push(chunks_of(t, k), last);
        assert(t + last =~= s);
    }
}

/// A string without the delimiter splits into itself alone.
proof fn lemma_split_whole(s: Seq<char>, d: char)
    requires
        !s.contains(d),
    ensures
        split_at_char(s, d) == seq![s],
    decreases s.len(),
{
    if s.len() == 0 {
        assert(split_at_char(s, d) =~~= seq![s]);
    } else {
        assert(s[0] != d);
        assert(!s.drop_first().contains(d)) by {
            assert(forall|i: int|
                0 <= i < s.drop_first().len() ==> s.drop_first()[i] == s[i + 1]);
        }
        lemma_split_whole(s.drop_first(), d);
        assert(split_at_char(s, d) =~~= seq![seq![s[0]] + s.drop_first()]);
        assert(seq![s[0]] + s.drop_first() =~= s);
        assert(split_at_char(s, d) =~~= seq![s]);
    }
}

/// Splitting a delimiter-free run, the delimiter, and a tail yields the run
/// and then whatever the tail splits into.
proof fn lemma_split_prepend(p: Seq<char>, t: Seq<char>, d: char)
    requires
        !p.contains(d),
    ensures
        split_at_char(p + seq![d] + t, d) == seq![p] + split_at_char(t, d),
    decreases p.len(),
{
    let s = p + seq![d] + t;
    if p.len() == 0 {
        assert(s[0] == d);
        assert(s.drop_first() =~= t);
        assert(split_at_char(s, d) =~~= seq![Seq::<char>::empty()] + split_at_char(t, d));
        assert(split_at_char(s, d) =~~= seq![p] + split_at_char(t, d));
    } else {
        assert(s[0] == p[0]);
        assert(p[0] != d);
        assert(!p.drop_first().contains(d)) by {
            assert(forall|i: int|
                0 <= i < p.drop_first().len() ==> p.drop_first()[i] == p[i + 1]);
        }
        lemma_split_prepend(p.drop_first(), t, d);
        assert(s.drop_first() =~= p.drop_first() + seq![d] + t);
        let rest = split_at_char(s.drop_first(), d);
        assert(rest == seq![p.drop_first()] + split_at_char(t, d));
        lemma_split_len(t, d);
        assert(rest[0] == p.drop_first());
        assert(rest.drop_first() =~~= split_at_char(t, d));
        assert(seq![s[0]] + rest[0] =~= p);
        assert(split_at_char(s, d) =~~= seq![p] + split_at_char(t, d));
    }
}

/// Splitting undoes joining when no part contains the delimiter.
proof fn lemma_split_join(parts: Seq<Seq<char>>, d: char)
    requires
        parts.len() >= 1,
        forall|i: int| 0 <= i < parts.len() ==> !(#[trigger] parts[i]).contains(d),
    ensures
        split_at_char(join_with(parts, seq![d]), d) == parts,
    decreases parts.len(),
{
    if parts.len() == 1 {
        lemma_split_whole(parts[0], d);
        assert(split_at_char(join_with(parts, seq![d]), d) =~~= parts);
    } else {
        lemma_split_join(parts.drop_first(), d);
        let tail = join_with(parts.drop_first(), seq![d]);
        assert(join_with(parts, seq![d]) == parts[0] + seq![d] + tail);
        lemma_split_prepend(parts[0], tail, d);
        assert(seq![parts[0]] + parts.drop_first() =~~= parts);
    }
}

/// Concatenating `t` all-zero rows of width `k` gives `t * k` zeros.
proof fn lemma_concat_zero_rows(t: int, k: int)
    requires
        t >= 0,
        k >= 0,
    ensures
        concat_all(Seq::new(t as nat, |i: int| Seq::new(k as nat, |j: int| '0'))) == Seq::new(
            (t * k) as nat,
            |j: int| '0',
        ),
    decreases t,
{
    let rows = Seq::new(t as nat, |i: int| Seq::new(k as nat, |j: int| '0'));
    if t == 0 {
        assert(concat_all(rows) =~= Seq::new(0nat, |j: int| '0'));
    } else {
        lemma_concat_zero_rows(t - 1, k);
        assert(rows.drop_first() =~~= Seq::new((t - 1) as nat, |i: int| Seq::new(k as nat, |j: int| '0')));
        assert(t * k == (t - 1) * k + k) by (nonlinear_arith);
        assert((t - 1) * k >= 0) by (nonlinear_arith)
            requires
                t >= 1,
                k >= 0,
        ;
        assert(concat_all(rows) == Seq::new(k as nat, |j: int| '0') + Seq::new(
            ((t - 1) * k) as nat,
            |j: int| '0',
        ));
        assert(Seq::new(k as nat, |j: int| '0') + Seq::new(((t - 1) * k) as nat, |j: int| '0')
            =~= Seq::new((t * k) as nat, |j: int| '0'));
    }
}

/// Properties of the checked digit string of a seed: all digits, between 2
/// and 20 characters, self-validating, and its value without the check
/// digit is the seed itself.
proof fn lemma_checked_string_props(seed: i64)
    requires
        seed >= 0,
    ensures
        all_digits(checked_string(seed as nat)),
        2 <= checked_string(seed as nat).len() <= 20,
        damm_valid(checked_string(seed as nat)),
        checked_string(seed as nat).drop_last() == dec_digits(seed as nat),
        dec_value(dec_digits(seed as nat)) == seed,
{
    let dd = dec_digits(seed as nat);
    let s = checked_string(seed as nat);
    lemma_dec_digits_digits(seed as nat);
    crate::damm::lemma_damm_fold_range(dd, 0);
    lemma_digit_char_roundtrip(crate::damm::damm_checksum(dd));
    assert(all_digits(s));
    lemma_pow10_values();
    lemma_dec_digits_len(seed as nat, 19);
    assert(s.len() == dd.len() + 1);
    crate::damm::lemma_self_validation(dd);
    assert(s.drop_last() =~= dd);
    crate::digits::lemma_dec_digits_value(seed as nat);
}

/// The round trip: decoding a freshly prettified seed always succeeds and
/// yields the seed back, for every well-formed configuration and every seed
/// in the non-negative 64-bit range.
#[verifier::rlimit(100)]
pub proof fn lemma_round_trip(p: &IdPrettifier, seed: i64)
    requires
        p.wf(),
        seed >= 0,
    ensures
        p.decodes_cleanly(p.prettified(seed as nat)),
        parse_i64_spec(p.stripped_digits(p.prettified(seed as nat))) == Some(seed),
{
    let k = p.parts_size as int;
    let d = p.delim();
    let alpha = p.alpha();
    let dd = dec_digits(seed as nat);
    let s = checked_string(seed as nat);
    lemma_checked_string_props(seed);
    lemma_pow10_values();

    let chunks = chunks_of(s, k);
    lemma_chunks_shape(s, k);
    let c = chunks.len() as int;
    assert(c >= 1) by (nonlinear_arith)
        requires
            c == (s.len() + k - 1) / k,
            s.len() >= 1,
            k >= 1,
    ;
    let m = max_parts(k);
    vstd::arithmetic::div_mod::lemma_div_is_ordered(s.len() + k - 1, 20 + k - 1, k);
    assert(c <= m);

    let padded = if p.leading_zeros {
        padded_parts(chunks, m)
    } else {
        chunks
    };
    let n = padded.len() as int;
    let off = n - c;
    assert(off >= 0);
    assert(forall|i: int| 0 <= i < off ==> padded[i] == seq!['0']);
    assert(forall|i: int| off <= i < n ==> padded[i] == chunks[i - off]);
    assert(seq!['0'][0] == '0');
    assert(forall|i: int|
        0 <= i < n ==> all_digits(#[trigger] padded[i]) && 1 <= padded[i].len() <= k);

    let conv = p.converted_parts(padded);
    let sep = p.delimiter@;
    assert(sep =~= seq![d]);
    let pretty = p.prettified(seed as nat);
    assert(pretty == join_with(conv, seq![d]));

    // No converted segment contains the delimiter.
    assert forall|i: int| 0 <= i < n implies !(#[trigger] conv[i]).contains(d) by {
        let part = padded[i];
        let e = conv[i];
        if direct_at(n, i) {
            assert(forall|j: int| 0 <= j < e.len() ==> is_digit_char(#[trigger] e[j]));
            if e.contains(d) {
                let j = choose|j: int| 0 <= j < e.len() && e[j] == d;
                assert(is_digit_char(d));
            }
        } else {
            lemma_dec_value_nonneg(part);
            let v = dec_value(part) as nat;
            lemma_enc_base_chars(alpha, v);
            let enc = enc_base(alpha, v);
            assert(forall|j: int| 0 <= j < e.len() ==> alpha.contains(#[trigger] e[j])) by {
                assert(alpha.contains(alpha[0]));
                assert(forall|j: int| 0 <= j < enc.len() ==> alpha.contains(#[trigger] enc[j]));
            }
            if e.contains(d) {
                let j = choose|j: int| 0 <= j < e.len() && e[j] == d;
                assert(alpha.contains(d));
            }
        }
    }
    lemma_split_join(conv, d);
    assert(split_at_char(pretty, d) == conv);

    // Each segment decodes, and to what.
    let zrow = Seq::new(k as nat, |j: int| '0');
    let front: Seq<char> = if !p.leading_zeros && direct_at(n, off) {
        chunks[0]
    } else {
        pad_left(chunks[0], '0', k)
    };
    let dv = Seq::new(n as nat, |i: int| p.decoded_one(conv[i], direct_at(n, i)));
    assert forall|i: int| 0 <= i < n implies p.decodable_one(#[trigger] conv[i], direct_at(n, i))
        && dv[i] == (if i < off {
        zrow
    } else if i == off {
        front
    } else {
        chunks[i - off]
    }) by {
        let part = padded[i];
        let e = conv[i];
        lemma_dec_value_nonneg(part);
        let v = dec_value(part);
        lemma_dec_value_bound(part);
        lemma_pow10_mono(part.len() as nat, 18nat);
        assert(v < pow10(18nat));
        if direct_at(n, i) {
            // Kept verbatim: the (possibly padded) direct segment.
            if p.leading_zeros {
                assert(e == pad_left(part, '0', k));
                if i < off {
                    assert(part == seq!['0']);
                    assert(pad_left(seq!['0'], '0', k) =~= zrow);
                } else if i > off {
                    assert(part.len() == k);
                }
            } else {
                assert(off == 0);
                assert(e == part);
            }
        } else {
            // Encoded; decoding gives the segment value back.
            let enc = enc_base(alpha, v as nat);
            lemma_enc_base_chars(alpha, v as nat);
            assert(in_alpha(alpha, e)) by {
                assert(alpha.contains(alpha[0]));
                assert(forall|j: int| 0 <= j < e.len() ==> alpha.contains(#[trigger] e[j]));
            }
            if p.leading_zeros {
                lemma_dec_base_pad(alpha, enc, p.max_encoder_length as int);
            }
            lemma_dec_enc_roundtrip(alpha, v as nat);
            assert(dec_base(alpha, e) == v);
            assert(p.decodable_one(e, false));
            lemma_dec_digits_pad_roundtrip(part);
            lemma_pad_left_twice(dec_digits(v as nat), '0', part.len() as int, k);
            assert(p.decoded_one(e, false) == pad_left(part, '0', k));
            if i < off {
                assert(part == seq!['0']);
                assert(pad_left(seq!['0'], '0', k) =~= zrow);
            } else if i > off {
                assert(part.len() == k);
                assert(pad_left(part, '0', k) == part);
            } else {
                assert(pad_left(chunks[0], '0', k) == front);
            }
        }
    }
    assert(p.parts_decodable(conv));

    // The reassembled string is the checked string behind a run of zeros.
    let re = p.reassembled(conv);
    assert(re == concat_all(dv));
    let zero_rows = Seq::new(off as nat, |i: int| zrow);
    let chunk_rows = seq![front] + chunks.drop_first();
    assert(dv =~~= zero_rows + chunk_rows);
    lemma_concat_app(zero_rows, chunk_rows);
    lemma_concat_zero_rows(off, k);
    lemma_concat_app(seq![front], chunks.drop_first());
    assert(concat_all(seq![front]) =~= front) by {
        assert(seq![front].drop_first() =~~= Seq::<Seq<char>>::empty());
        assert(concat_all(Seq::<Seq<char>>::empty()) =~= Seq::<char>::empty());
    }
    lemma_concat_chunks(s, k);
    assert(chunks[0] + concat_all(chunks.drop_first()) == s);
    let len0 = chunks[0].len() as int;
    assert(concat_all(chunks.drop_first()) =~= s.subrange(len0, s.len() as int));
    let z = off * k + front.len() - len0;
    assert(front =~= Seq::new((front.len() - len0) as nat, |j: int| '0') + chunks[0]);
    assert(off * k >= 0) by (nonlinear_arith)
        requires
            off >= 0,
            k >= 1,
    ;
    let zeros = Seq::new(z as nat, |j: int| '0');
    assert(re =~= zeros + s);

    // The checksum still validates and the digits still parse to the seed.
    assert(forall|j: int| 0 <= j < zeros.len() ==> zeros[j] == '0');
    crate::damm::lemma_damm_fold_append(zeros, s, 0);
    crate::damm::lemma_damm_fold_zeros(zeros);
    assert(damm_valid(re));
    assert(re.len() >= 1);
    let stripped = re.drop_last();
    assert(stripped =~= zeros + dd);
    assert(stripped =~= pad_left(dd, '0', z + dd.len()));
    crate::digits::lemma_dec_value_pad(dd, z + dd.len());
    assert(dec_value(stripped) == seed);
    assert(all_digits(stripped));
    assert(stripped.len() >= 1);
    assert(!(stripped[0] == '+') && !(stripped[0] == '-')) by {
        assert(is_digit_char(stripped[0]));
    }
    assert(parse_i64_spec(stripped) == Some(seed));
    assert(p.stripped_digits(pretty) == stripped);
}

/// The number of characters that the parts before index `i` contribute.
pub open spec fn concat_prefix_len(parts: Seq<Seq<char>>, i: int) -> int {
    concat_all(parts.subrange(0, i)).len() as int
}

/// Updating one character of one part updates exactly one character of the
/// concatenation, at the offset of that part plus the position within it.
proof fn lemma_concat_update(parts: Seq<Seq<char>>, i: int, j: int, c: char)
    requires
        0 <= i < parts.len(),
        0 <= j < parts[i].len(),
    ensures
        0 <= concat_prefix_len(parts, i) + j < concat_all(parts).len(),
        concat_all(parts)[concat_prefix_len(parts, i) + j] == parts[i][j],
        concat_all(parts.update(i, parts[i].update(j, c))) == concat_all(parts).update(
            concat_prefix_len(parts, i) + j,
            c,
        ),
    decreases i,
{
    let parts2 = parts.update(i, parts[i].update(j, c));
    if i == 0 {
        assert(parts.subrange(0, 0) =~~= Seq::<Seq<char>>::empty());
        assert(concat_all(Seq::<Seq<char>>::empty()) =~= Seq::<char>::empty());
        assert(concat_prefix_len(parts, 0) == 0);
        assert(parts2[0] == parts[0].update(j, c));
        assert(parts2.drop_first() =~~= parts.drop_first());
        assert(concat_all(parts) == parts[0] + concat_all(parts.drop_first()));
        assert(concat_all(parts2) == parts[0].update(j, c) + concat_all(parts.drop_first()));
        assert(parts[0].update(j, c) + concat_all(parts.drop_first()) =~= (parts[0] + concat_all(
            parts.drop_first(),
        )).update(j, c));
    } else {
        assert(parts2[0] == parts[0]);
        assert(parts2.drop_first() =~~= parts.drop_first().update(i - 1, parts[i].update(j, c)));
        assert(parts.drop_first()[i - 1] == parts[i]);
        lemma_concat_update(parts.drop_first(), i - 1, j, c);
        let off = concat_prefix_len(parts.drop_first(), i - 1);
        assert(concat_all(parts) == parts[0] + concat_all(parts.drop_first()));
        assert(concat_all(parts2) == parts[0] + concat_all(parts.drop_first()).update(off + j, c));
        assert(parts.subrange(0, i).drop_first() =~~= parts.drop_first().subrange(0, i - 1));
        assert(concat_all(parts.subrange(0, i)) == parts[0] + concat_all(
            parts.drop_first().subrange(0, i - 1),
        )) by {
            assert(parts.subrange(0, i)[0] == parts[0]);
        }
        assert(concat_prefix_len(parts, i) == parts[0].len() + off);
        assert(parts[0] + concat_all(parts.drop_first()).update(off + j, c) =~= (parts[0]
            + concat_all(parts.drop_first())).update(parts[0].len() + off + j, c));
    }
}

/// No part of a split contains the delimiter.
proof fn lemma_split_parts_no_delim(s: Seq<char>, d: char)
    ensures
        forall|i: int|
            0 <= i < split_at_char(s, d).len() ==> !(#[trigger] split_at_char(s, d)[i]).contains(
                d,
            ),
    decreases s.len(),
{
    let parts = split_at_char(s, d);
    if s.len() == 0 {
        assert(forall|i: int| 0 <= i < parts.len() ==> parts[i] == Seq::<char>::empty());
        assert(!Seq::<char>::empty().contains(d));
    } else {
        lemma_split_parts_no_delim(s.drop_first(), d);
        let rest = split_at_char(s.drop_first(), d);
        lemma_split_len(s.drop_first(), d);
        if s[0] == d {
            assert(parts == seq![Seq::<char>::empty()] + rest);
            assert(!Seq::<char>::empty().contains(d));
            assert(forall|i: int| 1 <= i < parts.len() ==> parts[i] == rest[i - 1]);
        } else {
            assert(parts == seq![seq![s[0]] + rest[0]] + rest.drop_first());
            assert(!rest[0].contains(d));
            assert(!(seq![s[0]] + rest[0]).contains(d)) by {
                let h = seq![s[0]] + rest[0];
                if h.contains(d) {
                    let x = choose|x: int| 0 <= x < h.len() && h[x] == d;
                    if x == 0 {
                        assert(s[0] == d);
                    } else {
                        assert(rest[0][x - 1] == d);
                        assert(rest[0].contains(d));
                    }
                }
            }
            assert(forall|i: int| 1 <= i < parts.len() ==> parts[i] == rest.drop_first()[i - 1]
                && rest.drop_first()[i - 1] == rest[i]);
        }
    }
}

/// Tamper detection: replacing any single digit character of a direct
/// segment of a freshly prettified identifier with a different digit makes
/// decoding reject the result.  (A direct segment is one the alternation
/// renders as plain decimal; the check digit always sits in one.)
#[verifier::rlimit(100)]
pub proof fn lemma_tamper_detected(p: &IdPrettifier, seed: i64, i: int, j: int, c2: char)
    requires
        p.wf(),
        seed >= 0,
        ({
            let parts = split_at_char(p.prettified(seed as nat), p.delim());
            &&& 0 <= i < parts.len()
            &&& direct_at(parts.len() as int, i)
            &&& 0 <= j < parts[i].len()
            &&& is_digit_char(parts[i][j])
            &&& is_digit_char(c2)
            &&& c2 != parts[i][j]
        }),
    ensures
        ({
            let parts = split_at_char(p.prettified(seed as nat), p.delim());
            let tampered = join_with(parts.update(i, parts[i].update(j, c2)), p.delimiter@);
            !p.decodes_cleanly(tampered)
        }),
{
    let pretty = p.prettified(seed as nat);
    let d = p.delim();
    let parts = split_at_char(pretty, d);
    let n = parts.len() as int;
    let parts2 = parts.update(i, parts[i].update(j, c2));
    let tampered = join_with(parts2, p.delimiter@);
    lemma_round_trip(p, seed);
    lemma_split_parts_no_delim(pretty, d);
    assert(!is_digit_char(d));

    // The tampered parts are still delimiter-free, so the tampered string
    // splits back into exactly them.
    assert forall|x: int| 0 <= x < parts2.len() implies !(#[trigger] parts2[x]).contains(d) by {
        if x == i {
            let h = parts2[i];
            if h.contains(d) {
                let y = choose|y: int| 0 <= y < h.len() && h[y] == d;
                if y == j {
                    assert(c2 == d);
                } else {
                    assert(parts[i][y] == d);
                    assert(parts[i].contains(d));
                }
            }
        }
    }
    assert(p.delimiter@ =~= seq![d]);
    lemma_split_join(parts2, d);
    assert(split_at_char(tampered, d) == parts2);

    // The reassembled digit string differs from the valid one in exactly
    // one digit, so the Damm check rejects it.
    let dv = Seq::new(n as nat, |x: int| p.decoded_one(parts[x], direct_at(n, x)));
    let dv2 = Seq::new(n as nat, |x: int| p.decoded_one(parts2[x], direct_at(n, x)));
    assert(dv[i] == parts[i]);
    assert(dv2 =~~= dv.update(i, dv[i].update(j, c2)));
    lemma_concat_update(dv, i, j, c2);
    let pos = concat_prefix_len(dv, i) + j;
    let re = p.reassembled(parts);
    let re2 = p.reassembled(parts2);
    assert(re2 == re.update(pos, c2));
    assert(re[pos] == parts[i][j]);
    assert(damm_valid(re));
    crate::damm::lemma_substitution_detected(re, pos, c2);
    assert(!damm_valid(re2));
}

} // verus!
