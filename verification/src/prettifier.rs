//! Human-readable identifiers with a check digit.
//!
//! An [`IdPrettifier`] renders a non-negative 64-bit seed in decimal,
//! appends a Damm check digit, chops the digit string into fixed-width
//! segments from the right, pads the segment list to a constant count,
//! converts alternating segments through the base-N codec, and joins the
//! results with a delimiter.  `to_id_seed` is the exact inverse, and every
//! malformed input comes back as a [`ConversionError`], never a crash.

use vstd::prelude::*;

use crate::chars::all_digits;
use crate::chars::chars_to_string;
use crate::chars::is_digit_char;
use crate::chars::lemma_digit_char_roundtrip;
use crate::chars::pad_left;
use crate::chars::pad_left_chars;
use crate::chars::str_to_chars;
use crate::codec::AlphabetCodec;
use crate::codec::Codec;
use crate::codec::base_23_alphabet;
use crate::codec::dec_base;
use crate::codec::enc_base;
use crate::codec::in_alpha;
use crate::codec::lemma_enc_base_chars;
use crate::alphabet::Alphabet;
use crate::damm;
use crate::damm::damm_encoded;
use crate::damm::damm_valid;
use crate::digits::dec_digits;
use crate::digits::dec_value;
use crate::digits::lemma_dec_value_bound;
use crate::digits::lemma_dec_value_nonneg;
use crate::digits::parse_i64_spec;
use crate::digits::pow10;
use crate::digits::render_decimal;

verus! {

/// An identifier string that could not be converted back into a seed.
#[derive(Debug)]
pub enum ConversionError {
    /// The reassembled digit string fails its Damm check: the input was
    /// tampered with, truncated, or never produced by `prettify`.
    InvalidId(String),
    /// The checksum validated, but the remaining digit string does not
    /// parse as a 64-bit signed integer; the payload is that digit string.
    ParseIntError(String),
}

/// The views of a vector of strings.
pub open spec fn str_views(parts: Seq<String>) -> Seq<Seq<char>> {
    Seq::new(parts.len(), |i: int| parts[i]@)
}

/// The digit string of `seed` followed by its Damm check digit: what the
/// prettifier segments and what decoding must reconstruct.
pub open spec fn checked_string(seed: nat) -> Seq<char> {
    damm_encoded(dec_digits(seed))
}

/// `s` cut into chunks of `k` characters from the right; the leftmost chunk
/// may be shorter when the length does not divide evenly.
pub open spec fn chunks_of(s: Seq<char>, k: int) -> Seq<Seq<char>>
    decreases s.len(),
    when k >= 1
{
    if s.len() == 0 {
        Seq::empty()
    } else if s.len() <= k {
        seq![s]
    } else {
        chunks_of(s.subrange(0, s.len() - k), k).push(s.subrange(s.len() - k, s.len() as int))
    }
}

/// The constant segment count that leading-zero padding fills up to:
/// `ceil(20 / k)`, 20 being one more than the largest decimal digit count
/// of a 64-bit signed value plus its check digit.
pub open spec fn max_parts(k: int) -> int {
    (20 + k - 1) / k
}

/// The segment list left-padded with `"0"` placeholder segments up to `m`
/// segments.
pub open spec fn padded_parts(parts: Seq<Seq<char>>, m: int) -> Seq<Seq<char>> {
    if parts.len() >= m {
        parts
    } else {
        Seq::new((m - parts.len()) as nat, |i: int| seq!['0']) + parts
    }
}

/// Whether segment `i` of `n` is rendered directly (zero-padded decimal)
/// rather than through the codec.  The alternation is anchored to the total
/// count so that the roles of existing segments do not shift when
/// leading-zero padding prepends placeholder segments; in particular the
/// last segment, which carries the check digit, is always direct.
pub open spec fn direct_at(n: int, i: int) -> bool {
    if n % 2 == 0 {
        i % 2 == 1
    } else {
        i % 2 == 0
    }
}

/// The parts joined with the separator between consecutive parts.
pub open spec fn join_with(parts: Seq<Seq<char>>, sep: Seq<char>) -> Seq<char>
    decreases parts.len(),
{
    if parts.len() == 0 {
        Seq::empty()
    } else if parts.len() == 1 {
        parts[0]
    } else {
        parts[0] + sep + join_with(parts.drop_first(), sep)
    }
}

/// All the parts concatenated in order.
pub open spec fn concat_all(parts: Seq<Seq<char>>) -> Seq<char>
    decreases parts.len(),
{
    if parts.len() == 0 {
        Seq::empty()
    } else {
        parts[0] + concat_all(parts.drop_first())
    }
}

/// `s` split on the delimiter character `d`: the list of runs between
/// occurrences of `d`, with empty runs kept, as `str::split` yields them.
pub open spec fn split_at_char(s: Seq<char>, d: char) -> Seq<Seq<char>>
    decreases s.len(),
{
    if s.len() == 0 {
        seq![Seq::<char>::empty()]
    } else if s[0] == d {
        seq![Seq::<char>::empty()] + split_at_char(s.drop_first(), d)
    } else {
        let rest = split_at_char(s.drop_first(), d);
        seq![seq![s[0]] + rest[0]] + rest.drop_first()
    }
}

/// A split always yields at least one part.
pub proof fn lemma_split_len(s: Seq<char>, d: char)
    ensures
        split_at_char(s, d).len() >= 1,
    decreases s.len(),
{
    if s.len() > 0 {
        lemma_split_len(s.drop_first(), d);
    }
}

/// A partial run prepended to the first part of an already split suffix.
pub open spec fn split_merge(pre: Seq<char>, rest: Seq<Seq<char>>) -> Seq<Seq<char>> {
    seq![pre + rest[0]] + rest.drop_first()
}

/// Concatenating one more part appends exactly that part.
pub proof fn lemma_concat_push(parts: Seq<Seq<char>>, x: Seq<char>)
    ensures
        concat_all(parts.push(x)) == concat_all(parts) + x,
    decreases parts.len(),
{
    let q = parts.push(x);
    if parts.len() == 0 {
        assert(q[0] == x);
        assert(q.drop_first() =~~= Seq::<Seq<char>>::empty());
        assert(concat_all(Seq::<Seq<char>>::empty()) =~= Seq::<char>::empty());
        assert(concat_all(q) =~= x);
        assert(concat_all(parts) + x =~= x);
    } else {
        assert(q.drop_first() =~~= parts.drop_first().push(x));
        lemma_concat_push(parts.drop_first(), x);
        assert(q[0] == parts[0]);
        assert(parts[0] + (concat_all(parts.drop_first()) + x) =~= (parts[0] + concat_all(
            parts.drop_first(),
        )) + x);
    }
}

/// Splits `s` at every occurrence of the character `d`, keeping empty runs.
pub fn split_char(s: &str, d: char) -> (r: Vec<String>)
    ensures
        str_views(r@) == split_at_char(s@, d),
{
    let v = str_to_chars(s);
    let n = v.len();
    let mut parts: Vec<String> = Vec::new();
    let mut cur: Vec<char> = Vec::new();
    let mut i: usize = 0;
    proof {
        assert(s@.subrange(0, n as int) =~= s@);
        lemma_split_len(s@, d);
        assert(split_merge(cur@, split_at_char(s@, d)) =~~= split_at_char(s@, d));
        assert(split_at_char(s@, d) =~~= str_views(parts@) + split_merge(
            cur@,
            split_at_char(s@.subrange(i as int, n as int), d),
        ));
    }
    while i < n
        invariant
            n == v@.len(),
            v@ == s@,
            i <= n,
            split_at_char(s@, d) == str_views(parts@) + split_merge(
                cur@,
                split_at_char(s@.subrange(i as int, n as int), d),
            ),
        decreases n - i,
    {
        let ghost rest = s@.subrange(i as int, n as int);
        let ghost rest2 = s@.subrange(i as int + 1, n as int);
        proof {
            assert(rest.len() > 0);
            assert(rest[0] == s@[i as int]);
            assert(rest.drop_first() =~= rest2);
            lemma_split_len(rest2, d);
        }
        if v[i] == d {
            let ghost old_parts = parts@;
            let ghost old_cur = cur@;
            let finished = chars_to_string(&cur);
            parts.push(finished);
            cur = Vec::new();
            proof {
                assert(split_at_char(rest, d) =~~= seq![Seq::<char>::empty()] + split_at_char(
                    rest2,
                    d,
                ));
                assert(split_merge(old_cur, split_at_char(rest, d)) =~~= seq![old_cur]
                    + split_merge(Seq::<char>::empty(), split_at_char(rest2, d)));
                assert(str_views(parts@) =~~= str_views(old_parts) + seq![old_cur]);
                assert(split_at_char(s@, d) =~~= str_views(parts@) + split_merge(
                    cur@,
                    split_at_char(rest2, d),
                ));
            }
        } else {
            let ghost old_cur = cur@;
            cur.push(v[i]);
            proof {
                let c = s@[i as int];
                assert(split_at_char(rest, d) =~~= seq![seq![c] + split_at_char(rest2, d)[0]]
                    + split_at_char(rest2, d).drop_first());
                assert(old_cur + (seq![c] + split_at_char(rest2, d)[0]) =~= cur@ + split_at_char(
                    rest2,
                    d,
                )[0]);
                assert(split_merge(old_cur, split_at_char(rest, d)) =~~= split_merge(
                    cur@,
                    split_at_char(rest2, d),
                ));
            }
        }
        i = i + 1;
    }
    let ghost old_parts = parts@;
    let last = chars_to_string(&cur);
    parts.push(last);
    proof {
        assert(s@.subrange(n as int, n as int) =~= Seq::<char>::empty());
        assert(split_at_char(Seq::<char>::empty(), d) =~~= seq![Seq::<char>::empty()]);
        assert(split_merge(cur@, seq![Seq::<char>::empty()]) =~~= seq![cur@]);
        assert(str_views(parts@) =~~= str_views(old_parts) + seq![cur@]);
        assert(str_views(parts@) =~~= split_at_char(s@, d));
    }
    parts
}

/// Prettifies numerical identifiers into delimited, checksum-protected,
/// partly base-N-encoded strings, and decodes them back.
#[derive(Debug, Clone)]
pub struct IdPrettifier {
    /// The codec used for the encoded segments.
    pub encoder: AlphabetCodec,
    /// The width of a segment, in decimal digits.
    pub parts_size: usize,
    /// The delimiter joining segments; a single character outside both the
    /// decimal digits and the alphabet.
    pub delimiter: String,
    /// Whether to pad to a constant segment count and width.
    pub leading_zeros: bool,
    /// The padding character for encoded segments: the character the codec
    /// encodes zero as.
    pub zero_char: char,
    /// The width encoded segments are padded to.  Derived from `encoder`
    /// and `parts_size` at construction; kept verbatim by struct update, as
    /// it only affects presentation, never decodability.
    pub max_encoder_length: usize,
}

impl IdPrettifier {
    /// The characters of the encoding alphabet.
    pub open spec fn alpha(&self) -> Seq<char> {
        self.encoder.0.chars()
    }

    /// The delimiter character.
    pub open spec fn delim(&self) -> char {
        self.delimiter@[0]
    }

    /// What `prettify` needs: a well-formed alphabet and a segment width
    /// whose decimal values fit comfortably in 64 bits.
    pub open spec fn enc_wf(&self) -> bool {
        &&& self.encoder.0.wf()
        &&& 1 <= self.parts_size <= 18
    }

    /// Full well-formedness, as the constructors establish it.  Decoding
    /// splits on the delimiter, so the delimiter is one character that can
    /// appear in no segment: neither a decimal digit nor a character of the
    /// alphabet.  `zero_char` is the codec's zero digit, which makes the
    /// padding of encoded segments invisible to decoding.
    pub open spec fn wf(&self) -> bool {
        &&& self.enc_wf()
        &&& self.delimiter@.len() == 1
        &&& !is_digit_char(self.delim())
        &&& !self.alpha().contains(self.delim())
        &&& self.zero_char == self.alpha()[0]
    }

    /// One segment as `prettify` renders it: direct segments become
    /// zero-padded decimal, encoded segments go through the codec and are
    /// padded with `zero_char`; without `leading_zeros` both stay unpadded.
    pub open spec fn convert_one(&self, part: Seq<char>, direct: bool) -> Seq<char> {
        if direct {
            if self.leading_zeros {
                pad_left(part, '0', self.parts_size as int)
            } else {
                part
            }
        } else {
            let e = enc_base(self.alpha(), dec_value(part) as nat);
            if self.leading_zeros {
                pad_left(e, self.zero_char, self.max_encoder_length as int)
            } else {
                e
            }
        }
    }

    /// Every segment converted according to its alternation role.
    pub open spec fn converted_parts(&self, parts: Seq<Seq<char>>) -> Seq<Seq<char>> {
        Seq::new(parts.len(), |i: int| self.convert_one(parts[i], direct_at(parts.len() as int, i)))
    }

    /// Whether segment `i` of `n` can be decoded: segments kept verbatim
    /// always can, while codec-encoded segments need every character in the
    /// alphabet and a value within the 64-bit signed range.
    pub open spec fn decodable_one(&self, part: Seq<char>, keep: bool) -> bool {
        keep || (in_alpha(self.alpha(), part) && dec_base(self.alpha(), part) <= i64::MAX)
    }

    /// One segment as decoding reconstructs it: kept verbatim when direct,
    /// otherwise decoded through the codec and rendered as decimal padded
    /// to the segment width.
    pub open spec fn decoded_one(&self, part: Seq<char>, keep: bool) -> Seq<char> {
        if keep {
            part
        } else {
            pad_left(
                dec_digits(dec_base(self.alpha(), part) as nat),
                '0',
                self.parts_size as int,
            )
        }
    }

    /// Every segment of the split input can be decoded.
    pub open spec fn parts_decodable(&self, parts: Seq<Seq<char>>) -> bool {
        forall|i: int|
            0 <= i < parts.len() ==> self.decodable_one(
                #[trigger] parts[i],
                direct_at(parts.len() as int, i),
            )
    }

    /// The checked digit string reconstructed from the split segments.
    pub open spec fn reassembled(&self, parts: Seq<Seq<char>>) -> Seq<char> {
        concat_all(
            Seq::new(
                parts.len(),
                |i: int| self.decoded_one(parts[i], direct_at(parts.len() as int, i)),
            ),
        )
    }

    /// The complete pretty rendering of `seed`.
    pub open spec fn prettified(&self, seed: nat) -> Seq<char> {
        let parts = chunks_of(checked_string(seed), self.parts_size as int);
        let padded = if self.leading_zeros {
            padded_parts(parts, max_parts(self.parts_size as int))
        } else {
            parts
        };
        join_with(self.converted_parts(padded), self.delimiter@)
    }

    /// Builds the default prettifier over the given alphabet: five-digit
    /// segments, `'-'` as delimiter, leading zeros on, and the two derived
    /// fields computed from the codec.  The alphabet must not contain the
    /// delimiter, or decoding could not split reliably.
    pub fn from_alphabet(alphabet: Alphabet) -> (r: Self)
        requires
            alphabet.wf(),
            !alphabet.chars().contains('-'),
        ensures
            r.wf(),
            r.encoder.0 == alphabet,
            r.parts_size == 5,
            r.delimiter@ == seq!['-'],
            r.leading_zeros == true,
            r.zero_char == alphabet.chars()[0],
            r.max_encoder_length == enc_base(alphabet.chars(), 99999nat).len(),
    {
        let encoder = AlphabetCodec::new(alphabet);
        let parts_size: usize = 5;
        let zero_rep = encoder.encode(0);
        proof {
            assert(enc_base(encoder.0.chars(), 0nat) == seq![encoder.0.chars()[0]]);
        }
        let zero_char = zero_rep.as_str().get_char(0);
        let max_rep = encoder.encode(99999);
        let max_encoder_length = max_rep.unicode_len();
        let delimiter = String::from_str("-");
        proof {
            reveal_strlit("-");
            assert(delimiter@ =~= seq!['-']);
        }
        IdPrettifier {
            encoder,
            parts_size,
            delimiter,
            leading_zeros: true,
            zero_char,
            max_encoder_length,
        }
    }

    /// Splits the checked digit string into segments of `parts_size`
    /// characters, cutting from the least-significant end so that only the
    /// leftmost segment can come up short.
    pub fn divide(&self, rep: String) -> (r: Vec<String>)
        requires
            self.parts_size >= 1,
        ensures
            str_views(r@) == chunks_of(rep@, self.parts_size as int),
    {
        let k = self.parts_size;
        let s = rep.as_str();
        let n = s.unicode_len();
        let mut parts: Vec<String> = Vec::new();
        let mut end: usize = n;
        proof {
            assert(s@.subrange(0, n as int) =~= s@);
            assert(chunks_of(s@, k as int) =~~= chunks_of(s@.subrange(0, end as int), k as int)
                + str_views(parts@));
        }
        while end > 0
            invariant
                k == self.parts_size,
                k >= 1,
                n == s@.len(),
                end <= n,
                chunks_of(s@, k as int) == chunks_of(s@.subrange(0, end as int), k as int)
                    + str_views(parts@),
            decreases end,
        {
            let start: usize = if end >= k {
                end - k
            } else {
                0
            };
            let ghost old_parts = parts@;
            let ghost pre = s@.subrange(0, end as int);
            let chunk = String::from_str(s.substring_char(start, end));
            parts.insert(0, chunk);
            proof {
                assert(chunk@ == s@.subrange(start as int, end as int));
                assert(str_views(parts@) =~~= seq![s@.subrange(start as int, end as int)]
                    + str_views(old_parts));
                if end > k {
                    assert(pre.len() > k);
                    assert(pre.subrange(0, end - k as int) =~= s@.subrange(0, end - k as int));
                    assert(pre.subrange(end - k as int, end as int) =~= s@.subrange(
                        start as int,
                        end as int,
                    ));
                    assert(chunks_of(pre, k as int) == chunks_of(
                        s@.subrange(0, start as int),
                        k as int,
                    ).push(s@.subrange(start as int, end as int)));
                    assert(chunks_of(pre, k as int) + str_views(old_parts) =~~= chunks_of(
                        s@.subrange(0, start as int),
                        k as int,
                    ) + str_views(parts@));
                } else {
                    assert(start == 0);
                    assert(pre.subrange(start as int, end as int) =~= pre);
                    assert(chunks_of(pre, k as int) == seq![pre]);
                    assert(s@.subrange(0, 0) =~= Seq::<char>::empty());
                    assert(chunks_of(s@.subrange(0, 0), k as int) == Seq::<Seq<char>>::empty());
                    assert(chunks_of(pre, k as int) + str_views(old_parts) =~~= chunks_of(
                        s@.subrange(0, start as int),
                        k as int,
                    ) + str_views(parts@));
                }
            }
            end = start;
        }
        proof {
            assert(s@.subrange(0, 0) =~= Seq::<char>::empty());
            assert(chunks_of(s@, k as int) =~~= str_views(parts@));
        }
        parts
    }

    /// Left-pads the segment list with `"0"` placeholder segments up to the
    /// constant count `ceil(20 / parts_size)`.
    pub fn add_leading_zeros_parts(&self, parts: Vec<String>) -> (r: Vec<String>)
        requires
            1 <= self.parts_size <= 18,
        ensures
            str_views(r@) == padded_parts(str_views(parts@), max_parts(self.parts_size as int)),
    {
        let k = self.parts_size;
        let m: usize = (20 + k - 1) / k;
        let ghost orig = str_views(parts@);
        let mut parts = parts;
        proof {
            assert(m == max_parts(k as int));
        }
        while parts.len() < m
            invariant
                k == self.parts_size,
                k >= 1,
                m == max_parts(k as int),
                str_views(parts@).len() >= orig.len(),
                padded_parts(str_views(parts@), m as int) == padded_parts(orig, m as int),
            decreases m - parts.len(),
        {
            let ghost before = str_views(parts@);
            let zero = String::from_str("0");
            proof {
                reveal_strlit("0");
            }
            let mut parts2 = parts;
            parts2.insert(0, zero);
            parts = parts2;
            proof {
                assert(str_views(parts@) =~~= seq![seq!['0']] + before);
                lemma_padded_parts_step(before, m as int);
            }
        }
        proof {
            assert(padded_parts(str_views(parts@), m as int) =~~= str_views(parts@));
        }
        parts
    }

    /// Left-pads one segment's rendering to `max_part_size` with
    /// `zero_char`.
    pub fn add_leading_zeros(encoded_part: &str, zero_char: char, max_part_size: usize) -> (r:
        String)
        ensures
            r@ == pad_left(encoded_part@, zero_char, max_part_size as int),
    {
        let v = str_to_chars(encoded_part);
        let padded = pad_left_chars(&v, zero_char, max_part_size);
        chars_to_string(&padded)
    }

    /// Whether converting `rep` back to a seed succeeds, up to integer
    /// parsing: every segment decodes, the reassembled digit string
    /// validates, and it is not empty.
    pub open spec fn decodes_cleanly(&self, s: Seq<char>) -> bool {
        let parts = split_at_char(s, self.delim());
        &&& self.parts_decodable(parts)
        &&& damm_valid(self.reassembled(parts))
        &&& self.reassembled(parts).len() >= 1
    }

    /// The digit string a conversion back to a seed parses: the
    /// reassembled checked string without its check digit.
    pub open spec fn stripped_digits(&self, s: Seq<char>) -> Seq<char> {
        self.reassembled(split_at_char(s, self.delim())).drop_last()
    }

    /// Reconstructs the checked digit string from a pretty identifier:
    /// splits on the delimiter, keeps direct segments verbatim, decodes
    /// encoded segments and renders them as zero-padded decimal.  `None`
    /// when an encoded segment cannot be decoded.
    pub fn decode_seed_with_check_digit(&self, rep: &str) -> (r: Option<String>)
        requires
            self.wf(),
        ensures
            match r {
                Some(t) => {
                    let parts = split_at_char(rep@, self.delim());
                    self.parts_decodable(parts) && t@ == self.reassembled(parts)
                },
                None => !self.parts_decodable(split_at_char(rep@, self.delim())),
            },
    {
        let d = self.delimiter.as_str().get_char(0);
        let parts = split_char(rep, d);
        let n = parts.len();
        let ghost pviews = str_views(parts@);
        let ghost dv = Seq::new(
            pviews.len(),
            |j: int| self.decoded_one(pviews[j], direct_at(n as int, j)),
        );
        let decode_even: bool = n % 2 != 0;
        let mut out = String::new();
        let mut i: usize = 0;
        proof {
            assert(dv.subrange(0, 0) =~~= Seq::<Seq<char>>::empty());
        }
        while i < n
            invariant
                self.wf(),
                n == parts@.len(),
                i <= n,
                decode_even == (n % 2 != 0),
                pviews == str_views(parts@),
                pviews == split_at_char(rep@, self.delim()),
                dv == Seq::new(
                    pviews.len(),
                    |j: int| self.decoded_one(pviews[j], direct_at(n as int, j)),
                ),
                forall|j: int|
                    0 <= j < i ==> self.decodable_one(
                        #[trigger] pviews[j],
                        direct_at(n as int, j),
                    ),
                out@ == concat_all(dv.subrange(0, i as int)),
            decreases n - i,
        {
            let is_even: bool = i % 2 == 0;
            let keep: bool = if decode_even {
                is_even
            } else {
                !is_even
            };
            proof {
                assert(keep == direct_at(n as int, i as int));
            }
            let part = &parts[i];
            if keep {
                out.append(part.as_str());
            } else {
                proof {
                    assert(part@ == pviews[i as int]);
                }
                match self.encoder.decode(part.as_str()) {
                    Err(_) => {
                        proof {
                            assert(!self.decodable_one(pviews[i as int], false));
                            assert(!self.parts_decodable(split_at_char(rep@, self.delim())));
                        }
                        return None;
                    },
                    Ok(value) => {
                        proof {
                            crate::codec::lemma_dec_base_nonneg(self.alpha(), part@);
                        }
                        let rendered = render_decimal(value);
                        let padded = Self::add_leading_zeros(rendered.as_str(), '0',
                            self.parts_size);
                        out.append(padded.as_str());
                        proof {
                            assert(padded@ == self.decoded_one(pviews[i as int], false));
                        }
                    },
                }
            }
            proof {
                lemma_concat_push(dv.subrange(0, i as int), dv[i as int]);
                assert(dv.subrange(0, i as int).push(dv[i as int]) =~~= dv.subrange(
                    0,
                    i as int + 1,
                ));
            }
            i = i + 1;
        }
        proof {
            assert(dv.subrange(0, n as int) =~~= dv);
        }
        Some(out)
    }

    /// Converts a pretty identifier back into its numeric seed, reporting
    /// tampering as `InvalidId` and an unparseable digit string as
    /// `ParseIntError`.
    pub fn convert_to_id(&self, rep: &str) -> (r: Result<i64, ConversionError>)
        requires
            self.wf(),
        ensures
            match r {
                Ok(v) => self.decodes_cleanly(rep@) && parse_i64_spec(self.stripped_digits(rep@))
                    == Some(v),
                Err(e) => match e {
                    ConversionError::InvalidId(p) => p@ == rep@ && !self.decodes_cleanly(rep@),
                    ConversionError::ParseIntError(p) => self.decodes_cleanly(rep@)
                        && parse_i64_spec(self.stripped_digits(rep@)) is None && p@
                        == self.stripped_digits(rep@),
                },
            },
    {
        match self.decode_seed_with_check_digit(rep) {
            None => Err(ConversionError::InvalidId(String::from_str(rep))),
            Some(decoded) => {
                if damm::is_valid(decoded.as_str()) {
                    let m = decoded.as_str().unicode_len();
                    if m >= 1 {
                        let stripped = decoded.as_str().substring_char(0, m - 1);
                        proof {
                            assert(stripped@ =~= decoded@.drop_last());
                        }
                        match crate::digits::parse_i64(stripped) {
                            Some(v) => Ok(v),
                            None => Err(
                                ConversionError::ParseIntError(String::from_str(stripped)),
                            ),
                        }
                    } else {
                        Err(ConversionError::InvalidId(String::from_str(rep)))
                    }
                } else {
                    Err(ConversionError::InvalidId(String::from_str(rep)))
                }
            },
        }
    }

    /// Decodes a pretty identifier back into its numeric seed.
    pub fn to_id_seed(&self, id: &str) -> (r: Result<i64, ConversionError>)
        requires
            self.wf(),
        ensures
            match r {
                Ok(v) => self.decodes_cleanly(id@) && parse_i64_spec(self.stripped_digits(id@))
                    == Some(v),
                Err(e) => match e {
                    ConversionError::InvalidId(p) => p@ == id@ && !self.decodes_cleanly(id@),
                    ConversionError::ParseIntError(p) => self.decodes_cleanly(id@)
                        && parse_i64_spec(self.stripped_digits(id@)) is None && p@
                        == self.stripped_digits(id@),
                },
            },
    {
        self.convert_to_id(id)
    }

    /// Whether `id` reconstructs to a digit string whose check digit
    /// validates, without decoding it to a seed.  An identifier whose
    /// encoded segments cannot be decoded is reported as invalid rather
    /// than aborting.
    pub fn is_valid(&self, id: &str) -> (r: bool)
        requires
            self.wf(),
        ensures
            r == {
                let parts = split_at_char(id@, self.delim());
                self.parts_decodable(parts) && damm_valid(self.reassembled(parts))
            },
    {
        match self.decode_seed_with_check_digit(id) {
            None => false,
            Some(decoded) => damm::is_valid(decoded.as_str()),
        }
    }

    /// Renders the segment list, converting each segment according to its
    /// alternation role and joining with the delimiter.
    pub fn convert_parts(&self, parts: Vec<String>) -> (r: String)
        requires
            self.enc_wf(),
            forall|i: int|
                0 <= i < parts@.len() ==> all_digits(#[trigger] parts@[i]@) && 1 <= parts@[i]@.len()
                    <= 18,
        ensures
            r@ == join_with(self.converted_parts(str_views(parts@)), self.delimiter@),
    {
        let n = parts.len();
        let encode_odd: bool = n % 2 == 0;
        let ghost views = str_views(parts@);
        let ghost cv = self.converted_parts(views);
        let mut out = String::new();
        let mut i: usize = 0;
        proof {
            assert(cv.subrange(0, 0) =~~= Seq::<Seq<char>>::empty());
        }
        while i < n
            invariant
                self.enc_wf(),
                n == parts@.len(),
                i <= n,
                encode_odd == (n % 2 == 0),
                views == str_views(parts@),
                cv == self.converted_parts(views),
                forall|j: int|
                    0 <= j < parts@.len() ==> all_digits(#[trigger] parts@[j]@) && 1 <= parts@[j]@
                        .len() <= 18,
                out@ == join_with(cv.subrange(0, i as int), self.delimiter@),
            decreases n - i,
        {
            let is_odd: bool = i % 2 != 0;
            let direct_part: bool = if encode_odd {
                is_odd
            } else {
                !is_odd
            };
            proof {
                assert(direct_part == direct_at(n as int, i as int));
            }
            let part = &parts[i];
            let converted: String = if direct_part {
                if self.leading_zeros {
                    Self::add_leading_zeros(part.as_str(), '0', self.parts_size)
                } else {
                    part.clone()
                }
            } else {
                let value = chunk_value(part.as_str());
                let encoded = self.encoder.encode(value);
                if self.leading_zeros {
                    Self::add_leading_zeros(encoded.as_str(), self.zero_char,
                        self.max_encoder_length)
                } else {
                    encoded
                }
            };
            proof {
                assert(converted@ == cv[i as int]);
            }
            if i > 0 {
                out.append(self.delimiter.as_str());
                out.append(converted.as_str());
            } else {
                out.append(converted.as_str());
            }
            proof {
                lemma_join_push(cv.subrange(0, i as int), cv[i as int], self.delimiter@);
                assert(cv.subrange(0, i as int).push(cv[i as int]) =~~= cv.subrange(
                    0,
                    i as int + 1,
                ));
            }
            i = i + 1;
        }
        proof {
            assert(cv.subrange(0, n as int) =~~= cv);
        }
        out
    }

    /// Converts a seed into its prettified, checksum-protected form.
    pub fn prettify(&self, id_seed: i64) -> (r: String)
        requires
            self.enc_wf(),
            id_seed >= 0,
        ensures
            r@ == self.prettified(id_seed as nat),
    {
        let id_rep = render_decimal(id_seed);
        let checked = damm::encode(id_rep.as_str());
        proof {
            assert(checked@ == checked_string(id_seed as nat));
            crate::digits::lemma_dec_digits_digits(id_seed as nat);
            crate::damm::lemma_damm_fold_range(dec_digits(id_seed as nat), 0);
            lemma_digit_char_roundtrip(crate::damm::damm_checksum(dec_digits(id_seed as nat)));
            assert(all_digits(checked@));
            assert(checked@.len() >= 2);
            lemma_chunks_shape(checked@, self.parts_size as int);
        }
        let parts = self.divide(checked);
        let parts_to_convert: Vec<String> = if self.leading_zeros {
            self.add_leading_zeros_parts(parts)
        } else {
            parts
        };
        proof {
            reveal_strlit("0");
            let k = self.parts_size as int;
            let chunks = chunks_of(checked@, k);
            let views = str_views(parts_to_convert@);
            assert(all_digits(seq!['0']) && seq!['0'].len() == 1) by {
                assert(seq!['0'][0] == '0');
            }
            assert forall|i: int| 0 <= i < views.len() implies all_digits(#[trigger] views[i]) && 1
                <= views[i].len() <= 18 by {
                if self.leading_zeros {
                    let m = max_parts(k);
                    if chunks.len() >= m {
                        assert(views[i] == chunks[i]);
                    } else if i < m - chunks.len() {
                        assert(views[i] == seq!['0']);
                    } else {
                        assert(views[i] == chunks[i - (m - chunks.len())]);
                    }
                } else {
                    assert(views[i] == chunks[i]);
                }
            }
            assert forall|i: int| 0 <= i < parts_to_convert@.len() implies all_digits(
                #[trigger] parts_to_convert@[i]@,
            ) && 1 <= parts_to_convert@[i]@.len() <= 18 by {
                assert(views[i] == parts_to_convert@[i]@);
            }
        }
        self.convert_parts(parts_to_convert)
    }
}

impl Default for IdPrettifier {
    /// The default prettifier: the 23-character alphabet, five-digit
    /// segments, `'-'` delimiter, leading zeros on.
    fn default() -> (r: Self)
        ensures
            r.wf(),
            r.alpha() == "ABCDEFGHJKLMNPQRSTUVXYZ"@,
            r.alpha().len() == 23,
            r.parts_size == 5,
            r.delimiter@ == seq!['-'],
            r.leading_zeros == true,
            r.zero_char == r.alpha()[0],
            r.max_encoder_length == enc_base(r.alpha(), 99999nat).len(),
    {
        let alphabet = base_23_alphabet();
        proof {
            reveal_strlit("ABCDEFGHJKLMNPQRSTUVXYZ");
            assert(!alphabet.chars().contains('-'));
        }
        Self::from_alphabet(alphabet)
    }
}

/// The numeric value of one all-digit segment of at most 18 characters,
/// which always fits a 64-bit signed integer.
pub fn chunk_value(part: &str) -> (r: i64)
    requires
        all_digits(part@),
        1 <= part@.len() <= 18,
    ensures
        r >= 0,
        r as int == dec_value(part@),
{
    let v = str_to_chars(part);
    let n = v.len();
    let mut acc: i64 = 0;
    let mut i: usize = 0;
    proof {
        assert(v@.subrange(0, 0) =~= Seq::<char>::empty());
        crate::digits::lemma_pow10_values();
    }
    while i < n
        invariant
            n == v@.len(),
            v@ == part@,
            all_digits(part@),
            1 <= n <= 18,
            i <= n,
            acc as int == dec_value(v@.subrange(0, i as int)),
            0 <= acc && (acc as int) < pow10(i as nat),
            pow10(18) == 1_000_000_000_000_000_000,
        decreases n - i,
    {
        let ghost prefix = v@.subrange(0, i as int);
        let ghost prefix2 = v@.subrange(0, i as int + 1);
        proof {
            assert(prefix2.drop_last() =~= prefix);
            assert(prefix2.last() == v@[i as int]);
            crate::digits::lemma_pow10_mono((i + 1) as nat, 18nat);
            assert(pow10((i + 1) as nat) == 10 * pow10(i as nat));
        }
        let d = match crate::chars::char_to_digit(v[i]) {
            Some(d) => d,
            None => {
                proof {
                    assert(is_digit_char(v@[i as int]));
                    assert(false);
                }
                0
            },
        };
        acc = acc * 10 + d as i64;
        i = i + 1;
    }
    proof {
        assert(v@.subrange(0, n as int) =~= part@);
    }
    acc
}

/// Joining one more part appends a separator and that part.
proof fn lemma_join_push(parts: Seq<Seq<char>>, x: Seq<char>, sep: Seq<char>)
    ensures
        join_with(parts.push(x), sep) == if parts.len() == 0 {
            x
        } else {
            join_with(parts, sep) + sep + x
        },
    decreases parts.len(),
{
    let q = parts.push(x);
    if parts.len() == 0 {
        assert(q.len() == 1);
        assert(q[0] == x);
    } else if parts.len() == 1 {
        assert(q.len() == 2);
        assert(q.drop_first() =~~= seq![x]);
        assert(join_with(q, sep) == q[0] + sep + join_with(seq![x], sep));
        assert(join_with(parts, sep) == parts[0]);
        assert(q[0] == parts[0]);
    } else {
        assert(q.drop_first() =~~= parts.drop_first().push(x));
        lemma_join_push(parts.drop_first(), x, sep);
        assert(join_with(q, sep) == q[0] + sep + join_with(parts.drop_first().push(x), sep));
        assert(q[0] == parts[0]);
        assert(join_with(parts.drop_first().push(x), sep) == join_with(parts.drop_first(), sep)
            + sep + x);
        assert(parts[0] + sep + (join_with(parts.drop_first(), sep) + sep + x) =~= (parts[0] + sep
            + join_with(parts.drop_first(), sep)) + sep + x);
    }
}

/// The shape of right-anchored chunking: how many chunks there are, that
/// every chunk is a well-sized piece of the string, and that only the
/// leftmost chunk can be narrower than `k`.
pub proof fn lemma_chunks_shape(s: Seq<char>, k: int)
    requires
        k >= 1,
    ensures
        chunks_of(s, k).len() == (s.len() + k - 1) / k,
        forall|j: int|
            0 <= j < chunks_of(s, k).len() ==> 1 <= (#[trigger] chunks_of(s, k)[j]).len() <= k,
        forall|j: int| 1 <= j < chunks_of(s, k).len() ==> (#[trigger] chunks_of(s, k)[j]).len() == k,
        all_digits(s) ==> forall|j: int|
            0 <= j < chunks_of(s, k).len() ==> all_digits(#[trigger] chunks_of(s, k)[j]),
    decreases s.len(),
{
    let c = chunks_of(s, k);
    if s.len() == 0 {
        assert((0 + k - 1) / k == 0) by (nonlinear_arith)
            requires
                k >= 1,
        ;
    } else if s.len() <= k {
        assert(c == seq![s]);
        assert((s.len() + k - 1) / k == 1) by (nonlinear_arith)
            requires
                k >= 1,
                1 <= s.len() <= k,
        ;
    } else {
        let t = s.subrange(0, s.len() - k);
        lemma_chunks_shape(t, k);
        let ct = chunks_of(t, k);
        assert(c == ct.push(s.subrange(s.len() - k, s.len() as int)));
        vstd::arithmetic::div_mod::lemma_div_plus_one(t.len() + k - 1, k);
        assert(c.len() == ct.len() + 1);
        assert((s.len() + k - 1) / k == (t.len() + k - 1) / k + 1);
        if all_digits(s) {
            assert(all_digits(t));
            assert(forall|j: int| 0 <= j < ct.len() ==> c[j] == ct[j]);
            assert(all_digits(s.subrange(s.len() - k, s.len() as int)));
        }
        assert(forall|j: int| 0 <= j < ct.len() ==> c[j] == ct[j]);
    }
}


/// Prepending one `"0"` placeholder to a still-short segment list does not
/// change what padding it up to `m` segments yields.
proof fn lemma_padded_parts_step(p: Seq<Seq<char>>, m: int)
    requires
        p.len() < m,
    ensures
        padded_parts(seq![seq!['0']] + p, m) == padded_parts(p, m),
{
    let q = seq![seq!['0']] + p;
    assert(padded_parts(q, m) =~~= padded_parts(p, m));
}

} // verus!
