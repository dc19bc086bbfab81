//! Lexicographically sortable 128-bit identifiers.
//!
//! A [`Ulid`] packs a 48-bit millisecond timestamp and 80 bits of
//! randomness into one `u128`.  Construction from parts, from bytes and
//! from the Crockford base-32 text form is verified against bit-level
//! specifications; only the clock reading and the random draw are trusted
//! calls.

use vstd::prelude::*;

use crate::codec::pow_nat;
use crate::generator::IdGenerator;

verus! {

/// A string that is not a valid base-32 ULID rendering.
#[derive(Debug, Copy, Clone, PartialEq, Eq, Structural, Hash)]
pub enum DecodeError {
    /// The string is not exactly 26 characters long.
    InvalidLength,
    /// A character is not a Crockford base-32 digit.
    InvalidChar,
}

/// A 128-bit identifier: 48 bits of millisecond timestamp over 80 bits of
/// randomness.
#[derive(Debug, Default, PartialOrd, Ord, PartialEq, Eq, Structural, Hash, Clone, Copy)]
pub struct Ulid(pub u128);

/// The packed value: the low 48 bits of the timestamp shifted over the low
/// 80 bits of the randomness.
pub open spec fn ulid_pack(timestamp_ms: u64, random: u128) -> u128 {
    (((timestamp_ms & 0xFFFF_FFFF_FFFF) as u128) << 80) | (random
        & 0xFFFF_FFFF_FFFF_FFFF_FFFF)
}

/// A big-endian byte sequence read as a number.
pub open spec fn be_value(s: Seq<u8>) -> nat
    decreases s.len(),
{
    if s.len() == 0 {
        0
    } else {
        (be_value(s.drop_last()) * 256 + s.last()) as nat
    }
}

/// The truncating base-32 fold that ULID text decoding performs: each digit
/// shifts the accumulator up by five bits, and the five bits shifted out of
/// range are discarded, exactly as a 128-bit left shift discards them.
pub open spec fn crockford_fold(s: Seq<char>, acc: nat) -> nat
    decreases s.len(),
{
    if s.len() == 0 {
        acc
    } else {
        crockford_fold(
            s.drop_first(),
            ((acc % 0x800_0000_0000_0000_0000_0000_0000_0000) * 32 + crockford_digit(
                s[0],
            )) as nat,
        )
    }
}

/// Every character of `s` is a Crockford base-32 digit.
pub open spec fn all_crockford(s: Seq<char>) -> bool {
    forall|i: int| 0 <= i < s.len() ==> crockford_digit(#[trigger] s[i]) < 32
}

/// The value of a Crockford base-32 digit character, upper or lower
/// case; 32 on any character outside the alphabet.
pub open spec fn crockford_digit(c: char) -> int {
    if c == '0' { 0 } else if c == '1' { 1 } else if c == '2' { 2 } else if c == '3' { 3 } else if c == '4' { 4 } else if c == '5' { 5 } else if c == '6' { 6 } else if c == '7' { 7 } else if c == '8' { 8 } else if c == '9' { 9 } else if c == 'A' { 10 } else if c == 'a' { 10 } else if c == 'B' { 11 } else if c == 'b' { 11 } else if c == 'C' { 12 } else if c == 'c' { 12 } else if c == 'D' { 13 } else if c == 'd' { 13 } else if c == 'E' { 14 } else if c == 'e' { 14 } else if c == 'F' { 15 } else if c == 'f' { 15 } else if c == 'G' { 16 } else if c == 'g' { 16 } else if c == 'H' { 17 } else if c == 'h' { 17 } else if c == 'J' { 18 } else if c == 'j' { 18 } else if c == 'K' { 19 } else if c == 'k' { 19 } else if c == 'M' { 20 } else if c == 'm' { 20 } else if c == 'N' { 21 } else if c == 'n' { 21 } else if c == 'P' { 22 } else if c == 'p' { 22 } else if c == 'Q' { 23 } else if c == 'q' { 23 } else if c == 'R' { 24 } else if c == 'r' { 24 } else if c == 'S' { 25 } else if c == 's' { 25 } else if c == 'T' { 26 } else if c == 't' { 26 } else if c == 'V' { 27 } else if c == 'v' { 27 } else if c == 'W' { 28 } else if c == 'w' { 28 } else if c == 'X' { 29 } else if c == 'x' { 29 } else if c == 'Y' { 30 } else if c == 'y' { 30 } else if c == 'Z' { 31 } else if c == 'z' { 31 } else { 32 }
}

/// The value of a Crockford base-32 digit character, or `None` when the
/// character is not one.
pub fn crockford_to_digit(c: char) -> (r: Option<u8>)
    ensures
        match r {
            Some(d) => d < 32 && d as int == crockford_digit(c),
            None => crockford_digit(c) == 32,
        },
{
    match c {
        '0' => Some(0),
        '1' => Some(1),
        '2' => Some(2),
        '3' => Some(3),
        '4' => Some(4),
        '5' => Some(5),
        '6' => Some(6),
        '7' => Some(7),
        '8' => Some(8),
        '9' => Some(9),
        'A' => Some(10),
        'a' => Some(10),
        'B' => Some(11),
        'b' => Some(11),
        'C' => Some(12),
        'c' => Some(12),
        'D' => Some(13),
        'd' => Some(13),
        'E' => Some(14),
        'e' => Some(14),
        'F' => Some(15),
        'f' => Some(15),
        'G' => Some(16),
        'g' => Some(16),
        'H' => Some(17),
        'h' => Some(17),
        'J' => Some(18),
        'j' => Some(18),
        'K' => Some(19),
        'k' => Some(19),
        'M' => Some(20),
        'm' => Some(20),
        'N' => Some(21),
        'n' => Some(21),
        'P' => Some(22),
        'p' => Some(22),
        'Q' => Some(23),
        'q' => Some(23),
        'R' => Some(24),
        'r' => Some(24),
        'S' => Some(25),
        's' => Some(25),
        'T' => Some(26),
        't' => Some(26),
        'V' => Some(27),
        'v' => Some(27),
        'W' => Some(28),
        'w' => Some(28),
        'X' => Some(29),
        'x' => Some(29),
        'Y' => Some(30),
        'y' => Some(30),
        'Z' => Some(31),
        'z' => Some(31),
        _ => None,
    }
}

/// Powers of 256 up to the width of a `u128`.
proof fn lemma_pow256_values()
    ensures
        pow_nat(256, 15) == 0x100_0000_0000_0000_0000_0000_0000_0000,
{
    assert(pow_nat(256, 0) == 1);
    assert(pow_nat(256, 1) == 0x100);
    assert(pow_nat(256, 2) == 0x1_0000);
    assert(pow_nat(256, 3) == 0x100_0000);
    assert(pow_nat(256, 4) == 0x1_0000_0000);
    assert(pow_nat(256, 5) == 0x100_0000_0000);
    assert(pow_nat(256, 6) == 0x1_0000_0000_0000);
    assert(pow_nat(256, 7) == 0x100_0000_0000_0000);
    assert(pow_nat(256, 8) == 0x1_0000_0000_0000_0000);
    assert(pow_nat(256, 9) == 0x100_0000_0000_0000_0000);
    assert(pow_nat(256, 10) == 0x1_0000_0000_0000_0000_0000);
    assert(pow_nat(256, 11) == 0x100_0000_0000_0000_0000_0000);
    assert(pow_nat(256, 12) == 0x1_0000_0000_0000_0000_0000_0000);
    assert(pow_nat(256, 13) == 0x100_0000_0000_0000_0000_0000_0000);
    assert(pow_nat(256, 14) == 0x1_0000_0000_0000_0000_0000_0000_0000);
    assert(pow_nat(256, 15) == 0x100_0000_0000_0000_0000_0000_0000_0000);
}

/// Powers of 256 grow with the exponent.
proof fn lemma_pow256_mono(a: nat, b: nat)
    requires
        a <= b,
    ensures
        pow_nat(256, a) <= pow_nat(256, b),
    decreases b,
{
    if a < b {
        lemma_pow256_mono(a, (b - 1) as nat);
        let p = pow_nat(256, (b - 1) as nat);
        crate::codec::lemma_pow_nat_pos(256, (b - 1) as nat);
        assert(256 * p >= p) by (nonlinear_arith)
            requires
                p >= 1,
        ;
    }
}

/// Relies on `std::time::SystemTime::now`, with the result converted to
/// milliseconds since the Unix epoch; nothing can be promised of a clock
/// reading.
#[verifier::external_body]
fn now_unix_ms() -> u64 {
    std::time::SystemTime::now().duration_since(std::time::UNIX_EPOCH).map(
        |d| d.as_millis() as u64,
    ).unwrap_or(0)
}

/// Relies on `rand::random`: a freshly drawn random value, about which
/// nothing can be promised.
#[verifier::external_body]
fn random_u128() -> u128 {
    rand::random::<u128>()
}

impl Ulid {
    /// A fresh identifier from the current clock and a random draw.
    pub fn new() -> Self {
        Self::from_parts(now_unix_ms(), random_u128())
    }

    /// Packs a millisecond timestamp and a random value, keeping 48 and 80
    /// bits of them respectively.
    pub fn from_parts(timestamp_ms: u64, random: u128) -> (r: Self)
        ensures
            r.0 == ulid_pack(timestamp_ms, random),
    {
        let time_part: u128 = (timestamp_ms & 0xFFFF_FFFF_FFFF) as u128;
        let rand_part: u128 = random & 0xFFFF_FFFF_FFFF_FFFF_FFFF;
        Ulid((time_part << 80) | rand_part)
    }

    /// A fresh identifier for the given millisecond timestamp, with fresh
    /// randomness.
    pub fn from_datetime(timestamp_ms: u64) -> Self {
        Self::from_parts(timestamp_ms, random_u128())
    }

    /// Parses the 26-character Crockford base-32 rendering, accepting
    /// lower-case digits; lengths count characters.
    pub fn from_string(encoded: &str) -> (r: Result<Self, DecodeError>)
        ensures
            match r {
                Ok(u) => encoded@.len() == 26 && all_crockford(encoded@) && u.0 as nat
                    == crockford_fold(encoded@, 0),
                Err(e) => if encoded@.len() != 26 {
                    e == DecodeError::InvalidLength
                } else {
                    !all_crockford(encoded@) && e == DecodeError::InvalidChar
                },
            },
    {
        let v = crate::chars::str_to_chars(encoded);
        let n = v.len();
        if n != 26 {
            return Err(DecodeError::InvalidLength);
        }
        let mut acc: u128 = 0;
        let mut i: usize = 0;
        proof {
            assert(v@.subrange(0, 0) =~= Seq::<char>::empty());
            assert(v@.subrange(i as int, n as int) =~= v@);
        }
        while i < n
            invariant
                n == v@.len(),
                n == 26,
                v@ == encoded@,
                i <= n,
                all_crockford(v@.subrange(0, i as int)),
                crockford_fold(v@.subrange(i as int, n as int), acc as nat) == crockford_fold(
                    v@,
                    0,
                ),
            decreases n - i,
        {
            let ghost rest = v@.subrange(i as int, n as int);
            proof {
                assert(rest.len() > 0);
                assert(rest[0] == v@[i as int]);
                assert(rest.drop_first() =~= v@.subrange(i as int + 1, n as int));
            }
            match crockford_to_digit(v[i]) {
                None => {
                    proof {
                        assert(crockford_digit(v@[i as int]) == 32);
                        assert(!all_crockford(encoded@));
                    }
                    return Err(DecodeError::InvalidChar);
                },
                Some(d) => {
                    let truncated: u128 = acc % 0x800_0000_0000_0000_0000_0000_0000_0000;
                    acc = truncated * 32 + d as u128;
                    proof {
                        assert(all_crockford(v@.subrange(0, i as int + 1))) by {
                            assert(forall|j: int|
                                0 <= j < i + 1 ==> v@.subrange(0, i as int + 1)[j] == v@.subrange(
                                    0,
                                    i as int,
                                ).push(v@[i as int])[j]);
                        }
                    }
                },
            }
            i = i + 1;
        }
        proof {
            assert(v@.subrange(n as int, n as int) =~= Seq::<char>::empty());
            assert(v@.subrange(0, n as int) =~= v@);
        }
        Ok(Ulid(acc))
    }

    /// The all-zero identifier.
    pub fn nil() -> (r: Self)
        ensures
            r.0 == 0,
    {
        Ulid(0)
    }

    /// Reads sixteen big-endian bytes as an identifier.
    pub fn from_bytes(bytes: [u8; 16]) -> (r: Self)
        ensures
            r.0 as nat == be_value(bytes@),
    {
        let mut acc: u128 = 0;
        let mut i: usize = 0;
        proof {
            lemma_pow256_values();
            assert(bytes@.subrange(0, 0) =~= Seq::<u8>::empty());
        }
        while i < 16
            invariant
                i <= 16,
                bytes@.len() == 16,
                acc as nat == be_value(bytes@.subrange(0, i as int)),
                (acc as nat) < pow_nat(256, i as nat),
            decreases 16 - i,
        {
            let ghost prefix = bytes@.subrange(0, i as int);
            let ghost prefix2 = bytes@.subrange(0, i as int + 1);
            proof {
                assert(prefix2.drop_last() =~= prefix);
                assert(prefix2.last() == bytes@[i as int]);
                lemma_pow256_values();
                lemma_pow256_mono(i as nat, 15nat);
                assert(pow_nat(256, (i + 1) as nat) == 256 * pow_nat(256, i as nat));
                assert((acc as nat) * 256 + 255 < 256 * pow_nat(256, 15nat));
                assert(256 * pow_nat(256, 15nat) == 0x100 * 0x100_0000_0000_0000_0000_0000_0000_0000);
            }
            acc = acc * 256 + (bytes[i] as u128);
            i = i + 1;
        }
        proof {
            assert(bytes@.subrange(0, 16) =~= bytes@);
        }
        Ulid(acc)
    }

    /// Hands the raw 128-bit value over.
    pub fn into_inner(self) -> (r: u128)
        ensures
            r == self.0,
    {
        self.0
    }
}

/// A generator of fresh time-and-randomness identifiers.
pub struct UlidGenerator;

impl IdGenerator for UlidGenerator {
    type IdType = Ulid;

    fn next_id_rep() -> Ulid {
        Ulid::new()
    }
}

} // verus!
