//! Characters, decimal digits, and left-padding.
//!
//! The codec manipulates strings of ASCII decimal digits and of alphabet
//! characters.  This module gives the digit characters their numeric meaning,
//! and provides the left-padding operation shared by the prettifier's direct
//! and encoded segments.

use vstd::prelude::*;

verus! {

/// True of the ten ASCII decimal digit characters `'0'` through `'9'`.
pub open spec fn is_digit_char(c: char) -> bool {
    ||| c == '0'
    ||| c == '1'
    ||| c == '2'
    ||| c == '3'
    ||| c == '4'
    ||| c == '5'
    ||| c == '6'
    ||| c == '7'
    ||| c == '8'
    ||| c == '9'
}

/// The numeric value of an ASCII decimal digit character; 10 on any other
/// character, so that a non-digit never masquerades as a digit value.
pub open spec fn digit_of(c: char) -> int {
    if c == '0' {
        0
    } else if c == '1' {
        1
    } else if c == '2' {
        2
    } else if c == '3' {
        3
    } else if c == '4' {
        4
    } else if c == '5' {
        5
    } else if c == '6' {
        6
    } else if c == '7' {
        7
    } else if c == '8' {
        8
    } else if c == '9' {
        9
    } else {
        10
    }
}

/// The ASCII character for a decimal digit value in `0..10`.
pub open spec fn char_of_digit(d: int) -> char {
    if d == 0 {
        '0'
    } else if d == 1 {
        '1'
    } else if d == 2 {
        '2'
    } else if d == 3 {
        '3'
    } else if d == 4 {
        '4'
    } else if d == 5 {
        '5'
    } else if d == 6 {
        '6'
    } else if d == 7 {
        '7'
    } else if d == 8 {
        '8'
    } else {
        '9'
    }
}

/// True of every character of `s`.
pub open spec fn all_digits(s: Seq<char>) -> bool {
    forall|i: int| 0 <= i < s.len() ==> is_digit_char(#[trigger] s[i])
}

/// `char_of_digit` and `digit_of` invert each other on digit values.
pub proof fn lemma_digit_char_roundtrip(d: int)
    requires
        0 <= d < 10,
    ensures
        is_digit_char(char_of_digit(d)),
        digit_of(char_of_digit(d)) == d,
{
}

/// A digit character's value lies below 10.
pub proof fn lemma_digit_of_range(c: char)
    requires
        is_digit_char(c),
    ensures
        0 <= digit_of(c) < 10,
{
}

/// Two distinct digit characters have two distinct values.
pub proof fn lemma_digit_of_injective(c1: char, c2: char)
    requires
        is_digit_char(c1),
        is_digit_char(c2),
        c1 != c2,
    ensures
        digit_of(c1) != digit_of(c2),
{
}

/// `s` left-padded with `fill` to width `width`; `s` itself when it is
/// already at least that wide.
pub open spec fn pad_left(s: Seq<char>, fill: char, width: int) -> Seq<char> {
    if s.len() >= width {
        s
    } else {
        Seq::new((width - s.len()) as nat, |i: int| fill) + s
    }
}

/// Reading a digit character's value and rendering it again gives the
/// character back.
pub proof fn lemma_char_of_digit_of(c: char)
    requires
        is_digit_char(c),
    ensures
        char_of_digit(digit_of(c)) == c,
{
}

/// Padding commutes with appending one character at the end.
pub proof fn lemma_pad_left_push(s: Seq<char>, fill: char, width: int, a: char)
    ensures
        pad_left(s.push(a), fill, width) == pad_left(s, fill, width - 1).push(a),
{
    if s.len() >= width - 1 {
        assert(pad_left(s.push(a), fill, width) =~= pad_left(s, fill, width - 1).push(a));
    } else {
        assert(pad_left(s.push(a), fill, width) =~= pad_left(s, fill, width - 1).push(a));
    }
}

/// Padding an already padded string pads to the larger width.
pub proof fn lemma_pad_left_twice(s: Seq<char>, fill: char, narrow: int, wide: int)
    requires
        narrow <= wide,
    ensures
        pad_left(pad_left(s, fill, narrow), fill, wide) == pad_left(s, fill, wide),
{
    assert(pad_left(pad_left(s, fill, narrow), fill, wide) =~= pad_left(s, fill, wide));
}

/// The character at ordinal `d`, for digit values below 10.
pub fn digit_to_char(d: u8) -> (c: char)
    requires
        d < 10,
    ensures
        c == char_of_digit(d as int),
{
    match d {
        0 => '0',
        1 => '1',
        2 => '2',
        3 => '3',
        4 => '4',
        5 => '5',
        6 => '6',
        7 => '7',
        8 => '8',
        _ => '9',
    }
}

/// The digit value of `c`, or `None` when `c` is not an ASCII decimal digit.
pub fn char_to_digit(c: char) -> (r: Option<u8>)
    ensures
        match r {
            Some(d) => is_digit_char(c) && d < 10 && d as int == digit_of(c),
            None => !is_digit_char(c),
        },
{
    match c {
        '0' => Some(0),
        '1' => Some(1),
        '2' => Some(2),
        '3' => Some(3),
        '4' => Some(4),
        '5' => Some(5),
        '6' => Some(6),
        '7' => Some(7),
        '8' => Some(8),
        '9' => Some(9),
        _ => None,
    }
}

/// Relies on `String::push`: appends one character to the string.
#[verifier::external_body]
pub fn push_char(s: &mut String, c: char)
    ensures
        final(s)@ == old(s)@.push(c),
{
    s.push(c);
}

/// Builds a `String` holding exactly the characters of `v`.
pub fn chars_to_string(v: &Vec<char>) -> (r: String)
    ensures
        r@ == v@,
{
    let mut r = String::new();
    let mut i: usize = 0;
    while i < v.len()
        invariant
            i <= v.len(),
            r@ == v@.subrange(0, i as int),
        decreases v.len() - i,
    {
        push_char(&mut r, v[i]);
        i = i + 1;
        proof {
            assert(r@ =~= v@.subrange(0, i as int));
        }
    }
    proof {
        assert(r@ =~= v@);
    }
    r
}

/// Collects the characters of `s` into a vector.
pub fn str_to_chars(s: &str) -> (r: Vec<char>)
    ensures
        r@ == s@,
{
    let n = s.unicode_len();
    let mut r: Vec<char> = Vec::new();
    let mut i: usize = 0;
    while i < n
        invariant
            i <= n,
            n == s@.len(),
            r@ == s@.subrange(0, i as int),
        decreases n - i,
    {
        r.push(s.get_char(i));
        i = i + 1;
        proof {
            assert(r@ =~= s@.subrange(0, i as int));
        }
    }
    proof {
        assert(r@ =~= s@);
    }
    r
}

/// `v` left-padded with `fill` to width `width`, as `pad_left` describes.
pub fn pad_left_chars(v: &Vec<char>, fill: char, width: usize) -> (r: Vec<char>)
    ensures
        r@ == pad_left(v@, fill, width as int),
{
    let mut r: Vec<char> = Vec::new();
    if v.len() < width {
        let pad: usize = width - v.len();
        let mut i: usize = 0;
        while i < pad
            invariant
                i <= pad,
                r@ =~= Seq::new(i as nat, |j: int| fill),
            decreases pad - i,
        {
            r.push(fill);
            i = i + 1;
        }
    }
    let mut i: usize = 0;
    let ghost base = r@;
    while i < v.len()
        invariant
            i <= v.len(),
            r@ == base + v@.subrange(0, i as int),
        decreases v.len() - i,
    {
        r.push(v[i]);
        i = i + 1;
        proof {
            assert(r@ =~= base + v@.subrange(0, i as int));
        }
    }
    proof {
        assert(v@.subrange(0, v@.len() as int) =~= v@);
        assert(r@ =~= pad_left(v@, fill, width as int));
    }
    r
}

} // verus!
