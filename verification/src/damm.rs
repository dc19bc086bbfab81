//! Damm-algorithm check digits over decimal digit strings.
//!
//! A fixed 10 x 10 quasi-group table drives a state machine over the digits
//! of a string; characters other than ASCII decimal digits pass through
//! without altering the state.  The table's algebraic properties -- a zero
//! diagonal and cancellation in both arguments -- give the two guarantees
//! proved at the end of this module: a string extended with its own check
//! digit always validates, and changing any single digit of a validating
//! string always invalidates it.

use vstd::prelude::*;

use crate::chars::char_of_digit;
use crate::chars::digit_of;
use crate::chars::is_digit_char;
use crate::chars::char_to_digit;
use crate::chars::digit_to_char;
use crate::chars::push_char;
use crate::chars::str_to_chars;

verus! {

pub open spec fn damm_row_0(c: int) -> int {
    if c == 0 { 0 } else if c == 1 { 3 } else if c == 2 { 1 } else if c == 3 { 7 } else if c == 4 { 5 } else if c == 5 { 9 } else if c == 6 { 8 } else if c == 7 { 6 } else if c == 8 { 4 } else { 2 }
}

pub open spec fn damm_row_1(c: int) -> int {
    if c == 0 { 7 } else if c == 1 { 0 } else if c == 2 { 9 } else if c == 3 { 2 } else if c == 4 { 1 } else if c == 5 { 5 } else if c == 6 { 4 } else if c == 7 { 8 } else if c == 8 { 6 } else { 3 }
}

pub open spec fn damm_row_2(c: int) -> int {
    if c == 0 { 4 } else if c == 1 { 2 } else if c == 2 { 0 } else if c == 3 { 6 } else if c == 4 { 8 } else if c == 5 { 7 } else if c == 6 { 1 } else if c == 7 { 3 } else if c == 8 { 5 } else { 9 }
}

pub open spec fn damm_row_3(c: int) -> int {
    if c == 0 { 1 } else if c == 1 { 7 } else if c == 2 { 5 } else if c == 3 { 0 } else if c == 4 { 9 } else if c == 5 { 8 } else if c == 6 { 3 } else if c == 7 { 4 } else if c == 8 { 2 } else { 6 }
}

pub open spec fn damm_row_4(c: int) -> int {
    if c == 0 { 6 } else if c == 1 { 1 } else if c == 2 { 2 } else if c == 3 { 3 } else if c == 4 { 0 } else if c == 5 { 4 } else if c == 6 { 5 } else if c == 7 { 9 } else if c == 8 { 7 } else { 8 }
}

pub open spec fn damm_row_5(c: int) -> int {
    if c == 0 { 3 } else if c == 1 { 6 } else if c == 2 { 7 } else if c == 3 { 4 } else if c == 4 { 2 } else if c == 5 { 0 } else if c == 6 { 9 } else if c == 7 { 5 } else if c == 8 { 8 } else { 1 }
}

pub open spec fn damm_row_6(c: int) -> int {
    if c == 0 { 5 } else if c == 1 { 8 } else if c == 2 { 6 } else if c == 3 { 9 } else if c == 4 { 7 } else if c == 5 { 2 } else if c == 6 { 0 } else if c == 7 { 1 } else if c == 8 { 3 } else { 4 }
}

pub open spec fn damm_row_7(c: int) -> int {
    if c == 0 { 8 } else if c == 1 { 9 } else if c == 2 { 4 } else if c == 3 { 5 } else if c == 4 { 3 } else if c == 5 { 6 } else if c == 6 { 2 } else if c == 7 { 0 } else if c == 8 { 1 } else { 7 }
}

pub open spec fn damm_row_8(c: int) -> int {
    if c == 0 { 9 } else if c == 1 { 4 } else if c == 2 { 3 } else if c == 3 { 8 } else if c == 4 { 6 } else if c == 5 { 1 } else if c == 6 { 7 } else if c == 7 { 2 } else if c == 8 { 0 } else { 5 }
}

pub open spec fn damm_row_9(c: int) -> int {
    if c == 0 { 2 } else if c == 1 { 5 } else if c == 2 { 8 } else if c == 3 { 1 } else if c == 4 { 4 } else if c == 5 { 3 } else if c == 6 { 6 } else if c == 7 { 7 } else if c == 8 { 9 } else { 0 }
}

/// The Damm quasi-group substitution table: the next checksum state from
/// the current state `r` and the digit `c`.
pub open spec fn damm_table(r: int, c: int) -> int {
    if r == 0 { damm_row_0(c) } else if r == 1 { damm_row_1(c) } else if r == 2 { damm_row_2(c) } else if r == 3 { damm_row_3(c) } else if r == 4 { damm_row_4(c) } else if r == 5 { damm_row_5(c) } else if r == 6 { damm_row_6(c) } else if r == 7 { damm_row_7(c) } else if r == 8 { damm_row_8(c) } else { damm_row_9(c) }
}

/// One step of the Damm state machine: the table entry for `state` and `d`.
pub fn damm_step(state: u8, d: u8) -> (r: u8)
    requires
        state < 10,
        d < 10,
    ensures
        r < 10,
        r as int == damm_table(state as int, d as int),
{
    match state {
        0 => match d {
            0 => 0,
            1 => 3,
            2 => 1,
            3 => 7,
            4 => 5,
            5 => 9,
            6 => 8,
            7 => 6,
            8 => 4,
            _ => 2,
        },
        1 => match d {
            0 => 7,
            1 => 0,
            2 => 9,
            3 => 2,
            4 => 1,
            5 => 5,
            6 => 4,
            7 => 8,
            8 => 6,
            _ => 3,
        },
        2 => match d {
            0 => 4,
            1 => 2,
            2 => 0,
            3 => 6,
            4 => 8,
            5 => 7,
            6 => 1,
            7 => 3,
            8 => 5,
            _ => 9,
        },
        3 => match d {
            0 => 1,
            1 => 7,
            2 => 5,
            3 => 0,
            4 => 9,
            5 => 8,
            6 => 3,
            7 => 4,
            8 => 2,
            _ => 6,
        },
        4 => match d {
            0 => 6,
            1 => 1,
            2 => 2,
            3 => 3,
            4 => 0,
            5 => 4,
            6 => 5,
            7 => 9,
            8 => 7,
            _ => 8,
        },
        5 => match d {
            0 => 3,
            1 => 6,
            2 => 7,
            3 => 4,
            4 => 2,
            5 => 0,
            6 => 9,
            7 => 5,
            8 => 8,
            _ => 1,
        },
        6 => match d {
            0 => 5,
            1 => 8,
            2 => 6,
            3 => 9,
            4 => 7,
            5 => 2,
            6 => 0,
            7 => 1,
            8 => 3,
            _ => 4,
        },
        7 => match d {
            0 => 8,
            1 => 9,
            2 => 4,
            3 => 5,
            4 => 3,
            5 => 6,
            6 => 2,
            7 => 0,
            8 => 1,
            _ => 7,
        },
        8 => match d {
            0 => 9,
            1 => 4,
            2 => 3,
            3 => 8,
            4 => 6,
            5 => 1,
            6 => 7,
            7 => 2,
            8 => 0,
            _ => 5,
        },
        _ => match d {
            0 => 2,
            1 => 5,
            2 => 8,
            3 => 1,
            4 => 4,
            5 => 3,
            6 => 6,
            7 => 7,
            8 => 9,
            _ => 0,
        },
    }
}

/// The checksum state after scanning `s` left to right from state `st`,
/// skipping every character that is not an ASCII decimal digit.
pub open spec fn damm_fold(s: Seq<char>, st: int) -> int
    decreases s.len(),
{
    if s.len() == 0 {
        st
    } else if is_digit_char(s[0]) {
        damm_fold(s.drop_first(), damm_table(st, digit_of(s[0])))
    } else {
        damm_fold(s.drop_first(), st)
    }
}

/// The check digit of `s`: the state reached from 0.
pub open spec fn damm_checksum(s: Seq<char>) -> int {
    damm_fold(s, 0)
}

/// A string validates when scanning it, check digit included, returns to 0.
pub open spec fn damm_valid(s: Seq<char>) -> bool {
    damm_checksum(s) == 0
}

/// `s` followed by its own check digit.
pub open spec fn damm_encoded(s: Seq<char>) -> Seq<char> {
    s.push(char_of_digit(damm_checksum(s)))
}

/// The table never leaves the digit range.
proof fn lemma_table_range(r: int, c: int)
    requires
        0 <= r < 10,
        0 <= c < 10,
    ensures
        0 <= damm_table(r, c) < 10,
{
}

/// The table's diagonal is zero: appending the current state's digit
/// returns the state to 0.
proof fn lemma_table_diagonal(r: int)
    requires
        0 <= r < 10,
    ensures
        damm_table(r, r) == 0,
{
}

/// Each row of the table is a permutation: from one state, two different
/// digits lead to two different states.
proof fn lemma_table_row_injective(r: int, c1: int, c2: int)
    requires
        0 <= r < 10,
        0 <= c1 < 10,
        0 <= c2 < 10,
        c1 != c2,
    ensures
        damm_table(r, c1) != damm_table(r, c2),
{
}

/// Each column of the table is a permutation: one digit maps two different
/// states to two different states.
proof fn lemma_table_col_injective(r1: int, r2: int, c: int)
    requires
        0 <= r1 < 10,
        0 <= r2 < 10,
        0 <= c < 10,
        r1 != r2,
    ensures
        damm_table(r1, c) != damm_table(r2, c),
{
}

/// Scanning a single digit character takes one table step.
proof fn lemma_damm_fold_single(c: char, st: int)
    requires
        is_digit_char(c),
    ensures
        damm_fold(seq![c], st) == damm_table(st, digit_of(c)),
{
    let s = seq![c];
    assert(s.drop_first() =~= Seq::<char>::empty());
    assert(damm_fold(s.drop_first(), damm_table(st, digit_of(c))) == damm_table(
        st,
        digit_of(c),
    ));
}

/// Scanning a concatenation scans the two halves in order.
pub proof fn lemma_damm_fold_append(s: Seq<char>, t: Seq<char>, st: int)
    ensures
        damm_fold(s + t, st) == damm_fold(t, damm_fold(s, st)),
    decreases s.len(),
{
    if s.len() == 0 {
        assert(s + t =~= t);
    } else {
        assert((s + t).drop_first() =~= s.drop_first() + t);
        if is_digit_char(s[0]) {
            lemma_damm_fold_append(s.drop_first(), t, damm_table(st, digit_of(s[0])));
        } else {
            lemma_damm_fold_append(s.drop_first(), t, st);
        }
    }
}

/// The state stays in the digit range.
pub proof fn lemma_damm_fold_range(s: Seq<char>, st: int)
    requires
        0 <= st < 10,
    ensures
        0 <= damm_fold(s, st) < 10,
    decreases s.len(),
{
    if s.len() > 0 {
        if is_digit_char(s[0]) {
            lemma_table_range(st, digit_of(s[0]));
            lemma_damm_fold_range(s.drop_first(), damm_table(st, digit_of(s[0])));
        } else {
            lemma_damm_fold_range(s.drop_first(), st);
        }
    }
}

/// A run of `'0'` characters keeps the state at 0.
pub proof fn lemma_damm_fold_zeros(s: Seq<char>)
    requires
        forall|i: int| 0 <= i < s.len() ==> s[i] == '0',
    ensures
        damm_fold(s, 0) == 0,
    decreases s.len(),
{
    if s.len() > 0 {
        lemma_damm_fold_zeros(s.drop_first());
    }
}

/// Scanning any one string from two different states ends in two different
/// states: the scan is injective in its starting state.
pub proof fn lemma_damm_fold_injective(s: Seq<char>, st1: int, st2: int)
    requires
        0 <= st1 < 10,
        0 <= st2 < 10,
        st1 != st2,
    ensures
        damm_fold(s, st1) != damm_fold(s, st2),
    decreases s.len(),
{
    if s.len() > 0 {
        if is_digit_char(s[0]) {
            lemma_table_col_injective(st1, st2, digit_of(s[0]));
            lemma_table_range(st1, digit_of(s[0]));
            lemma_table_range(st2, digit_of(s[0]));
            lemma_damm_fold_injective(
                s.drop_first(),
                damm_table(st1, digit_of(s[0])),
                damm_table(st2, digit_of(s[0])),
            );
        } else {
            lemma_damm_fold_injective(s.drop_first(), st1, st2);
        }
    }
}

/// A string followed by its own check digit always validates, whatever the
/// string holds.
pub proof fn lemma_self_validation(s: Seq<char>)
    ensures
        damm_valid(damm_encoded(s)),
{
    let cs = damm_checksum(s);
    lemma_damm_fold_range(s, 0);
    crate::chars::lemma_digit_char_roundtrip(cs);
    let c = char_of_digit(cs);
    assert(damm_encoded(s) =~= s + seq![c]);
    lemma_damm_fold_append(s, seq![c], 0);
    lemma_damm_fold_single(c, cs);
    lemma_table_diagonal(cs);
}

/// Replacing a single digit of a validating string by a different digit
/// always invalidates it: the Damm check digit detects every single-digit
/// substitution.
pub proof fn lemma_substitution_detected(s: Seq<char>, i: int, c: char)
    requires
        0 <= i < s.len(),
        is_digit_char(s[i]),
        is_digit_char(c),
        c != s[i],
        damm_valid(s),
    ensures
        !damm_valid(s.update(i, c)),
{
    let s2 = s.update(i, c);
    let prefix = s.subrange(0, i);
    let suffix = s.subrange(i + 1, s.len() as int);
    assert(s =~= prefix + (seq![s[i]] + suffix));
    assert(s2 =~= prefix + (seq![c] + suffix));
    let st = damm_fold(prefix, 0);
    lemma_damm_fold_range(prefix, 0);
    lemma_damm_fold_append(prefix, seq![s[i]] + suffix, 0);
    lemma_damm_fold_append(prefix, seq![c] + suffix, 0);
    lemma_damm_fold_append(seq![s[i]], suffix, st);
    lemma_damm_fold_append(seq![c], suffix, st);
    lemma_damm_fold_single(s[i], st);
    lemma_damm_fold_single(c, st);
    let st1 = damm_table(st, digit_of(s[i]));
    let st2 = damm_table(st, digit_of(c));
    crate::chars::lemma_digit_of_range(s[i]);
    crate::chars::lemma_digit_of_range(c);
    crate::chars::lemma_digit_of_injective(s[i], c);
    lemma_table_row_injective(st, digit_of(s[i]), digit_of(c));
    lemma_table_range(st, digit_of(s[i]));
    lemma_table_range(st, digit_of(c));
    assert(damm_fold(s, 0) == damm_fold(suffix, st1));
    assert(damm_fold(s2, 0) == damm_fold(suffix, st2));
    lemma_damm_fold_injective(suffix, st1, st2);
}

/// The check digit of `rep`: the Damm state after scanning the whole string,
/// skipping non-digit characters.
pub fn checksum(rep: &str) -> (r: u8)
    ensures
        r < 10,
        r as int == damm_checksum(rep@),
{
    let s = str_to_chars(rep);
    let mut st: u8 = 0;
    let mut i: usize = 0;
    proof {
        assert(s@.subrange(0, s@.len() as int) =~= s@);
    }
    while i < s.len()
        invariant
            i <= s@.len(),
            s@ == rep@,
            st < 10,
            damm_fold(s@.subrange(i as int, s@.len() as int), st as int) == damm_checksum(rep@),
        decreases s@.len() - i,
    {
        let ghost rest = s@.subrange(i as int, s@.len() as int);
        proof {
            assert(rest.len() > 0);
            assert(rest[0] == s@[i as int]);
            assert(rest.drop_first() =~= s@.subrange(i as int + 1, s@.len() as int));
        }
        match char_to_digit(s[i]) {
            Some(d) => {
                st = damm_step(st, d);
            },
            None => {
            },
        }
        i = i + 1;
    }
    proof {
        assert(s@.subrange(s@.len() as int, s@.len() as int) =~= Seq::<char>::empty());
    }
    st
}

/// `rep` with its Damm check digit appended.
pub fn encode(rep: &str) -> (r: String)
    ensures
        r@ == damm_encoded(rep@),
{
    let d = checksum(rep);
    let mut r = String::from_str(rep);
    push_char(&mut r, digit_to_char(d));
    r
}

/// Whether `rep` (check digit included) validates.
pub fn is_valid(rep: &str) -> (r: bool)
    ensures
        r == damm_valid(rep@),
{
    checksum(rep) == 0
}

/// `rep` without its trailing check digit when `rep` validates and is not
/// empty; `None` otherwise.
pub fn decode(rep: &str) -> (r: Option<&str>)
    ensures
        match r {
            Some(t) => damm_valid(rep@) && rep@.len() >= 1 && t@ == rep@.subrange(
                0,
                rep@.len() - 1,
            ),
            None => !damm_valid(rep@) || rep@.len() == 0,
        },
{
    let n = rep.unicode_len();
    if n >= 1 && is_valid(rep) {
        Some(rep.substring_char(0, n - 1))
    } else {
        None
    }
}

} // verus!
