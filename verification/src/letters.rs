//! ASCII letter predicates and alphabet arithmetic shared by the whole
//! engine: classification of characters, zero-based alphabet offsets, and
//! the sequence-level helpers (stripping non-letters, counting letters).

use vstd::prelude::*;

verus! {

/// `c` is an ASCII uppercase letter.
pub open spec fn is_upper(c: char) -> bool {
    65 <= (c as u32) && (c as u32) <= 90
}

/// `c` is an ASCII lowercase letter.
pub open spec fn is_lower(c: char) -> bool {
    97 <= (c as u32) && (c as u32) <= 122
}

/// `c` is an ASCII letter, the alphabet the cipher operates on.
pub open spec fn is_letter(c: char) -> bool {
    is_upper(c) || is_lower(c)
}

/// Zero-based alphabet offset of a letter, case-insensitive (A -> 0, Z -> 25).
pub open spec fn letter_val(c: char) -> int {
    if is_upper(c) {
        c as u32 - 65
    } else {
        c as u32 - 97
    }
}

/// The uppercase letter with the given alphabet offset (0 -> 'A').
pub open spec fn letter_char(v: int) -> char {
    ((65 + v) as u8) as char
}

/// `c` folded to uppercase; non-letters are unchanged.
pub open spec fn to_upper(c: char) -> char {
    if is_lower(c) {
        letter_char(letter_val(c))
    } else {
        c
    }
}

/// The letter predicate as a value, so that every sequence operation
/// filters by one and the same function.
pub open spec fn letter_pred() -> spec_fn(char) -> bool {
    |c: char| is_letter(c)
}

/// The letters of `s`, in order, with everything else dropped.
pub open spec fn strip_non_letters(s: Seq<char>) -> Seq<char> {
    s.filter(letter_pred())
}

/// How many letters `s` holds; the shift cursor advances exactly this often.
pub open spec fn count_letters(s: Seq<char>) -> nat {
    strip_non_letters(s).len()
}

/// Characters with equal codepoints are equal.
pub proof fn lemma_char_code_inj(a: char, b: char)
    requires
        a as u32 == b as u32,
    ensures
        a == b,
{
    vstd::utf8::char_u32_cast(a, a as u32);
    vstd::utf8::char_u32_cast(b, b as u32);
}

/// Decides `is_letter`.
pub fn char_is_letter(c: char) -> (r: bool)
    ensures
        r == is_letter(c),
{
    let u = c as u32;
    (65 <= u && u <= 90) || (97 <= u && u <= 122)
}

/// The alphabet offset of a letter as a machine integer.
pub fn char_offset(c: char) -> (r: u8)
    requires
        is_letter(c),
    ensures
        r as int == letter_val(c),
        r < 26,
{
    let u = c as u32;
    if u <= 90 {
        (u - 65) as u8
    } else {
        (u - 97) as u8
    }
}

/// The uppercase letter with the given alphabet offset.
pub fn offset_char(v: u8) -> (r: char)
    requires
        v < 26,
    ensures
        r == letter_char(v as int),
        is_upper(r),
        letter_val(r) == v as int,
{
    (65 + v) as char
}

/// `c` folded to uppercase.
pub fn char_to_upper(c: char) -> (r: char)
    ensures
        r == to_upper(c),
{
    let u = c as u32;
    if 97 <= u && u <= 122 {
        ((u - 32) as u8) as char
    } else {
        c
    }
}

} // verus!
