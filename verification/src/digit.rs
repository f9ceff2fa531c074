//! The nine digits `'1'` to `'9'` and their positions `0` to `8`.
use vstd::prelude::*;

verus! {

/// Whether `c` is one of the nine digits.
pub open spec fn is_digit(c: char) -> bool {
    '1' <= c && c <= '9'
}

/// The position of a digit among the nine, counted from zero.
pub open spec fn digit_index(c: char) -> int {
    c as int - '1' as int
}

/// The digit at position `k`.
pub open spec fn digit_at(k: int) -> char {
    (k + '1' as int) as char
}

/// The nine digits in ascending order.
pub open spec fn digits() -> Seq<char> {
    Seq::new(9, |k: int| digit_at(k))
}

/// Positions and digits are in one-to-one correspondence.
pub proof fn lemma_digit_positions()
    ensures
        forall|k: int|
            0 <= k < 9 ==> is_digit(#[trigger] digit_at(k)) && digit_index(digit_at(k)) == k,
        forall|c: char|
            is_digit(c) ==> 0 <= #[trigger] digit_index(c) < 9 && digit_at(digit_index(c)) == c,
{
}

/// Tests whether `c` is one of the nine digits.
pub fn valid_digit(c: char) -> (b: bool)
    ensures
        b == is_digit(c),
{
    '1' <= c && c <= '9'
}

/// The position of the digit `c`.
pub fn position_of(c: char) -> (k: usize)
    requires
        is_digit(c),
    ensures
        k == digit_index(c),
        k < 9,
{
    (c as u32 - '1' as u32) as usize
}

/// The digit at position `k`.
pub fn digit_of(k: usize) -> (c: char)
    requires
        k < 9,
    ensures
        c == digit_at(k as int),
        is_digit(c),
{
    (k as u8 + 0x31u8) as char
}

} // verus!
