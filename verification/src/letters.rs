//! Alphabetic labels for rendered answer options: `A`, `B`, ..., `Z`, `AA`,
//! `AB`, ... The counter restarts at `A` for every question.

use vstd::prelude::*;

use crate::text::push_char;

verus! {

/// The single uppercase letter at alphabet position `i` (0 is `A`, 25 is `Z`).
pub open spec fn spec_alpha_char(i: int) -> char
    recommends
        0 <= i < 26,
{
    ((('A' as u8) + i) as u8) as char
}

/// The label of the option at 0-based position `n`: bijective base-26 over
/// the uppercase alphabet (`A`..`Z`, then `AA`, `AB`, ...).
pub open spec fn spec_letters(n: nat) -> Seq<char>
    decreases n,
{
    if n < 26 {
        seq![spec_alpha_char(n as int)]
    } else {
        spec_letters((n / 26 - 1) as nat) + seq![spec_alpha_char((n % 26) as int)]
    }
}

/// The single uppercase letter at alphabet position `i`.
fn alpha_char(i: usize) -> (c: char)
    requires
        i < 26,
    ensures
        c == spec_alpha_char(i as int),
{
    (('A' as u8) + i as u8) as char
}

/// The label of the option at 0-based position `n`.
pub fn letters(n: usize) -> (r: String)
    ensures
        r@ == spec_letters(n as nat),
    decreases n,
{
    if n < 26 {
        let mut s = String::new();
        push_char(&mut s, alpha_char(n));
        assert(s@ =~= spec_letters(n as nat));
        s
    } else {
        let mut s = letters(n / 26 - 1);
        push_char(&mut s, alpha_char(n % 26));
        assert(s@ =~= spec_letters(n as nat));
        s
    }
}

} // verus!
