//! Unique ids of indices and transactions, as the `uuid` crate makes and writes them.

use vstd::prelude::*;
use vstd::arithmetic::power::pow;
use crate::assoc::Item;

verus! {

/// A universally unique id: its bits as a number.
#[derive(Debug, Clone, Copy, PartialEq, Eq, Structural)]
pub struct Uuid {
    pub bits: u128,
}

impl View for Uuid {
    type V = Uuid;

    open spec fn view(&self) -> Uuid {
        *self
    }
}

impl Item for Uuid {
    fn copied(&self) -> (r: Self) {
        *self
    }

    fn same(&self, other: &Self) -> (r: bool) {
        *self == *other
    }
}

/// A hexadecimal digit.
pub open spec fn hex_digit(d: int) -> char {
    if d <= 9 {
        (48 + d) as char
    } else {
        (87 + d) as char
    }
}

/// Whether a position of the text of an id is one of its hyphens.
pub open spec fn is_hyphen(i: int) -> bool {
    i == 8 || i == 13 || i == 18 || i == 23
}

/// How many hyphens of the text of an id come before a position.
pub open spec fn hyphens_before(i: int) -> int {
    if i > 23 {
        4
    } else if i > 18 {
        3
    } else if i > 13 {
        2
    } else if i > 8 {
        1
    } else {
        0
    }
}

/// The text of an id: its digits in hexadecimal, the greatest first, with hyphens
/// between groups of eight, four, four, four and twelve.
pub open spec fn uuid_text(bits: u128) -> Seq<char> {
    Seq::new(
        36,
        |i: int|
            if is_hyphen(i) {
                '-'
            } else {
                hex_digit((bits as int / pow(16, (31 - (i - hyphens_before(i))) as nat)) % 16)
            },
    )
}

/// Calls `Uuid::hyphenated` and writes the result to a text, which is claimed to be the
/// 32 hexadecimal digits of the id in lower case, the greatest first, with the four
/// hyphens of the usual form.
#[verifier::external_body]
pub(crate) fn hyphenated(bits: u128) -> (r: String)
    ensures
        r@ == uuid_text(bits),
{
    uuid::Uuid::from_u128(bits).hyphenated().to_string()
}

/// Whether an id is marked as drawn at random: its version digit is 4 and the two bits
/// of its variant are 1 and 0.
pub open spec fn is_random(bits: u128) -> bool {
    (bits as int / pow(16, 19)) % 16 == 4 && 8 <= (bits as int / pow(16, 15)) % 16 <= 11
}

/// Calls `Uuid::new_v4`. The id is drawn at random, so nothing is said of most of its
/// digits; what is claimed of every outcome is that its version and variant mark it as
/// drawn at random.
#[verifier::external_body]
pub(crate) fn random_id() -> (r: u128)
    ensures
        is_random(r),
{
    uuid::Uuid::new_v4().as_u128()
}

impl Uuid {
    /// The text of the id.
    pub fn text(&self) -> (r: String)
        ensures
            r@ == uuid_text(self.bits),
    {
        hyphenated(self.bits)
    }
}

} // verus!
