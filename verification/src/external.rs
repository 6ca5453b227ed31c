//! Identifiers and clock readings, taken from outside crates.

use vstd::prelude::*;

verus! {

/// A digit of Crockford's base32 alphabet as `ulid` writes it: `0`-`9` and the capital
/// letters but `I`, `L`, `O` and `U`.
pub open spec fn crockford_digit(c: char) -> bool {
    ||| ('0' <= c && c <= '9')
    ||| ('A' <= c && c <= 'Z' && c != 'I' && c != 'L' && c != 'O' && c != 'U')
}

/// Text in the form `ulid` writes a ULID: 26 Crockford base32 digits.
pub open spec fn ulid_text(s: Seq<char>) -> bool {
    &&& s.len() == 26
    &&& forall|i: int| 0 <= i < 26 ==> #[trigger] crockford_digit(s[i])
}

/// Calls `ulid::Ulid::new` (a ULID from the current time and a random source) and renders
/// it with `Ulid::to_string`, which writes the 128-bit value as 26 Crockford base32 digits.
/// Which ULID comes back depends on the clock and on chance; only its shape is claimed.
#[verifier::external_body]
pub(crate) fn new_ulid_text() -> (s: String)
    ensures
        ulid_text(s@),
{
    ulid::Ulid::new().to_string()
}

/// Calls `chrono::Utc::now` and reads the result with `DateTime::timestamp`, the whole
/// seconds since the Unix epoch. The value depends on the clock, so only that it is not
/// negative is claimed: `Utc::now` panics where the system clock reads earlier than the
/// epoch (or beyond the dates `chrono` can represent), so a reading that comes back
/// counts seconds after the epoch.
#[verifier::external_body]
pub(crate) fn unix_now() -> (t: i64)
    ensures
        t >= 0,
{
    chrono::Utc::now().timestamp()
}

} // verus!
