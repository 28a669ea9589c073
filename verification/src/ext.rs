//! Small bridges to the outside world: the clock and the local time zone
//! (through `chrono`) and the `std` string conversions the crate needs.
//! The ones vstd gives no specification for are trusted, with their
//! contracts stated here; the rest of the crate is verified against them.
use vstd::prelude::*;

use crate::task::renderable_timestamp;

verus! {

/// Relies on chrono's conversion from `SystemTime`: the current time as
/// UTC epoch seconds. The conversion turns a clock set before 1970 into
/// negative seconds rather than failing, and every instant chrono's date
/// type holds carries a timestamp in [`renderable_timestamp`]'s range, so
/// the result always lies there. (A clock more than about 262,000 years
/// from 1970 would still abort inside chrono; no real clock reads so.)
#[verifier::external_body]
pub(crate) fn now_timestamp() -> (r: i64)
    ensures
        renderable_timestamp(r as int),
{
    chrono::DateTime::<chrono::Utc>::from(std::time::SystemTime::now()).timestamp()
}

/// Relies on chrono's `DateTime::from_timestamp` and `format`: renders the
/// given UTC epoch seconds in the machine's local time zone as
/// `YYYY-MM-DD HH:MM`. `from_timestamp` is a deterministic function of the
/// seconds alone and is `Some` exactly on chrono's representable range
/// (the timestamps of its minimum and maximum dates), which
/// [`renderable_timestamp`] writes out. The rendered text depends on the
/// machine's time zone, so nothing is promised of its contents.
#[verifier::external_body]
pub(crate) fn format_local_timestamp(secs: i64) -> (r: Option<String>)
    ensures
        r is Some <==> renderable_timestamp(secs as int),
{
    match chrono::DateTime::from_timestamp(secs, 0) {
        Some(dt) => Some(dt.with_timezone(&chrono::Local).format("%F %H:%M").to_string()),
        None => None,
    }
}

/// The characters of a string slice, in order.
pub(crate) fn chars_of_str(s: &str) -> (r: Vec<char>)
    ensures
        r@ == s@,
{
    let n = s.unicode_len();
    let mut r: Vec<char> = Vec::new();
    let mut k: usize = 0;
    while k < n
        invariant
            k <= n,
            n == s@.len(),
            r@ == s@.subrange(0, k as int),
        decreases n - k,
    {
        let c = s.get_char(k);
        r.push(c);
        proof {
            assert(s@.subrange(0, k as int).push(s@[k as int]) =~= s@.subrange(0, k + 1));
        }
        k += 1;
    }
    proof {
        assert(s@.subrange(0, n as int) =~= s@);
    }
    r
}

/// Relies on `String`'s `FromIterator` (vstd gives no specification for
/// `String::push` or `collect`): builds the string holding exactly the
/// given characters, in order.
#[verifier::external_body]
pub(crate) fn string_from_chars(v: &Vec<char>) -> (r: String)
    ensures
        r@ == v@,
{
    v.iter().collect()
}

/// Relies on `char::from_u32` (no vstd specification): `Some` exactly on
/// Unicode scalar values, that is everything in range except surrogates,
/// and the resulting character has the given code point.
#[verifier::external_body]
pub(crate) fn char_from_u32(u: u32) -> (r: Option<char>)
    ensures
        r is Some <==> (u < 0xD800 || (0xE000 <= u && u <= 0x10FFFF)),
        r matches Some(c) ==> c == (u as char) && c as u32 == u,
{
    char::from_u32(u)
}

} // verus!
