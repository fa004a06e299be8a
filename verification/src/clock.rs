//! The local time, from `chrono`.
use vstd::prelude::*;

verus! {

/// An offset from UTC as `%z` writes it: a sign, then two digits of hours and two of
/// minutes.
pub open spec fn utc_offset_text(s: Seq<char>) -> bool {
    &&& s.len() == 5
    &&& (s[0] == '+' || s[0] == '-')
    &&& forall|i: int| 1 <= i < 5 ==> '0' <= #[trigger] s[i] <= '9'
}

/// `chrono::Local::now()`: the current time as seconds since the epoch, and the local
/// offset from UTC formatted with `%z` (chrono writes the sign and zero-padded hours and
/// minutes of an offset under a day). Which time and which offset are not stated: they
/// depend on the clock and the machine's time zone.
#[verifier::external_body]
pub fn local_now() -> (res: (i64, String))
    ensures
        utc_offset_text(res.1@),
{
    let now = chrono::Local::now();
    (now.timestamp(), now.format("%z").to_string())
}

} // verus!
