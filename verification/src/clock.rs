//! The system's clock.
use crate::text;
use vstd::prelude::*;

verus! {

/// A moment in UTC as `time` writes it by RFC 3339: date, `T`, time of day with
/// a possible fraction, `Z`.
pub open spec fn is_timestamp(s: Seq<char>) -> bool {
    &&& 20 <= s.len() <= 30
    &&& s[4] == '-' && s[7] == '-' && s[10] == 'T' && s[13] == ':' && s[16] == ':'
    &&& s.len() > 20 ==> s[19] == '.'
    &&& s.last() == 'Z'
    &&& forall|i: int|
        0 <= i < s.len() - 1 && i != 4 && i != 7 && i != 10 && i != 13 && i != 16 && i != 19
            ==> text::is_digit(#[trigger] s[i])
}

/// `time::OffsetDateTime::now_utc` and its `format` with `Rfc3339`. The moment
/// comes from the system's clock; its text has the form of a UTC timestamp. An
/// error of `format`, which comes for a year before 0, is given by its text, of
/// which nothing is claimed. `now_utc` provides for no clock past the year 9999.
#[verifier::external_body]
pub(crate) fn current_time() -> (result: Result<String, String>)
    ensures
        result matches Ok(text) ==> is_timestamp(text@),
{
    let now = time::OffsetDateTime::now_utc();
    match now.format(&time::format_description::well_known::Rfc3339) {
        Ok(text) => Ok(text),
        Err(error) => Err(error.to_string()),
    }
}

} // verus!
