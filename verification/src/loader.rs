use vstd::prelude::*;

use crate::types::RawToken;

verus! {

/// `c` is one of the ASCII digits `0`..`9`.
pub open spec fn is_ascii_digit(c: char) -> bool {
    '0' <= c && c <= '9'
}

/// The value of a string of decimal digits.
pub open spec fn digits_value(s: Seq<char>) -> nat
    decreases s.len(),
{
    if s.len() == 0 {
        0
    } else {
        digits_value(s.drop_last()) * 10 + (s.last() as nat - '0' as nat) as nat
    }
}

/// What `u32::from_str` accepts: an optional `+`, then one or more ASCII
/// digits whose value fits in a `u32`; anything else is an error (`None`).
pub open spec fn spec_parse_u32(s: Seq<char>) -> Option<u32> {
    let digits = if s.len() > 0 && s[0] == '+' {
        s.drop_first()
    } else {
        s
    };
    if digits.len() > 0 && (forall|i: int| 0 <= i < digits.len() ==> is_ascii_digit(#[trigger] digits[i]))
        && digits_value(digits) <= u32::MAX {
        Some(digits_value(digits) as u32)
    } else {
        None
    }
}

/// `str::parse::<u32>`: per its documentation, an optional `+` sign
/// followed by decimal digits, failing on any other character, on an
/// empty digit string and on overflow. The error value is dropped.
#[verifier::external_body]
fn parse_u32(s: &str) -> (res: Option<u32>)
    ensures
        res == spec_parse_u32(s@),
{
    s.parse::<u32>().ok()
}

/// The result of `str::to_lowercase` on `s` (Unicode lowercase mapping).
pub uninterp spec fn lowercase(s: Seq<char>) -> Seq<char>;

/// `str::to_lowercase`: its result is named `lowercase` of the input; the
/// Unicode case mapping itself is not restated.
#[verifier::external_body]
fn to_lowercase(s: &str) -> (res: String)
    ensures
        res@ == lowercase(s@),
{
    s.to_lowercase()
}

/// The decimals a token uses when its field cannot be read as a `u32`.
pub const DEFAULT_DECIMALS: u32 = 18;

impl RawToken {
    /// The token's decimals, or 18 when the field is not a valid `u32`.
    pub fn decimals_or_default(&self) -> (d: u32)
        ensures
            d == match spec_parse_u32(self.decimals@) {
                Some(v) => v,
                None => DEFAULT_DECIMALS,
            },
    {
        match parse_u32(self.decimals.as_str()) {
            Some(v) => v,
            None => DEFAULT_DECIMALS,
        }
    }

    /// The token's address in lower case, the form the graph keys tokens by.
    pub fn normalized_id(&self) -> (id: String)
        ensures
            id@ == lowercase(self.id@),
    {
        to_lowercase(self.id.as_str())
    }
}

} // verus!
