//! The flag helper: maps a country code to the run of regional-indicator
//! symbols that renders as the country's flag emoji.

use vstd::prelude::*;

verus! {

use crate::text::str_chars;
use crate::text::string_from_chars;
use crate::text::upper_of;
use crate::text::uppercase;

/// The offset between an ASCII capital letter and its regional-indicator
/// symbol.
pub const FLAG_BASE: u32 = 127397;

/// Relies on `char::from_u32` of std: it yields `Some` exactly on Unicode
/// scalar values (below the surrogate range or above it, and at most
/// 0x10FFFF), and the returned character carries exactly the given value.
#[verifier::external_body]
fn char_from_u32(u: u32) -> (r: Option<char>)
    ensures
        r matches Some(c) ==> c as u32 == u,
        r is Some <==> (u < 0xD800 || (0xE000 <= u && u <= 0x10FFFF)),
{
    char::from_u32(u)
}

/// Whether every character of the case-raised code, shifted into the
/// regional-indicator range, stays a Unicode scalar value.
pub open spec fn flag_in_range(s: Seq<char>) -> bool {
    forall|i: int|
        0 <= i < upper_of(s).len() ==> (upper_of(s)[i] as u32) + FLAG_BASE <= 0x10FFFF
}

/// Maps a country code to its flag: the code is case-raised and each
/// character shifted into the regional-indicator range. Yields `None` when
/// a shifted character would leave Unicode's scalar range, which never
/// happens for the two-letter codes the catalog carries.
pub fn get_flag_emoji(country_code: &str) -> (r: Option<String>)
    ensures
        r is Some <==> flag_in_range(country_code@),
        r matches Some(f) ==> {
            &&& f@.len() == upper_of(country_code@).len()
            &&& forall|i: int|
                0 <= i < f@.len() ==> (#[trigger] f@[i]) as u32 == (upper_of(
                    country_code@,
                )[i] as u32) + FLAG_BASE
        },
{
    let raised = uppercase(country_code);
    let chars = str_chars(raised.as_str());
    let mut out: Vec<char> = Vec::new();
    let mut i: usize = 0;
    while i < chars.len()
        invariant
            chars@ == upper_of(country_code@),
            i <= chars@.len(),
            out@.len() == i,
            forall|j: int|
                0 <= j < i ==> (#[trigger] out@[j]) as u32 == (chars@[j] as u32) + FLAG_BASE,
            forall|j: int| 0 <= j < i ==> (#[trigger] chars@[j]) as u32 + FLAG_BASE <= 0x10FFFF,
        decreases chars@.len() - i,
    {
        let c = chars[i];
        let code: u32 = c as u32;
        if code > 0x10FFFF - FLAG_BASE {
            proof {
                assert((upper_of(country_code@)[i as int] as u32) + FLAG_BASE > 0x10FFFF);
            }
            return None;
        }
        let shifted: u32 = code + FLAG_BASE;
        match char_from_u32(shifted) {
            Some(symbol) => {
                out.push(symbol);
            },
            None => {
                proof {
                    assert((upper_of(country_code@)[i as int] as u32) + FLAG_BASE > 0x10FFFF);
                }
                return None;
            },
        }
        i = i + 1;
    }
    Some(string_from_chars(&out))
}

} // verus!
