//! Decoding of the host's wide-character text, and encoding of replies as
//! nul-terminated wide strings.

use vstd::prelude::*;

verus! {

/// The characters that a lossy UTF-16 decoding of `units` yields: each
/// well-formed unit or surrogate pair gives its character, each unpaired
/// surrogate gives U+FFFD.
pub uninterp spec fn utf16_lossy(units: Seq<u16>) -> Seq<char>;

/// No unit of `units` is a surrogate, so each stands for a character by
/// itself.
pub open spec fn no_surrogates(units: Seq<u16>) -> bool {
    forall|i: int| 0 <= i < units.len() ==> !(0xD800 <= #[trigger] units[i] <= 0xDFFF)
}

/// Each unit taken as the character with that number.
pub open spec fn plain_chars(units: Seq<u16>) -> Seq<char> {
    Seq::new(units.len(), |i: int| (units[i] as u32) as char)
}

/// Decodes `units` with `widestring::U16Str::to_string_lossy` and hands the
/// characters out one by one. Trusted: the result is named `utf16_lossy` of
/// the units; where no unit is a surrogate, it is the units themselves taken
/// as characters. What ill-formed input gives is not claimed.
#[verifier::external_body]
pub(crate) fn decode_wide(units: &[u16]) -> (r: Vec<char>)
    ensures
        r@ == utf16_lossy(units@),
        no_surrogates(units@) ==> r@ == plain_chars(units@),
{
    widestring::U16Str::from_slice(units).to_string_lossy().chars().collect()
}

/// The UTF-16 units of one character: the character itself below U+10000, a
/// surrogate pair from there on.
pub open spec fn units_of(c: char) -> Seq<u16> {
    let v = c as u32;
    if v < 0x1_0000 {
        seq![v as u16]
    } else {
        let w = (v - 0x1_0000) as u32;
        seq![(0xD800 + (w >> 10)) as u16, (0xDC00 + (w & 0x3FF)) as u16]
    }
}

/// The UTF-16 encoding of `s`.
pub open spec fn utf16_units(s: Seq<char>) -> Seq<u16>
    decreases s.len(),
{
    if s.len() == 0 {
        Seq::empty()
    } else {
        utf16_units(s.drop_last()) + units_of(s.last())
    }
}

/// `u` holds a zero before its last position.
pub open spec fn has_interior_nul(u: Seq<u16>) -> bool {
    exists|i: int| 0 <= i < u.len() - 1 && #[trigger] u[i] == 0
}

/// `u` with a terminating zero, added unless `u` ends in one.
pub open spec fn terminated(u: Seq<u16>) -> Seq<u16> {
    if u.len() > 0 && u.last() == 0 {
        u
    } else {
        u.push(0)
    }
}

/// `s` as a nul-terminated wide string; there is none where the encoding
/// holds a zero before its end.
pub open spec fn wide_c_string(s: Seq<char>) -> Option<Seq<u16>> {
    if has_interior_nul(utf16_units(s)) {
        None
    } else {
        Some(terminated(utf16_units(s)))
    }
}

/// The units held by an encoded string, if there is one.
pub open spec fn wide_view(w: Option<Vec<u16>>) -> Option<Seq<u16>> {
    match w {
        Some(v) => Some(v@),
        None => None,
    }
}

/// Encodes `text` with `widestring::U16CString::from_str` and hands out the
/// units with their terminator. Trusted: the string is encoded as UTF-16; an
/// encoding with a zero before its last unit is refused; otherwise the units
/// come back ending in exactly one terminator.
#[verifier::external_body]
pub(crate) fn encode_wide(text: &Vec<char>) -> (r: Option<Vec<u16>>)
    ensures
        wide_view(r) == wide_c_string(text@),
{
    match widestring::U16CString::from_str(text.iter().collect::<String>()) {
        Ok(s) => Some(s.into_vec_with_nul()),
        Err(_) => None,
    }
}

} // verus!
