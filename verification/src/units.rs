//! UTF-16 code units: the two-place buffer that collects the units of one
//! character (an `ArrayVec` of the `arrayvec` crate), and their decoding.

use arrayvec::ArrayVec;
use vstd::prelude::*;

verus! {

/// A high (leading) surrogate.
pub open spec fn is_high(u: int) -> bool {
    0xD800 <= u < 0xDC00
}

/// A low (trailing) surrogate.
pub open spec fn is_low(u: int) -> bool {
    0xDC00 <= u < 0xE000
}

/// The scalar value that a surrogate pair stands for.
pub open spec fn pair_scalar(high: int, low: int) -> int {
    0x10000 + (high - 0xD800) * 0x400 + (low - 0xDC00)
}

/// The text that a sequence of UTF-16 code units encodes; `None` where a
/// surrogate stands without its partner.
pub open spec fn utf16_text(units: Seq<u16>) -> Option<Seq<char>>
    decreases units.len(),
{
    if units.len() == 0 {
        Some(Seq::<char>::empty())
    } else if !is_high(units[0] as int) && !is_low(units[0] as int) {
        match utf16_text(units.drop_first()) {
            Some(t) => Some(seq![units[0] as char] + t),
            None => None,
        }
    } else if is_high(units[0] as int) && units.len() >= 2 && is_low(units[1] as int) {
        match utf16_text(units.subrange(2, units.len() as int)) {
            Some(t) => Some(seq![pair_scalar(units[0] as int, units[1] as int) as char] + t),
            None => None,
        }
    } else {
        None
    }
}

/// A buffer for at most two UTF-16 code units.
#[verifier::external_body]
pub struct UnitBuffer {
    units: ArrayVec<[u16; 2]>,
}

/// The units in the buffer, oldest first.
pub uninterp spec fn buffered_units(b: UnitBuffer) -> Seq<u16>;

/// `ArrayVec::new`: an empty buffer.
#[verifier::external_body]
pub(crate) fn new_unit_buffer() -> (b: UnitBuffer)
    ensures
        buffered_units(b) == Seq::<u16>::empty(),
{
    UnitBuffer { units: ArrayVec::new() }
}

/// `ArrayVec::push`: the unit is added behind those in the buffer. It
/// panics on a full buffer, which `requires` leaves out.
#[verifier::external_body]
pub(crate) fn push_unit(b: &mut UnitBuffer, unit: u16)
    requires
        buffered_units(*old(b)).len() < 2,
    ensures
        buffered_units(*final(b)) == buffered_units(*old(b)).push(unit),
{
    b.units.push(unit)
}

/// `ArrayVec::clear`: the buffer is emptied.
#[verifier::external_body]
pub(crate) fn clear_units(b: &mut UnitBuffer)
    ensures
        buffered_units(*final(b)) == Seq::<u16>::empty(),
{
    b.units.clear()
}

/// `ArrayVec::as_slice`: the units in the buffer, as a slice.
#[verifier::external_body]
pub(crate) fn unit_slice(b: &UnitBuffer) -> (s: &[u16])
    ensures
        s@ == buffered_units(*b),
{
    b.units.as_slice()
}

/// `String::from_utf16` of std: the text that the units encode, `None` where
/// they are not valid UTF-16.
#[verifier::external_body]
pub(crate) fn decode_utf16(units: &[u16]) -> (r: Option<String>)
    ensures
        match r {
            Some(s) => utf16_text(units@) == Some(s@),
            None => utf16_text(units@) is None,
        },
{
    match String::from_utf16(units) {
        Ok(text) => Some(text),
        Err(_) => None,
    }
}

} // verus!
