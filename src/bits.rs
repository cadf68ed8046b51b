use bit_field::BitField;
use vstd::prelude::*;

verus! {

/// Relies on `BitField::get_bit` of the `bit_field` crate for `u16`: whether
/// bit `bit` is set. It asserts `bit < 16`.
#[verifier::external_body]
pub(crate) fn u16_bit(value: u16, bit: usize) -> (r: bool)
    requires
        bit < 16,
    ensures
        r == (value & (1u16 << bit as u16) != 0),
{
    value.get_bit(bit)
}

/// Relies on `BitField::set_bits` of the `bit_field` crate for `u16`, on the
/// range `start..`: the bits from `start` up are replaced by `field`. It
/// asserts that `field` fits in the `16 - start` bits of the range.
#[verifier::external_body]
pub(crate) fn u16_with_high_bits(value: u16, start: usize, field: u16) -> (r: u16)
    requires
        0 < start < 16,
        field >> (16 - start) as u16 == 0,
    ensures
        r == (value & !(0xffffu16 << start as u16)) | (field << start as u16),
{
    let mut out = value;
    out.set_bits(start.., field);
    out
}

} // verus!

verus! {

/// Relies on `BitField::get_bit` of the `bit_field` crate for `u64`: whether
/// bit `bit` is set. It asserts `bit < 64`.
#[verifier::external_body]
pub(crate) fn u64_bit(value: u64, bit: usize) -> (r: bool)
    requires
        bit < 64,
    ensures
        r == (value & (1u64 << bit as u64) != 0),
{
    value.get_bit(bit)
}

/// Relies on `BitField::set_bit` of the `bit_field` crate for `u64`: bit
/// `bit` becomes `flag`, the others stay. It asserts `bit < 64`.
#[verifier::external_body]
pub(crate) fn u64_with_bit(value: u64, bit: usize, flag: bool) -> (r: u64)
    requires
        bit < 64,
    ensures
        r == if flag {
            value | (1u64 << bit as u64)
        } else {
            value & !(1u64 << bit as u64)
        },
{
    let mut out = value;
    out.set_bit(bit, flag);
    out
}

} // verus!

verus! {

/// Relies on `BitField::get_bit` of the `bit_field` crate for `u32`: whether
/// bit `bit` is set. It asserts `bit < 32`.
#[verifier::external_body]
pub(crate) fn u32_bit(value: u32, bit: usize) -> (r: bool)
    requires
        bit < 32,
    ensures
        r == (value & (1u32 << bit as u32) != 0),
{
    value.get_bit(bit)
}

/// Relies on `BitField::get_bits` of the `bit_field` crate for `u32` on the
/// range `start..end`: those bits, shifted down to bit zero. It asserts that
/// the range lies within the word.
#[verifier::external_body]
pub(crate) fn u32_bits(value: u32, start: usize, end: usize) -> (r: u32)
    requires
        start < end <= 32,
        end - start < 32,
    ensures
        r == (value >> start as u32) & (((1u32 << (end - start) as u32) - 1) as u32),
{
    value.get_bits(start..end)
}

} // verus!
