//! The per-frame state cell: one packed 16-bit word holding a short-lived
//! `peeked` latch, the long-lived `locked` ownership bit and the frame's type.

use crate::bits::{u16_bit, u16_with_high_bits};
use vstd::prelude::*;

verus! {

/// What a physical frame may be used for. Only `Generic` frames are handed out
/// by the searching allocation functions.
#[derive(Debug, Clone, Copy, PartialEq, Eq, Structural)]
pub enum FrameType {
    Unusable,
    Generic,
    Reserved,
    BootReclaim,
    AcpiReclaim,
    MMIO,
}

/// Largest type code stored in a frame cell.
pub const MAX_TYPE_CODE: u16 = 5;

impl FrameType {
    /// The numeric code of each type, as stored in the high bits of a frame cell.
    pub open spec fn code(self) -> u16 {
        match self {
            FrameType::Unusable => 0,
            FrameType::Generic => 1,
            FrameType::Reserved => 2,
            FrameType::BootReclaim => 3,
            FrameType::AcpiReclaim => 4,
            FrameType::MMIO => 5,
        }
    }

    /// The type stored under a code; codes without a type read as `Unusable`.
    pub open spec fn from_code(value: u16) -> FrameType {
        if value == 1 {
            FrameType::Generic
        } else if value == 2 {
            FrameType::Reserved
        } else if value == 3 {
            FrameType::BootReclaim
        } else if value == 4 {
            FrameType::AcpiReclaim
        } else if value == 5 {
            FrameType::MMIO
        } else {
            FrameType::Unusable
        }
    }

    pub proof fn lemma_code_round_trip(self)
        ensures
            FrameType::from_code(self.code()) == self,
            self.code() <= MAX_TYPE_CODE,
    {
    }

    pub(crate) fn from_u16(value: u16) -> (r: FrameType)
        requires
            value <= MAX_TYPE_CODE,
        ensures
            r == FrameType::from_code(value),
            r.code() == value,
    {
        match value {
            0 => FrameType::Unusable,
            1 => FrameType::Generic,
            2 => FrameType::Reserved,
            3 => FrameType::BootReclaim,
            4 => FrameType::AcpiReclaim,
            _ => FrameType::MMIO,
        }
    }

    pub(crate) fn as_u16(self) -> (r: u16)
        ensures
            r == self.code(),
    {
        match self {
            FrameType::Unusable => 0,
            FrameType::Generic => 1,
            FrameType::Reserved => 2,
            FrameType::BootReclaim => 3,
            FrameType::AcpiReclaim => 4,
            FrameType::MMIO => 5,
        }
    }
}

/// Bit position of the `peeked` latch.
pub const PEEKED_SHIFT: usize = 0;
/// Bit position of the `locked` ownership bit.
pub const LOCKED_SHIFT: usize = 1;
/// First bit of the type field, which runs to the top of the word.
pub const TYPE_SHIFT: usize = 12;

const PEEKED_BIT: u16 = 1;
const LOCKED_BIT: u16 = 2;

/// The state cell of one physical frame.
#[derive(Debug, Clone, Copy)]
pub struct Frame(u16);

impl Frame {
    /// Whether the short exclusive latch is held.
    pub closed spec fn peeked(self) -> bool {
        self.0 & PEEKED_BIT != 0
    }

    /// Whether the frame is owned.
    pub closed spec fn locked(self) -> bool {
        self.0 & LOCKED_BIT != 0
    }

    /// The frame's type.
    pub closed spec fn ty(self) -> FrameType {
        FrameType::from_code(self.0 >> 12u16)
    }

    /// The type field holds the code of a type.
    pub closed spec fn wf(self) -> bool {
        self.0 >> 12u16 <= MAX_TYPE_CODE
    }

    /// A cleared cell: not peeked, not locked, `Unusable`.
    pub(crate) fn zeroed() -> (r: Frame)
        ensures
            r.wf(),
            !r.peeked(),
            !r.locked(),
            r.ty() == FrameType::Unusable,
    {
        let raw: u16 = 0;
        assert(raw & 1u16 == 0 && raw & 2u16 == 0 && raw >> 12u16 == 0) by (bit_vector)
            requires raw == 0u16;
        Frame(raw)
    }

    pub(crate) fn lock(&mut self)
        requires
            old(self).wf(),
            old(self).peeked(),
            !old(self).locked(),
        ensures
            final(self).wf(),
            final(self).peeked(),
            final(self).locked(),
            final(self).ty() == old(self).ty(),
    {
        let v = self.0;
        self.0 = v | LOCKED_BIT;
        assert((v | 2u16) & 1u16 == v & 1u16 && (v | 2u16) & 2u16 != 0 && (v | 2u16) >> 12u16 == v
            >> 12u16) by (bit_vector);
    }

    pub(crate) fn free(&mut self)
        requires
            old(self).wf(),
            old(self).peeked(),
            old(self).locked(),
        ensures
            final(self).wf(),
            final(self).peeked(),
            !final(self).locked(),
            final(self).ty() == old(self).ty(),
    {
        let v = self.0;
        self.0 = v & !LOCKED_BIT;
        assert((v & !2u16) & 1u16 == v & 1u16 && (v & !2u16) & 2u16 == 0 && (v & !2u16) >> 12u16
            == v >> 12u16) by (bit_vector);
    }

    /// Sets the latch and reports whether this call is the one that set it.
    pub(crate) fn try_peek(&mut self) -> (won: bool)
        requires
            old(self).wf(),
        ensures
            won == !old(self).peeked(),
            final(self).wf(),
            final(self).peeked(),
            final(self).locked() == old(self).locked(),
            final(self).ty() == old(self).ty(),
    {
        let v = self.0;
        let was_set = u16_bit(v, PEEKED_SHIFT);
        self.0 = v | PEEKED_BIT;
        assert((v | 1u16) & 1u16 != 0 && (v | 1u16) & 2u16 == v & 2u16 && (v | 1u16) >> 12u16 == v
            >> 12u16) by (bit_vector);
        assert(v & (1u16 << 0u16) == v & 1u16) by (bit_vector);
        !was_set
    }

    /// Takes the latch, retrying until it is won. With exclusive access to the
    /// cell the first attempt wins.
    pub(crate) fn peek(&mut self)
        requires
            old(self).wf(),
            !old(self).peeked(),
        ensures
            final(self).wf(),
            final(self).peeked(),
            final(self).locked() == old(self).locked(),
            final(self).ty() == old(self).ty(),
    {
        loop
            invariant_except_break
                self.wf(),
                !self.peeked(),
                self.locked() == old(self).locked(),
                self.ty() == old(self).ty(),
            ensures
                self.wf(),
                self.peeked(),
                self.locked() == old(self).locked(),
                self.ty() == old(self).ty(),
            decreases 1nat,
        {
            if self.try_peek() {
                break;
            }
        }
    }

    pub(crate) fn unpeek(&mut self)
        requires
            old(self).wf(),
            old(self).peeked(),
        ensures
            final(self).wf(),
            !final(self).peeked(),
            final(self).locked() == old(self).locked(),
            final(self).ty() == old(self).ty(),
    {
        let v = self.0;
        self.0 = v & !PEEKED_BIT;
        assert((v & !1u16) & 1u16 == 0 && (v & !1u16) & 2u16 == v & 2u16 && (v & !1u16) >> 12u16
            == v >> 12u16) by (bit_vector);
    }

    /// The `locked` bit and the type, read under the latch.
    pub(crate) fn data(&self) -> (r: (bool, FrameType))
        requires
            self.wf(),
            self.peeked(),
        ensures
            r == (self.locked(), self.ty()),
    {
        let raw = self.0;
        let locked = u16_bit(raw, LOCKED_SHIFT);
        assert(raw & (1u16 << 1u16) == raw & 2u16) by (bit_vector);
        (locked, FrameType::from_u16(raw >> 12u16))
    }

    pub(crate) fn modify_type(&mut self, new_type: FrameType)
        requires
            old(self).wf(),
            old(self).peeked(),
        ensures
            final(self).wf(),
            final(self).peeked(),
            final(self).locked() == old(self).locked(),
            final(self).ty() == new_type,
    {
        let v = self.0;
        let code = new_type.as_u16();
        proof {
            new_type.lemma_code_round_trip();
            assert(code >> 4u16 == 0) by (bit_vector)
                requires code <= 5u16;
        }
        let r = u16_with_high_bits(v, TYPE_SHIFT, code);
        assert(((v & !(0xffffu16 << 12u16)) | (code << 12u16)) >> 12u16 == code && ((v & !(0xffffu16
            << 12u16)) | (code << 12u16)) & 1u16 == v & 1u16 && ((v & !(0xffffu16 << 12u16)) | (code
            << 12u16)) & 2u16 == v & 2u16) by (bit_vector)
            requires code <= 5u16;
        self.0 = r;
    }
}

} // verus!
