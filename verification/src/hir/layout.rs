//! Where the getter of a field reads: the bytes, the shift and the mask.

use vstd::prelude::*;
use crate::hir::Mask;
use crate::hir::mask::{mask_bits, mask_spec};
use crate::num::{ceil_div, div_ceil8_u32};
use crate::tt;

verus! {

/// The read plan of one field.
#[derive(Debug)]
pub struct Layout {
    /// First bit of the field.
    pub offset: u32,
    /// Width in bits.
    pub size: u32,
    /// The field is whole bytes: it is copied, not shifted.
    pub aligned: bool,
    /// First byte read.
    pub read_offset_bytes: usize,
    /// Number of bytes read.
    pub read_bytes: usize,
    /// Bits after the field in the last byte read.
    pub shr: u32,
    /// The integer through which the bytes are read, if one is wide enough.
    pub mask: Option<Mask>,
}

/// The bytes that the bits `offset..offset + size` touch.
pub open spec fn span_bytes(l: tt::Layout) -> int {
    ceil_div(l.offset % 8 + l.size, 8)
}

/// Whether the plan for `l` widens its read to the whole mask: an unaligned
/// field whose touched bytes reach the mask's width from the start of the
/// struct is read through a window of the mask's width that ends where the
/// touched bytes end.
pub open spec fn widened(l: tt::Layout) -> bool {
    let rb = span_bytes(l);
    &&& !(l.offset % 8 == 0 && l.size % 8 == 0)
    &&& mask_spec(rb * 8) is Some
    &&& l.offset / 8 + rb >= mask_bits(rb * 8) / 8
}

/// The plan that `Layout::from` makes for `l`: the bytes that the field
/// touches, or, when widened, the mask-wide window that ends with them.
pub open spec fn layout_spec(l: tt::Layout) -> Layout {
    let rb = span_bytes(l);
    let ro = l.offset / 8;
    let mb = mask_bits(rb * 8) / 8;
    Layout {
        offset: l.offset,
        size: l.size,
        aligned: l.offset % 8 == 0 && l.size % 8 == 0,
        read_offset_bytes: (if widened(l) { ro + rb - mb } else { ro as int }) as usize,
        read_bytes: (if widened(l) { mb } else { rb }) as usize,
        shr: (rb * 8 - l.offset % 8 - l.size) as u32,
        mask: mask_spec(rb * 8),
    }
}

impl Layout {
    /// The plan was made by `Layout::from`.
    pub open spec fn wf(self) -> bool {
        self == layout_spec(tt::Layout { offset: self.offset, size: self.size })
    }

    /// The bytes read end exactly `shr` bits after the field.
    pub open spec fn exact(self) -> bool {
        8 * (self.read_offset_bytes + self.read_bytes) == self.offset + self.size + self.shr
    }

    /// Plans the read of the bits `value.offset..value.offset + value.size`.
    pub fn from(value: tt::Layout) -> (r: Layout)
        requires
            value.offset % 8 + value.size <= 0x8000_0000,
        ensures
            r == layout_spec(value),
            r.wf(),
    {
        let offset = value.offset;
        let size = value.size;
        let aligned = offset % 8 == 0 && size % 8 == 0;
        let mut read_offset_bytes = offset / 8;
        let mut read_bytes = div_ceil8_u32(offset % 8 + size);
        let shr = read_bytes * 8 - offset % 8 - size;
        let mask = Mask::new(read_bytes * 8);
        if !aligned {
            if let Some(mask) = &mask {
                let upper = read_offset_bytes + read_bytes;
                let mask_bytes = mask.size / 8;
                if upper >= mask_bytes {
                    read_offset_bytes = upper - mask_bytes;
                    read_bytes = mask_bytes;
                }
            }
        }
        Layout {
            offset,
            size,
            aligned,
            read_offset_bytes: read_offset_bytes as usize,
            read_bytes: read_bytes as usize,
            shr,
            mask,
        }
    }
}

/// A plan reads whole bytes around its field: it starts at or before the
/// field and ends exactly `shr` bits after it, with `shr` below eight, and
/// fits the mask it reads through; an aligned field is read as exactly its
/// bytes.
pub proof fn lemma_layout_covers(l: tt::Layout)
    ensures
        8 * layout_spec(l).read_offset_bytes <= l.offset,
        layout_spec(l).exact(),
        layout_spec(l).shr < 8,
        layout_spec(l).mask matches Some(m) ==> layout_spec(l).read_bytes * 8 <= m.size <= 128,
        layout_spec(l).mask is Some <==> l.offset % 8 + l.size <= 128,
        layout_spec(l).aligned ==> layout_spec(l).shr == 0 && 8 * layout_spec(l).read_bytes == l.size,
{
    let rb = span_bytes(l);
    if rb * 8 <= 128 {
        crate::hir::mask::lemma_mask_bits_le_128(rb * 8);
        crate::hir::mask::lemma_mask_bits(rb * 8);
        assert(ceil_div(rb * 8, 8) == rb);
    }
}

/// Every plan that `Layout::from` makes reads a window that ends exactly
/// `shr` bits after its field.
pub proof fn lemma_plan_exact(l: Layout)
    requires
        l.wf(),
    ensures
        l.exact(),
{
    lemma_layout_covers(tt::Layout { offset: l.offset, size: l.size });
}

} // verus!
