//! The program headers of an ELF file, read with `xmas_elf`.
use vstd::prelude::*;
use crate::mem_set::{MapPermission, MAP_R, MAP_W, MAP_X, MAP_U};
use xmas_elf::header::Class;
use xmas_elf::program::Type;

verus! {

/// Kind of a loadable segment.
pub const SEG_LOAD: u8 = 0;
/// Kind of a segment of another type that `xmas_elf` knows.
pub const SEG_OTHER: u8 = 1;
/// Kind of a segment whose type `xmas_elf` refuses.
pub const SEG_UNKNOWN: u8 = 2;

/// Segment flag: executable.
pub const ELF_FLAG_X: u32 = 1;
/// Segment flag: writable.
pub const ELF_FLAG_W: u32 = 2;
/// Segment flag: readable.
pub const ELF_FLAG_R: u32 = 4;

/// A program header as the loader uses it.
#[derive(Clone, Copy)]
pub struct ElfSegment {
    /// `SEG_LOAD`, `SEG_OTHER` or `SEG_UNKNOWN`.
    pub kind: u8,
    /// The segment flags.
    pub flags: u32,
    /// Where the segment's bytes start in the file.
    pub offset: u64,
    /// The virtual address the segment starts at.
    pub vaddr: u64,
    /// How many bytes of the file the segment holds.
    pub file_size: u64,
    /// How many bytes the segment takes in memory.
    pub mem_size: u64,
}

/// The header fields the loader reads, as `xmas_elf` reads them from `data`: whether
/// the file is 64-bit, the entry point, and the offset, entry size and number of the
/// program headers; `None` where it refuses the header.
pub uninterp spec fn elf_header_of(data: Seq<u8>) -> Option<(bool, u64, u64, u16, u16)>;

/// Program header `index` of `data` as `xmas_elf` reads it: kind, flags, file offset,
/// virtual address, file size and memory size; `None` where there is no such header.
pub uninterp spec fn elf_program_header_of(data: Seq<u8>, index: u16) -> Option<(u8, u32, u64, u64, u64, u64)>;

/// Whether `xmas_elf` accepts the header of `data`: the magic number, a 32-bit or
/// 64-bit class, and room for the whole header of that class.
pub open spec fn elf_header_accepted(d: Seq<u8>) -> bool {
    &&& d.len() >= 16
    &&& d[0] == 0x7fu8 && d[1] == 0x45u8 && d[2] == 0x4cu8 && d[3] == 0x46u8
    &&& (d[4] == 1u8 && d.len() >= 52) || (d[4] == 2u8 && d.len() >= 64)
}

/// The alignment of a program header: 8 bytes in a 64-bit file, 4 in a 32-bit one.
pub open spec fn ph_align(is_64: bool) -> int {
    if is_64 {
        8
    } else {
        4
    }
}

/// Whether `xmas_elf` can read program header `index` without failing an assertion
/// on the bounds of `data` or on alignment: where it looks for the header at all, the
/// header lies in `data`, is large enough for the class and starts at a multiple of
/// its alignment.
pub open spec fn ph_in_bounds(len: int, h: (bool, u64, u64, u16, u16), index: u16) -> bool {
    (index < h.4 && h.2 > 0 && h.3 > 0) ==> {
        &&& h.2 + (index + 1) * h.3 <= len
        &&& (h.2 + index * h.3) % ph_align(h.0) == 0
        &&& h.3 >= if h.0 {
            56int
        } else {
            32int
        }
    }
}

/// Reads the header of `data`: `xmas_elf::ElfFile::new`, then the header's class,
/// entry point, program-header offset, entry size and count. The source of
/// `parse_header` shows when it accepts a header, and that the class byte decides
/// between 32 and 64 bits. The `zero` crate under it asserts that each part of the
/// header it reads is aligned in memory, so the bytes are first copied into a buffer
/// of 64-bit words, which `zerocopy::IntoBytes` shows as bytes; the header parts then
/// lie at offsets 0 and 16 of an 8-aligned buffer.
#[verifier::external_body]
pub(crate) fn elf_header(data: &[u8]) -> (r: Option<(bool, u64, u64, u16, u16)>)
    ensures
        r == elf_header_of(data@),
        r is Some <==> elf_header_accepted(data@),
        r matches Some(h) ==> h.0 == (data@[4] == 2u8),
{
    let mut words = vec![0u64; data.len() / 8 + 1];
    zerocopy::IntoBytes::as_mut_bytes(words.as_mut_slice())[..data.len()].copy_from_slice(data);
    let bytes = &zerocopy::IntoBytes::as_bytes(words.as_slice())[..data.len()];
    match xmas_elf::ElfFile::new(bytes) {
        Ok(elf) => {
            let pt2 = elf.header.pt2;
            let is_64 = elf.header.pt1.class() == Class::SixtyFour;
            Some((is_64, pt2.entry_point(), pt2.ph_offset(), pt2.ph_entry_size(), pt2.ph_count()))
        },
        Err(_) => None,
    }
}

/// Reads program header `index` of `data`: `xmas_elf::ElfFile::program_header` on the
/// file that `ElfFile::new` makes of `data`, then the header's type, flags, offset,
/// address and sizes. Its source gives no header unless `index` is below the count
/// and the offset and entry size are not zero, and it slices and reads the header
/// from `data`, which the `requires` keeps in bounds. As for `elf_header`, the bytes
/// are read from a copy in an 8-aligned buffer; the `requires` keeps the header's
/// offset a multiple of its alignment (8 for 64-bit files, 4 for 32-bit ones), which
/// the assertion of `zero::read` asks for.
#[verifier::external_body]
pub(crate) fn elf_program_header(data: &[u8], index: u16) -> (r: Option<(u8, u32, u64, u64, u64, u64)>)
    requires
        elf_header_of(data@) matches Some(h) && ph_in_bounds(data@.len() as int, h, index),
    ensures
        r == elf_program_header_of(data@, index),
        r is Some <==> (elf_header_of(data@) matches Some(h) && index < h.4 && h.2 > 0 && h.3 > 0),
{
    let mut words = vec![0u64; data.len() / 8 + 1];
    zerocopy::IntoBytes::as_mut_bytes(words.as_mut_slice())[..data.len()].copy_from_slice(data);
    let bytes = &zerocopy::IntoBytes::as_bytes(words.as_slice())[..data.len()];
    let elf = match xmas_elf::ElfFile::new(bytes) { Ok(e) => e, Err(_) => return None };
    let ph = match elf.program_header(index) { Ok(p) => p, Err(_) => return None };
    let kind = match ph.get_type() { Ok(Type::Load) => SEG_LOAD, Ok(_) => SEG_OTHER, Err(_) => SEG_UNKNOWN };
    Some((kind, ph.flags().0, ph.offset(), ph.virtual_addr(), ph.file_size(), ph.mem_size()))
}

/// The segment a raw program header describes.
pub open spec fn segment_of(t: (u8, u32, u64, u64, u64, u64)) -> ElfSegment {
    ElfSegment { kind: t.0, flags: t.1, offset: t.2, vaddr: t.3, file_size: t.4, mem_size: t.5 }
}

/// The loadable segments of `segs`, in order.
pub open spec fn load_segments(segs: Seq<ElfSegment>) -> Seq<ElfSegment>
    decreases segs.len(),
{
    if segs.len() == 0 {
        Seq::empty()
    } else if segs.last().kind == SEG_LOAD {
        load_segments(segs.drop_last()).push(segs.last())
    } else {
        load_segments(segs.drop_last())
    }
}

/// The permission of a segment with `flags`: user, and read, write and execute as
/// the flags say.
pub open spec fn segment_perm(flags: u32) -> u8 {
    MAP_U | (if flags & ELF_FLAG_R == ELF_FLAG_R {
        MAP_R
    } else {
        0u8
    }) | (if flags & ELF_FLAG_W == ELF_FLAG_W {
        MAP_W
    } else {
        0u8
    }) | (if flags & ELF_FLAG_X == ELF_FLAG_X {
        MAP_X
    } else {
        0u8
    })
}

/// The permission of a segment with `flags`.
pub fn segment_permission(flags: u32) -> (r: MapPermission)
    ensures
        r.bits == segment_perm(flags),
        MapPermission::known_bits(r.bits),
{
    let r: u8 = if flags & ELF_FLAG_R == ELF_FLAG_R {
        MAP_R
    } else {
        0u8
    };
    let w: u8 = if flags & ELF_FLAG_W == ELF_FLAG_W {
        MAP_W
    } else {
        0u8
    };
    let x: u8 = if flags & ELF_FLAG_X == ELF_FLAG_X {
        MAP_X
    } else {
        0u8
    };
    let bits: u8 = MAP_U | r | w | x;
    proof {
        assert((16u8 | r | w | x) & 0xe1u8 == 0u8) by (bit_vector)
            requires
                r == 0u8 || r == 2u8,
                w == 0u8 || w == 4u8,
                x == 0u8 || x == 8u8,
        ;
    }
    MapPermission { bits }
}

/// There are no more loadable segments than segments.
pub proof fn lemma_load_segments_len(segs: Seq<ElfSegment>)
    ensures
        load_segments(segs).len() <= segs.len(),
    decreases segs.len(),
{
    if segs.len() > 0 {
        lemma_load_segments_len(segs.drop_last());
    }
}

/// Taking one more segment adds it to the loadable ones when it is loadable.
pub proof fn lemma_load_segments_take(segs: Seq<ElfSegment>, i: int)
    requires
        0 <= i < segs.len(),
    ensures
        load_segments(segs.take(i + 1)) == if segs[i].kind == SEG_LOAD {
            load_segments(segs.take(i)).push(segs[i])
        } else {
            load_segments(segs.take(i))
        },
{
    assert(segs.take(i + 1).drop_last() =~= segs.take(i));
}

} // verus!
