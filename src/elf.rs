//! Reading ELF program headers through the xmas-elf crate.
use vstd::prelude::*;

verus! {

/// What the loader reads of the ELF file header.
#[derive(Clone, Copy, Debug)]
pub struct ElfHeaderInfo {
    pub entry_point: u64,
    pub ph_count: u16,
    pub ph_offset: u64,
    pub ph_entry_size: u16,
}

/// What the loader reads of one program header; `flags` holds the
/// execute (1), write (2) and read (4) bits.
#[derive(Clone, Copy, Debug, PartialEq, Eq, Structural)]
pub struct ProgramSegment {
    pub is_load: bool,
    pub virtual_addr: u64,
    pub mem_size: u64,
    pub offset: u64,
    pub file_size: u64,
    pub flags: u32,
}

/// Little-endian 16-bit value at `off` of `d`.
pub open spec fn le16(d: Seq<u8>, off: int) -> u16 {
    (d[off] + 256 * d[off + 1]) as u16
}

/// Little-endian 32-bit value at `off` of `d`.
pub open spec fn le32(d: Seq<u8>, off: int) -> u32 {
    (le16(d, off) + 65536 * le16(d, off + 2)) as u32
}

/// Little-endian 64-bit value at `off` of `d`.
pub open spec fn le64(d: Seq<u8>, off: int) -> u64 {
    (le32(d, off) + 0x1_0000_0000 * le32(d, off + 4)) as u64
}

/// `d` starts with the ELF magic number and a 32- or 64-bit class byte.
pub open spec fn elf_ident_ok(d: Seq<u8>) -> bool {
    &&& d.len() >= 64
    &&& d[0] == 0x7f && d[1] == 0x45 && d[2] == 0x4c && d[3] == 0x46
    &&& (d[4] == 1 || d[4] == 2)
}

/// Entry point of a 64-bit ELF file.
pub open spec fn elf_entry(d: Seq<u8>) -> u64 {
    le64(d, 24)
}

/// Offset of the program-header table of a 64-bit ELF file.
pub open spec fn elf_ph_offset(d: Seq<u8>) -> u64 {
    le64(d, 32)
}

/// Size of one program header of a 64-bit ELF file.
pub open spec fn elf_ph_entry_size(d: Seq<u8>) -> u16 {
    le16(d, 54)
}

/// Number of program headers of a 64-bit ELF file.
pub open spec fn elf_ph_count(d: Seq<u8>) -> u16 {
    le16(d, 56)
}

/// The 64-bit program header at byte `b` of `d`.
pub open spec fn ph_at(d: Seq<u8>, b: int) -> ProgramSegment {
    ProgramSegment {
        is_load: le32(d, b) == 1,
        flags: le32(d, b + 4),
        offset: le64(d, b + 8),
        virtual_addr: le64(d, b + 16),
        file_size: le64(d, b + 32),
        mem_size: le64(d, b + 40),
    }
}

/// A 64-bit ELF file whose program-header table, of 8-byte-aligned entries
/// of at least 56 bytes, lies inside it.
pub open spec fn elf_table_ok(d: Seq<u8>) -> bool {
    &&& elf_ident_ok(d)
    &&& d[4] == 2
    &&& elf_ph_offset(d) > 0
    &&& elf_ph_offset(d) % 8 == 0
    &&& elf_ph_entry_size(d) >= 56
    &&& elf_ph_entry_size(d) % 8 == 0
    &&& elf_ph_offset(d) + elf_ph_count(d) * elf_ph_entry_size(d) <= d.len()
}

/// The program headers of a file that meets `elf_table_ok`.
pub open spec fn elf_program_headers(d: Seq<u8>) -> Seq<ProgramSegment> {
    Seq::new(elf_ph_count(d) as nat, |i: int| ph_at(d, elf_ph_offset(d) + i * elf_ph_entry_size(d)))
}

/// Relies on `xmas_elf::ElfFile::new`, which accepts `data` exactly when it
/// starts with the magic number 7F 45 4C 46 and a class byte of 1 or 2, and
/// on the header getters `entry_point`, `ph_offset`, `ph_entry_size` and
/// `ph_count`, which read the header's fields in place (little-endian on
/// the little-endian hosts this runs on). The bytes are first copied to an
/// 8-byte-aligned place, as the in-place read asserts that alignment;
/// `ElfFile::new` slices the first 64 bytes of a 64-bit file, hence the
/// length bound.
#[verifier::external_body]
pub(crate) fn elf_header(data: &[u8]) -> (r: Option<ElfHeaderInfo>)
    requires
        data@.len() >= 64,
    ensures
        r.is_some() == elf_ident_ok(data@),
        r.is_some() && data@[4] == 2 ==> r.unwrap().entry_point == elf_entry(data@)
            && r.unwrap().ph_offset == elf_ph_offset(data@) && r.unwrap().ph_entry_size == elf_ph_entry_size(data@)
            && r.unwrap().ph_count == elf_ph_count(data@),
{
    let mut buf = vec![0u8; data.len() + 8];
    let start = buf.as_ptr().align_offset(8);
    buf[start..start + data.len()].copy_from_slice(data);
    let elf = xmas_elf::ElfFile::new(&buf[start..start + data.len()]).ok()?;
    let h = elf.header.pt2;
    Some(ElfHeaderInfo {
        entry_point: h.entry_point(),
        ph_count: h.ph_count(),
        ph_offset: h.ph_offset(),
        ph_entry_size: h.ph_entry_size(),
    })
}

/// Relies on `xmas_elf::ElfFile::program_header`, which returns entry
/// `index` of the header table when `index` is below the header count and
/// the table offset and entry size are non-zero, and on the `ProgramHeader`
/// getters `get_type` (`Load` for type 1), `virtual_addr`, `mem_size`,
/// `offset`, `file_size` and `flags`, which read the 64-bit entry's fields in
/// place (little-endian). The bytes are first copied to an 8-byte-aligned
/// place, which with the 8-byte-aligned offset and size keeps the entry
/// aligned as the in-place read asserts; the bound keeps the slice inside
/// `data`.
#[verifier::external_body]
pub(crate) fn elf_program_header(data: &[u8], index: u16) -> (r: ProgramSegment)
    requires
        elf_table_ok(data@),
        index < elf_ph_count(data@),
    ensures
        r == ph_at(data@, elf_ph_offset(data@) + index * elf_ph_entry_size(data@)),
{
    let mut buf = vec![0u8; data.len() + 8];
    let start = buf.as_ptr().align_offset(8);
    buf[start..start + data.len()].copy_from_slice(data);
    let elf = xmas_elf::ElfFile::new(&buf[start..start + data.len()]).unwrap();
    let ph = elf.program_header(index).unwrap();
    ProgramSegment {
        is_load: ph.get_type() == Ok(xmas_elf::program::Type::Load),
        virtual_addr: ph.virtual_addr(),
        mem_size: ph.mem_size(),
        offset: ph.offset(),
        file_size: ph.file_size(),
        flags: ph.flags().0,
    }
}

/// The program headers of `data` with its entry point; `None` exactly when
/// `data` is not a 64-bit ELF file whose header table lies inside it.
pub fn read_program_headers(data: &[u8]) -> (r: Option<(Vec<ProgramSegment>, u64)>)
    ensures
        r.is_some() <==> elf_table_ok(data@),
        r.is_some() ==> r.unwrap().0@ == elf_program_headers(data@) && r.unwrap().1 == elf_entry(data@),
{
    if data.len() < 64 {
        return None;
    }
    let h = match elf_header(data) {
        None => return None,
        Some(h) => h,
    };
    if data[4] != 2 {
        return None;
    }
    if h.ph_offset == 0 || h.ph_entry_size < 56 || h.ph_entry_size % 8 != 0 || h.ph_offset % 8 != 0
        || h.ph_offset > data.len() as u64 {
        return None;
    }
    let count = h.ph_count as u64;
    let size = h.ph_entry_size as u64;
    assert(count * size <= 0xffff * 0xffff) by (nonlinear_arith)
        requires count <= 0xffff, size <= 0xffff;
    let table_len = count * size;
    if table_len > data.len() as u64 - h.ph_offset {
        return None;
    }
    let mut segs: Vec<ProgramSegment> = Vec::new();
    let mut i: u16 = 0;
    while i < h.ph_count
        invariant
            elf_table_ok(data@),
            h.ph_count == elf_ph_count(data@),
            h.ph_offset == elf_ph_offset(data@),
            h.ph_entry_size == elf_ph_entry_size(data@),
            h.entry_point == elf_entry(data@),
            i <= h.ph_count,
            segs@ == elf_program_headers(data@).subrange(0, i as int),
        decreases h.ph_count - i,
    {
        let s = elf_program_header(data, i);
        segs.push(s);
        i = i + 1;
        assert(segs@ =~= elf_program_headers(data@).subrange(0, i as int));
    }
    assert(segs@ =~= elf_program_headers(data@));
    Some((segs, h.entry_point))
}

} // verus!
