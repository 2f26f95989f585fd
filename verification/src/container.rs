//! The container codec: header, string pool, relocation table, texture
//! descriptor, dictionary, and the double-indirection pointer scheme that
//! ties them together.
//!
//! Decoding parses a complete byte buffer in one pass, following absolute
//! offsets; encoding first plans the layout (every section's size and
//! position), then emits the sections in order.
use vstd::prelude::*;
use crate::bytes::{
    enc16, enc32, enc64, rd16, rd32, rd64, push_u16, push_u32, push_u64, push_zeros, push_bytes,
    read_u16, read_u32, read_u64, ByteOrder,
};
use crate::spec_align4;

verus! {

/// Size of the outer header.
pub const BNTX_HEADER_SIZE: usize = 0x20;

/// Size of the inner header.
pub const NX_HEADER_SIZE: usize = 0x28;

/// Size of the memory pool gap after the two headers.
pub const MEM_POOL_SIZE: usize = 0x150;

/// Size of the pointer slot the inner header's descriptor pointer points at.
pub const DATA_PTR_SIZE: usize = 8;

/// Where the string pool starts.
pub const START_OF_STR_SECTION: usize = 0x1A0;

/// Size of the string pool's section header.
pub const STR_HEADER_SIZE: usize = 0x14;

/// On-disk size of the mandatory empty placeholder string.
pub const EMPTY_STR_SIZE: usize = 4;

/// Where the first real string record starts.
pub const FILENAME_STR_OFFSET: usize = 0x1B8;

/// Where the texel-data section header starts.
pub const BRTD_SECTION_START: usize = 0xFF0;

/// Where the raw texel bytes start.
pub const START_OF_TEXTURE_DATA: usize = 0x1000;

/// On-disk size of a texture descriptor.
pub const SIZE_OF_BRTI: usize = 0xA0;

/// On-disk size of one relocation section record.
pub const SIZE_OF_RELOC_SECTION: usize = 24;

/// On-disk size of one relocation entry record.
pub const SIZE_OF_RELOC_ENTRY: usize = 8;

/// Largest combined string pool + dictionary size the fixed layout can hold.
pub const MAX_POOL_AND_DICT: usize = 0xBA8;

/// A length-prefixed, 4-byte-aligned string record.  `chars` holds the raw
/// bytes; UTF-8 interpretation is left to the caller, so invalid sequences
/// survive a round trip unchanged.
#[derive(Debug, Clone, PartialEq, Eq)]
pub struct BntxStr {
    pub chars: Vec<u8>,
}

impl View for BntxStr {
    type V = Seq<u8>;

    open spec fn view(&self) -> Seq<u8> {
        self.chars@
    }
}

/// On-disk size of a string record of `len` content bytes: the 16-bit
/// length, the bytes, one terminator, rounded up to a 4-byte boundary.
pub open spec fn str_rec_size(len: int) -> int {
    spec_align4(2 + len + 1)
}

impl BntxStr {
    /// On-disk size of this record.
    pub fn get_size(&self) -> (r: usize)
        requires
            self@.len() + 6 <= usize::MAX,
        ensures
            r == str_rec_size(self@.len() as int),
    {
        crate::align(2 + self.chars.len() + 1)
    }
}

/// The string pool: three reserved words and the ordered string records.
/// The always-empty placeholder record is implicit: it is reconstructed on
/// write and skipped on read.
#[derive(Debug, Clone, PartialEq, Eq)]
pub struct StrSection {
    pub unk: u32,
    pub unk2: u32,
    pub unk3: u32,
    pub strings: Vec<BntxStr>,
}

/// The byte sequences of a vector of string records.
pub open spec fn strs_view(v: Seq<BntxStr>) -> Seq<Seq<u8>> {
    Seq::new(v.len(), |i: int| v[i]@)
}

/// Spec view of the string pool.
pub struct StrSectionV {
    pub unk: u32,
    pub unk2: u32,
    pub unk3: u32,
    pub strings: Seq<Seq<u8>>,
}

impl View for StrSection {
    type V = StrSectionV;

    open spec fn view(&self) -> StrSectionV {
        StrSectionV {
            unk: self.unk,
            unk2: self.unk2,
            unk3: self.unk3,
            strings: strs_view(self.strings@),
        }
    }
}

/// Total on-disk size of the records of the first `k` strings.
pub open spec fn strings_size(ss: Seq<Seq<u8>>, k: int) -> int
    decreases k,
{
    if k <= 0 {
        0
    } else {
        strings_size(ss, k - 1) + str_rec_size(ss[k - 1].len() as int)
    }
}

/// On-disk size of the whole pool: section header, placeholder, records.
pub open spec fn str_section_size(ss: Seq<Seq<u8>>) -> int {
    (STR_HEADER_SIZE + EMPTY_STR_SIZE) + strings_size(ss, ss.len() as int)
}

/// One pointer-patch section of the relocation table, preserved verbatim.
#[derive(Debug, Clone, Copy, PartialEq, Eq, Structural)]
pub struct RelocationSection {
    pub pointer: u64,
    pub position: u32,
    pub size: u32,
    pub index: u32,
    pub count: u32,
}

/// One pointer-patch entry of the relocation table, preserved verbatim.
#[derive(Debug, Clone, Copy, PartialEq, Eq, Structural)]
pub struct RelocationEntry {
    pub position: u32,
    pub struct_count: u16,
    pub offset_count: u8,
    pub padding_count: u8,
}

/// The relocation table: opaque pointer-patch metadata.  Its one structural
/// invariant is that the entry total equals the sum of the sections' counts.
#[derive(Debug, Clone, PartialEq, Eq)]
pub struct RelocationTable {
    pub sections: Vec<RelocationSection>,
    pub entries: Vec<RelocationEntry>,
}

/// Spec view of the relocation table.
pub struct RelocationTableV {
    pub sections: Seq<RelocationSection>,
    pub entries: Seq<RelocationEntry>,
}

impl View for RelocationTable {
    type V = RelocationTableV;

    open spec fn view(&self) -> RelocationTableV {
        RelocationTableV { sections: self.sections@, entries: self.entries@ }
    }
}

/// Sum of the declared entry counts of the first `k` sections.
pub open spec fn sections_count_sum(ss: Seq<RelocationSection>, k: int) -> int
    decreases k,
{
    if k <= 0 {
        0
    } else {
        sections_count_sum(ss, k - 1) + ss[k - 1].count
    }
}

/// On-disk size of the relocation table.
pub open spec fn reloc_table_size(ns: int, ne: int) -> int {
    16 + SIZE_OF_RELOC_SECTION * ns + SIZE_OF_RELOC_ENTRY * ne
}

impl RelocationTable {
    /// On-disk size of this table.
    pub fn get_size(&self) -> (r: usize)
        requires
            reloc_table_size(self@.sections.len() as int, self@.entries.len() as int)
                <= usize::MAX,
        ensures
            r == reloc_table_size(self@.sections.len() as int, self@.entries.len() as int),
    {
        let ns = self.sections.len();
        let ne = self.entries.len();
        16 + SIZE_OF_RELOC_SECTION * ns + SIZE_OF_RELOC_ENTRY * ne
    }
}

/// The dictionary section, carried through byte-for-byte (magic included).
#[derive(Debug, Clone, PartialEq, Eq)]
pub struct DictSection {
    pub data: Vec<u8>,
}

impl View for DictSection {
    type V = Seq<u8>;

    open spec fn view(&self) -> Seq<u8> {
        self.data@
    }
}

impl DictSection {
    /// On-disk size of the dictionary.
    pub fn get_size(&self) -> (r: usize)
        ensures
            r == self@.len(),
    {
        self.data.len()
    }
}

/// A pixel format tag: one named code, every other code preserved raw.
#[derive(Debug, Clone, Copy, PartialEq, Eq, Structural)]
#[allow(non_camel_case_types)]
pub enum SurfaceFormat {
    R8G8B8A8_SRGB,
    Unknown(u32),
}

/// The 32-bit code a format tag stands for.
pub open spec fn format_code(f: SurfaceFormat) -> int {
    match f {
        SurfaceFormat::R8G8B8A8_SRGB => 0x0b06,
        SurfaceFormat::Unknown(x) => x as int,
    }
}

/// The format tag a 32-bit code decodes to: decoding never fails.
pub open spec fn format_of_code(c: int) -> SurfaceFormat {
    if c == 0x0b06 {
        SurfaceFormat::R8G8B8A8_SRGB
    } else {
        SurfaceFormat::Unknown(c as u32)
    }
}

/// The raw tiled texel bytes of one texture.
#[derive(Debug, Clone, PartialEq, Eq)]
pub struct ImageData(pub Vec<u8>);

impl View for ImageData {
    type V = Seq<u8>;

    open spec fn view(&self) -> Seq<u8> {
        self.0@
    }
}

} // verus!

verus! {

/// The texture descriptor: scalar fields in file order, the owning name, the
/// unused parent pointer, and the tiled texel bytes reached through the
/// double-indirect data pointer.
#[derive(Debug, Clone, PartialEq, Eq)]
pub struct BrtiSection {
    pub size: u32,
    pub size2: u64,
    pub flags: u8,
    pub dim: u8,
    pub tile_mode: u16,
    pub swizzle: u16,
    pub mips_count: u16,
    pub num_multi_sample: u32,
    pub format: SurfaceFormat,
    pub unk2: u32,
    pub width: u32,
    pub height: u32,
    pub depth: u32,
    pub array_len: u32,
    pub size_range: u32,
    pub unk4: [u32; 6],
    pub image_size: u32,
    pub align: u32,
    pub comp_sel: u32,
    pub ty: u32,
    pub name_addr: BntxStr,
    pub parent_addr: u64,
    pub texture: ImageData,
}

/// Spec view of a texture descriptor.
pub struct BrtiV {
    pub size: u32,
    pub size2: u64,
    pub flags: u8,
    pub dim: u8,
    pub tile_mode: u16,
    pub swizzle: u16,
    pub mips_count: u16,
    pub num_multi_sample: u32,
    pub format: SurfaceFormat,
    pub unk2: u32,
    pub width: u32,
    pub height: u32,
    pub depth: u32,
    pub array_len: u32,
    pub size_range: u32,
    pub unk4: Seq<u32>,
    pub image_size: u32,
    pub align: u32,
    pub comp_sel: u32,
    pub ty: u32,
    pub name: Seq<u8>,
    pub parent_addr: u64,
    pub texture: Seq<u8>,
}

impl View for BrtiSection {
    type V = BrtiV;

    open spec fn view(&self) -> BrtiV {
        BrtiV {
            size: self.size,
            size2: self.size2,
            flags: self.flags,
            dim: self.dim,
            tile_mode: self.tile_mode,
            swizzle: self.swizzle,
            mips_count: self.mips_count,
            num_multi_sample: self.num_multi_sample,
            format: self.format,
            unk2: self.unk2,
            width: self.width,
            height: self.height,
            depth: self.depth,
            array_len: self.array_len,
            size_range: self.size_range,
            unk4: self.unk4@,
            image_size: self.image_size,
            align: self.align,
            comp_sel: self.comp_sel,
            ty: self.ty,
            name: self.name_addr@,
            parent_addr: self.parent_addr,
            texture: self.texture@,
        }
    }
}

/// The endianness-dependent part of the outer header.
#[derive(Debug, Clone, PartialEq, Eq)]
pub struct HeaderInner {
    pub revision: u16,
    pub file_name: Vec<u8>,
    pub str_section: StrSection,
    pub reloc_table: RelocationTable,
}

/// The outer header: version, byte-order marker, and the inner header.
#[derive(Debug, PartialEq, Eq)]
pub struct BntxHeader {
    pub version: (u16, u16),
    pub bom: ByteOrder,
    pub inner: HeaderInner,
}

/// The inner header: the one texture descriptor and the dictionary.
#[derive(Debug, Clone, PartialEq, Eq)]
pub struct NxHeader {
    pub info_ptr: BrtiSection,
    pub dict: DictSection,
}

/// The whole parsed container.
#[derive(Debug, PartialEq, Eq)]
pub struct BntxFile {
    pub header: BntxHeader,
    pub nx_header: NxHeader,
}

/// Spec view of the whole container.
pub struct BntxV {
    pub version: (u16, u16),
    pub bom: ByteOrder,
    pub revision: u16,
    pub file_name: Seq<u8>,
    pub str_section: StrSectionV,
    pub reloc: RelocationTableV,
    pub brti: BrtiV,
    pub dict: Seq<u8>,
}

impl View for BntxFile {
    type V = BntxV;

    open spec fn view(&self) -> BntxV {
        BntxV {
            version: self.header.version,
            bom: self.header.bom,
            revision: self.header.inner.revision,
            file_name: self.header.inner.file_name@,
            str_section: self.header.inner.str_section@,
            reloc: self.header.inner.reloc_table@,
            brti: self.nx_header.info_ptr@,
            dict: self.nx_header.dict@,
        }
    }
}

/// A run of `n` zero bytes.
pub open spec fn zero_seq(n: int) -> Seq<u8> {
    Seq::new(n as nat, |i: int| 0u8)
}

/// The container tag.
pub open spec fn magic_bntx() -> Seq<u8> {
    seq![0x42u8, 0x4Eu8, 0x54u8, 0x58u8]
}

/// The inner header tag.
pub open spec fn magic_nx() -> Seq<u8> {
    seq![0x4Eu8, 0x58u8, 0x20u8, 0x20u8]
}

/// The string pool tag.
pub open spec fn magic_str() -> Seq<u8> {
    seq![0x5Fu8, 0x53u8, 0x54u8, 0x52u8]
}

/// The relocation table tag.
pub open spec fn magic_rlt() -> Seq<u8> {
    seq![0x5Fu8, 0x52u8, 0x4Cu8, 0x54u8]
}

/// The dictionary tag.
pub open spec fn magic_dic() -> Seq<u8> {
    seq![0x5Fu8, 0x44u8, 0x49u8, 0x43u8]
}

/// The texture descriptor tag.
pub open spec fn magic_brti() -> Seq<u8> {
    seq![0x42u8, 0x52u8, 0x54u8, 0x49u8]
}

/// The texel data tag.
pub open spec fn magic_brtd() -> Seq<u8> {
    seq![0x42u8, 0x52u8, 0x54u8, 0x44u8]
}

/// The two bytes of the endianness marker, stored big-endian.
pub open spec fn bom_bytes(bo: ByteOrder) -> Seq<u8> {
    match bo {
        ByteOrder::LittleEndian => seq![0xFFu8, 0xFEu8],
        ByteOrder::BigEndian => seq![0xFEu8, 0xFFu8],
    }
}

/// On-disk bytes of one string record.
pub open spec fn enc_str_record(s: Seq<u8>, bo: ByteOrder) -> Seq<u8> {
    enc16(s.len() as int, bo) + s + zero_seq(str_rec_size(s.len() as int) - 2 - s.len())
}

/// On-disk bytes of the records of the first `k` strings.
pub open spec fn enc_strings(ss: Seq<Seq<u8>>, k: int, bo: ByteOrder) -> Seq<u8>
    decreases k,
{
    if k <= 0 {
        Seq::empty()
    } else {
        enc_strings(ss, k - 1, bo) + enc_str_record(ss[k - 1], bo)
    }
}

/// On-disk bytes of the whole string pool.
#[verifier::opaque]
pub open spec fn enc_str_section(p: StrSectionV, bo: ByteOrder) -> Seq<u8> {
    magic_str() + enc32(p.unk as int, bo) + enc32(p.unk2 as int, bo) + enc32(p.unk3 as int, bo)
        + enc32(p.strings.len() as int, bo) + enc_str_record(Seq::empty(), bo) + enc_strings(
        p.strings,
        p.strings.len() as int,
        bo,
    )
}

/// On-disk bytes of the first `k` relocation sections.
pub open spec fn enc_reloc_sections(ss: Seq<RelocationSection>, k: int, bo: ByteOrder) -> Seq<u8>
    decreases k,
{
    if k <= 0 {
        Seq::empty()
    } else {
        enc_reloc_sections(ss, k - 1, bo) + (enc64(ss[k - 1].pointer as int, bo) + enc32(
            ss[k - 1].position as int,
            bo,
        ) + enc32(ss[k - 1].size as int, bo) + enc32(ss[k - 1].index as int, bo) + enc32(
            ss[k - 1].count as int,
            bo,
        ))
    }
}

/// On-disk bytes of the first `k` relocation entries.
pub open spec fn enc_reloc_entries(es: Seq<RelocationEntry>, k: int, bo: ByteOrder) -> Seq<u8>
    decreases k,
{
    if k <= 0 {
        Seq::empty()
    } else {
        enc_reloc_entries(es, k - 1, bo) + (enc32(es[k - 1].position as int, bo) + enc16(
            es[k - 1].struct_count as int,
            bo,
        ) + seq![es[k - 1].offset_count] + seq![es[k - 1].padding_count])
    }
}

/// On-disk bytes of the relocation table, written at file offset `pos`.
#[verifier::opaque]
pub open spec fn enc_reloc_table(t: RelocationTableV, pos: int, bo: ByteOrder) -> Seq<u8> {
    magic_rlt() + enc32(pos, bo) + enc32(t.sections.len() as int, bo) + enc32(0, bo)
        + enc_reloc_sections(t.sections, t.sections.len() as int, bo) + enc_reloc_entries(
        t.entries,
        t.entries.len() as int,
        bo,
    )
}

/// Leading descriptor fields: tag through pixel format.
#[verifier::opaque]
pub open spec fn enc_brti_head(b: BrtiV, bo: ByteOrder) -> Seq<u8> {
    magic_brti() + enc32(b.size as int, bo) + enc64(b.size2 as int, bo) + seq![b.flags]
        + seq![b.dim] + enc16(b.tile_mode as int, bo) + enc16(b.swizzle as int, bo) + enc16(
        b.mips_count as int,
        bo,
    ) + enc32(b.num_multi_sample as int, bo) + enc32(format_code(b.format), bo)
}

/// Middle descriptor fields: dimensions through texture kind.
#[verifier::opaque]
pub open spec fn enc_brti_dims(b: BrtiV, bo: ByteOrder) -> Seq<u8> {
    enc32(b.unk2 as int, bo) + enc32(b.width as int, bo) + enc32(b.height as int, bo) + enc32(
        b.depth as int,
        bo,
    ) + enc32(b.array_len as int, bo) + enc32(b.size_range as int, bo) + enc32(b.unk4[0] as int, bo)
        + enc32(b.unk4[1] as int, bo) + enc32(b.unk4[2] as int, bo) + enc32(b.unk4[3] as int, bo)
        + enc32(b.unk4[4] as int, bo) + enc32(b.unk4[5] as int, bo) + enc32(b.image_size as int, bo)
        + enc32(b.align as int, bo) + enc32(b.comp_sel as int, bo) + enc32(b.ty as int, bo)
}

/// Trailing descriptor pointers: the name record, the unused parent, the
/// data-pointer slot and the two reserved gaps, all placed by the layout.
#[verifier::opaque]
pub open spec fn enc_brti_ptrs(brti_off: int, bo: ByteOrder) -> Seq<u8> {
    enc64(FILENAME_STR_OFFSET as int, bo) + enc64(BNTX_HEADER_SIZE as int, bo) + enc64(
        brti_off + 0x2A0,
        bo,
    ) + enc64(0, bo) + enc64(brti_off + 0xA0, bo) + enc64(brti_off + 0x1A0, bo) + enc64(0, bo)
        + enc64(0, bo)
}

/// On-disk bytes of the texture descriptor placed at offset `brti_off`.
/// Its three computed pointers (name record, data-pointer slot, reserved
/// gaps) follow from the layout plan.
pub open spec fn enc_brti(b: BrtiV, bo: ByteOrder, brti_off: int) -> Seq<u8> {
    enc_brti_head(b, bo) + enc_brti_dims(b, bo) + enc_brti_ptrs(brti_off, bo)
}

/// The file up to the string pool: headers, memory pool gap, and the
/// pointer slot the inner header's descriptor pointer targets.
#[verifier::opaque]
pub open spec fn enc_file_front(c: BntxV) -> Seq<u8> {
    let bo = c.bom;
    let strsz = str_section_size(c.str_section.strings);
    let dictsz = c.dict.len() as int;
    let brti_off = START_OF_STR_SECTION + strsz + dictsz;
    let reloc_off = START_OF_TEXTURE_DATA + c.brti.texture.len() as int;
    let fsize = reloc_off + reloc_table_size(
        c.reloc.sections.len() as int,
        c.reloc.entries.len() as int,
    );
    enc_header(c.version.0, c.version.1, bo, c.revision, reloc_off, fsize) + enc_nx(
        strsz,
        dictsz,
        bo,
    ) + zero_seq(MEM_POOL_SIZE as int) + enc64(brti_off, bo)
}

/// The three variable sections: string pool, dictionary, descriptor.
#[verifier::opaque]
pub open spec fn enc_file_mid(c: BntxV) -> Seq<u8> {
    let bo = c.bom;
    let strsz = str_section_size(c.str_section.strings);
    let dictsz = c.dict.len() as int;
    let brti_off = START_OF_STR_SECTION + strsz + dictsz;
    enc_str_section(c.str_section, bo) + c.dict + enc_brti(c.brti, bo, brti_off)
}

/// The rest of the file: reserved gaps, the texel-data pointer slot,
/// padding, the texel section, and the relocation table.
#[verifier::opaque]
pub open spec fn enc_file_back(c: BntxV) -> Seq<u8> {
    let bo = c.bom;
    let strsz = str_section_size(c.str_section.strings);
    let dictsz = c.dict.len() as int;
    let brti_off = START_OF_STR_SECTION + strsz + dictsz;
    let dptr_pos = brti_off + 0x2A0;
    let pad = BRTD_SECTION_START - (dptr_pos + 8);
    let texlen = c.brti.texture.len() as int;
    let reloc_off = START_OF_TEXTURE_DATA + texlen;
    zero_seq(0x200) + enc64(START_OF_TEXTURE_DATA as int, bo) + zero_seq(pad) + magic_brtd()
        + enc32(0, bo) + enc64(texlen + 0x10, bo) + c.brti.texture + enc_reloc_table(
        c.reloc,
        reloc_off,
        bo,
    )
}

/// On-disk bytes of a whole container, every offset computed from the
/// layout plan: headers, pointer slot, string pool, dictionary, descriptor,
/// reserved gaps, padding, texel data, relocation table.
#[verifier::opaque]
pub open spec fn enc_file(c: BntxV) -> Seq<u8> {
    enc_file_front(c) + enc_file_mid(c) + enc_file_back(c)
}

/// Why a container cannot be written.
#[derive(Clone, Copy, Debug, PartialEq, Eq, Structural)]
pub enum EncodeError {
    /// A pool string longer than its 16-bit length field can record.
    StringTooLong,
    /// String pool plus dictionary exceed the fixed layout gap.
    PoolTooLarge,
    /// The display name, the first pool string and the descriptor's name
    /// must agree, and the name must be free of interior zero bytes.
    NameInconsistent,
    /// Relocation entry total differs from the sum of the section counts.
    RelocCountMismatch,
    /// The descriptor's declared texel size differs from the texel bytes.
    ImageSizeMismatch,
    /// The dictionary blob is too short or does not carry its tag.
    DictInvalid,
    /// The whole file would not fit the 32-bit size field.
    FileTooLarge,
}

/// Every condition the fixed layout imposes on a container before a byte is
/// written.
#[verifier::opaque]
pub open spec fn spec_encode(c: BntxV) -> Result<Seq<u8>, EncodeError> {
    let strsz = str_section_size(c.str_section.strings);
    let fsize = START_OF_TEXTURE_DATA + c.brti.texture.len() + reloc_table_size(
        c.reloc.sections.len() as int,
        c.reloc.entries.len() as int,
    );
    if exists|i: int| 0 <= i < c.str_section.strings.len() && #[trigger] c.str_section.strings[i].len() > 0xFFFF {
        Err(EncodeError::StringTooLong)
    } else if !(c.str_section.strings.len() >= 1 && c.file_name == c.str_section.strings[0]
        && c.brti.name == c.str_section.strings[0] && !c.str_section.strings[0].contains(0u8)) {
        Err(EncodeError::NameInconsistent)
    } else if strsz + c.dict.len() > MAX_POOL_AND_DICT {
        Err(EncodeError::PoolTooLarge)
    } else if c.reloc.entries.len() != sections_count_sum(
        c.reloc.sections,
        c.reloc.sections.len() as int,
    ) {
        Err(EncodeError::RelocCountMismatch)
    } else if c.brti.image_size != c.brti.texture.len() {
        Err(EncodeError::ImageSizeMismatch)
    } else if !(c.dict.len() >= 4 && c.dict.subrange(0, 4) == magic_dic()) {
        Err(EncodeError::DictInvalid)
    } else if fsize > u32::MAX {
        Err(EncodeError::FileTooLarge)
    } else {
        Ok(enc_file(c))
    }
}

} // verus!

verus! {

/// The first bytes of the file: magic, version, endianness marker, and the
/// inner header fields, with the name, pool and table offsets of the fixed
/// layout.  The version is stored little-endian: it precedes the marker, so
/// no byte order is in force yet when it is read.
#[verifier::opaque]
pub open spec fn enc_header(
    v0: u16,
    v1: u16,
    bom: ByteOrder,
    rev: u16,
    reloc_off: int,
    fsize: int,
) -> Seq<u8> {
    magic_bntx() + enc32(0, bom) + enc16(v0 as int, ByteOrder::LittleEndian) + enc16(
        v1 as int,
        ByteOrder::LittleEndian,
    ) + bom_bytes(bom) + enc16(rev as int, bom) + enc32(FILENAME_STR_OFFSET + 2, bom) + enc16(
        0,
        bom,
    ) + enc16(START_OF_STR_SECTION as int, bom) + enc32(reloc_off, bom) + enc32(fsize, bom)
}

/// The inner header: descriptor pointer slot, data block position,
/// dictionary pointer and size.
#[verifier::opaque]
pub open spec fn enc_nx(strsz: int, dictsz: int, bo: ByteOrder) -> Seq<u8> {
    magic_nx() + enc32(1, bo) + enc64((BNTX_HEADER_SIZE + NX_HEADER_SIZE + MEM_POOL_SIZE) as int, bo)
        + enc64(BRTD_SECTION_START as int, bo) + enc64(START_OF_STR_SECTION + strsz, bo) + enc64(
        dictsz,
        bo,
    )
}

/// Rounding to the next 4-byte boundary adds at most three bytes.
pub proof fn lemma_align4(x: int)
    requires
        x >= 0,
    ensures
        x <= spec_align4(x) < x + 4,
{
    vstd::arithmetic::div_mod::lemma_fundamental_div_mod(x + 3, 4);
    vstd::arithmetic::div_mod::lemma_mod_division_less_than_divisor(x + 3, 4);
}

/// Every string record occupies at least its own bytes, so pool prefixes
/// only grow.
pub proof fn lemma_strings_size_mono(ss: Seq<Seq<u8>>, k1: int, k2: int)
    requires
        0 <= k1 <= k2,
    ensures
        strings_size(ss, k1) <= strings_size(ss, k2),
    decreases k2 - k1,
{
    if k1 < k2 {
        lemma_strings_size_mono(ss, k1, k2 - 1);
        lemma_align4(2 + ss[k2 - 1].len() as int + 1);
    }
}

/// Every string record occupies at least four bytes on disk.
pub proof fn lemma_strings_size_lower(ss: Seq<Seq<u8>>, k: int)
    requires
        0 <= k,
    ensures
        strings_size(ss, k) >= 4 * k,
    decreases k,
{
    if k > 0 {
        lemma_strings_size_lower(ss, k - 1);
        lemma_align4(2 + ss[k - 1].len() as int + 1);
        let rec = str_rec_size(ss[k - 1].len() as int);
        assert(rec >= 4) by (nonlinear_arith)
            requires
                rec == ((2 + ss[k - 1].len() as int + 1 + 3) / 4) * 4,
                rec >= 2 + ss[k - 1].len() as int + 1,
                ss[k - 1].len() >= 0,
        ;
    }
}

/// Partial sums of the declared section counts only grow.
pub proof fn lemma_count_sum_mono(ss: Seq<RelocationSection>, k1: int, k2: int)
    requires
        0 <= k1 <= k2,
    ensures
        sections_count_sum(ss, k1) <= sections_count_sum(ss, k2),
    decreases k2 - k1,
{
    if k1 < k2 {
        lemma_count_sum_mono(ss, k1, k2 - 1);
    }
}

/// Appends the four bytes of a section tag.
fn push_tag(out: &mut Vec<u8>, a: u8, b: u8, c: u8, d: u8)
    ensures
        final(out)@ == old(out)@ + seq![a, b, c, d],
{
    let ghost pre = out@;
    out.push(a);
    out.push(b);
    out.push(c);
    out.push(d);
    assert(out@ =~= pre + seq![a, b, c, d]);
}

/// Compares two byte vectors.
pub fn bytes_eq(a: &Vec<u8>, b: &Vec<u8>) -> (r: bool)
    ensures
        r == (a@ == b@),
{
    if a.len() != b.len() {
        return false;
    }
    let n = a.len();
    let mut i: usize = 0;
    while i < n
        invariant
            i <= n,
            n == a@.len() == b@.len(),
            forall|j: int| 0 <= j < i ==> a@[j] == b@[j],
        decreases n - i,
    {
        if a[i] != b[i] {
            return false;
        }
        i = i + 1;
    }
    proof {
        assert(a@ =~= b@);
    }
    true
}

/// Looks for a zero byte.
fn contains_zero(a: &Vec<u8>) -> (r: bool)
    ensures
        r == a@.contains(0u8),
{
    let n = a.len();
    let mut i: usize = 0;
    while i < n
        invariant
            i <= n,
            n == a@.len(),
            forall|j: int| 0 <= j < i ==> a@[j] != 0u8,
        decreases n - i,
    {
        if a[i] == 0 {
            return true;
        }
        i = i + 1;
    }
    false
}

impl SurfaceFormat {
    /// Appends this tag's 32-bit code.
    pub fn write_options(&self, out: &mut Vec<u8>, bo: ByteOrder)
        ensures
            final(out)@ == old(out)@ + enc32(format_code(*self), bo),
    {
        match self {
            SurfaceFormat::R8G8B8A8_SRGB => push_u32(out, 0x0b06, bo),
            SurfaceFormat::Unknown(x) => push_u32(out, *x, bo),
        }
    }
}

impl BntxStr {
    /// Appends this record: length, bytes, terminator and padding.
    pub fn write_options(&self, out: &mut Vec<u8>, bo: ByteOrder)
        requires
            self@.len() <= 0xFFFF,
        ensures
            final(out)@ == old(out)@ + enc_str_record(self@, bo),
    {
        let ghost pre = out@;
        let len = self.chars.len();
        push_u16(out, len as u16, bo);
        push_bytes(out, &self.chars);
        proof {
            lemma_align4(2 + len + 1);
        }
        let pad = crate::align(2 + len + 1) - (2 + len);
        push_zeros(out, pad);
        assert(out@ =~= pre + enc_str_record(self@, bo));
    }
}

impl StrSection {
    /// Appends the whole pool: tag, reserved words, count, the mandatory
    /// empty placeholder, then each record.
    #[verifier::rlimit(100)]
    pub fn write_options(&self, out: &mut Vec<u8>, bo: ByteOrder)
        requires
            forall|i: int| 0 <= i < self@.strings.len() ==> #[trigger] self@.strings[i].len()
                <= 0xFFFF,
            self@.strings.len() <= u32::MAX,
        ensures
            final(out)@ == old(out)@ + enc_str_section(self@, bo),
    {
        proof {
            reveal(enc_str_section);
        }
        let ghost pre = out@;
        push_tag(out, 0x5F, 0x53, 0x54, 0x52);
        push_u32(out, self.unk, bo);
        push_u32(out, self.unk2, bo);
        push_u32(out, self.unk3, bo);
        push_u32(out, self.strings.len() as u32, bo);
        // The placeholder: zero length, terminator, two bytes of padding.
        push_u16(out, 0, bo);
        push_zeros(out, 2);
        let ghost head = pre + magic_str() + enc32(self@.unk as int, bo) + enc32(
            self@.unk2 as int,
            bo,
        ) + enc32(self@.unk3 as int, bo) + enc32(self@.strings.len() as int, bo) + enc_str_record(
            Seq::empty(),
            bo,
        );
        proof {
            lemma_align4(3);
            assert(enc_str_record(Seq::empty(), bo) =~= enc16(0, bo) + Seq::<u8>::empty()
                + zero_seq(2));
            assert(out@ =~= head);
        }
        let n = self.strings.len();
        let mut i: usize = 0;
        while i < n
            invariant
                i <= n,
                n == self.strings@.len(),
                forall|k: int| 0 <= k < self@.strings.len() ==> #[trigger] self@.strings[k].len()
                    <= 0xFFFF,
                out@ == head + enc_strings(self@.strings, i as int, bo),
            decreases n - i,
        {
            assert(self@.strings[i as int] == self.strings@[i as int]@);
            self.strings[i].write_options(out, bo);
            assert(out@ =~= head + enc_strings(self@.strings, i as int + 1, bo));
            i = i + 1;
        }
        assert(out@ =~= pre + enc_str_section(self@, bo));
    }
}

impl RelocationTable {
    /// Appends the whole table, recording `pos` as its own file position.
    #[verifier::rlimit(100)]
    pub fn write_options(&self, out: &mut Vec<u8>, pos: u32, bo: ByteOrder)
        requires
            self@.sections.len() <= u32::MAX,
        ensures
            final(out)@ == old(out)@ + enc_reloc_table(self@, pos as int, bo),
    {
        proof {
            reveal(enc_reloc_table);
        }
        let ghost pre = out@;
        push_tag(out, 0x5F, 0x52, 0x4C, 0x54);
        push_u32(out, pos, bo);
        push_u32(out, self.sections.len() as u32, bo);
        push_u32(out, 0, bo);
        let ghost head = pre + magic_rlt() + enc32(pos as int, bo) + enc32(
            self@.sections.len() as int,
            bo,
        ) + enc32(0, bo);
        assert(out@ =~= head);
        let ns = self.sections.len();
        let mut i: usize = 0;
        while i < ns
            invariant
                i <= ns,
                ns == self@.sections.len(),
                out@ == head + enc_reloc_sections(self@.sections, i as int, bo),
            decreases ns - i,
        {
            let ghost prev = out@;
            let s = self.sections[i];
            push_u64(out, s.pointer, bo);
            push_u32(out, s.position, bo);
            push_u32(out, s.size, bo);
            push_u32(out, s.index, bo);
            push_u32(out, s.count, bo);
            assert(out@ =~= head + enc_reloc_sections(self@.sections, i as int + 1, bo));
            i = i + 1;
        }
        let ghost mid = head + enc_reloc_sections(self@.sections, self@.sections.len() as int, bo);
        let ne = self.entries.len();
        let mut j: usize = 0;
        while j < ne
            invariant
                j <= ne,
                ne == self@.entries.len(),
                out@ == mid + enc_reloc_entries(self@.entries, j as int, bo),
            decreases ne - j,
        {
            let e = self.entries[j];
            push_u32(out, e.position, bo);
            push_u16(out, e.struct_count, bo);
            out.push(e.offset_count);
            out.push(e.padding_count);
            assert(out@ =~= mid + enc_reloc_entries(self@.entries, j as int + 1, bo));
            j = j + 1;
        }
        assert(out@ =~= pre + enc_reloc_table(self@, pos as int, bo));
    }
}

impl DictSection {
    /// Appends the dictionary verbatim.
    pub fn write_options(&self, out: &mut Vec<u8>)
        ensures
            final(out)@ == old(out)@ + self@,
    {
        push_bytes(out, &self.data);
    }
}

impl BrtiSection {
    /// Appends the leading fields: tag through pixel format.
    fn write_head(&self, out: &mut Vec<u8>, bo: ByteOrder)
        ensures
            final(out)@ == old(out)@ + enc_brti_head(self@, bo),
    {
        proof {
            reveal(enc_brti_head);
        }
        let ghost pre = out@;
        push_tag(out, 0x42, 0x52, 0x54, 0x49);
        push_u32(out, self.size, bo);
        push_u64(out, self.size2, bo);
        out.push(self.flags);
        out.push(self.dim);
        push_u16(out, self.tile_mode, bo);
        push_u16(out, self.swizzle, bo);
        push_u16(out, self.mips_count, bo);
        push_u32(out, self.num_multi_sample, bo);
        self.format.write_options(out, bo);
        assert(out@ =~= pre + enc_brti_head(self@, bo));
    }

    /// Appends the middle fields: dimensions through texture kind.
    #[verifier::rlimit(100)]
    fn write_dims(&self, out: &mut Vec<u8>, bo: ByteOrder)
        ensures
            final(out)@ == old(out)@ + enc_brti_dims(self@, bo),
    {
        proof {
            reveal(enc_brti_dims);
        }
        let ghost pre = out@;
        push_u32(out, self.unk2, bo);
        push_u32(out, self.width, bo);
        push_u32(out, self.height, bo);
        push_u32(out, self.depth, bo);
        push_u32(out, self.array_len, bo);
        push_u32(out, self.size_range, bo);
        push_u32(out, self.unk4[0], bo);
        push_u32(out, self.unk4[1], bo);
        push_u32(out, self.unk4[2], bo);
        push_u32(out, self.unk4[3], bo);
        push_u32(out, self.unk4[4], bo);
        push_u32(out, self.unk4[5], bo);
        push_u32(out, self.image_size, bo);
        push_u32(out, self.align, bo);
        push_u32(out, self.comp_sel, bo);
        push_u32(out, self.ty, bo);
        assert(out@ =~= pre + enc_brti_dims(self@, bo));
    }

    /// Appends the trailing pointers the layout plan fixes.
    fn write_ptrs(out: &mut Vec<u8>, bo: ByteOrder, brti_off: usize)
        requires
            brti_off <= 0xD48,
        ensures
            final(out)@ == old(out)@ + enc_brti_ptrs(brti_off as int, bo),
    {
        proof {
            reveal(enc_brti_ptrs);
        }
        let ghost pre = out@;
        push_u64(out, FILENAME_STR_OFFSET as u64, bo);
        push_u64(out, BNTX_HEADER_SIZE as u64, bo);
        push_u64(out, (brti_off + 0x2A0) as u64, bo);
        push_u64(out, 0, bo);
        push_u64(out, (brti_off + 0xA0) as u64, bo);
        push_u64(out, (brti_off + 0x1A0) as u64, bo);
        push_u64(out, 0, bo);
        push_u64(out, 0, bo);
        assert(out@ =~= pre + enc_brti_ptrs(brti_off as int, bo));
    }

    /// Appends the descriptor placed at `brti_off`: scalar fields in file
    /// order, then the fixed name and parent pointers and the three layout
    /// pointers.
    pub fn write_options(&self, out: &mut Vec<u8>, bo: ByteOrder, brti_off: usize)
        requires
            brti_off <= 0xD48,
        ensures
            final(out)@ == old(out)@ + enc_brti(self@, bo, brti_off as int),
    {
        let ghost pre = out@;
        self.write_head(out, bo);
        self.write_dims(out, bo);
        Self::write_ptrs(out, bo, brti_off);
        assert(out@ =~= pre + enc_brti(self@, bo, brti_off as int));
    }
}

impl BntxHeader {
    /// Appends the outer header, given the planned relocation table offset
    /// and total file size.
    pub fn write_options(&self, out: &mut Vec<u8>, reloc_off: u32, fsize: u32)
        ensures
            final(out)@ == old(out)@ + enc_header(
                self.version.0,
                self.version.1,
                self.bom,
                self.inner.revision,
                reloc_off as int,
                fsize as int,
            ),
    {
        proof {
            reveal(enc_header);
        }
        let ghost pre = out@;
        let bo = self.bom;
        push_tag(out, 0x42, 0x4E, 0x54, 0x58);
        push_u32(out, 0, bo);
        push_u16(out, self.version.0, ByteOrder::LittleEndian);
        push_u16(out, self.version.1, ByteOrder::LittleEndian);
        match bo {
            ByteOrder::LittleEndian => {
                out.push(0xFF);
                out.push(0xFE);
            },
            ByteOrder::BigEndian => {
                out.push(0xFE);
                out.push(0xFF);
            },
        }
        push_u16(out, self.inner.revision, bo);
        push_u32(out, (FILENAME_STR_OFFSET + 2) as u32, bo);
        push_u16(out, 0, bo);
        push_u16(out, START_OF_STR_SECTION as u16, bo);
        push_u32(out, reloc_off, bo);
        push_u32(out, fsize, bo);
        assert(out@ =~= pre + enc_header(
            self.version.0,
            self.version.1,
            self.bom,
            self.inner.revision,
            reloc_off as int,
            fsize as int,
        ));
    }
}

impl NxHeader {
    /// Appends the inner header, given the planned string pool size.
    pub fn write_options(&self, out: &mut Vec<u8>, bo: ByteOrder, strsz: usize)
        requires
            strsz <= MAX_POOL_AND_DICT,
        ensures
            final(out)@ == old(out)@ + enc_nx(strsz as int, self.dict@.len() as int, bo),
    {
        proof {
            reveal(enc_nx);
        }
        let ghost pre = out@;
        push_tag(out, 0x4E, 0x58, 0x20, 0x20);
        push_u32(out, 1, bo);
        push_u64(out, (BNTX_HEADER_SIZE + NX_HEADER_SIZE + MEM_POOL_SIZE) as u64, bo);
        push_u64(out, BRTD_SECTION_START as u64, bo);
        push_u64(out, (START_OF_STR_SECTION + strsz) as u64, bo);
        push_u64(out, self.dict.data.len() as u64, bo);
        assert(out@ =~= pre + enc_nx(strsz as int, self.dict@.len() as int, bo));
    }
}

} // verus!

verus! {

impl BntxFile {
    /// Serializes the container.  The layout is planned first — every
    /// section's size and offset — and nothing is written unless the fixed
    /// layout can hold the container, so a failure never yields bytes.
    #[verifier::loop_isolation(false)]
    #[verifier::rlimit(100)]
    pub fn encode(&self) -> (r: Result<Vec<u8>, EncodeError>)
        ensures
            match r {
                Ok(v) => spec_encode(self@) == Ok::<Seq<u8>, EncodeError>(v@),
                Err(e) => spec_encode(self@) == Err::<Seq<u8>, EncodeError>(e),
            },
    {
        proof {
            reveal(spec_encode);
        }
        let bo = self.header.bom;
        let pool = &self.header.inner.str_section;
        let brti = &self.nx_header.info_ptr;
        let reloc = &self.header.inner.reloc_table;
        let ghost cv = self@;

        // No string may outgrow its 16-bit length field.
        let nstr = pool.strings.len();
        let mut i: usize = 0;
        while i < nstr
            invariant
                i <= nstr,
                nstr == pool.strings@.len(),
                forall|j: int| 0 <= j < i ==> #[trigger] cv.str_section.strings[j].len() <= 0xFFFF,
            decreases nstr - i,
        {
            if pool.strings[i].chars.len() > 0xFFFF {
                assert(cv.str_section.strings[i as int].len() > 0xFFFF);
                return Err(EncodeError::StringTooLong);
            }
            i = i + 1;
        }

        // The display name, the first pool string and the descriptor's name
        // must be one and the same, without interior terminators.
        if pool.strings.len() == 0 {
            return Err(EncodeError::NameInconsistent);
        }
        if !bytes_eq(&self.header.inner.file_name, &pool.strings[0].chars) {
            return Err(EncodeError::NameInconsistent);
        }
        if !bytes_eq(&brti.name_addr.chars, &pool.strings[0].chars) {
            return Err(EncodeError::NameInconsistent);
        }
        if contains_zero(&pool.strings[0].chars) {
            return Err(EncodeError::NameInconsistent);
        }

        // The pool and the dictionary must fit the fixed gap.
        let mut strsz: usize = STR_HEADER_SIZE + EMPTY_STR_SIZE;
        let mut k: usize = 0;
        while k < nstr
            invariant
                k <= nstr,
                nstr == pool.strings@.len(),
                forall|j: int| 0 <= j < nstr ==> #[trigger] cv.str_section.strings[j].len()
                    <= 0xFFFF,
                strsz as int == (STR_HEADER_SIZE + EMPTY_STR_SIZE) + strings_size(
                    cv.str_section.strings,
                    k as int,
                ),
                strsz <= MAX_POOL_AND_DICT,
            decreases nstr - k,
        {
            proof {
                lemma_align4(2 + cv.str_section.strings[k as int].len() as int + 1);
            }
            let rec = pool.strings[k].get_size();
            if rec > MAX_POOL_AND_DICT - strsz {
                proof {
                    lemma_strings_size_mono(cv.str_section.strings, k as int + 1, nstr as int);
                }
                return Err(EncodeError::PoolTooLarge);
            }
            strsz = strsz + rec;
            k = k + 1;
        }
        let dictlen = self.nx_header.dict.data.len();
        if dictlen > MAX_POOL_AND_DICT - strsz {
            return Err(EncodeError::PoolTooLarge);
        }
        proof {
            lemma_strings_size_lower(cv.str_section.strings, nstr as int);
            assert(4 * nstr as int <= MAX_POOL_AND_DICT);
        }

        // The relocation entry total must match the declared counts.
        let ns = reloc.sections.len();
        let ne = reloc.entries.len();
        let mut csum: u64 = 0;
        let mut si: usize = 0;
        while si < ns
            invariant
                si <= ns,
                ns == reloc.sections@.len(),
                ne == reloc.entries@.len(),
                csum as int == sections_count_sum(cv.reloc.sections, si as int),
                csum <= ne as u64,
            decreases ns - si,
        {
            let c = reloc.sections[si].count;
            if c as u64 > ne as u64 - csum {
                proof {
                    lemma_count_sum_mono(cv.reloc.sections, si as int + 1, ns as int);
                }
                return Err(EncodeError::RelocCountMismatch);
            }
            csum = csum + c as u64;
            si = si + 1;
        }
        if csum != ne as u64 {
            return Err(EncodeError::RelocCountMismatch);
        }

        // The declared texel size must describe the texel bytes.
        let texlen = brti.texture.0.len();
        if !(brti.image_size as u64 == texlen as u64) {
            return Err(EncodeError::ImageSizeMismatch);
        }

        // The dictionary must carry its tag.
        let dd = &self.nx_header.dict.data;
        if dictlen < 4 || dd[0] != 0x5F || dd[1] != 0x44 || dd[2] != 0x49 || dd[3] != 0x43 {
            proof {
                if dictlen >= 4 {
                    assert(cv.dict.subrange(0, 4) == magic_dic() ==> cv.dict[0] == 0x5F
                        && cv.dict[1] == 0x44 && cv.dict[2] == 0x49 && cv.dict[3] == 0x43) by {
                        if cv.dict.subrange(0, 4) == magic_dic() {
                            assert(cv.dict[0] == cv.dict.subrange(0, 4)[0]);
                            assert(cv.dict[1] == cv.dict.subrange(0, 4)[1]);
                            assert(cv.dict[2] == cv.dict.subrange(0, 4)[2]);
                            assert(cv.dict[3] == cv.dict.subrange(0, 4)[3]);
                        }
                    }
                }
            }
            return Err(EncodeError::DictInvalid);
        }
        proof {
            assert(cv.dict.subrange(0, 4) =~= magic_dic());
        }

        // The whole file must fit the 32-bit size field.
        if ns as u64 > 0xFFFF_FFFF || ne as u64 > 0xFFFF_FFFF || texlen as u64 > 0xFFFF_FFFF {
            return Err(EncodeError::FileTooLarge);
        }
        let rsz: u64 = 16 + 24 * (ns as u64) + 8 * (ne as u64);
        let fsize: u64 = START_OF_TEXTURE_DATA as u64 + texlen as u64 + rsz;
        if fsize > 0xFFFF_FFFF {
            return Err(EncodeError::FileTooLarge);
        }

        // Layout plan: the descriptor follows the pool and the dictionary;
        // the data pointer slot sits after the two reserved gaps.
        let brti_off: usize = START_OF_STR_SECTION + strsz + dictlen;
        let pad: usize = BRTD_SECTION_START - (brti_off + 0x2A8);
        let reloc_off: u32 = (START_OF_TEXTURE_DATA as u64 + texlen as u64) as u32;

        let out = self.emit_all(strsz, dictlen, texlen, pad, brti_off, reloc_off, fsize as u32, bo);
        Ok(out)
    }
}

} // verus!

verus! {

impl BntxFile {
    /// Emits every planned section in order.  The offsets are the layout
    /// plan `encode` computed; the requirements record that plan.
    #[verifier::rlimit(100)]
    fn emit_all(
        &self,
        strsz: usize,
        dictlen: usize,
        texlen: usize,
        pad: usize,
        brti_off: usize,
        reloc_off: u32,
        fsize: u32,
        bo: ByteOrder,
    ) -> (out: Vec<u8>)
        requires
            bo == self.header.bom,
            strsz as int == str_section_size(self@.str_section.strings),
            strsz <= MAX_POOL_AND_DICT,
            dictlen == self@.dict.len(),
            texlen == self@.brti.texture.len(),
            brti_off == START_OF_STR_SECTION + strsz + dictlen,
            brti_off + 0x2A8 <= BRTD_SECTION_START,
            pad == BRTD_SECTION_START - (brti_off + 0x2A8),
            reloc_off as int == START_OF_TEXTURE_DATA + texlen,
            fsize as int == reloc_off + reloc_table_size(
                self@.reloc.sections.len() as int,
                self@.reloc.entries.len() as int,
            ),
            forall|i: int| 0 <= i < self@.str_section.strings.len()
                ==> #[trigger] self@.str_section.strings[i].len() <= 0xFFFF,
            self@.str_section.strings.len() <= u32::MAX,
            self@.reloc.sections.len() <= u32::MAX,
        ensures
            out@ == enc_file(self@),
    {
        let ghost cv = self@;
        let mut out: Vec<u8> = Vec::new();
        self.header.write_options(&mut out, reloc_off, fsize);
        proof {
            let h = enc_header(
                cv.version.0,
                cv.version.1,
                cv.bom,
                cv.revision,
                reloc_off as int,
                fsize as int,
            );
            assert(Seq::<u8>::empty() + h =~= h);
            assert(out@ == h);
        }
        self.nx_header.write_options(&mut out, bo, strsz);
        push_zeros(&mut out, MEM_POOL_SIZE);
        push_u64(&mut out, brti_off as u64, bo);
        proof {
            reveal(enc_file_front);
            assert(out@ == enc_file_front(cv));
        }
        let ghost s1 = out@;
        self.header.inner.str_section.write_options(&mut out, bo);
        self.nx_header.dict.write_options(&mut out);
        self.nx_header.info_ptr.write_options(&mut out, bo, brti_off);
        proof {
            let a1 = enc_str_section(cv.str_section, bo);
            let a2 = cv.dict;
            let a3 = enc_brti(cv.brti, bo, brti_off as int);
            assert(out@ == ((s1 + a1) + a2) + a3);
            vstd::seq_lib::lemma_concat_associative(s1, a1, a2);
            vstd::seq_lib::lemma_concat_associative(s1, a1 + a2, a3);
            reveal(enc_file_mid);
            assert(out@ == s1 + enc_file_mid(cv));
        }
        let ghost s2 = out@;
        push_zeros(&mut out, 0x200);
        push_u64(&mut out, START_OF_TEXTURE_DATA as u64, bo);
        push_zeros(&mut out, pad);
        push_tag(&mut out, 0x42, 0x52, 0x54, 0x44);
        push_u32(&mut out, 0, bo);
        push_u64(&mut out, texlen as u64 + 0x10, bo);
        push_bytes(&mut out, &self.nx_header.info_ptr.texture.0);
        self.header.inner.reloc_table.write_options(&mut out, reloc_off, bo);
        proof {
            let b1 = zero_seq(0x200);
            let b2 = enc64(START_OF_TEXTURE_DATA as int, bo);
            let b3 = zero_seq(pad as int);
            let b4 = magic_brtd();
            let b5 = enc32(0, bo);
            let b6 = enc64(texlen + 0x10, bo);
            let b7 = cv.brti.texture;
            let b8 = enc_reloc_table(cv.reloc, reloc_off as int, bo);
            assert(out@ == ((((((((s2 + b1) + b2) + b3) + b4) + b5) + b6) + b7) + b8));
            vstd::seq_lib::lemma_concat_associative(s2, b1, b2);
            vstd::seq_lib::lemma_concat_associative(s2, b1 + b2, b3);
            vstd::seq_lib::lemma_concat_associative(s2, (b1 + b2) + b3, b4);
            vstd::seq_lib::lemma_concat_associative(s2, ((b1 + b2) + b3) + b4, b5);
            vstd::seq_lib::lemma_concat_associative(s2, (((b1 + b2) + b3) + b4) + b5, b6);
            vstd::seq_lib::lemma_concat_associative(s2, ((((b1 + b2) + b3) + b4) + b5) + b6, b7);
            vstd::seq_lib::lemma_concat_associative(
                s2,
                (((((b1 + b2) + b3) + b4) + b5) + b6) + b7,
                b8,
            );
            reveal(enc_file_back);
            assert(out@ == s2 + enc_file_back(cv));
            reveal(enc_file);
            assert(out@ == enc_file_front(cv) + enc_file_mid(cv) + enc_file_back(cv));
            assert(out@ == enc_file(cv));
        }
        out
    }
}

} // verus!

verus! {

/// The part of the file a failed decode names.
#[derive(Clone, Copy, Debug, PartialEq, Eq, Structural)]
pub enum Section {
    Header,
    Name,
    StrPool,
    RelocTable,
    Nx,
    TexDesc,
    TexData,
    Dict,
}

/// Why a byte buffer is not a container.
#[derive(Clone, Copy, Debug, PartialEq, Eq, Structural)]
pub enum DecodeError {
    /// A fixed-size field or a pointer target lies past the buffer's end.
    UnexpectedEnd(Section),
    /// A section does not start with its tag.
    BadMagic(Section),
    /// The endianness marker is neither of its two defined values.
    BadByteOrderMark,
}

/// First zero byte at or after `off`.
pub open spec fn find_nul(b: Seq<u8>, off: int) -> Option<int>
    decreases b.len() - off,
{
    if off < 0 || off >= b.len() {
        None
    } else if b[off] == 0 {
        Some(off)
    } else {
        find_nul(b, off + 1)
    }
}

/// One string record at `off`: its bytes and its on-disk size.
pub open spec fn dec_str_record(b: Seq<u8>, off: int, bo: ByteOrder) -> Option<(Seq<u8>, int)> {
    if off < 0 || off + 2 > b.len() {
        None
    } else {
        let len = rd16(b, off, bo);
        let size = str_rec_size(len);
        if off + size > b.len() {
            None
        } else {
            Some((b.subrange(off + 2, off + 2 + len), size))
        }
    }
}

/// `n` consecutive string records from `off`: their bytes and the offset
/// after the last.
pub open spec fn dec_str_records(b: Seq<u8>, off: int, n: int, bo: ByteOrder) -> Option<
    (Seq<Seq<u8>>, int),
>
    decreases n,
{
    if n <= 0 {
        Some((Seq::empty(), off))
    } else {
        match dec_str_record(b, off, bo) {
            None => None,
            Some((s, size)) => match dec_str_records(b, off + size, n - 1, bo) {
                None => None,
                Some((rest, end)) => Some((seq![s] + rest, end)),
            },
        }
    }
}

/// `ns` relocation sections from `off` (the caller checks the bounds).
pub open spec fn dec_reloc_sections(b: Seq<u8>, off: int, ns: int, bo: ByteOrder) -> Seq<
    RelocationSection,
> {
    Seq::new(
        ns as nat,
        |i: int|
            RelocationSection {
                pointer: rd64(b, off + 24 * i, bo) as u64,
                position: rd32(b, off + 24 * i + 8, bo) as u32,
                size: rd32(b, off + 24 * i + 12, bo) as u32,
                index: rd32(b, off + 24 * i + 16, bo) as u32,
                count: rd32(b, off + 24 * i + 20, bo) as u32,
            },
    )
}

/// `ne` relocation entries from `off` (the caller checks the bounds).
pub open spec fn dec_reloc_entries(b: Seq<u8>, off: int, ne: int, bo: ByteOrder) -> Seq<
    RelocationEntry,
> {
    Seq::new(
        ne as nat,
        |i: int|
            RelocationEntry {
                position: rd32(b, off + 8 * i, bo) as u32,
                struct_count: rd16(b, off + 8 * i + 4, bo) as u16,
                offset_count: b[off + 8 * i + 6],
                padding_count: b[off + 8 * i + 7],
            },
    )
}

/// What `decode` returns for every byte buffer: the parse, section by
/// section, in the order the sections are resolved, with the failure it
/// stops at.
#[verifier::opaque]
pub open spec fn spec_decode(b: Seq<u8>) -> Result<BntxV, DecodeError> {
    let n = b.len() as int;
    if n < BNTX_HEADER_SIZE {
        Err(DecodeError::UnexpectedEnd(Section::Header))
    } else if b.subrange(0, 4) != magic_bntx() {
        Err(DecodeError::BadMagic(Section::Header))
    } else {
        let bomv = rd16(b, 12, ByteOrder::BigEndian);
        if bomv != 0xFFFE && bomv != 0xFEFF {
            Err(DecodeError::BadByteOrderMark)
        } else {
            let bo = if bomv == 0xFFFE {
                ByteOrder::LittleEndian
            } else {
                ByteOrder::BigEndian
            };
            let version = (rd16(b, 8, ByteOrder::LittleEndian) as u16, rd16(
                b,
                10,
                ByteOrder::LittleEndian,
            ) as u16);
            let revision = rd16(b, 14, bo) as u16;
            let name_ptr = rd32(b, 16, bo);
            let str_ptr = rd16(b, 22, bo);
            let reloc_ptr = rd32(b, 24, bo);
            match find_nul(b, name_ptr) {
                None => Err(DecodeError::UnexpectedEnd(Section::Name)),
                Some(nul) => {
                    let file_name = b.subrange(name_ptr, nul);
                    if str_ptr + 0x18 > n {
                        Err(DecodeError::UnexpectedEnd(Section::StrPool))
                    } else if b.subrange(str_ptr, str_ptr + 4) != magic_str() {
                        Err(DecodeError::BadMagic(Section::StrPool))
                    } else {
                        let unk = rd32(b, str_ptr + 4, bo) as u32;
                        let unk2 = rd32(b, str_ptr + 8, bo) as u32;
                        let unk3 = rd32(b, str_ptr + 12, bo) as u32;
                        let count = rd32(b, str_ptr + 16, bo);
                        match dec_str_record(b, str_ptr + 20, bo) {
                            None => Err(DecodeError::UnexpectedEnd(Section::StrPool)),
                            Some((ph, phsz)) => match dec_str_records(
                                b,
                                str_ptr + 20 + phsz,
                                count,
                                bo,
                            ) {
                                None => Err(DecodeError::UnexpectedEnd(Section::StrPool)),
                                Some((strings, send)) => spec_decode_reloc(
                                    b,
                                    bo,
                                    version,
                                    revision,
                                    file_name,
                                    StrSectionV { unk, unk2, unk3, strings },
                                    reloc_ptr,
                                ),
                            },
                        }
                    }
                },
            }
        }
    }
}

/// Continues the parse at the relocation table.
#[verifier::opaque]
pub open spec fn spec_decode_reloc(
    b: Seq<u8>,
    bo: ByteOrder,
    version: (u16, u16),
    revision: u16,
    file_name: Seq<u8>,
    pool: StrSectionV,
    reloc_ptr: int,
) -> Result<BntxV, DecodeError> {
    let n = b.len() as int;
    if reloc_ptr + 16 > n {
        Err(DecodeError::UnexpectedEnd(Section::RelocTable))
    } else if b.subrange(reloc_ptr, reloc_ptr + 4) != magic_rlt() {
        Err(DecodeError::BadMagic(Section::RelocTable))
    } else {
        let ns = rd32(b, reloc_ptr + 8, bo);
        if reloc_ptr + 16 + 24 * ns > n {
            Err(DecodeError::UnexpectedEnd(Section::RelocTable))
        } else {
            let secs = dec_reloc_sections(b, reloc_ptr + 16, ns, bo);
            let eoff = reloc_ptr + 16 + 24 * ns;
            let tot = sections_count_sum(secs, ns);
            if tot > (n - eoff) / 8 {
                Err(DecodeError::UnexpectedEnd(Section::RelocTable))
            } else {
                let ents = dec_reloc_entries(b, eoff, tot, bo);
                spec_decode_nx(
                    b,
                    bo,
                    version,
                    revision,
                    file_name,
                    pool,
                    RelocationTableV { sections: secs, entries: ents },
                )
            }
        }
    }
}

/// The descriptor value read at `bp`, once its name and texel bytes are
/// resolved.
#[verifier::opaque]
pub open spec fn dec_brti_v(
    b: Seq<u8>,
    bp: int,
    bo: ByteOrder,
    isz: u32,
    nm: Seq<u8>,
    tex: Seq<u8>,
) -> BrtiV {
    BrtiV {
        size: rd32(b, bp + 4, bo) as u32,
        size2: rd64(b, bp + 8, bo) as u64,
        flags: b[bp + 16],
        dim: b[bp + 17],
        tile_mode: rd16(b, bp + 18, bo) as u16,
        swizzle: rd16(b, bp + 20, bo) as u16,
        mips_count: rd16(b, bp + 22, bo) as u16,
        num_multi_sample: rd32(b, bp + 24, bo) as u32,
        format: format_of_code(rd32(b, bp + 28, bo)),
        unk2: rd32(b, bp + 32, bo) as u32,
        width: rd32(b, bp + 36, bo) as u32,
        height: rd32(b, bp + 40, bo) as u32,
        depth: rd32(b, bp + 44, bo) as u32,
        array_len: rd32(b, bp + 48, bo) as u32,
        size_range: rd32(b, bp + 52, bo) as u32,
        unk4: seq![
            rd32(b, bp + 56, bo) as u32,
            rd32(b, bp + 60, bo) as u32,
            rd32(b, bp + 64, bo) as u32,
            rd32(b, bp + 68, bo) as u32,
            rd32(b, bp + 72, bo) as u32,
            rd32(b, bp + 76, bo) as u32,
        ],
        image_size: isz,
        align: rd32(b, bp + 84, bo) as u32,
        comp_sel: rd32(b, bp + 88, bo) as u32,
        ty: rd32(b, bp + 92, bo) as u32,
        name: nm,
        parent_addr: rd64(b, bp + 104, bo) as u64,
        texture: tex,
    }
}

/// Continues the parse at the inner header, the descriptor, the texel
/// bytes and the dictionary.
#[verifier::opaque]
pub open spec fn spec_decode_nx(
    b: Seq<u8>,
    bo: ByteOrder,
    version: (u16, u16),
    revision: u16,
    file_name: Seq<u8>,
    pool: StrSectionV,
    reloc: RelocationTableV,
) -> Result<BntxV, DecodeError> {
    let n = b.len() as int;
    if n < BNTX_HEADER_SIZE + NX_HEADER_SIZE {
        Err(DecodeError::UnexpectedEnd(Section::Nx))
    } else if b.subrange(0x20, 0x24) != magic_nx() {
        Err(DecodeError::BadMagic(Section::Nx))
    } else {
        let ip = rd64(b, 0x28, bo);
        let dict_ptr = rd64(b, 0x38, bo);
        let dict_size = rd64(b, 0x40, bo);
        if ip + 8 > n {
            Err(DecodeError::UnexpectedEnd(Section::TexDesc))
        } else {
            let bp = rd64(b, ip, bo);
            if bp + 120 > n {
                Err(DecodeError::UnexpectedEnd(Section::TexDesc))
            } else if b.subrange(bp, bp + 4) != magic_brti() {
                Err(DecodeError::BadMagic(Section::TexDesc))
            } else {
                let np = rd64(b, bp + 96, bo);
                match dec_str_record(b, np, bo) {
                    None => Err(DecodeError::UnexpectedEnd(Section::Name)),
                    Some((nm, nmsz)) => spec_decode_tail(
                        b,
                        bo,
                        version,
                        revision,
                        file_name,
                        pool,
                        reloc,
                        bp,
                        nm,
                        dict_ptr,
                        dict_size,
                    ),
                }
            }
        }
    }
}

/// Finishes the parse: texel bytes through their double-indirect pointer,
/// then the dictionary, then the assembled container.
#[verifier::opaque]
pub open spec fn spec_decode_tail(
    b: Seq<u8>,
    bo: ByteOrder,
    version: (u16, u16),
    revision: u16,
    file_name: Seq<u8>,
    pool: StrSectionV,
    reloc: RelocationTableV,
    bp: int,
    nm: Seq<u8>,
    dict_ptr: int,
    dict_size: int,
) -> Result<BntxV, DecodeError> {
    let n = b.len() as int;
    let isz = rd32(b, bp + 80, bo);
    let q1 = rd64(b, bp + 112, bo);
    if q1 + 8 > n {
        Err(DecodeError::UnexpectedEnd(Section::TexData))
    } else {
        let q2 = rd64(b, q1, bo);
        if q2 + isz > n {
            Err(DecodeError::UnexpectedEnd(Section::TexData))
        } else {
            let tex = b.subrange(q2, q2 + isz);
            if dict_size < 4 || dict_ptr + dict_size > n {
                Err(DecodeError::UnexpectedEnd(Section::Dict))
            } else if b.subrange(dict_ptr, dict_ptr + 4) != magic_dic() {
                Err(DecodeError::BadMagic(Section::Dict))
            } else {
                let dict = b.subrange(dict_ptr, dict_ptr + dict_size);
                Ok(
                    BntxV {
                        version,
                        bom: bo,
                        revision,
                        file_name,
                        str_section: pool,
                        reloc,
                        brti: dec_brti_v(b, bp, bo, isz as u32, nm, tex),
                        dict,
                    },
                )
            }
        }
    }
}

} // verus!

verus! {

/// Copies `len` bytes starting at `off`.
fn copy_range(b: &Vec<u8>, off: usize, len: usize) -> (r: Vec<u8>)
    requires
        off + len <= b@.len(),
    ensures
        r@ == b@.subrange(off as int, off + len),
{
    let n: usize = b.len();
    let mut out: Vec<u8> = Vec::new();
    let mut i: usize = 0;
    while i < len
        invariant
            i <= len,
            off + len <= n,
            n == b@.len(),
            out@ == b@.subrange(off as int, off + i),
        decreases len - i,
    {
        out.push(b[off + i]);
        assert(out@ =~= b@.subrange(off as int, off + i + 1));
        i = i + 1;
    }
    out
}

/// Tests the four tag bytes at `off`.
fn check_tag(b: &Vec<u8>, off: usize, t0: u8, t1: u8, t2: u8, t3: u8) -> (r: bool)
    requires
        off + 4 <= b@.len(),
    ensures
        r == (b@.subrange(off as int, off + 4) == seq![t0, t1, t2, t3]),
{
    let n: usize = b.len();
    let ok = b[off] == t0 && b[off + 1] == t1 && b[off + 2] == t2 && b[off + 3] == t3;
    proof {
        if ok {
            assert(b@.subrange(off as int, off + 4) =~= seq![t0, t1, t2, t3]);
        } else {
            if b@.subrange(off as int, off + 4) == seq![t0, t1, t2, t3] {
                assert(b@[off as int] == t0);
                assert(b@[off + 1] == t1);
                assert(b@[off + 2] == t2);
                assert(b@[off + 3] == t3);
            }
        }
    }
    ok
}

/// Finds the first zero byte at or after `off`.
fn find_nul_exec(b: &Vec<u8>, off: usize) -> (r: Option<usize>)
    ensures
        match r {
            Some(i) => find_nul(b@, off as int) == Some(i as int) && off <= i < b@.len(),
            None => find_nul(b@, off as int) is None,
        },
{
    let n = b.len();
    let mut i: usize = off;
    while i < n
        invariant
            off <= i,
            n == b@.len(),
            find_nul(b@, off as int) == find_nul(b@, i as int),
        decreases n - i,
    {
        if b[i] == 0 {
            return Some(i);
        }
        i = i + 1;
    }
    None
}

/// Reads one string record at `off`.
fn read_str_record(b: &Vec<u8>, off: usize, bo: ByteOrder) -> (r: Option<(BntxStr, usize)>)
    ensures
        match r {
            Some(p) => dec_str_record(b@, off as int, bo) == Some((p.0@, p.1 as int)) && off + p.1
                <= b@.len() && 4 <= p.1,
            None => dec_str_record(b@, off as int, bo) is None,
        },
{
    let n = b.len();
    if off > n || n - off < 2 {
        return None;
    }
    let len = read_u16(b, off, bo);
    proof {
        lemma_align4(2 + len as int + 1);
    }
    let size = crate::align(2 + len as usize + 1);
    if size > n - off {
        return None;
    }
    let chars = copy_range(b, off + 2, len as usize);
    Some((BntxStr { chars }, size))
}

/// Reads `count` consecutive string records at `off`.
fn read_str_records(b: &Vec<u8>, off: usize, count: usize, bo: ByteOrder) -> (r: Option<
    (Vec<BntxStr>, usize),
>)
    ensures
        match r {
            Some(p) => dec_str_records(b@, off as int, count as int, bo) == Some(
                (strs_view(p.0@), p.1 as int),
            ),
            None => dec_str_records(b@, off as int, count as int, bo) is None,
        },
{
    let ghost whole = dec_str_records(b@, off as int, count as int, bo);
    let n: usize = b.len();
    let mut acc: Vec<BntxStr> = Vec::new();
    let mut cur: usize = off;
    let mut k: usize = 0;
    proof {
        assert(strs_view(acc@) =~= Seq::<Seq<u8>>::empty());
    }
    while k < count
        invariant
            k <= count,
            whole == dec_str_records(b@, off as int, count as int, bo),
            n == b@.len(),
            whole == (match dec_str_records(b@, cur as int, count - k, bo) {
                Some(p) => Some::<(Seq<Seq<u8>>, int)>((strs_view(acc@) + p.0, p.1)),
                None => None::<(Seq<Seq<u8>>, int)>,
            }),
        decreases count - k,
    {
        match read_str_record(b, cur, bo) {
            None => {
                return None;
            },
            Some((s, size)) => {
                let ghost pre = acc@;
                acc.push(s);
                proof {
                    assert(strs_view(acc@) =~= strs_view(pre) + seq![s@]);
                    let rest = dec_str_records(b@, cur + size, count - k - 1, bo);
                    if rest is Some {
                        vstd::seq_lib::lemma_concat_associative(
                            strs_view(pre),
                            seq![s@],
                            rest.unwrap().0,
                        );
                    }
                }
                cur = cur + size;
                k = k + 1;
            },
        }
    }
    proof {
        assert(strs_view(acc@) + Seq::<Seq<u8>>::empty() =~= strs_view(acc@));
    }
    Some((acc, cur))
}

} // verus!

verus! {

impl BntxFile {
    /// Parses a complete byte buffer into a container, following every
    /// pointer as an index into the buffer.  No input makes it panic: any
    /// offset or count that leaves the buffer is a structural error.
    pub fn decode(b: &Vec<u8>) -> (r: Result<BntxFile, DecodeError>)
        ensures
            match r {
                Ok(c) => spec_decode(b@) == Ok::<BntxV, DecodeError>(c@),
                Err(e) => spec_decode(b@) == Err::<BntxV, DecodeError>(e),
            },
    {
        proof {
            reveal(spec_decode);
        }
        let n = b.len();
        if n < BNTX_HEADER_SIZE {
            return Err(DecodeError::UnexpectedEnd(Section::Header));
        }
        if !check_tag(b, 0, 0x42, 0x4E, 0x54, 0x58) {
            return Err(DecodeError::BadMagic(Section::Header));
        }
        let bomv = read_u16(b, 12, ByteOrder::BigEndian);
        let bo = if bomv == 0xFFFE {
            ByteOrder::LittleEndian
        } else if bomv == 0xFEFF {
            ByteOrder::BigEndian
        } else {
            return Err(DecodeError::BadByteOrderMark);
        };
        let v0 = read_u16(b, 8, ByteOrder::LittleEndian);
        let v1 = read_u16(b, 10, ByteOrder::LittleEndian);
        let revision = read_u16(b, 14, bo);
        let name_ptr = read_u32(b, 16, bo);
        let str_ptr = read_u16(b, 22, bo);
        let reloc_ptr = read_u32(b, 24, bo);
        let nul = match find_nul_exec(b, name_ptr as usize) {
            Some(i) => i,
            None => {
                return Err(DecodeError::UnexpectedEnd(Section::Name));
            },
        };
        let file_name = copy_range(b, name_ptr as usize, nul - name_ptr as usize);
        let sp = str_ptr as usize;
        if sp > n || n - sp < 0x18 {
            return Err(DecodeError::UnexpectedEnd(Section::StrPool));
        }
        if !check_tag(b, sp, 0x5F, 0x53, 0x54, 0x52) {
            return Err(DecodeError::BadMagic(Section::StrPool));
        }
        let unk = read_u32(b, sp + 4, bo);
        let unk2 = read_u32(b, sp + 8, bo);
        let unk3 = read_u32(b, sp + 12, bo);
        let count = read_u32(b, sp + 16, bo);
        let phsz = match read_str_record(b, sp + 20, bo) {
            Some(p) => p.1,
            None => {
                return Err(DecodeError::UnexpectedEnd(Section::StrPool));
            },
        };
        let strings = match read_str_records(b, sp + 20 + phsz, count as usize, bo) {
            Some(p) => p.0,
            None => {
                return Err(DecodeError::UnexpectedEnd(Section::StrPool));
            },
        };
        let pool = StrSection { unk, unk2, unk3, strings };
        Self::decode_from_reloc(b, bo, v0, v1, revision, file_name, pool, reloc_ptr)
    }

    /// Parses the relocation table, then hands on to the inner header.
    #[verifier::loop_isolation(false)]
    #[verifier::rlimit(100)]
    #[verifier::spinoff_prover]
    fn decode_from_reloc(
        b: &Vec<u8>,
        bo: ByteOrder,
        v0: u16,
        v1: u16,
        revision: u16,
        file_name: Vec<u8>,
        pool: StrSection,
        reloc_ptr: u32,
    ) -> (r: Result<BntxFile, DecodeError>)
        ensures
            match r {
                Ok(c) => spec_decode_reloc(
                    b@,
                    bo,
                    (v0, v1),
                    revision,
                    file_name@,
                    pool@,
                    reloc_ptr as int,
                ) == Ok::<BntxV, DecodeError>(c@),
                Err(e) => spec_decode_reloc(
                    b@,
                    bo,
                    (v0, v1),
                    revision,
                    file_name@,
                    pool@,
                    reloc_ptr as int,
                ) == Err::<BntxV, DecodeError>(e),
            },
    {
        proof {
            reveal(spec_decode_reloc);
        }
        let n = b.len();
        let rp = reloc_ptr as usize;
        if rp > n || n - rp < 16 {
            return Err(DecodeError::UnexpectedEnd(Section::RelocTable));
        }
        if !check_tag(b, rp, 0x5F, 0x52, 0x4C, 0x54) {
            return Err(DecodeError::BadMagic(Section::RelocTable));
        }
        let ns = read_u32(b, rp + 8, bo) as usize;
        if (ns as u64) * 24 > (n - (rp + 16)) as u64 {
            return Err(DecodeError::UnexpectedEnd(Section::RelocTable));
        }
        let soff = rp + 16;
        let eoff = soff + 24 * ns;
        let ghost secs_full = dec_reloc_sections(b@, soff as int, ns as int, bo);
        let cap: u64 = ((n - eoff) / 8) as u64;
        let mut sections: Vec<RelocationSection> = Vec::new();
        let mut csum: u64 = 0;
        let mut i: usize = 0;
        while i < ns
            invariant
                i <= ns,
                n == b@.len(),
                soff + 24 * ns <= n,
                eoff == soff + 24 * ns,
                cap == ((n - eoff) / 8) as u64,
                secs_full == dec_reloc_sections(b@, soff as int, ns as int, bo),
                sections@ =~= secs_full.subrange(0, i as int),
                csum as int == sections_count_sum(secs_full, i as int),
                csum <= cap,
            decreases ns - i,
        {
            proof {
                assert(24 * (i + 1) <= 24 * ns && 24 * i >= 0) by (nonlinear_arith)
                    requires
                        i < ns,
                ;
            }
            let off = soff + 24 * i;
            let sec = RelocationSection {
                pointer: read_u64(b, off, bo),
                position: read_u32(b, off + 8, bo),
                size: read_u32(b, off + 12, bo),
                index: read_u32(b, off + 16, bo),
                count: read_u32(b, off + 20, bo),
            };
            proof {
                assert(sec == secs_full[i as int]);
            }
            if sec.count as u64 > cap - csum {
                proof {
                    lemma_count_sum_mono(secs_full, i as int + 1, ns as int);
                    assert(sections_count_sum(secs_full, i as int + 1) == csum + sec.count);
                }
                return Err(DecodeError::UnexpectedEnd(Section::RelocTable));
            }
            csum = csum + sec.count as u64;
            sections.push(sec);
            proof {
                assert(sections@ =~= secs_full.subrange(0, i as int + 1));
            }
            i = i + 1;
        }
        proof {
            assert(sections@ =~= secs_full);
            assert(8 * csum as int <= n - eoff) by (nonlinear_arith)
                requires
                    csum as int <= cap as int,
                    cap as int == (n - eoff) as int / 8,
                    n - eoff >= 0,
            ;
        }
        let ne = csum as usize;
        let ghost ents_full = dec_reloc_entries(b@, eoff as int, ne as int, bo);
        let mut entries: Vec<RelocationEntry> = Vec::new();
        let mut j: usize = 0;
        while j < ne
            invariant
                j <= ne,
                n == b@.len(),
                eoff + 8 * ne <= n,
                ents_full == dec_reloc_entries(b@, eoff as int, ne as int, bo),
                entries@ =~= ents_full.subrange(0, j as int),
            decreases ne - j,
        {
            proof {
                assert(8 * (j + 1) <= 8 * ne && 8 * j >= 0) by (nonlinear_arith)
                    requires
                        j < ne,
                ;
            }
            let off = eoff + 8 * j;
            let ent = RelocationEntry {
                position: read_u32(b, off, bo),
                struct_count: read_u16(b, off + 4, bo),
                offset_count: b[off + 6],
                padding_count: b[off + 7],
            };
            proof {
                assert(ent == ents_full[j as int]);
            }
            entries.push(ent);
            proof {
                assert(entries@ =~= ents_full.subrange(0, j as int + 1));
            }
            j = j + 1;
        }
        proof {
            assert(entries@ =~= ents_full);
        }
        let reloc = RelocationTable { sections, entries };
        Self::decode_from_nx(b, bo, v0, v1, revision, file_name, pool, reloc)
    }
}

} // verus!

verus! {

impl BntxFile {
    /// Parses the inner header, the descriptor, the texel bytes and the
    /// dictionary, assembling the container.
    #[verifier::rlimit(100)]
    #[verifier::spinoff_prover]
    fn decode_from_nx(
        b: &Vec<u8>,
        bo: ByteOrder,
        v0: u16,
        v1: u16,
        revision: u16,
        file_name: Vec<u8>,
        pool: StrSection,
        reloc: RelocationTable,
    ) -> (r: Result<BntxFile, DecodeError>)
        ensures
            match r {
                Ok(c) => spec_decode_nx(b@, bo, (v0, v1), revision, file_name@, pool@, reloc@)
                    == Ok::<BntxV, DecodeError>(c@),
                Err(e) => spec_decode_nx(b@, bo, (v0, v1), revision, file_name@, pool@, reloc@)
                    == Err::<BntxV, DecodeError>(e),
            },
    {
        proof {
            reveal(spec_decode_nx);
        }
        let n = b.len();
        let n64 = n as u64;
        if n < BNTX_HEADER_SIZE + NX_HEADER_SIZE {
            return Err(DecodeError::UnexpectedEnd(Section::Nx));
        }
        if !check_tag(b, 0x20, 0x4E, 0x58, 0x20, 0x20) {
            return Err(DecodeError::BadMagic(Section::Nx));
        }
        let ip = read_u64(b, 0x28, bo);
        let dict_ptr = read_u64(b, 0x38, bo);
        let dict_size = read_u64(b, 0x40, bo);
        if ip > n64 - 8 {
            return Err(DecodeError::UnexpectedEnd(Section::TexDesc));
        }
        let bp64 = read_u64(b, ip as usize, bo);
        if n64 < 120 || bp64 > n64 - 120 {
            return Err(DecodeError::UnexpectedEnd(Section::TexDesc));
        }
        let bp = bp64 as usize;
        if !check_tag(b, bp, 0x42, 0x52, 0x54, 0x49) {
            return Err(DecodeError::BadMagic(Section::TexDesc));
        }
        let np = read_u64(b, bp + 96, bo);
        if np > n64 {
            proof {
                assert(dec_str_record(b@, np as int, bo) is None);
            }
            return Err(DecodeError::UnexpectedEnd(Section::Name));
        }
        let name_addr = match read_str_record(b, np as usize, bo) {
            Some(p) => p.0,
            None => {
                return Err(DecodeError::UnexpectedEnd(Section::Name));
            },
        };
        Self::decode_tail(b, bo, v0, v1, revision, file_name, pool, reloc, bp, name_addr, dict_ptr, dict_size)
    }

    /// Reads the texel bytes and the dictionary and assembles the container.
    #[verifier::rlimit(100)]
    #[verifier::spinoff_prover]
    fn decode_tail(
        b: &Vec<u8>,
        bo: ByteOrder,
        v0: u16,
        v1: u16,
        revision: u16,
        file_name: Vec<u8>,
        pool: StrSection,
        reloc: RelocationTable,
        bp: usize,
        name_addr: BntxStr,
        dict_ptr: u64,
        dict_size: u64,
    ) -> (r: Result<BntxFile, DecodeError>)
        requires
            bp + 120 <= b@.len(),
        ensures
            match r {
                Ok(c) => spec_decode_tail(
                    b@,
                    bo,
                    (v0, v1),
                    revision,
                    file_name@,
                    pool@,
                    reloc@,
                    bp as int,
                    name_addr@,
                    dict_ptr as int,
                    dict_size as int,
                ) == Ok::<BntxV, DecodeError>(c@),
                Err(e) => spec_decode_tail(
                    b@,
                    bo,
                    (v0, v1),
                    revision,
                    file_name@,
                    pool@,
                    reloc@,
                    bp as int,
                    name_addr@,
                    dict_ptr as int,
                    dict_size as int,
                ) == Err::<BntxV, DecodeError>(e),
            },
    {
        proof {
            reveal(spec_decode_tail);
        }
        let n = b.len();
        let n64 = n as u64;
        let isz = read_u32(b, bp + 80, bo);
        let q1 = read_u64(b, bp + 112, bo);
        if q1 > n64 - 8 {
            return Err(DecodeError::UnexpectedEnd(Section::TexData));
        }
        let q2 = read_u64(b, q1 as usize, bo);
        if q2 > n64 || isz as u64 > n64 - q2 {
            return Err(DecodeError::UnexpectedEnd(Section::TexData));
        }
        let texture = ImageData(copy_range(b, q2 as usize, isz as usize));
        if dict_size < 4 || dict_size > n64 || dict_ptr > n64 - dict_size {
            return Err(DecodeError::UnexpectedEnd(Section::Dict));
        }
        if !check_tag(b, dict_ptr as usize, 0x5F, 0x44, 0x49, 0x43) {
            return Err(DecodeError::BadMagic(Section::Dict));
        }
        let dict = DictSection {
            data: copy_range(b, dict_ptr as usize, dict_size as usize),
        };
        let brti = Self::read_brti_fields(b, bp, bo, isz, name_addr, texture);
        let out = BntxFile {
            header: BntxHeader {
                version: (v0, v1),
                bom: bo,
                inner: HeaderInner { revision, file_name, str_section: pool, reloc_table: reloc },
            },
            nx_header: NxHeader { info_ptr: brti, dict },
        };
        Ok(out)
    }
}

} // verus!

verus! {

impl BntxFile {
    /// Reads the descriptor's scalar fields at `bp`, adopting the name and
    /// texel bytes already resolved through their pointers.
    #[verifier::rlimit(100)]
    fn read_brti_fields(
        b: &Vec<u8>,
        bp: usize,
        bo: ByteOrder,
        isz: u32,
        name_addr: BntxStr,
        texture: ImageData,
    ) -> (brti: BrtiSection)
        requires
            bp + 120 <= b@.len(),
        ensures
            brti@ == dec_brti_v(b@, bp as int, bo, isz, name_addr@, texture@),
    {
        proof {
            reveal(dec_brti_v);
        }
        let n: usize = b.len();
        let fc = read_u32(b, bp + 28, bo);
        let format = if fc == 0x0b06 {
            SurfaceFormat::R8G8B8A8_SRGB
        } else {
            SurfaceFormat::Unknown(fc)
        };
        let unk4: [u32; 6] = [
            read_u32(b, bp + 56, bo),
            read_u32(b, bp + 60, bo),
            read_u32(b, bp + 64, bo),
            read_u32(b, bp + 68, bo),
            read_u32(b, bp + 72, bo),
            read_u32(b, bp + 76, bo),
        ];
        proof {
            assert(unk4@ =~= seq![
                rd32(b@, bp + 56, bo) as u32,
                rd32(b@, bp + 60, bo) as u32,
                rd32(b@, bp + 64, bo) as u32,
                rd32(b@, bp + 68, bo) as u32,
                rd32(b@, bp + 72, bo) as u32,
                rd32(b@, bp + 76, bo) as u32,
            ]);
        }
        BrtiSection {
            size: read_u32(b, bp + 4, bo),
            size2: read_u64(b, bp + 8, bo),
            flags: b[bp + 16],
            dim: b[bp + 17],
            tile_mode: read_u16(b, bp + 18, bo),
            swizzle: read_u16(b, bp + 20, bo),
            mips_count: read_u16(b, bp + 22, bo),
            num_multi_sample: read_u32(b, bp + 24, bo),
            format,
            unk2: read_u32(b, bp + 32, bo),
            width: read_u32(b, bp + 36, bo),
            height: read_u32(b, bp + 40, bo),
            depth: read_u32(b, bp + 44, bo),
            array_len: read_u32(b, bp + 48, bo),
            size_range: read_u32(b, bp + 52, bo),
            unk4,
            image_size: isz,
            align: read_u32(b, bp + 84, bo),
            comp_sel: read_u32(b, bp + 88, bo),
            ty: read_u32(b, bp + 92, bo),
            name_addr,
            parent_addr: read_u64(b, bp + 104, bo),
            texture,
        }
    }
}

} // verus!

verus! {

/// The dictionary blob a freshly built container carries.
pub open spec fn default_dict() -> Seq<u8> {
    seq![
        0x5Fu8, 0x44u8, 0x49u8, 0x43u8, 0x01u8, 0x00u8, 0x00u8, 0x00u8, 0xFFu8, 0xFFu8, 0xFFu8,
        0xFFu8, 0x01u8, 0x00u8, 0x00u8, 0x00u8, 0xB4u8, 0x01u8, 0x00u8, 0x00u8, 0x00u8, 0x00u8,
        0x00u8, 0x00u8, 0x01u8, 0x00u8, 0x00u8, 0x00u8, 0x00u8, 0x00u8, 0x01u8, 0x00u8, 0xB8u8,
        0x01u8, 0x00u8, 0x00u8, 0x00u8, 0x00u8, 0x00u8, 0x00u8,
    ]
}

/// The container `from_pixels` builds: one texture of the given name and
/// dimensions, one mip level, one layer, default flags and format, its
/// texel bytes already tiled.
#[verifier::opaque]
pub open spec fn from_pixels_v(width: u32, height: u32, name: Seq<u8>, tex: Seq<u8>) -> BntxV {
    BntxV {
        version: (0u16, 4u16),
        bom: ByteOrder::LittleEndian,
        revision: 0x400C,
        file_name: name,
        str_section: StrSectionV { unk: 0x48, unk2: 0x48, unk3: 0, strings: seq![name] },
        reloc: RelocationTableV { sections: Seq::empty(), entries: Seq::empty() },
        brti: BrtiV {
            size: 3592,
            size2: 3592,
            flags: 1,
            dim: 2,
            tile_mode: 0,
            swizzle: 0,
            mips_count: 1,
            num_multi_sample: 1,
            format: SurfaceFormat::R8G8B8A8_SRGB,
            unk2: 32,
            width,
            height,
            depth: 1,
            array_len: 1,
            size_range: 4,
            unk4: seq![65543u32, 0u32, 0u32, 0u32, 0u32, 0u32],
            image_size: tex.len() as u32,
            align: 512,
            comp_sel: 84148994,
            ty: 1,
            name,
            parent_addr: 32,
            texture: tex,
        },
        dict: default_dict(),
    }
}

impl BntxFile {
    /// Builds a single-texture container from a row-major RGBA8 pixel
    /// buffer: the pixels are tiled first, and every other field takes its
    /// fixed default.
    pub fn from_pixels(width: u32, height: u32, data: &Vec<u8>, name: &Vec<u8>) -> (r: Result<
        BntxFile,
        crate::tegra_swizzle::SwizzleError,
    >)
        ensures
            ({
                let sw = crate::tegra_swizzle::spec_swizzle(
                    width as int,
                    height as int,
                    1,
                    4,
                    1,
                    1,
                    false,
                    4,
                    0,
                    data@,
                );
                match r {
                    Ok(c) => sw matches Ok(tex) && tex.len() <= u32::MAX && c@ == from_pixels_v(
                        width,
                        height,
                        name@,
                        tex,
                    ),
                    Err(e) => sw == Err::<Seq<u8>, crate::tegra_swizzle::SwizzleError>(e) || (sw
                        matches Ok(tex) && tex.len() > u32::MAX && e
                        == crate::tegra_swizzle::SwizzleError::TooLarge),
                }
            }),
    {
        let tiled = match crate::tegra_swizzle::swizzle(
            width,
            height,
            1,
            4,
            1,
            1,
            false,
            4,
            0,
            data,
        ) {
            Ok(t) => t,
            Err(e) => {
                return Err(e);
            },
        };
        if tiled.len() > 0xFFFF_FFFFusize {
            return Err(crate::tegra_swizzle::SwizzleError::TooLarge);
        }
        let image_size = tiled.len() as u32;
        let mut name_bytes: Vec<u8> = Vec::new();
        push_bytes(&mut name_bytes, name);
        let mut name_bytes2: Vec<u8> = Vec::new();
        push_bytes(&mut name_bytes2, name);
        let mut name_bytes3: Vec<u8> = Vec::new();
        push_bytes(&mut name_bytes3, name);
        let mut dict_data: Vec<u8> = Vec::new();
        push_zeros(&mut dict_data, 0);
        let dict_bytes: [u8; 40] = [
            0x5F, 0x44, 0x49, 0x43, 0x01, 0x00, 0x00, 0x00, 0xFF, 0xFF, 0xFF, 0xFF, 0x01, 0x00,
            0x00, 0x00, 0xB4, 0x01, 0x00, 0x00, 0x00, 0x00, 0x00, 0x00, 0x01, 0x00, 0x00, 0x00,
            0x00, 0x00, 0x01, 0x00, 0xB8, 0x01, 0x00, 0x00, 0x00, 0x00, 0x00, 0x00,
        ];
        let mut di: usize = 0;
        while di < 40
            invariant
                di <= 40,
                dict_bytes@ =~= default_dict(),
                dict_data@ == default_dict().subrange(0, di as int),
            decreases 40 - di,
        {
            dict_data.push(dict_bytes[di]);
            assert(dict_data@ =~= default_dict().subrange(0, di as int + 1));
            di = di + 1;
        }
        proof {
            assert(dict_data@ =~= default_dict());
        }
        let out = BntxFile {
            header: BntxHeader {
                version: (0, 4),
                bom: ByteOrder::LittleEndian,
                inner: HeaderInner {
                    revision: 0x400C,
                    file_name: name_bytes,
                    str_section: StrSection {
                        unk: 0x48,
                        unk2: 0x48,
                        unk3: 0,
                        strings: vec![BntxStr { chars: name_bytes2 }],
                    },
                    reloc_table: RelocationTable { sections: Vec::new(), entries: Vec::new() },
                },
            },
            nx_header: NxHeader {
                info_ptr: BrtiSection {
                    size: 3592,
                    size2: 3592,
                    flags: 1,
                    dim: 2,
                    tile_mode: 0,
                    swizzle: 0,
                    mips_count: 1,
                    num_multi_sample: 1,
                    format: SurfaceFormat::R8G8B8A8_SRGB,
                    unk2: 32,
                    width,
                    height,
                    depth: 1,
                    array_len: 1,
                    size_range: 4,
                    unk4: [65543, 0, 0, 0, 0, 0],
                    image_size,
                    align: 512,
                    comp_sel: 84148994,
                    ty: 1,
                    name_addr: BntxStr { chars: name_bytes3 },
                    parent_addr: 32,
                    texture: ImageData(tiled),
                },
                dict: DictSection { data: dict_data },
            },
        };
        proof {
            reveal(from_pixels_v);
            assert(out@.str_section.strings =~= seq![name@]);
            assert(out@.brti.unk4 =~= seq![65543u32, 0u32, 0u32, 0u32, 0u32, 0u32]);
            assert(out@.reloc.sections =~= Seq::<RelocationSection>::empty());
            assert(out@.reloc.entries =~= Seq::<RelocationEntry>::empty());
        }
        Ok(out)
    }

    /// Pulls the first texture back out as a row-major RGBA8 pixel buffer:
    /// the tiled bytes are gathered and truncated to the pixel area.
    pub fn to_pixels(&self) -> (r: Result<(u32, u32, Vec<u8>), crate::tegra_swizzle::SwizzleError>)
        ensures
            ({
                let info = self@.brti;
                let ds = crate::tegra_swizzle::spec_deswizzle(
                    info.width as int,
                    info.height as int,
                    info.depth as int,
                    info.size_range as int,
                    1,
                    1,
                    false,
                    4,
                    info.tile_mode as int,
                    info.texture,
                );
                match r {
                    Ok(p) => p.0 == info.width && p.1 == info.height && (ds matches Ok(lin)
                        && p.2@ == lin.subrange(0, info.width * info.height * 4)),
                    Err(e) => ds == Err::<Seq<u8>, crate::tegra_swizzle::SwizzleError>(e),
                }
            }),
    {
        let info = &self.nx_header.info_ptr;
        let lin = match crate::tegra_swizzle::deswizzle(
            info.width,
            info.height,
            info.depth,
            info.size_range,
            1,
            1,
            false,
            4,
            info.tile_mode,
            &info.texture.0,
        ) {
            Ok(v) => v,
            Err(e) => {
                return Err(e);
            },
        };
        proof {
            crate::tegra_swizzle::lemma_deswizzle_output_length(
                info.width as int,
                info.height as int,
                info.depth as int,
                info.size_range as int,
                1,
                1,
                false,
                4,
                info.tile_mode as int,
                info@.texture,
            );
            assert(lin@.len() == (info.depth as int) * ((info.height as int) * ((info.width as int)
                * 4)));
            assert((info.width as int) * (info.height as int) * 4 <= lin@.len())
                by (nonlinear_arith)
                requires
                    lin@.len() == (info.depth as int) * ((info.height as int) * ((
                    info.width as int) * 4)),
                    info.depth >= 1,
                    info.width >= 0,
                    info.height >= 0,
            ;
        }
        let lv: usize = lin.len();
        let wu = info.width as u64;
        let hu = info.height as u64;
        let base64 = wu * hu * 4;
        let base = base64 as usize;
        let px = copy_range(&lin, 0, base);
        Ok((info.width, info.height, px))
    }
}

} // verus!
