use bntx::container::{
    BntxFile, BntxStr, DecodeError, DictSection, EncodeError, RelocationSection, RelocationTable,
    Section, StrSection, SurfaceFormat,
};
use bntx::tegra_swizzle::{deswizzle, swizzle, SwizzleError};

fn sample_pixels(w: u32, h: u32) -> Vec<u8> {
    let mut data = Vec::new();
    for i in 0..(w as usize * h as usize * 4) {
        data.push((i * 7 + 13) as u8);
    }
    data
}

fn dict_bytes() -> Vec<u8> {
    let mut d = vec![0x5F, 0x44, 0x49, 0x43];
    d.extend_from_slice(&[0u8; 36]);
    d
}

fn pool_container(strings: Vec<&[u8]>) -> BntxFile {
    // A container whose display name is the first pool string.
    let mut file = BntxFile::from_pixels(4, 4, &sample_pixels(4, 4), &strings[0].to_vec())
        .expect("small image must build");
    file.header.inner.str_section.strings =
        strings.iter().map(|s| BntxStr { chars: s.to_vec() }).collect();
    file
}

#[test]
fn linear_swizzle_is_identity() {
    // Tile mode 1 is the linear layout: both transforms return the input.
    let data: Vec<u8> = (0u32..256).map(|i| i as u8).collect();
    let out = swizzle(8, 8, 1, 0, 1, 1, false, 4, 1, &data).unwrap();
    assert_eq!(out, data);
    let back = deswizzle(8, 8, 1, 0, 1, 1, false, 4, 1, &data).unwrap();
    assert_eq!(back, data);
}

#[test]
fn single_gob_matches_interleave_formula() {
    // One GOB: 64 byte columns, 8 rows, one byte per element.
    let data: Vec<u8> = (0u32..512).map(|i| (i % 251) as u8).collect();
    let out = swizzle(64, 8, 1, 0, 1, 1, false, 1, 0, &data).unwrap();
    assert_eq!(out.len(), 512);
    for y in 0usize..8 {
        for x in 0usize..64 {
            let off = ((x % 64) / 32) * 256
                + ((y % 8) / 2) * 64
                + ((x % 32) / 16) * 32
                + (y % 2) * 16
                + x % 16;
            assert_eq!(out[off], data[y * 64 + x]);
        }
    }
}

#[test]
fn block_linear_round_trip() {
    for (w, h, bpe, log2) in [(16u32, 16u32, 4u32, 4u32), (17, 9, 4, 0), (33, 21, 2, 2)] {
        let data: Vec<u8> = (0..(w * h * bpe) as usize).map(|i| (i % 254) as u8).collect();
        let tiled = swizzle(w, h, 1, log2, 1, 1, false, bpe, 0, &data).unwrap();
        assert!(tiled.len() >= data.len());
        let back = deswizzle(w, h, 1, log2, 1, 1, false, bpe, 0, &tiled).unwrap();
        assert_eq!(back, data);
    }
}

#[test]
fn deswizzle_output_length_is_exact() {
    // 20x10, 4 bytes per element: output is exactly 20*10*4 bytes.
    let tiled = swizzle(20, 10, 1, 4, 1, 1, false, 4, 0, &sample_pixels(20, 10)).unwrap();
    let lin = deswizzle(20, 10, 1, 4, 1, 1, false, 4, 0, &tiled).unwrap();
    assert_eq!(lin.len(), 20 * 10 * 4);
}

#[test]
fn multiple_mip_levels_round_trip_per_level() {
    // Two mip levels laid out consecutively: sizes 8x8 and 4x4.
    let l0: Vec<u8> = (0..8 * 8 * 4).map(|i| (i % 256) as u8).collect();
    let l1: Vec<u8> = (0..4 * 4 * 4).map(|i| (i % 200) as u8).collect();
    let mut lin = l0.clone();
    lin.extend_from_slice(&l1);
    let tiled = swizzle(8, 8, 1, 0, 2, 1, false, 4, 0, &lin).unwrap();
    let back = deswizzle(8, 8, 1, 0, 2, 1, false, 4, 0, &tiled).unwrap();
    assert_eq!(back, lin);
}

#[test]
fn swizzle_dimension_errors() {
    let data = vec![0u8; 16];
    assert_eq!(
        swizzle(0, 2, 1, 0, 1, 1, false, 4, 0, &data),
        Err(SwizzleError::ZeroSize)
    );
    assert_eq!(
        swizzle(2, 2, 1, 6, 1, 1, false, 4, 0, &data),
        Err(SwizzleError::BlockHeightOutOfRange)
    );
    assert_eq!(
        swizzle(4, 4, 1, 0, 1, 1, false, 4, 0, &data),
        Err(SwizzleError::SourceSizeMismatch)
    );
    assert_eq!(
        deswizzle(4, 4, 1, 0, 1, 1, false, 4, 0, &data),
        Err(SwizzleError::SourceSizeMismatch)
    );
}

#[test]
fn container_round_trip_preserves_fields() {
    let pixels = sample_pixels(16, 16);
    let file = BntxFile::from_pixels(16, 16, &pixels, &b"test".to_vec()).unwrap();
    let bytes = file.encode().unwrap();
    let back = BntxFile::decode(&bytes).unwrap();
    assert_eq!(back.header.version, file.header.version);
    assert_eq!(back.header.bom, file.header.bom);
    assert_eq!(back.header.inner.revision, file.header.inner.revision);
    assert_eq!(back.header.inner.file_name, file.header.inner.file_name);
    assert_eq!(back.header.inner.str_section, file.header.inner.str_section);
    assert_eq!(back.header.inner.reloc_table, file.header.inner.reloc_table);
    assert_eq!(back.nx_header.dict, file.nx_header.dict);
    let b = &back.nx_header.info_ptr;
    let f = &file.nx_header.info_ptr;
    assert_eq!((b.width, b.height, b.depth), (f.width, f.height, f.depth));
    assert_eq!(b.format, f.format);
    assert_eq!(b.size_range, f.size_range);
    assert_eq!(b.image_size, f.image_size);
    assert_eq!(b.name_addr, f.name_addr);
    assert_eq!(b.texture, f.texture);
    assert_eq!(b.tile_mode, f.tile_mode);
    assert_eq!(b.unk4, f.unk4);
}

#[test]
fn pixels_round_trip_through_container() {
    let pixels = sample_pixels(24, 12);
    let file = BntxFile::from_pixels(24, 12, &pixels, &b"img".to_vec()).unwrap();
    let bytes = file.encode().unwrap();
    let back = BntxFile::decode(&bytes).unwrap();
    let (w, h, out) = back.to_pixels().unwrap();
    assert_eq!((w, h), (24, 12));
    assert_eq!(out, pixels);
}

#[test]
fn truncated_header_fails_structurally() {
    let file = BntxFile::from_pixels(4, 4, &sample_pixels(4, 4), &b"t".to_vec()).unwrap();
    let bytes = file.encode().unwrap();
    for cut in 0..0x20 {
        let short = bytes[..cut].to_vec();
        assert_eq!(
            BntxFile::decode(&short),
            Err(DecodeError::UnexpectedEnd(Section::Header)),
            "truncation length {cut}"
        );
    }
}

#[test]
fn corrupt_magic_fails_with_magic_mismatch() {
    let file = BntxFile::from_pixels(4, 4, &sample_pixels(4, 4), &b"t".to_vec()).unwrap();
    let mut bytes = file.encode().unwrap();
    bytes[0] = b'X';
    assert_eq!(
        BntxFile::decode(&bytes),
        Err(DecodeError::BadMagic(Section::Header))
    );
}

#[test]
fn bad_byte_order_marker_is_rejected() {
    let file = BntxFile::from_pixels(4, 4, &sample_pixels(4, 4), &b"t".to_vec()).unwrap();
    let mut bytes = file.encode().unwrap();
    bytes[12] = 0x00;
    bytes[13] = 0x00;
    assert_eq!(BntxFile::decode(&bytes), Err(DecodeError::BadByteOrderMark));
}

#[test]
fn string_pool_round_trips_with_exact_record_sizes() {
    let file = pool_container(vec![b"", b"a", b"name_with_9_chars"]);
    let bytes = file.encode().unwrap();
    let back = BntxFile::decode(&bytes).unwrap();
    let strings = &back.header.inner.str_section.strings;
    assert_eq!(strings.len(), 3);
    assert_eq!(strings[0].chars, b"".to_vec());
    assert_eq!(strings[1].chars, b"a".to_vec());
    assert_eq!(strings[2].chars, b"name_with_9_chars".to_vec());
    // On-disk record size is align4(2 + len + 1).
    assert_eq!(strings[0].get_size(), 4);
    assert_eq!(strings[1].get_size(), 4);
    assert_eq!(strings[2].get_size(), 20);
}

#[test]
fn encode_rejects_oversized_pool() {
    let big = vec![b'x'; 3000];
    let file = pool_container(vec![b"n", &big]);
    assert_eq!(file.encode(), Err(EncodeError::PoolTooLarge));
}

#[test]
fn encode_rejects_inconsistent_name() {
    let mut file = BntxFile::from_pixels(4, 4, &sample_pixels(4, 4), &b"n".to_vec()).unwrap();
    file.header.inner.file_name = b"other".to_vec();
    assert_eq!(file.encode(), Err(EncodeError::NameInconsistent));
}

#[test]
fn encode_rejects_reloc_count_mismatch() {
    let mut file = BntxFile::from_pixels(4, 4, &sample_pixels(4, 4), &b"n".to_vec()).unwrap();
    file.header.inner.reloc_table = RelocationTable {
        sections: vec![RelocationSection {
            pointer: 0,
            position: 0,
            size: 0,
            index: 0,
            count: 2,
        }],
        entries: vec![],
    };
    assert_eq!(file.encode(), Err(EncodeError::RelocCountMismatch));
}

#[test]
fn encode_rejects_wrong_image_size() {
    let mut file = BntxFile::from_pixels(4, 4, &sample_pixels(4, 4), &b"n".to_vec()).unwrap();
    file.nx_header.info_ptr.image_size += 1;
    assert_eq!(file.encode(), Err(EncodeError::ImageSizeMismatch));
}

#[test]
fn encode_rejects_invalid_dictionary() {
    let mut file = BntxFile::from_pixels(4, 4, &sample_pixels(4, 4), &b"n".to_vec()).unwrap();
    file.nx_header.dict = DictSection { data: vec![1, 2, 3] };
    assert_eq!(file.encode(), Err(EncodeError::DictInvalid));
    file.nx_header.dict = DictSection { data: dict_bytes() };
    assert!(file.encode().is_ok());
}

#[test]
fn encode_rejects_too_long_string() {
    let long = vec![b'y'; 0x10001];
    let file = pool_container(vec![b"n", &long]);
    assert_eq!(file.encode(), Err(EncodeError::StringTooLong));
}

#[test]
fn unknown_format_code_round_trips() {
    let mut file = BntxFile::from_pixels(4, 4, &sample_pixels(4, 4), &b"n".to_vec()).unwrap();
    file.nx_header.info_ptr.format = SurfaceFormat::Unknown(0xDEAD);
    let bytes = file.encode().unwrap();
    let back = BntxFile::decode(&bytes).unwrap();
    assert_eq!(back.nx_header.info_ptr.format, SurfaceFormat::Unknown(0xDEAD));
}

#[test]
fn from_pixels_uses_documented_defaults() {
    let file = BntxFile::from_pixels(8, 8, &sample_pixels(8, 8), &b"nm".to_vec()).unwrap();
    assert_eq!(file.header.version, (0, 4));
    assert_eq!(file.header.inner.revision, 0x400C);
    let info = &file.nx_header.info_ptr;
    assert_eq!(info.format, SurfaceFormat::R8G8B8A8_SRGB);
    assert_eq!((info.flags, info.dim), (1, 2));
    assert_eq!((info.mips_count, info.array_len, info.depth), (1, 1, 1));
    assert_eq!(info.tile_mode, 0);
    assert_eq!(info.size_range, 4);
    assert_eq!(info.image_size as usize, info.texture.0.len());
    let pool = &file.header.inner.str_section;
    assert_eq!((pool.unk, pool.unk2, pool.unk3), (0x48, 0x48, 0));
    assert_eq!(pool.strings.len(), 1);
    assert_eq!(pool.strings[0].chars, b"nm".to_vec());
}

#[test]
fn fixed_layout_offsets_in_encoded_file() {
    let file = BntxFile::from_pixels(4, 4, &sample_pixels(4, 4), &b"t".to_vec()).unwrap();
    let bytes = file.encode().unwrap();
    assert_eq!(&bytes[0..4], b"BNTX");
    assert_eq!(&bytes[0x20..0x24], b"NX  ");
    assert_eq!(&bytes[0x1A0..0x1A4], b"_STR");
    assert_eq!(&bytes[0xFF0..0xFF4], b"BRTD");
    // The texel bytes start at the fixed data offset.
    assert_eq!(
        &bytes[0x1000..0x1000 + file.nx_header.info_ptr.texture.0.len()],
        &file.nx_header.info_ptr.texture.0[..]
    );
    // The relocation table follows the texel bytes.
    let reloc_off = 0x1000 + file.nx_header.info_ptr.texture.0.len();
    assert_eq!(&bytes[reloc_off..reloc_off + 4], b"_RLT");
}
