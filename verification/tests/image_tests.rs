use gcmod::{align, ParseError, RebuildError, ROM_SIZE, DEFAULT_ALIGNMENT, MIN_ALIGNMENT};
use gcmod::apploader::{Apploader, APPLOADER_OFFSET};
use gcmod::bytes_be::{read_be, push_be};
use gcmod::dol::{parse_segment_name, DOLHeader, SegmentType};
use gcmod::game::Game;
use gcmod::header::{Header, HeaderInformation, MAGIC_WORD, GAME_HEADER_SIZE};
use gcmod::layout::{Region, ROMLayout, SectionType, UniqueSectionType};
use gcmod::rebuild::{layout_offsets, RomSection, ROMRebuilder};

#[test]
fn align_rounds_up_to_the_boundary() {
    assert_eq!(align(100, 32), 128);
    assert_eq!(align(128, 32), 128);
    assert_eq!(align(0, 32), 0);
    assert_eq!(align(1, 32), 32);
    assert_eq!(align(31, 32), 32);
    assert_eq!(align(33, 32), 64);
}

#[test]
fn align_is_idempotent_and_bounded() {
    for n in [0u64, 1, 5, 100, 128, 4095, 4096, 4097] {
        for m in [1u64, 2, 4, 32, 4096, DEFAULT_ALIGNMENT, MIN_ALIGNMENT] {
            let a = align(n, m);
            assert_eq!(align(a, m), a);
            assert!(a >= n);
            assert!(a < n + m);
            assert_eq!(a % m, 0);
        }
    }
}

#[test]
fn big_endian_read_write_round_trip() {
    let mut out: Vec<u8> = Vec::new();
    push_be(&mut out, 0x00c0ffee, 4);
    push_be(&mut out, 0x123456, 3);
    assert_eq!(out, vec![0x00, 0xc0, 0xff, 0xee, 0x12, 0x34, 0x56]);
    assert_eq!(read_be(&out, 0, 4), 0x00c0ffee);
    assert_eq!(read_be(&out, 4, 3), 0x123456);
}

fn put_u32(buf: &mut [u8], at: usize, v: u32) {
    let b = v.to_be_bytes();
    buf[at] = b[0];
    buf[at + 1] = b[1];
    buf[at + 2] = b[2];
    buf[at + 3] = b[3];
}

fn sample_header_bytes() -> Vec<u8> {
    let mut data = vec![0u8; GAME_HEADER_SIZE];
    data[..4].copy_from_slice(b"GAME");
    data[4..6].copy_from_slice(b"01");
    data[6] = 1; // disk id
    data[7] = 2; // version
    put_u32(&mut data, 0x1c, MAGIC_WORD);
    data[0x20..0x25].copy_from_slice(b"Title");
    put_u32(&mut data, 0x420, 0x20000); // executable descriptor offset
    put_u32(&mut data, 0x424, 0x8000); // table offset
    put_u32(&mut data, 0x428, 64); // table size
    put_u32(&mut data, 0x42c, 64); // max table size
    put_u32(&mut data, 0x440, 7); // first field of the information block
    data
}

#[test]
fn parse_header_fields() {
    let data = sample_header_bytes();
    let h = Header::new(&data, 0).unwrap();
    assert_eq!(h.game_code, b"GAME".to_vec());
    assert_eq!(h.maker_code, b"01".to_vec());
    assert_eq!(h.disk_id, 1);
    assert_eq!(h.version, 2);
    assert_eq!(h.title, b"Title".to_vec());
    assert_eq!(h.dol_offset, 0x20000);
    assert_eq!(h.fst_offset, 0x8000);
    assert_eq!(h.fst_size, 64);
    assert_eq!(h.max_fst_size, 64);
    assert_eq!(h.information.debug_monitor_size, 7);
}

#[test]
fn header_rejects_bad_magic() {
    let mut data = sample_header_bytes();
    data[0x1c] = 0;
    assert_eq!(Header::new(&data, 0).unwrap_err(), ParseError::BadMagic);
    assert_eq!(Header::new(&data[..10], 0).unwrap_err(), ParseError::Truncated);
}

#[test]
fn header_write_keeps_the_layout_fields() {
    let data = sample_header_bytes();
    let mut h = Header::new(&data, 0).unwrap();
    h.dol_offset = 0x30000;
    h.fst_offset = 0x9000;
    h.fst_size = 96;
    h.max_fst_size = 96;
    let out = h.write();
    assert_eq!(out.len(), GAME_HEADER_SIZE);
    let h2 = Header::new(&out, 0).unwrap();
    assert_eq!(h2.dol_offset, 0x30000);
    assert_eq!(h2.fst_offset, 0x9000);
    assert_eq!(h2.fst_size, 96);
    assert_eq!(h2.max_fst_size, 96);
    // every other field of the rewritten block survives the patch
    assert_eq!(h2.title, b"Title".to_vec());
    assert_eq!(h2.game_code, b"GAME".to_vec());
    assert_eq!(h2.maker_code, b"01".to_vec());
    assert_eq!(h2.disk_id, 1);
    assert_eq!(h2.version, 2);
    assert_eq!(h2.information.debug_monitor_size, 7);
    assert_eq!(h2.information.unknown, 0);
    // and a second rewrite reproduces the block byte for byte
    assert_eq!(h2.write(), out);
}

#[test]
fn header_information_round_trip() {
    let info = HeaderInformation {
        debug_monitor_size: 1,
        simulated_memory_size: 2,
        argument_offset: 3,
        debug_flag: 4,
        track_location: 5,
        track_size: 6,
        country_code: 7,
        unknown: 8,
    };
    let mut out: Vec<u8> = Vec::new();
    info.write(&mut out);
    assert_eq!(out.len(), 32);
    let back = HeaderInformation::new(&out, 0).unwrap();
    assert_eq!(back.country_code, 7);
    assert_eq!(back.unknown, 8);
}

#[test]
fn parse_apploader_and_total_size() {
    let mut data = vec![0u8; 0x3000];
    data[0x2440..0x244a].copy_from_slice(b"2024/01/01");
    put_u32(&mut data, 0x2450, 0x81200000u32 as u32);
    put_u32(&mut data, 0x2454, 0x1001); // code size
    put_u32(&mut data, 0x2458, 0x1f); // trailer size
    let a = Apploader::new(&data, APPLOADER_OFFSET).unwrap();
    assert_eq!(a.date, b"2024/01/01".to_vec());
    assert_eq!(a.code_size, 0x1001);
    assert_eq!(a.trailer_size, 0x1f);
    assert_eq!(a.total_size(), 0x1020);
    assert_eq!(Apploader::new(&data[..0x2450], APPLOADER_OFFSET).unwrap_err(),
        ParseError::Truncated);
}

fn sample_dol_bytes(at: usize) -> Vec<u8> {
    let mut data = vec![0u8; at + 0x100];
    // code segment 0: content at +0x100, loads at 0x80003100, 0x180 bytes
    put_u32(&mut data, at + 0x00, 0x100);
    put_u32(&mut data, at + 0x48, 0x80003100u32 as u32);
    put_u32(&mut data, at + 0x90, 0x180);
    // data segment 1: content at +0x280, loads at 0x80400000, 0x40 bytes
    put_u32(&mut data, at + 0x1c + 4, 0x280);
    put_u32(&mut data, at + 0x48 + 0x1c + 4, 0x80400000u32 as u32);
    put_u32(&mut data, at + 0x90 + 0x1c + 4, 0x40);
    put_u32(&mut data, at + 0xe0, 0x80003100u32 as u32);
    data
}

#[test]
fn parse_dol_segments() {
    let data = sample_dol_bytes(0x5000);
    let d = DOLHeader::new(&data, 0x5000).unwrap();
    assert_eq!(d.entry_point, 0x80003100);
    assert_eq!(d.segments.len(), 2);
    assert_eq!(d.data_segments_index, 1);
    let t0 = &d.segments[0];
    assert_eq!(t0.seg_type, SegmentType::Text);
    assert_eq!(t0.seg_num, 0);
    assert_eq!(t0.offset, 0x5000 + 0x100);
    assert_eq!(t0.size, 0x180);
    assert_eq!(t0.loading_address, 0x80003100);
    // the descriptor's span reaches to the end of the farthest segment
    assert_eq!(d.dol_size, 0x280 + 0x40);
}

#[test]
fn find_segments_by_name_and_address() {
    let data = sample_dol_bytes(0x5000);
    let d = DOLHeader::new(&data, 0x5000).unwrap();
    let t0 = d.find_segment(SegmentType::Text, 0).unwrap();
    assert_eq!(t0.size, 0x180);
    assert!(d.find_segment(SegmentType::Text, 1).is_none());
    assert!(d.find_segment(SegmentType::Data, 0).is_none());
    let d1 = d.find_segment(SegmentType::Data, 1).unwrap();
    assert_eq!(d1.offset, 0x5000 + 0x280);
    let hit = d.segment_at_addr(0x80003200).unwrap();
    assert_eq!(hit.seg_num, 0);
    assert!(d.segment_at_addr(0x70000000).is_none());
    assert_eq!(d.iter_segments().len(), 2);
}

#[test]
fn region_index_sorts_and_finds() {
    let list = vec![
        Region { kind: SectionType::FST, start: 0x8000, size: 64 },
        Region { kind: SectionType::Header, start: 0, size: 0x2440 },
        Region { kind: SectionType::File, start: 0x9000, size: 10 },
    ];
    let layout = ROMLayout::new(list);
    assert_eq!(layout.len(), 3);
    assert!(layout.is_disjoint());
    assert_eq!(layout.regions[0].kind, SectionType::Header);
    let r = layout.find_offset(0x8001).unwrap();
    assert_eq!(r.kind, SectionType::FST);
    let r2 = layout.find_offset(0).unwrap();
    assert_eq!(r2.kind, SectionType::Header);
    let r3 = layout.find_offset(0x9009).unwrap();
    assert_eq!(r3.kind, SectionType::File);
    // bytes between regions are padding: no region claims them
    assert!(layout.find_offset(0x2440).is_none());
    assert!(layout.find_offset(0x900a).is_none());
}

#[test]
fn region_index_reports_overlap() {
    let list = vec![
        Region { kind: SectionType::Header, start: 0, size: 0x2440 },
        Region { kind: SectionType::FST, start: 0x1000, size: 64 },
    ];
    let layout = ROMLayout::new(list);
    assert!(!layout.is_disjoint());
}

#[test]
fn offset_chain_is_aligned() {
    let (fst_off, dol_off, file_off) = layout_offsets(0x1020, 64, 0x700, 0x8000);
    assert_eq!(fst_off, align(0x2440 + 0x1020, 0x8000));
    assert_eq!(dol_off, align(fst_off + 64, 0x8000));
    assert_eq!(file_off, align(dol_off + 0x700, 0x8000));
    assert_eq!(fst_off % 0x8000, 0);
}

#[test]
fn image_plan_pads_and_fits() {
    let sections = vec![
        RomSection { offset: 0, size: 0x2440, path: b"ISO.hdr".to_vec() },
        RomSection { offset: 0x8000, size: 0x10, path: b"Game.toc".to_vec() },
        RomSection { offset: 0x8200, size: 0, path: b"empty.bin".to_vec() },
        RomSection { offset: 0x10000, size: 0x20, path: b"b.bin".to_vec() },
    ];
    let rb = ROMRebuilder::rebuild(sections).unwrap();
    assert_eq!(rb.pads, vec![0, 0x8000 - 0x2440, 0, 0x10000 - 0x8010]);
    assert_eq!(rb.tail_pad, ROM_SIZE as u64 - 0x10020);
}

#[test]
fn image_plan_sorts_by_offset() {
    // an image laid out executable-before-table hands the planner its
    // sections out of order; the planner sorts them
    let sections = vec![
        RomSection { offset: 0, size: 0x2440, path: b"ISO.hdr".to_vec() },
        RomSection { offset: 0x2440, size: 0x20, path: b"Apploader.ldr".to_vec() },
        RomSection { offset: 0x20000, size: 0x40, path: b"Game.toc".to_vec() },
        RomSection { offset: 0x8000, size: 0x700, path: b"Start.dol".to_vec() },
        RomSection { offset: 0x28000, size: 0x10, path: b"a.bin".to_vec() },
    ];
    let rb = ROMRebuilder::rebuild(sections).unwrap();
    let offsets: Vec<u64> = rb.sections.iter().map(|s| s.offset).collect();
    assert_eq!(offsets, vec![0, 0x2440, 0x8000, 0x20000, 0x28000]);
    assert_eq!(rb.sections[2].path, b"Start.dol".to_vec());
    assert_eq!(rb.pads, vec![0, 0, 0x8000 - 0x2460, 0x20000 - 0x8700, 0x28000 - 0x20040]);
    assert_eq!(rb.tail_pad, ROM_SIZE as u64 - 0x28010);
}

#[test]
fn image_plan_rejects_overflow_and_overlap() {
    let too_big = vec![
        RomSection { offset: (ROM_SIZE - 1) as u64, size: 2, path: b"x".to_vec() },
    ];
    assert_eq!(ROMRebuilder::rebuild(too_big).unwrap_err(), RebuildError::CapacityExceeded);
    let overlapping = vec![
        RomSection { offset: 0x80, size: 0x100, path: b"b".to_vec() },
        RomSection { offset: 0, size: 0x100, path: b"a".to_vec() },
    ];
    assert_eq!(ROMRebuilder::rebuild(overlapping).unwrap_err(),
        RebuildError::RegionsOverlap);
}

#[test]
fn open_whole_image() {
    // A minimal image: header, apploader header, executable descriptor,
    // and the sample table, each where the header says it is.
    let mut data = vec![0u8; 0x21000];
    let header = sample_header_bytes();
    data[..GAME_HEADER_SIZE].copy_from_slice(&header);
    data[0x2440..0x244a].copy_from_slice(b"2024/01/01");
    put_u32(&mut data, 0x2454, 0x100);
    put_u32(&mut data, 0x2458, 0x20);
    let dol = sample_dol_bytes(0);
    data[0x20000..0x20100].copy_from_slice(&dol[..0x100]);
    let table: &[u8] = &[
        1, 0, 0, 0, 0, 0, 0, 0, 0, 0, 0, 2, // root, two entries
        0, 0, 0, 0, 0, 0, 0x90, 0, 0, 0, 0, 5, // "f.bin" at 0x9000, 5 bytes
    ];
    data[0x8000..0x8018].copy_from_slice(table);
    data[0x8018..0x801e].copy_from_slice(b"f.bin\0");
    let g = Game::open(&data, 0).unwrap();
    assert_eq!(g.fst.entries.len(), 2);
    assert_eq!(g.fst.offset, 0x8000);
    assert_eq!(g.dol.offset, 0x20000);
    assert_eq!(g.apploader.code_size, 0x100);

    let layout = g.rom_layout();
    assert!(layout.is_disjoint());
    // header + apploader + descriptor + two segments + table + one file
    assert_eq!(layout.len(), 7);
    let at_file = layout.find_offset(0x9001).unwrap();
    assert_eq!(at_file.kind, SectionType::File);

    let fst_region = g.get_section_by_type(&UniqueSectionType::FST);
    assert_eq!(fst_region.start, 0x8000);
    assert_eq!(fst_region.kind, SectionType::FST);
    assert_eq!(UniqueSectionType::FST.to_str(), "File System Table");
    assert_eq!(SectionType::Apploader.to_str(), "Apploader");
}

#[test]
fn segment_names_parse_exactly() {
    assert_eq!(parse_segment_name(b".text0"), Some((SegmentType::Text, 0)));
    assert_eq!(parse_segment_name(b"text12"), Some((SegmentType::Text, 12)));
    assert_eq!(parse_segment_name(b".data7"), Some((SegmentType::Data, 7)));
    assert_eq!(parse_segment_name(b"data0"), Some((SegmentType::Data, 0)));
    assert_eq!(parse_segment_name(b"text"), None);
    assert_eq!(parse_segment_name(b".text"), None);
    assert_eq!(parse_segment_name(b"tex0"), None);
    assert_eq!(parse_segment_name(b"bss0"), None);
    assert_eq!(parse_segment_name(b"text0x"), None);
    assert_eq!(parse_segment_name(b""), None);
    assert_eq!(parse_segment_name(b"data18446744073709551615"),
        Some((SegmentType::Data, u64::MAX)));
    assert_eq!(parse_segment_name(b"data18446744073709551616"), None);
}
