use gcmod::ParseError;
use gcmod::entry::Entry;
use gcmod::fst::{DirectoryIter, FST};
use gcmod::rebuild::{rebuild_fst, is_file_ignored, FsEntry};

/// A synthetic four-entry table: root, a subdirectory holding one file,
/// and one top-level file, followed by its string table.
fn sample_table_bytes() -> Vec<u8> {
    let mut data: Vec<u8> = Vec::new();
    // root: directory, filename offset 0, parent 0, next index 4
    data.extend_from_slice(&[1, 0, 0, 0, 0, 0, 0, 0, 0, 0, 0, 4]);
    // "sub": directory, filename offset 0, parent 0, next index 3
    data.extend_from_slice(&[1, 0, 0, 0, 0, 0, 0, 0, 0, 0, 0, 3]);
    // "a.bin": file, filename offset 4, content at 0x8000, size 10
    data.extend_from_slice(&[0, 0, 0, 4, 0, 0, 0x80, 0, 0, 0, 0, 10]);
    // "b.bin": file, filename offset 10, content at 0x9000, size 5
    data.extend_from_slice(&[0, 0, 0, 10, 0, 0, 0x90, 0, 0, 0, 0, 5]);
    data.extend_from_slice(b"sub\0a.bin\0b.bin\0");
    data
}

#[test]
fn parse_sample_table() {
    let data = sample_table_bytes();
    let fst = FST::new(&data, 0).unwrap();
    assert_eq!(fst.entries.len(), 4);
    assert_eq!(fst.file_count, 2);
    assert_eq!(fst.total_file_system_size, 15);
    assert_eq!(fst.size, 48 + 16);

    assert_eq!(fst.entries[0].info().name, b"/".to_vec());
    assert_eq!(fst.entries[0].info().full_path, b"/".to_vec());
    assert_eq!(fst.entries[1].info().name, b"sub".to_vec());
    assert_eq!(fst.entries[1].info().full_path, b"/sub".to_vec());
    assert_eq!(fst.entries[2].info().name, b"a.bin".to_vec());
    assert_eq!(fst.entries[2].info().full_path, b"/sub/a.bin".to_vec());
    assert_eq!(fst.entries[3].info().name, b"b.bin".to_vec());
    assert_eq!(fst.entries[3].info().full_path, b"/b.bin".to_vec());

    assert_eq!(fst.entries[1].info().directory_index, Some(0));
    assert_eq!(fst.entries[2].info().directory_index, Some(1));
    assert_eq!(fst.entries[3].info().directory_index, Some(0));

    let root = fst.root();
    assert_eq!(root.next_index, 4);
    assert_eq!(root.file_count, 1);
    let sub = fst.entries[1].as_dir().unwrap();
    assert_eq!(sub.next_index, 3);
    assert_eq!(sub.file_count, 1);

    let a = fst.entries[2].as_file().unwrap();
    assert_eq!(a.file_offset, 0x8000);
    assert_eq!(a.size, 10);
    assert!(fst.entries[2].is_file());
    assert!(!fst.entries[2].is_dir());
    assert!(fst.entries[1].is_dir());
}

#[test]
fn iterate_directory_contents() {
    // Iterating the root yields the subdirectory and the top-level file
    // only; iterating the subdirectory yields its single file.
    let data = sample_table_bytes();
    let fst = FST::new(&data, 0).unwrap();

    let mut it = fst.root().iter_contents();
    assert_eq!(it.next(&fst.entries), Some(1));
    assert_eq!(it.next(&fst.entries), Some(3));
    assert_eq!(it.next(&fst.entries), None);

    let sub = fst.entries[1].as_dir().unwrap();
    let mut it2 = DirectoryIter::new(sub);
    assert_eq!(it2.next(&fst.entries), Some(2));
    assert_eq!(it2.next(&fst.entries), None);
}

#[test]
fn subtree_ranges_partition() {
    // The root's range 1..4 splits into sub's subtree (1..3) and b.bin
    // (3..4): the children's subtree sizes sum to the whole range.
    let data = sample_table_bytes();
    let fst = FST::new(&data, 0).unwrap();
    let mut it = fst.root().iter_contents();
    let mut covered = 0;
    while let Some(c) = it.next(&fst.entries) {
        covered += match &fst.entries[c] {
            Entry::Directory(d) => d.next_index - c,
            Entry::File(_) => 1,
        };
    }
    assert_eq!(covered, fst.root().next_index - 1);
}

#[test]
fn parse_with_nonzero_offset() {
    let mut data = vec![0xffu8; 100];
    data.extend_from_slice(&sample_table_bytes());
    let fst = FST::new(&data, 100).unwrap();
    assert_eq!(fst.offset, 100);
    assert_eq!(fst.entries.len(), 4);
    assert_eq!(fst.entries[2].info().full_path, b"/sub/a.bin".to_vec());
}

#[test]
fn parse_rejects_bad_tag() {
    let mut data = sample_table_bytes();
    data[12] = 2; // second record's discriminant
    assert_eq!(FST::new(&data, 0).unwrap_err(), ParseError::BadEntryTag);
}

#[test]
fn parse_rejects_file_root() {
    let mut data = sample_table_bytes();
    data[0] = 0;
    assert_eq!(FST::new(&data, 0).unwrap_err(), ParseError::RootNotDirectory);
}

#[test]
fn parse_rejects_empty_buffer() {
    let data: Vec<u8> = Vec::new();
    assert_eq!(FST::new(&data, 0).unwrap_err(), ParseError::Truncated);
}

#[test]
fn parse_rejects_zero_entry_count() {
    let mut data = sample_table_bytes();
    data[11] = 0; // root's next index
    assert_eq!(FST::new(&data, 0).unwrap_err(), ParseError::BadStructure);
}

#[test]
fn parse_rejects_range_outside_table() {
    let mut data = sample_table_bytes();
    data[23] = 9; // sub's next index runs past the table
    assert_eq!(FST::new(&data, 0).unwrap_err(), ParseError::BadStructure);
}

#[test]
fn parse_rejects_unterminated_name() {
    let data: Vec<u8> = sample_table_bytes()[..48 + 15].to_vec(); // cut the last terminator
    assert_eq!(FST::new(&data, 0).unwrap_err(), ParseError::Truncated);
}

#[test]
fn lookup_by_path_and_name() {
    let data = sample_table_bytes();
    let fst = FST::new(&data, 0).unwrap();
    let e = fst.entry_for_path(b"/sub/a.bin").unwrap();
    assert_eq!(e.info().name, b"a.bin".to_vec());
    let e2 = fst.entry_for_path(b"a.bin").unwrap();
    assert_eq!(e2.info().full_path, b"/sub/a.bin".to_vec());
    assert!(fst.entry_for_path(b"/nope").is_none());
    assert!(fst.entry_for_path(b"nope").is_none());
    let root = fst.entry_for_path(b"/").unwrap();
    assert!(root.is_dir());
}

#[test]
fn parent_lookup() {
    let data = sample_table_bytes();
    let fst = FST::new(&data, 0).unwrap();
    let p = fst.get_parent_for_entry(fst.entries[2].info()).unwrap();
    assert_eq!(p.info().name, b"sub".to_vec());
    assert!(fst.get_parent_for_entry(fst.entries[0].info()).is_none());
}

fn sample_tree() -> FsEntry {
    FsEntry::Dir {
        name: b"root".to_vec(),
        children: vec![
            FsEntry::Dir {
                name: b"sub".to_vec(),
                children: vec![FsEntry::File { name: b"a.bin".to_vec(), size: 10 }],
            },
            FsEntry::File { name: b"b.bin".to_vec(), size: 5 },
            FsEntry::Dir { name: b"empty".to_vec(), children: vec![] },
        ],
    }
}

#[test]
fn rebuild_assigns_indices_offsets_and_paths() {
    let fst = rebuild_fst(&sample_tree(), 32, 0x8000).unwrap();
    assert_eq!(fst.entries.len(), 5);
    assert_eq!(fst.file_count, 2);
    assert_eq!(fst.total_file_system_size, 15);
    // canonical string table: "sub\0a.bin\0b.bin\0empty\0"
    assert_eq!(fst.entries[1].info().filename_offset, 0);
    assert_eq!(fst.entries[2].info().filename_offset, 4);
    assert_eq!(fst.entries[3].info().filename_offset, 10);
    assert_eq!(fst.entries[4].info().filename_offset, 16);
    assert_eq!(fst.size, 5 * 12 + 22);
    // subtree ranges
    assert_eq!(fst.root().next_index, 5);
    assert_eq!(fst.entries[1].as_dir().unwrap().next_index, 3);
    let empty = fst.entries[4].as_dir().unwrap();
    assert_eq!(empty.next_index, 5);
    assert_eq!(empty.file_count, 0);
    // aligned file offsets from the file-data base
    assert_eq!(fst.entries[2].as_file().unwrap().file_offset, 0x8000);
    assert_eq!(fst.entries[3].as_file().unwrap().file_offset, 0x8020);
    // reconstructed paths
    assert_eq!(fst.entries[1].info().full_path, b"/sub".to_vec());
    assert_eq!(fst.entries[2].info().full_path, b"/sub/a.bin".to_vec());
    assert_eq!(fst.entries[3].info().full_path, b"/b.bin".to_vec());
    assert_eq!(fst.entries[4].info().full_path, b"/empty".to_vec());
}

#[test]
fn rebuild_skips_hidden_and_system_entries() {
    let tree = FsEntry::Dir {
        name: b"root".to_vec(),
        children: vec![
            FsEntry::File { name: b".hidden".to_vec(), size: 3 },
            FsEntry::Dir { name: b"&&systemdata".to_vec(), children: vec![] },
            FsEntry::File { name: b"x".to_vec(), size: 1 },
        ],
    };
    let fst = rebuild_fst(&tree, 32, 0).unwrap();
    assert_eq!(fst.entries.len(), 2);
    assert_eq!(fst.entries[1].info().name, b"x".to_vec());
    assert!(is_file_ignored(b".hidden"));
    assert!(is_file_ignored(b"&&systemdata"));
    assert!(!is_file_ignored(b"x"));
    assert!(!is_file_ignored(b"&&systemdatX"));
}

#[test]
fn round_trip_rebuild_write_parse() {
    // Rebuilding, serializing, and parsing back reproduces every path
    // and field; serializing the reparsed table reproduces the bytes.
    let fst = rebuild_fst(&sample_tree(), 32, 0x8000).unwrap();
    let bytes = fst.write();
    let fst2 = FST::new(&bytes, 0).unwrap();
    assert_eq!(fst2.entries.len(), fst.entries.len());
    for j in 0..fst.entries.len() {
        let a = &fst.entries[j];
        let b = &fst2.entries[j];
        assert_eq!(a.info().name, b.info().name);
        assert_eq!(a.info().full_path, b.info().full_path);
        assert_eq!(a.info().filename_offset, b.info().filename_offset);
        assert_eq!(a.info().directory_index, b.info().directory_index);
        assert_eq!(a.is_dir(), b.is_dir());
        match (a, b) {
            (Entry::File(fa), Entry::File(fb)) => {
                assert_eq!(fa.file_offset, fb.file_offset);
                assert_eq!(fa.size, fb.size);
            }
            (Entry::Directory(da), Entry::Directory(db)) => {
                assert_eq!(da.next_index, db.next_index);
                assert_eq!(da.file_count, db.file_count);
            }
            _ => unreachable!(),
        }
    }
    assert_eq!(fst2.file_count, fst.file_count);
    assert_eq!(fst2.total_file_system_size, fst.total_file_system_size);
    assert_eq!(fst2.size, fst.size);
    // byte-identical re-serialization
    let bytes2 = fst2.write();
    assert_eq!(bytes, bytes2);
}

#[test]
fn extraction_plan_lists_every_entry() {
    let data = sample_table_bytes();
    let fst = FST::new(&data, 0).unwrap();
    let items = fst.extract_file_system();
    assert_eq!(items.len(), 4);
    assert!(items[0].is_dir);
    assert_eq!(items[0].path, b"/".to_vec());
    assert!(items[1].is_dir);
    assert_eq!(items[1].path, b"/sub".to_vec());
    assert!(!items[2].is_dir);
    assert_eq!(items[2].path, b"/sub/a.bin".to_vec());
    assert_eq!(items[2].file_offset, 0x8000);
    assert_eq!(items[2].size, 10);
    assert!(!items[3].is_dir);
    assert_eq!(items[3].path, b"/b.bin".to_vec());
}

/// Rebuild the tree a parsed table describes, as an extraction to a real
/// file system would: name and size for files, children for directories.
fn tree_from(fst: &FST, dir_index: usize) -> Vec<FsEntry> {
    let mut children = Vec::new();
    let d = fst.entries[dir_index].as_dir().unwrap();
    let mut it = d.iter_contents();
    while let Some(c) = it.next(&fst.entries) {
        children.push(match &fst.entries[c] {
            Entry::File(f) => FsEntry::File { name: f.info.name.clone(), size: f.size },
            Entry::Directory(sub) => FsEntry::Dir {
                name: sub.info.name.clone(),
                children: tree_from(fst, sub.info.index),
            },
        });
    }
    children
}

#[test]
fn extract_then_rebuild_is_byte_identical() {
    // Serializing a rebuilt table, extracting its tree, and rebuilding
    // from that tree with the same alignment reproduces the bytes
    // exactly.
    let fst1 = rebuild_fst(&sample_tree(), 32, 0x8000).unwrap();
    let bytes1 = fst1.write();
    let parsed = FST::new(&bytes1, 0).unwrap();
    let rescanned = FsEntry::Dir { name: b"root".to_vec(), children: tree_from(&parsed, 0) };
    let fst2 = rebuild_fst(&rescanned, 32, 0x8000).unwrap();
    let bytes2 = fst2.write();
    assert_eq!(bytes1, bytes2);
}

#[test]
fn record_write_read_round_trip() {
    let data = sample_table_bytes();
    let fst = FST::new(&data, 0).unwrap();
    let mut out: Vec<u8> = Vec::new();
    fst.entries[2].write(&mut out);
    assert_eq!(out.len(), 12);
    assert_eq!(out, data[24..36].to_vec());
    let back = Entry::new(&out, 0, 2, Some(1)).unwrap();
    let f = back.as_file().unwrap();
    assert_eq!(f.file_offset, 0x8000);
    assert_eq!(f.size, 10);
    assert_eq!(f.info.filename_offset, 4);
}

#[test]
fn search_by_bare_name_and_full_path_helpers() {
    let data = sample_table_bytes();
    let fst = FST::new(&data, 0).unwrap();
    let e = fst.entry_with_name(b"b.bin").unwrap();
    assert_eq!(e.info().full_path, b"/b.bin".to_vec());
    assert!(fst.entry_with_name(b"missing").is_none());
    assert_eq!(fst.get_full_path(fst.entries[2].info()), b"/sub/a.bin".to_vec());
}

#[test]
fn lookup_accepts_trailing_separator() {
    let data = sample_table_bytes();
    let fst = FST::new(&data, 0).unwrap();
    let e = fst.entry_for_path(b"/sub/").unwrap();
    assert_eq!(e.info().name, b"sub".to_vec());
    assert!(e.is_dir());
    let root = fst.entry_for_path(b"/").unwrap();
    assert!(root.is_dir());
    // a trailing separator is dropped before matching, whatever the kind
    let f = fst.entry_for_path(b"/sub/a.bin/").unwrap();
    assert!(f.is_file());
}

#[test]
fn canonical_check_tells_tables_apart() {
    let fst = rebuild_fst(&sample_tree(), 32, 0x8000).unwrap();
    assert!(fst.is_canonical());
    let mut data = sample_table_bytes();
    data[15] = 10; // point "a.bin" into the middle of the string table
    data[27] = 4;
    let parsed = FST::new(&data, 0).unwrap();
    assert!(!parsed.is_canonical());
}
