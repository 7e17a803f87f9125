//! One record of the file system table: a File or a Directory, the twelve
//! bytes it occupies on disc, and the iterator over a directory's immediate
//! children.
use vstd::prelude::*;
use crate::bytes_be::{be_val, be_bytes, read_u24_be, read_u32_be, push_be, lemma_pow256_vals, lemma_be_val_of_bytes, lemma_be_bytes_len};
use crate::ParseError;

verus! {

/// Bytes of one table record on disc.
pub const ENTRY_SIZE: usize = 12;

/// Fields shared by File and Directory entries. `name` and `full_path` are
/// byte strings (the on-disc format stores raw, null-terminated names); the
/// path separator is `/`.
#[derive(Debug)]
pub struct EntryInfo {
    /// Position of this record in the flat table; 0 is the root.
    pub index: usize,
    /// The entry's own name; the root's is `/`.
    pub name: Vec<u8>,
    /// Byte offset of the name inside the string table (0 for the root).
    pub filename_offset: u64,
    /// Index of the nearest enclosing directory; `None` only for the root.
    pub directory_index: Option<usize>,
    /// Names from the root down to this entry, joined with `/`.
    pub full_path: Vec<u8>,
}

#[derive(Debug)]
pub struct FileEntry {
    pub info: EntryInfo,
    /// Absolute byte offset of the file's content in the disc image.
    pub file_offset: u64,
    /// Content length in bytes.
    pub size: usize,
}

#[derive(Debug)]
pub struct DirectoryEntry {
    pub info: EntryInfo,
    /// On-disc copy of the enclosing directory's index (0 for the root).
    pub parent_index: usize,
    /// First index after this directory's whole subtree.
    pub next_index: usize,
    /// Number of direct File children; informational only.
    pub file_count: usize,
}

#[derive(Debug)]
pub enum Entry {
    File(FileEntry),
    Directory(DirectoryEntry),
}

/// The record's discriminant byte: 0 for a file, 1 for a directory.
pub open spec fn entry_tag(e: &Entry) -> u8 {
    match e {
        Entry::File(_) => 0,
        Entry::Directory(_) => 1,
    }
}

pub open spec fn entry_info(e: &Entry) -> &EntryInfo {
    match e {
        Entry::File(f) => &f.info,
        Entry::Directory(d) => &d.info,
    }
}

/// The record's second field: file content offset, or parent index.
pub open spec fn entry_field2(e: &Entry) -> u64 {
    match e {
        Entry::File(f) => f.file_offset,
        Entry::Directory(d) => d.parent_index as u64,
    }
}

/// The record's third field: file size, or the subtree's exclusive upper
/// index bound.
pub open spec fn entry_field3(e: &Entry) -> u64 {
    match e {
        Entry::File(f) => f.size as u64,
        Entry::Directory(d) => d.next_index as u64,
    }
}

/// The on-disc fields all fit their record widths: a 3-byte name offset and
/// two 4-byte fields.
pub open spec fn entry_fields_fit(e: &Entry) -> bool {
    &&& entry_info(e).filename_offset < 0x1000000
    &&& entry_field2(e) < 0x100000000
    &&& entry_field3(e) < 0x100000000
}

/// The twelve bytes a record occupies on disc: tag, 3-byte big-endian name
/// offset, two 4-byte big-endian fields.
pub open spec fn record_bytes(e: &Entry) -> Seq<u8> {
    seq![entry_tag(e)]
        + be_bytes(entry_info(e).filename_offset as int, 3)
        + be_bytes(entry_field2(e) as int, 4)
        + be_bytes(entry_field3(e) as int, 4)
}

/// Decoding the serialized record recovers every on-disc field.
pub proof fn lemma_record_roundtrip(e: &Entry)
    requires
        entry_fields_fit(e),
    ensures
        record_bytes(e).len() == 12,
        record_bytes(e)[0] == entry_tag(e),
        be_val(record_bytes(e).subrange(1, 4)) == entry_info(e).filename_offset,
        be_val(record_bytes(e).subrange(4, 8)) == entry_field2(e),
        be_val(record_bytes(e).subrange(8, 12)) == entry_field3(e),
{
    lemma_pow256_vals();
    lemma_be_bytes_len(entry_info(e).filename_offset as int, 3);
    lemma_be_bytes_len(entry_field2(e) as int, 4);
    lemma_be_bytes_len(entry_field3(e) as int, 4);
    lemma_be_val_of_bytes(entry_info(e).filename_offset as int, 3);
    lemma_be_val_of_bytes(entry_field2(e) as int, 4);
    lemma_be_val_of_bytes(entry_field3(e) as int, 4);
    let r = record_bytes(e);
    assert(r.subrange(1, 4) =~= be_bytes(entry_info(e).filename_offset as int, 3));
    assert(r.subrange(4, 8) =~= be_bytes(entry_field2(e) as int, 4));
    assert(r.subrange(8, 12) =~= be_bytes(entry_field3(e) as int, 4));
}

impl Entry {
    /// Decode the record whose twelve bytes start at `pos` in `data`.
    /// `name` and `full_path` stay empty; they are resolved later from the
    /// string table. A tag byte other than 0 or 1 is malformed input.
    pub fn new(data: &[u8], pos: usize, index: usize, directory_index: Option<usize>)
        -> (r: Result<Entry, ParseError>)
        requires
            pos + ENTRY_SIZE <= data@.len(),
        ensures
            match r {
                Ok(e) => {
                    &&& data@[pos as int] == entry_tag(&e)
                    &&& (data@[pos as int] == 0 || data@[pos as int] == 1)
                    &&& entry_info(&e).index == index
                    &&& entry_info(&e).directory_index == directory_index
                    &&& entry_info(&e).name@.len() == 0
                    &&& entry_info(&e).full_path@.len() == 0
                    &&& entry_info(&e).filename_offset == be_val(data@.subrange(pos + 1, pos + 4))
                    &&& entry_field2(&e) == be_val(data@.subrange(pos + 4, pos + 8))
                    &&& entry_field3(&e) == be_val(data@.subrange(pos + 8, pos + 12))
                    &&& (e is Directory ==> (e->Directory_0.file_count == 0))
                    &&& entry_fields_fit(&e)
                },
                Err(pe) => {
                    &&& pe == ParseError::BadEntryTag
                    &&& data@[pos as int] != 0
                    &&& data@[pos as int] != 1
                },
            },
    {
        let tag = data[pos];
        let filename_offset: u64 = read_u24_be(data, pos + 1);
        let f2: u64 = read_u32_be(data, pos + 4);
        let f3: u64 = read_u32_be(data, pos + 8);
        let info = EntryInfo {
            index,
            name: Vec::new(),
            filename_offset,
            directory_index,
            full_path: Vec::new(),
        };
        if tag == 0 {
            Ok(Entry::File(FileEntry { info, file_offset: f2, size: f3 as usize }))
        } else if tag == 1 {
            Ok(Entry::Directory(DirectoryEntry {
                info,
                parent_index: f2 as usize,
                next_index: f3 as usize,
                file_count: 0,
            }))
        } else {
            Err(ParseError::BadEntryTag)
        }
    }

    /// Append this record's twelve on-disc bytes to `out`.
    pub fn write(&self, out: &mut Vec<u8>)
        requires
            entry_fields_fit(self),
        ensures
            final(out)@ == old(out)@ + record_bytes(self),
    {
        let tag: u8 = if self.is_dir() { 1 } else { 0 };
        out.push(tag);
        push_be(out, self.info().filename_offset, 3);
        let (f2, f3): (u64, u64) = match self {
            Entry::File(f) => (f.file_offset, f.size as u64),
            Entry::Directory(d) => (d.parent_index as u64, d.next_index as u64),
        };
        push_be(out, f2, 4);
        push_be(out, f3, 4);
        proof {
            assert(out@ =~= old(out)@ + record_bytes(self));
        }
    }

    /// The fields common to both kinds of entry.
    pub fn info(&self) -> (r: &EntryInfo)
        ensures
            r == entry_info(self),
    {
        match self {
            Entry::File(f) => &f.info,
            Entry::Directory(d) => &d.info,
        }
    }

    /// The common fields, for the two resolution passes that fill in names
    /// and paths.
    pub fn info_mut(&mut self) -> (r: &mut EntryInfo)
        ensures
            *r == *entry_info(old(self)),
            match *old(self) {
                Entry::File(f) => *final(self) == (Entry::File(FileEntry {
                    info: *final(r),
                    file_offset: f.file_offset,
                    size: f.size,
                })),
                Entry::Directory(d) => *final(self) == (Entry::Directory(DirectoryEntry {
                    info: *final(r),
                    parent_index: d.parent_index,
                    next_index: d.next_index,
                    file_count: d.file_count,
                })),
            },
    {
        match self {
            Entry::File(f) => &mut f.info,
            Entry::Directory(d) => &mut d.info,
        }
    }

    pub fn as_dir(&self) -> (r: Option<&DirectoryEntry>)
        ensures
            match self {
                Entry::Directory(d) => r == Some(d),
                Entry::File(_) => r is None,
            },
    {
        match self {
            Entry::Directory(d) => Some(d),
            Entry::File(_) => None,
        }
    }

    pub fn as_file(&self) -> (r: Option<&FileEntry>)
        ensures
            match self {
                Entry::File(f) => r == Some(f),
                Entry::Directory(_) => r is None,
            },
    {
        match self {
            Entry::File(f) => Some(f),
            Entry::Directory(_) => None,
        }
    }

    pub fn as_dir_mut(&mut self) -> (r: Option<&mut DirectoryEntry>)
        ensures
            match *old(self) {
                Entry::Directory(d) => r matches Some(dr) && *dr == d
                    && *final(self) == (Entry::Directory(*final(dr))),
                Entry::File(f) => r is None && *final(self) == (Entry::File(f)),
            },
    {
        match self {
            Entry::Directory(d) => Some(d),
            Entry::File(_) => None,
        }
    }

    pub fn as_file_mut(&mut self) -> (r: Option<&mut FileEntry>)
        ensures
            match *old(self) {
                Entry::File(f) => r matches Some(fr) && *fr == f
                    && *final(self) == (Entry::File(*final(fr))),
                Entry::Directory(d) => r is None && *final(self) == (Entry::Directory(d)),
            },
    {
        match self {
            Entry::File(f) => Some(f),
            Entry::Directory(_) => None,
        }
    }

    pub fn is_dir(&self) -> (r: bool)
        ensures
            r == (self is Directory),
    {
        match self {
            Entry::Directory(_) => true,
            Entry::File(_) => false,
        }
    }

    pub fn is_file(&self) -> (r: bool)
        ensures
            r == (self is File),
    {
        match self {
            Entry::File(_) => true,
            Entry::Directory(_) => false,
        }
    }
}

} // verus!
