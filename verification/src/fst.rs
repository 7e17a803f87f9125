//! The file system table: a flat run of fixed-size records followed by a
//! string table of null-terminated names. This module parses a table out of
//! an image buffer, resolves names and full paths, serializes a table back
//! to bytes, and states the structural invariants the format guarantees.
use vstd::prelude::*;
use crate::bytes_be::be_val;
use crate::entry::{
    Entry, EntryInfo, FileEntry, DirectoryEntry, ENTRY_SIZE,
    entry_tag, entry_info, entry_field2, entry_field3, entry_fields_fit, record_bytes,
    lemma_record_roundtrip,
};
use crate::ParseError;

verus! {

/// Path separator used in reconstructed full paths; the root's whole name.
pub const SEPARATOR: u8 = 47;

/// A lookup path with one trailing separator dropped; the bare root path
/// keeps its separator.
pub open spec fn normalize_path(p: Seq<u8>) -> Seq<u8> {
    if p.len() > 1 && p.last() == SEPARATOR {
        p.drop_last()
    } else {
        p
    }
}

/// First index after the subtree of the entry at `i`: a file occupies one
/// slot, a directory's subtree is the half-open range up to `next_index`.
pub open spec fn entry_next(entries: Seq<Entry>, i: int) -> int {
    match entries[i] {
        Entry::Directory(d) => d.next_index as int,
        Entry::File(_) => i + 1,
    }
}

/// Every entry records its own position in the table.
pub open spec fn table_indexed(entries: Seq<Entry>) -> bool {
    forall|i: int| 0 <= i < entries.len() ==> (#[trigger] entry_info(&entries[i]).index) == i
}

/// Every subtree range is non-empty and stays inside the table.
pub open spec fn table_ranges_ok(entries: Seq<Entry>) -> bool {
    forall|i: int| 0 <= i < entries.len()
        ==> i < #[trigger] entry_next(entries, i) <= entries.len()
}

/// Subtree ranges nest: an entry inside a directory's range keeps its own
/// range inside that directory's range.
pub open spec fn table_nested(entries: Seq<Entry>) -> bool {
    forall|i: int, j: int|
        0 <= i < j < entries.len() && j < #[trigger] entry_next(entries, i)
            ==> #[trigger] entry_next(entries, j) <= entry_next(entries, i)
}

/// `p` is the nearest enclosing directory of `j`: a directory whose range
/// contains `j`, with no entry between them whose range also reaches past
/// `j`.
pub open spec fn is_parent(entries: Seq<Entry>, p: int, j: int) -> bool {
    &&& 0 <= p < j
    &&& entries[p] is Directory
    &&& j < entry_next(entries, p)
    &&& forall|k: int| p < k < j ==> #[trigger] entry_next(entries, k) <= j
}

/// Every entry but the root records its nearest enclosing directory.
pub open spec fn table_parents_ok(entries: Seq<Entry>) -> bool {
    &&& entry_info(&entries[0]).directory_index is None
    &&& forall|j: int| 1 <= j < entries.len()
        ==> {
            let di = #[trigger] entry_info(&entries[j]).directory_index;
            di matches Some(p) && is_parent(entries, p as int, j)
        }
}

/// Names contain no null byte (the string table's terminator), and the
/// root's synthetic name is the separator.
pub open spec fn table_names_ok(entries: Seq<Entry>) -> bool {
    &&& entry_info(&entries[0]).name@ == seq![SEPARATOR]
    &&& forall|j: int, k: int|
        0 <= j < entries.len() && 0 <= k < entry_info(&entries[j]).name@.len()
            ==> #[trigger] entry_info(&entries[j]).name@[k] != 0
}

/// The full path of the entry at `j`: names joined with the separator,
/// walking the parent links up to the root (whose path is the separator
/// alone).
pub open spec fn path_of(entries: Seq<Entry>, j: int) -> Seq<u8>
    decreases j,
{
    if j <= 0 {
        seq![SEPARATOR]
    } else {
        match entry_info(&entries[j]).directory_index {
            Some(p) => if 0 <= p < j {
                if p == 0 {
                    seq![SEPARATOR] + entry_info(&entries[j]).name@
                } else {
                    path_of(entries, p as int) + seq![SEPARATOR] + entry_info(&entries[j]).name@
                }
            } else {
                Seq::empty()
            },
            None => Seq::empty(),
        }
    }
}

/// Every entry's `full_path` field holds its reconstructed path.
pub open spec fn table_paths_ok(entries: Seq<Entry>) -> bool {
    forall|j: int| 0 <= j < entries.len()
        ==> (#[trigger] entry_info(&entries[j]).full_path@) == path_of(entries, j)
}

/// Number of direct File children of directory `i` among the first `n`
/// entries.
pub open spec fn count_direct_files(entries: Seq<Entry>, i: int, n: int) -> int
    decreases n,
{
    if n <= 0 {
        0
    } else {
        count_direct_files(entries, i, n - 1) + if entries[n - 1] is File
            && entry_info(&entries[n - 1]).directory_index == Some(i as usize) {
            1int
        } else {
            0int
        }
    }
}

/// Every directory's `file_count` field counts its direct File children.
pub open spec fn table_file_counts_ok(entries: Seq<Entry>) -> bool {
    forall|i: int| 0 <= i < entries.len()
        ==> match #[trigger] entries[i] {
            Entry::Directory(d) => d.file_count == count_direct_files(entries, i, entries.len() as int),
            Entry::File(_) => true,
        }
}

/// Number of File entries among the first `n`.
pub open spec fn spec_total_files(entries: Seq<Entry>, n: int) -> int
    decreases n,
{
    if n <= 0 {
        0
    } else {
        spec_total_files(entries, n - 1) + if entries[n - 1] is File { 1int } else { 0int }
    }
}

/// Sum of the sizes of the File entries among the first `n`.
pub open spec fn spec_total_size(entries: Seq<Entry>, n: int) -> int
    decreases n,
{
    if n <= 0 {
        0
    } else {
        spec_total_size(entries, n - 1) + match entries[n - 1] {
            Entry::File(f) => f.size as int,
            Entry::Directory(_) => 0int,
        }
    }
}

/// How far past the start of the string table the names of the first `n`
/// entries reach (the root reads no name).
pub open spec fn names_extent(entries: Seq<Entry>, n: int) -> int
    decreases n,
{
    if n <= 1 {
        0
    } else {
        let reach = entry_info(&entries[n - 1]).filename_offset as int
            + entry_info(&entries[n - 1]).name@.len() + 1;
        let rest = names_extent(entries, n - 1);
        if reach > rest {
            reach
        } else {
            rest
        }
    }
}

/// The structural invariants of a well-formed table.
pub open spec fn wf_entries(entries: Seq<Entry>) -> bool {
    &&& entries.len() >= 1
    &&& entries[0] is Directory
    &&& entry_next(entries, 0) == entries.len()
    &&& table_indexed(entries)
    &&& table_ranges_ok(entries)
    &&& table_nested(entries)
    &&& table_parents_ok(entries)
    &&& table_names_ok(entries)
    &&& table_paths_ok(entries)
    &&& table_file_counts_ok(entries)
    &&& forall|i: int| 0 <= i < entries.len() ==> entry_fields_fit(&#[trigger] entries[i])
}

/// The name of the entry at `j` stands in `data`'s string table (which
/// starts at `st`) at the entry's `filename_offset`, null-terminated.
pub open spec fn name_at(data: Seq<u8>, st: int, entries: Seq<Entry>, j: int) -> bool {
    let fo = entry_info(&entries[j]).filename_offset as int;
    let nm = entry_info(&entries[j]).name@;
    &&& st + fo + nm.len() + 1 <= data.len()
    &&& data.subrange(st + fo, st + fo + nm.len()) == nm
    &&& data[st + fo + nm.len()] == 0
}

/// The table `entries` is what `data` holds at byte offset `off`: each
/// record's twelve bytes in order, then every non-root name in the string
/// table.
pub open spec fn table_matches(data: Seq<u8>, off: int, entries: Seq<Entry>) -> bool {
    &&& 0 <= off
    &&& off + 12 * entries.len() <= data.len()
    &&& forall|i: int| 0 <= i < entries.len()
        ==> data.subrange(off + 12 * i, off + 12 * i + 12) == record_bytes(&#[trigger] entries[i])
    &&& forall|j: int| 1 <= j < entries.len()
        ==> name_at(data, off + 12 * entries.len(), entries, #[trigger] (j * 1))
}

/// The first `n` records of the table, serialized back to back.
pub open spec fn records_bytes(entries: Seq<Entry>, n: int) -> Seq<u8>
    decreases n,
{
    if n <= 0 {
        Seq::empty()
    } else {
        records_bytes(entries, n - 1) + record_bytes(&entries[n - 1])
    }
}

/// The string table the writer emits: the names of entries `1 .. n` in
/// index order, each followed by the null terminator.
pub open spec fn strtab_bytes(entries: Seq<Entry>, n: int) -> Seq<u8>
    decreases n,
{
    if n <= 1 {
        Seq::empty()
    } else {
        strtab_bytes(entries, n - 1) + entry_info(&entries[n - 1]).name@ + seq![0u8]
    }
}

/// Total length of the string table the writer emits for entries `1 .. n`.
pub open spec fn names_total(entries: Seq<Entry>, n: int) -> int
    decreases n,
{
    if n <= 1 {
        0
    } else {
        names_total(entries, n - 1) + entry_info(&entries[n - 1]).name@.len() + 1
    }
}

/// The whole serialized table: all records, then the string table.
pub open spec fn table_bytes(entries: Seq<Entry>) -> Seq<u8> {
    records_bytes(entries, entries.len() as int) + strtab_bytes(entries, entries.len() as int)
}

/// The canonical name layout the rebuilder produces: entry `j`'s name
/// stands in the string table right after the names of entries `1 .. j`.
pub open spec fn canonical_names(entries: Seq<Entry>) -> bool {
    forall|j: int| 1 <= j < entries.len()
        ==> (#[trigger] entry_info(&entries[j]).filename_offset) as int == names_total(entries, j)
}

pub proof fn lemma_strtab_len(entries: Seq<Entry>, n: int)
    ensures
        strtab_bytes(entries, n).len() == names_total(entries, n),
        names_total(entries, n) >= 0,
    decreases n,
{
    if n > 1 {
        lemma_strtab_len(entries, n - 1);
    }
}

pub proof fn lemma_names_total_mono(entries: Seq<Entry>, m: int, n: int)
    requires
        m <= n,
    ensures
        names_total(entries, m) <= names_total(entries, n),
    decreases n,
{
    if m < n && n > 1 {
        lemma_names_total_mono(entries, m, n - 1);
    }
}

/// In a canonical table the names are tightly packed, so the farthest
/// point any name reaches is exactly the string table's total length.
pub proof fn lemma_canonical_extent(entries: Seq<Entry>, n: int)
    requires
        n <= entries.len(),
        forall|j: int| 1 <= j < n
            ==> (#[trigger] entry_info(&entries[j]).filename_offset) as int
                == names_total(entries, j),
    ensures
        names_extent(entries, n) == names_total(entries, n),
    decreases n,
{
    if n > 1 {
        lemma_canonical_extent(entries, n - 1);
    }
}

pub proof fn lemma_names_total_bounds(entries: Seq<Entry>, n: int, m: int)
    requires
        m <= n,
    ensures
        names_total(entries, m) <= names_total(entries, n),
        names_total(entries, n) >= 0,
        strtab_bytes(entries, m).len() == names_total(entries, m),
{
    lemma_strtab_len(entries, m);
    lemma_strtab_len(entries, n);
    lemma_names_total_mono(entries, m, n);
}

/// Two entries of a table cannot both be the nearest enclosing directory of
/// the same entry.
pub proof fn lemma_parent_unique(entries: Seq<Entry>, p1: int, p2: int, j: int)
    requires
        is_parent(entries, p1, j),
        is_parent(entries, p2, j),
    ensures
        p1 == p2,
{
    if p1 < p2 {
        assert(entry_next(entries, p2) <= j);
    } else if p2 < p1 {
        assert(entry_next(entries, p1) <= j);
    }
}

/// Everything about two entries agrees except possibly a directory's
/// informational `file_count`.
pub open spec fn same_shape(e1: Entry, e2: Entry) -> bool {
    match (e1, e2) {
        (Entry::File(f1), Entry::File(f2)) => f1 == f2,
        (Entry::Directory(d1), Entry::Directory(d2)) => {
            &&& d1.info == d2.info
            &&& d1.parent_index == d2.parent_index
            &&& d1.next_index == d2.next_index
        },
        _ => false,
    }
}

/// `file_count` plays no part in any structural spec: tables that agree up
/// to `file_count` have the same ranges, parents, paths, names and records.
pub proof fn lemma_shape_pointwise(s1: Seq<Entry>, s2: Seq<Entry>, k: int)
    requires
        0 <= k < s1.len(),
        s1.len() == s2.len(),
        same_shape(s1[k], s2[k]),
    ensures
        entry_next(s1, k) == entry_next(s2, k),
        record_bytes(&s1[k]) == record_bytes(&s2[k]),
        entry_info(&s1[k]) == entry_info(&s2[k]),
        entry_fields_fit(&s1[k]) == entry_fields_fit(&s2[k]),
        s1[k] is Directory <==> s2[k] is Directory,
{
}

pub proof fn lemma_shape_path(s1: Seq<Entry>, s2: Seq<Entry>, j: int)
    requires
        s1.len() == s2.len(),
        forall|k: int| 0 <= k < s1.len() ==> same_shape(#[trigger] s1[k], s2[k]),
        0 <= j < s1.len(),
    ensures
        path_of(s1, j) == path_of(s2, j),
    decreases j,
{
    if j > 0 {
        assert(same_shape(s1[j], s2[j]));
        match entry_info(&s1[j]).directory_index {
            Some(p) => {
                if 0 <= p < j && p != 0 {
                    lemma_shape_path(s1, s2, p as int);
                }
            },
            None => {},
        }
    }
}

pub proof fn lemma_shape_counts(s1: Seq<Entry>, s2: Seq<Entry>, i: int, n: int)
    requires
        s1.len() == s2.len(),
        forall|k: int| 0 <= k < s1.len() ==> same_shape(#[trigger] s1[k], s2[k]),
        n <= s1.len(),
    ensures
        count_direct_files(s1, i, n) == count_direct_files(s2, i, n),
        spec_total_files(s1, n) == spec_total_files(s2, n),
        spec_total_size(s1, n) == spec_total_size(s2, n),
        names_extent(s1, n) == names_extent(s2, n),
        names_total(s1, n) == names_total(s2, n),
    decreases n,
{
    if n > 0 {
        assert(same_shape(s1[n - 1], s2[n - 1]));
        lemma_shape_counts(s1, s2, i, n - 1);
    }
}

/// Lengthening a table does not change what any spec says about its
/// existing entries.
pub proof fn lemma_path_of_prefix(s1: Seq<Entry>, s2: Seq<Entry>, j: int)
    requires
        0 <= j < s1.len(),
        j < s2.len(),
        forall|k: int| 0 <= k <= j ==> s1[k] == #[trigger] s2[k],
    ensures
        path_of(s1, j) == path_of(s2, j),
    decreases j,
{
    if j > 0 {
        match entry_info(&s1[j]).directory_index {
            Some(p) => {
                if 0 <= p < j && p != 0 {
                    lemma_path_of_prefix(s1, s2, p as int);
                }
            },
            None => {},
        }
    }
}

pub proof fn lemma_counts_prefix(s1: Seq<Entry>, s2: Seq<Entry>, i: int, n: int)
    requires
        0 <= n <= s1.len(),
        n <= s2.len(),
        forall|k: int| 0 <= k < n ==> s1[k] == #[trigger] s2[k],
    ensures
        count_direct_files(s1, i, n) == count_direct_files(s2, i, n),
        spec_total_files(s1, n) == spec_total_files(s2, n),
        spec_total_size(s1, n) == spec_total_size(s2, n),
        names_extent(s1, n) == names_extent(s2, n),
        names_total(s1, n) == names_total(s2, n),
    decreases n,
{
    if n > 0 {
        lemma_counts_prefix(s1, s2, i, n - 1);
    }
}

/// A byte-for-byte copy of a byte vector.
pub fn clone_bytes(v: &Vec<u8>) -> (r: Vec<u8>)
    ensures
        r@ == v@,
{
    let mut r: Vec<u8> = Vec::new();
    let mut i: usize = 0;
    while i < v.len()
        invariant
            i <= v@.len(),
            r@ == v@.subrange(0, i as int),
        decreases v@.len() - i,
    {
        r.push(v[i]);
        proof {
            assert(r@ =~= v@.subrange(0, i + 1));
        }
        i = i + 1;
    }
    proof {
        assert(r@ =~= v@);
    }
    r
}

/// Read the null-terminated name starting at `start`; the terminator is
/// not part of the name. Fails only when no terminator exists before the
/// end of the buffer.
fn read_name(data: &[u8], start: usize) -> (r: Result<Vec<u8>, ParseError>)
    requires
        start <= data@.len(),
    ensures
        match r {
            Ok(nm) => {
                &&& start + nm@.len() + 1 <= data@.len()
                &&& data@.subrange(start as int, start + nm@.len()) == nm@
                &&& data@[start + nm@.len()] == 0
                &&& forall|k: int| 0 <= k < nm@.len() ==> nm@[k] != 0
            },
            Err(pe) => {
                &&& pe == ParseError::Truncated
                &&& forall|k: int| start <= k < data@.len() ==> data@[k] != 0
            },
        },
{
    let dlen: usize = data.len();
    let mut nm: Vec<u8> = Vec::new();
    let mut k: usize = start;
    while k < dlen
        invariant
            start <= k <= dlen,
            dlen == data@.len(),
            nm@ == data@.subrange(start as int, k as int),
            forall|t: int| start <= t < k ==> data@[t] != 0,
        decreases dlen - k,
    {
        let b = data[k];
        if b == 0 {
            return Ok(nm);
        }
        nm.push(b);
        proof {
            assert(nm@ =~= data@.subrange(start as int, k + 1));
        }
        k = k + 1;
    }
    Err(ParseError::Truncated)
}

/// The nearest enclosing directory of the entry about to stand at index
/// `j`: the closest earlier entry whose subtree range reaches past `j`.
fn find_parent(entries: &Vec<Entry>, j: usize) -> (p: usize)
    requires
        entries@.len() == j,
        j >= 1,
        entries@[0] is Directory,
        entry_next(entries@, 0) > j,
        forall|t: int| 0 <= t < j ==> #[trigger] entry_next(entries@, t) <= usize::MAX,
    ensures
        is_parent(entries@, p as int, j as int),
{
    let mut c: usize = j - 1;
    loop
        invariant
            0 <= c < j,
            entries@.len() == j,
            entries@[0] is Directory,
            entry_next(entries@, 0) > j,
            forall|t: int| 0 <= t < j ==> #[trigger] entry_next(entries@, t) <= usize::MAX,
            forall|k: int| c < k < j ==> #[trigger] entry_next(entries@, k) <= j,
        decreases c,
    {
        let hit = match &entries[c] {
            Entry::Directory(d) => d.next_index > j,
            Entry::File(_) => false,
        };
        if hit {
            return c;
        }
        proof {
            assert(entry_next(entries@, c as int) <= j);
        }
        c = c - 1;
    }
}

/// The same entry with its (previously empty) name and full path filled in
/// from the string table.
fn with_name_and_path(e: Entry, name: Vec<u8>, full_path: Vec<u8>) -> (r: Entry)
    ensures
        same_shape_except_name(e, r),
        entry_info(&r).name == name,
        entry_info(&r).full_path == full_path,
{
    match e {
        Entry::File(f) => Entry::File(FileEntry {
            info: EntryInfo {
                index: f.info.index,
                name,
                filename_offset: f.info.filename_offset,
                directory_index: f.info.directory_index,
                full_path,
            },
            file_offset: f.file_offset,
            size: f.size,
        }),
        Entry::Directory(d) => Entry::Directory(DirectoryEntry {
            info: EntryInfo {
                index: d.info.index,
                name,
                filename_offset: d.info.filename_offset,
                directory_index: d.info.directory_index,
                full_path,
            },
            parent_index: d.parent_index,
            next_index: d.next_index,
            file_count: d.file_count,
        }),
    }
}

/// Two entries that agree on everything except name and full path.
pub open spec fn same_shape_except_name(e1: Entry, e2: Entry) -> bool {
    &&& entry_tag(&e1) == entry_tag(&e2)
    &&& entry_field2(&e1) == entry_field2(&e2)
    &&& entry_field3(&e1) == entry_field3(&e2)
    &&& entry_info(&e1).index == entry_info(&e2).index
    &&& entry_info(&e1).filename_offset == entry_info(&e2).filename_offset
    &&& entry_info(&e1).directory_index == entry_info(&e2).directory_index
    &&& (e1 is Directory <==> e2 is Directory)
    &&& (e1 is Directory ==> e1->Directory_0.file_count == e2->Directory_0.file_count)
}

/// No entry points forward: when every parent link goes to a strictly
/// earlier index, a directory at or past the scanned prefix has no children
/// in it yet.
pub proof fn lemma_count_zero_beyond(s: Seq<Entry>, i: int, n: int)
    requires
        n <= s.len(),
        i >= n - 1,
        i <= usize::MAX,
        forall|k: int| 1 <= k < n
            ==> {
                let di = #[trigger] entry_info(&s[k]).directory_index;
                di matches Some(p) && p < k
            },
        n >= 1 ==> entry_info(&s[0]).directory_index is None,
    ensures
        count_direct_files(s, i, n) == 0,
    decreases n,
{
    if n > 0 {
        lemma_count_zero_beyond(s, i, n - 1);
    }
}

/// No well-formed table stands at byte offset `off` of `data`: the parser
/// returns an error exactly on such buffers.
pub open spec fn no_table_at(data: Seq<u8>, off: int) -> bool {
    forall|e2: Seq<Entry>| !(wf_entries(e2) && #[trigger] table_matches(data, off, e2))
}

/// A buffer too short to hold even a root record holds no table at all.
proof fn lemma_no_table_short(data: Seq<u8>, off: int)
    requires
        data.len() <= usize::MAX,
        off < 0 || off > usize::MAX || off + 12 > data.len(),
    ensures
        no_table_at(data, off),
{
    assert forall|e2: Seq<Entry>|
        !(wf_entries(e2) && #[trigger] table_matches(data, off, e2)) by {
        if wf_entries(e2) && table_matches(data, off, e2) {
            lemma_candidate_root(data, off, e2);
        }
    }
}

/// What any well-formed matching table's root record pins down: the tag
/// byte is 1 and the count field is the table's length.
proof fn lemma_candidate_root(data: Seq<u8>, off: int, e2: Seq<Entry>)
    requires
        wf_entries(e2),
        table_matches(data, off, e2),
    ensures
        off + 12 <= data.len(),
        off + 12 * e2.len() <= data.len(),
        e2.len() >= 1,
        data[off] == 1,
        e2.len() as int == be_val(data.subrange(off + 8, off + 12)),
{
    assert(data.subrange(off + 12 * 0, off + 12 * 0 + 12) == record_bytes(&e2[0]));
    lemma_record_roundtrip(&e2[0]);
    let rec = record_bytes(&e2[0]);
    assert(data[off] == data.subrange(off, off + 12)[0]);
    assert(data.subrange(off + 8, off + 12) =~= rec.subrange(8, 12));
    assert(12 * e2.len() >= 12);
}

/// Two tables that both match the same record bytes decode to the same
/// on-disc fields at that index.
proof fn lemma_candidate_agree(data: Seq<u8>, off: int, e2: Seq<Entry>, s: Seq<Entry>, k: int)
    requires
        wf_entries(e2),
        table_matches(data, off, e2),
        0 <= k < e2.len(),
        0 <= k < s.len(),
        data.subrange(off + 12 * k, off + 12 * k + 12) == record_bytes(&s[k]),
        entry_fields_fit(&s[k]),
    ensures
        (e2[k] is Directory) <==> (s[k] is Directory),
        entry_next(e2, k) == entry_next(s, k),
        entry_info(&e2[k]).filename_offset == entry_info(&s[k]).filename_offset,
        entry_field2(&e2[k]) == entry_field2(&s[k]),
        entry_field3(&e2[k]) == entry_field3(&s[k]),
{
    assert(data.subrange(off + 12 * k, off + 12 * k + 12) == record_bytes(&e2[k]));
    lemma_record_roundtrip(&e2[k]);
    lemma_record_roundtrip(&s[k]);
    assert(record_bytes(&e2[k])[0] == record_bytes(&s[k])[0]);
    assert(record_bytes(&e2[k]).subrange(1, 4) =~= record_bytes(&s[k]).subrange(1, 4));
    assert(record_bytes(&e2[k]).subrange(4, 8) =~= record_bytes(&s[k]).subrange(4, 8));
    assert(record_bytes(&e2[k]).subrange(8, 12) =~= record_bytes(&s[k]).subrange(8, 12));
}

/// What any well-formed matching table's record at `k` must decode to,
/// stated against the raw field values read out of the buffer.
proof fn lemma_candidate_at(
    data: Seq<u8>,
    off: int,
    e2: Seq<Entry>,
    k: int,
    tag: u8,
    fo: u64,
    f2: u64,
    f3: u64,
)
    requires
        wf_entries(e2),
        table_matches(data, off, e2),
        0 <= k < e2.len(),
        data[off + 12 * k] == tag,
        fo == be_val(data.subrange(off + 12 * k + 1, off + 12 * k + 4)),
        f2 == be_val(data.subrange(off + 12 * k + 4, off + 12 * k + 8)),
        f3 == be_val(data.subrange(off + 12 * k + 8, off + 12 * k + 12)),
    ensures
        entry_tag(&e2[k]) == tag,
        entry_info(&e2[k]).filename_offset == fo,
        entry_field2(&e2[k]) == f2,
        entry_field3(&e2[k]) == f3,
        (e2[k] is Directory) <==> tag == 1,
        entry_next(e2, k) == if tag == 1 { f3 as int } else { k + 1 },
{
    assert(data.subrange(off + 12 * k, off + 12 * k + 12) == record_bytes(&e2[k]));
    lemma_record_roundtrip(&e2[k]);
    let rec = record_bytes(&e2[k]);
    assert(data[off + 12 * k] == data.subrange(off + 12 * k, off + 12 * k + 12)[0]);
    assert(data.subrange(off + 12 * k + 1, off + 12 * k + 4) =~= rec.subrange(1, 4));
    assert(data.subrange(off + 12 * k + 4, off + 12 * k + 8) =~= rec.subrange(4, 8));
    assert(data.subrange(off + 12 * k + 8, off + 12 * k + 12) =~= rec.subrange(8, 12));
}

/// Any well-formed matching table has exactly the entry count that the
/// already-parsed root record announced.
proof fn lemma_candidate_len(data: Seq<u8>, off: int, n: int, s: Seq<Entry>, i: int, e2: Seq<Entry>)
    requires
        parse_inv(data, off, n, s, i),
        wf_entries(e2),
        table_matches(data, off, e2),
    ensures
        e2.len() == n,
        off + 12 * n <= data.len(),
{
    lemma_candidate_root(data, off, e2);
    assert(data.subrange(off + 12 * 0, off + 12 * 0 + 12) == record_bytes(&s[0]));
    lemma_record_roundtrip(&s[0]);
    assert(data.subrange(off + 8, off + 12) =~= record_bytes(&s[0]).subrange(8, 12));
}

/// Each record's twelve bytes stand at their slot in the record region.
pub proof fn lemma_records_at(entries: Seq<Entry>, n: int, i: int)
    requires
        0 <= i < n <= entries.len(),
        forall|t: int| 0 <= t < n ==> entry_fields_fit(&#[trigger] entries[t]),
    ensures
        records_bytes(entries, n).len() == 12 * n,
        records_bytes(entries, n).subrange(12 * i, 12 * i + 12) == record_bytes(&entries[i]),
    decreases n,
{
    lemma_record_roundtrip(&entries[n - 1]);
    if n == 1 {
        assert(records_bytes(entries, 0) =~= Seq::<u8>::empty());
        assert(records_bytes(entries, 1) =~= record_bytes(&entries[0]));
        assert(records_bytes(entries, n).subrange(0, 12) =~= record_bytes(&entries[0]));
    } else if i == n - 1 {
        lemma_records_at(entries, n - 1, 0);
        assert(records_bytes(entries, n).subrange(12 * i, 12 * i + 12)
            =~= record_bytes(&entries[i]));
    } else {
        lemma_records_at(entries, n - 1, i);
        assert(records_bytes(entries, n).subrange(12 * i, 12 * i + 12)
            =~= records_bytes(entries, n - 1).subrange(12 * i, 12 * i + 12));
    }
}

/// Each non-root name stands in the emitted string table at the canonical
/// offset, null-terminated.
pub proof fn lemma_strtab_at(entries: Seq<Entry>, n: int, j: int)
    requires
        1 <= j < n <= entries.len(),
    ensures
        strtab_bytes(entries, n).subrange(
            names_total(entries, j),
            names_total(entries, j + 1),
        ) == entry_info(&entries[j]).name@ + seq![0u8],
        names_total(entries, j + 1) == names_total(entries, j)
            + entry_info(&entries[j]).name@.len() + 1,
    decreases n,
{
    lemma_strtab_len(entries, n);
    lemma_strtab_len(entries, n - 1);
    lemma_strtab_len(entries, j);
    lemma_strtab_len(entries, j + 1);
    if j == n - 1 {
        assert(strtab_bytes(entries, n).subrange(
            names_total(entries, j),
            names_total(entries, j + 1),
        ) =~= entry_info(&entries[j]).name@ + seq![0u8]);
    } else {
        lemma_strtab_at(entries, n - 1, j);
        lemma_names_total_mono(entries, j + 1, n - 1);
        assert(strtab_bytes(entries, n).subrange(
            names_total(entries, j),
            names_total(entries, j + 1),
        ) =~= strtab_bytes(entries, n - 1).subrange(
            names_total(entries, j),
            names_total(entries, j + 1),
        ));
    }
}

/// A well-formed table with canonical name offsets matches its own
/// serialization at offset zero. Together with the parser's contract this
/// is the round trip: parsing written bytes succeeds and reproduces the
/// table.
#[verifier::rlimit(60)]
#[verifier::spinoff_prover]
pub proof fn lemma_table_bytes_matches(entries: Seq<Entry>)
    requires
        wf_entries(entries),
        canonical_names(entries),
    ensures
        table_matches(table_bytes(entries), 0, entries),
        !no_table_at(table_bytes(entries), 0),
{
    let n = entries.len() as int;
    let data = table_bytes(entries);
    lemma_records_at(entries, n, 0);
    lemma_strtab_len(entries, n);
    assert forall|i: int| 0 <= i < n
        implies data.subrange(0 + 12 * i, 0 + 12 * i + 12)
            == record_bytes(&#[trigger] entries[i]) by {
        lemma_records_at(entries, n, i);
        assert(data.subrange(12 * i, 12 * i + 12)
            =~= records_bytes(entries, n).subrange(12 * i, 12 * i + 12));
    }
    assert forall|j: int| 1 <= j < n
        implies name_at(data, 0 + 12 * n, entries, #[trigger] (j * 1)) by {
        lemma_strtab_at(entries, n, j);
        lemma_names_total_mono(entries, j + 1, n);
        lemma_strtab_len(entries, j);
        lemma_strtab_len(entries, j + 1);
        let fo = entry_info(&entries[j]).filename_offset as int;
        let nm = entry_info(&entries[j]).name@;
        assert(fo == names_total(entries, j));
        assert(data.subrange(12 * n + fo, 12 * n + fo + nm.len())
            =~= strtab_bytes(entries, n).subrange(fo, fo + nm.len()));
        assert(strtab_bytes(entries, n).subrange(fo, fo + nm.len())
            =~= strtab_bytes(entries, n).subrange(
                names_total(entries, j),
                names_total(entries, j + 1),
            ).subrange(0, nm.len() as int));
        assert((nm + seq![0u8]).subrange(0, nm.len() as int) =~= nm);
        assert(data[12 * n + fo + nm.len()]
            == strtab_bytes(entries, n).subrange(
                names_total(entries, j),
                names_total(entries, j + 1),
            )[nm.len() as int]);
    }
    assert(table_matches(data, 0, entries));
}

/// A table that matches a buffer standing alone also matches that buffer
/// embedded anywhere inside a larger image, shifted by the prefix length:
/// the serialize/parse round trip therefore holds at any byte offset.
pub proof fn lemma_table_matches_embed(
    inner: Seq<u8>,
    entries: Seq<Entry>,
    prefix: Seq<u8>,
    suffix: Seq<u8>,
)
    requires
        table_matches(inner, 0, entries),
    ensures
        table_matches(prefix + inner + suffix, prefix.len() as int, entries),
{
    let data = prefix + inner + suffix;
    let off = prefix.len() as int;
    let n = entries.len() as int;
    assert forall|i: int| 0 <= i < n
        implies data.subrange(off + 12 * i, off + 12 * i + 12)
            == record_bytes(&#[trigger] entries[i]) by {
        assert(inner.subrange(0 + 12 * i, 0 + 12 * i + 12) == record_bytes(&entries[i]));
        assert(data.subrange(off + 12 * i, off + 12 * i + 12)
            =~= inner.subrange(12 * i, 12 * i + 12));
    }
    assert forall|j: int| 1 <= j < n
        implies name_at(data, off + 12 * n, entries, #[trigger] (j * 1)) by {
        assert(name_at(inner, 0 + 12 * n, entries, j * 1));
        let fo = entry_info(&entries[j]).filename_offset as int;
        let nm = entry_info(&entries[j]).name@;
        assert(data.subrange(off + 12 * n + fo, off + 12 * n + fo + nm.len())
            =~= inner.subrange(12 * n + fo, 12 * n + fo + nm.len()));
        assert(data[off + 12 * n + fo + nm.len()] == inner[12 * n + fo + nm.len()]);
    }
}

/// Two entries whose observable content is the same: kind, on-disc fields,
/// resolved name and path, parent link, and child count.
pub open spec fn entries_agree(e1: &Entry, e2: &Entry) -> bool {
    &&& entry_tag(e1) == entry_tag(e2)
    &&& entry_field2(e1) == entry_field2(e2)
    &&& entry_field3(e1) == entry_field3(e2)
    &&& entry_info(e1).index == entry_info(e2).index
    &&& entry_info(e1).filename_offset == entry_info(e2).filename_offset
    &&& entry_info(e1).directory_index == entry_info(e2).directory_index
    &&& entry_info(e1).name@ == entry_info(e2).name@
    &&& entry_info(e1).full_path@ == entry_info(e2).full_path@
    &&& (e1 is Directory ==> e1->Directory_0.file_count == e2->Directory_0.file_count)
}

/// Two tables with the same observable content at every index.
pub open spec fn tables_agree(ea: Seq<Entry>, eb: Seq<Entry>) -> bool {
    &&& ea.len() == eb.len()
    &&& forall|j: int| 0 <= j < ea.len() ==> entries_agree(&#[trigger] ea[j], &eb[j])
}

/// A null-terminated, null-free byte string at a fixed position is unique.
proof fn lemma_name_unique(data: Seq<u8>, start: int, na: Seq<u8>, nb: Seq<u8>)
    requires
        0 <= start,
        start + na.len() + 1 <= data.len(),
        start + nb.len() + 1 <= data.len(),
        data.subrange(start, start + na.len()) == na,
        data.subrange(start, start + nb.len()) == nb,
        data[start + na.len()] == 0,
        data[start + nb.len()] == 0,
        forall|k: int| 0 <= k < na.len() ==> na[k] != 0,
        forall|k: int| 0 <= k < nb.len() ==> nb[k] != 0,
    ensures
        na == nb,
{
    if na.len() < nb.len() {
        assert(nb[na.len() as int] == data[start + na.len()]);
        assert(false);
    } else if nb.len() < na.len() {
        assert(na[nb.len() as int] == data[start + nb.len()]);
        assert(false);
    } else {
        assert(na =~= nb);
    }
}

/// Paths agree pointwise once parents and names agree pointwise.
proof fn lemma_agree_path(ea: Seq<Entry>, eb: Seq<Entry>, j: int)
    requires
        ea.len() == eb.len(),
        0 <= j < ea.len(),
        forall|k: int| 0 <= k < ea.len()
            ==> entry_info(&#[trigger] ea[k]).directory_index
                    == entry_info(&eb[k]).directory_index
                && entry_info(&ea[k]).name@ == entry_info(&eb[k]).name@,
    ensures
        path_of(ea, j) == path_of(eb, j),
    decreases j,
{
    if j > 0 {
        match entry_info(&ea[j]).directory_index {
            Some(p) => {
                if 0 <= p < j && p != 0 {
                    lemma_agree_path(ea, eb, p as int);
                }
            },
            None => {},
        }
    }
}

/// Direct-file counts agree once kinds and parents agree pointwise.
proof fn lemma_agree_counts(ea: Seq<Entry>, eb: Seq<Entry>, i: int, n: int)
    requires
        ea.len() == eb.len(),
        n <= ea.len(),
        forall|k: int| 0 <= k < ea.len()
            ==> entry_info(&#[trigger] ea[k]).directory_index
                    == entry_info(&eb[k]).directory_index
                && ((ea[k] is File) <==> (eb[k] is File)),
    ensures
        count_direct_files(ea, i, n) == count_direct_files(eb, i, n),
    decreases n,
{
    if n > 0 {
        lemma_agree_counts(ea, eb, i, n - 1);
    }
}

/// The format is unambiguous: two well-formed tables that match the same
/// bytes at the same offset have the same observable content everywhere.
/// Parsing is therefore a true inverse of serialization.
pub proof fn lemma_table_unique(data: Seq<u8>, off: int, ea: Seq<Entry>, eb: Seq<Entry>)
    requires
        wf_entries(ea),
        table_matches(data, off, ea),
        wf_entries(eb),
        table_matches(data, off, eb),
    ensures
        tables_agree(ea, eb),
{
    lemma_candidate_root(data, off, ea);
    lemma_candidate_root(data, off, eb);
    let n = ea.len() as int;
    assert(eb.len() == n);
    // on-disc fields agree record by record
    assert forall|k: int| 0 <= k < n
        implies entry_tag(&#[trigger] ea[k]) == entry_tag(&eb[k])
            && entry_field2(&ea[k]) == entry_field2(&eb[k])
            && entry_field3(&ea[k]) == entry_field3(&eb[k])
            && entry_info(&ea[k]).filename_offset == entry_info(&eb[k]).filename_offset
            && ((ea[k] is Directory) <==> (eb[k] is Directory))
            && ((ea[k] is File) <==> (eb[k] is File))
            && entry_next(ea, k) == entry_next(eb, k) by {
        lemma_candidate_agree(data, off, eb, ea, k);
    }
    // names agree: both are the null-terminated string at the same spot
    assert forall|j: int| 1 <= j < n
        implies entry_info(&#[trigger] ea[j]).name@ == entry_info(&eb[j]).name@ by {
        assert(name_at(data, off + 12 * n, ea, j * 1));
        assert(name_at(data, off + 12 * n, eb, j * 1));
        lemma_candidate_agree(data, off, eb, ea, j);
        let st = off + 12 * n;
        let fo = entry_info(&ea[j]).filename_offset as int;
        let na = entry_info(&ea[j]).name@;
        let nb = entry_info(&eb[j]).name@;
        assert forall|k: int| 0 <= k < na.len() implies na[k] != 0 by {
            assert(entry_info(&ea[j]).name@[k] != 0);
        }
        assert forall|k: int| 0 <= k < nb.len() implies nb[k] != 0 by {
            assert(entry_info(&eb[j]).name@[k] != 0);
        }
        lemma_name_unique(data, st + fo, na, nb);
    }
    // parent links agree: the nearest enclosing directory is unique
    assert forall|j: int| 0 <= j < n
        implies entry_info(&#[trigger] ea[j]).directory_index
            == entry_info(&eb[j]).directory_index by {
        if j > 0 {
            let da = entry_info(&ea[j]).directory_index;
            let db = entry_info(&eb[j]).directory_index;
            assert(da matches Some(pa) && is_parent(ea, pa as int, j));
            assert(db matches Some(pb) && is_parent(eb, pb as int, j));
            match (da, db) {
                (Some(pa), Some(pb)) => {
                    assert forall|k: int| pb < k < j
                        implies #[trigger] entry_next(ea, k) <= j by {
                        assert(entry_next(eb, k) <= j);
                    }
                    assert(is_parent(ea, pb as int, j));
                    lemma_parent_unique(ea, pa as int, pb as int, j);
                },
                _ => {},
            }
        }
    }
    // hence paths and child counts agree
    assert forall|k: int| 0 <= k < ea.len()
        implies entry_info(&#[trigger] ea[k]).directory_index
                == entry_info(&eb[k]).directory_index
            && entry_info(&ea[k]).name@ == entry_info(&eb[k]).name@
            && ((ea[k] is File) <==> (eb[k] is File)) by {
        lemma_candidate_agree(data, off, eb, ea, k);
        if k > 0 {
            assert(entry_info(&ea[k]).name@ == entry_info(&eb[k]).name@);
        }
    }
    assert forall|j: int| 0 <= j < n
        implies entry_info(&#[trigger] ea[j]).full_path@
            == entry_info(&eb[j]).full_path@ by {
        lemma_agree_path(ea, eb, j);
    }
    assert forall|j: int| 0 <= j < n
        implies entries_agree(&#[trigger] ea[j], &eb[j]) by {
        lemma_candidate_agree(data, off, eb, ea, j);
        lemma_agree_path(ea, eb, j);
        if ea[j] is Directory {
            lemma_agree_counts(ea, eb, j, n);
        }
    }
}

/// Filling in the directories' `file_count` fields turns a fully parsed
/// table into a well-formed one that still matches its bytes.
proof fn lemma_fixup_transfer(data: Seq<u8>, off: int, n: int, s1: Seq<Entry>, s2: Seq<Entry>)
    requires
        parse_inv(data, off, n, s1, n),
        off + 12 * n <= data.len(),
        off >= 0,
        s2.len() == n,
        forall|t: int| 0 <= t < n ==> same_shape(#[trigger] s1[t], s2[t]),
        forall|t: int| 0 <= t < n
            ==> match #[trigger] s2[t] {
                Entry::Directory(d) => d.file_count == count_direct_files(s1, t, n),
                Entry::File(_) => true,
            },
    ensures
        wf_entries(s2),
        table_matches(data, off, s2),
{
    lemma_shape_pointwise(s1, s2, 0);
    assert forall|i2: int| 0 <= i2 < n
        implies (#[trigger] entry_info(&s2[i2]).index) == i2 by {
        lemma_shape_pointwise(s1, s2, i2);
        assert(entry_info(&s1[i2]).index == i2);
    }
    assert(table_indexed(s2));
    assert forall|i2: int| 0 <= i2 < n
        implies i2 < #[trigger] entry_next(s2, i2) <= n by {
        lemma_shape_pointwise(s1, s2, i2);
        assert(i2 < entry_next(s1, i2) <= n);
    }
    assert(table_ranges_ok(s2));
    assert forall|i2: int, j2: int|
        0 <= i2 < j2 < n && j2 < #[trigger] entry_next(s2, i2)
        implies #[trigger] entry_next(s2, j2) <= entry_next(s2, i2) by {
        lemma_shape_pointwise(s1, s2, i2);
        lemma_shape_pointwise(s1, s2, j2);
        assert(entry_next(s1, j2) <= entry_next(s1, i2));
    }
    assert(table_nested(s2));
    assert forall|j: int| 1 <= j < n
        implies {
            let di = #[trigger] entry_info(&s2[j]).directory_index;
            di matches Some(p) && is_parent(s2, p as int, j)
        } by {
        lemma_shape_pointwise(s1, s2, j);
        let di = entry_info(&s1[j]).directory_index;
        assert(di matches Some(p) && is_parent(s1, p as int, j));
        match di {
            Some(p) => {
                lemma_shape_pointwise(s1, s2, p as int);
                assert forall|k: int| p < k < j
                    implies #[trigger] entry_next(s2, k) <= j by {
                    lemma_shape_pointwise(s1, s2, k);
                }
            },
            None => {},
        }
    }
    assert(table_parents_ok(s2));
    assert forall|j: int, k: int|
        0 <= j < n && 0 <= k < entry_info(&s2[j]).name@.len()
        implies #[trigger] entry_info(&s2[j]).name@[k] != 0 by {
        lemma_shape_pointwise(s1, s2, j);
        assert(entry_info(&s1[j]).name@[k] != 0);
    }
    assert(table_names_ok(s2));
    assert forall|j: int| 0 <= j < n
        implies (#[trigger] entry_info(&s2[j]).full_path@) == path_of(s2, j) by {
        lemma_shape_pointwise(s1, s2, j);
        lemma_shape_path(s1, s2, j);
    }
    assert(table_paths_ok(s2));
    assert forall|i2: int| 0 <= i2 < n
        implies match #[trigger] s2[i2] {
            Entry::Directory(d) => d.file_count == count_direct_files(s2, i2, n),
            Entry::File(_) => true,
        } by {
        lemma_shape_counts(s1, s2, i2, n);
    }
    assert(table_file_counts_ok(s2));
    assert forall|i2: int| 0 <= i2 < n implies entry_fields_fit(&#[trigger] s2[i2]) by {
        lemma_shape_pointwise(s1, s2, i2);
        assert(entry_fields_fit(&s1[i2]));
    }
    assert forall|i2: int| 0 <= i2 < n
        implies data.subrange(off + 12 * i2, off + 12 * i2 + 12)
            == record_bytes(&#[trigger] s2[i2]) by {
        lemma_shape_pointwise(s1, s2, i2);
        assert(data.subrange(off + 12 * i2, off + 12 * i2 + 12) == record_bytes(&s1[i2]));
    }
    assert forall|j: int| 1 <= j < n
        implies name_at(data, off + 12 * n, s2, #[trigger] (j * 1)) by {
        lemma_shape_pointwise(s1, s2, j);
        assert(name_at(data, off + 12 * n, s1, j * 1));
    }
}

/// The indices of a directory's direct children: starting at `c`, each
/// child is followed by its whole subtree, so the cursor jumps to
/// `entry_next` until it reaches `end`.
pub open spec fn child_walk(entries: Seq<Entry>, c: int, end: int) -> Seq<int>
    decreases end - c,
{
    if 0 <= c < end && c < entry_next(entries, c) && entry_next(entries, c) <= end {
        seq![c] + child_walk(entries, entry_next(entries, c), end)
    } else {
        Seq::empty()
    }
}

/// Sum of the subtree sizes of the listed entries.
pub open spec fn subtree_sizes_sum(entries: Seq<Entry>, cs: Seq<int>) -> int
    decreases cs.len(),
{
    if cs.len() == 0 {
        0
    } else {
        (entry_next(entries, cs[0]) - cs[0]) + subtree_sizes_sum(entries, cs.drop_first())
    }
}

/// The child walk from `c` to `end` visits consecutive, non-overlapping
/// subtree ranges that tile `[c, end)` exactly.
pub proof fn lemma_child_walk(entries: Seq<Entry>, c: int, end: int)
    requires
        table_ranges_ok(entries),
        0 <= c <= end <= entries.len(),
        forall|k: int| c <= k < end ==> #[trigger] entry_next(entries, k) <= end,
    ensures
        ({
            let cs = child_walk(entries, c, end);
            &&& (cs.len() == 0 <==> c == end)
            &&& (c < end ==> cs[0] == c)
            &&& forall|t: int| 0 <= t < cs.len() ==> c <= #[trigger] cs[t] < end
            &&& forall|t: int| 0 <= t < cs.len() - 1
                ==> entry_next(entries, #[trigger] cs[t]) == cs[t + 1]
            &&& (cs.len() > 0 ==> entry_next(entries, cs[cs.len() - 1]) == end)
            &&& subtree_sizes_sum(entries, cs) == end - c
        }),
    decreases end - c,
{
    let cs = child_walk(entries, c, end);
    if c < end {
        let nx = entry_next(entries, c);
        assert(c < nx <= end);
        lemma_child_walk(entries, nx, end);
        let rest = child_walk(entries, nx, end);
        assert(cs == seq![c] + rest);
        assert(cs.drop_first() =~= rest);
        assert(subtree_sizes_sum(entries, cs) == (nx - c) + subtree_sizes_sum(entries, rest));
    }
}

/// The subtree range of a directory partitions exactly into its direct
/// children and their full subtrees: the children's ranges are adjacent,
/// inside the directory's range, and their sizes sum to the whole range —
/// no gaps and no overlaps.
pub proof fn lemma_subtree_partition(entries: Seq<Entry>, i: int)
    requires
        wf_entries(entries),
        0 <= i < entries.len(),
        entries[i] is Directory,
    ensures
        ({
            let end = entry_next(entries, i);
            let cs = child_walk(entries, i + 1, end);
            &&& (cs.len() == 0 <==> end == i + 1)
            &&& (i + 1 < end ==> cs[0] == i + 1)
            &&& forall|t: int| 0 <= t < cs.len() ==> i + 1 <= #[trigger] cs[t] < end
            &&& forall|t: int| 0 <= t < cs.len() - 1
                ==> entry_next(entries, #[trigger] cs[t]) == cs[t + 1]
            &&& (cs.len() > 0 ==> entry_next(entries, cs[cs.len() - 1]) == end)
            &&& subtree_sizes_sum(entries, cs) == end - (i + 1)
        }),
{
    let end = entry_next(entries, i);
    assert forall|k: int| i + 1 <= k < end implies #[trigger] entry_next(entries, k) <= end by {
        assert(entry_next(entries, k) <= entry_next(entries, i));
    }
    lemma_child_walk(entries, i + 1, end);
}

/// A fresh cursor over a directory's immediate children. Each call to
/// `iter_contents` restarts from the first child; `next` hands back the
/// child's index and skips its whole subtree.
pub struct DirectoryIter {
    /// Index of the next child to yield.
    pub current_index: usize,
    /// Exclusive upper bound: the owning directory's `next_index`.
    pub next_index: usize,
}

impl DirectoryIter {
    /// A cursor positioned at the directory's first child.
    pub fn new(dir: &DirectoryEntry) -> (it: DirectoryIter)
        requires
            dir.info.index < usize::MAX,
        ensures
            it.current_index == dir.info.index + 1,
            it.next_index == dir.next_index,
    {
        DirectoryIter { current_index: dir.info.index + 1, next_index: dir.next_index }
    }

    /// The next immediate child's index, advancing past its subtree; `None`
    /// once the directory's range is exhausted.
    pub fn next(&mut self, entries: &Vec<Entry>) -> (r: Option<usize>)
        requires
            old(self).next_index <= entries@.len(),
        ensures
            final(self).next_index == old(self).next_index,
            match r {
                Some(c) => {
                    &&& old(self).current_index < old(self).next_index
                    &&& c == old(self).current_index
                    &&& final(self).current_index == entry_next(entries@, c as int)
                },
                None => {
                    &&& old(self).current_index >= old(self).next_index
                    &&& final(self).current_index == old(self).current_index
                },
            },
    {
        if self.current_index < self.next_index {
            let c = self.current_index;
            let step_to: usize = match &entries[c] {
                Entry::Directory(d) => d.next_index,
                Entry::File(_) => c + 1,
            };
            self.current_index = step_to;
            Some(c)
        } else {
            None
        }
    }
}

impl DirectoryEntry {
    /// A fresh cursor over this directory's immediate children.
    pub fn iter_contents(&self) -> (it: DirectoryIter)
        requires
            self.info.index < usize::MAX,
        ensures
            it.current_index == self.info.index + 1,
            it.next_index == self.next_index,
    {
        DirectoryIter::new(self)
    }
}

/// Whether two byte strings hold the same bytes.
pub fn bytes_eq(a: &[u8], b: &[u8]) -> (r: bool)
    ensures
        r <==> a@ == b@,
{
    if a.len() != b.len() {
        proof {
            assert(a@.len() != b@.len());
        }
        return false;
    }
    let mut i: usize = 0;
    while i < a.len()
        invariant
            i <= a@.len(),
            a@.len() == b@.len(),
            forall|t: int| 0 <= t < i ==> a@[t] == b@[t],
        decreases a@.len() - i,
    {
        if a[i] != b[i] {
            return false;
        }
        i = i + 1;
    }
    proof {
        assert(a@ =~= b@);
    }
    true
}

/// One step of materializing a table on a real file system: create the
/// directory, or copy `size` bytes of image content from `file_offset`
/// into a new file.
pub struct ExtractItem {
    pub is_dir: bool,
    /// Full path of the entry, separator-joined.
    pub path: Vec<u8>,
    pub file_offset: u64,
    pub size: usize,
}

/// The in-memory table, as parsed out of an image or produced by the
/// rebuilder.
#[derive(Debug)]
pub struct FST {
    /// Absolute byte offset of the table inside the image it came from.
    pub offset: u64,
    /// Number of File entries (directories not counted).
    pub file_count: usize,
    /// Sum of all File sizes in bytes.
    pub total_file_system_size: u64,
    /// The flat table; entry 0 is the root directory.
    pub entries: Vec<Entry>,
    /// On-disc byte size of the table, records and string table together.
    pub size: usize,
}

/// What the parser has established about the first `i` entries while the
/// table is still being read: records decoded and matched against `data`,
/// ranges inside bounds, ranges nested, parents resolved to the nearest
/// enclosing directory, names read from the string table, paths joined —
/// with every directory's `file_count` still pending at zero.
pub open spec fn parse_inv(data: Seq<u8>, off: int, n: int, entries: Seq<Entry>, i: int) -> bool {
    &&& entries.len() == i
    &&& 1 <= i <= n
    &&& entries[0] is Directory
    &&& entry_next(entries, 0) == n
    &&& entry_info(&entries[0]).directory_index is None
    &&& entry_info(&entries[0]).name@ == seq![SEPARATOR]
    &&& entry_info(&entries[0]).full_path@ == seq![SEPARATOR]
    &&& forall|t: int| 0 <= t < i
        ==> data.subrange(off + 12 * t, off + 12 * t + 12) == record_bytes(&#[trigger] entries[t])
    &&& forall|t: int| 0 <= t < i ==> (#[trigger] entry_info(&entries[t]).index) == t
    &&& forall|t: int| 0 <= t < i ==> entry_fields_fit(&#[trigger] entries[t])
    &&& forall|t: int| 0 <= t < i ==> t < #[trigger] entry_next(entries, t) <= n
    &&& forall|t1: int, t2: int|
        0 <= t1 < t2 < i && t2 < #[trigger] entry_next(entries, t1)
            ==> #[trigger] entry_next(entries, t2) <= entry_next(entries, t1)
    &&& forall|t: int| 1 <= t < i
        ==> {
            let di = #[trigger] entry_info(&entries[t]).directory_index;
            di matches Some(p) && is_parent(entries, p as int, t)
        }
    &&& forall|t: int| 1 <= t < i ==> name_at(data, off + 12 * n, entries, #[trigger] (t * 1))
    &&& forall|t: int, k: int|
        0 <= t < i && 0 <= k < entry_info(&entries[t]).name@.len()
            ==> #[trigger] entry_info(&entries[t]).name@[k] != 0
    &&& forall|t: int| 0 <= t < i
        ==> (#[trigger] entry_info(&entries[t]).full_path@) == path_of(entries, t)
    &&& forall|t: int| 0 <= t < i
        ==> match #[trigger] entries[t] {
            Entry::Directory(d) => d.file_count == 0,
            Entry::File(_) => true,
        }
}

/// A record whose fields decode from `data` serializes back to exactly the
/// bytes it was decoded from.
pub proof fn lemma_record_from_fields(data: Seq<u8>, pos: int, e: &Entry)
    requires
        0 <= pos,
        pos + 12 <= data.len(),
        data[pos] == entry_tag(e),
        entry_info(e).filename_offset == be_val(data.subrange(pos + 1, pos + 4)),
        entry_field2(e) == be_val(data.subrange(pos + 4, pos + 8)),
        entry_field3(e) == be_val(data.subrange(pos + 8, pos + 12)),
    ensures
        data.subrange(pos, pos + 12) == record_bytes(e),
{
    crate::bytes_be::lemma_be_bytes_of_val(data.subrange(pos + 1, pos + 4));
    crate::bytes_be::lemma_be_bytes_of_val(data.subrange(pos + 4, pos + 8));
    crate::bytes_be::lemma_be_bytes_of_val(data.subrange(pos + 8, pos + 12));
    assert(record_bytes(e) =~= data.subrange(pos, pos + 12));
}

/// Concatenate a parent path, the separator, and a name.
pub fn join_path(base: &Vec<u8>, name: &Vec<u8>) -> (r: Vec<u8>)
    ensures
        r@ == base@ + seq![SEPARATOR] + name@,
{
    let mut r = clone_bytes(base);
    r.push(SEPARATOR);
    let mut q: usize = 0;
    while q < name.len()
        invariant
            q <= name@.len(),
            r@ == base@ + seq![SEPARATOR] + name@.subrange(0, q as int),
        decreases name@.len() - q,
    {
        r.push(name[q]);
        proof {
            assert(r@ =~= base@ + seq![SEPARATOR] + name@.subrange(0, q + 1));
        }
        q = q + 1;
    }
    proof {
        assert(r@ =~= base@ + seq![SEPARATOR] + name@);
    }
    r
}

impl FST {
    /// The table's structural invariants, plus the derived counters.
    pub open spec fn wf(self) -> bool {
        &&& wf_entries(self.entries@)
        &&& self.file_count == spec_total_files(self.entries@, self.entries@.len() as int)
        &&& self.total_file_system_size == spec_total_size(self.entries@, self.entries@.len() as int)
        &&& self.size == 12 * self.entries@.len() + names_extent(self.entries@, self.entries@.len() as int)
    }

    /// Parse the table standing at byte offset `offset` of `data`: the root
    /// record fixes the entry count, the records follow, then the string
    /// table. On success the result satisfies every structural invariant of
    /// the format and matches the buffer byte for byte.
    #[verifier::rlimit(60)]
    pub fn new(data: &[u8], offset: u64) -> (r: Result<FST, ParseError>)
        ensures
            match r {
                Ok(fst) => {
                    &&& fst.wf()
                    &&& table_matches(data@, offset as int, fst.entries@)
                    &&& fst.offset == offset
                },
                Err(_) => no_table_at(data@, offset as int),
            },
    {
        let dlen: usize = data.len();
        let ghost offv = offset as int;
        if offset > usize::MAX as u64 {
            proof {
                lemma_no_table_short(data@, offv);
            }
            return Err(ParseError::Truncated);
        }
        let off: usize = offset as usize;
        if dlen < ENTRY_SIZE || off > dlen - ENTRY_SIZE {
            proof {
                lemma_no_table_short(data@, offv);
            }
            return Err(ParseError::Truncated);
        }
        let root0 = match Entry::new(data, off, 0, None) {
            Ok(e) => e,
            Err(pe) => {
                proof {
                    assert forall|e2: Seq<Entry>|
                        !(wf_entries(e2) && #[trigger] table_matches(data@, offv, e2)) by {
                        if wf_entries(e2) && table_matches(data@, offv, e2) {
                            lemma_candidate_root(data@, offv, e2);
                        }
                    }
                }
                return Err(pe);
            },
        };
        let n: usize = match &root0 {
            Entry::Directory(d) => d.next_index,
            Entry::File(_) => {
                proof {
                    assert forall|e2: Seq<Entry>|
                        !(wf_entries(e2) && #[trigger] table_matches(data@, offv, e2)) by {
                        if wf_entries(e2) && table_matches(data@, offv, e2) {
                            lemma_candidate_root(data@, offv, e2);
                        }
                    }
                }
                return Err(ParseError::RootNotDirectory);
            },
        };
        if n == 0 {
            proof {
                assert forall|e2: Seq<Entry>|
                    !(wf_entries(e2) && #[trigger] table_matches(data@, offv, e2)) by {
                    if wf_entries(e2) && table_matches(data@, offv, e2) {
                        lemma_candidate_root(data@, offv, e2);
                    }
                }
            }
            return Err(ParseError::BadStructure);
        }
        if n > (dlen - off) / ENTRY_SIZE {
            proof {
                vstd::arithmetic::div_mod::lemma_fundamental_div_mod((dlen - off) as int, 12);
                vstd::arithmetic::div_mod::lemma_mod_bound((dlen - off) as int, 12);
                assert forall|e2: Seq<Entry>|
                    !(wf_entries(e2) && #[trigger] table_matches(data@, offv, e2)) by {
                    if wf_entries(e2) && table_matches(data@, offv, e2) {
                        lemma_candidate_root(data@, offv, e2);
                        assert(e2.len() == n);
                        assert(12 * n <= dlen - off);
                    }
                }
            }
            return Err(ParseError::Truncated);
        }
        proof {
            vstd::arithmetic::div_mod::lemma_fundamental_div_mod((dlen - off) as int, 12);
            assert(12 * n <= 12 * (((dlen - off) as int) / 12)) by (nonlinear_arith)
                requires
                    n as int <= ((dlen - off) as int) / (ENTRY_SIZE as int),
                    ENTRY_SIZE == 12,
                    off <= dlen,
            ;
        }
        let st: usize = off + ENTRY_SIZE * n;

        let mut rootname: Vec<u8> = Vec::new();
        rootname.push(SEPARATOR);
        let mut rootpath: Vec<u8> = Vec::new();
        rootpath.push(SEPARATOR);
        let root = with_name_and_path(root0, rootname, rootpath);

        let mut entries: Vec<Entry> = Vec::new();
        entries.push(root);
        let mut counts: Vec<usize> = Vec::new();
        counts.push(0);
        let mut file_cnt: usize = 0;
        let mut total_sz: u64 = 0;
        let mut extent: usize = 0;

        proof {
            assert(rootname@ =~= seq![SEPARATOR]);
            assert(rootpath@ =~= seq![SEPARATOR]);
            lemma_record_from_fields(data@, off as int, &entries@[0]);
            assert(parse_inv(data@, off as int, n as int, entries@, 1));
            assert(count_direct_files(entries@, 0, 0) == 0);
            assert(count_direct_files(entries@, 0, 1) == 0);
            assert(spec_total_files(entries@, 0) == 0);
            assert(spec_total_files(entries@, 1) == 0);
            assert(spec_total_size(entries@, 0) == 0);
            assert(spec_total_size(entries@, 1) == 0);
            assert(names_extent(entries@, 1) == 0);
        }

        let mut i: usize = 1;
        while i < n
            invariant
                parse_inv(data@, off as int, n as int, entries@, i as int),
                offv == off as int,
                offv == offset as int,
                1 <= i <= n,
                n < 0x100000000,
                dlen == data@.len(),
                off + 12 * n <= dlen,
                st == off + 12 * n,
                counts@.len() == i,
                forall|t: int| 0 <= t < i
                    ==> #[trigger] counts@[t] == count_direct_files(entries@, t, i as int),
                forall|t: int| 0 <= t < i ==> #[trigger] counts@[t] <= i,
                file_cnt as int == spec_total_files(entries@, i as int),
                file_cnt <= i,
                total_sz as int == spec_total_size(entries@, i as int),
                total_sz as int <= (i as int) * 0xFFFFFFFF,
                extent as int == names_extent(entries@, i as int),
                extent <= dlen - st,
            decreases n - i,
        {
            let pos: usize = off + ENTRY_SIZE * i;
            let p: usize = find_parent(&entries, i);
            let e0 = match Entry::new(data, pos, i, Some(p)) {
                Ok(e) => e,
                Err(pe) => {
                    proof {
                        assert forall|e2: Seq<Entry>|
                            !(wf_entries(e2) && #[trigger] table_matches(data@, offv, e2)) by {
                            if wf_entries(e2) && table_matches(data@, offv, e2) {
                                lemma_candidate_len(data@, offv, n as int, entries@, i as int, e2);
                                let iv = i as int;
                                assert(data@.subrange(offv + 12 * iv, offv + 12 * iv + 12)
                                    == record_bytes(&e2[iv]));
                                lemma_record_roundtrip(&e2[iv]);
                                assert(data@[offv + 12 * iv]
                                    == data@.subrange(offv + 12 * iv, offv + 12 * iv + 12)[0]);
                            }
                        }
                    }
                    return Err(pe);
                },
            };
            let pnext: usize = match &entries[p] {
                Entry::Directory(d) => d.next_index,
                Entry::File(_) => vstd::pervasive::unreached(),
            };
            match &e0 {
                Entry::Directory(d) => {
                    if d.next_index <= i || d.next_index > n {
                        proof {
                            assert forall|e2: Seq<Entry>|
                                !(wf_entries(e2) && #[trigger] table_matches(data@, offv, e2)) by {
                                if wf_entries(e2) && table_matches(data@, offv, e2) {
                                    lemma_candidate_len(data@, offv, n as int, entries@, i as int, e2);
                                    lemma_candidate_at(data@, offv, e2, i as int, 1,
                                        entry_info(&e0).filename_offset,
                                        entry_field2(&e0), entry_field3(&e0));
                                }
                            }
                        }
                        return Err(ParseError::BadStructure);
                    }
                    if d.next_index > pnext {
                        proof {
                            assert forall|e2: Seq<Entry>|
                                !(wf_entries(e2) && #[trigger] table_matches(data@, offv, e2)) by {
                                if wf_entries(e2) && table_matches(data@, offv, e2) {
                                    lemma_candidate_len(data@, offv, n as int, entries@, i as int, e2);
                                    lemma_candidate_at(data@, offv, e2, i as int, 1,
                                        entry_info(&e0).filename_offset,
                                        entry_field2(&e0), entry_field3(&e0));
                                    lemma_candidate_agree(data@, offv, e2, entries@, p as int);
                                    // the new range must nest inside its parent's
                                    assert(entry_next(e2, p as int) == pnext);
                                    assert(entry_next(e2, i as int) <= pnext);
                                }
                            }
                        }
                        return Err(ParseError::BadStructure);
                    }
                },
                Entry::File(_) => {},
            }

            let fo: u64 = e0.info().filename_offset;
            if fo > ((dlen - st) as u64) {
                proof {
                    assert forall|e2: Seq<Entry>|
                        !(wf_entries(e2) && #[trigger] table_matches(data@, offv, e2)) by {
                        if wf_entries(e2) && table_matches(data@, offv, e2) {
                            lemma_candidate_len(data@, offv, n as int, entries@, i as int, e2);
                            lemma_candidate_at(data@, offv, e2, i as int, entry_tag(&e0), fo,
                                entry_field2(&e0), entry_field3(&e0));
                            assert(name_at(data@, offv + 12 * (n as int), e2,
                                (i as int) * 1));
                        }
                    }
                }
                return Err(ParseError::Truncated);
            }
            let nm = match read_name(data, st + (fo as usize)) {
                Ok(v) => v,
                Err(pe) => {
                    proof {
                        assert forall|e2: Seq<Entry>|
                            !(wf_entries(e2) && #[trigger] table_matches(data@, offv, e2)) by {
                            if wf_entries(e2) && table_matches(data@, offv, e2) {
                                lemma_candidate_len(data@, offv, n as int, entries@, i as int, e2);
                                lemma_candidate_at(data@, offv, e2, i as int, entry_tag(&e0), fo,
                                    entry_field2(&e0), entry_field3(&e0));
                                assert(name_at(data@, offv + 12 * (n as int), e2,
                                    (i as int) * 1));
                                let nm2 = entry_info(&e2[i as int]).name@;
                                assert(data@[offv + 12 * (n as int) + fo + nm2.len()] == 0);
                            }
                        }
                    }
                    return Err(pe);
                },
            };

            let reach: usize = (fo as usize) + nm.len() + 1;
            let newextent: usize = if reach > extent { reach } else { extent };

            let path: Vec<u8> = if p == 0 {
                let empty: Vec<u8> = Vec::new();
                join_path(&empty, &nm)
            } else {
                join_path(&entries[p].info().full_path, &nm)
            };

            let ghost nmv = nm@;
            let e = with_name_and_path(e0, nm, path);
            let is_file_e = e.is_file();
            let fsize: usize = match &e {
                Entry::File(f) => f.size,
                Entry::Directory(_) => 0,
            };

            let ghost pre = entries@;
            entries.push(e);
            counts.push(0);
            proof {
                let post = entries@;
                let iv = i as int;
                assert(forall|t: int| 0 <= t < iv ==> post[t] == #[trigger] pre[t]);
                assert forall|t: int| 0 <= t < iv
                    implies #[trigger] entry_next(post, t) == entry_next(pre, t) by {
                    assert(post[t] == pre[t]);
                }
                assert forall|t: int| 0 <= t < iv
                    implies #[trigger] entry_info(&post[t]) == entry_info(&pre[t]) by {
                    assert(post[t] == pre[t]);
                }
                // the new record serializes back to its bytes
                lemma_record_from_fields(data@, pos as int, &post[iv]);
                // spec values of the existing prefix are unchanged
                assert forall|t: int| 0 <= t < iv implies #[trigger] path_of(post, t) == path_of(pre, t) by {
                    lemma_path_of_prefix(pre, post, t);
                }
                lemma_counts_prefix(pre, post, 0, iv);
                // ranges still nest with the new entry inside its parent
                assert forall|t1: int| 0 <= t1 < iv && iv < entry_next(post, t1)
                    implies #[trigger] entry_next(post, t1) >= entry_next(post, iv) by {
                    if t1 > p {
                        assert(entry_next(pre, t1) <= iv);
                    } else if t1 < p {
                        assert(entry_next(pre, p as int) <= entry_next(pre, t1));
                    }
                }
                // the new entry's path joins its parent's path
                if p > 0 {
                    lemma_path_of_prefix(pre, post, p as int);
                    assert(path_of(post, iv) == entry_info(&post[iv]).full_path@);
                } else {
                    assert(path_of(post, iv) =~= entry_info(&post[iv]).full_path@);
                }
                assert forall|t: int| 0 <= t < iv + 1
                    implies t < #[trigger] entry_next(post, t) <= n as int by {
                    if t < iv {
                        assert(t < entry_next(pre, t) <= n as int);
                    }
                }
                assert forall|t1: int, t2: int|
                    0 <= t1 < t2 < iv + 1 && t2 < #[trigger] entry_next(post, t1)
                    implies #[trigger] entry_next(post, t2) <= entry_next(post, t1) by {
                    if t2 < iv {
                        assert(entry_next(pre, t2) <= entry_next(pre, t1));
                    }
                }
                assert forall|t: int| 1 <= t < iv + 1
                    implies {
                        let di = #[trigger] entry_info(&post[t]).directory_index;
                        di matches Some(q) && is_parent(post, q as int, t)
                    } by {
                    if t < iv {
                        let di = entry_info(&pre[t]).directory_index;
                        assert(di matches Some(q) && is_parent(pre, q as int, t));
                        match di {
                            Some(q) => {
                                assert forall|k: int| q < k < t
                                    implies #[trigger] entry_next(post, k) <= t by {
                                    assert(entry_next(pre, k) <= t);
                                }
                                assert(is_parent(post, q as int, t));
                            },
                            None => {},
                        }
                    } else {
                        assert forall|k: int| p < k < t
                            implies #[trigger] entry_next(post, k) <= t by {
                            assert(entry_next(pre, k) <= t);
                        }
                        assert(is_parent(post, p as int, t));
                    }
                }
                assert forall|t: int, k: int|
                    0 <= t < iv + 1 && 0 <= k < entry_info(&post[t]).name@.len()
                    implies #[trigger] entry_info(&post[t]).name@[k] != 0 by {
                    if t < iv {
                        assert(entry_info(&pre[t]).name@[k] != 0);
                    } else {
                        assert(entry_info(&post[iv]).name@ == nmv);
                    }
                }
                assert(parse_inv(data@, off as int, n as int, post, iv + 1));
                // per-directory child counts: nothing yet points at the new index
                lemma_count_zero_beyond(post, iv, iv + 1);
                assert forall|t: int| 0 <= t < iv
                    implies count_direct_files(post, t, iv + 1)
                        == count_direct_files(pre, t, iv)
                            + if post[iv] is File
                                && entry_info(&post[iv]).directory_index == Some(t as usize) {
                                1int
                            } else {
                                0int
                            } by {
                    lemma_counts_prefix(pre, post, t, iv);
                }
            }
            if is_file_e {
                let c: usize = counts[p];
                counts.set(p, c + 1);
                file_cnt = file_cnt + 1;
                total_sz = total_sz + (fsize as u64);
            }
            extent = newextent;
            i = i + 1;
        }

        // second pass: fill in every directory's direct-file count
        let ghost mid = entries@;
        let mut j: usize = 0;
        while j < n
            invariant
                entries@.len() == n,
                counts@.len() == n,
                forall|t: int| 0 <= t < n ==> same_shape(#[trigger] mid[t], entries@[t]),
                forall|t: int| 0 <= t < j
                    ==> match #[trigger] entries@[t] {
                        Entry::Directory(d) => d.file_count == count_direct_files(mid, t, n as int),
                        Entry::File(_) => true,
                    },
                forall|t: int| 0 <= t < n
                    ==> #[trigger] counts@[t] == count_direct_files(mid, t, n as int),
            decreases n - j,
        {
            let is_d = entries[j].is_dir();
            if is_d {
                let mut tmp: Entry = Entry::File(FileEntry {
                    info: EntryInfo {
                        index: 0,
                        name: Vec::new(),
                        filename_offset: 0,
                        directory_index: None,
                        full_path: Vec::new(),
                    },
                    file_offset: 0,
                    size: 0,
                });
                entries.set_and_swap(j, &mut tmp);
                let cj: usize = counts[j];
                let fixed: Entry = match tmp {
                    Entry::Directory(d) => Entry::Directory(DirectoryEntry {
                        info: d.info,
                        parent_index: d.parent_index,
                        next_index: d.next_index,
                        file_count: cj,
                    }),
                    Entry::File(_) => vstd::pervasive::unreached(),
                };
                entries.set(j, fixed);
            }
            j = j + 1;
        }

        let size: usize = ENTRY_SIZE * n + extent;
        proof {
            let fin = entries@;
            let nn = n as int;
            lemma_fixup_transfer(data@, off as int, nn, mid, fin);
            lemma_shape_counts(mid, fin, 0, nn);
        }
        let fst = FST {
            offset,
            file_count: file_cnt,
            total_file_system_size: total_sz,
            entries,
            size,
        };
        Ok(fst)
    }

    /// The root directory entry.
    pub fn root(&self) -> (r: &DirectoryEntry)
        requires
            self.entries@.len() >= 1,
            self.entries@[0] is Directory,
        ensures
            Entry::Directory(*r) == self.entries@[0],
    {
        match &self.entries[0] {
            Entry::Directory(d) => d,
            Entry::File(_) => vstd::pervasive::unreached(),
        }
    }

    /// Serialize the table: every record's twelve bytes in order, then
    /// every non-root name, null-terminated, in index order. The table's
    /// name offsets must be canonical — tightly packed in index order, as
    /// the format's writer owes and the rebuilder produces — so index
    /// order and offset order coincide and the output is exactly the
    /// on-disc layout the parser reads back; `is_canonical` checks the
    /// assumption at run time.
    /// Whether every non-root name offset is the canonical one: the sum
    /// of the earlier names' lengths and terminators.
    pub fn is_canonical(&self) -> (r: bool)
        ensures
            r == canonical_names(self.entries@),
    {
        let n = self.entries.len();
        let mut cursor: u64 = 0;
        let mut j: usize = 1;
        if n <= 1 {
            return true;
        }
        while j < n
            invariant
                1 <= j <= n,
                n == self.entries@.len(),
                cursor as int == names_total(self.entries@, j as int),
                forall|t: int| 1 <= t < j
                    ==> (#[trigger] entry_info(&self.entries@[t]).filename_offset) as int
                        == names_total(self.entries@, t),
            decreases n - j,
        {
            let info = self.entries[j].info();
            if info.filename_offset != cursor {
                return false;
            }
            let part = cursor.checked_add(info.name.len() as u64);
            let stepped = match part {
                Some(c) => c.checked_add(1),
                None => None,
            };
            proof {
                assert(names_total(self.entries@, j + 1)
                    == names_total(self.entries@, j as int) + info.name@.len() + 1);
            }
            cursor = match stepped {
                Some(c) => c,
                None => {
                    // the running total has outgrown the offset field's
                    // type: no later entry can carry it
                    if j + 1 < n {
                        proof {
                            assert(names_total(self.entries@, j + 1) > u64::MAX);
                            assert(!canonical_names(self.entries@)) by {
                                if canonical_names(self.entries@) {
                                    assert(entry_info(&self.entries@[j + 1]).filename_offset
                                        as int == names_total(self.entries@, j + 1));
                                }
                            }
                        }
                        return false;
                    }
                    return true;
                },
            };
            j = j + 1;
        }
        true
    }

    pub fn write(&self) -> (out: Vec<u8>)
        requires
            canonical_names(self.entries@),
            forall|i: int| 0 <= i < self.entries@.len()
                ==> entry_fields_fit(&#[trigger] self.entries@[i]),
            12 * self.entries@.len() + names_total(self.entries@, self.entries@.len() as int)
                <= usize::MAX,
        ensures
            out@ == table_bytes(self.entries@),
    {
        let n: usize = self.entries.len();
        let mut out: Vec<u8> = Vec::new();
        let mut i: usize = 0;
        proof {
            assert(out@ =~= records_bytes(self.entries@, 0));
        }
        while i < n
            invariant
                i <= n,
                n == self.entries@.len(),
                forall|t: int| 0 <= t < n
                    ==> entry_fields_fit(&#[trigger] self.entries@[t]),
                out@ == records_bytes(self.entries@, i as int),
                out@.len() == 12 * i,
                12 * n + names_total(self.entries@, n as int) <= usize::MAX,
            decreases n - i,
        {
            self.entries[i].write(&mut out);
            proof {
                lemma_record_roundtrip(&self.entries@[i as int]);
                assert(out@ =~= records_bytes(self.entries@, i + 1));
            }
            i = i + 1;
        }
        let mut j: usize = 1;
        proof {
            if n > 0 {
                lemma_names_total_bounds(self.entries@, n as int, 1);
            }
            assert(out@ =~= records_bytes(self.entries@, n as int) + strtab_bytes(self.entries@, 1));
        }
        while j < n
            invariant
                1 <= j <= n || (n == 0 && j == 1),
                n == self.entries@.len(),
                out@ == records_bytes(self.entries@, n as int) + strtab_bytes(self.entries@, j as int),
                out@.len() == 12 * n + names_total(self.entries@, j as int),
                12 * n + names_total(self.entries@, n as int) <= usize::MAX,
            decreases n - j,
        {
            proof {
                lemma_names_total_bounds(self.entries@, n as int, j + 1);
            }
            let nm: &Vec<u8> = &self.entries[j].info().name;
            let mut q: usize = 0;
            while q < nm.len()
                invariant
                    q <= nm@.len(),
                    nm@ == entry_info(&self.entries@[j as int]).name@,
                    j < n == self.entries@.len(),
                    out@ == records_bytes(self.entries@, n as int)
                        + strtab_bytes(self.entries@, j as int) + nm@.subrange(0, q as int),
                    out@.len() == 12 * n + names_total(self.entries@, j as int) + q,
                    names_total(self.entries@, (j + 1) as int)
                        == names_total(self.entries@, j as int) + nm@.len() + 1,
                    12 * n + names_total(self.entries@, n as int) <= usize::MAX,
                    names_total(self.entries@, (j + 1) as int)
                        <= names_total(self.entries@, n as int),
                decreases nm@.len() - q,
            {
                out.push(nm[q]);
                proof {
                    assert(out@ =~= records_bytes(self.entries@, n as int)
                        + strtab_bytes(self.entries@, j as int) + nm@.subrange(0, q + 1));
                }
                q = q + 1;
            }
            out.push(0);
            proof {
                assert(nm@.subrange(0, nm@.len() as int) =~= nm@);
                assert(out@ =~= records_bytes(self.entries@, n as int)
                    + strtab_bytes(self.entries@, j + 1));
            }
            j = j + 1;
        }
        proof {
            if n == 0 {
                assert(out@ =~= table_bytes(self.entries@));
            } else {
                assert(out@ =~= table_bytes(self.entries@));
            }
        }
        out
    }

    /// Look an entry up by path, after dropping one trailing separator
    /// (so a directory may be named with or without it). An absolute path
    /// (leading separator) is matched against the entries' full paths by
    /// byte equality — since names cannot contain the separator on a real
    /// file system, this is the same as walking the path component by
    /// component through each directory's children. Anything else is
    /// treated as a bare name and matched anywhere below the root.
    /// Returns the first match in table order, or nothing — two siblings
    /// may share a name, in which case the earlier one wins.
    pub fn entry_for_path<'a>(&'a self, path: &[u8]) -> (r: Option<&'a Entry>)
        ensures
            ({
                let p = normalize_path(path@);
                match r {
                    Some(e) => {
                        &&& (exists|j: int|
                            0 <= j < self.entries@.len() && *e == #[trigger] self.entries@[j])
                        &&& (p.len() > 0 && p[0] == SEPARATOR
                            ==> entry_info(e).full_path@ == p)
                        &&& (!(p.len() > 0 && p[0] == SEPARATOR)
                            ==> entry_info(e).name@ == p)
                    },
                    None => {
                        &&& (p.len() > 0 && p[0] == SEPARATOR
                            ==> forall|j: int| 0 <= j < self.entries@.len()
                                ==> entry_info(&#[trigger] self.entries@[j]).full_path@ != p)
                        &&& (!(p.len() > 0 && p[0] == SEPARATOR)
                            ==> forall|j: int| 1 <= j < self.entries@.len()
                                ==> entry_info(&#[trigger] self.entries@[j]).name@ != p)
                    },
                }
            }),
    {
        let q: &[u8] = if path.len() > 1 && path[path.len() - 1] == SEPARATOR {
            vstd::slice::slice_subrange(path, 0, path.len() - 1)
        } else {
            path
        };
        proof {
            assert(q@ == normalize_path(path@));
        }
        let absolute = q.len() > 0 && q[0] == SEPARATOR;
        let n = self.entries.len();
        let mut j: usize = if absolute { 0 } else { 1 };
        while j < n
            invariant
                n == self.entries@.len(),
                q@ == normalize_path(path@),
                absolute == (q@.len() > 0 && q@[0] == SEPARATOR),
                absolute ==> forall|t: int| 0 <= t < j
                    ==> entry_info(&#[trigger] self.entries@[t]).full_path@ != q@,
                !absolute ==> j >= 1 && forall|t: int| 1 <= t < j
                    ==> entry_info(&#[trigger] self.entries@[t]).name@ != q@,
            decreases n - j,
        {
            let e = &self.entries[j];
            let hit = if absolute {
                bytes_eq(e.info().full_path.as_slice(), q)
            } else {
                bytes_eq(e.info().name.as_slice(), q)
            };
            if hit {
                proof {
                    assert(*e == self.entries@[j as int]);
                }
                return Some(e);
            }
            j = j + 1;
        }
        None
    }

    /// The actions that materialize the table on a real file system, in
    /// table order (parents always precede their contents): one directory
    /// creation or one file copy per entry, each at its full path.
    pub fn extract_file_system(&self) -> (r: Vec<ExtractItem>)
        ensures
            r@.len() == self.entries@.len(),
            forall|j: int| 0 <= j < r@.len()
                ==> {
                    let it = #[trigger] r@[j];
                    &&& it.path@ == entry_info(&self.entries@[j]).full_path@
                    &&& match self.entries@[j] {
                        Entry::Directory(_) => it.is_dir && it.size == 0,
                        Entry::File(f) => !it.is_dir && it.file_offset == f.file_offset
                            && it.size == f.size,
                    }
                },
    {
        let mut r: Vec<ExtractItem> = Vec::new();
        let mut j: usize = 0;
        while j < self.entries.len()
            invariant
                j <= self.entries@.len(),
                r@.len() == j,
                forall|t: int| 0 <= t < j
                    ==> {
                        let it = #[trigger] r@[t];
                        &&& it.path@ == entry_info(&self.entries@[t]).full_path@
                        &&& match self.entries@[t] {
                            Entry::Directory(_) => it.is_dir && it.size == 0,
                            Entry::File(f) => !it.is_dir && it.file_offset == f.file_offset
                                && it.size == f.size,
                        }
                    },
            decreases self.entries@.len() - j,
        {
            let it = match &self.entries[j] {
                Entry::Directory(d) => ExtractItem {
                    is_dir: true,
                    path: clone_bytes(&d.info.full_path),
                    file_offset: 0,
                    size: 0,
                },
                Entry::File(f) => ExtractItem {
                    is_dir: false,
                    path: clone_bytes(&f.info.full_path),
                    file_offset: f.file_offset,
                    size: f.size,
                },
            };
            r.push(it);
            j = j + 1;
        }
        r
    }

    /// The entry's reconstructed full path: its names joined from the
    /// root down, as resolved when the table was parsed or rebuilt.
    pub fn get_full_path(&self, entry: &EntryInfo) -> (r: Vec<u8>)
        ensures
            r@ == entry.full_path@,
    {
        clone_bytes(&entry.full_path)
    }

    /// The first entry below the root carrying exactly this name, in
    /// table order, or nothing.
    pub fn entry_with_name<'a>(&'a self, name: &[u8]) -> (r: Option<&'a Entry>)
        ensures
            match r {
                Some(e) => {
                    &&& (exists|j: int|
                        0 <= j < self.entries@.len() && *e == #[trigger] self.entries@[j])
                    &&& entry_info(e).name@ == name@
                },
                None => forall|j: int| 1 <= j < self.entries@.len()
                    ==> entry_info(&#[trigger] self.entries@[j]).name@ != name@,
            },
    {
        let n = self.entries.len();
        let mut j: usize = 1;
        while j < n
            invariant
                1 <= j || n == 0,
                n == self.entries@.len(),
                forall|t: int| 1 <= t < j
                    ==> entry_info(&#[trigger] self.entries@[t]).name@ != name@,
            decreases n - j,
        {
            let e = &self.entries[j];
            if bytes_eq(e.info().name.as_slice(), name) {
                proof {
                    assert(*e == self.entries@[j as int]);
                }
                return Some(e);
            }
            j = j + 1;
        }
        None
    }

    /// The entry holding the nearest enclosing directory of `entry`, if any.
    pub fn get_parent_for_entry<'a>(&'a self, entry: &EntryInfo) -> (r: Option<&'a Entry>)
        requires
            entry.directory_index matches Some(p) ==> p < self.entries@.len(),
        ensures
            match entry.directory_index {
                Some(p) => r == Some(&self.entries@[p as int]),
                None => r is None,
            },
    {
        match entry.directory_index {
            Some(i) => Some(&self.entries[i]),
            None => None,
        }
    }
}

} // verus!
