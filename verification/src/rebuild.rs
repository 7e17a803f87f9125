//! Rebuilding a table from a scanned directory tree: indices, subtree
//! ranges, canonical string-table offsets and aligned file offsets are all
//! assigned here, and the result is proved well-formed, canonical, and
//! path-identical to the tree that was scanned.
use vstd::prelude::*;
use crate::{align, spec_align, RebuildError};
use crate::entry::{
    Entry, EntryInfo, FileEntry, DirectoryEntry, entry_info, entry_fields_fit,
};
use crate::fst::{
    FST, SEPARATOR, entry_next, is_parent, path_of, names_total, count_direct_files,
    spec_total_files, spec_total_size, wf_entries, canonical_names,
    same_shape, lemma_shape_pointwise, lemma_shape_path, lemma_shape_counts,
    lemma_path_of_prefix, lemma_counts_prefix, clone_bytes, join_path, lemma_canonical_extent,
};

verus! {

/// A node of a scanned directory tree, as the host file system reports it.
#[derive(Debug)]
pub enum FsEntry {
    /// A regular file and its byte size.
    File { name: Vec<u8>, size: usize },
    /// A directory and its children, in scan order.
    Dir { name: Vec<u8>, children: Vec<FsEntry> },
}

/// The node's own name.
pub open spec fn node_name(node: FsEntry) -> Seq<u8> {
    match node {
        FsEntry::File { name, .. } => name@,
        FsEntry::Dir { name, .. } => name@,
    }
}

/// The reserved directory that holds the image's system metadata; it is
/// never packed into the table.
pub open spec fn sysdata_name() -> Seq<u8> {
    seq![38u8, 38u8, 115u8, 121u8, 115u8, 116u8, 101u8, 109u8, 100u8, 97u8, 116u8, 97u8]
}

/// Names the rebuilder skips: hidden entries (leading dot) and the system
/// metadata directory.
pub open spec fn spec_ignored(name: Seq<u8>) -> bool {
    (name.len() > 0 && name[0] == 46) || name == sysdata_name()
}

/// Number of table entries a node contributes: itself, plus its whole
/// subtree for a directory; skipped children contribute nothing.
pub open spec fn node_count(node: FsEntry) -> int
    decreases node,
{
    match node {
        FsEntry::File { .. } => 1,
        FsEntry::Dir { children, .. } => 1 + children_count(children@, 0),
    }
}

/// Entries contributed by `cs[i..]`, skipping ignored names.
pub open spec fn children_count(cs: Seq<FsEntry>, i: int) -> int
    decreases cs, cs.len() - i,
{
    if 0 <= i < cs.len() {
        (if spec_ignored(node_name(cs[i])) {
            0int
        } else {
            node_count(cs[i])
        }) + children_count(cs, i + 1)
    } else {
        0
    }
}

pub proof fn lemma_node_count_pos(node: FsEntry)
    ensures
        node_count(node) >= 1,
        node matches FsEntry::Dir { children, .. }
            ==> children_count(children@, 0) >= 0,
    decreases node,
{
    match node {
        FsEntry::File { .. } => {},
        FsEntry::Dir { children, .. } => {
            lemma_children_count_nonneg(children@, 0);
        },
    }
}

/// Skipping ahead in the child list never increases the remaining count.
pub proof fn lemma_children_count_mono(cs: Seq<FsEntry>, a: int, b: int)
    requires
        0 <= a <= b,
    ensures
        children_count(cs, a) >= children_count(cs, b),
    decreases b - a,
{
    if a < b && a < cs.len() {
        if !spec_ignored(node_name(cs[a])) {
            lemma_node_count_pos(cs[a]);
        }
        lemma_children_count_mono(cs, a + 1, b);
    } else if a < b {
        lemma_children_count_mono(cs, a + 1, b);
    }
}

pub proof fn lemma_children_count_nonneg(cs: Seq<FsEntry>, i: int)
    ensures
        children_count(cs, i) >= 0,
    decreases cs, cs.len() - i,
{
    if 0 <= i < cs.len() {
        if !spec_ignored(node_name(cs[i])) {
            lemma_node_count_pos(cs[i]);
        }
        lemma_children_count_nonneg(cs, i + 1);
    }
}

/// The full paths a node contributes, in depth-first order. `prefix` is
/// the containing directory's path, or empty directly under the root, so a
/// contributed path is always `prefix`, the separator, then the name.
pub open spec fn node_path_list(prefix: Seq<u8>, node: FsEntry) -> Seq<Seq<u8>>
    decreases node,
{
    match node {
        FsEntry::File { name, .. } => seq![prefix + seq![SEPARATOR] + name@],
        FsEntry::Dir { name, children } => {
            let p = prefix + seq![SEPARATOR] + name@;
            seq![p] + children_path_list(p, children@, 0)
        },
    }
}

/// The paths contributed by `cs[i..]`, skipping ignored names.
pub open spec fn children_path_list(prefix: Seq<u8>, cs: Seq<FsEntry>, i: int) -> Seq<Seq<u8>>
    decreases cs, cs.len() - i,
{
    if 0 <= i < cs.len() {
        (if spec_ignored(node_name(cs[i])) {
            Seq::empty()
        } else {
            node_path_list(prefix, cs[i])
        }) + children_path_list(prefix, cs, i + 1)
    } else {
        Seq::empty()
    }
}

/// Every name in the subtree is free of null bytes (the host file system
/// guarantees this of real file names).
pub open spec fn node_names_ok(node: FsEntry) -> bool
    decreases node,
{
    &&& forall|k: int| 0 <= k < node_name(node).len() ==> #[trigger] node_name(node)[k] != 0
    &&& match node {
        FsEntry::File { .. } => true,
        FsEntry::Dir { children, .. } => children_names_ok(children@, 0),
    }
}

pub open spec fn children_names_ok(cs: Seq<FsEntry>, i: int) -> bool
    decreases cs, cs.len() - i,
{
    if 0 <= i < cs.len() {
        node_names_ok(cs[i]) && children_names_ok(cs, i + 1)
    } else {
        true
    }
}

/// String-table bytes the node contributes: its name and terminator,
/// plus its kept descendants' names; skipped children contribute nothing.
pub open spec fn node_names_len(node: FsEntry) -> int
    decreases node,
{
    match node {
        FsEntry::File { name, .. } => name@.len() + 1int,
        FsEntry::Dir { name, children } => name@.len() + 1int + children_names_len(children@, 0),
    }
}

pub open spec fn children_names_len(cs: Seq<FsEntry>, i: int) -> int
    decreases cs, cs.len() - i,
{
    if 0 <= i < cs.len() {
        (if spec_ignored(node_name(cs[i])) {
            0int
        } else {
            node_names_len(cs[i])
        }) + children_names_len(cs, i + 1)
    } else {
        0
    }
}

/// Every kept file in the subtree fits the record's 4-byte size field.
pub open spec fn node_sizes_fit(node: FsEntry) -> bool
    decreases node,
{
    match node {
        FsEntry::File { size, .. } => size <= 0xFFFFFFFF,
        FsEntry::Dir { children, .. } => children_sizes_fit(children@, 0),
    }
}

pub open spec fn children_sizes_fit(cs: Seq<FsEntry>, i: int) -> bool
    decreases cs, cs.len() - i,
{
    if 0 <= i < cs.len() {
        (spec_ignored(node_name(cs[i])) || node_sizes_fit(cs[i]))
            && children_sizes_fit(cs, i + 1)
    } else {
        true
    }
}

/// File-data bytes the subtree's kept files occupy, each rounded up to
/// the alignment.
pub open spec fn node_aligned_total(node: FsEntry, m: int) -> int
    decreases node,
{
    match node {
        FsEntry::File { size, .. } => spec_align(size as int, m),
        FsEntry::Dir { children, .. } => children_aligned_total(children@, 0, m),
    }
}

pub open spec fn children_aligned_total(cs: Seq<FsEntry>, i: int, m: int) -> int
    decreases cs, cs.len() - i,
{
    if 0 <= i < cs.len() {
        (if spec_ignored(node_name(cs[i])) {
            0int
        } else {
            node_aligned_total(cs[i], m)
        }) + children_aligned_total(cs, i + 1, m)
    } else {
        0
    }
}

/// The bounds under which the rebuilder owes success for this subtree,
/// given the string-table cursor and file-data cursor it starts from.
pub open spec fn node_fits(node: FsEntry, foc: int, fcur: int, m: int) -> bool {
    &&& foc + node_names_len(node) <= 0x1000000
    &&& node_sizes_fit(node)
    &&& fcur + node_aligned_total(node, m) <= 0xFFFFFFFF
}

pub proof fn lemma_node_names_len_pos(node: FsEntry)
    ensures
        node_names_len(node) >= 1,
        node matches FsEntry::Dir { children, .. }
            ==> children_names_len(children@, 0) >= 0,
    decreases node,
{
    match node {
        FsEntry::File { .. } => {},
        FsEntry::Dir { children, .. } => {
            lemma_children_names_len_nonneg(children@, 0);
        },
    }
}

pub proof fn lemma_children_names_len_nonneg(cs: Seq<FsEntry>, i: int)
    ensures
        children_names_len(cs, i) >= 0,
    decreases cs, cs.len() - i,
{
    if 0 <= i < cs.len() {
        if !spec_ignored(node_name(cs[i])) {
            lemma_node_names_len_pos(cs[i]);
        }
        lemma_children_names_len_nonneg(cs, i + 1);
    }
}

pub proof fn lemma_node_aligned_total_nonneg(node: FsEntry, m: int)
    requires
        0 < m,
    ensures
        node_aligned_total(node, m) >= 0,
        node matches FsEntry::Dir { children, .. }
            ==> children_aligned_total(children@, 0, m) >= 0,
    decreases node,
{
    match node {
        FsEntry::File { size, .. } => {
            crate::lemma_align_bounds(size as int, m);
        },
        FsEntry::Dir { children, .. } => {
            lemma_children_aligned_total_nonneg(children@, 0, m);
        },
    }
}

pub proof fn lemma_children_aligned_total_nonneg(cs: Seq<FsEntry>, i: int, m: int)
    requires
        0 < m,
    ensures
        children_aligned_total(cs, i, m) >= 0,
    decreases cs, cs.len() - i,
{
    if 0 <= i < cs.len() {
        if !spec_ignored(node_name(cs[i])) {
            lemma_node_aligned_total_nonneg(cs[i], m);
        }
        lemma_children_aligned_total_nonneg(cs, i + 1, m);
    }
}

/// Each kept child fits the size bound whenever its whole list does.
pub proof fn lemma_children_sizes_fit_at(cs: Seq<FsEntry>, j: int, q: int)
    requires
        children_sizes_fit(cs, j),
        0 <= j <= q < cs.len(),
        !spec_ignored(node_name(cs[q])),
    ensures
        node_sizes_fit(cs[q]),
    decreases q - j,
{
    if j < q {
        lemma_children_sizes_fit_at(cs, j + 1, q);
    }
}

/// Sum of the aligned sizes of the File entries among the first `n`: each
/// file's content slot starts where the previous aligned slot ended.
pub open spec fn prefix_aligned_sum(entries: Seq<Entry>, n: int, m: int) -> int
    decreases n,
{
    if n <= 0 {
        0
    } else {
        prefix_aligned_sum(entries, n - 1, m) + match entries[n - 1] {
            Entry::File(f) => spec_align(f.size as int, m),
            Entry::Directory(_) => 0int,
        }
    }
}

/// The full paths of entries `lo .. hi`, in table order.
pub open spec fn entry_paths(entries: Seq<Entry>, lo: int, hi: int) -> Seq<Seq<u8>>
    decreases hi - lo,
{
    if lo < hi {
        seq![entry_info(&entries[lo]).full_path@] + entry_paths(entries, lo + 1, hi)
    } else {
        Seq::empty()
    }
}

/// Paths of an untouched range are unchanged when a table only grows.
pub proof fn lemma_entry_paths_grow(s1: Seq<Entry>, s2: Seq<Entry>, lo: int, hi: int)
    requires
        0 <= lo,
        hi <= s1.len(),
        hi <= s2.len(),
        forall|k: int| lo <= k < hi ==> s1[k] == #[trigger] s2[k],
    ensures
        entry_paths(s1, lo, hi) == entry_paths(s2, lo, hi),
    decreases hi - lo,
{
    if lo < hi {
        lemma_entry_paths_grow(s1, s2, lo + 1, hi);
    }
}

/// Splitting a path range at `mid` splits the list.
pub proof fn lemma_entry_paths_concat(entries: Seq<Entry>, lo: int, mid: int, hi: int)
    requires
        lo <= mid <= hi,
    ensures
        entry_paths(entries, lo, hi)
            == entry_paths(entries, lo, mid) + entry_paths(entries, mid, hi),
    decreases mid - lo,
{
    if lo < mid {
        lemma_entry_paths_concat(entries, lo + 1, mid, hi);
        assert(entry_paths(entries, lo, hi)
            =~= entry_paths(entries, lo, mid) + entry_paths(entries, mid, hi));
    } else {
        assert(entry_paths(entries, lo, hi)
            =~= entry_paths(entries, lo, mid) + entry_paths(entries, mid, hi));
    }
}

/// The kind and size of each entry of `lo .. hi`, in table order: `true`
/// with the file's byte size for a File, `false` with 0 for a Directory.
pub open spec fn entry_shapes(entries: Seq<Entry>, lo: int, hi: int) -> Seq<(bool, int)>
    decreases hi - lo,
{
    if lo < hi {
        seq![
            match entries[lo] {
                Entry::File(f) => (true, f.size as int),
                Entry::Directory(_) => (false, 0int),
            },
        ] + entry_shapes(entries, lo + 1, hi)
    } else {
        Seq::empty()
    }
}

/// The kinds and sizes a node contributes, in depth-first order: the node
/// itself, then (for a directory) its kept descendants.
pub open spec fn node_shape_list(node: FsEntry) -> Seq<(bool, int)>
    decreases node,
{
    match node {
        FsEntry::File { size, .. } => seq![(true, size as int)],
        FsEntry::Dir { children, .. } => seq![(false, 0int)] + children_shape_list(children@, 0),
    }
}

/// The kinds and sizes contributed by `cs[i..]`, skipping ignored names.
pub open spec fn children_shape_list(cs: Seq<FsEntry>, i: int) -> Seq<(bool, int)>
    decreases cs, cs.len() - i,
{
    if 0 <= i < cs.len() {
        (if spec_ignored(node_name(cs[i])) {
            Seq::empty()
        } else {
            node_shape_list(cs[i])
        }) + children_shape_list(cs, i + 1)
    } else {
        Seq::empty()
    }
}

/// Kinds and sizes of an untouched range are unchanged when a table only
/// grows.
pub proof fn lemma_entry_shapes_grow(s1: Seq<Entry>, s2: Seq<Entry>, lo: int, hi: int)
    requires
        0 <= lo,
        hi <= s1.len(),
        hi <= s2.len(),
        forall|k: int| lo <= k < hi ==> s1[k] == #[trigger] s2[k],
    ensures
        entry_shapes(s1, lo, hi) == entry_shapes(s2, lo, hi),
    decreases hi - lo,
{
    if lo < hi {
        lemma_entry_shapes_grow(s1, s2, lo + 1, hi);
    }
}

/// Splitting a kinds-and-sizes range at `mid` splits the list.
pub proof fn lemma_entry_shapes_concat(entries: Seq<Entry>, lo: int, mid: int, hi: int)
    requires
        lo <= mid <= hi,
    ensures
        entry_shapes(entries, lo, hi)
            == entry_shapes(entries, lo, mid) + entry_shapes(entries, mid, hi),
    decreases mid - lo,
{
    if lo < mid {
        lemma_entry_shapes_concat(entries, lo + 1, mid, hi);
        assert(entry_shapes(entries, lo, hi)
            =~= entry_shapes(entries, lo, mid) + entry_shapes(entries, mid, hi));
    } else {
        assert(entry_shapes(entries, lo, hi)
            =~= entry_shapes(entries, lo, mid) + entry_shapes(entries, mid, hi));
    }
}

/// Kinds and sizes are untouched by the `file_count` fixup.
proof fn lemma_entry_shapes_shape(s1: Seq<Entry>, s2: Seq<Entry>, lo: int, hi: int)
    requires
        s1.len() == s2.len(),
        0 <= lo,
        hi <= s1.len(),
        forall|k: int| 0 <= k < s1.len() ==> same_shape(#[trigger] s1[k], s2[k]),
    ensures
        entry_shapes(s1, lo, hi) == entry_shapes(s2, lo, hi),
    decreases hi - lo,
{
    if lo < hi {
        assert(same_shape(s1[lo], s2[lo]));
        lemma_entry_shapes_shape(s1, s2, lo + 1, hi);
    }
}

/// Whether the rebuilder skips this name: hidden entries and the system
/// metadata directory.
pub fn is_file_ignored(name: &[u8]) -> (r: bool)
    ensures
        r == spec_ignored(name@),
{
    if name.len() > 0 && name[0] == 46 {
        return true;
    }
    if name.len() != 12 {
        proof {
            assert(name@ != sysdata_name());
        }
        return false;
    }
    let hit = name[0] == 38 && name[1] == 38 && name[2] == 115 && name[3] == 121
        && name[4] == 115 && name[5] == 116 && name[6] == 101 && name[7] == 109
        && name[8] == 100 && name[9] == 97 && name[10] == 116 && name[11] == 97;
    proof {
        if hit {
            assert(name@ =~= sysdata_name());
        } else {
            assert(name@ != sysdata_name());
        }
    }
    hit
}

/// The node's name, as a slice.
fn name_of(node: &FsEntry) -> (r: &Vec<u8>)
    ensures
        r@ == node_name(*node),
{
    match node {
        FsEntry::File { name, .. } => name,
        FsEntry::Dir { name, .. } => name,
    }
}

/// Number of table entries this node will contribute, or an error if the
/// count does not fit the machine.
#[verifier::loop_isolation(false)]
fn count_node(node: &FsEntry) -> (r: Result<usize, RebuildError>)
    ensures
        r matches Ok(c) ==> c as int == node_count(*node),
        r matches Err(e) ==> e == RebuildError::TooManyEntries,
        node_count(*node) <= usize::MAX ==> r is Ok,
    decreases *node,
{
    match node {
        FsEntry::File { .. } => Ok(1),
        FsEntry::Dir { children, .. } => {
            let mut total: usize = 1;
            let mut q: usize = 0;
            proof {
                lemma_children_count_nonneg(children@, 0);
            }
            while q < children.len()
                invariant
                    q <= children@.len(),
                    1 + children_count(children@, 0)
                        == total + children_count(children@, q as int),
                decreases children@.len() - q,
            {
                let c = &children[q];
                proof {
                    assert(decreases_to!(*children => children[q as int]));
                }
                if !is_file_ignored(name_of(c).as_slice()) {
                    proof {
                        lemma_children_count_mono(children@, 0, q as int);
                        lemma_children_count_nonneg(children@, q + 1);
                        lemma_node_count_pos(children@[q as int]);
                    }
                    let cc = match count_node(c) {
                        Ok(v) => v,
                        Err(e) => {
                            proof {
                                assert(node_count(*node) > usize::MAX);
                            }
                            return Err(e);
                        },
                    };
                    total = match total.checked_add(cc) {
                        Some(v) => v,
                        None => {
                            proof {
                                assert(node_count(*node) > usize::MAX);
                            }
                            return Err(RebuildError::TooManyEntries);
                        },
                    };
                }
                q = q + 1;
            }
            Ok(total)
        },
    }
}

/// Each child of a tree whose names are all null-free has null-free names
/// itself.
pub proof fn lemma_children_names_ok_at(cs: Seq<FsEntry>, j: int, q: int)
    requires
        children_names_ok(cs, j),
        0 <= j <= q < cs.len(),
    ensures
        node_names_ok(cs[q]),
    decreases q - j,
{
    if j < q {
        lemma_children_names_ok_at(cs, j + 1, q);
    }
}

/// Aligned-size sums agree on a shared prefix.
pub proof fn lemma_aligned_sum_prefix(s1: Seq<Entry>, s2: Seq<Entry>, n: int, m: int)
    requires
        forall|k: int| 0 <= k < n ==> s1[k] == #[trigger] s2[k],
    ensures
        prefix_aligned_sum(s1, n, m) == prefix_aligned_sum(s2, n, m),
    decreases n,
{
    if n > 0 {
        lemma_aligned_sum_prefix(s1, s2, n - 1, m);
    }
}

/// Aligned-size sums ignore `file_count`, the one field fixed up later.
pub proof fn lemma_aligned_sum_shape(s1: Seq<Entry>, s2: Seq<Entry>, n: int, m: int)
    requires
        s1.len() == s2.len(),
        n <= s1.len(),
        forall|k: int| 0 <= k < s1.len() ==> same_shape(#[trigger] s1[k], s2[k]),
    ensures
        prefix_aligned_sum(s1, n, m) == prefix_aligned_sum(s2, n, m),
    decreases n,
{
    if n > 0 {
        assert(same_shape(s1[n - 1], s2[n - 1]));
        lemma_aligned_sum_shape(s1, s2, n - 1, m);
    }
}

/// What holds of the table while the rebuilder is appending entries: the
/// same structural invariants the parser maintains, plus canonical name
/// offsets and aligned absolute file offsets; every directory's
/// `file_count` is still pending at zero.
pub open spec fn build_inv(
    entries: Seq<Entry>,
    n: int,
    foc: int,
    fcur: int,
    m: int,
    base: int,
) -> bool {
    let i = entries.len() as int;
    &&& 1 <= i <= n
    &&& n <= 0xFFFFFFFF
    &&& 0 < m <= 0x100000000
    &&& 0 <= base <= 0xFFFFFFFF
    &&& entries[0] is Directory
    &&& entry_next(entries, 0) == n
    &&& entry_info(&entries[0]).directory_index is None
    &&& entry_info(&entries[0]).name@ == seq![SEPARATOR]
    &&& entry_info(&entries[0]).full_path@ == seq![SEPARATOR]
    &&& entry_info(&entries[0]).filename_offset == 0
    &&& forall|t: int| 0 <= t < i ==> (#[trigger] entry_info(&entries[t]).index) == t
    &&& forall|t: int| 0 <= t < i ==> entry_fields_fit(&#[trigger] entries[t])
    &&& forall|t: int| 0 <= t < i ==> t < #[trigger] entry_next(entries, t) <= n
    &&& forall|t1: int, t2: int|
        0 <= t1 < t2 < i && t2 < #[trigger] entry_next(entries, t1)
            ==> #[trigger] entry_next(entries, t2) <= entry_next(entries, t1)
    &&& forall|t: int| 1 <= t < i
        ==> {
            let di = #[trigger] entry_info(&entries[t]).directory_index;
            di matches Some(p) && is_parent(entries, p as int, t)
        }
    &&& forall|t: int, k: int|
        0 <= t < i && 0 <= k < entry_info(&entries[t]).name@.len()
            ==> #[trigger] entry_info(&entries[t]).name@[k] != 0
    &&& forall|t: int| 0 <= t < i
        ==> (#[trigger] entry_info(&entries[t]).full_path@) == path_of(entries, t)
    &&& forall|t: int| 0 <= t < i
        ==> match #[trigger] entries[t] {
            Entry::Directory(d) => d.file_count == 0,
            Entry::File(_) => true,
        }
    &&& forall|t: int| 1 <= t < i
        ==> (#[trigger] entry_info(&entries[t]).filename_offset) as int
            == names_total(entries, t)
    &&& foc == names_total(entries, i)
    &&& 0 <= foc <= 0x2000001
    &&& fcur == base + prefix_aligned_sum(entries, i, m)
    &&& fcur <= 0x2FFFFFFFF
    &&& forall|t: int| 0 <= t < i
        ==> match #[trigger] entries[t] {
            Entry::File(f) => f.file_offset as int == base + prefix_aligned_sum(entries, t, m),
            Entry::Directory(_) => true,
        }
}

/// Pushing one freshly assigned entry keeps every rebuild invariant: the
/// new record sits at the next index, under its nearest open directory,
/// with the canonical name offset and (for a file) the next aligned slot.
#[verifier::rlimit(100)]
#[verifier::spinoff_prover]
proof fn lemma_push_step(
    pre: Seq<Entry>,
    post: Seq<Entry>,
    n: int,
    foc: int,
    fcur: int,
    m: int,
    base: int,
    parent: int,
    block_end: int,
    prefix: Seq<u8>,
)
    requires
        build_inv(pre, n, foc, fcur, m, base),
        post.len() == pre.len() + 1,
        forall|t: int| 0 <= t < pre.len() ==> post[t] == #[trigger] pre[t],
        pre.len() + 1 <= block_end <= n,
        0 <= parent < pre.len(),
        pre[parent] is Directory,
        entry_next(pre, parent) >= block_end,
        forall|k: int| parent < k < pre.len()
            ==> #[trigger] entry_next(pre, k) <= pre.len(),
        forall|t: int| 0 <= t < pre.len()
            ==> (#[trigger] entry_next(pre, t)) > pre.len()
                ==> entry_next(pre, t) >= block_end,
        prefix == if parent == 0 { Seq::<u8>::empty() } else { path_of(pre, parent) },
        ({
            let i = pre.len() as int;
            let e = &post[i];
            &&& entry_info(e).index == i
            &&& entry_info(e).directory_index == Some(parent as usize)
            &&& entry_info(e).filename_offset as int == foc
            &&& foc < 0x1000000
            &&& entry_info(e).name@.len() < 0x1000000
            &&& forall|k: int| 0 <= k < entry_info(e).name@.len()
                ==> #[trigger] entry_info(e).name@[k] != 0
            &&& entry_info(e).full_path@ == prefix + seq![SEPARATOR] + entry_info(e).name@
            &&& pre.len() < entry_next(post, i) <= block_end
            &&& match post[i] {
                Entry::File(f) => {
                    &&& f.file_offset as int == fcur
                    &&& fcur <= 0xFFFFFFFF
                    &&& f.size <= 0xFFFFFFFF
                },
                Entry::Directory(d) => {
                    &&& d.parent_index == parent as usize
                    &&& d.file_count == 0
                },
            }
        }),
    ensures
        ({
            let i = pre.len() as int;
            let e = &post[i];
            let foc2 = foc + entry_info(e).name@.len() + 1;
            let fcur2 = fcur + match post[i] {
                Entry::File(f) => spec_align(f.size as int, m),
                Entry::Directory(_) => 0int,
            };
            &&& build_inv(post, n, foc2, fcur2, m, base)
            &&& entry_info(&post[i]).full_path@ == path_of(post, i)
        }),
{
    let i = pre.len() as int;
    let e = &post[i];
    assert forall|t: int| 0 <= t < i
        implies #[trigger] entry_next(post, t) == entry_next(pre, t) by {
        assert(post[t] == pre[t]);
    }
    assert forall|t: int| 0 <= t < i
        implies #[trigger] entry_info(&post[t]) == entry_info(&pre[t]) by {
        assert(post[t] == pre[t]);
    }
    // every spec value over the old prefix is unchanged
    assert forall|t: int| 0 <= t < i implies #[trigger] path_of(post, t) == path_of(pre, t) by {
        lemma_path_of_prefix(pre, post, t);
    }
    lemma_counts_prefix(pre, post, 0, i);
    assert forall|t: int| 0 <= t <= i
        implies #[trigger] names_total(post, t) == names_total(pre, t) by {
        lemma_counts_prefix(pre, post, 0, t);
    }
    assert forall|t: int| 0 <= t <= i
        implies #[trigger] prefix_aligned_sum(post, t, m) == prefix_aligned_sum(pre, t, m) by {
        lemma_aligned_sum_prefix(pre, post, t, m);
    }
    // ranges and nesting still hold with the new entry inside its parent
    assert forall|t: int| 0 <= t < i + 1
        implies t < #[trigger] entry_next(post, t) <= n by {
        if t < i {
            assert(t < entry_next(pre, t) <= n);
        }
    }
    assert forall|t1: int, t2: int|
        0 <= t1 < t2 < i + 1 && t2 < #[trigger] entry_next(post, t1)
        implies #[trigger] entry_next(post, t2) <= entry_next(post, t1) by {
        if t2 < i {
            assert(entry_next(pre, t2) <= entry_next(pre, t1));
        } else {
            assert(entry_next(pre, t1) > i);
            assert(entry_next(pre, t1) >= block_end);
        }
    }
    // the new entry's parent is the nearest open directory
    assert forall|k: int| parent < k < i implies #[trigger] entry_next(post, k) <= i by {
        assert(entry_next(pre, k) <= i);
    }
    assert(is_parent(post, parent, i));
    assert forall|t: int| 1 <= t < i + 1
        implies {
            let di = #[trigger] entry_info(&post[t]).directory_index;
            di matches Some(q) && is_parent(post, q as int, t)
        } by {
        if t < i {
            let di = entry_info(&pre[t]).directory_index;
            assert(di matches Some(q) && is_parent(pre, q as int, t));
            match di {
                Some(q) => {
                    assert forall|k: int| q < k < t
                        implies #[trigger] entry_next(post, k) <= t by {
                        assert(entry_next(pre, k) <= t);
                    }
                    assert(is_parent(post, q as int, t));
                },
                None => {},
            }
        }
    }
    // names stay null-free
    assert forall|t: int, k: int|
        0 <= t < i + 1 && 0 <= k < entry_info(&post[t]).name@.len()
        implies #[trigger] entry_info(&post[t]).name@[k] != 0 by {
        if t < i {
            assert(entry_info(&pre[t]).name@[k] != 0);
        }
    }
    // the new path joins the parent's path
    if parent == 0 {
        assert(path_of(post, i) =~= entry_info(e).full_path@);
    } else {
        assert(path_of(post, parent) == path_of(pre, parent));
        assert(path_of(post, i) == path_of(post, parent) + seq![SEPARATOR] + entry_info(e).name@);
        assert(path_of(post, i) =~= entry_info(e).full_path@);
    }
    assert forall|t: int| 0 <= t < i + 1
        implies (#[trigger] entry_info(&post[t]).full_path@) == path_of(post, t) by {
        if t < i {
            assert(entry_info(&pre[t]).full_path@ == path_of(pre, t));
        }
    }
    // canonical name offsets advance by this name and its terminator
    assert(names_total(post, i + 1) == names_total(post, i) + entry_info(e).name@.len() + 1);
    assert forall|t: int| 1 <= t < i + 1
        implies (#[trigger] entry_info(&post[t]).filename_offset) as int
            == names_total(post, t) by {
        if t < i {
            assert(entry_info(&pre[t]).filename_offset as int == names_total(pre, t));
        }
    }
    // aligned file offsets advance by this file's slot
    if post[i] is File {
        crate::lemma_align_bounds(post[i]->File_0.size as int, m);
    }
    assert forall|t: int| 0 <= t < i + 1
        implies match #[trigger] post[t] {
            Entry::File(f) => f.file_offset as int == base + prefix_aligned_sum(post, t, m),
            Entry::Directory(_) => true,
        } by {
        if t < i {
            assert(post[t] == pre[t]);
        }
    }
    assert forall|t: int| 0 <= t < i + 1
        implies (#[trigger] entry_info(&post[t]).index) == t by {
        if t < i {
            assert(entry_info(&pre[t]).index == t);
        }
    }
    assert forall|t: int| 0 <= t < i + 1
        implies entry_fields_fit(&#[trigger] post[t]) by {
        if t < i {
            assert(post[t] == pre[t]);
            assert(entry_fields_fit(&pre[t]));
        }
    }
    assert forall|t: int| 0 <= t < i + 1
        implies match #[trigger] post[t] {
            Entry::Directory(d) => d.file_count == 0,
            Entry::File(_) => true,
        } by {
        if t < i {
            assert(post[t] == pre[t]);
        }
    }
    let foc2 = foc + entry_info(e).name@.len() + 1;
    let fcur2 = fcur + match post[i] {
        Entry::File(f) => spec_align(f.size as int, m),
        Entry::Directory(_) => 0int,
    };
    assert(prefix_aligned_sum(post, i + 1, m) == prefix_aligned_sum(post, i, m) + match post[i] {
        Entry::File(f) => spec_align(f.size as int, m),
        Entry::Directory(_) => 0int,
    });
    assert(fcur2 == base + prefix_aligned_sum(post, i + 1, m));
    assert(foc2 == names_total(post, i + 1));
    assert(fcur2 <= 0x2FFFFFFFF) by {
        if post[i] is File {
            crate::lemma_align_bounds(post[i]->File_0.size as int, m);
        }
    }
    assert(build_inv(post, n, foc2, fcur2, m, base));
}

/// Once a directory's children are all appended, the directory's block is
/// exactly its precomputed subtree range and its paths are the node's.
proof fn lemma_close_dir(
    fin: Seq<Entry>,
    node: FsEntry,
    p: Seq<u8>,
    prefix: Seq<u8>,
    i: int,
    i2: int,
)
    requires
        node matches FsEntry::Dir { .. },
        p == prefix + seq![SEPARATOR] + node_name(node),
        i2 == fin.len(),
        0 <= i < i2,
        i2 == i + 1 + children_count(node->Dir_children@, 0),
        entry_next(fin, i) == i2,
        entry_info(&fin[i]).full_path@ == p,
        children_path_list(p, node->Dir_children@, 0) == entry_paths(fin, i + 1, i2)
            + children_path_list(p, node->Dir_children@, node->Dir_children@.len() as int),
        forall|t: int| i + 1 <= t < i2 ==> #[trigger] entry_next(fin, t) <= i2,
    ensures
        i2 == i + node_count(node),
        forall|t: int| i <= t < i2 ==> #[trigger] entry_next(fin, t) <= i2,
        entry_paths(fin, i, i2) == node_path_list(prefix, node),
{
    let cs = node->Dir_children@;
    assert(children_count(cs, cs.len() as int) == 0);
    assert(node_count(node) == 1 + children_count(cs, 0));
    lemma_entry_paths_concat(fin, i, i + 1, i2);
    assert(entry_paths(fin, i + 1, i + 1) =~= Seq::<Seq<u8>>::empty());
    assert(entry_paths(fin, i, i + 1) =~= seq![entry_info(&fin[i]).full_path@]);
    assert(children_path_list(p, cs, cs.len() as int) =~= Seq::<Seq<u8>>::empty());
    assert(children_path_list(p, cs, 0) =~= entry_paths(fin, i + 1, i2));
    assert(entry_paths(fin, i, i2) =~= seq![p] + children_path_list(p, cs, 0));
    assert(node_path_list(prefix, node) == seq![p] + children_path_list(p, cs, 0));
}

/// Append the single entry for a file node: the next table index, the
/// canonical name offset, and the next aligned file-data slot.
#[verifier::rlimit(100)]
#[verifier::spinoff_prover]
fn add_file(
    node: &FsEntry,
    entries: &mut Vec<Entry>,
    foc: &mut u64,
    fcur: &mut u64,
    parent: usize,
    alignment: u64,
    base: u64,
    n: Ghost<int>,
    block_end: Ghost<int>,
    path: Vec<u8>,
    nm: Vec<u8>,
) -> (r: Result<(), RebuildError>)
    requires
        build_inv(old(entries)@, n@, *old(foc) as int, *old(fcur) as int, alignment as int,
            base as int),
        node matches FsEntry::File { .. },
        old(entries)@.len() + node_count(*node) <= block_end@ <= n@,
        parent < old(entries)@.len(),
        old(entries)@[parent as int] is Directory,
        entry_next(old(entries)@, parent as int) >= block_end@,
        forall|k: int| parent < k < old(entries)@.len()
            ==> #[trigger] entry_next(old(entries)@, k) <= old(entries)@.len(),
        forall|t: int| 0 <= t < old(entries)@.len()
            ==> (#[trigger] entry_next(old(entries)@, t)) > old(entries)@.len()
                ==> entry_next(old(entries)@, t) >= block_end@,
        node_names_ok(*node),
        nm@ == node_name(*node),
        nm@.len() < 0x1000000,
        *old(foc) < 0x1000000,
        path@ == (if parent == 0 { Seq::<u8>::empty() } else {
            path_of(old(entries)@, parent as int)
        }) + seq![SEPARATOR] + nm@,
    ensures
        r matches Ok(_) ==> {
            let i = old(entries)@.len() as int;
            let i2 = final(entries)@.len() as int;
            &&& build_inv(final(entries)@, n@, *final(foc) as int, *final(fcur) as int,
                alignment as int, base as int)
            &&& i2 == i + node_count(*node)
            &&& forall|t: int| 0 <= t < i ==> final(entries)@[t] == old(entries)@[t]
            &&& forall|t: int| i <= t < i2
                ==> #[trigger] entry_next(final(entries)@, t) <= i2
            &&& entry_paths(final(entries)@, i, i2) == node_path_list(
                if parent == 0 { Seq::<u8>::empty() } else { path_of(old(entries)@, parent as int) },
                *node,
            )
            &&& entry_shapes(final(entries)@, i, i2) == node_shape_list(*node)
            &&& *final(foc) == *old(foc) + node_names_len(*node)
            &&& *final(fcur) == *old(fcur) + node_aligned_total(*node, alignment as int)
        },
        r matches Err(e) ==> (e == RebuildError::FileTooLarge
            || e == RebuildError::OffsetTooLarge),
        node_fits(*node, *old(foc) as int, *old(fcur) as int, alignment as int) ==> r is Ok,
{
    let i = entries.len();
    let ghost pre = entries@;
    let ghost prefix = if parent == 0 { Seq::<u8>::empty() } else { path_of(pre, parent as int) };
    let size: usize = match node {
        FsEntry::File { size, .. } => *size,
        FsEntry::Dir { .. } => vstd::pervasive::unreached(),
    };
    if size > 0xFFFFFFFF {
        proof {
            assert(!node_sizes_fit(*node));
        }
        return Err(RebuildError::FileTooLarge);
    }
    if *fcur > 0xFFFFFFFF {
        proof {
            crate::lemma_align_bounds(size as int, alignment as int);
            assert(node_aligned_total(*node, alignment as int) >= 0);
        }
        return Err(RebuildError::OffsetTooLarge);
    }
    let e = Entry::File(FileEntry {
        info: EntryInfo {
            index: i,
            name: nm,
            filename_offset: *foc,
            directory_index: Some(parent),
            full_path: path,
        },
        file_offset: *fcur,
        size,
    });
    let ghost nmv = entry_info(&e).name@;
    entries.push(e);
    proof {
        lemma_push_step(pre, entries@, n@, *foc as int, *fcur as int,
            alignment as int, base as int, parent as int, block_end@, prefix);
    }
    let nmlen: usize = match &entries[i] {
        Entry::File(f) => f.info.name.len(),
        Entry::Directory(_) => vstd::pervasive::unreached(),
    };
    *foc = *foc + (nmlen as u64) + 1;
    *fcur = *fcur + align(size as u64, alignment);
    proof {
        let post = entries@;
        let iv = i as int;
        assert(entry_paths(post, iv + 1, iv + 1) =~= Seq::<Seq<u8>>::empty());
        assert(entry_paths(post, iv, iv + 1)
            =~= seq![entry_info(&post[iv]).full_path@]);
        assert(entry_info(&post[iv]).full_path@ == prefix + seq![SEPARATOR] + nmv);
        assert(entry_paths(post, iv, iv + 1) =~= node_path_list(prefix, *node));
        assert(entry_shapes(post, iv + 1, iv + 1) =~= Seq::<(bool, int)>::empty());
        assert(entry_shapes(post, iv, iv + 1) =~= node_shape_list(*node));
        assert(nmv == nm@);
    }
    Ok(())
}

/// Append the entries for `node` (and, for a directory, its whole
/// subtree): the next free index, string-table cursor and file-data cursor
/// advance exactly by what the node contributes, and the new entries'
/// paths are the node's paths under its parent's path.
#[verifier::rlimit(100)]
#[verifier::spinoff_prover]
fn add_node(
    node: &FsEntry,
    entries: &mut Vec<Entry>,
    foc: &mut u64,
    fcur: &mut u64,
    parent: usize,
    alignment: u64,
    base: u64,
    n: Ghost<int>,
    block_end: Ghost<int>,
) -> (r: Result<(), RebuildError>)
    requires
        build_inv(old(entries)@, n@, *old(foc) as int, *old(fcur) as int, alignment as int,
            base as int),
        old(entries)@.len() + node_count(*node) <= block_end@ <= n@,
        parent < old(entries)@.len(),
        old(entries)@[parent as int] is Directory,
        entry_next(old(entries)@, parent as int) >= block_end@,
        forall|k: int| parent < k < old(entries)@.len()
            ==> #[trigger] entry_next(old(entries)@, k) <= old(entries)@.len(),
        forall|t: int| 0 <= t < old(entries)@.len()
            ==> (#[trigger] entry_next(old(entries)@, t)) > old(entries)@.len()
                ==> entry_next(old(entries)@, t) >= block_end@,
        node_names_ok(*node),
        !spec_ignored(node_name(*node)),
    ensures
        r matches Ok(_) ==> {
            let i = old(entries)@.len() as int;
            let i2 = final(entries)@.len() as int;
            &&& build_inv(final(entries)@, n@, *final(foc) as int, *final(fcur) as int,
                alignment as int, base as int)
            &&& i2 == i + node_count(*node)
            &&& forall|t: int| 0 <= t < i ==> final(entries)@[t] == old(entries)@[t]
            &&& forall|t: int| i <= t < i2
                ==> #[trigger] entry_next(final(entries)@, t) <= i2
            &&& entry_paths(final(entries)@, i, i2) == node_path_list(
                if parent == 0 { Seq::<u8>::empty() } else { path_of(old(entries)@, parent as int) },
                *node,
            )
            &&& entry_shapes(final(entries)@, i, i2) == node_shape_list(*node)
            &&& *final(foc) == *old(foc) + node_names_len(*node)
            &&& *final(fcur) == *old(fcur) + node_aligned_total(*node, alignment as int)
        },
        r matches Err(e) ==> (e == RebuildError::NameTableTooLarge
            || e == RebuildError::FileTooLarge || e == RebuildError::OffsetTooLarge),
        node_fits(*node, *old(foc) as int, *old(fcur) as int, alignment as int) ==> r is Ok,
    decreases *node,
{
    let i = entries.len();
    let ghost foc0 = *foc;
    let ghost fcur0 = *fcur;
    let ghost fits = node_fits(*node, foc0 as int, fcur0 as int, alignment as int);
    let nm_ref = name_of(node);
    proof {
        lemma_node_names_len_pos(*node);
        assert(node_names_len(*node) >= nm_ref@.len() + 1);
    }
    if *foc >= 0x1000000 {
        return Err(RebuildError::NameTableTooLarge);
    }
    if nm_ref.len() >= 0x1000000 {
        return Err(RebuildError::NameTableTooLarge);
    }
    let base_path: Vec<u8> = if parent == 0 {
        Vec::new()
    } else {
        clone_bytes(&entries[parent].info().full_path)
    };
    let path = join_path(&base_path, nm_ref);
    let nm = clone_bytes(nm_ref);
    let ghost pre = entries@;
    let ghost prefix = if parent == 0 { Seq::<u8>::empty() } else { path_of(pre, parent as int) };
    match node {
        FsEntry::File { .. } => {
            add_file(node, entries, foc, fcur, parent, alignment, base, n, block_end,
                path, nm)
        },
        FsEntry::Dir { name, children } => {
            let cnt = match count_node(node) {
                Ok(v) => v,
                // the subtree fits the table's bounds, so counting cannot
                // overflow
                Err(_) => vstd::pervasive::unreached(),
            };
            proof {
                lemma_node_count_pos(*node);
            }
            let next: usize = i + cnt;
            let e = Entry::Directory(DirectoryEntry {
                info: EntryInfo {
                    index: i,
                    name: nm,
                    filename_offset: *foc,
                    directory_index: Some(parent),
                    full_path: path,
                },
                parent_index: parent,
                next_index: next,
                file_count: 0,
            });
            entries.push(e);
            proof {
                lemma_push_step(pre, entries@, n@, *foc as int, *fcur as int,
                    alignment as int, base as int, parent as int, block_end@, prefix);
            }
            *foc = *foc + (nm_ref.len() as u64) + 1;
            let ghost mid0 = entries@;
            let ghost p = entry_info(&mid0[i as int]).full_path@;
            let mut q: usize = 0;
            proof {
                assert(entry_paths(mid0, i + 1, i + 1) =~= Seq::<Seq<u8>>::empty());
                assert(children_path_list(p, children@, 0)
                    =~= entry_paths(mid0, i + 1, i + 1) + children_path_list(p, children@, 0));
                assert(entry_shapes(mid0, i + 1, i + 1) =~= Seq::<(bool, int)>::empty());
                assert(children_shape_list(children@, 0)
                    =~= entry_shapes(mid0, i + 1, i + 1) + children_shape_list(children@, 0));
                lemma_children_count_nonneg(children@, 0);
                lemma_children_names_len_nonneg(children@, 0);
                lemma_children_aligned_total_nonneg(children@, 0, alignment as int);
            }
            while q < children.len()
                invariant
                    q <= children@.len(),
                    build_inv(entries@, n@, *foc as int, *fcur as int, alignment as int,
                        base as int),
                    entries@.len() == i + 1
                        + (children_count(children@, 0) - children_count(children@, q as int)),
                    forall|t: int| 0 <= t < i + 1 ==> (#[trigger] entries@[t]) == mid0[t],
                    forall|t: int| i + 1 <= t < entries@.len()
                        ==> #[trigger] entry_next(entries@, t) <= entries@.len(),
                    children_path_list(p, children@, 0)
                        == entry_paths(entries@, i + 1, entries@.len() as int)
                            + children_path_list(p, children@, q as int),
                    children_shape_list(children@, 0)
                        == entry_shapes(entries@, i + 1, entries@.len() as int)
                            + children_shape_list(children@, q as int),
                    *foc as int == foc0 + node_name(*node).len() + 1
                        + (children_names_len(children@, 0)
                            - children_names_len(children@, q as int)),
                    *fcur as int == fcur0 + (children_aligned_total(children@, 0, alignment as int)
                        - children_aligned_total(children@, q as int, alignment as int)),
                    fits == node_fits(*node, foc0 as int, fcur0 as int, alignment as int),
                    foc0 == *old(foc),
                    fcur0 == *old(fcur),
                    node_names_len(*node) == node_name(*node).len() + 1
                        + children_names_len(children@, 0),
                    node_aligned_total(*node, alignment as int)
                        == children_aligned_total(children@, 0, alignment as int),
                    foc0 >= 0,
                    fcur0 >= 0,
                    pre.len() == i as int,
                    mid0.len() == i + 1,
                    forall|t: int| 0 <= t < i ==> mid0[t] == #[trigger] pre[t],
                    mid0[i as int] is Directory,
                    entry_next(mid0, i as int) == next as int,
                    next as int == i + 1 + children_count(children@, 0),
                    node_count(*node) == 1 + children_count(children@, 0),
                    i + node_count(*node) <= block_end@ <= n@,
                    forall|t: int| 0 <= t < i
                        ==> ((#[trigger] entry_next(pre, t)) > i
                            ==> entry_next(pre, t) >= block_end@),
                    children_names_ok(children@, 0),
                    entry_info(&mid0[i as int]).full_path@ == p,
                    i >= 1,
                    node is Dir,
                    node->Dir_children == *children,
                decreases children@.len() - q,
            {
                let c = &children[q];
                proof {
                    assert(decreases_to!(*node => node->Dir_children));
                    assert(decreases_to!(*children => children[q as int]));
                    lemma_children_count_nonneg(children@, q + 1);
                    lemma_children_names_len_nonneg(children@, q + 1);
                    lemma_children_aligned_total_nonneg(children@, q + 1, alignment as int);
                    if !spec_ignored(node_name(children@[q as int])) {
                        lemma_node_count_pos(children@[q as int]);
                        lemma_node_names_len_pos(children@[q as int]);
                        lemma_node_aligned_total_nonneg(children@[q as int], alignment as int);
                    }
                }
                let ghost len_before = entries@.len() as int;
                let ghost snap = entries@;
                if !is_file_ignored(name_of(c).as_slice()) {
                    proof {
                        lemma_children_count_mono(children@, 0, q as int);
                        lemma_children_names_ok_at(children@, 0, q as int);
                        if fits {
                            lemma_children_sizes_fit_at(children@, 0, q as int);
                            assert(node_fits(children@[q as int], *foc as int, *fcur as int,
                                alignment as int));
                        }
                        assert(entries@[i as int] == mid0[i as int]);
                        assert forall|t: int| 0 <= t < entries@.len()
                            implies (#[trigger] entry_next(entries@, t)) > entries@.len()
                                ==> entry_next(entries@, t) >= next as int by {
                            if t < i {
                                assert(entries@[t] == mid0[t]);
                                assert(mid0[t] == pre[t]);
                                if entry_next(pre, t) > pre.len() {
                                    assert(entry_next(pre, t) >= block_end@);
                                }
                            }
                        }
                    }
                    let rr = add_node(c, entries, foc, fcur, i, alignment, base, n,
                        Ghost(next as int));
                    match rr {
                        Ok(_) => {},
                        Err(e2) => {
                            proof {
                                assert(!fits);
                            }
                            return Err(e2);
                        },
                    }
                    proof {
                        let now = entries@;
                        let len_now = now.len() as int;
                        assert forall|t: int| 0 <= t < i + 1
                            implies (#[trigger] now[t]) == mid0[t] by {
                            assert(now[t] == snap[t]);
                        }
                        assert(path_of(snap, i as int) == p) by {
                            assert(snap[i as int] == mid0[i as int]);
                        }
                        assert forall|t: int| i + 1 <= t < len_now
                            implies #[trigger] entry_next(now, t) <= len_now by {
                            if t < len_before {
                                assert(now[t] == snap[t]);
                                assert(entry_next(snap, t) <= len_before);
                            }
                        }
                        lemma_entry_paths_grow(snap, now, i + 1, len_before);
                        lemma_entry_paths_concat(now, i + 1, len_before, len_now);
                        assert(children_path_list(p, children@, 0)
                            =~= entry_paths(now, i + 1, len_now)
                                + children_path_list(p, children@, q + 1));
                        lemma_entry_shapes_grow(snap, now, i + 1, len_before);
                        lemma_entry_shapes_concat(now, i + 1, len_before, len_now);
                        assert(children_shape_list(children@, 0)
                            =~= entry_shapes(now, i + 1, len_now)
                                + children_shape_list(children@, q + 1));
                    }
                } else {
                    proof {
                        assert(children_path_list(p, children@, q as int)
                            =~= children_path_list(p, children@, q + 1));
                        assert(children_shape_list(children@, q as int)
                            =~= children_shape_list(children@, q + 1));
                    }
                }
                q = q + 1;
            }
            proof {
                lemma_close_dir(entries@, *node, p, prefix, i as int, entries@.len() as int);
                let fin = entries@;
                let i2 = fin.len() as int;
                assert(children_shape_list(children@, children@.len() as int)
                    =~= Seq::<(bool, int)>::empty());
                assert(children_shape_list(children@, 0)
                    =~= entry_shapes(fin, i + 1, i2));
                lemma_entry_shapes_concat(fin, i as int, i + 1, i2);
                assert(entry_shapes(fin, i + 1, i + 1) =~= Seq::<(bool, int)>::empty());
                assert(fin[i as int] == mid0[i as int]);
                assert(entry_shapes(fin, i as int, i + 1) =~= seq![(false, 0int)]);
                assert(entry_shapes(fin, i as int, i2) =~= node_shape_list(*node));
                assert(children_names_len(children@, children@.len() as int) == 0);
                assert(children_aligned_total(children@, children@.len() as int,
                    alignment as int) == 0);
            }
            Ok(())
        },
    }
}

/// Paths are untouched by the `file_count` fixup.
proof fn lemma_entry_paths_shape(s1: Seq<Entry>, s2: Seq<Entry>, lo: int, hi: int)
    requires
        s1.len() == s2.len(),
        0 <= lo,
        hi <= s1.len(),
        forall|k: int| 0 <= k < s1.len() ==> same_shape(#[trigger] s1[k], s2[k]),
    ensures
        entry_paths(s1, lo, hi) == entry_paths(s2, lo, hi),
    decreases hi - lo,
{
    if lo < hi {
        lemma_shape_pointwise(s1, s2, lo);
        lemma_entry_paths_shape(s1, s2, lo + 1, hi);
    }
}

/// Filling in the directories' `file_count` fields turns a fully built
/// table into a well-formed, canonical one with the same paths and
/// offsets.
#[verifier::rlimit(100)]
#[verifier::spinoff_prover]
proof fn lemma_build_fixup(
    s1: Seq<Entry>,
    s2: Seq<Entry>,
    n: int,
    foc: int,
    fcur: int,
    m: int,
    base: int,
)
    requires
        build_inv(s1, n, foc, fcur, m, base),
        s1.len() == n,
        s2.len() == n,
        forall|t: int| 0 <= t < n ==> same_shape(#[trigger] s1[t], s2[t]),
        forall|t: int| 0 <= t < n
            ==> match #[trigger] s2[t] {
                Entry::Directory(d) => d.file_count == count_direct_files(s1, t, n),
                Entry::File(_) => true,
            },
    ensures
        wf_entries(s2),
        canonical_names(s2),
        names_total(s2, n) == foc,
        spec_total_files(s2, n) == spec_total_files(s1, n),
        spec_total_size(s2, n) == spec_total_size(s1, n),
        entry_paths(s2, 1, n) == entry_paths(s1, 1, n),
        forall|t: int| 0 <= t < n
            ==> match #[trigger] s2[t] {
                Entry::File(f) => f.file_offset as int == base + prefix_aligned_sum(s2, t, m),
                Entry::Directory(_) => true,
            },
{
    lemma_shape_pointwise(s1, s2, 0);
    assert forall|i2: int| 0 <= i2 < n
        implies (#[trigger] entry_info(&s2[i2]).index) == i2 by {
        lemma_shape_pointwise(s1, s2, i2);
        assert(entry_info(&s1[i2]).index == i2);
    }
    assert forall|i2: int| 0 <= i2 < n
        implies i2 < #[trigger] entry_next(s2, i2) <= n by {
        lemma_shape_pointwise(s1, s2, i2);
        assert(i2 < entry_next(s1, i2) <= n);
    }
    assert forall|i2: int, j2: int|
        0 <= i2 < j2 < n && j2 < #[trigger] entry_next(s2, i2)
        implies #[trigger] entry_next(s2, j2) <= entry_next(s2, i2) by {
        lemma_shape_pointwise(s1, s2, i2);
        lemma_shape_pointwise(s1, s2, j2);
        assert(entry_next(s1, j2) <= entry_next(s1, i2));
    }
    assert forall|j: int| 1 <= j < n
        implies {
            let di = #[trigger] entry_info(&s2[j]).directory_index;
            di matches Some(q) && is_parent(s2, q as int, j)
        } by {
        lemma_shape_pointwise(s1, s2, j);
        let di = entry_info(&s1[j]).directory_index;
        assert(di matches Some(q) && is_parent(s1, q as int, j));
        match di {
            Some(q) => {
                lemma_shape_pointwise(s1, s2, q as int);
                assert forall|k: int| q < k < j
                    implies #[trigger] entry_next(s2, k) <= j by {
                    lemma_shape_pointwise(s1, s2, k);
                }
            },
            None => {},
        }
    }
    assert forall|j: int, k: int|
        0 <= j < n && 0 <= k < entry_info(&s2[j]).name@.len()
        implies #[trigger] entry_info(&s2[j]).name@[k] != 0 by {
        lemma_shape_pointwise(s1, s2, j);
        assert(entry_info(&s1[j]).name@[k] != 0);
    }
    assert forall|j: int| 0 <= j < n
        implies (#[trigger] entry_info(&s2[j]).full_path@) == path_of(s2, j) by {
        lemma_shape_pointwise(s1, s2, j);
        lemma_shape_path(s1, s2, j);
    }
    assert forall|i2: int| 0 <= i2 < n
        implies match #[trigger] s2[i2] {
            Entry::Directory(d) => d.file_count == count_direct_files(s2, i2, n),
            Entry::File(_) => true,
        } by {
        lemma_shape_counts(s1, s2, i2, n);
    }
    assert forall|i2: int| 0 <= i2 < n implies entry_fields_fit(&#[trigger] s2[i2]) by {
        lemma_shape_pointwise(s1, s2, i2);
        assert(entry_fields_fit(&s1[i2]));
    }
    assert(wf_entries(s2));
    assert forall|j: int| 1 <= j < n
        implies (#[trigger] entry_info(&s2[j]).filename_offset) as int
            == names_total(s2, j) by {
        lemma_shape_pointwise(s1, s2, j);
        lemma_shape_counts(s1, s2, 0, j);
        assert(entry_info(&s1[j]).filename_offset as int == names_total(s1, j));
    }
    lemma_shape_counts(s1, s2, 0, n);
    lemma_entry_paths_shape(s1, s2, 1, n);
    assert forall|t: int| 0 <= t < n
        implies match #[trigger] s2[t] {
            Entry::File(f) => f.file_offset as int == base + prefix_aligned_sum(s2, t, m),
            Entry::Directory(_) => true,
        } by {
        lemma_shape_pointwise(s1, s2, t);
        lemma_aligned_sum_shape(s1, s2, t, m);
    }
}

/// The bounds under which the rebuilder owes a table: the entry count
/// fits the count fields, every name offset fits the 3-byte field, every
/// file size and aligned file offset fits its 4-byte field, and the
/// serialized table's byte size fits the machine.
pub open spec fn rebuild_fits(root: FsEntry, base: int, m: int) -> bool {
    &&& node_count(root) <= 0xFFFFFFFF
    &&& node_fits(root, 0, base, m)
    &&& 12 * node_count(root) + node_names_len(root) <= usize::MAX
}

/// Rebuild a whole table from a scanned tree: assign every index, subtree
/// range, canonical name offset, direct-file count and aligned absolute
/// file offset (file data starts at `file_data_offset`). The result is
/// well-formed and canonical, its entries' full paths are exactly the
/// scanned tree's paths in depth-first order, and each entry's kind and
/// file size are the scanned node's. Inside the format's bounds, success
/// is guaranteed.
#[verifier::rlimit(100)]
#[verifier::spinoff_prover]
pub fn rebuild_fst(root: &FsEntry, alignment: u64, file_data_offset: u64)
    -> (r: Result<FST, RebuildError>)
    requires
        root is Dir,
        node_names_ok(*root),
        0 < alignment <= 0x100000000,
        file_data_offset <= 0xFFFFFFFF,
    ensures
        r matches Ok(fst) ==> {
            &&& fst.wf()
            &&& canonical_names(fst.entries@)
            &&& fst.entries@.len() == node_count(*root)
            &&& entry_info(&fst.entries@[0]).filename_offset == 0
            &&& fst.offset == 0
            &&& entry_paths(fst.entries@, 1, fst.entries@.len() as int)
                == children_path_list(Seq::<u8>::empty(), root->Dir_children@, 0)
            &&& entry_shapes(fst.entries@, 1, fst.entries@.len() as int)
                == children_shape_list(root->Dir_children@, 0)
            &&& forall|t: int| 0 <= t < fst.entries@.len()
                ==> match #[trigger] fst.entries@[t] {
                    Entry::File(f) => f.file_offset as int
                        == file_data_offset + prefix_aligned_sum(fst.entries@, t, alignment as int),
                    Entry::Directory(_) => true,
                }
        },
        r matches Err(e) ==> (e == RebuildError::TooManyEntries
            || e == RebuildError::NameTableTooLarge || e == RebuildError::FileTooLarge
            || e == RebuildError::OffsetTooLarge),
        rebuild_fits(*root, file_data_offset as int, alignment as int) ==> r is Ok,
{
    let ghost fits = rebuild_fits(*root, file_data_offset as int, alignment as int);
    proof {
        lemma_node_names_len_pos(*root);
        lemma_node_aligned_total_nonneg(*root, alignment as int);
    }
    let cnt = match count_node(root) {
        Ok(v) => v,
        Err(e) => {
            proof {
                assert(node_count(*root) > usize::MAX);
            }
            return Err(e);
        },
    };
    if cnt > 0xFFFFFFFF {
        return Err(RebuildError::TooManyEntries);
    }
    let n: usize = cnt;
    proof {
        lemma_node_count_pos(*root);
    }
    let mut rootname: Vec<u8> = Vec::new();
    rootname.push(SEPARATOR);
    let mut rootpath: Vec<u8> = Vec::new();
    rootpath.push(SEPARATOR);
    let root_e = Entry::Directory(DirectoryEntry {
        info: EntryInfo {
            index: 0,
            name: rootname,
            filename_offset: 0,
            directory_index: None,
            full_path: rootpath,
        },
        parent_index: 0,
        next_index: n,
        file_count: 0,
    });
    let mut entries: Vec<Entry> = Vec::new();
    entries.push(root_e);
    let mut foc: u64 = 0;
    let mut fcur: u64 = file_data_offset;
    proof {
        assert(entry_info(&entries@[0]).name@ =~= seq![SEPARATOR]);
        assert(entry_info(&entries@[0]).full_path@ =~= seq![SEPARATOR]);
        assert(names_total(entries@, 1) == 0);
        assert(prefix_aligned_sum(entries@, 0, alignment as int) == 0);
        assert(prefix_aligned_sum(entries@, 1, alignment as int) == 0);
        assert(build_inv(entries@, n as int, 0, file_data_offset as int,
            alignment as int, file_data_offset as int));
    }
    let children: &Vec<FsEntry> = match root {
        FsEntry::Dir { children, .. } => children,
        FsEntry::File { .. } => vstd::pervasive::unreached(),
    };
    let ghost base0 = entries@;
    let mut q: usize = 0;
    proof {
        assert(entry_paths(base0, 1, 1) =~= Seq::<Seq<u8>>::empty());
        assert(children_path_list(Seq::<u8>::empty(), children@, 0)
            =~= entry_paths(base0, 1, 1) + children_path_list(Seq::<u8>::empty(), children@, 0));
        assert(entry_shapes(base0, 1, 1) =~= Seq::<(bool, int)>::empty());
        assert(children_shape_list(children@, 0)
            =~= entry_shapes(base0, 1, 1) + children_shape_list(children@, 0));
        lemma_children_count_nonneg(children@, 0);
        lemma_children_names_len_nonneg(children@, 0);
        lemma_children_aligned_total_nonneg(children@, 0, alignment as int);
    }
    while q < children.len()
        invariant
            q <= children@.len(),
            build_inv(entries@, n as int, foc as int, fcur as int, alignment as int,
                file_data_offset as int),
            entries@.len() == 1
                + (children_count(children@, 0) - children_count(children@, q as int)),
            entries@[0] == base0[0],
            forall|t: int| 1 <= t < entries@.len()
                ==> #[trigger] entry_next(entries@, t) <= entries@.len(),
            children_path_list(Seq::<u8>::empty(), children@, 0)
                == entry_paths(entries@, 1, entries@.len() as int)
                    + children_path_list(Seq::<u8>::empty(), children@, q as int),
            children_shape_list(children@, 0)
                == entry_shapes(entries@, 1, entries@.len() as int)
                    + children_shape_list(children@, q as int),
            foc as int == children_names_len(children@, 0)
                - children_names_len(children@, q as int),
            fcur as int == file_data_offset
                + (children_aligned_total(children@, 0, alignment as int)
                    - children_aligned_total(children@, q as int, alignment as int)),
            fits == rebuild_fits(*root, file_data_offset as int, alignment as int),
            node_names_len(*root) == node_name(*root).len() + 1
                + children_names_len(children@, 0),
            node_aligned_total(*root, alignment as int)
                == children_aligned_total(children@, 0, alignment as int),
            n as int == 1 + children_count(children@, 0),
            node_count(*root) == 1 + children_count(children@, 0),
            root is Dir,
            root->Dir_children == *children,
            children_names_ok(children@, 0),
            0 < alignment <= 0x100000000,
            file_data_offset <= 0xFFFFFFFF,
        decreases children@.len() - q,
    {
        let c = &children[q];
        proof {
            assert(decreases_to!(*root => root->Dir_children));
            assert(decreases_to!(*children => children[q as int]));
            lemma_children_count_nonneg(children@, q + 1);
            lemma_children_names_len_nonneg(children@, q + 1);
            lemma_children_aligned_total_nonneg(children@, q + 1, alignment as int);
            if !spec_ignored(node_name(children@[q as int])) {
                lemma_node_count_pos(children@[q as int]);
                lemma_node_names_len_pos(children@[q as int]);
                lemma_node_aligned_total_nonneg(children@[q as int], alignment as int);
            }
        }
        let ghost len_before = entries@.len() as int;
        let ghost snap = entries@;
        if !is_file_ignored(name_of(c).as_slice()) {
            proof {
                lemma_children_count_mono(children@, 0, q as int);
                lemma_children_names_ok_at(children@, 0, q as int);
                if fits {
                    lemma_children_sizes_fit_at(children@, 0, q as int);
                    assert(node_fits(children@[q as int], foc as int, fcur as int,
                        alignment as int));
                }
            }
            let rr = add_node(c, &mut entries, &mut foc, &mut fcur, 0, alignment,
                file_data_offset, Ghost(n as int), Ghost(n as int));
            match rr {
                Ok(_) => {},
                Err(e2) => {
                    proof {
                        assert(!fits);
                    }
                    return Err(e2);
                },
            }
            proof {
                let now = entries@;
                let len_now = now.len() as int;
                assert(now[0] == snap[0]);
                assert forall|t: int| 1 <= t < len_now
                    implies #[trigger] entry_next(now, t) <= len_now by {
                    if t < len_before {
                        assert(now[t] == snap[t]);
                        assert(entry_next(snap, t) <= len_before);
                    }
                }
                lemma_entry_paths_grow(snap, now, 1, len_before);
                lemma_entry_paths_concat(now, 1, len_before, len_now);
                assert(children_path_list(Seq::<u8>::empty(), children@, 0)
                    =~= entry_paths(now, 1, len_now)
                        + children_path_list(Seq::<u8>::empty(), children@, q + 1));
                lemma_entry_shapes_grow(snap, now, 1, len_before);
                lemma_entry_shapes_concat(now, 1, len_before, len_now);
                assert(children_shape_list(children@, 0)
                    =~= entry_shapes(now, 1, len_now)
                        + children_shape_list(children@, q + 1));
            }
        } else {
            proof {
                assert(children_path_list(Seq::<u8>::empty(), children@, q as int)
                    =~= children_path_list(Seq::<u8>::empty(), children@, q + 1));
                assert(children_shape_list(children@, q as int)
                    =~= children_shape_list(children@, q + 1));
            }
        }
        q = q + 1;
    }
    proof {
        assert(children_count(children@, children@.len() as int) == 0);
        assert(entries@.len() == n);
        assert(children_path_list(Seq::<u8>::empty(), children@, children@.len() as int)
            =~= Seq::<Seq<u8>>::empty());
        assert(children_path_list(Seq::<u8>::empty(), children@, 0)
            =~= entry_paths(entries@, 1, n as int));
        assert(children_shape_list(children@, children@.len() as int)
            =~= Seq::<(bool, int)>::empty());
        assert(children_shape_list(children@, 0)
            =~= entry_shapes(entries@, 1, n as int));
        assert(children_names_len(children@, children@.len() as int) == 0);
        assert(foc as int == children_names_len(children@, 0));
    }

    // second pass: per-directory direct-file counts and the global tallies
    let ghost mid = entries@;
    let mut counts: Vec<usize> = Vec::new();
    let mut z: usize = 0;
    while z < n
        invariant
            z <= n,
            counts@.len() == z,
            forall|d: int| 0 <= d < z ==> #[trigger] counts@[d] == 0,
        decreases n - z,
    {
        counts.push(0);
        z = z + 1;
    }
    let mut file_cnt: usize = 0;
    let mut total_sz: u64 = 0;
    let mut t: usize = 0;
    proof {
        assert forall|d: int| 0 <= d < n
            implies #[trigger] counts@[d] == count_direct_files(mid, d, 0) by {
        }
    }
    while t < n
        invariant
            t <= n,
            n == mid.len(),
            entries@ == mid,
            n <= 0xFFFFFFFF,
            counts@.len() == n,
            forall|d: int| 0 <= d < n
                ==> #[trigger] counts@[d] == count_direct_files(mid, d, t as int),
            forall|d: int| 0 <= d < n ==> #[trigger] counts@[d] <= t,
            file_cnt as int == spec_total_files(mid, t as int),
            file_cnt <= t,
            total_sz as int == spec_total_size(mid, t as int),
            total_sz as int <= (t as int) * 0xFFFFFFFF,
            forall|j: int| 1 <= j < n
                ==> {
                    let di = #[trigger] entry_info(&mid[j]).directory_index;
                    di matches Some(p) && is_parent(mid, p as int, j)
                },
            forall|j: int| 0 <= j < n ==> entry_fields_fit(&#[trigger] mid[j]),
            mid.len() >= 1 && mid[0] is Directory,
        decreases n - t,
    {
        let ghost pre_counts = counts@;
        match &entries[t] {
            Entry::File(f) => {
                let p = match f.info.directory_index {
                    Some(p) => p,
                    None => vstd::pervasive::unreached(),
                };
                let cp: usize = counts[p];
                counts.set(p, cp + 1);
                file_cnt = file_cnt + 1;
                total_sz = total_sz + (f.size as u64);
            },
            Entry::Directory(_) => {},
        }
        proof {
            assert forall|d: int| 0 <= d < n
                implies #[trigger] counts@[d] == count_direct_files(mid, d, t + 1) by {
                assert(pre_counts[d] == count_direct_files(mid, d, t as int));
            }
        }
        t = t + 1;
    }

    // third pass: write the counts into the directory entries
    let mut j: usize = 0;
    while j < n
        invariant
            entries@.len() == n,
            counts@.len() == n,
            n == mid.len(),
            forall|t2: int| 0 <= t2 < n ==> same_shape(#[trigger] mid[t2], entries@[t2]),
            forall|t2: int| 0 <= t2 < j
                ==> match #[trigger] entries@[t2] {
                    Entry::Directory(d) => d.file_count == count_direct_files(mid, t2, n as int),
                    Entry::File(_) => true,
                },
            forall|t2: int| 0 <= t2 < n
                ==> #[trigger] counts@[t2] == count_direct_files(mid, t2, n as int),
        decreases n - j,
    {
        let is_d = entries[j].is_dir();
        if is_d {
            let mut tmp: Entry = Entry::File(FileEntry {
                info: EntryInfo {
                    index: 0,
                    name: Vec::new(),
                    filename_offset: 0,
                    directory_index: None,
                    full_path: Vec::new(),
                },
                file_offset: 0,
                size: 0,
            });
            entries.set_and_swap(j, &mut tmp);
            let cj: usize = counts[j];
            let fixed: Entry = match tmp {
                Entry::Directory(d) => Entry::Directory(DirectoryEntry {
                    info: d.info,
                    parent_index: d.parent_index,
                    next_index: d.next_index,
                    file_count: cj,
                }),
                Entry::File(_) => vstd::pervasive::unreached(),
            };
            entries.set(j, fixed);
        }
        j = j + 1;
    }

    let size64: u64 = 12 * (n as u64) + foc;
    if size64 > (usize::MAX as u64) {
        proof {
            assert(node_names_len(*root) >= 1 + children_names_len(children@, 0));
            assert(!fits);
        }
        return Err(RebuildError::TooManyEntries);
    }
    proof {
        let fin = entries@;
        let nn = n as int;
        lemma_build_fixup(mid, fin, nn, foc as int, fcur as int, alignment as int,
            file_data_offset as int);
        lemma_canonical_extent(fin, nn);
        lemma_entry_shapes_shape(mid, fin, 1, nn);
    }
    let fst = FST {
        offset: 0,
        file_count: file_cnt,
        total_file_system_size: total_sz,
        entries,
        size: size64 as usize,
    };
    Ok(fst)
}

/// Tables with the same observable content list the same full paths.
proof fn lemma_agree_entry_paths(ea: Seq<Entry>, eb: Seq<Entry>, lo: int, hi: int)
    requires
        crate::fst::tables_agree(ea, eb),
        0 <= lo,
        hi <= ea.len(),
    ensures
        entry_paths(ea, lo, hi) == entry_paths(eb, lo, hi),
    decreases hi - lo,
{
    if lo < hi {
        assert(crate::fst::entries_agree(&ea[lo], &eb[lo]));
        lemma_agree_entry_paths(ea, eb, lo + 1, hi);
    }
}

/// The round trip, end to end: serialize a rebuilt (well-formed,
/// canonical) table and parse the bytes back, and the parsed table lists
/// exactly the same full paths in the same order — together with the
/// rebuilder's own contract, exactly the relative paths of the scanned
/// tree. The parse cannot fail on such bytes: the writer's output always
/// matches the table it came from, so the parser's error condition (that
/// no well-formed table matches) is impossible.
pub proof fn lemma_rebuild_write_parse_roundtrip(built: Seq<Entry>, parsed: Seq<Entry>)
    requires
        wf_entries(built),
        canonical_names(built),
        wf_entries(parsed),
        crate::fst::table_matches(crate::fst::table_bytes(built), 0, parsed),
    ensures
        crate::fst::tables_agree(parsed, built),
        entry_paths(parsed, 1, parsed.len() as int)
            == entry_paths(built, 1, built.len() as int),
{
    crate::fst::lemma_table_bytes_matches(built);
    crate::fst::lemma_table_unique(crate::fst::table_bytes(built), 0, parsed, built);
    lemma_agree_entry_paths(parsed, built, 1, parsed.len() as int);
}

/// The aligned offset chain of a rebuilt image: the table follows the
/// apploader, the executable follows the table, and file data follows the
/// executable, each rounded up to the alignment.
pub fn layout_offsets(apploader_size: u64, fst_size: u64, dol_size: u64, alignment: u64)
    -> (r: (u64, u64, u64))
    requires
        0 < alignment <= 0x100000000,
        apploader_size < 0x100000000,
        fst_size < 0x100000000,
        dol_size < 0x100000000,
    ensures
        r.0 == spec_align(0x2440 + apploader_size, alignment as int),
        r.1 == spec_align(r.0 + fst_size, alignment as int),
        r.2 == spec_align(r.1 + dol_size, alignment as int),
{
    let fst_offset = align(0x2440 + apploader_size, alignment);
    let dol_offset = align(fst_offset + fst_size, alignment);
    let file_data_offset = align(dol_offset + dol_size, alignment);
    (fst_offset, dol_offset, file_data_offset)
}

/// One content source of the final image: where its bytes start and how
/// many there are; `path` names the file that holds them.
#[derive(Debug)]
pub struct RomSection {
    pub offset: u64,
    pub size: u64,
    /// Path bytes of the source file, for the writer.
    pub path: Vec<u8>,
}

/// Where the content of the first `n` sections ends: the end of the last
/// non-empty one among them (empty sections occupy no bytes).
pub open spec fn content_end(secs: Seq<RomSection>, n: int) -> int
    decreases n,
{
    if n <= 0 {
        0
    } else if secs[n - 1].size > 0 {
        secs[n - 1].offset + secs[n - 1].size
    } else {
        content_end(secs, n - 1)
    }
}

/// Bytes the plan has emitted after the first `n` sections: for each
/// non-empty section, its padding gap then its content (empty sections
/// write nothing).
pub open spec fn planned_size(secs: Seq<RomSection>, pads: Seq<u64>, n: int) -> int
    decreases n,
{
    if n <= 0 {
        0
    } else {
        planned_size(secs, pads, n - 1) + if secs[n - 1].size > 0 {
            pads[n - 1] + secs[n - 1].size
        } else {
            0int
        }
    }
}

/// The serialization plan for a whole image: zero padding before each
/// section, the section bytes, and a zero tail filling the image to its
/// exact fixed capacity.
#[derive(Debug)]
pub struct ROMRebuilder {
    /// The content sources, ascending by offset.
    pub sections: Vec<RomSection>,
    /// Zero bytes to write before each section.
    pub pads: Vec<u64>,
    /// Zero bytes to write after the last section.
    pub tail_pad: u64,
}

impl ROMRebuilder {
    /// Plan the image. The sections are first sorted ascending by offset
    /// (the caller may hand them in any order); then each non-empty
    /// section lands exactly at its offset, nothing overlaps, and the
    /// total is exactly the disc capacity. Failure says why: two content
    /// regions claim the same bytes, or a region runs past the capacity
    /// (a smaller alignment may help with the latter).
    pub fn rebuild(sections: Vec<RomSection>) -> (r: Result<ROMRebuilder, RebuildError>)
        ensures
            match r {
                Ok(rb) => {
                    let secs = rb.sections@;
                    let pads = rb.pads@;
                    &&& secs.to_multiset() == sections@.to_multiset()
                    &&& forall|i: int, j: int| 0 <= i < j < secs.len()
                        ==> (#[trigger] secs[i]).offset <= (#[trigger] secs[j]).offset
                    &&& pads.len() == secs.len()
                    &&& forall|i: int| 0 <= i < secs.len() && (#[trigger] secs[i]).size > 0
                        ==> planned_size(secs, pads, i) + pads[i] == secs[i].offset
                    &&& planned_size(secs, pads, secs.len() as int) + rb.tail_pad
                        == crate::ROM_SIZE
                },
                Err(e) => {
                    &&& (e == RebuildError::CapacityExceeded
                        || e == RebuildError::RegionsOverlap)
                    &&& e == RebuildError::CapacityExceeded
                        ==> exists|i: int|
                            0 <= i < sections@.len() && (#[trigger] sections@[i]).size > 0
                                && sections@[i].offset + sections@[i].size > crate::ROM_SIZE
                    &&& e == RebuildError::RegionsOverlap
                        ==> exists|i: int, j: int|
                            0 <= i < sections@.len() && 0 <= j < sections@.len() && i != j
                                && (#[trigger] sections@[i]).size > 0
                                && (#[trigger] sections@[j]).size > 0
                                && sections@[i].offset
                                    < sections@[j].offset + sections@[j].size
                                && sections@[j].offset
                                    < sections@[i].offset + sections@[i].size
                },
            },
    {
        broadcast use vstd::seq_lib::group_to_multiset_ensures;

        let ghost orig = sections@;
        // sort ascending by offset, as the layout's serialization order
        // demands
        let mut src = sections;
        let mut srt: Vec<RomSection> = Vec::new();
        proof {
            assert(srt@.to_multiset().add(src@.to_multiset()) =~= orig.to_multiset());
        }
        while src.len() > 0
            invariant
                srt@.to_multiset().add(src@.to_multiset()) == orig.to_multiset(),
                srt@.len() + src@.len() == orig.len(),
                forall|a: int, b: int| 0 <= a < b < srt@.len()
                    ==> (#[trigger] srt@[a]).offset <= (#[trigger] srt@[b]).offset,
                forall|a: int, b: int|
                    0 <= a < srt@.len() && 0 <= b < src@.len()
                        ==> (#[trigger] srt@[a]).offset <= (#[trigger] src@[b]).offset,
            decreases src@.len(),
        {
            let mut mi: usize = 0;
            let mut k: usize = 1;
            while k < src.len()
                invariant
                    src@.len() > 0,
                    mi < k <= src@.len(),
                    forall|t: int| 0 <= t < k
                        ==> src@[mi as int].offset <= (#[trigger] src@[t]).offset,
                decreases src@.len() - k,
            {
                if src[k].offset < src[mi].offset {
                    mi = k;
                }
                k = k + 1;
            }
            let ghost pre_src = src@;
            let ghost pre_srt = srt@;
            let x = src.remove(mi);
            srt.push(x);
            proof {
                broadcast use vstd::seq_lib::group_to_multiset_ensures;

                assert(src@.to_multiset() =~= pre_src.to_multiset().remove(x));
                assert(srt@.to_multiset() =~= pre_srt.to_multiset().insert(x));
                assert(srt@.to_multiset().add(src@.to_multiset()) =~= orig.to_multiset());
                assert forall|b: int| 0 <= b < src@.len()
                    implies x.offset <= (#[trigger] src@[b]).offset by {
                    if b < mi {
                        assert(src@[b] == pre_src[b]);
                    } else {
                        assert(src@[b] == pre_src[b + 1]);
                    }
                }
            }
        }

        let mut pads: Vec<u64> = Vec::new();
        let mut written: u64 = 0;
        let mut i: usize = 0;
        while i < srt.len()
            invariant
                orig == sections@,
                srt@.to_multiset() == orig.to_multiset(),
                forall|a: int, b: int| 0 <= a < b < srt@.len()
                    ==> (#[trigger] srt@[a]).offset <= (#[trigger] srt@[b]).offset,
                i <= srt@.len(),
                pads@.len() == i,
                written as int == planned_size(srt@, pads@, i as int),
                written <= crate::ROM_SIZE,
                written == 0 || exists|j0: int|
                    0 <= j0 < i && (#[trigger] srt@[j0]).size > 0
                        && written == srt@[j0].offset + srt@[j0].size,
                forall|t: int| 0 <= t < i && (#[trigger] srt@[t]).size > 0
                    ==> planned_size(srt@, pads@, t) + pads@[t] == srt@[t].offset,
            decreases srt@.len() - i,
        {
            let ghost pre_pads = pads@;
            let s = &srt[i];
            if s.size == 0 {
                pads.push(0);
            } else {
                if s.offset < written {
                    proof {
                        // the previous content already covers this start:
                        // two distinct sections of the input overlap
                        let j0 = choose|j0: int|
                            0 <= j0 < i && (#[trigger] srt@[j0]).size > 0
                                && written == srt@[j0].offset + srt@[j0].size;
                        crate::layout::lemma_multiset_two_indices(orig, srt@, j0, i as int);
                    }
                    return Err(RebuildError::RegionsOverlap);
                }
                if s.offset > crate::ROM_SIZE as u64 {
                    proof {
                        crate::layout::lemma_multiset_index(orig, srt@, i as int);
                    }
                    return Err(RebuildError::CapacityExceeded);
                }
                if s.size > (crate::ROM_SIZE as u64) - s.offset {
                    proof {
                        crate::layout::lemma_multiset_index(orig, srt@, i as int);
                    }
                    return Err(RebuildError::CapacityExceeded);
                }
                let pad = s.offset - written;
                pads.push(pad);
                written = s.offset + s.size;
            }
            proof {
                assert forall|t: int| 0 <= t <= i
                    implies planned_size(srt@, pads@, t)
                        == planned_size(srt@, pre_pads, t) by {
                    lemma_planned_prefix(srt@, pre_pads, pads@, t);
                }
            }
            i = i + 1;
        }
        let tail_pad = (crate::ROM_SIZE as u64) - written;
        Ok(ROMRebuilder { sections: srt, pads, tail_pad })
    }
}

/// The planned size of a prefix only reads the pads of that prefix.
proof fn lemma_planned_prefix(secs: Seq<RomSection>, p1: Seq<u64>, p2: Seq<u64>, n: int)
    requires
        forall|k: int| 0 <= k < n ==> p1[k] == #[trigger] p2[k],
    ensures
        planned_size(secs, p1, n) == planned_size(secs, p2, n),
    decreases n,
{
    if n > 0 {
        lemma_planned_prefix(secs, p1, p2, n - 1);
    }
}

} // verus!
