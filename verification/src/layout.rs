//! The region index over a whole disc image: every byte range that holds
//! content — header, apploader, executable header and segments, table, and
//! each file — sorted by start offset for binary lookup of "what is at
//! byte X".
use vstd::prelude::*;
use vstd::seq_lib::group_to_multiset_ensures;

verus! {

/// What kind of content a region holds.
#[derive(Clone, Copy, Debug, PartialEq, Eq, Structural)]
pub enum SectionType {
    Header,
    Apploader,
    DOLHeader,
    DOLSegment,
    FST,
    File,
}

impl SectionType {
    /// A human-readable name for the section kind.
    pub fn to_str(&self) -> (r: &'static str)
        ensures
            match self {
                SectionType::Header => r@ == "Header"@,
                SectionType::Apploader => r@ == "Apploader"@,
                SectionType::DOLHeader => r@ == "DOL Header"@,
                SectionType::DOLSegment => r@ == "DOL Segment"@,
                SectionType::FST => r@ == "File System Table"@,
                SectionType::File => r@ == "File"@,
            },
    {
        match self {
            SectionType::Header => "Header",
            SectionType::Apploader => "Apploader",
            SectionType::DOLHeader => "DOL Header",
            SectionType::DOLSegment => "DOL Segment",
            SectionType::FST => "File System Table",
            SectionType::File => "File",
        }
    }
}

/// The four sections an image holds exactly once.
#[derive(Clone, Copy, Debug, PartialEq, Eq, Structural)]
pub enum UniqueSectionType {
    Header,
    Apploader,
    DOLHeader,
    FST,
}

impl UniqueSectionType {
    /// A human-readable name for the section kind.
    pub fn to_str(&self) -> (r: &'static str)
        ensures
            match self {
                UniqueSectionType::Header => r@ == "Header"@,
                UniqueSectionType::Apploader => r@ == "Apploader"@,
                UniqueSectionType::DOLHeader => r@ == "DOL Header"@,
                UniqueSectionType::FST => r@ == "File System Table"@,
            },
    {
        match self {
            UniqueSectionType::Header => "Header",
            UniqueSectionType::Apploader => "Apploader",
            UniqueSectionType::DOLHeader => "DOL Header",
            UniqueSectionType::FST => "File System Table",
        }
    }
}

/// One byte range of the image and what it holds.
#[derive(Clone, Copy, Debug)]
pub struct Region {
    pub kind: SectionType,
    /// First byte of the region.
    pub start: u64,
    /// Length in bytes; a zero-length region covers no byte at all.
    pub size: u64,
}

/// Whether byte `o` falls inside the region.
pub open spec fn region_contains(r: Region, o: int) -> bool {
    r.start <= o < r.start + r.size
}

/// Regions in ascending start order.
pub open spec fn regions_sorted(rs: Seq<Region>) -> bool {
    forall|i: int, j: int| 0 <= i < j < rs.len()
        ==> (#[trigger] rs[i]).start <= (#[trigger] rs[j]).start
}

/// Every region ends before any later region begins: no byte belongs to
/// two regions.
pub open spec fn regions_disjoint(rs: Seq<Region>) -> bool {
    forall|i: int, j: int| 0 <= i < j < rs.len()
        ==> (#[trigger] rs[i]).start + rs[i].size <= (#[trigger] rs[j]).start
}

/// No two distinct regions of a disjoint index share a byte: any offset is
/// inside at most one region.
pub proof fn lemma_regions_no_overlap(rs: Seq<Region>, i: int, j: int, o: int)
    requires
        regions_disjoint(rs),
        0 <= i < rs.len(),
        0 <= j < rs.len(),
        i != j,
        region_contains(rs[i], o),
    ensures
        !region_contains(rs[j], o),
{
}

/// Whatever stands at some position of one sequence also stands somewhere
/// in any sequence with the same multiset of elements.
pub proof fn lemma_multiset_index<A>(s1: Seq<A>, s2: Seq<A>, i: int)
    requires
        s1.to_multiset() == s2.to_multiset(),
        0 <= i < s2.len(),
    ensures
        exists|k: int| 0 <= k < s1.len() && s1[k] == s2[i],
{
    broadcast use group_to_multiset_ensures;

    assert(s2.to_multiset().count(s2[i]) > 0) by {
        assert(s2.contains(s2[i]));
    }
    assert(s1.contains(s2[i]));
}

/// A value standing at two positions occurs at least twice in the
/// multiset.
pub proof fn lemma_dup_count<A>(s: Seq<A>, i: int, j: int)
    requires
        0 <= i < j < s.len(),
        s[i] == s[j],
    ensures
        s.to_multiset().count(s[i]) >= 2,
{
    broadcast use group_to_multiset_ensures;

    let v = s[i];
    let s1 = s.remove(i);
    assert(s1.to_multiset() == s.to_multiset().remove(v));
    assert(s1[j - 1] == v);
    assert(s1.contains(v));
    assert(s1.to_multiset().count(v) > 0);
}

/// Two positions of one sequence map to two distinct positions of any
/// sequence with the same multiset of elements.
pub proof fn lemma_multiset_two_indices<A>(s1: Seq<A>, s2: Seq<A>, i: int, j: int)
    requires
        s1.to_multiset() == s2.to_multiset(),
        0 <= i < j < s2.len(),
    ensures
        exists|k1: int, k2: int|
            0 <= k1 < s1.len() && 0 <= k2 < s1.len() && k1 != k2
                && s1[k1] == s2[i] && s1[k2] == s2[j],
{
    broadcast use group_to_multiset_ensures;

    if s2[i] != s2[j] {
        lemma_multiset_index(s1, s2, i);
        lemma_multiset_index(s1, s2, j);
        let k1 = choose|k: int| 0 <= k < s1.len() && s1[k] == s2[i];
        let k2 = choose|k: int| 0 <= k < s1.len() && s1[k] == s2[j];
        assert(k1 != k2);
    } else {
        let v = s2[i];
        lemma_dup_count(s2, i, j);
        assert(s1.to_multiset().count(v) >= 2);
        assert(s1.contains(v));
        let k1 = choose|k: int| 0 <= k < s1.len() && s1[k] == v;
        let r1 = s1.remove(k1);
        assert(r1.to_multiset() == s1.to_multiset().remove(v));
        assert(r1.to_multiset().count(v) >= 1);
        assert(r1.contains(v));
        let m = choose|k: int| 0 <= k < r1.len() && r1[k] == v;
        let k2 = if m < k1 { m } else { m + 1 };
        assert(s1[k2] == v);
        assert(k1 != k2 && s1[k1] == s2[i] && s1[k2] == s2[j]);
    }
}

/// No two content-bearing regions of the image share a byte, stated over
/// the regions in any order.
pub open spec fn regions_nonoverlapping(rs: Seq<Region>) -> bool {
    forall|i: int, j: int|
        0 <= i < rs.len() && 0 <= j < rs.len() && i != j
            ==> (#[trigger] rs[i]).start + rs[i].size <= (#[trigger] rs[j]).start
                || rs[j].start + rs[j].size <= rs[i].start
}

/// Sorting the regions of an image whose content-bearing regions do not
/// overlap yields a disjoint index: with the region multiset pinned by
/// the index constructor, this carries an image-level non-overlap
/// assumption through to the sorted output, where the lookup's
/// at-most-one guarantee applies. Zero-length regions are excluded: they
/// cover no byte and may stand anywhere.
pub proof fn lemma_sorted_permutation_disjoint(rs1: Seq<Region>, rs2: Seq<Region>)
    requires
        regions_nonoverlapping(rs1),
        forall|i: int| 0 <= i < rs1.len() ==> (#[trigger] rs1[i]).size > 0,
        rs2.to_multiset() == rs1.to_multiset(),
        regions_sorted(rs2),
    ensures
        regions_disjoint(rs2),
{
    assert forall|i: int, j: int| 0 <= i < j < rs2.len()
        implies (#[trigger] rs2[i]).start + rs2[i].size <= (#[trigger] rs2[j]).start by {
        lemma_multiset_two_indices(rs1, rs2, i, j);
        let (k1, k2) = choose|k1: int, k2: int|
            0 <= k1 < rs1.len() && 0 <= k2 < rs1.len() && k1 != k2
                && rs1[k1] == rs2[i] && rs1[k2] == rs2[j];
        if rs2[j].start + rs2[j].size <= rs2[i].start {
            // sorted order puts i first, so j would be an empty region
            assert(rs2[j].size == 0);
            assert(rs1[k2].size > 0);
            assert(false);
        }
    }
}

/// The offset-sorted index of every content-bearing region of an image.
#[derive(Debug)]
pub struct ROMLayout {
    pub regions: Vec<Region>,
}

impl ROMLayout {
    /// The index's invariant: regions ascend by start offset.
    pub open spec fn wf(self) -> bool {
        regions_sorted(self.regions@)
    }

    /// Build the index from regions in any order: they come out sorted by
    /// start offset, none lost, none invented.
    pub fn new(list: Vec<Region>) -> (r: ROMLayout)
        ensures
            r.wf(),
            r.regions@.to_multiset() == list@.to_multiset(),
            r.regions@.len() == list@.len(),
    {
        broadcast use group_to_multiset_ensures;

        let ghost orig = list@;
        let mut src = list;
        let mut out: Vec<Region> = Vec::new();
        proof {
            assert(out@.to_multiset().add(src@.to_multiset()) =~= orig.to_multiset());
        }
        while src.len() > 0
            invariant
                out@.to_multiset().add(src@.to_multiset()) == orig.to_multiset(),
                out@.len() + src@.len() == orig.len(),
                regions_sorted(out@),
                forall|a: int, b: int|
                    0 <= a < out@.len() && 0 <= b < src@.len()
                        ==> (#[trigger] out@[a]).start <= (#[trigger] src@[b]).start,
            decreases src@.len(),
        {
            let mut mi: usize = 0;
            let mut k: usize = 1;
            while k < src.len()
                invariant
                    src@.len() > 0,
                    mi < k <= src@.len(),
                    forall|t: int| 0 <= t < k ==> src@[mi as int].start <= (#[trigger] src@[t]).start,
                decreases src@.len() - k,
            {
                if src[k].start < src[mi].start {
                    mi = k;
                }
                k = k + 1;
            }
            let ghost pre_src = src@;
            let ghost pre_out = out@;
            let x = src.remove(mi);
            out.push(x);
            proof {
                broadcast use group_to_multiset_ensures;
                assert(src@.to_multiset() =~= pre_src.to_multiset().remove(x));
                assert(out@.to_multiset() =~= pre_out.to_multiset().insert(x));
                assert(out@.to_multiset().add(src@.to_multiset()) =~= orig.to_multiset());
                assert forall|b: int| 0 <= b < src@.len()
                    implies x.start <= (#[trigger] src@[b]).start by {
                    if b < mi {
                        assert(src@[b] == pre_src[b]);
                    } else {
                        assert(src@[b] == pre_src[b + 1]);
                    }
                }
            }
        }
        ROMLayout { regions: out }
    }

    /// Binary search for the region containing `offset`. When the index is
    /// also disjoint, an empty answer means no region covers that byte —
    /// it falls in zero padding.
    pub fn find_offset(&self, offset: u64) -> (r: Option<&Region>)
        requires
            self.wf(),
        ensures
            match r {
                Some(reg) => {
                    &&& exists|i: int|
                        0 <= i < self.regions@.len() && *reg == #[trigger] self.regions@[i]
                    &&& region_contains(*reg, offset as int)
                },
                None => regions_disjoint(self.regions@)
                    ==> forall|i: int| 0 <= i < self.regions@.len()
                        ==> !region_contains(#[trigger] self.regions@[i], offset as int),
            },
    {
        let mut lo: usize = 0;
        let mut hi: usize = self.regions.len();
        while lo < hi
            invariant
                lo <= hi <= self.regions@.len(),
                self.wf(),
                regions_disjoint(self.regions@) ==> forall|i: int| 0 <= i < self.regions@.len()
                    && !(lo <= i < hi)
                    ==> !region_contains(#[trigger] self.regions@[i], offset as int),
            decreases hi - lo,
        {
            let mid = lo + (hi - lo) / 2;
            let reg = &self.regions[mid];
            if reg.size > 0 && reg.start <= offset && offset - reg.start < reg.size {
                proof {
                    assert(*reg == self.regions@[mid as int]);
                }
                return Some(reg);
            }
            if offset < reg.start {
                hi = mid;
            } else {
                lo = mid + 1;
            }
        }
        None
    }

    /// Whether every region ends before the next begins, so that lookups
    /// are unambiguous. Checks adjacent pairs only; sortedness carries the
    /// guarantee to every pair.
    pub fn is_disjoint(&self) -> (r: bool)
        requires
            self.wf(),
        ensures
            r ==> regions_disjoint(self.regions@),
            !r ==> !regions_disjoint(self.regions@),
    {
        let n = self.regions.len();
        let mut i: usize = 0;
        if n == 0 {
            return true;
        }
        while i + 1 < n
            invariant
                self.wf(),
                i < n == self.regions@.len(),
                forall|a: int, b: int| 0 <= a < b < i + 1
                    ==> (#[trigger] self.regions@[a]).start + self.regions@[a].size
                        <= (#[trigger] self.regions@[b]).start,
            decreases n - i,
        {
            let a = &self.regions[i];
            let b = &self.regions[i + 1];
            if !(a.size <= u64::MAX - a.start) || a.start + a.size > b.start {
                proof {
                    assert(!(self.regions@[i as int].start + self.regions@[i as int].size
                        <= self.regions@[i + 1].start));
                }
                return false;
            }
            proof {
                let rs = self.regions@;
                assert forall|x: int, y: int| 0 <= x < y < i + 2
                    implies (#[trigger] rs[x]).start + rs[x].size
                        <= (#[trigger] rs[y]).start by {
                    if y == i + 1 && x < i {
                        assert(rs[x].start + rs[x].size <= rs[x + 1].start);
                        assert(rs[x + 1].start <= rs[i + 1].start);
                    }
                }
            }
            i = i + 1;
        }
        true
    }

    /// Number of regions in the index.
    pub fn len(&self) -> (r: usize)
        ensures
            r == self.regions@.len(),
    {
        self.regions.len()
    }
}

} // verus!
