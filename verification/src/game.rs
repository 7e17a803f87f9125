//! A whole opened disc image: the boot header, the apploader, the
//! executable descriptor and the file system table, plus the region index
//! over all of them.
use vstd::prelude::*;
use crate::apploader::{Apploader, APPLOADER_OFFSET, apploader_parsed, apploader_readable};
use crate::dol::{DOLHeader, DOL_HEADER_LEN, dol_parsed, dol_readable};
use crate::fst::{FST, table_matches, no_table_at, spec_total_files};
use crate::header::{
    Header, GAME_HEADER_SIZE, header_parsed, header_readable, header_dol_slot, header_fst_slot,
};
use crate::layout::{Region, ROMLayout, SectionType, UniqueSectionType};
use crate::ParseError;

verus! {

/// The four parsed sections of an image.
#[derive(Debug)]
pub struct Game {
    pub header: Header,
    pub apploader: Apploader,
    pub fst: FST,
    pub dol: DOLHeader,
}

/// Every part of an image stands at byte `off` of `data` and can be
/// opened: the boot header with its magic, the apploader header, the
/// executable descriptor at the offset the header names (which must fit
/// its 4-byte field even after shifting by `off`), and a well-formed
/// table at the table offset the header names.
pub open spec fn image_openable(data: Seq<u8>, off: int) -> bool {
    &&& header_readable(data, off)
    &&& apploader_readable(data, off + 0x2440)
    &&& off + header_dol_slot(data, off) < 0x100000000
    &&& dol_readable(data, off + header_dol_slot(data, off))
    &&& !no_table_at(data, off + header_fst_slot(data, off))
}

/// The regions of the executable's segments, in segment order.
pub open spec fn seg_regions(segs: Seq<crate::dol::Segment>, n: int) -> Seq<Region>
    decreases n,
{
    if n <= 0 {
        Seq::empty()
    } else {
        seg_regions(segs, n - 1).push(Region {
            kind: SectionType::DOLSegment,
            start: segs[n - 1].offset,
            size: segs[n - 1].size as u64,
        })
    }
}

/// One region per File entry of the table's first `n` entries, in table
/// order; directories contribute none.
pub open spec fn file_regions(entries: Seq<crate::entry::Entry>, n: int) -> Seq<Region>
    decreases n,
{
    if n <= 0 {
        Seq::empty()
    } else {
        file_regions(entries, n - 1) + match entries[n - 1] {
            crate::entry::Entry::File(f) => seq![
                Region { kind: SectionType::File, start: f.file_offset, size: f.size as u64 },
            ],
            crate::entry::Entry::Directory(_) => Seq::empty(),
        }
    }
}

/// Every content-bearing region of the opened image: the header, the
/// apploader (aligned total size), the executable header, each segment,
/// the table, and each file.
pub open spec fn game_regions(g: Game) -> Seq<Region> {
    seq![
        Region { kind: SectionType::Header, start: 0, size: GAME_HEADER_SIZE as u64 },
        Region {
            kind: SectionType::Apploader,
            start: APPLOADER_OFFSET,
            size: crate::spec_align(g.apploader.code_size + g.apploader.trailer_size, 32) as u64,
        },
        Region { kind: SectionType::DOLHeader, start: g.dol.offset, size: DOL_HEADER_LEN as u64 },
    ] + seg_regions(g.dol.segments@, g.dol.segments@.len() as int)
        + seq![Region { kind: SectionType::FST, start: g.fst.offset, size: g.fst.size as u64 }]
        + file_regions(g.fst.entries@, g.fst.entries@.len() as int)
}

impl Game {
    /// Open an image standing at byte `offset` of `data`: parse the boot
    /// header, then the apploader, executable descriptor and table at the
    /// offsets the header names. Each part of the result is exactly its
    /// parse; the open fails exactly when one of the four parses fails.
    pub fn open(data: &[u8], offset: u64) -> (r: Result<Game, ParseError>)
        requires
            offset < 0x100000000,
        ensures
            match r {
                Ok(g) => {
                    &&& header_parsed(data@, offset as int, g.header)
                    &&& apploader_parsed(data@, offset + 0x2440, g.apploader)
                    &&& dol_parsed(data@, offset + g.header.dol_offset, g.dol)
                    &&& g.fst.wf()
                    &&& table_matches(data@, offset + g.header.fst_offset, g.fst.entries@)
                    &&& g.fst.offset == offset + g.header.fst_offset
                    &&& g.dol.offset == offset + g.header.dol_offset
                },
                Err(_) => !image_openable(data@, offset as int),
            },
    {
        let header = match Header::new(data, offset) {
            Ok(h) => h,
            Err(e) => { return Err(e); },
        };
        let apploader = match Apploader::new(data, offset + APPLOADER_OFFSET) {
            Ok(a) => a,
            Err(e) => { return Err(e); },
        };
        if offset + header.dol_offset >= 0x100000000 {
            return Err(ParseError::Truncated);
        }
        let dol = match DOLHeader::new(data, offset + header.dol_offset) {
            Ok(d) => d,
            Err(e) => { return Err(e); },
        };
        let mut fst = match FST::new(data, offset + header.fst_offset) {
            Ok(f) => f,
            Err(e) => { return Err(e); },
        };
        fst.offset = offset + header.fst_offset;
        Ok(Game { header, apploader, fst, dol })
    }

    /// The region index over the whole image: the header, the apploader,
    /// the executable header and each of its segments, the table, and one
    /// region per file — sorted by start offset.
    pub fn rom_layout(&self) -> (r: ROMLayout)
        requires
            self.apploader.code_size + self.apploader.trailer_size + 31 <= usize::MAX,
        ensures
            r.wf(),
            r.regions@.to_multiset() == game_regions(*self).to_multiset(),
            r.regions@.len() == 4 + self.dol.segments@.len()
                + spec_total_files(self.fst.entries@, self.fst.entries@.len() as int),
            crate::layout::regions_nonoverlapping(game_regions(*self))
                && (forall|i: int| 0 <= i < game_regions(*self).len()
                    ==> (#[trigger] game_regions(*self)[i]).size > 0)
                ==> crate::layout::regions_disjoint(r.regions@),
    {
        let mut list: Vec<Region> = Vec::new();
        list.push(Region { kind: SectionType::Header, start: 0, size: GAME_HEADER_SIZE as u64 });
        list.push(Region {
            kind: SectionType::Apploader,
            start: APPLOADER_OFFSET,
            size: self.apploader.total_size() as u64,
        });
        list.push(Region {
            kind: SectionType::DOLHeader,
            start: self.dol.offset,
            size: DOL_HEADER_LEN as u64,
        });
        let ghost head3 = list@;
        let mut k: usize = 0;
        proof {
            assert(list@ =~= head3 + seg_regions(self.dol.segments@, 0));
        }
        while k < self.dol.segments.len()
            invariant
                k <= self.dol.segments@.len(),
                list@.len() == 3 + k,
                head3.len() == 3,
                list@ == head3 + seg_regions(self.dol.segments@, k as int),
            decreases self.dol.segments@.len() - k,
        {
            let s = &self.dol.segments[k];
            list.push(Region {
                kind: SectionType::DOLSegment,
                start: s.offset,
                size: s.size as u64,
            });
            proof {
                assert(list@ =~= head3 + seg_regions(self.dol.segments@, k + 1));
            }
            k = k + 1;
        }
        list.push(Region {
            kind: SectionType::FST,
            start: self.fst.offset,
            size: self.fst.size as u64,
        });
        let ghost head5 = list@;
        let mut j: usize = 0;
        proof {
            assert(list@ =~= head5 + file_regions(self.fst.entries@, 0));
        }
        while j < self.fst.entries.len()
            invariant
                j <= self.fst.entries@.len(),
                list@.len() == 4 + self.dol.segments@.len()
                    + spec_total_files(self.fst.entries@, j as int),
                head5.len() == 4 + self.dol.segments@.len(),
                list@ == head5 + file_regions(self.fst.entries@, j as int),
            decreases self.fst.entries@.len() - j,
        {
            match &self.fst.entries[j] {
                crate::entry::Entry::File(f) => {
                    list.push(Region {
                        kind: SectionType::File,
                        start: f.file_offset,
                        size: f.size as u64,
                    });
                },
                crate::entry::Entry::Directory(_) => {},
            }
            proof {
                assert(list@ =~= head5 + file_regions(self.fst.entries@, j + 1));
            }
            j = j + 1;
        }
        proof {
            assert(list@ =~= game_regions(*self));
        }
        let r = ROMLayout::new(list);
        proof {
            if crate::layout::regions_nonoverlapping(game_regions(*self))
                && (forall|i: int| 0 <= i < game_regions(*self).len()
                    ==> (#[trigger] game_regions(*self)[i]).size > 0) {
                crate::layout::lemma_sorted_permutation_disjoint(game_regions(*self), r.regions@);
            }
        }
        r
    }

    /// The actions that materialize the image's whole file tree on a real
    /// file system, in table order.
    pub fn extract_file_system(&self) -> (r: Vec<crate::fst::ExtractItem>)
        ensures
            r@.len() == self.fst.entries@.len(),
    {
        self.fst.extract_file_system()
    }

    /// Where one of the four unique sections stands and how far it runs.
    pub fn get_section_by_type(&self, section_type: &UniqueSectionType) -> (r: Region)
        requires
            self.apploader.code_size + self.apploader.trailer_size + 31 <= usize::MAX,
        ensures
            match section_type {
                UniqueSectionType::Header => r.kind == SectionType::Header && r.start == 0
                    && r.size == GAME_HEADER_SIZE,
                UniqueSectionType::Apploader => r.kind == SectionType::Apploader
                    && r.start == APPLOADER_OFFSET,
                UniqueSectionType::DOLHeader => r.kind == SectionType::DOLHeader
                    && r.start == self.dol.offset && r.size == DOL_HEADER_LEN,
                UniqueSectionType::FST => r.kind == SectionType::FST
                    && r.start == self.fst.offset && r.size == self.fst.size,
            },
    {
        match section_type {
            UniqueSectionType::Header => Region {
                kind: SectionType::Header,
                start: 0,
                size: GAME_HEADER_SIZE as u64,
            },
            UniqueSectionType::Apploader => Region {
                kind: SectionType::Apploader,
                start: APPLOADER_OFFSET,
                size: self.apploader.total_size() as u64,
            },
            UniqueSectionType::DOLHeader => Region {
                kind: SectionType::DOLHeader,
                start: self.dol.offset,
                size: DOL_HEADER_LEN as u64,
            },
            UniqueSectionType::FST => Region {
                kind: SectionType::FST,
                start: self.fst.offset,
                size: self.fst.size as u64,
            },
        }
    }
}

} // verus!
