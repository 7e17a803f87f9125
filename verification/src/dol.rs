//! The executable descriptor ("DOL header"): seven code segments and
//! eleven data segments, each with an on-disc offset, a load address and a
//! size, stored in three parallel arrays, plus the entry point.
use vstd::prelude::*;
use crate::bytes_be::{be_val, read_be, lemma_pow256_vals};
use crate::ParseError;

verus! {

/// Number of code-segment slots in the descriptor.
pub const TEXT_SEG_COUNT: usize = 7;

/// Number of data-segment slots in the descriptor.
pub const DATA_SEG_COUNT: usize = 11;

/// Bytes of the fixed descriptor block.
pub const DOL_HEADER_LEN: usize = 0x100;

/// Which of the two parallel tables a segment comes from.
#[derive(Clone, Copy, Debug, PartialEq, Eq, Structural)]
pub enum SegmentType {
    Text,
    Data,
}

/// One code or data segment of the executable.
#[derive(Clone, Copy, Debug)]
pub struct Segment {
    /// Absolute byte offset of the segment's content in the image (the
    /// descriptor stores it relative to the descriptor's own start).
    pub offset: u64,
    pub size: usize,
    pub loading_address: u64,
    pub seg_type: SegmentType,
    pub seg_num: u64,
}

impl Segment {
    /// A zeroed code-segment placeholder.
    pub fn text() -> (r: Segment)
        ensures
            r.seg_type == SegmentType::Text,
            r.offset == 0 && r.size == 0 && r.loading_address == 0 && r.seg_num == 0,
    {
        Segment { offset: 0, size: 0, loading_address: 0, seg_type: SegmentType::Text, seg_num: 0 }
    }

    /// A zeroed data-segment placeholder.
    pub fn data() -> (r: Segment)
        ensures
            r.seg_type == SegmentType::Data,
            r.offset == 0 && r.size == 0 && r.loading_address == 0 && r.seg_num == 0,
    {
        Segment { offset: 0, size: 0, loading_address: 0, seg_type: SegmentType::Data, seg_num: 0 }
    }
}

/// A non-empty run of decimal digit bytes.
pub open spec fn is_digits(s: Seq<u8>) -> bool {
    s.len() > 0 && forall|i: int| 0 <= i < s.len() ==> 48 <= #[trigger] s[i] <= 57
}

/// The number a run of digit bytes denotes.
pub open spec fn digits_val(s: Seq<u8>) -> int
    decreases s.len(),
{
    if s.len() == 0 {
        0
    } else {
        digits_val(s.drop_last()) * 10 + (s.last() - 48)
    }
}

pub proof fn lemma_digits_val_nonneg(s: Seq<u8>)
    requires
        forall|i: int| 0 <= i < s.len() ==> 48 <= #[trigger] s[i] <= 57,
    ensures
        digits_val(s) >= 0,
    decreases s.len(),
{
    if s.len() > 0 {
        lemma_digits_val_nonneg(s.drop_last());
    }
}

/// Appending digits never shrinks the denoted number.
pub proof fn lemma_digits_val_mono(s: Seq<u8>, m: int)
    requires
        forall|i: int| 0 <= i < s.len() ==> 48 <= #[trigger] s[i] <= 57,
        0 <= m <= s.len(),
    ensures
        digits_val(s) >= digits_val(s.subrange(0, m)),
    decreases s.len(),
{
    lemma_digits_val_nonneg(s);
    if m < s.len() {
        let d = s.drop_last();
        assert(forall|i: int| 0 <= i < d.len() ==> 48 <= #[trigger] d[i] <= 57);
        lemma_digits_val_nonneg(d);
        lemma_digits_val_mono(d, m);
        assert(d.subrange(0, m) =~= s.subrange(0, m));
        assert(digits_val(s) == digits_val(d) * 10 + (s.last() - 48));
    } else {
        assert(s.subrange(0, m) =~= s);
    }
}

/// The bytes of the code-segment name prefix.
pub open spec fn text_prefix() -> Seq<u8> {
    seq![116u8, 101u8, 120u8, 116u8]
}

/// The bytes of the data-segment name prefix.
pub open spec fn data_prefix() -> Seq<u8> {
    seq![100u8, 97u8, 116u8, 97u8]
}

/// The name with its optional leading dot removed.
pub open spec fn seg_name_body(s: Seq<u8>) -> Seq<u8> {
    if s.len() > 0 && s[0] == 46 {
        s.drop_first()
    } else {
        s
    }
}

/// The segment-name grammar: an optional dot, the kind's prefix, then at
/// least one decimal digit.
pub open spec fn seg_name_matches(s: Seq<u8>, t: SegmentType) -> bool {
    let b = seg_name_body(s);
    &&& b.len() > 4
    &&& b.subrange(0, 4) == match t {
        SegmentType::Text => text_prefix(),
        SegmentType::Data => data_prefix(),
    }
    &&& is_digits(b.subrange(4, b.len() as int))
}

/// The number the matched name carries.
pub open spec fn seg_name_number(s: Seq<u8>) -> int {
    let b = seg_name_body(s);
    digits_val(b.subrange(4, b.len() as int))
}

/// Parse a segment name: an optional dot, `text` or `data`, then the slot
/// number in decimal. Nothing else matches, and a number too large for
/// its field does not either.
pub fn parse_segment_name(name: &[u8]) -> (r: Option<(SegmentType, u64)>)
    ensures
        match r {
            Some((t, n)) => seg_name_matches(name@, t) && n == seg_name_number(name@),
            None => forall|t: SegmentType|
                seg_name_matches(name@, t) ==> seg_name_number(name@) > u64::MAX,
        },
{
    let start: usize = if name.len() > 0 && name[0] == 46 {
        1
    } else {
        0
    };
    proof {
        if name@.len() > 0 && name@[0] == 46 {
            assert(seg_name_body(name@) =~= name@.subrange(1, name@.len() as int));
        } else {
            assert(seg_name_body(name@) =~= name@);
        }
    }
    if name.len() < start + 5 {
        return None;
    }
    let is_text = name[start] == 116 && name[start + 1] == 101 && name[start + 2] == 120
        && name[start + 3] == 116;
    let is_data = name[start] == 100 && name[start + 1] == 97 && name[start + 2] == 116
        && name[start + 3] == 97;
    proof {
        let b = seg_name_body(name@);
        if is_text {
            assert(b.subrange(0, 4) =~= text_prefix());
        } else {
            assert(b.subrange(0, 4) != text_prefix()) by {
                if b.subrange(0, 4) == text_prefix() {
                    assert(b[0] == 116 && b[1] == 101 && b[2] == 120 && b[3] == 116) by {
                        assert(b.subrange(0, 4)[0] == b[0]);
                        assert(b.subrange(0, 4)[1] == b[1]);
                        assert(b.subrange(0, 4)[2] == b[2]);
                        assert(b.subrange(0, 4)[3] == b[3]);
                    }
                }
            }
        }
        if is_data {
            assert(b.subrange(0, 4) =~= data_prefix());
        } else {
            assert(b.subrange(0, 4) != data_prefix()) by {
                if b.subrange(0, 4) == data_prefix() {
                    assert(b[0] == 100 && b[1] == 97 && b[2] == 116 && b[3] == 97) by {
                        assert(b.subrange(0, 4)[0] == b[0]);
                        assert(b.subrange(0, 4)[1] == b[1]);
                        assert(b.subrange(0, 4)[2] == b[2]);
                        assert(b.subrange(0, 4)[3] == b[3]);
                    }
                }
            }
        }
    }
    let t = if is_text {
        SegmentType::Text
    } else if is_data {
        SegmentType::Data
    } else {
        return None;
    };
    let ghost ds = seg_name_body(name@).subrange(4, seg_name_body(name@).len() as int);
    let mut n: u64 = 0;
    let mut k: usize = start + 4;
    let nlen = name.len();
    while k < nlen
        invariant
            start + 4 <= k <= nlen,
            nlen == name@.len(),
            start <= 1,
            nlen >= start + 5,
            (start == 1) == (name@.len() > 0 && name@[0] == 46),
            ds == seg_name_body(name@).subrange(4, seg_name_body(name@).len() as int),
            ds.len() == nlen - start - 4,
            forall|i: int| 0 <= i < ds.len() ==> ds[i] == name@[start + 4 + i],
            forall|i: int| 0 <= i < k - start - 4 ==> 48 <= #[trigger] ds[i] <= 57,
            n as int == digits_val(ds.subrange(0, k - start - 4)),
        decreases nlen - k,
    {
        let d = name[k];
        if d < 48 || d > 57 {
            proof {
                assert(ds[k - start - 4] == d);
                assert(!is_digits(ds));
            }
            return None;
        }
        if n > (u64::MAX - ((d - 48) as u64)) / 10 {
            proof {
                let j = k - start - 4;
                let pref = ds.subrange(0, j + 1);
                assert(pref.drop_last() =~= ds.subrange(0, j));
                assert(digits_val(pref) == n * 10 + (d - 48));
                assert(n * 10 + (d - 48) > u64::MAX) by (nonlinear_arith)
                    requires
                        n > (u64::MAX - ((d - 48) as u64)) / 10,
                        48 <= d <= 57,
                        n >= 0,
                ;
                if is_digits(ds) {
                    lemma_digits_val_mono(ds, j + 1);
                }
            }
            return None;
        }
        proof {
            let j = k - start - 4;
            let pref = ds.subrange(0, j + 1);
            assert(pref.drop_last() =~= ds.subrange(0, j));
            assert(n * 10 + (d - 48) <= u64::MAX) by (nonlinear_arith)
                requires
                    n <= (u64::MAX - ((d - 48) as u64)) / 10,
                    48 <= d <= 57,
                    n >= 0,
            ;
        }
        n = n * 10 + ((d - 48) as u64);
        k = k + 1;
    }
    proof {
        assert(ds.subrange(0, ds.len() as int) =~= ds);
        assert(is_digits(ds));
    }
    Some((t, n))
}

/// Byte offset of the slot holding the on-disc offset of the given
/// segment, relative to the descriptor's start.
pub open spec fn seg_offset_slot(t: SegmentType, num: int) -> int {
    match t {
        SegmentType::Text => 4 * num,
        SegmentType::Data => 0x1c + 4 * num,
    }
}

/// Byte offset of the slot holding the load address.
pub open spec fn seg_addr_slot(t: SegmentType, num: int) -> int {
    0x48 + seg_offset_slot(t, num)
}

/// Byte offset of the slot holding the size.
pub open spec fn seg_size_slot(t: SegmentType, num: int) -> int {
    0x90 + seg_offset_slot(t, num)
}

/// A segment's fields all decode from its three slots of the descriptor
/// at byte `off` of `data`, and a kept segment is never empty.
pub open spec fn segment_decodes(data: Seq<u8>, off: int, s: Segment) -> bool {
    let num = s.seg_num as int;
    &&& 0 <= num < (match s.seg_type {
        SegmentType::Text => TEXT_SEG_COUNT as int,
        SegmentType::Data => DATA_SEG_COUNT as int,
    })
    &&& s.size == be_val(data.subrange(
        off + seg_size_slot(s.seg_type, num),
        off + seg_size_slot(s.seg_type, num) + 4,
    ))
    &&& s.size != 0
    &&& s.offset == off + be_val(data.subrange(
        off + seg_offset_slot(s.seg_type, num),
        off + seg_offset_slot(s.seg_type, num) + 4,
    ))
    &&& s.loading_address == be_val(data.subrange(
        off + seg_addr_slot(s.seg_type, num),
        off + seg_addr_slot(s.seg_type, num) + 4,
    ))
}

/// The size field of the given slot, as stored in the descriptor at
/// byte `off`.
pub open spec fn slot_size(data: Seq<u8>, off: int, t: SegmentType, num: int) -> int {
    be_val(data.subrange(off + seg_size_slot(t, num), off + seg_size_slot(t, num) + 4))
}

/// Whether the list holds a segment of the given kind and slot number.
pub open spec fn has_segment(segs: Seq<Segment>, t: SegmentType, num: int) -> bool {
    exists|k: int| 0 <= k < segs.len() && (#[trigger] segs[k]).seg_type == t
        && segs[k].seg_num == num
}

/// How far past the descriptor's start the first `n` segments' contents
/// reach.
pub open spec fn segments_span(segs: Seq<Segment>, n: int, off: int) -> int
    decreases n,
{
    if n <= 0 {
        0
    } else {
        let e = segs[n - 1].offset - off + segs[n - 1].size;
        let rest = segments_span(segs, n - 1, off);
        if e > rest {
            e
        } else {
            rest
        }
    }
}

/// The parsed executable descriptor.
#[derive(Debug)]
pub struct DOLHeader {
    /// Absolute byte offset of the descriptor in the image.
    pub offset: u64,
    /// Bytes from the descriptor's start to the furthest segment end.
    pub dol_size: u64,
    pub entry_point: u64,
    /// The non-empty segments: code segments first, then data segments,
    /// slot order preserved.
    pub segments: Vec<Segment>,
    /// Index of the first data segment inside `segments`.
    pub data_segments_index: usize,
}

/// A descriptor stands at byte `off` of `data` and can be read.
pub open spec fn dol_readable(data: Seq<u8>, off: int) -> bool {
    0 <= off <= usize::MAX && off + 0xe4 <= data.len()
}

/// `h` is exactly the descriptor parsed from byte `off` of `data`: its
/// segments are the non-empty slots, decoded, code before data.
pub open spec fn dol_parsed(data: Seq<u8>, off: int, h: DOLHeader) -> bool {
    &&& dol_readable(data, off)
    &&& h.offset == off
    &&& h.entry_point == be_val(data.subrange(off + 0xe0, off + 0xe4))
    &&& h.data_segments_index <= h.segments@.len() <= 18
    &&& forall|k: int| 0 <= k < h.segments@.len()
        ==> segment_decodes(data, off, #[trigger] h.segments@[k])
    &&& forall|k: int| 0 <= k < h.segments@.len()
        ==> ((#[trigger] h.segments@[k]).seg_type == SegmentType::Text
            <==> k < h.data_segments_index)
    &&& forall|num: int| 0 <= num < TEXT_SEG_COUNT
        ==> ((#[trigger] slot_size(data, off, SegmentType::Text, num)) != 0
            <==> has_segment(h.segments@, SegmentType::Text, num))
    &&& forall|num: int| 0 <= num < DATA_SEG_COUNT
        ==> ((#[trigger] slot_size(data, off, SegmentType::Data, num)) != 0
            <==> has_segment(h.segments@, SegmentType::Data, num))
    &&& forall|k1: int, k2: int|
        0 <= k1 < k2 < h.segments@.len()
            && (#[trigger] h.segments@[k1]).seg_type == (#[trigger] h.segments@[k2]).seg_type
            ==> h.segments@[k1].seg_num < h.segments@[k2].seg_num
    &&& h.dol_size == segments_span(h.segments@, h.segments@.len() as int, off)
}

impl DOLHeader {
    /// Parse the descriptor at byte `offset`: keep every slot with a
    /// non-zero size, code segments first, resolving each segment's image
    /// offset, load address and size from the three parallel arrays.
    /// Fails exactly when the descriptor does not fit the buffer.
    pub fn new(data: &[u8], offset: u64) -> (r: Result<DOLHeader, ParseError>)
        requires
            offset < 0x100000000,
        ensures
            match r {
                Ok(h) => dol_parsed(data@, offset as int, h),
                Err(e) => e == ParseError::Truncated
                    && !dol_readable(data@, offset as int),
            },
    {
        let dlen = data.len();
        if offset > usize::MAX as u64 {
            return Err(ParseError::Truncated);
        }
        let off = offset as usize;
        if dlen < 0xe4 || off > dlen - 0xe4 {
            return Err(ParseError::Truncated);
        }
        proof {
            lemma_pow256_vals();
        }
        let mut segments: Vec<Segment> = Vec::new();
        let mut i: usize = 0;
        while i < TEXT_SEG_COUNT
            invariant
                i <= TEXT_SEG_COUNT,
                off + 0xe4 <= data@.len(),
                dlen == data@.len(),
                off == offset as int,
                offset < 0x100000000,
                segments@.len() <= i,
                forall|k: int| 0 <= k < segments@.len()
                    ==> segment_decodes(data@, off as int, #[trigger] segments@[k]),
                forall|k: int| 0 <= k < segments@.len()
                    ==> (#[trigger] segments@[k]).seg_type == SegmentType::Text,
                forall|k: int| 0 <= k < segments@.len()
                    ==> (#[trigger] segments@[k]).seg_num < i,
                forall|k1: int, k2: int| 0 <= k1 < k2 < segments@.len()
                    ==> (#[trigger] segments@[k1]).seg_num < (#[trigger] segments@[k2]).seg_num,
                forall|num: int| 0 <= num < i
                    ==> ((#[trigger] slot_size(data@, off as int, SegmentType::Text, num)) != 0
                        <==> has_segment(segments@, SegmentType::Text, num)),
            decreases TEXT_SEG_COUNT - i,
        {
            let ghost pre_segs = segments@;
            let size = read_be(data, off + 0x90 + 4 * i, 4);
            if size != 0 {
                let soff = read_be(data, off + 4 * i, 4);
                let addr = read_be(data, off + 0x48 + 4 * i, 4);
                proof {
                    lemma_pow256_vals();
                }
                let s = Segment {
                    offset: offset + soff,
                    size: size as usize,
                    loading_address: addr,
                    seg_type: SegmentType::Text,
                    seg_num: i as u64,
                };
                segments.push(s);
                proof {
                    assert(segments@[segments@.len() - 1].seg_num == i);
                }
            }
            proof {
                assert forall|num: int| 0 <= num < i + 1
                    implies ((#[trigger] slot_size(data@, off as int, SegmentType::Text, num))
                        != 0 <==> has_segment(segments@, SegmentType::Text, num)) by {
                    if num < i {
                        assert(slot_size(data@, off as int, SegmentType::Text, num) != 0
                            <==> has_segment(pre_segs, SegmentType::Text, num));
                        if has_segment(pre_segs, SegmentType::Text, num) {
                            let k = choose|k: int|
                                0 <= k < pre_segs.len()
                                    && (#[trigger] pre_segs[k]).seg_type == SegmentType::Text
                                    && pre_segs[k].seg_num == num;
                            assert(segments@[k].seg_type == SegmentType::Text
                                && segments@[k].seg_num == num);
                        }
                        if has_segment(segments@, SegmentType::Text, num) {
                            let k = choose|k: int|
                                0 <= k < segments@.len()
                                    && (#[trigger] segments@[k]).seg_type == SegmentType::Text
                                    && segments@[k].seg_num == num;
                            assert(k < pre_segs.len());
                        }
                    } else {
                        assert(slot_size(data@, off as int, SegmentType::Text, num)
                            == be_val(data@.subrange(off + 0x90 + 4 * num,
                                off + 0x90 + 4 * num + 4)));
                        if has_segment(segments@, SegmentType::Text, num) {
                            let k = choose|k: int|
                                0 <= k < segments@.len()
                                    && (#[trigger] segments@[k]).seg_type == SegmentType::Text
                                    && segments@[k].seg_num == num;
                            assert(segment_decodes(data@, off as int, segments@[k]));
                        }
                    }
                }
            }
            i = i + 1;
        }
        let data_segments_index = segments.len();
        let mut j: usize = 0;
        while j < DATA_SEG_COUNT
            invariant
                j <= DATA_SEG_COUNT,
                off + 0xe4 <= data@.len(),
                dlen == data@.len(),
                off == offset as int,
                offset < 0x100000000,
                data_segments_index <= segments@.len() <= data_segments_index + j,
                data_segments_index <= 7,
                forall|k: int| 0 <= k < segments@.len()
                    ==> segment_decodes(data@, off as int, #[trigger] segments@[k]),
                forall|k: int| 0 <= k < segments@.len()
                    ==> ((#[trigger] segments@[k]).seg_type == SegmentType::Text
                        <==> k < data_segments_index),
                forall|k: int| data_segments_index <= k < segments@.len()
                    ==> (#[trigger] segments@[k]).seg_num < j,
                forall|k1: int, k2: int| 0 <= k1 < k2 < segments@.len()
                    && (#[trigger] segments@[k1]).seg_type
                        == (#[trigger] segments@[k2]).seg_type
                    ==> segments@[k1].seg_num < segments@[k2].seg_num,
                forall|num: int| 0 <= num < TEXT_SEG_COUNT
                    ==> ((#[trigger] slot_size(data@, off as int, SegmentType::Text, num)) != 0
                        <==> has_segment(segments@, SegmentType::Text, num)),
                forall|num: int| 0 <= num < j
                    ==> ((#[trigger] slot_size(data@, off as int, SegmentType::Data, num)) != 0
                        <==> has_segment(segments@, SegmentType::Data, num)),
            decreases DATA_SEG_COUNT - j,
        {
            let ghost pre_segs = segments@;
            let size = read_be(data, off + 0x90 + 0x1c + 4 * j, 4);
            if size != 0 {
                let soff = read_be(data, off + 0x1c + 4 * j, 4);
                let addr = read_be(data, off + 0x48 + 0x1c + 4 * j, 4);
                proof {
                    lemma_pow256_vals();
                }
                let s = Segment {
                    offset: offset + soff,
                    size: size as usize,
                    loading_address: addr,
                    seg_type: SegmentType::Data,
                    seg_num: j as u64,
                };
                segments.push(s);
                proof {
                    assert(segments@[segments@.len() - 1].seg_num == j);
                }
            }
            proof {
                assert forall|num: int| 0 <= num < TEXT_SEG_COUNT
                    implies ((#[trigger] slot_size(data@, off as int, SegmentType::Text, num))
                        != 0 <==> has_segment(segments@, SegmentType::Text, num)) by {
                    if has_segment(pre_segs, SegmentType::Text, num) {
                        let k = choose|k: int|
                            0 <= k < pre_segs.len()
                                && (#[trigger] pre_segs[k]).seg_type == SegmentType::Text
                                && pre_segs[k].seg_num == num;
                        assert(segments@[k].seg_type == SegmentType::Text
                            && segments@[k].seg_num == num);
                    }
                    if has_segment(segments@, SegmentType::Text, num) {
                        let k = choose|k: int|
                            0 <= k < segments@.len()
                                && (#[trigger] segments@[k]).seg_type == SegmentType::Text
                                && segments@[k].seg_num == num;
                        assert(k < pre_segs.len());
                        assert(has_segment(pre_segs, SegmentType::Text, num));
                    }
                }
                assert forall|num: int| 0 <= num < j + 1
                    implies ((#[trigger] slot_size(data@, off as int, SegmentType::Data, num))
                        != 0 <==> has_segment(segments@, SegmentType::Data, num)) by {
                    if num < j {
                        assert(slot_size(data@, off as int, SegmentType::Data, num) != 0
                            <==> has_segment(pre_segs, SegmentType::Data, num));
                        if has_segment(pre_segs, SegmentType::Data, num) {
                            let k = choose|k: int|
                                0 <= k < pre_segs.len()
                                    && (#[trigger] pre_segs[k]).seg_type == SegmentType::Data
                                    && pre_segs[k].seg_num == num;
                            assert(segments@[k].seg_type == SegmentType::Data
                                && segments@[k].seg_num == num);
                        }
                        if has_segment(segments@, SegmentType::Data, num) {
                            let k = choose|k: int|
                                0 <= k < segments@.len()
                                    && (#[trigger] segments@[k]).seg_type == SegmentType::Data
                                    && segments@[k].seg_num == num;
                            assert(k < pre_segs.len());
                        }
                    } else {
                        assert(slot_size(data@, off as int, SegmentType::Data, num)
                            == be_val(data@.subrange(off + 0x90 + 0x1c + 4 * num,
                                off + 0x90 + 0x1c + 4 * num + 4)));
                        if has_segment(segments@, SegmentType::Data, num) {
                            let k = choose|k: int|
                                0 <= k < segments@.len()
                                    && (#[trigger] segments@[k]).seg_type == SegmentType::Data
                                    && segments@[k].seg_num == num;
                            assert(segment_decodes(data@, off as int, segments@[k]));
                        }
                    }
                }
            }
            j = j + 1;
        }
        let entry_point = read_be(data, off + 0xe0, 4);
        // the furthest point any segment's content reaches past the
        // descriptor's start
        let mut dol_size: u64 = 0;
        let mut k: usize = 0;
        while k < segments.len()
            invariant
                k <= segments@.len() <= 18,
                offset < 0x100000000,
                offset + 0xe4 <= data@.len(),
                forall|t: int| 0 <= t < segments@.len()
                    ==> segment_decodes(data@, offset as int, #[trigger] segments@[t]),
                dol_size < 0x200000000,
                dol_size as int == segments_span(segments@, k as int, offset as int),
            decreases segments@.len() - k,
        {
            let s = &segments[k];
            proof {
                assert(segment_decodes(data@, offset as int, segments@[k as int]));
                crate::bytes_be::lemma_pow256_vals();
                crate::bytes_be::lemma_be_val_bound(data@.subrange(
                    offset as int + seg_offset_slot(s.seg_type, s.seg_num as int),
                    offset as int + seg_offset_slot(s.seg_type, s.seg_num as int) + 4,
                ));
                crate::bytes_be::lemma_be_val_bound(data@.subrange(
                    offset as int + seg_size_slot(s.seg_type, s.seg_num as int),
                    offset as int + seg_size_slot(s.seg_type, s.seg_num as int) + 4,
                ));
                assert(data@.subrange(
                    offset as int + seg_size_slot(s.seg_type, s.seg_num as int),
                    offset as int + seg_size_slot(s.seg_type, s.seg_num as int) + 4,
                ).len() == 4);
                assert(data@.subrange(
                    offset as int + seg_offset_slot(s.seg_type, s.seg_num as int),
                    offset as int + seg_offset_slot(s.seg_type, s.seg_num as int) + 4,
                ).len() == 4);
            }
            let rel: u64 = s.offset - offset;
            let end: u64 = rel + (s.size as u64);
            if end > dol_size {
                dol_size = end;
            }
            k = k + 1;
        }
        Ok(DOLHeader {
            offset,
            dol_size,
            entry_point,
            segments,
            data_segments_index,
        })
    }

    /// The segment of the given kind and slot number, if it is non-empty.
    pub fn find_segment(&self, seg_type: SegmentType, number: u64) -> (r: Option<&Segment>)
        ensures
            match r {
                Some(s) => s.seg_type == seg_type && s.seg_num == number
                    && exists|k: int|
                        0 <= k < self.segments@.len() && *s == #[trigger] self.segments@[k],
                None => forall|k: int| 0 <= k < self.segments@.len()
                    ==> !((#[trigger] self.segments@[k]).seg_type == seg_type
                        && self.segments@[k].seg_num == number),
            },
    {
        let mut k: usize = 0;
        while k < self.segments.len()
            invariant
                k <= self.segments@.len(),
                forall|t: int| 0 <= t < k
                    ==> !((#[trigger] self.segments@[t]).seg_type == seg_type
                        && self.segments@[t].seg_num == number),
            decreases self.segments@.len() - k,
        {
            let s = &self.segments[k];
            let ty_hit = match (s.seg_type, seg_type) {
                (SegmentType::Text, SegmentType::Text) => true,
                (SegmentType::Data, SegmentType::Data) => true,
                _ => false,
            };
            if ty_hit && s.seg_num == number {
                proof {
                    assert(*s == self.segments@[k as int]);
                }
                return Some(s);
            }
            k = k + 1;
        }
        None
    }

    /// The segments, for iteration by the caller.
    pub fn iter_segments(&self) -> (r: &Vec<Segment>)
        ensures
            r == &self.segments,
    {
        &self.segments
    }

    /// The segment whose loaded image covers the given memory address.
    pub fn segment_at_addr(&self, mem_addr: u64) -> (r: Option<&Segment>)
        requires
            forall|k: int| 0 <= k < self.segments@.len()
                ==> (#[trigger] self.segments@[k]).loading_address + self.segments@[k].size
                    <= u64::MAX,
        ensures
            match r {
                Some(s) => s.loading_address <= mem_addr
                    < s.loading_address + s.size
                    && exists|k: int|
                        0 <= k < self.segments@.len() && *s == #[trigger] self.segments@[k],
                None => forall|k: int| 0 <= k < self.segments@.len()
                    ==> !((#[trigger] self.segments@[k]).loading_address <= mem_addr
                        < self.segments@[k].loading_address + self.segments@[k].size),
            },
    {
        let mut k: usize = 0;
        while k < self.segments.len()
            invariant
                k <= self.segments@.len(),
                forall|t: int| 0 <= t < self.segments@.len()
                    ==> (#[trigger] self.segments@[t]).loading_address + self.segments@[t].size
                        <= u64::MAX,
                forall|t: int| 0 <= t < k
                    ==> !((#[trigger] self.segments@[t]).loading_address <= mem_addr
                        < self.segments@[t].loading_address + self.segments@[t].size),
            decreases self.segments@.len() - k,
        {
            let s = &self.segments[k];
            if s.loading_address <= mem_addr && mem_addr - s.loading_address < s.size as u64 {
                proof {
                    assert(*s == self.segments@[k as int]);
                }
                return Some(s);
            }
            k = k + 1;
        }
        None
    }
}

} // verus!
