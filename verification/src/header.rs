//! The boot header at the start of a disc image: identification codes, the
//! title, the magic constant, and the offset/size fields that locate the
//! executable and the file system table.
use vstd::prelude::*;
use crate::bytes_be::{be_val, be_bytes, read_be, push_be, lemma_pow256_vals};
use crate::ParseError;

verus! {

/// Total on-disc size of the boot header.
pub const GAME_HEADER_SIZE: usize = 0x2440;

/// The validation constant every image carries at byte 0x1c.
pub const MAGIC_WORD: u32 = 0xc2339f3d;

/// Offset of the executable-descriptor offset field.
pub const DOL_OFFSET_OFFSET: u64 = 0x0420;

/// Offset of the table-offset field.
pub const FST_OFFSET_OFFSET: u64 = 0x0424;

/// Offset of the table-size field.
pub const FST_SIZE_OFFSET: u64 = 0x0428;

/// Length of the null-padded title region.
pub const GAME_NAME_SIZE: usize = 0x03e0;

/// The trailing sub-block of the boot header.
#[derive(Debug)]
pub struct HeaderInformation {
    pub debug_monitor_size: u32,
    pub simulated_memory_size: u32,
    pub argument_offset: u32,
    pub debug_flag: u32,
    pub track_location: u32,
    pub track_size: u32,
    pub country_code: u32,
    pub unknown: u32,
}

/// The boot header's parsed fields. Text fields hold the raw on-disc
/// bytes: this crate models every stored string as a byte string, so
/// parsing never fails on a text encoding — converting for display, and
/// any encoding policy, belongs to the caller.
#[derive(Debug)]
pub struct Header {
    pub game_code: Vec<u8>,
    pub maker_code: Vec<u8>,
    pub disk_id: u8,
    pub version: u8,
    pub audio_streaming: u8,
    pub stream_buffer_size: u8,
    /// Title bytes up to the first null (at most the whole title region).
    pub title: Vec<u8>,
    pub debug_monitor_offset: u32,
    pub debug_monitor_load_addr: u32,
    pub dol_offset: u64,
    pub fst_offset: u64,
    pub fst_size: usize,
    pub max_fst_size: usize,
    pub user_position: u32,
    pub user_length: u32,
    pub unknown: u32,
    pub information: HeaderInformation,
}

impl HeaderInformation {
    /// Read the eight fields of the sub-block at byte `offset`.
    pub fn new(data: &[u8], offset: usize) -> (r: Result<HeaderInformation, ParseError>)
        ensures
            match r {
                Ok(h) => {
                    &&& offset + 32 <= data@.len()
                    &&& h.debug_monitor_size == be_val(data@.subrange(offset as int, offset + 4))
                    &&& h.simulated_memory_size == be_val(data@.subrange(offset + 4, offset + 8))
                    &&& h.argument_offset == be_val(data@.subrange(offset + 8, offset + 12))
                    &&& h.debug_flag == be_val(data@.subrange(offset + 12, offset + 16))
                    &&& h.track_location == be_val(data@.subrange(offset + 16, offset + 20))
                    &&& h.track_size == be_val(data@.subrange(offset + 20, offset + 24))
                    &&& h.country_code == be_val(data@.subrange(offset + 24, offset + 28))
                    &&& h.unknown == be_val(data@.subrange(offset + 28, offset + 32))
                },
                Err(e) => e == ParseError::Truncated && offset + 32 > data@.len(),
            },
    {
        if data.len() < 32 || offset > data.len() - 32 {
            return Err(ParseError::Truncated);
        }
        proof {
            lemma_pow256_vals();
        }
        Ok(HeaderInformation {
            debug_monitor_size: read_be(data, offset, 4) as u32,
            simulated_memory_size: read_be(data, offset + 4, 4) as u32,
            argument_offset: read_be(data, offset + 8, 4) as u32,
            debug_flag: read_be(data, offset + 12, 4) as u32,
            track_location: read_be(data, offset + 16, 4) as u32,
            track_size: read_be(data, offset + 20, 4) as u32,
            country_code: read_be(data, offset + 24, 4) as u32,
            unknown: read_be(data, offset + 28, 4) as u32,
        })
    }

    /// Append the sub-block's 32 on-disc bytes.
    pub fn write(&self, out: &mut Vec<u8>)
        ensures
            final(out)@.len() == old(out)@.len() + 32,
            final(out)@ == old(out)@
                + be_bytes(self.debug_monitor_size as int, 4)
                + be_bytes(self.simulated_memory_size as int, 4)
                + be_bytes(self.argument_offset as int, 4)
                + be_bytes(self.debug_flag as int, 4)
                + be_bytes(self.track_location as int, 4)
                + be_bytes(self.track_size as int, 4)
                + be_bytes(self.country_code as int, 4)
                + be_bytes(self.unknown as int, 4),
    {
        push_be(out, self.debug_monitor_size as u64, 4);
        push_be(out, self.simulated_memory_size as u64, 4);
        push_be(out, self.argument_offset as u64, 4);
        push_be(out, self.debug_flag as u64, 4);
        push_be(out, self.track_location as u64, 4);
        push_be(out, self.track_size as u64, 4);
        push_be(out, self.country_code as u64, 4);
        push_be(out, self.unknown as u64, 4);
        proof {
            crate::bytes_be::lemma_be_bytes_len(self.debug_monitor_size as int, 4);
            crate::bytes_be::lemma_be_bytes_len(self.simulated_memory_size as int, 4);
            crate::bytes_be::lemma_be_bytes_len(self.argument_offset as int, 4);
            crate::bytes_be::lemma_be_bytes_len(self.debug_flag as int, 4);
            crate::bytes_be::lemma_be_bytes_len(self.track_location as int, 4);
            crate::bytes_be::lemma_be_bytes_len(self.track_size as int, 4);
            crate::bytes_be::lemma_be_bytes_len(self.country_code as int, 4);
            crate::bytes_be::lemma_be_bytes_len(self.unknown as int, 4);
        }
    }
}

/// The title bytes: everything before the first null of the title region
/// (the whole region when no null appears).
pub fn read_padded_field(data: &[u8], start: usize, maxlen: usize) -> (r: Vec<u8>)
    requires
        start + maxlen <= data@.len(),
    ensures
        r@.len() <= maxlen,
        r@ == data@.subrange(start as int, start + r@.len()),
        forall|k: int| 0 <= k < r@.len() ==> #[trigger] data@[start + k] != 0,
        r@.len() < maxlen ==> data@[start + r@.len()] == 0,
{
    let mut v: Vec<u8> = Vec::new();
    let mut k: usize = 0;
    let dl: usize = data.len();
    proof {
        assert(v@ =~= data@.subrange(start as int, start as int));
    }
    while k < maxlen
        invariant
            k <= maxlen,
            start + maxlen <= dl,
            dl == data@.len(),
            v@.len() == k,
            v@ == data@.subrange(start as int, start + k),
            forall|t: int| 0 <= t < k ==> #[trigger] data@[start + t] != 0,
        decreases maxlen - k,
    {
        let b = data[start + k];
        if b == 0 {
            return v;
        }
        v.push(b);
        proof {
            assert(v@ =~= data@.subrange(start as int, start + k + 1));
        }
        k = k + 1;
    }
    v
}

/// The boot header's offset/size slot for the executable descriptor.
pub open spec fn header_dol_slot(data: Seq<u8>, off: int) -> int {
    be_val(data.subrange(off + 0x420, off + 0x424))
}

/// The boot header's offset slot for the file system table.
pub open spec fn header_fst_slot(data: Seq<u8>, off: int) -> int {
    be_val(data.subrange(off + 0x424, off + 0x428))
}

/// A boot header stands at byte `off` of `data` and can be read: the
/// block is inside the buffer and the magic constant matches.
pub open spec fn header_readable(data: Seq<u8>, off: int) -> bool {
    &&& 0 <= off <= usize::MAX
    &&& off + 0x460 <= data.len()
    &&& be_val(data.subrange(off + 0x1c, off + 0x20)) == MAGIC_WORD
}

/// `h` is exactly the header parsed from byte `off` of `data`: every
/// field equals its fixed slot, and the title is the slot's bytes up to
/// the first null.
pub open spec fn header_parsed(data: Seq<u8>, off: int, h: Header) -> bool {
    &&& header_readable(data, off)
    &&& h.game_code@ == data.subrange(off, off + 4)
    &&& h.maker_code@ == data.subrange(off + 4, off + 6)
    &&& h.disk_id == data[off + 6]
    &&& h.version == data[off + 7]
    &&& h.audio_streaming == data[off + 8]
    &&& h.stream_buffer_size == data[off + 9]
    &&& h.title@.len() <= GAME_NAME_SIZE
    &&& h.title@ == data.subrange(off + 0x20, off + 0x20 + h.title@.len())
    &&& (forall|k: int| 0 <= k < h.title@.len() ==> #[trigger] data[off + 0x20 + k] != 0)
    &&& (h.title@.len() < GAME_NAME_SIZE ==> data[off + 0x20 + h.title@.len()] == 0)
    &&& h.debug_monitor_offset == be_val(data.subrange(off + 0x400, off + 0x404))
    &&& h.debug_monitor_load_addr == be_val(data.subrange(off + 0x404, off + 0x408))
    &&& h.dol_offset == header_dol_slot(data, off)
    &&& h.fst_offset == header_fst_slot(data, off)
    &&& h.fst_size == be_val(data.subrange(off + 0x428, off + 0x42c))
    &&& h.max_fst_size == be_val(data.subrange(off + 0x42c, off + 0x430))
    &&& h.user_position == be_val(data.subrange(off + 0x430, off + 0x434))
    &&& h.user_length == be_val(data.subrange(off + 0x434, off + 0x438))
    &&& h.unknown == be_val(data.subrange(off + 0x438, off + 0x43c))
    &&& h.information.debug_monitor_size == be_val(data.subrange(off + 0x440, off + 0x444))
    &&& h.information.simulated_memory_size == be_val(data.subrange(off + 0x444, off + 0x448))
    &&& h.information.argument_offset == be_val(data.subrange(off + 0x448, off + 0x44c))
    &&& h.information.debug_flag == be_val(data.subrange(off + 0x44c, off + 0x450))
    &&& h.information.track_location == be_val(data.subrange(off + 0x450, off + 0x454))
    &&& h.information.track_size == be_val(data.subrange(off + 0x454, off + 0x458))
    &&& h.information.country_code == be_val(data.subrange(off + 0x458, off + 0x45c))
    &&& h.information.unknown == be_val(data.subrange(off + 0x45c, off + 0x460))
    &&& h.dol_offset < 0x100000000
    &&& h.fst_offset < 0x100000000
    &&& h.fst_size < 0x100000000
}

/// A run of `n` zero bytes.
pub open spec fn zero_bytes(n: int) -> Seq<u8> {
    Seq::new(n as nat, |i: int| 0u8)
}

/// The whole serialized boot header block: every field at its fixed slot,
/// the title null-padded to its region, zero bytes everywhere else.
pub open spec fn header_bytes(h: Header) -> Seq<u8> {
    h.game_code@ + h.maker_code@
        + seq![h.disk_id, h.version, h.audio_streaming, h.stream_buffer_size]
        + zero_bytes(0x12)
        + be_bytes(MAGIC_WORD as int, 4)
        + h.title@ + zero_bytes(0x3e0 - h.title@.len())
        + be_bytes(h.debug_monitor_offset as int, 4)
        + be_bytes(h.debug_monitor_load_addr as int, 4)
        + zero_bytes(0x18)
        + be_bytes(h.dol_offset as int, 4)
        + be_bytes(h.fst_offset as int, 4)
        + be_bytes(h.fst_size as int, 4)
        + be_bytes(h.max_fst_size as int, 4)
        + be_bytes(h.user_position as int, 4)
        + be_bytes(h.user_length as int, 4)
        + be_bytes(h.unknown as int, 4)
        + zero_bytes(4)
        + be_bytes(h.information.debug_monitor_size as int, 4)
        + be_bytes(h.information.simulated_memory_size as int, 4)
        + be_bytes(h.information.argument_offset as int, 4)
        + be_bytes(h.information.debug_flag as int, 4)
        + be_bytes(h.information.track_location as int, 4)
        + be_bytes(h.information.track_size as int, 4)
        + be_bytes(h.information.country_code as int, 4)
        + be_bytes(h.information.unknown as int, 4)
        + zero_bytes(0x2440 - 0x460)
}

/// A serialized header parses back as itself: every field of the written
/// block decodes to the field it came from, so rewriting the block (as
/// the layout patch does) preserves the whole header.
#[verifier::rlimit(100)]
#[verifier::spinoff_prover]
pub proof fn lemma_header_bytes_parse(h: Header)
    requires
        h.game_code@.len() == 4,
        h.maker_code@.len() == 2,
        h.title@.len() <= GAME_NAME_SIZE,
        forall|k: int| 0 <= k < h.title@.len() ==> h.title@[k] != 0,
        h.dol_offset < 0x100000000,
        h.fst_offset < 0x100000000,
        h.fst_size < 0x100000000,
        h.max_fst_size < 0x100000000,
    ensures
        header_parsed(header_bytes(h), 0, h),
{
    let data = header_bytes(h);
    crate::bytes_be::lemma_pow256_vals();
    crate::bytes_be::lemma_be_bytes_len(MAGIC_WORD as int, 4);
    crate::bytes_be::lemma_be_bytes_len(h.debug_monitor_offset as int, 4);
    crate::bytes_be::lemma_be_bytes_len(h.debug_monitor_load_addr as int, 4);
    crate::bytes_be::lemma_be_bytes_len(h.dol_offset as int, 4);
    crate::bytes_be::lemma_be_bytes_len(h.fst_offset as int, 4);
    crate::bytes_be::lemma_be_bytes_len(h.fst_size as int, 4);
    crate::bytes_be::lemma_be_bytes_len(h.max_fst_size as int, 4);
    crate::bytes_be::lemma_be_bytes_len(h.user_position as int, 4);
    crate::bytes_be::lemma_be_bytes_len(h.user_length as int, 4);
    crate::bytes_be::lemma_be_bytes_len(h.unknown as int, 4);
    crate::bytes_be::lemma_be_bytes_len(h.information.debug_monitor_size as int, 4);
    crate::bytes_be::lemma_be_bytes_len(h.information.simulated_memory_size as int, 4);
    crate::bytes_be::lemma_be_bytes_len(h.information.argument_offset as int, 4);
    crate::bytes_be::lemma_be_bytes_len(h.information.debug_flag as int, 4);
    crate::bytes_be::lemma_be_bytes_len(h.information.track_location as int, 4);
    crate::bytes_be::lemma_be_bytes_len(h.information.track_size as int, 4);
    crate::bytes_be::lemma_be_bytes_len(h.information.country_code as int, 4);
    crate::bytes_be::lemma_be_bytes_len(h.information.unknown as int, 4);
    crate::bytes_be::lemma_be_val_of_bytes(MAGIC_WORD as int, 4);
    crate::bytes_be::lemma_be_val_of_bytes(h.debug_monitor_offset as int, 4);
    crate::bytes_be::lemma_be_val_of_bytes(h.debug_monitor_load_addr as int, 4);
    crate::bytes_be::lemma_be_val_of_bytes(h.dol_offset as int, 4);
    crate::bytes_be::lemma_be_val_of_bytes(h.fst_offset as int, 4);
    crate::bytes_be::lemma_be_val_of_bytes(h.fst_size as int, 4);
    crate::bytes_be::lemma_be_val_of_bytes(h.max_fst_size as int, 4);
    crate::bytes_be::lemma_be_val_of_bytes(h.user_position as int, 4);
    crate::bytes_be::lemma_be_val_of_bytes(h.user_length as int, 4);
    crate::bytes_be::lemma_be_val_of_bytes(h.unknown as int, 4);
    crate::bytes_be::lemma_be_val_of_bytes(h.information.debug_monitor_size as int, 4);
    crate::bytes_be::lemma_be_val_of_bytes(h.information.simulated_memory_size as int, 4);
    crate::bytes_be::lemma_be_val_of_bytes(h.information.argument_offset as int, 4);
    crate::bytes_be::lemma_be_val_of_bytes(h.information.debug_flag as int, 4);
    crate::bytes_be::lemma_be_val_of_bytes(h.information.track_location as int, 4);
    crate::bytes_be::lemma_be_val_of_bytes(h.information.track_size as int, 4);
    crate::bytes_be::lemma_be_val_of_bytes(h.information.country_code as int, 4);
    crate::bytes_be::lemma_be_val_of_bytes(h.information.unknown as int, 4);
    assert(data.len() == 0x2440);
    assert(data.subrange(0, 4) =~= h.game_code@);
    assert(data.subrange(4, 6) =~= h.maker_code@);
    assert(data[6] == h.disk_id && data[7] == h.version);
    assert(data[8] == h.audio_streaming && data[9] == h.stream_buffer_size);
    assert(data.subrange(0x1c, 0x20) =~= be_bytes(MAGIC_WORD as int, 4));
    assert(data.subrange(0x20, 0x20 + h.title@.len() as int) =~= h.title@);
    if h.title@.len() < GAME_NAME_SIZE {
        assert(data[0x20 + h.title@.len() as int] == 0);
    }
    assert(data.subrange(0x400, 0x404) =~= be_bytes(h.debug_monitor_offset as int, 4));
    assert(data.subrange(0x404, 0x408) =~= be_bytes(h.debug_monitor_load_addr as int, 4));
    assert(data.subrange(0x420, 0x424) =~= be_bytes(h.dol_offset as int, 4));
    assert(data.subrange(0x424, 0x428) =~= be_bytes(h.fst_offset as int, 4));
    assert(data.subrange(0x428, 0x42c) =~= be_bytes(h.fst_size as int, 4));
    assert(data.subrange(0x42c, 0x430) =~= be_bytes(h.max_fst_size as int, 4));
    assert(data.subrange(0x430, 0x434) =~= be_bytes(h.user_position as int, 4));
    assert(data.subrange(0x434, 0x438) =~= be_bytes(h.user_length as int, 4));
    assert(data.subrange(0x438, 0x43c) =~= be_bytes(h.unknown as int, 4));
    assert(data.subrange(0x440, 0x444)
        =~= be_bytes(h.information.debug_monitor_size as int, 4));
    assert(data.subrange(0x444, 0x448)
        =~= be_bytes(h.information.simulated_memory_size as int, 4));
    assert(data.subrange(0x448, 0x44c) =~= be_bytes(h.information.argument_offset as int, 4));
    assert(data.subrange(0x44c, 0x450) =~= be_bytes(h.information.debug_flag as int, 4));
    assert(data.subrange(0x450, 0x454) =~= be_bytes(h.information.track_location as int, 4));
    assert(data.subrange(0x454, 0x458) =~= be_bytes(h.information.track_size as int, 4));
    assert(data.subrange(0x458, 0x45c) =~= be_bytes(h.information.country_code as int, 4));
    assert(data.subrange(0x45c, 0x460) =~= be_bytes(h.information.unknown as int, 4));
}

impl Header {
    /// Parse the boot header standing at byte `offset` of `data`: the
    /// identification codes, the magic constant, the null-terminated
    /// title, and every offset/size field, in their fixed slots; the
    /// information sub-block follows four reserved zero bytes, where the
    /// serializer puts it, so a rewritten header reads back unchanged.
    /// Text fields are taken as uninterpreted bytes — the contract pins
    /// the title to the slot's raw bytes and no encoding is validated;
    /// interpreting them is the caller's. Fails exactly when the block
    /// does not fit the buffer or the magic constant differs.
    pub fn new(data: &[u8], offset: u64) -> (r: Result<Header, ParseError>)
        ensures
            match r {
                Ok(h) => header_parsed(data@, offset as int, h),
                Err(e) => {
                    &&& !header_readable(data@, offset as int)
                    &&& (e == ParseError::Truncated || e == ParseError::BadMagic)
                    &&& e == ParseError::Truncated
                        ==> offset + 0x460 > data@.len() || offset > usize::MAX
                    &&& e == ParseError::BadMagic
                        ==> offset + 0x460 <= data@.len()
                            && be_val(data@.subrange(offset as int + 0x1c, offset as int + 0x20))
                                != MAGIC_WORD
                },
            },
    {
        let dlen = data.len();
        if offset > usize::MAX as u64 {
            return Err(ParseError::Truncated);
        }
        let off = offset as usize;
        if dlen < 0x460 || off > dlen - 0x460 {
            return Err(ParseError::Truncated);
        }
        proof {
            lemma_pow256_vals();
        }
        let magic = read_be(data, off + 0x1c, 4);
        if magic != MAGIC_WORD as u64 {
            return Err(ParseError::BadMagic);
        }
        let mut game_code: Vec<u8> = Vec::new();
        game_code.push(data[off]);
        game_code.push(data[off + 1]);
        game_code.push(data[off + 2]);
        game_code.push(data[off + 3]);
        let mut maker_code: Vec<u8> = Vec::new();
        maker_code.push(data[off + 4]);
        maker_code.push(data[off + 5]);
        let title = read_padded_field(data, off + 0x20, GAME_NAME_SIZE);
        let information = match HeaderInformation::new(data, off + 0x440) {
            Ok(h) => h,
            Err(_) => vstd::pervasive::unreached(),
        };
        proof {
            assert(game_code@ =~= data@.subrange(off as int, off + 4));
            assert(maker_code@ =~= data@.subrange(off + 4, off + 6));
        }
        Ok(Header {
            game_code,
            maker_code,
            disk_id: data[off + 6],
            version: data[off + 7],
            audio_streaming: data[off + 8],
            stream_buffer_size: data[off + 9],
            title,
            debug_monitor_offset: read_be(data, off + 0x400, 4) as u32,
            debug_monitor_load_addr: read_be(data, off + 0x404, 4) as u32,
            dol_offset: read_be(data, off + 0x420, 4),
            fst_offset: read_be(data, off + 0x424, 4),
            fst_size: read_be(data, off + 0x428, 4) as usize,
            max_fst_size: read_be(data, off + 0x42c, 4) as usize,
            user_position: read_be(data, off + 0x430, 4) as u32,
            user_length: read_be(data, off + 0x434, 4) as u32,
            unknown: read_be(data, off + 0x438, 4) as u32,
            information,
        })
    }

    /// Serialize the header back to its full fixed-size block: all fields
    /// in their slots, zero padding everywhere else, the title null-padded
    /// to its region.
    pub fn write(&self) -> (out: Vec<u8>)
        requires
            self.game_code@.len() == 4,
            self.maker_code@.len() == 2,
            self.title@.len() <= GAME_NAME_SIZE,
            self.dol_offset < 0x100000000,
            self.fst_offset < 0x100000000,
            self.fst_size < 0x100000000,
            self.max_fst_size < 0x100000000,
        ensures
            out@ == header_bytes(*self),
            out@.len() == GAME_HEADER_SIZE,
            out@.subrange(0x420, 0x424) == be_bytes(self.dol_offset as int, 4),
            out@.subrange(0x424, 0x428) == be_bytes(self.fst_offset as int, 4),
            out@.subrange(0x428, 0x42c) == be_bytes(self.fst_size as int, 4),
            out@.subrange(0x42c, 0x430) == be_bytes(self.max_fst_size as int, 4),
    {
        let mut out: Vec<u8> = Vec::new();
        let mut k: usize = 0;
        while k < 4
            invariant
                out@ == self.game_code@.subrange(0, k as int),
                k <= 4,
                self.game_code@.len() == 4,
            decreases 4 - k,
        {
            out.push(self.game_code[k]);
            proof {
                assert(out@ =~= self.game_code@.subrange(0, k + 1));
            }
            k = k + 1;
        }
        proof {
            assert(self.game_code@.subrange(0, 4) =~= self.game_code@);
        }
        out.push(self.maker_code[0]);
        out.push(self.maker_code[1]);
        out.push(self.disk_id);
        out.push(self.version);
        out.push(self.audio_streaming);
        out.push(self.stream_buffer_size);
        proof {
            assert(out@ =~= self.game_code@ + self.maker_code@
                + seq![self.disk_id, self.version, self.audio_streaming,
                    self.stream_buffer_size]);
        }
        let ghost b0 = out@;
        pad_zeros(&mut out, 0x1c);
        proof {
            assert(out@ =~= b0 + zero_bytes(0x12));
        }
        push_be(&mut out, MAGIC_WORD as u64, 4);
        proof {
            crate::bytes_be::lemma_be_bytes_len(MAGIC_WORD as int, 4);
            assert(out@ =~= b0 + zero_bytes(0x12) + be_bytes(MAGIC_WORD as int, 4));
        }
        let ghost before_title = out@;
        let mut t: usize = 0;
        let tlen = self.title.len();
        while t < tlen
            invariant
                t <= tlen,
                tlen == self.title@.len() <= GAME_NAME_SIZE,
                out@ == before_title + self.title@.subrange(0, t as int),
            decreases tlen - t,
        {
            out.push(self.title[t]);
            proof {
                assert(out@ =~= before_title + self.title@.subrange(0, t + 1));
            }
            t = t + 1;
        }
        proof {
            assert(self.title@.subrange(0, self.title@.len() as int) =~= self.title@);
        }
        let ghost g1 = out@;
        pad_zeros(&mut out, 0x400);
        proof {
            assert(out@ =~= g1 + zero_bytes(0x3e0 - self.title@.len()));
        }
        let ghost g2 = out@;
        push_be(&mut out, self.debug_monitor_offset as u64, 4);
        push_be(&mut out, self.debug_monitor_load_addr as u64, 4);
        proof {
            crate::bytes_be::lemma_be_bytes_len(self.debug_monitor_offset as int, 4);
            crate::bytes_be::lemma_be_bytes_len(self.debug_monitor_load_addr as int, 4);
        }
        let ghost g3 = out@;
        pad_zeros(&mut out, 0x420);
        proof {
            assert(out@ =~= g3 + zero_bytes(0x18));
        }
        push_be(&mut out, self.dol_offset, 4);
        push_be(&mut out, self.fst_offset, 4);
        push_be(&mut out, self.fst_size as u64, 4);
        push_be(&mut out, self.max_fst_size as u64, 4);
        push_be(&mut out, self.user_position as u64, 4);
        push_be(&mut out, self.user_length as u64, 4);
        push_be(&mut out, self.unknown as u64, 4);
        let ghost s43c = out@;
        proof {
            crate::bytes_be::lemma_be_bytes_len(self.dol_offset as int, 4);
            crate::bytes_be::lemma_be_bytes_len(self.fst_offset as int, 4);
            crate::bytes_be::lemma_be_bytes_len(self.fst_size as int, 4);
            crate::bytes_be::lemma_be_bytes_len(self.max_fst_size as int, 4);
            crate::bytes_be::lemma_be_bytes_len(self.user_position as int, 4);
            crate::bytes_be::lemma_be_bytes_len(self.user_length as int, 4);
            crate::bytes_be::lemma_be_bytes_len(self.unknown as int, 4);
            assert(s43c.len() == 0x43c);
            assert(s43c.subrange(0x420, 0x424) =~= be_bytes(self.dol_offset as int, 4));
            assert(s43c.subrange(0x424, 0x428) =~= be_bytes(self.fst_offset as int, 4));
            assert(s43c.subrange(0x428, 0x42c) =~= be_bytes(self.fst_size as int, 4));
            assert(s43c.subrange(0x42c, 0x430) =~= be_bytes(self.max_fst_size as int, 4));
        }
        pad_zeros(&mut out, 0x440);
        proof {
            assert(out@ =~= s43c + zero_bytes(4));
        }
        let ghost s440 = out@;
        self.information.write(&mut out);
        let ghost s460 = out@;
        pad_zeros(&mut out, GAME_HEADER_SIZE);
        proof {
            assert(out@ =~= s460 + zero_bytes(0x2440 - 0x460));
        }
        proof {
            assert(s440.subrange(0, 0x43c) == s43c.subrange(0, 0x43c));
            assert(s43c.subrange(0, 0x43c) =~= s43c);
            assert(s460.subrange(0, 0x440) =~= s440);
            assert(out@.subrange(0, 0x460) == s460);
            assert forall|k: int| 0x420 <= k < 0x430 implies out@[k] == s43c[k] by {
                assert(out@[k] == out@.subrange(0, 0x460)[k]);
                assert(s460[k] == s460.subrange(0, 0x440)[k]);
                assert(s440[k] == s440.subrange(0, 0x43c)[k]);
            }
            assert(out@.subrange(0x420, 0x424) =~= s43c.subrange(0x420, 0x424));
            assert(out@.subrange(0x424, 0x428) =~= s43c.subrange(0x424, 0x428));
            assert(out@.subrange(0x428, 0x42c) =~= s43c.subrange(0x428, 0x42c));
            assert(out@.subrange(0x42c, 0x430) =~= s43c.subrange(0x42c, 0x430));
            assert(out@ =~= header_bytes(*self));
        }
        out
    }
}

/// Append zero bytes until `out` is `upto` bytes long.
pub fn pad_zeros(out: &mut Vec<u8>, upto: usize)
    requires
        old(out)@.len() <= upto,
    ensures
        final(out)@.len() == upto,
        final(out)@.subrange(0, old(out)@.len() as int) == old(out)@,
        forall|k: int| old(out)@.len() <= k < upto ==> final(out)@[k] == 0,
{
    let mut k = out.len();
    while k < upto
        invariant
            out@.len() == k <= upto,
            out@.subrange(0, old(out)@.len() as int) == old(out)@,
            old(out)@.len() <= k,
            forall|t: int| old(out)@.len() <= t < k ==> out@[t] == 0,
        decreases upto - k,
    {
        out.push(0);
        proof {
            assert(out@.subrange(0, old(out)@.len() as int) =~= old(out)@);
        }
        k = k + 1;
    }
}

} // verus!
