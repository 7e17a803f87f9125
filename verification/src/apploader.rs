//! The apploader (secondary loader) header: a date stamp, entry point,
//! and the code/trailer sizes whose aligned sum is the loader's on-disc
//! footprint.
use vstd::prelude::*;
use crate::bytes_be::{be_val, read_be, lemma_pow256_vals};
use crate::{align, spec_align, ParseError};

verus! {

/// Fixed byte offset of the apploader inside an image: right after the
/// boot header.
pub const APPLOADER_OFFSET: u64 = 0x2440;

/// The apploader's parsed header fields.
#[derive(Debug)]
pub struct Apploader {
    /// Raw bytes of the ten-character date stamp.
    pub date: Vec<u8>,
    pub entry_point: u64,
    pub code_size: usize,
    pub trailer_size: usize,
}

/// An apploader header stands at byte `off` of `data` and can be read.
pub open spec fn apploader_readable(data: Seq<u8>, off: int) -> bool {
    0 <= off <= usize::MAX && off + 28 <= data.len()
}

/// `a` is exactly the apploader header parsed from byte `off` of `data`.
pub open spec fn apploader_parsed(data: Seq<u8>, off: int, a: Apploader) -> bool {
    &&& apploader_readable(data, off)
    &&& a.date@ == data.subrange(off, off + 10)
    &&& a.entry_point == be_val(data.subrange(off + 16, off + 20))
    &&& a.code_size == be_val(data.subrange(off + 20, off + 24))
    &&& a.trailer_size == be_val(data.subrange(off + 24, off + 28))
    &&& a.code_size < 0x100000000
    &&& a.trailer_size < 0x100000000
}

impl Apploader {
    /// Parse the apploader header at byte `offset`: the date stamp, six
    /// bytes of padding, then entry point, code size and trailer size.
    /// Fails exactly when the header does not fit the buffer.
    pub fn new(data: &[u8], offset: u64) -> (r: Result<Apploader, ParseError>)
        ensures
            match r {
                Ok(a) => apploader_parsed(data@, offset as int, a),
                Err(e) => e == ParseError::Truncated
                    && !apploader_readable(data@, offset as int),
            },
    {
        let dlen = data.len();
        if offset > usize::MAX as u64 {
            return Err(ParseError::Truncated);
        }
        let off = offset as usize;
        if dlen < 28 || off > dlen - 28 {
            return Err(ParseError::Truncated);
        }
        proof {
            lemma_pow256_vals();
        }
        let mut date: Vec<u8> = Vec::new();
        let mut k: usize = 0;
        while k < 10
            invariant
                k <= 10,
                off + 28 <= dlen,
                dlen == data@.len(),
                date@ == data@.subrange(off as int, off + k),
            decreases 10 - k,
        {
            date.push(data[off + k]);
            proof {
                assert(date@ =~= data@.subrange(off as int, off + k + 1));
            }
            k = k + 1;
        }
        Ok(Apploader {
            date,
            entry_point: read_be(data, off + 16, 4),
            code_size: read_be(data, off + 20, 4) as usize,
            trailer_size: read_be(data, off + 24, 4) as usize,
        })
    }

    /// The loader's whole on-disc footprint: code plus trailer, rounded up
    /// to the 32-byte boundary the format fixes.
    pub fn total_size(&self) -> (r: usize)
        requires
            self.code_size + self.trailer_size + 31 <= usize::MAX,
        ensures
            r as int == spec_align(self.code_size + self.trailer_size, 32),
            r >= self.code_size + self.trailer_size,
    {
        align((self.code_size + self.trailer_size) as u64, 32) as usize
    }
}

} // verus!
