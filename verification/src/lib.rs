//! Engine for the on-disc layout of an optical game-disc image: the file
//! system table (FST) packed as fixed-size records plus a string table, the
//! boot header, the apploader, the executable descriptor, and the machinery
//! that extracts this structure from an image and rebuilds a byte-exact image
//! from a directory tree.
use vstd::prelude::*;

pub mod bytes_be;
pub mod entry;
pub mod fst;
pub mod rebuild;
pub mod layout;
pub mod header;
pub mod apploader;
pub mod dol;
pub mod game;

verus! {

/// Why a byte buffer failed to parse as part of a disc image.
#[derive(Clone, Copy, Debug, PartialEq, Eq, Structural)]
pub enum ParseError {
    /// A field or a name would run past the end of the buffer.
    Truncated,
    /// A table record's discriminant byte was neither 0 nor 1.
    BadEntryTag,
    /// The table's first record was not a directory.
    RootNotDirectory,
    /// A record's index fields break the table's structural invariants.
    BadStructure,
    /// The boot header's magic constant did not match.
    BadMagic,
}

/// Why a table or image could not be rebuilt.
#[derive(Clone, Copy, Debug, PartialEq, Eq, Structural)]
pub enum RebuildError {
    /// The tree holds more entries than the table's count fields can
    /// address.
    TooManyEntries,
    /// A name would push the string table past its 3-byte offset field.
    NameTableTooLarge,
    /// A file is larger than the 4-byte size field allows.
    FileTooLarge,
    /// A computed byte offset does not fit its 4-byte field.
    OffsetTooLarge,
    /// The assembled image would exceed the fixed disc capacity; a smaller
    /// alignment may help.
    CapacityExceeded,
    /// Two content regions of the image claim the same bytes; the layout
    /// on disk is inconsistent.
    RegionsOverlap,
}

/// Buffer size used when streaming section bytes; a tuning parameter only.
pub const WRITE_CHUNK_SIZE: usize = 1048576;

/// Default byte alignment for file data when rebuilding an image (32 KiB).
pub const DEFAULT_ALIGNMENT: u64 = 32768;

/// Smallest alignment the rebuilder accepts.
pub const MIN_ALIGNMENT: u64 = 4;

/// Total capacity of a disc image in bytes; a rebuilt image has exactly
/// this size.
pub const ROM_SIZE: usize = 0x57058000;

/// Round `n` up to the next multiple of `m`. The bound admits every
/// input whose rounded value still fits the machine word.
pub fn align(n: u64, m: u64) -> (r: u64)
    requires
        m > 0,
        n + m - 1 <= u64::MAX,
    ensures
        r % m == 0,
        n <= r < n + m,
        r == spec_align(n as int, m as int),
{
    let extra: u64 = if n % m == 0 { 0 } else { 1 };
    proof {
        lemma_align_bounds(n as int, m as int);
    }
    ((n / m) + extra) * m
}

/// What `align` returns: `n` rounded up to a multiple of `m`.
pub open spec fn spec_align(n: int, m: int) -> int {
    if n % m == 0 {
        (n / m) * m
    } else {
        (n / m + 1) * m
    }
}

/// Rounding up lands on a multiple of `m` that is at least `n` and less
/// than `n + m`.
pub proof fn lemma_align_bounds(n: int, m: int)
    requires
        n >= 0,
        m > 0,
    ensures
        spec_align(n, m) % m == 0,
        n <= spec_align(n, m) < n + m,
{
    let q = n / m;
    let r = n % m;
    vstd::arithmetic::div_mod::lemma_fundamental_div_mod(n, m);
    vstd::arithmetic::div_mod::lemma_mod_bound(n, m);
    assert(n == q * m + r);
    assert((q + 1) * m == q * m + m) by (nonlinear_arith);
    if r == 0 {
        vstd::arithmetic::div_mod::lemma_mod_multiples_basic(q, m);
    } else {
        vstd::arithmetic::div_mod::lemma_mod_multiples_basic(q + 1, m);
        assert(spec_align(n, m) == q * m + m);
    }
}

/// Alignment is idempotent: aligning an already aligned value changes
/// nothing.
pub proof fn lemma_align_idempotent(n: int, m: int)
    requires
        n >= 0,
        m > 0,
    ensures
        spec_align(spec_align(n, m), m) == spec_align(n, m),
{
    lemma_align_bounds(n, m);
    let a = spec_align(n, m);
    vstd::arithmetic::div_mod::lemma_fundamental_div_mod(a, m);
}

} // verus!
