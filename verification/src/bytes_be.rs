//! Big-endian integer fields of the on-disc format: reading them out of a
//! byte buffer and writing them back, with both directions proved inverse to
//! each other.
use vstd::prelude::*;
use vstd::arithmetic::power::pow;

verus! {

/// The integer value of a byte string read in big-endian order.
pub open spec fn be_val(s: Seq<u8>) -> int
    decreases s.len(),
{
    if s.len() == 0 {
        0
    } else {
        be_val(s.drop_last()) * 256 + s.last()
    }
}

/// The `n`-byte big-endian encoding of `v` (most significant byte first).
pub open spec fn be_bytes(v: int, n: nat) -> Seq<u8>
    decreases n,
{
    if n == 0 {
        Seq::empty()
    } else {
        be_bytes(v / 256, (n - 1) as nat).push((v % 256) as u8)
    }
}

pub proof fn lemma_be_bytes_len(v: int, n: nat)
    ensures
        be_bytes(v, n).len() == n,
    decreases n,
{
    if n > 0 {
        lemma_be_bytes_len(v / 256, (n - 1) as nat);
    }
}

/// An `n`-byte big-endian value is at least 0 and below `256^n`.
pub proof fn lemma_be_val_bound(s: Seq<u8>)
    ensures
        0 <= be_val(s) < pow(256, s.len()),
    decreases s.len(),
{
    reveal(pow);
    if s.len() == 0 {
    } else {
        let d = s.drop_last();
        lemma_be_val_bound(d);
        assert(pow(256, s.len()) == 256 * pow(256, d.len()));
        assert(be_val(d) * 256 + 255 < 256 * pow(256, d.len())) by (nonlinear_arith)
            requires
                0 <= be_val(d) < pow(256, d.len()),
        ;
    }
}

/// Encoding then decoding gives the value back, as long as it fits.
pub proof fn lemma_be_val_of_bytes(v: int, n: nat)
    requires
        0 <= v < pow(256, n),
    ensures
        be_val(be_bytes(v, n)) == v,
    decreases n,
{
    reveal(pow);
    if n > 0 {
        let q = v / 256;
        let r = v % 256;
        vstd::arithmetic::div_mod::lemma_fundamental_div_mod(v, 256);
        vstd::arithmetic::div_mod::lemma_mod_bound(v, 256);
        assert(pow(256, n) == 256 * pow(256, (n - 1) as nat));
        assert(q < pow(256, (n - 1) as nat)) by (nonlinear_arith)
            requires
                v < 256 * pow(256, (n - 1) as nat),
                v == 256 * q + r,
                0 <= r < 256,
                q >= 0,
        ;
        assert(q >= 0) by {
            vstd::arithmetic::div_mod::lemma_div_pos_is_pos(v, 256);
        }
        lemma_be_val_of_bytes(q, (n - 1) as nat);
        lemma_be_bytes_len(q, (n - 1) as nat);
        let b = be_bytes(v, n);
        assert(b.drop_last() =~= be_bytes(q, (n - 1) as nat));
        assert(b.last() == r as u8);
    }
}

/// Decoding then re-encoding at the same width gives the bytes back.
pub proof fn lemma_be_bytes_of_val(s: Seq<u8>)
    ensures
        be_bytes(be_val(s), s.len()) == s,
    decreases s.len(),
{
    if s.len() > 0 {
        let d = s.drop_last();
        let v = be_val(s);
        lemma_be_val_bound(d);
        assert(v == be_val(d) * 256 + s.last());
        assert(v / 256 == be_val(d) && v % 256 == s.last()) by (nonlinear_arith)
            requires
                v == be_val(d) * 256 + s.last(),
                0 <= be_val(d),
                0 <= s.last() < 256,
        ;
        lemma_be_bytes_of_val(d);
        lemma_be_bytes_len(be_val(d), d.len());
        assert(be_bytes(v, s.len()) =~= s);
    }
}

/// The powers of 256 for the field widths the format uses.
pub proof fn lemma_pow256_vals()
    ensures
        pow(256, 3) == 0x1000000,
        pow(256, 4) == 0x100000000,
        pow(256, 7) == 0x100000000000000,
{
    reveal_with_fuel(pow, 8);
}

/// Read the `n`-byte big-endian field at `pos` out of `data`.
pub fn read_be(data: &[u8], pos: usize, n: usize) -> (r: u64)
    requires
        pos + n <= data@.len(),
        n <= 7,
    ensures
        r == be_val(data@.subrange(pos as int, pos + n)),
        r < pow(256, n as nat),
{
    let mut r: u64 = 0;
    let mut i: usize = 0;
    let dlen: usize = data.len();
    proof {
        assert(data@.subrange(pos as int, pos as int) =~= Seq::<u8>::empty());
        vstd::arithmetic::power::lemma_pow0(256);
    }
    while i < n
        invariant
            i <= n <= 7,
            pos + n <= data@.len(),
            dlen == data@.len(),
            r == be_val(data@.subrange(pos as int, pos + i)),
            r < pow(256, i as nat),
        decreases n - i,
    {
        proof {
            let s = data@.subrange(pos as int, pos + i + 1);
            assert(s.drop_last() =~= data@.subrange(pos as int, pos + i));
            assert(s.last() == data@[pos + i]);
            vstd::arithmetic::power::lemma_pow1(256);
            vstd::arithmetic::power::lemma_pow_adds(256, i as nat, 1);
            assert(pow(256, (i + 1) as nat) == 256 * pow(256, i as nat))
                by (nonlinear_arith)
                requires
                    pow(256, (i + 1) as nat) == pow(256, i as nat) * pow(256, 1),
                    pow(256, 1) == 256,
            ;
            assert(r * 256 + 255 < 256 * pow(256, i as nat)) by (nonlinear_arith)
                requires
                    0 <= r < pow(256, i as nat),
            ;
            vstd::arithmetic::power::lemma_pow_increases(256, (i + 1) as nat, 7);
            lemma_pow256_vals();
        }
        r = r * 256 + (data[pos + i] as u64);
        i = i + 1;
    }
    r
}

/// Read the 3-byte big-endian field at `pos`: a string-table offset.
pub fn read_u24_be(data: &[u8], pos: usize) -> (r: u64)
    requires
        pos + 3 <= data@.len(),
    ensures
        r == be_val(data@.subrange(pos as int, pos + 3)),
        r < 0x1000000,
{
    proof {
        lemma_pow256_vals();
    }
    read_be(data, pos, 3)
}

/// Read the 4-byte big-endian field at `pos`.
pub fn read_u32_be(data: &[u8], pos: usize) -> (r: u64)
    requires
        pos + 4 <= data@.len(),
    ensures
        r == be_val(data@.subrange(pos as int, pos + 4)),
        r < 0x100000000,
{
    proof {
        lemma_pow256_vals();
    }
    read_be(data, pos, 4)
}

/// Append the `n`-byte big-endian encoding of `v` to `out`. Bytes of `v`
/// above the field width are dropped, as the on-disc record format does.
pub fn push_be(out: &mut Vec<u8>, v: u64, n: usize)
    ensures
        final(out)@ == old(out)@ + be_bytes(v as int, n as nat),
    decreases n,
{
    if n == 0 {
        proof {
            assert(out@ =~= out@ + be_bytes(v as int, 0));
        }
    } else {
        push_be(out, v / 256, n - 1);
        out.push((v % 256) as u8);
        proof {
            assert(out@ =~= old(out)@ + be_bytes(v as int, n as nat));
        }
    }
}

} // verus!
