//! Byte-level primitives: the two byte orders the container can use, and
//! reading / appending of fixed-width integers at absolute offsets.
use vstd::prelude::*;

verus! {

/// Byte order of every multi-byte field that follows the endianness marker.
#[derive(Clone, Copy, Debug, PartialEq, Eq, Structural)]
pub enum ByteOrder {
    LittleEndian,
    BigEndian,
}

/// The 16-bit value stored at absolute offset `off`, in byte order `bo`.
pub open spec fn rd16(b: Seq<u8>, off: int, bo: ByteOrder) -> int {
    match bo {
        ByteOrder::LittleEndian => b[off] + 256 * b[off + 1],
        ByteOrder::BigEndian => b[off + 1] + 256 * b[off],
    }
}

/// The 32-bit value stored at absolute offset `off`, in byte order `bo`.
pub open spec fn rd32(b: Seq<u8>, off: int, bo: ByteOrder) -> int {
    match bo {
        ByteOrder::LittleEndian => b[off] + 256 * b[off + 1] + 65536 * b[off + 2]
            + 16777216 * b[off + 3],
        ByteOrder::BigEndian => b[off + 3] + 256 * b[off + 2] + 65536 * b[off + 1]
            + 16777216 * b[off],
    }
}

/// The 64-bit value stored at absolute offset `off`, in byte order `bo`.
pub open spec fn rd64(b: Seq<u8>, off: int, bo: ByteOrder) -> int {
    match bo {
        ByteOrder::LittleEndian => rd32(b, off, bo) + 0x1_0000_0000 * rd32(b, off + 4, bo),
        ByteOrder::BigEndian => rd32(b, off + 4, bo) + 0x1_0000_0000 * rd32(b, off, bo),
    }
}

/// The two bytes that encode `v` in byte order `bo`.
pub open spec fn enc16(v: int, bo: ByteOrder) -> Seq<u8> {
    match bo {
        ByteOrder::LittleEndian => seq![(v % 256) as u8, ((v / 256) % 256) as u8],
        ByteOrder::BigEndian => seq![((v / 256) % 256) as u8, (v % 256) as u8],
    }
}

/// The four bytes that encode `v` in byte order `bo`.
pub open spec fn enc32(v: int, bo: ByteOrder) -> Seq<u8> {
    match bo {
        ByteOrder::LittleEndian => seq![
            (v % 256) as u8,
            ((v / 256) % 256) as u8,
            ((v / 65536) % 256) as u8,
            ((v / 16777216) % 256) as u8,
        ],
        ByteOrder::BigEndian => seq![
            ((v / 16777216) % 256) as u8,
            ((v / 65536) % 256) as u8,
            ((v / 256) % 256) as u8,
            (v % 256) as u8,
        ],
    }
}

/// The eight bytes that encode `v` in byte order `bo`.
pub open spec fn enc64(v: int, bo: ByteOrder) -> Seq<u8> {
    match bo {
        ByteOrder::LittleEndian => enc32(v % 0x1_0000_0000, bo) + enc32(v / 0x1_0000_0000, bo),
        ByteOrder::BigEndian => enc32(v / 0x1_0000_0000, bo) + enc32(v % 0x1_0000_0000, bo),
    }
}

/// Decoding inverts encoding for 16-bit values.
pub proof fn lemma_enc16_rd16(b: Seq<u8>, off: int, v: int, bo: ByteOrder)
    requires
        0 <= v < 0x1_0000,
        0 <= off,
        off + 2 <= b.len(),
        b.subrange(off, off + 2) == enc16(v, bo),
    ensures
        rd16(b, off, bo) == v,
{
    assert(b[off] == enc16(v, bo)[0]);
    assert(b[off + 1] == enc16(v, bo)[1]);
}

/// Decoding inverts encoding for 32-bit values.
pub proof fn lemma_enc32_rd32(b: Seq<u8>, off: int, v: int, bo: ByteOrder)
    requires
        0 <= v < 0x1_0000_0000,
        0 <= off,
        off + 4 <= b.len(),
        b.subrange(off, off + 4) == enc32(v, bo),
    ensures
        rd32(b, off, bo) == v,
{
    assert(b[off] == enc32(v, bo)[0]);
    assert(b[off + 1] == enc32(v, bo)[1]);
    assert(b[off + 2] == enc32(v, bo)[2]);
    assert(b[off + 3] == enc32(v, bo)[3]);
}

/// Decoding inverts encoding for 64-bit values.
pub proof fn lemma_enc64_rd64(b: Seq<u8>, off: int, v: int, bo: ByteOrder)
    requires
        0 <= v < 0x1_0000_0000_0000_0000,
        0 <= off,
        off + 8 <= b.len(),
        b.subrange(off, off + 8) == enc64(v, bo),
    ensures
        rd64(b, off, bo) == v,
{
    let lo = v % 0x1_0000_0000;
    let hi = v / 0x1_0000_0000;
    match bo {
        ByteOrder::LittleEndian => {
            assert(b.subrange(off, off + 4) =~= enc32(lo, bo)) by {
                assert forall|i: int| 0 <= i < 4 implies b.subrange(off, off + 4)[i] == enc32(
                    lo,
                    bo,
                )[i] by {
                    assert(b[off + i] == enc64(v, bo)[i]);
                }
            }
            assert(b.subrange(off + 4, off + 8) =~= enc32(hi, bo)) by {
                assert forall|i: int| 0 <= i < 4 implies b.subrange(off + 4, off + 8)[i] == enc32(
                    hi,
                    bo,
                )[i] by {
                    assert(b[off + 4 + i] == enc64(v, bo)[4 + i]);
                }
            }
            lemma_enc32_rd32(b, off, lo, bo);
            lemma_enc32_rd32(b, off + 4, hi, bo);
        },
        ByteOrder::BigEndian => {
            assert(b.subrange(off, off + 4) =~= enc32(hi, bo)) by {
                assert forall|i: int| 0 <= i < 4 implies b.subrange(off, off + 4)[i] == enc32(
                    hi,
                    bo,
                )[i] by {
                    assert(b[off + i] == enc64(v, bo)[i]);
                }
            }
            assert(b.subrange(off + 4, off + 8) =~= enc32(lo, bo)) by {
                assert forall|i: int| 0 <= i < 4 implies b.subrange(off + 4, off + 8)[i] == enc32(
                    lo,
                    bo,
                )[i] by {
                    assert(b[off + 4 + i] == enc64(v, bo)[4 + i]);
                }
            }
            lemma_enc32_rd32(b, off, hi, bo);
            lemma_enc32_rd32(b, off + 4, lo, bo);
        },
    }
}

/// Reads the 16-bit field at `off`.
pub fn read_u16(b: &Vec<u8>, off: usize, bo: ByteOrder) -> (r: u16)
    requires
        off + 2 <= b@.len(),
    ensures
        r as int == rd16(b@, off as int, bo),
{
    let n: usize = b.len();
    assert(off + 2 <= n);
    match bo {
        ByteOrder::LittleEndian => b[off] as u16 + 256 * (b[off + 1] as u16),
        ByteOrder::BigEndian => b[off + 1] as u16 + 256 * (b[off] as u16),
    }
}

/// Reads the 32-bit field at `off`.
pub fn read_u32(b: &Vec<u8>, off: usize, bo: ByteOrder) -> (r: u32)
    requires
        off + 4 <= b@.len(),
    ensures
        r as int == rd32(b@, off as int, bo),
{
    let n: usize = b.len();
    assert(off + 4 <= n);
    match bo {
        ByteOrder::LittleEndian => b[off] as u32 + 256 * (b[off + 1] as u32) + 65536 * (b[off
            + 2] as u32) + 16777216 * (b[off + 3] as u32),
        ByteOrder::BigEndian => b[off + 3] as u32 + 256 * (b[off + 2] as u32) + 65536 * (b[off
            + 1] as u32) + 16777216 * (b[off] as u32),
    }
}

/// Reads the 64-bit field at `off`.
pub fn read_u64(b: &Vec<u8>, off: usize, bo: ByteOrder) -> (r: u64)
    requires
        off + 8 <= b@.len(),
    ensures
        r as int == rd64(b@, off as int, bo),
{
    let n: usize = b.len();
    assert(off + 8 <= n);
    match bo {
        ByteOrder::LittleEndian => {
            let lo = read_u32(b, off, bo);
            let hi = read_u32(b, off + 4, bo);
            lo as u64 + 0x1_0000_0000 * (hi as u64)
        },
        ByteOrder::BigEndian => {
            let lo = read_u32(b, off + 4, bo);
            let hi = read_u32(b, off, bo);
            lo as u64 + 0x1_0000_0000 * (hi as u64)
        },
    }
}

/// Appends the two bytes of `v` to `out`.
pub fn push_u16(out: &mut Vec<u8>, v: u16, bo: ByteOrder)
    ensures
        final(out)@ == old(out)@ + enc16(v as int, bo),
{
    let ghost pre = out@;
    match bo {
        ByteOrder::LittleEndian => {
            out.push((v % 256) as u8);
            out.push((v / 256) as u8);
        },
        ByteOrder::BigEndian => {
            out.push((v / 256) as u8);
            out.push((v % 256) as u8);
        },
    }
    assert(out@ =~= pre + enc16(v as int, bo));
}

/// Appends the four bytes of `v` to `out`.
pub fn push_u32(out: &mut Vec<u8>, v: u32, bo: ByteOrder)
    ensures
        final(out)@ == old(out)@ + enc32(v as int, bo),
{
    let ghost pre = out@;
    match bo {
        ByteOrder::LittleEndian => {
            out.push((v % 256) as u8);
            out.push(((v / 256) % 256) as u8);
            out.push(((v / 65536) % 256) as u8);
            out.push(((v / 16777216) % 256) as u8);
        },
        ByteOrder::BigEndian => {
            out.push(((v / 16777216) % 256) as u8);
            out.push(((v / 65536) % 256) as u8);
            out.push(((v / 256) % 256) as u8);
            out.push((v % 256) as u8);
        },
    }
    assert(out@ =~= pre + enc32(v as int, bo));
}

/// Appends the eight bytes of `v` to `out`.
pub fn push_u64(out: &mut Vec<u8>, v: u64, bo: ByteOrder)
    ensures
        final(out)@ == old(out)@ + enc64(v as int, bo),
{
    let ghost pre = out@;
    let lo = (v % 0x1_0000_0000) as u32;
    let hi = (v / 0x1_0000_0000) as u32;
    match bo {
        ByteOrder::LittleEndian => {
            push_u32(out, lo, bo);
            push_u32(out, hi, bo);
        },
        ByteOrder::BigEndian => {
            push_u32(out, hi, bo);
            push_u32(out, lo, bo);
        },
    }
    assert(out@ =~= pre + enc64(v as int, bo));
}

/// Appends `n` zero bytes to `out`.
pub fn push_zeros(out: &mut Vec<u8>, n: usize)
    ensures
        final(out)@ == old(out)@ + Seq::new(n as nat, |i: int| 0u8),
{
    let ghost pre = out@;
    let mut k: usize = 0;
    while k < n
        invariant
            k <= n,
            out@ == pre + Seq::new(k as nat, |i: int| 0u8),
        decreases n - k,
    {
        out.push(0u8);
        assert(out@ =~= pre + Seq::new((k + 1) as nat, |i: int| 0u8));
        k = k + 1;
    }
}

/// Appends all of `src` to `out`.
pub fn push_bytes(out: &mut Vec<u8>, src: &Vec<u8>)
    ensures
        final(out)@ == old(out)@ + src@,
{
    let ghost pre = out@;
    let mut k: usize = 0;
    while k < src.len()
        invariant
            k <= src@.len(),
            out@ == pre + src@.subrange(0, k as int),
        decreases src@.len() - k,
    {
        out.push(src[k]);
        assert(out@ =~= pre + src@.subrange(0, (k + 1) as int));
        k = k + 1;
    }
    assert(src@.subrange(0, src@.len() as int) =~= src@);
}

} // verus!
