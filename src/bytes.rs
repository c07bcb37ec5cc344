//! Byte-order-aware reading of unsigned integers from a byte buffer.
use vstd::prelude::*;
use byteorder::ByteOrder as _;

verus! {

/// The byte order that a file's header fixes for every multi-byte field.
#[derive(Clone, Copy, Debug, PartialEq, Eq, Structural)]
pub enum ByteOrder {
    LittleEndian,
    BigEndian,
}

/// The unsigned integer that `b` encodes, least significant byte first.
pub open spec fn uint_le(b: Seq<u8>) -> nat
    decreases b.len(),
{
    if b.len() == 0 {
        0
    } else {
        b[0] as nat + 256 * uint_le(b.drop_first())
    }
}

/// The unsigned integer that `b` encodes, most significant byte first.
pub open spec fn uint_be(b: Seq<u8>) -> nat
    decreases b.len(),
{
    if b.len() == 0 {
        0
    } else {
        uint_be(b.drop_last()) * 256 + b.last() as nat
    }
}

/// The unsigned integer of `n` bytes at `pos` of `d`, in byte order `o`.
pub open spec fn uint_at(d: Seq<u8>, o: ByteOrder, pos: int, n: int) -> nat {
    let b = d.subrange(pos, pos + n);
    match o {
        ByteOrder::LittleEndian => uint_le(b),
        ByteOrder::BigEndian => uint_be(b),
    }
}

pub open spec fn pow256(n: nat) -> nat
    decreases n,
{
    if n == 0 {
        1
    } else {
        256 * pow256((n - 1) as nat)
    }
}

pub proof fn lemma_uint_bound(b: Seq<u8>)
    ensures
        uint_le(b) < pow256(b.len()),
        uint_be(b) < pow256(b.len()),
    decreases b.len(),
{
    if b.len() > 0 {
        lemma_uint_bound(b.drop_first());
        lemma_uint_bound(b.drop_last());
        let p = pow256((b.len() - 1) as nat);
        assert((b[0] as nat) + 256 * uint_le(b.drop_first()) < 256 * p) by (nonlinear_arith)
            requires
                uint_le(b.drop_first()) < p,
                b[0] < 256,
        ;
        assert(uint_be(b.drop_last()) * 256 + (b.last() as nat) < 256 * p) by (nonlinear_arith)
            requires
                uint_be(b.drop_last()) < p,
                b.last() < 256,
        ;
    }
}

pub proof fn lemma_pow256_values()
    ensures
        pow256(1) == 256,
        pow256(2) == 65536,
        pow256(4) == 0x1_0000_0000,
        pow256(8) == 0x1_0000_0000_0000_0000,
{
    reveal_with_fuel(pow256, 9);
}

/// Relies on byteorder's `LittleEndian::read_uint`: the first `n` bytes of the
/// buffer, least significant first; it panics unless `1 <= n <= 8` and the
/// buffer holds `n` bytes.
#[verifier::external_body]
fn read_uint_le(d: &[u8], pos: usize, n: usize) -> (r: u64)
    requires
        1 <= n <= 8,
        pos + n <= d@.len(),
    ensures
        r as nat == uint_le(d@.subrange(pos as int, pos + n)),
{
    byteorder::LittleEndian::read_uint(&d[pos..], n)
}

/// Relies on byteorder's `BigEndian::read_uint`: the first `n` bytes of the
/// buffer, most significant first; it panics unless `1 <= n <= 8` and the
/// buffer holds `n` bytes.
#[verifier::external_body]
fn read_uint_be(d: &[u8], pos: usize, n: usize) -> (r: u64)
    requires
        1 <= n <= 8,
        pos + n <= d@.len(),
    ensures
        r as nat == uint_be(d@.subrange(pos as int, pos + n)),
{
    byteorder::BigEndian::read_uint(&d[pos..], n)
}

/// Reads the unsigned integer of `n` bytes at `pos`, in byte order `o`.
pub fn read_uint(d: &[u8], o: ByteOrder, pos: usize, n: usize) -> (r: u64)
    requires
        1 <= n <= 8,
        pos + n <= d@.len(),
    ensures
        r as nat == uint_at(d@, o, pos as int, n as int),
        r < pow256(n as nat),
{
    proof {
        lemma_uint_bound(d@.subrange(pos as int, pos + n));
    }
    match o {
        ByteOrder::LittleEndian => read_uint_le(d, pos, n),
        ByteOrder::BigEndian => read_uint_be(d, pos, n),
    }
}

/// Reads a 16-bit unsigned integer at `pos`.
pub fn read_u16(d: &[u8], o: ByteOrder, pos: usize) -> (r: u16)
    requires
        pos + 2 <= d@.len(),
    ensures
        r as nat == uint_at(d@, o, pos as int, 2),
{
    proof {
        lemma_pow256_values();
    }
    read_uint(d, o, pos, 2) as u16
}

/// Reads a 32-bit unsigned integer at `pos`.
pub fn read_u32(d: &[u8], o: ByteOrder, pos: usize) -> (r: u32)
    requires
        pos + 4 <= d@.len(),
    ensures
        r as nat == uint_at(d@, o, pos as int, 4),
{
    proof {
        lemma_pow256_values();
    }
    read_uint(d, o, pos, 4) as u32
}

/// Reads a 64-bit unsigned integer at `pos`.
pub fn read_u64(d: &[u8], o: ByteOrder, pos: usize) -> (r: u64)
    requires
        pos + 8 <= d@.len(),
    ensures
        r as nat == uint_at(d@, o, pos as int, 8),
{
    read_uint(d, o, pos, 8)
}

} // verus!
