//! The fixed points of the container layout and the little-endian fields it
//! is made of.

use vstd::prelude::*;

verus! {

/// The only format version this codec understands.
pub const VERSION: u32 = 0;

/// Length of the fixed header; the offset table starts here.
pub const HEADER_SIZE: usize = 64;

/// Where the header stores the version.
pub const VERSION_AT: usize = 8;

/// Where the header stores the number of images.
pub const COUNT_AT: usize = 12;

/// Where the header stores the framewise separation.
pub const SEPARATION_AT: usize = 16;

/// Length of a 32-bit field.
pub const FIELD_SIZE: usize = 4;

/// Length of one (timestamp, offset) pair of the offset table.
pub const PAIR_SIZE: usize = 8;

/// Timestamp of the pair that closes the offset table.
pub const SENTINEL: u32 = 0xFFFF_FFFF;

/// Framewise separation assumed when the header stores zero.
pub const DEFAULT_SEPARATION: u32 = 1000;

/// Length of the signature at the start of a container.
pub const MAGIC_SIZE: usize = 8;

/// The signature at the start of every container.
pub const MAGIC: [u8; 8] = [0x89, 0x42, 0x49, 0x46, 0x0d, 0x0a, 0x1a, 0x0a];

/// The signature as a sequence of bytes.
pub open spec fn magic() -> Seq<u8> {
    MAGIC@
}

/// The 32-bit little-endian number stored in the four bytes of `data` that
/// start at `at`.
pub open spec fn le_u32(data: Seq<u8>, at: int) -> u32 {
    (data[at] as int + 256 * (data[at + 1] as int) + 65536 * (data[at + 2] as int) + 16777216 * (
    data[at + 3] as int)) as u32
}

/// The four bytes that store `v` in little-endian order.
pub open spec fn le_bytes(v: u32) -> Seq<u8> {
    seq![
        (v % 256) as u8,
        ((v / 256) % 256) as u8,
        ((v / 65536) % 256) as u8,
        (v / 16777216) as u8,
    ]
}

/// Reading back the bytes of a number gives the number.
pub proof fn lemma_le_bytes_read_back(v: u32)
    ensures
        le_bytes(v).len() == 4,
        le_u32(le_bytes(v), 0) == v,
{
}

/// A number is read wherever its four bytes stand.
pub proof fn lemma_le_u32_of_bytes(data: Seq<u8>, at: int, v: u32)
    requires
        0 <= at,
        at + 4 <= data.len(),
        forall|i: int| 0 <= i < 4 ==> data[at + i] == #[trigger] le_bytes(v)[i],
    ensures
        le_u32(data, at) == v,
{
    let b = le_bytes(v);
    assert(data[at] == b[0]);
    assert(data[at + 1] == b[1]);
    assert(data[at + 2] == b[2]);
    assert(data[at + 3] == b[3]);
    lemma_le_bytes_read_back(v);
}

/// Reads the little-endian number at `at`.
pub fn read_u32(data: &[u8], at: usize) -> (v: u32)
    requires
        at + 4 <= data@.len(),
    ensures
        v == le_u32(data@, at as int),
{
    let b0: u32 = data[at] as u32;
    let b1: u32 = data[at + 1] as u32;
    let b2: u32 = data[at + 2] as u32;
    let b3: u32 = data[at + 3] as u32;
    b0 + 256 * b1 + 65536 * b2 + 16777216 * b3
}

/// Appends the four little-endian bytes of `v`.
pub fn push_u32(out: &mut Vec<u8>, v: u32)
    ensures
        final(out)@ == old(out)@ + le_bytes(v),
{
    out.push((v % 256) as u8);
    out.push(((v / 256) % 256) as u8);
    out.push(((v / 65536) % 256) as u8);
    out.push((v / 16777216) as u8);
    assert(out@ =~= old(out)@ + le_bytes(v));
}

} // verus!
