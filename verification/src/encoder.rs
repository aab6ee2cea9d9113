//! Laying out a container from image payloads.

use vstd::prelude::*;
use crate::decoder::decoded;
use crate::laws::lemma_round_trip;
use crate::layout::{
    le_bytes, magic, push_u32, DEFAULT_SEPARATION, HEADER_SIZE, MAGIC, MAGIC_SIZE, PAIR_SIZE,
    SENTINEL, VERSION,
};
use crate::model::{Bif, BifError, BifView, ImageView};
use crate::naming::frame_name_of;

verus! {

/// The most images whose offset table still ends below 2^32.
pub const MAX_IMAGES: usize = 536_870_902;

/// A freshly laid out container and its header metadata.
#[derive(Debug)]
pub struct Encoded {
    /// Header metadata of the container; it lists no entries.
    pub index: Bif,
    /// The bytes of the container, from the signature to the last payload.
    pub bytes: Vec<u8>,
}

/// The payloads as sequences of bytes.
pub open spec fn payloads_of(images: Seq<Vec<u8>>) -> Seq<Seq<u8>> {
    Seq::new(images.len(), |i: int| images[i]@)
}

/// Where the payloads of a container of `n` images begin: behind the header
/// and a table of `n + 1` pairs.
pub open spec fn payload_start(n: nat) -> nat {
    (HEADER_SIZE + PAIR_SIZE * (n + 1)) as nat
}

/// Total length of the first `k` payloads.
pub open spec fn span(images: Seq<Seq<u8>>, k: nat) -> nat
    decreases k,
{
    if k == 0 {
        0
    } else {
        span(images, (k - 1) as nat) + images[k - 1].len()
    }
}

/// Offset of payload `i` from the start of the container; for `i` the
/// number of images, the end of the container.
pub open spec fn image_offset(images: Seq<Seq<u8>>, i: nat) -> nat {
    payload_start(images.len()) + span(images, i)
}

/// The header of a container of `n` images: signature, version, count, and
/// zeros up to the table.
pub open spec fn header_bytes(n: u32) -> Seq<u8> {
    magic() + le_bytes(VERSION) + le_bytes(n) + Seq::new(48, |i: int| 0u8)
}

/// One pair of the offset table.
pub open spec fn pair_bytes(timestamp: u32, offset: u32) -> Seq<u8> {
    le_bytes(timestamp) + le_bytes(offset)
}

/// The first `k` pairs of the offset table: image `i` is stamped
/// `interval * i` and points at its payload.
pub open spec fn table_bytes(images: Seq<Seq<u8>>, interval: u32, k: nat) -> Seq<u8>
    decreases k,
{
    if k == 0 {
        Seq::empty()
    } else {
        table_bytes(images, interval, (k - 1) as nat) + pair_bytes(
            (interval * (k - 1)) as u32,
            image_offset(images, (k - 1) as nat) as u32,
        )
    }
}

/// The first `k` payloads, back to back.
pub open spec fn payload_bytes(images: Seq<Seq<u8>>, k: nat) -> Seq<u8>
    decreases k,
{
    if k == 0 {
        Seq::empty()
    } else {
        payload_bytes(images, (k - 1) as nat) + images[k - 1]
    }
}

/// The whole container: header, table, sentinel pair pointing at the end,
/// payloads.
pub open spec fn container_bytes(images: Seq<Seq<u8>>, interval: u32) -> Seq<u8> {
    header_bytes(images.len() as u32) + table_bytes(images, interval, images.len()) + pair_bytes(
        SENTINEL,
        image_offset(images, images.len()) as u32,
    ) + payload_bytes(images, images.len())
}

/// The container can be written with 32-bit fields: its end lies below 2^32
/// and every timestamp lies below the sentinel.
pub open spec fn fits(images: Seq<Seq<u8>>, interval: u32) -> bool {
    &&& image_offset(images, images.len()) <= u32::MAX
    &&& images.len() > 0 ==> interval * (images.len() - 1) < SENTINEL
}

/// The entry that decoding gives for image `i` of the container of
/// `images`: stamped `interval * i`, named by the default framewise
/// separation, lying where payload `i` was put and as long as it.
pub open spec fn encoded_entry(images: Seq<Seq<u8>>, interval: u32, i: nat) -> ImageView {
    ImageView {
        name: frame_name_of((interval * i * DEFAULT_SEPARATION) as nat),
        timestamp: (interval * i) as u32,
        offset: image_offset(images, i) as u32,
        size: images[i as int].len() as usize,
    }
}

/// The index that decoding the container of `images` gives.
pub open spec fn encoded_index(path: Seq<char>, images: Seq<Seq<u8>>, interval: u32) -> BifView {
    BifView {
        path,
        version: VERSION,
        total_images: images.len() as u32,
        framewise_separation: DEFAULT_SEPARATION,
        images: Seq::new(images.len(), |i: int| encoded_entry(images, interval, i as nat)),
    }
}

/// More payloads never span less.
pub proof fn lemma_span_monotone(images: Seq<Seq<u8>>, i: nat, j: nat)
    requires
        i <= j,
    ensures
        span(images, i) <= span(images, j),
    decreases j,
{
    if i < j {
        lemma_span_monotone(images, i, (j - 1) as nat);
    }
}

/// Timestamps grow with the index.
pub proof fn lemma_timestamp_monotone(interval: u32, i: nat, j: nat)
    requires
        i <= j,
    ensures
        interval * i <= interval * j,
{
    assert(interval * i <= interval * j) by (nonlinear_arith)
        requires
            i <= j,
            interval >= 0,
    ;
}

/// Writes the header of a container of `n` images into the empty `out`.
fn push_header(out: &mut Vec<u8>, n: u32)
    requires
        old(out)@.len() == 0,
    ensures
        final(out)@ == header_bytes(n),
{
    let mut i: usize = 0;
    while i < MAGIC_SIZE
        invariant
            i <= 8,
            out@ == magic().subrange(0, i as int),
        decreases 8 - i,
    {
        out.push(MAGIC[i]);
        assert(out@ =~= magic().subrange(0, i + 1));
        i += 1;
    }
    assert(out@ =~= magic());
    push_u32(out, VERSION);
    push_u32(out, n);
    let ghost filled = out@;
    while out.len() < HEADER_SIZE
        invariant
            filled.len() == 16,
            16 <= out@.len() <= 64,
            out@ == filled + Seq::new((out@.len() - 16) as nat, |i: int| 0u8),
        decreases 64 - out@.len(),
    {
        out.push(0);
        assert(out@ =~= filled + Seq::new((out@.len() - 16) as nat, |i: int| 0u8));
    }
}

/// Lays out a container of the given payloads, in their order. Image `i` is
/// stamped `timestamp_interval * i`. `bif_file` names where the container
/// is meant to live and is handed on unread.
///
/// The framewise separation is reported in the returned metadata; the
/// header keeps that field zero, so a decoder reads the default. The
/// returned metadata lists no entries; decoding the bytes gives them.
///
/// Fails with `TooLarge`, and only so, when the layout does not fit the
/// 32-bit fields of the format.
pub fn encode(
    images: &Vec<Vec<u8>>,
    bif_file: String,
    timestamp_interval: u32,
    framewise_separation: u32,
) -> (result: Result<Encoded, BifError>)
    ensures
        match result {
            Ok(encoded) => {
                &&& fits(payloads_of(images@), timestamp_interval)
                &&& encoded.bytes@ == container_bytes(payloads_of(images@), timestamp_interval)
                &&& decoded(bif_file@, encoded.bytes@) == Ok::<BifView, BifError>(
                    encoded_index(bif_file@, payloads_of(images@), timestamp_interval),
                )
                &&& encoded.index@ == (BifView {
                    path: bif_file@,
                    version: VERSION,
                    total_images: images@.len() as u32,
                    framewise_separation,
                    images: Seq::empty(),
                })
            },
            Err(e) => e == BifError::TooLarge && !fits(payloads_of(images@), timestamp_interval),
        },
{
    let ghost payloads = payloads_of(images@);
    let n = images.len();
    if n > MAX_IMAGES {
        return Err(BifError::TooLarge);
    }
    if n > 0 {
        let interval: u64 = timestamp_interval as u64;
        let last: u64 = (n - 1) as u64;
        assert(interval * last <= u64::MAX) by (nonlinear_arith)
            requires
                interval <= 0xFFFF_FFFF,
                last <= 0xFFFF_FFFF,
        ;
        if interval * last >= SENTINEL as u64 {
            return Err(BifError::TooLarge);
        }
    }
    let mut out: Vec<u8> = Vec::new();
    push_header(&mut out, n as u32);
    let ghost header = out@;
    let mut offset: u32 = (HEADER_SIZE + PAIR_SIZE * (n + 1)) as u32;
    let mut i: usize = 0;
    while i < n
        invariant
            i <= n,
            n == images@.len(),
            n <= MAX_IMAGES,
            payloads == payloads_of(images@),
            n > 0 ==> timestamp_interval * (n - 1) < SENTINEL,
            offset == image_offset(payloads, i as nat),
            out@ == header + table_bytes(payloads, timestamp_interval, i as nat),
        decreases n - i,
    {
        proof {
            lemma_timestamp_monotone(timestamp_interval, i as nat, (n - 1) as nat);
        }
        let timestamp: u32 = timestamp_interval * (i as u32);
        push_u32(&mut out, timestamp);
        push_u32(&mut out, offset);
        assert(out@ =~= header + table_bytes(payloads, timestamp_interval, (i + 1) as nat));
        let len = images[i].len();
        assert(len == payloads[i as int].len());
        if len > (u32::MAX - offset) as usize {
            proof {
                lemma_span_monotone(payloads, (i + 1) as nat, n as nat);
            }
            return Err(BifError::TooLarge);
        }
        offset = offset + len as u32;
        i += 1;
    }
    push_u32(&mut out, SENTINEL);
    push_u32(&mut out, offset);
    let ghost index_bytes = out@;
    let mut j: usize = 0;
    while j < n
        invariant
            j <= n,
            n == images@.len(),
            payloads == payloads_of(images@),
            out@ == index_bytes + payload_bytes(payloads, j as nat),
        decreases n - j,
    {
        out.extend_from_slice(images[j].as_slice());
        assert(out@ =~= index_bytes + payload_bytes(payloads, (j + 1) as nat));
        j += 1;
    }
    assert(out@ =~= container_bytes(payloads, timestamp_interval));
    proof {
        lemma_round_trip(bif_file@, payloads, timestamp_interval);
    }
    let index = Bif {
        path: bif_file,
        version: VERSION,
        total_images: n as u32,
        framewise_separation,
        images: Vec::new(),
    };
    assert(index@.images =~= Seq::empty());
    Ok(Encoded { index, bytes: out })
}

} // verus!
