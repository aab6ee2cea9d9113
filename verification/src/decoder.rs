//! Parsing a container into its index.

use vstd::prelude::*;
use crate::layout::{
    le_u32, magic, read_u32, COUNT_AT, DEFAULT_SEPARATION, FIELD_SIZE, HEADER_SIZE, MAGIC,
    MAGIC_SIZE, PAIR_SIZE, SENTINEL, SEPARATION_AT, VERSION, VERSION_AT,
};
use crate::model::{Bif, BifError, BifView, Image, ImageView};
use crate::naming::{frame_name, frame_name_of};

verus! {

/// Where pair `k` of the offset table starts.
pub open spec fn pair_position(k: nat) -> int {
    HEADER_SIZE + PAIR_SIZE * k
}

/// Pair `k` of the offset table lies wholly inside `data`.
pub open spec fn pair_present(data: Seq<u8>, k: nat) -> bool {
    pair_position(k) + PAIR_SIZE <= data.len()
}

/// The timestamp field of pair `k` of the offset table.
pub open spec fn pair_timestamp(data: Seq<u8>, k: nat) -> u32 {
    le_u32(data, pair_position(k))
}

/// The offset field of pair `k` of the offset table.
pub open spec fn pair_offset(data: Seq<u8>, k: nat) -> u32 {
    le_u32(data, pair_position(k) + FIELD_SIZE)
}

/// Pair `k` points before the pair in front of it.
pub open spec fn pair_disordered(data: Seq<u8>, k: nat) -> bool {
    k > 0 && pair_offset(data, k) < pair_offset(data, (k - 1) as nat)
}

/// Reading the table cannot go past pair `k`: the pair is cut off by the end
/// of the data, or runs backwards, or is the sentinel.
pub open spec fn stops_at(data: Seq<u8>, k: nat) -> bool {
    !pair_present(data, k) || pair_disordered(data, k) || pair_timestamp(data, k) == SENTINEL
}

/// The first pair at or after `from` at which reading the table stops.
pub open spec fn first_stop(data: Seq<u8>, from: nat) -> nat
    decreases data.len() - 8 * from,
{
    if stops_at(data, from) {
        from
    } else {
        first_stop(data, from + 1)
    }
}

/// The framewise separation that the header declares.
pub open spec fn separation_of(data: Seq<u8>) -> u32 {
    if le_u32(data, SEPARATION_AT as int) == 0 {
        DEFAULT_SEPARATION
    } else {
        le_u32(data, SEPARATION_AT as int)
    }
}

/// The image that pairs `i` and `i + 1` of the table describe.
pub open spec fn entry_of(data: Seq<u8>, i: nat) -> ImageView {
    ImageView {
        name: frame_name_of((pair_timestamp(data, i) * separation_of(data)) as nat),
        timestamp: pair_timestamp(data, i),
        offset: pair_offset(data, i),
        size: (pair_offset(data, i + 1) - pair_offset(data, i)) as usize,
    }
}

/// What decoding `data` gives: the index, or the first failure met when
/// reading front to back.
pub open spec fn decoded(path: Seq<char>, data: Seq<u8>) -> Result<BifView, BifError> {
    let stop = first_stop(data, 0);
    if data.len() < MAGIC_SIZE {
        Err(BifError::IoError)
    } else if data.subrange(0, MAGIC_SIZE as int) != magic() {
        Err(BifError::InvalidFormat)
    } else if data.len() < VERSION_AT + FIELD_SIZE {
        Err(BifError::IoError)
    } else if le_u32(data, VERSION_AT as int) != VERSION {
        Err(BifError::UnsupportedVersion)
    } else if data.len() < SEPARATION_AT + FIELD_SIZE {
        Err(BifError::IoError)
    } else if !pair_present(data, stop) {
        Err(BifError::IoError)
    } else if pair_disordered(data, stop) {
        Err(BifError::CorruptIndex)
    } else if stop != le_u32(data, COUNT_AT as int) {
        Err(BifError::CorruptIndex)
    } else {
        Ok(
            BifView {
                path,
                version: VERSION,
                total_images: le_u32(data, COUNT_AT as int),
                framewise_separation: separation_of(data),
                images: Seq::new(stop, |i: int| entry_of(data, i as nat)),
            },
        )
    }
}

/// `first_stop` is the least pair at which reading stops.
pub proof fn lemma_first_stop_is_least(data: Seq<u8>, from: nat)
    ensures
        from <= first_stop(data, from),
        stops_at(data, first_stop(data, from)),
        forall|k: nat| from <= k < first_stop(data, from) ==> !stops_at(data, k),
    decreases data.len() - 8 * from,
{
    if !stops_at(data, from) {
        lemma_first_stop_is_least(data, from + 1);
    }
}

/// Where no pair before `stop` stops the reading and `stop` does, the
/// reading stops at `stop`.
pub proof fn lemma_first_stop_found(data: Seq<u8>, from: nat, stop: nat)
    requires
        from <= stop,
        stops_at(data, stop),
        forall|k: nat| from <= k < stop ==> !stops_at(data, k),
    ensures
        first_stop(data, from) == stop,
    decreases stop - from,
{
    if from < stop {
        assert(!stops_at(data, from));
        lemma_first_stop_found(data, from + 1, stop);
    }
}

/// Whether `data` begins with the signature.
fn is_bif(data: &[u8]) -> (ok: bool)
    requires
        data@.len() >= 8,
    ensures
        ok == (data@.subrange(0, 8) == magic()),
{
    let mut i: usize = 0;
    while i < MAGIC_SIZE
        invariant
            i <= 8,
            data@.len() >= 8,
            forall|j: int| 0 <= j < i ==> data@[j] == magic()[j],
        decreases 8 - i,
    {
        if data[i] != MAGIC[i] {
            proof {
                assert(data@.subrange(0, 8)[i as int] == data@[i as int]);
            }
            return false;
        }
        i += 1;
    }
    assert(data@.subrange(0, 8) =~= magic());
    true
}

/// Parses the container held in `data` into its index. `path` names where
/// the container lives and is handed on unread.
///
/// Fails on the first defect met when reading front to back: data that ends
/// before a field that is needed, a wrong signature, an unknown version, a
/// pair of the table that points before the one in front of it, and a table
/// that holds another number of images than the header declares.
pub fn decode(path: String, data: &[u8]) -> (result: Result<Bif, BifError>)
    ensures
        match result {
            Ok(bif) => decoded(path@, data@) == Ok::<BifView, BifError>(bif@),
            Err(e) => decoded(path@, data@) == Err::<BifView, BifError>(e),
        },
{
    if data.len() < MAGIC_SIZE {
        return Err(BifError::IoError);
    }
    if !is_bif(data) {
        return Err(BifError::InvalidFormat);
    }
    if data.len() < VERSION_AT + FIELD_SIZE {
        return Err(BifError::IoError);
    }
    let version = read_u32(data, VERSION_AT);
    if version != VERSION {
        return Err(BifError::UnsupportedVersion);
    }
    if data.len() < SEPARATION_AT + FIELD_SIZE {
        return Err(BifError::IoError);
    }
    let total_images = read_u32(data, COUNT_AT);
    let raw_separation = read_u32(data, SEPARATION_AT);
    let framewise_separation = if raw_separation == 0 {
        DEFAULT_SEPARATION
    } else {
        raw_separation
    };

    let mut images: Vec<Image> = Vec::new();
    let mut prev_timestamp: u32 = 0;
    let mut prev_offset: u32 = 0;
    let mut at: usize = HEADER_SIZE;
    let mut k: usize = 0;
    loop
        invariant
            data@.len() >= 20,
            data@.subrange(0, 8) == magic(),
            version == VERSION,
            version == le_u32(data@, 8),
            total_images == le_u32(data@, 12),
            framewise_separation == separation_of(data@),
            at == 64 + 8 * k,
            k > 0 ==> at <= data@.len(),
            forall|j: nat| j < k ==> !stops_at(data@, j),
            images@.len() == (if k == 0 { 0int } else { k - 1 }),
            forall|i: int|
                0 <= i < images@.len() ==> (#[trigger] images@[i])@ == entry_of(data@, i as nat),
            k > 0 ==> prev_timestamp == pair_timestamp(data@, (k - 1) as nat),
            k > 0 ==> prev_offset == pair_offset(data@, (k - 1) as nat),
        decreases data@.len() + 64 - at,
    {
        if data.len() < at || data.len() - at < PAIR_SIZE {
            proof {
                lemma_first_stop_found(data@, 0, k as nat);
            }
            return Err(BifError::IoError);
        }
        let timestamp = read_u32(data, at);
        let offset = read_u32(data, at + FIELD_SIZE);
        if k > 0 {
            if offset < prev_offset {
                proof {
                    lemma_first_stop_found(data@, 0, k as nat);
                }
                return Err(BifError::CorruptIndex);
            }
            assert(prev_timestamp as u64 * framewise_separation as u64 <= u64::MAX)
                by (nonlinear_arith)
                requires
                    prev_timestamp <= u32::MAX,
                    framewise_separation <= u32::MAX,
            ;
            let name = frame_name(prev_timestamp as u64 * framewise_separation as u64);
            images.push(
                Image {
                    name,
                    timestamp: prev_timestamp,
                    offset: prev_offset,
                    size: (offset - prev_offset) as usize,
                },
            );
        }
        if timestamp == SENTINEL {
            proof {
                lemma_first_stop_found(data@, 0, k as nat);
            }
            if total_images as usize != images.len() {
                return Err(BifError::CorruptIndex);
            }
            let bif = Bif { path, version, total_images, framewise_separation, images };
            proof {
                assert(bif@.images =~= Seq::new(k as nat, |i: int| entry_of(data@, i as nat)));
            }
            return Ok(bif);
        }
        prev_timestamp = timestamp;
        prev_offset = offset;
        k += 1;
        at += PAIR_SIZE;
    }
}

} // verus!
