//! What holds of the codec as a whole: decoding what was encoded, the order
//! of decoded offsets, and which defect gives which failure.

use vstd::prelude::*;
use crate::decoder::{
    decoded, entry_of, lemma_first_stop_found, lemma_first_stop_is_least, pair_disordered,
    pair_offset, pair_present, pair_timestamp, separation_of, stops_at,
};
use crate::encoder::{
    container_bytes, encoded_entry, encoded_index, fits, header_bytes, image_offset,
    lemma_span_monotone, lemma_timestamp_monotone, pair_bytes, payload_bytes, span, table_bytes,
};
use crate::extract::{payload_available, payload_of};
use crate::layout::{
    le_bytes, le_u32, lemma_le_u32_of_bytes, magic, DEFAULT_SEPARATION, SENTINEL, VERSION,
};
use crate::model::{BifError, BifView};

verus! {

/// The timestamp that the table of an encoded container holds at pair `k`.
pub open spec fn encoded_timestamp(images: Seq<Seq<u8>>, interval: u32, k: nat) -> u32 {
    if k < images.len() {
        (interval * k) as u32
    } else {
        SENTINEL
    }
}

/// A table of `k` pairs is `8 * k` bytes long.
proof fn lemma_table_len(images: Seq<Seq<u8>>, interval: u32, k: nat)
    ensures
        table_bytes(images, interval, k).len() == 8 * k,
    decreases k,
{
    if k > 0 {
        lemma_table_len(images, interval, (k - 1) as nat);
    }
}

/// The first `k` payloads, back to back, are as long as they span.
proof fn lemma_payload_len(images: Seq<Seq<u8>>, k: nat)
    ensures
        payload_bytes(images, k).len() == span(images, k),
    decreases k,
{
    if k > 0 {
        lemma_payload_len(images, (k - 1) as nat);
    }
}

/// Byte `b` of pair `k` in a table of `m` pairs.
proof fn lemma_table_pair(images: Seq<Seq<u8>>, interval: u32, m: nat, k: nat, b: int)
    requires
        k < m,
        0 <= b < 8,
    ensures
        8 * k + b < table_bytes(images, interval, m).len(),
        table_bytes(images, interval, m)[8 * k + b] == pair_bytes(
            (interval * k) as u32,
            image_offset(images, k) as u32,
        )[b],
    decreases m,
{
    lemma_table_len(images, interval, m);
    lemma_table_len(images, interval, (m - 1) as nat);
    if k < m - 1 {
        lemma_table_pair(images, interval, (m - 1) as nat, k, b);
    }
}

/// Byte `b` of pair `k` of the table of an encoded container.
proof fn lemma_container_pair_byte(images: Seq<Seq<u8>>, interval: u32, k: nat, b: int)
    requires
        k <= images.len(),
        0 <= b < 8,
    ensures
        64 + 8 * k + 8 <= container_bytes(images, interval).len(),
        container_bytes(images, interval)[64 + 8 * k + b] == pair_bytes(
            encoded_timestamp(images, interval, k),
            image_offset(images, k) as u32,
        )[b],
{
    let n = images.len();
    lemma_table_len(images, interval, n);
    if k < n {
        lemma_table_pair(images, interval, n, k, b);
    }
}

/// Pair `k` of the table of an encoded container, as the decoder reads it.
proof fn lemma_container_pair(images: Seq<Seq<u8>>, interval: u32, k: nat)
    requires
        k <= images.len(),
    ensures
        pair_present(container_bytes(images, interval), k),
        pair_timestamp(container_bytes(images, interval), k) == encoded_timestamp(
            images,
            interval,
            k,
        ),
        pair_offset(container_bytes(images, interval), k) == image_offset(images, k) as u32,
{
    let c = container_bytes(images, interval);
    let t = encoded_timestamp(images, interval, k);
    let o = image_offset(images, k) as u32;
    assert forall|i: int| 0 <= i < 4 implies c[64 + 8 * k + i] == #[trigger] le_bytes(t)[i] by {
        lemma_container_pair_byte(images, interval, k, i);
    }
    assert forall|i: int| 0 <= i < 4 implies c[64 + 8 * k + 4 + i] == #[trigger] le_bytes(o)[i] by {
        lemma_container_pair_byte(images, interval, k, 4 + i);
    }
    lemma_container_pair_byte(images, interval, k, 0);
    lemma_le_u32_of_bytes(c, (64 + 8 * k) as int, t);
    lemma_le_u32_of_bytes(c, (64 + 8 * k + 4) as int, o);
}

/// The header of an encoded container, as the decoder reads it.
proof fn lemma_container_header(images: Seq<Seq<u8>>, interval: u32)
    requires
        images.len() <= u32::MAX,
    ensures
        container_bytes(images, interval).len() >= 72,
        container_bytes(images, interval).subrange(0, 8) == magic(),
        le_u32(container_bytes(images, interval), 8) == VERSION,
        le_u32(container_bytes(images, interval), 12) == images.len(),
        le_u32(container_bytes(images, interval), 16) == 0,
{
    let c = container_bytes(images, interval);
    let n = images.len() as u32;
    let h = header_bytes(n);
    assert(h.len() == 64);
    assert forall|i: int| 0 <= i < 64 implies c[i] == h[i] by {}
    assert(c.subrange(0, 8) =~= magic());
    assert forall|i: int| 0 <= i < 4 implies c[8 + i] == #[trigger] le_bytes(VERSION)[i] by {
        assert(c[8 + i] == h[8 + i]);
    }
    assert forall|i: int| 0 <= i < 4 implies c[12 + i] == #[trigger] le_bytes(n)[i] by {
        assert(c[12 + i] == h[12 + i]);
    }
    lemma_le_u32_of_bytes(c, 8, VERSION);
    lemma_le_u32_of_bytes(c, 12, n);
    assert(c[16] == h[16] && c[17] == h[17] && c[18] == h[18] && c[19] == h[19]);
}

/// Decoding an encoded container gives one entry for each image, in order:
/// entry `i` is stamped `interval * i`, lies where payload `i` was put and
/// is as long as payload `i`. The header fields come back as written, and
/// the framewise separation, which the encoder leaves zero, as the default.
/// This holds for every number of images, zero included.
pub proof fn lemma_round_trip(path: Seq<char>, images: Seq<Seq<u8>>, interval: u32)
    requires
        fits(images, interval),
    ensures
        decoded(path, container_bytes(images, interval)) == Ok::<BifView, BifError>(
            encoded_index(path, images, interval),
        ),
{
    let c = container_bytes(images, interval);
    let n = images.len();
    lemma_container_header(images, interval);
    assert forall|k: nat| k < n implies !stops_at(c, k) by {
        lemma_container_pair(images, interval, k);
        lemma_timestamp_monotone(interval, k, (n - 1) as nat);
        lemma_span_monotone(images, k, n);
        if k > 0 {
            lemma_container_pair(images, interval, (k - 1) as nat);
            lemma_span_monotone(images, (k - 1) as nat, k);
        }
    }
    lemma_container_pair(images, interval, n);
    if n > 0 {
        lemma_container_pair(images, interval, (n - 1) as nat);
        lemma_span_monotone(images, (n - 1) as nat, n);
    }
    assert(stops_at(c, n));
    lemma_first_stop_found(c, 0, n);
    assert(separation_of(c) == DEFAULT_SEPARATION);
    let read_back = Seq::new(n, |i: int| entry_of(c, i as nat));
    let expected = Seq::new(n, |i: int| encoded_entry(images, interval, i as nat));
    assert forall|i: int| 0 <= i < n implies read_back[i] == expected[i] by {
        let k = i as nat;
        lemma_container_pair(images, interval, k);
        lemma_container_pair(images, interval, k + 1);
        lemma_timestamp_monotone(interval, k, (n - 1) as nat);
        lemma_span_monotone(images, k + 1, n);
        assert(span(images, k + 1) == span(images, k) + images[i].len());
    }
    assert(read_back =~= expected);
}

/// The sentinel pair of an encoded container points at the container's end.
pub proof fn lemma_sentinel_points_at_end(images: Seq<Seq<u8>>, interval: u32)
    requires
        fits(images, interval),
    ensures
        pair_timestamp(container_bytes(images, interval), images.len()) == SENTINEL,
        pair_offset(container_bytes(images, interval), images.len()) == container_bytes(
            images,
            interval,
        ).len(),
{
    lemma_container_pair(images, interval, images.len());
    lemma_table_len(images, interval, images.len());
    lemma_payload_len(images, images.len());
}

/// Payload `i` stands unchanged among the first `m` payloads.
proof fn lemma_payload_at(images: Seq<Seq<u8>>, m: nat, i: nat)
    requires
        i < m,
    ensures
        span(images, i) + images[i as int].len() <= payload_bytes(images, m).len(),
        payload_bytes(images, m).subrange(
            span(images, i) as int,
            (span(images, i) + images[i as int].len()) as int,
        ) == images[i as int],
    decreases m,
{
    let before = payload_bytes(images, (m - 1) as nat);
    let all = payload_bytes(images, m);
    let from = span(images, i) as int;
    let to = (span(images, i) + images[i as int].len()) as int;
    lemma_payload_len(images, (m - 1) as nat);
    lemma_payload_len(images, m);
    if i < m - 1 {
        lemma_payload_at(images, (m - 1) as nat, i);
        assert(all.subrange(from, to) =~= before.subrange(from, to));
    } else {
        assert(all.subrange(from, to) =~= images[i as int]);
    }
}

/// Every payload stands unchanged in the encoded container, at the offset
/// that decoding reports for it.
pub proof fn lemma_payload_in_place(images: Seq<Seq<u8>>, interval: u32, i: nat)
    requires
        fits(images, interval),
        i < images.len(),
    ensures
        image_offset(images, i) + images[i as int].len() <= container_bytes(images, interval).len(),
        container_bytes(images, interval).subrange(
            image_offset(images, i) as int,
            (image_offset(images, i) + images[i as int].len()) as int,
        ) == images[i as int],
{
    let n = images.len();
    let c = container_bytes(images, interval);
    let p = payload_bytes(images, n);
    let from = span(images, i) as int;
    let to = (span(images, i) + images[i as int].len()) as int;
    lemma_table_len(images, interval, n);
    lemma_payload_len(images, n);
    lemma_payload_at(images, n, i);
    let start = image_offset(images, i) as int;
    assert(c.subrange(start, start + images[i as int].len()) =~= p.subrange(from, to));
}

/// Cutting entry `i` of the decoded index out of an encoded container gives
/// payload `i` back.
pub proof fn lemma_extraction_round_trip(images: Seq<Seq<u8>>, interval: u32, i: nat)
    requires
        fits(images, interval),
        i < images.len(),
    ensures
        payload_available(
            container_bytes(images, interval),
            encoded_entry(images, interval, i),
        ),
        payload_of(container_bytes(images, interval), encoded_entry(images, interval, i))
            == images[i as int],
{
    lemma_payload_in_place(images, interval, i);
    lemma_span_monotone(images, i + 1, images.len());
    let entry = encoded_entry(images, interval, i);
    if entry.size == 0 {
        assert(images[i as int] =~= Seq::<u8>::empty());
    }
}

/// A decoded entry ends where the next one begins.
pub proof fn lemma_decoded_entries_contiguous(path: Seq<char>, data: Seq<u8>, i: int)
    requires
        decoded(path, data) is Ok,
        0 <= i,
        i + 1 < decoded(path, data)->Ok_0.images.len(),
    ensures
        decoded(path, data)->Ok_0.images[i].offset + decoded(path, data)->Ok_0.images[i].size
            == decoded(path, data)->Ok_0.images[i + 1].offset,
{
    lemma_first_stop_is_least(data, 0);
    assert(!stops_at(data, (i + 1) as nat));
}

/// The offsets of decoded entries never decrease.
pub proof fn lemma_decoded_offsets_never_decrease(path: Seq<char>, data: Seq<u8>, i: int, j: int)
    requires
        decoded(path, data) is Ok,
        0 <= i <= j < decoded(path, data)->Ok_0.images.len(),
    ensures
        decoded(path, data)->Ok_0.images[i].offset <= decoded(
            path,
            data,
        )->Ok_0.images[j].offset,
    decreases j - i,
{
    if i < j {
        lemma_decoded_offsets_never_decrease(path, data, i, j - 1);
        lemma_decoded_entries_contiguous(path, data, j - 1);
    }
}

/// The offsets of decoded entries strictly increase, wherever no entry but
/// the last is empty. (An empty entry shares its offset with the next.)
pub proof fn lemma_decoded_offsets_increase(path: Seq<char>, data: Seq<u8>, i: int, j: int)
    requires
        decoded(path, data) is Ok,
        0 <= i < j < decoded(path, data)->Ok_0.images.len(),
        forall|m: int|
            0 <= m < decoded(path, data)->Ok_0.images.len() - 1 ==> (#[trigger] decoded(
                path,
                data,
            )->Ok_0.images[m]).size > 0,
    ensures
        decoded(path, data)->Ok_0.images[i].offset < decoded(path, data)->Ok_0.images[j].offset,
{
    lemma_decoded_entries_contiguous(path, data, i);
    lemma_decoded_offsets_never_decrease(path, data, i + 1, j);
    assert(decoded(path, data)->Ok_0.images[i].size > 0);
}

/// Data of eight bytes or more that does not begin with the signature is
/// rejected as of another format.
pub proof fn lemma_wrong_magic_rejected(path: Seq<char>, data: Seq<u8>)
    requires
        data.len() >= 8,
        data.subrange(0, 8) != magic(),
    ensures
        decoded(path, data) == Err::<BifView, BifError>(BifError::InvalidFormat),
{
}

/// Data that begins with the signature and then declares a version other
/// than the supported one is rejected for its version.
pub proof fn lemma_other_version_rejected(path: Seq<char>, data: Seq<u8>)
    requires
        data.len() >= 12,
        data.subrange(0, 8) == magic(),
        le_u32(data, 8) != VERSION,
    ensures
        decoded(path, data) == Err::<BifView, BifError>(BifError::UnsupportedVersion),
{
}

/// The framewise separation of a decoded container is the header's field,
/// and the default where that field is zero.
pub proof fn lemma_zero_separation_is_default(path: Seq<char>, data: Seq<u8>)
    requires
        decoded(path, data) is Ok,
    ensures
        le_u32(data, 16) == 0 ==> decoded(path, data)->Ok_0.framewise_separation
            == DEFAULT_SEPARATION,
        le_u32(data, 16) != 0 ==> decoded(path, data)->Ok_0.framewise_separation == le_u32(
            data,
            16,
        ),
{
}

/// A container with a sound header whose table holds `entries` ordered
/// pairs before the sentinel, but whose header declares another number of
/// images, is rejected as corrupt.
pub proof fn lemma_count_mismatch_rejected(path: Seq<char>, data: Seq<u8>, entries: nat)
    requires
        data.len() >= 20,
        data.subrange(0, 8) == magic(),
        le_u32(data, 8) == VERSION,
        pair_present(data, entries),
        pair_timestamp(data, entries) == SENTINEL,
        forall|k: nat| k < entries ==> pair_timestamp(data, k) != SENTINEL,
        forall|k: nat| 0 < k <= entries ==> !pair_disordered(data, k),
        le_u32(data, 12) != entries,
    ensures
        decoded(path, data) == Err::<BifView, BifError>(BifError::CorruptIndex),
{
    assert forall|k: nat| k < entries implies !stops_at(data, k) by {
        assert(pair_present(data, entries));
    }
    lemma_first_stop_found(data, 0, entries);
}

/// A decoded index lists as many entries as its header declares.
pub proof fn lemma_decoded_count(path: Seq<char>, data: Seq<u8>)
    requires
        decoded(path, data) is Ok,
    ensures
        decoded(path, data)->Ok_0.images.len() == decoded(path, data)->Ok_0.total_images,
        decoded(path, data)->Ok_0.version == VERSION,
{
}

} // verus!
