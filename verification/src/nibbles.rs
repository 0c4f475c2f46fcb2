//! The mathematical model shared by all sinks and sources: a byte sequence
//! seen as a stream of nibbles, two per byte, high nibble first.

use vstd::prelude::*;

verus! {

/// The high four bits of a byte, as a nibble value.
pub open spec fn nib_hi(b: u8) -> u8 {
    b >> 4
}

/// The low four bits of a byte, as a nibble value.
pub open spec fn nib_lo(b: u8) -> u8 {
    b & 0xf
}

/// One byte out of two nibbles, high nibble first.
pub open spec fn byte_of(hi: u8, lo: u8) -> u8 {
    ((hi & 0xf) << 4) | (lo & 0xf)
}

/// The nibble stream that a byte sequence carries.
pub open spec fn nibs_of_bytes(bytes: Seq<u8>) -> Seq<u8> {
    Seq::new(
        2 * bytes.len(),
        |i: int| if i % 2 == 0 { nib_hi(bytes[i / 2]) } else { nib_lo(bytes[i / 2]) },
    )
}

/// Packs a nibble stream into bytes; an odd trailing nibble is completed
/// with a zero low half.
pub open spec fn pack_nibbles(nibs: Seq<u8>) -> Seq<u8> {
    Seq::new(
        (nibs.len() + 1) / 2,
        |i: int| byte_of(nibs[2 * i], if 2 * i + 1 < nibs.len() { nibs[2 * i + 1] } else { 0 }),
    )
}

/// The nibbles accepted so far by a sink that holds `bytes`, where a sink
/// that sits mid-byte (`misaligned`) has not yet filled the low half of its
/// last byte.
pub open spec fn sink_nibbles(bytes: Seq<u8>, misaligned: bool) -> Seq<u8> {
    if misaligned {
        nibs_of_bytes(bytes).drop_last()
    } else {
        nibs_of_bytes(bytes)
    }
}

/// A sink's bytes are consistent with its alignment flag: mid-byte, the low
/// half of the last byte is still zero.
pub open spec fn sink_bytes_wf(bytes: Seq<u8>, misaligned: bool) -> bool {
    misaligned ==> bytes.len() > 0 && nib_lo(bytes.last()) == 0
}

/// The nibbles still unread by a source positioned at byte `pos` of `bytes`;
/// mid-byte, the high half of byte `pos` has already been consumed.
pub open spec fn source_remaining(bytes: Seq<u8>, pos: int, misaligned: bool) -> Seq<u8> {
    if misaligned {
        seq![nib_lo(bytes[pos])] + nibs_of_bytes(bytes.skip(pos + 1))
    } else {
        nibs_of_bytes(bytes.skip(pos))
    }
}

/// Every nibble of a byte stream is a four-bit value.
pub proof fn lemma_nibs_bounded(bytes: Seq<u8>)
    ensures
        forall|i: int| 0 <= i < nibs_of_bytes(bytes).len() ==> nibs_of_bytes(bytes)[i] < 16,
{
    assert forall|i: int| 0 <= i < nibs_of_bytes(bytes).len() implies nibs_of_bytes(bytes)[i]
        < 16 by {
        let b = bytes[i / 2];
        assert(b >> 4 < 16 && b & 0xf < 16) by (bit_vector);
    }
}

/// Packing the nibbles a sink holds gives back exactly its bytes.
pub proof fn lemma_pack_sink(bytes: Seq<u8>, misaligned: bool)
    requires
        sink_bytes_wf(bytes, misaligned),
    ensures
        pack_nibbles(sink_nibbles(bytes, misaligned)) =~= bytes,
{
    let nibs = sink_nibbles(bytes, misaligned);
    assert forall|i: int| 0 <= i < bytes.len() implies pack_nibbles(nibs)[i] == bytes[i] by {
        let b = bytes[i];
        if misaligned && i == bytes.len() - 1 {
            assert(nibs[2 * i] == b >> 4);
            assert(b & 0xf == 0 ==> (((b >> 4) & 0xf) << 4) | (0u8 & 0xf) == b) by (bit_vector);
        } else {
            assert(nibs[2 * i] == b >> 4);
            assert(nibs[2 * i + 1] == b & 0xf);
            assert((((b >> 4) & 0xf) << 4) | ((b & 0xf) & 0xf) == b) by (bit_vector);
        }
    }
}

/// Starting a fresh byte with a nibble in its high half appends that nibble
/// to the stream.
pub proof fn lemma_sink_push_aligned(bytes: Seq<u8>, nib: u8)
    requires
        nib < 16,
    ensures
        sink_nibbles(bytes.push(nib << 4), true) =~= sink_nibbles(bytes, false).push(nib),
        sink_bytes_wf(bytes.push(nib << 4), true),
{
    let b2 = bytes.push(nib << 4);
    assert((nib << 4) >> 4 == nib && (nib << 4) & 0xf == 0) by (bit_vector)
        requires
            nib < 16,
    ;
    assert forall|i: int|
        0 <= i < sink_nibbles(b2, true).len() implies sink_nibbles(b2, true)[i] == sink_nibbles(
        bytes,
        false,
    ).push(nib)[i] by {
        if i < 2 * bytes.len() {
            assert(b2[i / 2] == bytes[i / 2]);
        } else {
            assert(i / 2 == bytes.len());
        }
    }
}

/// Filling the pending low half of the last byte appends that nibble to the
/// stream and realigns the sink.
pub proof fn lemma_sink_push_misaligned(bytes: Seq<u8>, nib: u8)
    requires
        nib < 16,
        sink_bytes_wf(bytes, true),
    ensures
        sink_nibbles(bytes.drop_last().push(bytes.last() | nib), false) =~= sink_nibbles(
            bytes,
            true,
        ).push(nib),
{
    let b = bytes.last();
    let b2 = bytes.drop_last().push(b | nib);
    assert((b | nib) >> 4 == b >> 4 && (b | nib) & 0xf == nib) by (bit_vector)
        requires
            nib < 16 && b & 0xf == 0,
    ;
    assert forall|i: int|
        0 <= i < sink_nibbles(b2, false).len() implies sink_nibbles(b2, false)[i] == sink_nibbles(
        bytes,
        true,
    ).push(nib)[i] by {
        if i < 2 * (bytes.len() - 1) {
            assert(b2[i / 2] == bytes[i / 2]);
        } else {
            assert(i / 2 == bytes.len() - 1);
            assert(b2[i / 2] == b | nib);
        }
    }
}

/// Writing a whole byte on a boundary appends its two nibbles.
pub proof fn lemma_sink_push_byte_aligned(bytes: Seq<u8>, data: u8)
    ensures
        sink_nibbles(bytes.push(data), false) =~= sink_nibbles(bytes, false) + seq![
            nib_hi(data),
            nib_lo(data),
        ],
{
    let b2 = bytes.push(data);
    assert forall|i: int|
        0 <= i < sink_nibbles(b2, false).len() implies sink_nibbles(b2, false)[i] == (sink_nibbles(
        bytes,
        false,
    ) + seq![nib_hi(data), nib_lo(data)])[i] by {
        if i < 2 * bytes.len() {
            assert(b2[i / 2] == bytes[i / 2]);
        } else {
            assert(i / 2 == bytes.len());
        }
    }
}

/// Writing a whole byte mid-byte splits it: the high half completes the
/// pending byte, the low half starts the next one; the stream gains the same
/// two nibbles and the sink stays mid-byte.
pub proof fn lemma_sink_push_byte_misaligned(bytes: Seq<u8>, data: u8)
    requires
        sink_bytes_wf(bytes, true),
    ensures
        sink_nibbles(
            bytes.drop_last().push(bytes.last() | (data >> 4)).push((data & 0xf) << 4),
            true,
        ) =~= sink_nibbles(bytes, true) + seq![nib_hi(data), nib_lo(data)],
        sink_bytes_wf(
            bytes.drop_last().push(bytes.last() | (data >> 4)).push((data & 0xf) << 4),
            true,
        ),
{
    let b = bytes.last();
    let b2 = bytes.drop_last().push(b | (data >> 4)).push((data & 0xf) << 4);
    assert((b | (data >> 4)) >> 4 == b >> 4 && (b | (data >> 4)) & 0xf == data >> 4 && ((data
        & 0xf) << 4) >> 4 == data & 0xf && ((data & 0xf) << 4) & 0xf == 0) by (bit_vector)
        requires
            b & 0xf == 0,
    ;
    assert forall|i: int|
        0 <= i < sink_nibbles(b2, true).len() implies sink_nibbles(b2, true)[i] == (sink_nibbles(
        bytes,
        true,
    ) + seq![nib_hi(data), nib_lo(data)])[i] by {
        if i < 2 * (bytes.len() - 1) {
            assert(b2[i / 2] == bytes[i / 2]);
        } else if i < 2 * bytes.len() {
            assert(i / 2 == bytes.len() - 1);
            assert(b2[i / 2] == b | (data >> 4));
        } else {
            assert(i / 2 == bytes.len());
            assert(b2[i / 2] == (data & 0xf) << 4);
        }
    }
}

/// Appending whole bytes to an aligned sink appends their nibble stream.
pub proof fn lemma_sink_extend_aligned(bytes: Seq<u8>, data: Seq<u8>)
    ensures
        nibs_of_bytes(bytes + data) =~= nibs_of_bytes(bytes) + nibs_of_bytes(data),
{
    let l = bytes.len() as int;
    assert forall|i: int|
        0 <= i < nibs_of_bytes(bytes + data).len() implies nibs_of_bytes(bytes + data)[i] == (
    nibs_of_bytes(bytes) + nibs_of_bytes(data))[i] by {
        if i < 2 * l {
            assert((bytes + data)[i / 2] == bytes[i / 2]);
        } else {
            assert((i - 2 * l) / 2 == i / 2 - l && (i - 2 * l) % 2 == i % 2);
            assert((bytes + data)[i / 2] == data[i / 2 - l]);
        }
    }
}


/// Reading back the nibble stream of packed bytes gives the original
/// nibbles, plus the zero pad that completed an odd trailing nibble.
pub proof fn lemma_unpack_pack(nibs: Seq<u8>)
    requires
        forall|i: int| 0 <= i < nibs.len() ==> nibs[i] < 16,
    ensures
        nibs_of_bytes(pack_nibbles(nibs)) =~= if nibs.len() % 2 == 0 {
            nibs
        } else {
            nibs.push(0)
        },
{
    let packed = pack_nibbles(nibs);
    let target = if nibs.len() % 2 == 0 {
        nibs
    } else {
        nibs.push(0)
    };
    assert forall|i: int| 0 <= i < target.len() implies nibs_of_bytes(packed)[i] == target[i] by {
        let a = nibs[2 * (i / 2)];
        let b_val = if 2 * (i / 2) + 1 < nibs.len() {
            nibs[2 * (i / 2) + 1]
        } else {
            0u8
        };
        assert(packed[i / 2] == byte_of(a, b_val));
        assert((((a & 0xf) << 4) | (b_val & 0xf)) >> 4 == a && ((((a & 0xf) << 4) | (b_val
            & 0xf)) & 0xf) == b_val) by (bit_vector)
            requires
                a < 16 && b_val < 16,
        ;
    }
}

/// Reading the high nibble of the byte at `pos` is reading the head of the
/// remaining stream.
pub proof fn lemma_source_unfold(bytes: Seq<u8>, pos: int)
    requires
        0 <= pos < bytes.len(),
    ensures
        source_remaining(bytes, pos, false) =~= seq![nib_hi(bytes[pos])] + source_remaining(
            bytes,
            pos,
            true,
        ),
{
    assert forall|i: int|
        0 <= i < source_remaining(bytes, pos, false).len() implies source_remaining(
        bytes,
        pos,
        false,
    )[i] == (seq![nib_hi(bytes[pos])] + source_remaining(bytes, pos, true))[i] by {
        if i >= 2 {
            assert(bytes.skip(pos)[i / 2] == bytes.skip(pos + 1)[(i - 2) / 2]);
            assert((i - 2) / 2 == i / 2 - 1 && (i - 2) % 2 == i % 2);
        }
    }
}

/// Reading the pending low nibble advances the source to the next boundary.
pub proof fn lemma_source_realign(bytes: Seq<u8>, pos: int)
    requires
        0 <= pos < bytes.len(),
    ensures
        source_remaining(bytes, pos, true).skip(1) =~= source_remaining(bytes, pos + 1, false),
{
}

/// A run of `ct` whole bytes taken off an aligned source carries exactly the
/// next `2 * ct` nibbles of the remaining stream.
pub proof fn lemma_source_take_n(bytes: Seq<u8>, pos: int, ct: int)
    requires
        0 <= pos,
        0 <= ct,
        pos + ct <= bytes.len(),
    ensures
        nibs_of_bytes(bytes.subrange(pos, pos + ct)) =~= nibs_of_bytes(bytes.skip(pos)).subrange(
            0,
            2 * ct,
        ),
        nibs_of_bytes(bytes.skip(pos)).skip(2 * ct) =~= nibs_of_bytes(bytes.skip(pos + ct)),
{
    assert forall|i: int|
        0 <= i < 2 * ct implies nibs_of_bytes(bytes.subrange(pos, pos + ct))[i] == nibs_of_bytes(
        bytes.skip(pos),
    )[i] by {
        assert(bytes.subrange(pos, pos + ct)[i / 2] == bytes.skip(pos)[i / 2]);
    }
    assert forall|i: int|
        0 <= i < nibs_of_bytes(bytes.skip(pos + ct)).len() implies nibs_of_bytes(bytes.skip(pos))[
        2 * ct + i] == #[trigger] nibs_of_bytes(bytes.skip(pos + ct))[i] by {
        assert((2 * ct + i) / 2 == ct + i / 2 && (2 * ct + i) % 2 == i % 2);
        assert(bytes.skip(pos)[ct + i / 2] == bytes.skip(pos + ct)[i / 2]);
    }
}

} // verus!
