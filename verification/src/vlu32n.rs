//! The nibble-oriented variable-length encoding of unsigned 32-bit values.
//!
//! The 32 value bits are split most-significant-first into one 2-bit group
//! and ten 3-bit groups. Leading all-zero groups are suppressed; every
//! emitted nibble carries a group in its low 3 bits and a continuation flag
//! in its top bit, set on every nibble but the last. A zero value encodes as
//! one zero nibble; `u32::MAX` takes the maximum of 11 nibbles.

use vstd::prelude::*;

use crate::de;
use crate::error::Error;
use crate::nibbles::{lemma_unpack_pack, nibs_of_bytes, pack_nibbles};
use crate::ser;
use crate::ser::nibble_flavors::fits;

verus! {

/// How many nibbles the encoding of `v` occupies: the count of significant
/// 3-bit groups, where the topmost group holds only the two highest bits.
pub open spec fn vlu32n_len(v: u32) -> nat {
    if v < 0x8 {
        1
    } else if v < 0x40 {
        2
    } else if v < 0x200 {
        3
    } else if v < 0x1000 {
        4
    } else if v < 0x8000 {
        5
    } else if v < 0x40000 {
        6
    } else if v < 0x200000 {
        7
    } else if v < 0x1000000 {
        8
    } else if v < 0x8000000 {
        9
    } else if v < 0x40000000 {
        10
    } else {
        11
    }
}

/// The `i`-th nibble of the encoding of `v`: its `i`-th significant group,
/// most significant first, with the continuation flag on every nibble but
/// the last.
pub open spec fn vlu32n_nib_at(v: u32, i: int) -> u8 {
    let sh = (3 * (vlu32n_len(v) - 1 - i)) as u32;
    let d = ((v >> sh) & 7) as u8;
    if i + 1 < vlu32n_len(v) {
        d | 8
    } else {
        d
    }
}

/// The nibble sequence that encodes `v`.
pub open spec fn vlu32n_nibbles(v: u32) -> Seq<u8> {
    Seq::new(vlu32n_len(v), |i: int| vlu32n_nib_at(v, i))
}

/// Decoding continued after `i` nibbles already accumulated into `acc`:
/// each nibble contributes its low 3 bits, the accumulator shifts by 3
/// between nibbles, and a clear continuation flag ends the value. An
/// eleventh nibble with the flag still set is malformed.
pub open spec fn vlu32n_decode_rec(s: Seq<u8>, i: nat, acc: u32) -> Result<(u32, Seq<u8>), Error>
    decreases 11 - i,
{
    if s.len() == 0 {
        Err(Error::DeserializeUnexpectedEnd)
    } else {
        let nib = s[0];
        let acc2 = acc | ((nib & 7) as u32);
        if nib & 8 == 0 {
            Ok((acc2, s.skip(1)))
        } else if i >= 10 {
            Err(Error::DeserializeBadVlu32N)
        } else {
            vlu32n_decode_rec(s.skip(1), (i + 1) as nat, acc2 << 3)
        }
    }
}

/// What decoding a nibble stream yields: the decoded value and the unread
/// tail, or the error that stops it.
pub open spec fn vlu32n_decode(s: Seq<u8>) -> Result<(u32, Seq<u8>), Error> {
    vlu32n_decode_rec(s, 0, 0)
}

/// The number of nibbles that encode `v`, computed executably.
fn nib_len(v: u32) -> (r: u32)
    ensures
        r == vlu32n_len(v),
        1 <= r <= 11,
{
    if v < 0x8 {
        1
    } else if v < 0x40 {
        2
    } else if v < 0x200 {
        3
    } else if v < 0x1000 {
        4
    } else if v < 0x8000 {
        5
    } else if v < 0x40000 {
        6
    } else if v < 0x200000 {
        7
    } else if v < 0x1000000 {
        8
    } else if v < 0x8000000 {
        9
    } else if v < 0x40000000 {
        10
    } else {
        11
    }
}

/// An unsigned 32-bit value carried in the variable-length nibble encoding.
#[derive(Debug, Clone, Copy, PartialEq, Eq, Structural)]
pub struct Vlu32N(pub u32);

impl Vlu32N {
    /// Writes the encoding of this value into the sink, one nibble at a
    /// time; succeeds exactly when the whole encoding fits.
    pub fn ser<F: ser::nibble_flavors::NibbleFlavor>(&self, flavor: &mut F) -> (r: Result<
        (),
        Error,
    >)
        requires
            old(flavor).wf(),
        ensures
            final(flavor).wf(),
            final(flavor).nib_cap() == old(flavor).nib_cap(),
            r is Ok <==> fits(
                old(flavor).nib_cap(),
                old(flavor).nibbles().len(),
                vlu32n_len(self.0),
            ),
            r is Ok ==> final(flavor).nibbles() == old(flavor).nibbles() + vlu32n_nibbles(self.0),
            r is Err ==> r == Err::<(), Error>(Error::SerializeBufferFull),
    {
        let v = self.0;
        let k = nib_len(v);
        let mut i: u32 = 0;
        while i < k
            invariant
                flavor.wf(),
                flavor.nib_cap() == old(flavor).nib_cap(),
                k == vlu32n_len(v),
                1 <= k <= 11,
                i <= k,
                v == self.0,
                flavor.nibbles() == old(flavor).nibbles() + vlu32n_nibbles(v).take(i as int),
                i > 0 ==> fits(old(flavor).nib_cap(), old(flavor).nibbles().len(), i as nat),
            decreases k - i,
        {
            let sh = 3 * (k - 1 - i);
            let d = ((v >> sh) & 7) as u8;
            let nib = if i + 1 < k {
                d | 8
            } else {
                d
            };
            proof {
                assert((v >> sh) & 7 < 8) by (bit_vector);
                assert(d < 8 ==> (d | 8) < 16) by (bit_vector);
                assert(nib == vlu32n_nib_at(v, i as int));
                assert(nib < 16);
            }
            match flavor.try_push_nib(nib) {
                Ok(()) => {},
                Err(e) => {
                    return Err(e);
                },
            }
            proof {
                assert(vlu32n_nibbles(v).take(i + 1) =~= vlu32n_nibbles(v).take(i as int).push(
                    nib,
                ));
            }
            i = i + 1;
        }
        proof {
            assert(vlu32n_nibbles(v).take(k as int) =~= vlu32n_nibbles(v));
        }
        Ok(())
    }

    /// Reads one encoded value off the source; the result and the nibbles
    /// consumed are exactly what `vlu32n_decode` says of the unread stream.
    pub fn de<'de, F: de::nibble_flavors::NibbleFlavor<'de>>(flavor: &mut F) -> (r: Result<
        Vlu32N,
        Error,
    >)
        requires
            old(flavor).wf(),
        ensures
            final(flavor).wf(),
            match vlu32n_decode(old(flavor).remaining()) {
                Ok((v, rest)) => r is Ok && r->Ok_0.0 == v && final(flavor).remaining() == rest,
                Err(e) => r is Err && r->Err_0 == e,
            },
    {
        let mut num: u32 = 0;
        let mut i: u32 = 0;
        loop
            invariant
                flavor.wf(),
                i <= 10,
                vlu32n_decode_rec(flavor.remaining(), i as nat, num) == vlu32n_decode(
                    old(flavor).remaining(),
                ),
            decreases 11 - i,
        {
            match flavor.try_take_nib() {
                Err(_) => {
                    return Err(Error::DeserializeUnexpectedEnd);
                },
                Ok(nib) => {
                    num = num | ((nib & 7) as u32);
                    if nib & 8 == 0 {
                        return Ok(Vlu32N(num));
                    }
                    if i == 10 {
                        return Err(Error::DeserializeBadVlu32N);
                    }
                    num = num << 3;
                    i = i + 1;
                },
            }
        }
    }
}

/// The topmost emitted group of `v` fits in three bits.
proof fn lemma_top_group_small(v: u32)
    ensures
        v >> ((3 * (vlu32n_len(v) - 1)) as u32) < 8,
{
    if v < 0x8 {
        assert(v >> 0 < 8) by (bit_vector)
            requires
                v < 0x8,
        ;
    } else if v < 0x40 {
        assert(v >> 3 < 8) by (bit_vector)
            requires
                v < 0x40,
        ;
    } else if v < 0x200 {
        assert(v >> 6 < 8) by (bit_vector)
            requires
                v < 0x200,
        ;
    } else if v < 0x1000 {
        assert(v >> 9 < 8) by (bit_vector)
            requires
                v < 0x1000,
        ;
    } else if v < 0x8000 {
        assert(v >> 12 < 8) by (bit_vector)
            requires
                v < 0x8000,
        ;
    } else if v < 0x40000 {
        assert(v >> 15 < 8) by (bit_vector)
            requires
                v < 0x40000,
        ;
    } else if v < 0x200000 {
        assert(v >> 18 < 8) by (bit_vector)
            requires
                v < 0x200000,
        ;
    } else if v < 0x1000000 {
        assert(v >> 21 < 8) by (bit_vector)
            requires
                v < 0x1000000,
        ;
    } else if v < 0x8000000 {
        assert(v >> 24 < 8) by (bit_vector)
            requires
                v < 0x8000000,
        ;
    } else if v < 0x40000000 {
        assert(v >> 27 < 8) by (bit_vector)
            requires
                v < 0x40000000,
        ;
    } else {
        assert(v >> 30 < 8) by (bit_vector);
    }
}

/// The accumulator that decoding carries after `j` nibbles of the encoding
/// of `v`: the groups already read, shifted up by three for the next one.
spec fn acc_at(v: u32, j: nat) -> u32 {
    if j == 0 {
        0
    } else {
        (v >> ((3 * (vlu32n_len(v) - j)) as u32)) << 3
    }
}

/// Decoding the tail of the encoding of `v` from group `j` onward, with the
/// matching accumulator, recovers `v` and leaves `rest`.
proof fn lemma_round_trip_from(v: u32, rest: Seq<u8>, j: nat)
    requires
        j < vlu32n_len(v),
    ensures
        vlu32n_decode_rec(vlu32n_nibbles(v).skip(j as int) + rest, j, acc_at(v, j)) == Ok::<
            (u32, Seq<u8>),
            Error,
        >((v, rest)),
    decreases vlu32n_len(v) - j,
{
    let k = vlu32n_len(v);
    let s = vlu32n_nibbles(v).skip(j as int) + rest;
    let nib = vlu32n_nib_at(v, j as int);
    assert(s[0] == nib);
    let a3 = (3 * (k - 1 - j)) as u32;
    let acc = acc_at(v, j);
    if j + 1 == k {
        // the last nibble: no continuation flag, and the accumulator joined
        // with the last group gives back the value
        assert(a3 == 0);
        assert(nib == ((v >> 0) & 7) as u8);
        if j == 0 {
            assert((0u32 | (((((v >> 0) & 7) as u8) & 7) as u32)) == v && ((((v >> 0) & 7) as u8)
                & 8) == 0) by (bit_vector)
                requires
                    v < 8,
            ;
        } else {
            assert(3 * (k - j) == 3);
            assert(acc == (v >> 3) << 3);
            assert((((v >> 3) << 3) | (((((v >> 0) & 7) as u8) & 7) as u32)) == v && ((((v >> 0)
                & 7) as u8) & 8) == 0) by (bit_vector);
        }
        assert(s.skip(1) =~= rest);
    } else {
        // an inner nibble: continuation set, the group joins the accumulator
        assert(nib == ((((v >> a3) & 7) as u8) | 8));
        assert((((((v >> a3) & 7) as u8) | 8) & 8) != 0) by (bit_vector);
        if j == 0 {
            lemma_top_group_small(v);
            assert((0u32 | ((((((v >> a3) & 7) as u8) | 8) & 7) as u32)) == v >> a3)
                by (bit_vector)
                requires
                    v >> a3 < 8,
            ;
        } else {
            let a6 = (3 * (k - j)) as u32;
            assert(a6 == a3 + 3);
            assert((((v >> a6) << 3) | ((((((v >> a3) & 7) as u8) | 8) & 7) as u32)) == v >> a3)
                by (bit_vector)
                requires
                    a3 <= 27 && a6 == a3 + 3,
            ;
        }
        assert((acc | ((nib & 7) as u32)) == v >> a3);
        assert(acc_at(v, (j + 1) as nat) == (v >> a3) << 3) by {
            assert(3 * (k - (j + 1)) == 3 * (k - 1 - j));
        }
        assert(s.skip(1) =~= vlu32n_nibbles(v).skip(j as int + 1) + rest);
        lemma_round_trip_from(v, rest, (j + 1) as nat);
    }
}

/// Round trip: any value encoded and then decoded comes back unchanged, and
/// decoding consumes exactly the encoding, leaving whatever followed it.
pub proof fn lemma_vlu32n_round_trip(v: u32, rest: Seq<u8>)
    ensures
        vlu32n_decode(vlu32n_nibbles(v) + rest) == Ok::<(u32, Seq<u8>), Error>((v, rest)),
{
    assert(vlu32n_nibbles(v).skip(0) =~= vlu32n_nibbles(v));
    lemma_round_trip_from(v, rest, 0);
}

/// Every nibble of an encoding is a four-bit value.
pub proof fn lemma_vlu32n_nibbles_bounded(v: u32)
    ensures
        forall|i: int| 0 <= i < vlu32n_nibbles(v).len() ==> vlu32n_nibbles(v)[i] < 16,
{
    assert forall|i: int| 0 <= i < vlu32n_nibbles(v).len() implies vlu32n_nibbles(v)[i] < 16 by {
        let sh = (3 * (vlu32n_len(v) - 1 - i)) as u32;
        assert((v >> sh) & 7 < 8) by (bit_vector);
        let d = ((v >> sh) & 7) as u8;
        assert(d < 8 ==> (d | 8) < 16) by (bit_vector);
    }
}

/// Round trip through bytes: packing the nibbles a sink collected for `v`
/// and decoding the nibble stream of those bytes gives back `v`, with
/// nothing left unread but the zero pad that completed an odd last byte.
pub proof fn lemma_vlu32n_byte_round_trip(v: u32)
    ensures
        vlu32n_decode(nibs_of_bytes(pack_nibbles(vlu32n_nibbles(v)))) == Ok::<
            (u32, Seq<u8>),
            Error,
        >(
            (
                v,
                if vlu32n_len(v) % 2 == 0 {
                    Seq::<u8>::empty()
                } else {
                    seq![0u8]
                },
            ),
        ),
{
    lemma_vlu32n_nibbles_bounded(v);
    lemma_unpack_pack(vlu32n_nibbles(v));
    if vlu32n_len(v) % 2 == 0 {
        lemma_vlu32n_round_trip(v, Seq::empty());
        assert(vlu32n_nibbles(v) + Seq::<u8>::empty() =~= vlu32n_nibbles(v));
    } else {
        lemma_vlu32n_round_trip(v, seq![0u8]);
        assert(vlu32n_nibbles(v) + seq![0u8] =~= vlu32n_nibbles(v).push(0));
    }
}

} // verus!
