//! Nibble-granularity serialization sinks.
//!
//! A sink accepts nibbles, bytes and byte runs, packing them two nibbles per
//! byte, high nibble first. Each backend is modelled by the sequence of
//! nibbles it has accepted since construction (`nibbles`) and by its capacity
//! in nibbles (`nib_cap`); every operation's contract is exact over that
//! model.

use vstd::prelude::*;

use crate::error::Error;
use crate::nibbles::{
    lemma_nibs_bounded, lemma_pack_sink, lemma_sink_extend_aligned,
    lemma_sink_push_aligned, lemma_sink_push_byte_aligned, lemma_sink_push_byte_misaligned,
    lemma_sink_push_misaligned, nib_hi, nib_lo, nibs_of_bytes, pack_nibbles, sink_bytes_wf,
    sink_nibbles,
};

verus! {

/// Whether `n` more nibbles fit into a sink that has capacity `cap` and has
/// already accepted `len` nibbles.
pub open spec fn fits(cap: Option<nat>, len: nat, n: nat) -> bool {
    match cap {
        Some(c) => len + n <= c,
        None => true,
    }
}

/// The padding a bulk byte write prepends to realign the sink: one zero
/// nibble when the count so far is odd, nothing otherwise.
pub open spec fn align_pad(nibs: Seq<u8>) -> Seq<u8> {
    if nibs.len() % 2 == 1 {
        seq![0u8]
    } else {
        Seq::<u8>::empty()
    }
}

/// The serialization flavor capability: where serialized nibbles go.
///
/// A sink is driven through a sequence of pushes and then consumed by
/// `finalize`, which resolves to the backend's output.
pub trait NibbleFlavor: Sized {
    /// What the backend resolves to when serialization completes.
    type Output;

    /// The nibbles accepted since construction, in order.
    spec fn nibbles(&self) -> Seq<u8>;

    /// The backend's capacity in nibbles; `None` for an unbounded backend.
    spec fn nib_cap(&self) -> Option<nat>;

    /// Internal consistency, established at construction and kept by every
    /// operation.
    spec fn wf(&self) -> bool;

    /// True iff the sink sits on a whole-byte boundary.
    spec fn at_boundary(&self) -> bool;

    /// What the finalized output says of the sink that produced it.
    spec fn output_matches(&self, out: &Self::Output) -> bool;

    /// The sink sits on a byte boundary exactly when it has accepted an even
    /// number of nibbles.
    proof fn lemma_boundary_parity(&self)
        requires
            self.wf(),
        ensures
            self.at_boundary() <==> self.nibbles().len() % 2 == 0,
    ;

    /// Every accepted nibble is a four-bit value.
    proof fn lemma_nibbles_bounded(&self)
        requires
            self.wf(),
        ensures
            forall|i: int| 0 <= i < self.nibbles().len() ==> self.nibbles()[i] < 16,
    ;

    /// Pushes one nibble; succeeds exactly when one more nibble fits.
    fn try_push_nib(&mut self, nib: u8) -> (r: Result<(), Error>)
        requires
            old(self).wf(),
            nib < 16,
        ensures
            final(self).wf(),
            final(self).nib_cap() == old(self).nib_cap(),
            r is Ok <==> fits(old(self).nib_cap(), old(self).nibbles().len(), 1),
            r is Ok ==> final(self).nibbles() == old(self).nibbles().push(nib),
            r is Err ==> *final(self) == *old(self) && r == Err::<(), Error>(
                Error::SerializeBufferFull,
            ),
    ;

    /// Pushes one byte as its two nibbles, high half first; succeeds exactly
    /// when two more nibbles fit.
    fn try_push_u8(&mut self, data: u8) -> (r: Result<(), Error>)
        requires
            old(self).wf(),
        ensures
            final(self).wf(),
            final(self).nib_cap() == old(self).nib_cap(),
            r is Ok <==> fits(old(self).nib_cap(), old(self).nibbles().len(), 2),
            r is Ok ==> final(self).nibbles() == old(self).nibbles() + seq![
                nib_hi(data),
                nib_lo(data),
            ],
            r is Err ==> *final(self) == *old(self) && r == Err::<(), Error>(
                Error::SerializeBufferFull,
            ),
    ;

    /// Pushes a run of whole bytes, first realigning to a byte boundary with
    /// one zero nibble if mid-byte; succeeds exactly when the padding and the
    /// run fit, and changes nothing otherwise.
    fn try_extend(&mut self, data: &[u8]) -> (r: Result<(), Error>)
        requires
            old(self).wf(),
        ensures
            final(self).wf(),
            final(self).nib_cap() == old(self).nib_cap(),
            r is Ok <==> fits(
                old(self).nib_cap(),
                old(self).nibbles().len(),
                old(self).nibbles().len() % 2 + 2 * data@.len(),
            ),
            r is Ok ==> final(self).nibbles() == old(self).nibbles() + align_pad(
                old(self).nibbles(),
            ) + nibs_of_bytes(data@),
            r is Err ==> *final(self) == *old(self) && r == Err::<(), Error>(
                Error::SerializeBufferFull,
            ),
    ;

    /// Consumes the sink and resolves it to the backend's output.
    fn finalize(self) -> (r: Result<Self::Output, Error>)
        requires
            self.wf(),
        ensures
            r is Ok,
            self.output_matches(&r->Ok_0),
    ;
}

/// A sink over a caller-supplied fixed-size buffer: the buffer's bytes are
/// overwritten in place and exhaustion is a hard error, no growth.
///
/// The backing buffer is handed over at construction and handed back, cut to
/// the written prefix, by `finalize`.
pub struct NibbleSlice {
    out: Vec<u8>,
    cap: usize,
    misaligned: bool,
}

impl NibbleSlice {
    /// The fixed capacity, in whole bytes, fixed at construction.
    pub closed spec fn capacity_bytes(&self) -> nat {
        self.cap as nat
    }

    /// Builds a sink that writes into `buf` and holds at most `buf.len()`
    /// bytes, that is `2 * buf.len()` nibbles.
    pub fn new(buf: Vec<u8>) -> (r: NibbleSlice)
        ensures
            r.wf(),
            r.nibbles() =~= Seq::<u8>::empty(),
            r.capacity_bytes() == buf@.len(),
            r.nib_cap() == Some(2 * buf@.len()),
    {
        let cap = buf.len();
        let mut out = buf;
        out.clear();
        NibbleSlice { out, cap, misaligned: false }
    }
}

/// A sink constructed over a buffer of `n` bytes accepts a nibble exactly as
/// long as fewer than `2 * n` nibbles came in, and refuses the next one.
pub proof fn lemma_buffer_full_exactness(s: &NibbleSlice)
    requires
        s.wf(),
    ensures
        fits(s.nib_cap(), s.nibbles().len(), 1) <==> s.nibbles().len() < 2
            * s.capacity_bytes(),
{
}

impl NibbleFlavor for NibbleSlice {
    type Output = Vec<u8>;

    closed spec fn nibbles(&self) -> Seq<u8> {
        sink_nibbles(self.out@, self.misaligned)
    }

    closed spec fn nib_cap(&self) -> Option<nat> {
        Some(2 * self.cap as nat)
    }

    closed spec fn wf(&self) -> bool {
        self.out@.len() <= self.cap && sink_bytes_wf(self.out@, self.misaligned)
    }

    closed spec fn at_boundary(&self) -> bool {
        !self.misaligned
    }

    open spec fn output_matches(&self, out: &Vec<u8>) -> bool {
        out@ == pack_nibbles(self.nibbles())
    }

    proof fn lemma_boundary_parity(&self) {
    }

    proof fn lemma_nibbles_bounded(&self) {
        lemma_nibs_bounded(self.out@);
    }

    fn try_push_nib(&mut self, nib: u8) -> (r: Result<(), Error>) {
        if self.misaligned {
            match self.out.pop() {
                Some(last) => {
                    self.out.push(last | nib);
                    self.misaligned = false;
                    proof {
                        lemma_sink_push_misaligned(old(self).out@, nib);
                    }
                    Ok(())
                },
                None => {
                    assert(false);
                    Err(Error::SerializeBufferFull)
                },
            }
        } else {
            if self.out.len() < self.cap {
                self.out.push(nib << 4);
                self.misaligned = true;
                proof {
                    lemma_sink_push_aligned(old(self).out@, nib);
                }
                Ok(())
            } else {
                Err(Error::SerializeBufferFull)
            }
        }
    }

    fn try_push_u8(&mut self, data: u8) -> (r: Result<(), Error>) {
        if self.out.len() < self.cap {
            if self.misaligned {
                match self.out.pop() {
                    Some(last) => {
                        self.out.push(last | (data >> 4));
                        self.out.push((data & 0xf) << 4);
                        proof {
                            lemma_sink_push_byte_misaligned(old(self).out@, data);
                        }
                        Ok(())
                    },
                    None => {
                        assert(false);
                        Err(Error::SerializeBufferFull)
                    },
                }
            } else {
                self.out.push(data);
                proof {
                    lemma_sink_push_byte_aligned(old(self).out@, data);
                }
                Ok(())
            }
        } else {
            Err(Error::SerializeBufferFull)
        }
    }

    fn try_extend(&mut self, data: &[u8]) -> (r: Result<(), Error>) {
        if data.len() <= self.cap - self.out.len() {
            if self.misaligned {
                // the pending low half is already zero, so counting it as the
                // padding nibble realigns the sink without touching a byte
                proof {
                    assert(sink_nibbles(self.out@, false) =~= sink_nibbles(self.out@, true).push(
                        0,
                    ));
                }
                self.misaligned = false;
            }
            let ghost mid = self.out@;
            let mut i: usize = 0;
            while i < data.len()
                invariant
                    i <= data@.len(),
                    self.out@ == mid + data@.subrange(0, i as int),
                    !self.misaligned,
                    self.cap == old(self).cap,
                decreases data@.len() - i,
            {
                self.out.push(data[i]);
                proof {
                    assert(self.out@ =~= mid + data@.subrange(0, i + 1));
                }
                i += 1;
            }
            proof {
                assert(data@.subrange(0, data@.len() as int) =~= data@);
                lemma_sink_extend_aligned(mid, data@);
            }
            Ok(())
        } else {
            Err(Error::SerializeBufferFull)
        }
    }

    fn finalize(self) -> (r: Result<Vec<u8>, Error>) {
        proof {
            lemma_pack_sink(self.out@, self.misaligned);
        }
        Ok(self.out)
    }
}

/// A measurement sink: stores nothing and counts the nibbles that the same
/// sequence of pushes would occupy, to size an encoding before producing it.
pub struct NibbleSize {
    size_nibbles: usize,
    tally: Ghost<Seq<u8>>,
}

impl NibbleSize {
    /// Builds a counter that has seen no nibbles.
    pub fn new() -> (r: NibbleSize)
        ensures
            r.wf(),
            r.nibbles() =~= Seq::<u8>::empty(),
            r.nib_cap() == Some(usize::MAX as nat),
    {
        NibbleSize { size_nibbles: 0, tally: Ghost(Seq::empty()) }
    }
}

impl Default for NibbleSize {
    fn default() -> (r: NibbleSize)
        ensures
            r.wf(),
            r.nibbles() =~= Seq::<u8>::empty(),
    {
        NibbleSize::new()
    }
}

impl NibbleFlavor for NibbleSize {
    type Output = usize;

    closed spec fn nibbles(&self) -> Seq<u8> {
        self.tally@
    }

    closed spec fn nib_cap(&self) -> Option<nat> {
        Some(usize::MAX as nat)
    }

    closed spec fn wf(&self) -> bool {
        self.size_nibbles == self.tally@.len() && forall|i: int|
            0 <= i < self.tally@.len() ==> self.tally@[i] < 16
    }

    closed spec fn at_boundary(&self) -> bool {
        self.size_nibbles % 2 == 0
    }

    open spec fn output_matches(&self, out: &usize) -> bool {
        *out == self.nibbles().len()
    }

    proof fn lemma_boundary_parity(&self) {
    }

    proof fn lemma_nibbles_bounded(&self) {
    }

    fn try_push_nib(&mut self, nib: u8) -> (r: Result<(), Error>) {
        if self.size_nibbles < usize::MAX {
            self.size_nibbles = self.size_nibbles + 1;
            self.tally = Ghost(self.tally@.push(nib));
            Ok(())
        } else {
            Err(Error::SerializeBufferFull)
        }
    }

    fn try_push_u8(&mut self, data: u8) -> (r: Result<(), Error>) {
        if self.size_nibbles <= usize::MAX - 2 {
            self.size_nibbles = self.size_nibbles + 2;
            self.tally = Ghost(self.tally@ + seq![nib_hi(data), nib_lo(data)]);
            proof {
                assert(data >> 4 < 16 && data & 0xf < 16) by (bit_vector);
            }
            Ok(())
        } else {
            Err(Error::SerializeBufferFull)
        }
    }

    fn try_extend(&mut self, data: &[u8]) -> (r: Result<(), Error>) {
        let pad: usize = self.size_nibbles % 2;
        if data.len() <= (usize::MAX - pad) / 2 && self.size_nibbles <= usize::MAX - pad - 2
            * data.len() {
            self.size_nibbles = self.size_nibbles + pad + 2 * data.len();
            self.tally = Ghost(self.tally@ + align_pad(self.tally@) + nibs_of_bytes(data@));
            proof {
                lemma_nibs_bounded(data@);
            }
            Ok(())
        } else {
            Err(Error::SerializeBufferFull)
        }
    }

    fn finalize(self) -> (r: Result<usize, Error>) {
        Ok(self.size_nibbles)
    }
}

/// A sink over a growable owned buffer: pushes never report exhaustion.
pub struct AllocVec {
    vec: Vec<u8>,
    misaligned: bool,
}

impl AllocVec {
    /// Builds an empty growable sink.
    pub fn new() -> (r: AllocVec)
        ensures
            r.wf(),
            r.nibbles() =~= Seq::<u8>::empty(),
            r.nib_cap() == None::<nat>,
    {
        AllocVec { vec: Vec::new(), misaligned: false }
    }
}

impl Default for AllocVec {
    fn default() -> (r: AllocVec)
        ensures
            r.wf(),
            r.nibbles() =~= Seq::<u8>::empty(),
    {
        AllocVec::new()
    }
}

impl NibbleFlavor for AllocVec {
    type Output = Vec<u8>;

    closed spec fn nibbles(&self) -> Seq<u8> {
        sink_nibbles(self.vec@, self.misaligned)
    }

    closed spec fn nib_cap(&self) -> Option<nat> {
        None
    }

    closed spec fn wf(&self) -> bool {
        sink_bytes_wf(self.vec@, self.misaligned)
    }

    closed spec fn at_boundary(&self) -> bool {
        !self.misaligned
    }

    open spec fn output_matches(&self, out: &Vec<u8>) -> bool {
        out@ == pack_nibbles(self.nibbles())
    }

    proof fn lemma_boundary_parity(&self) {
    }

    proof fn lemma_nibbles_bounded(&self) {
        lemma_nibs_bounded(self.vec@);
    }

    fn try_push_nib(&mut self, nib: u8) -> (r: Result<(), Error>) {
        if self.misaligned {
            match self.vec.pop() {
                Some(last) => {
                    self.vec.push(last | nib);
                    self.misaligned = false;
                    proof {
                        lemma_sink_push_misaligned(old(self).vec@, nib);
                    }
                    Ok(())
                },
                None => {
                    assert(false);
                    Err(Error::SerializeBufferFull)
                },
            }
        } else {
            self.vec.push(nib << 4);
            self.misaligned = true;
            proof {
                lemma_sink_push_aligned(old(self).vec@, nib);
            }
            Ok(())
        }
    }

    fn try_push_u8(&mut self, data: u8) -> (r: Result<(), Error>) {
        if self.misaligned {
            match self.vec.pop() {
                Some(last) => {
                    self.vec.push(last | (data >> 4));
                    self.vec.push((data & 0xf) << 4);
                    proof {
                        lemma_sink_push_byte_misaligned(old(self).vec@, data);
                    }
                    Ok(())
                },
                None => {
                    assert(false);
                    Err(Error::SerializeBufferFull)
                },
            }
        } else {
            self.vec.push(data);
            proof {
                lemma_sink_push_byte_aligned(old(self).vec@, data);
            }
            Ok(())
        }
    }

    fn try_extend(&mut self, data: &[u8]) -> (r: Result<(), Error>) {
        if self.misaligned {
            // the pending low half is already zero, so counting it as the
            // padding nibble realigns the sink without touching a byte
            proof {
                assert(sink_nibbles(self.vec@, false) =~= sink_nibbles(self.vec@, true).push(0));
            }
            self.misaligned = false;
        }
        let ghost mid = self.vec@;
        let mut i: usize = 0;
        while i < data.len()
            invariant
                i <= data@.len(),
                self.vec@ == mid + data@.subrange(0, i as int),
                !self.misaligned,
            decreases data@.len() - i,
        {
            self.vec.push(data[i]);
            proof {
                assert(self.vec@ =~= mid + data@.subrange(0, i + 1));
            }
            i += 1;
        }
        proof {
            assert(data@.subrange(0, data@.len() as int) =~= data@);
            lemma_sink_extend_aligned(mid, data@);
        }
        Ok(())
    }

    fn finalize(self) -> (r: Result<Vec<u8>, Error>) {
        proof {
            lemma_pack_sink(self.vec@, self.misaligned);
        }
        Ok(self.vec)
    }
}

/// A bounded owned sink: an internally held buffer with a fixed maximum
/// capacity of `B` bytes and a variable amount of contents; pushes fail once
/// the capacity is reached.
pub struct NibbleHVec<const B: usize> {
    vec: Vec<u8>,
    misaligned: bool,
}

impl<const B: usize> NibbleHVec<B> {
    /// Builds an empty bounded sink.
    pub fn new() -> (r: NibbleHVec<B>)
        ensures
            r.wf(),
            r.nibbles() =~= Seq::<u8>::empty(),
            r.nib_cap() == Some(2 * B as nat),
    {
        NibbleHVec { vec: Vec::new(), misaligned: false }
    }
}

impl<const B: usize> Default for NibbleHVec<B> {
    fn default() -> (r: NibbleHVec<B>)
        ensures
            r.wf(),
            r.nibbles() =~= Seq::<u8>::empty(),
    {
        NibbleHVec::new()
    }
}

impl<const B: usize> NibbleFlavor for NibbleHVec<B> {
    type Output = Vec<u8>;

    closed spec fn nibbles(&self) -> Seq<u8> {
        sink_nibbles(self.vec@, self.misaligned)
    }

    closed spec fn nib_cap(&self) -> Option<nat> {
        Some(2 * B as nat)
    }

    closed spec fn wf(&self) -> bool {
        self.vec@.len() <= B && sink_bytes_wf(self.vec@, self.misaligned)
    }

    closed spec fn at_boundary(&self) -> bool {
        !self.misaligned
    }

    open spec fn output_matches(&self, out: &Vec<u8>) -> bool {
        out@ == pack_nibbles(self.nibbles())
    }

    proof fn lemma_boundary_parity(&self) {
    }

    proof fn lemma_nibbles_bounded(&self) {
        lemma_nibs_bounded(self.vec@);
    }

    fn try_push_nib(&mut self, nib: u8) -> (r: Result<(), Error>) {
        if self.misaligned {
            match self.vec.pop() {
                Some(last) => {
                    self.vec.push(last | nib);
                    self.misaligned = false;
                    proof {
                        lemma_sink_push_misaligned(old(self).vec@, nib);
                    }
                    Ok(())
                },
                None => {
                    assert(false);
                    Err(Error::SerializeBufferFull)
                },
            }
        } else {
            if self.vec.len() < B {
                self.vec.push(nib << 4);
                self.misaligned = true;
                proof {
                    lemma_sink_push_aligned(old(self).vec@, nib);
                }
                Ok(())
            } else {
                Err(Error::SerializeBufferFull)
            }
        }
    }

    fn try_push_u8(&mut self, data: u8) -> (r: Result<(), Error>) {
        if self.vec.len() < B {
            if self.misaligned {
                match self.vec.pop() {
                    Some(last) => {
                        self.vec.push(last | (data >> 4));
                        self.vec.push((data & 0xf) << 4);
                        proof {
                            lemma_sink_push_byte_misaligned(old(self).vec@, data);
                        }
                        Ok(())
                    },
                    None => {
                        assert(false);
                        Err(Error::SerializeBufferFull)
                    },
                }
            } else {
                self.vec.push(data);
                proof {
                    lemma_sink_push_byte_aligned(old(self).vec@, data);
                }
                Ok(())
            }
        } else {
            Err(Error::SerializeBufferFull)
        }
    }

    fn try_extend(&mut self, data: &[u8]) -> (r: Result<(), Error>) {
        if data.len() <= B - self.vec.len() {
            if self.misaligned {
                // the pending low half is already zero, so counting it as the
                // padding nibble realigns the sink without touching a byte
                proof {
                    assert(sink_nibbles(self.vec@, false) =~= sink_nibbles(self.vec@, true).push(
                        0,
                    ));
                }
                self.misaligned = false;
            }
            let ghost mid = self.vec@;
            let mut i: usize = 0;
            while i < data.len()
                invariant
                    i <= data@.len(),
                    self.vec@ == mid + data@.subrange(0, i as int),
                    !self.misaligned,
                decreases data@.len() - i,
            {
                self.vec.push(data[i]);
                proof {
                    assert(self.vec@ =~= mid + data@.subrange(0, i + 1));
                }
                i += 1;
            }
            proof {
                assert(data@.subrange(0, data@.len() as int) =~= data@);
                lemma_sink_extend_aligned(mid, data@);
            }
            Ok(())
        } else {
            Err(Error::SerializeBufferFull)
        }
    }

    fn finalize(self) -> (r: Result<Vec<u8>, Error>) {
        proof {
            lemma_pack_sink(self.vec@, self.misaligned);
        }
        Ok(self.vec)
    }
}

/// Writing a whole byte mid-byte is observably the same as writing its two
/// nibbles one at a time: both extend the accepted stream by the byte's high
/// nibble and then its low nibble.
pub proof fn lemma_push_u8_is_two_nibbles(nibs: Seq<u8>, data: u8)
    ensures
        nibs + seq![nib_hi(data), nib_lo(data)] =~= nibs.push(nib_hi(data)).push(nib_lo(data)),
{
}

/// The nibble count that the measurement sink reports equals twice the byte
/// length of the packed output of a byte-storing sink fed the same pushes,
/// minus the final half-nibble when the count is odd.
pub proof fn lemma_size_matches_packed_bytes(nibs: Seq<u8>)
    ensures
        2 * pack_nibbles(nibs).len() == nibs.len() + (nibs.len() % 2),
{
}

} // verus!
