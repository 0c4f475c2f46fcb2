//! Nibble-granularity deserialization sources.
//!
//! A source reads nibbles, bytes and byte runs back out of a byte region,
//! mirroring the serialization sinks. It is modelled by the sequence of
//! nibbles still unread (`remaining`); every operation's contract is exact
//! over that model.

use vstd::prelude::*;
use vstd::slice::slice_subrange;

use crate::error::Error;
use crate::nibbles::{
    byte_of, lemma_nibs_bounded, lemma_source_realign, lemma_source_take_n, lemma_source_unfold,
    nib_hi, nibs_of_bytes, source_remaining,
};

verus! {

/// The deserialization flavor capability: where serialized nibbles are read
/// from.
///
/// A source is driven through a sequence of takes and then consumed by
/// `finalize`, which resolves to whatever was never read.
pub trait NibbleFlavor<'de>: Sized {
    /// The data left over after deserialization has completed.
    type Remainder: 'de;

    /// The data the source reads from.
    type Source: 'de;

    /// The nibbles not yet consumed, in reading order.
    spec fn remaining(&self) -> Seq<u8>;

    /// How many nibbles have been consumed since construction.
    spec fn consumed(&self) -> nat;

    /// Internal consistency, established at construction and kept by every
    /// operation.
    spec fn wf(&self) -> bool;

    /// True iff the cursor sits on a whole-byte boundary.
    spec fn at_boundary(&self) -> bool;

    /// What the finalized remainder says of the source that produced it.
    spec fn remainder_matches(&self, rem: &Self::Remainder) -> bool;

    /// The cursor sits on a byte boundary exactly when it has consumed an
    /// even number of nibbles.
    proof fn lemma_boundary_parity(&self)
        requires
            self.wf(),
        ensures
            self.at_boundary() <==> self.consumed() % 2 == 0,
    ;

    /// Every unread nibble is a four-bit value.
    proof fn lemma_remaining_bounded(&self)
        requires
            self.wf(),
        ensures
            forall|i: int| 0 <= i < self.remaining().len() ==> self.remaining()[i] < 16,
    ;

    /// Takes the next nibble; fails exactly when none remains, leaving the
    /// source unchanged.
    fn try_take_nib(&mut self) -> (r: Result<u8, Error>)
        requires
            old(self).wf(),
        ensures
            final(self).wf(),
            old(self).remaining().len() > 0 ==> r == Ok::<u8, Error>(old(self).remaining()[0])
                && final(self).remaining() == old(self).remaining().skip(1)
                && final(self).consumed() == old(self).consumed() + 1,
            old(self).remaining().len() == 0 ==> r == Err::<u8, Error>(
                Error::DeserializeUnexpectedEnd,
            ) && *final(self) == *old(self),
    ;

    /// Takes the next two nibbles as one byte, high half first; fails exactly
    /// when fewer than two nibbles remain, leaving the source unchanged.
    fn try_take_u8(&mut self) -> (r: Result<u8, Error>)
        requires
            old(self).wf(),
        ensures
            final(self).wf(),
            old(self).remaining().len() >= 2 ==> r == Ok::<u8, Error>(
                byte_of(old(self).remaining()[0], old(self).remaining()[1]),
            ) && final(self).remaining() == old(self).remaining().skip(2)
                && final(self).consumed() == old(self).consumed() + 2,
            old(self).remaining().len() < 2 ==> r == Err::<u8, Error>(
                Error::DeserializeUnexpectedEnd,
            ) && *final(self) == *old(self),
    ;

    /// Takes `ct` whole bytes, first discarding one padding nibble if the
    /// cursor sits mid-byte; fails exactly when fewer than `ct` whole bytes
    /// remain, leaving the source unchanged.
    fn try_take_n(&mut self, ct: usize) -> (r: Result<&'de [u8], Error>)
        requires
            old(self).wf(),
        ensures
            final(self).wf(),
            old(self).remaining().len() / 2 >= ct ==> {
                &&& r is Ok
                &&& r->Ok_0@.len() == ct
                &&& nibs_of_bytes(r->Ok_0@) == old(self).remaining().subrange(
                    (old(self).remaining().len() % 2) as int,
                    (old(self).remaining().len() % 2 + 2 * ct) as int,
                )
                &&& final(self).remaining() == old(self).remaining().skip(
                    (old(self).remaining().len() % 2 + 2 * ct) as int,
                )
                &&& final(self).consumed() == old(self).consumed() + old(self).remaining().len()
                    % 2 + 2 * ct
            },
            old(self).remaining().len() / 2 < ct ==> r == Err::<&'de [u8], Error>(
                Error::DeserializeUnexpectedEnd,
            ) && *final(self) == *old(self),
    ;

    /// Consumes the source and resolves it to whatever was never read.
    fn finalize(self) -> (r: Result<Self::Remainder, Error>)
        requires
            self.wf(),
        ensures
            r is Ok,
            self.remainder_matches(&r->Ok_0),
    ;
}

/// A source reading from a borrowed byte slice: a bounds-checked cursor walks
/// the slice nibble by nibble.
pub struct NibbleSlice<'de> {
    buf: &'de [u8],
    byte_pos: usize,
    misaligned: bool,
}

impl<'de> NibbleSlice<'de> {
    /// Builds a source over the given buffer, positioned at its start.
    pub fn new(sli: &'de [u8]) -> (r: NibbleSlice<'de>)
        ensures
            r.wf(),
            r.remaining() == nibs_of_bytes(sli@),
            r.consumed() == 0,
            r.at_boundary(),
    {
        NibbleSlice { buf: sli, byte_pos: 0, misaligned: false }
    }

    /// The exact number of nibbles still unread: twice the bytes after the
    /// cursor, less the high half already consumed when mid-byte.
    pub fn nibbles_left(&self) -> (r: usize)
        requires
            self.wf(),
            self.remaining().len() <= usize::MAX,
        ensures
            r == self.remaining().len(),
    {
        if self.misaligned {
            2 * (self.buf.len() - self.byte_pos - 1) + 1
        } else {
            2 * (self.buf.len() - self.byte_pos)
        }
    }

    /// Discards one padding nibble when the cursor sits mid-byte, so that it
    /// sits on a whole-byte boundary afterwards.
    pub fn align(&mut self) -> (r: Result<(), Error>)
        requires
            old(self).wf(),
        ensures
            final(self).wf(),
            final(self).at_boundary(),
            final(self).remaining() == old(self).remaining().skip(
                (old(self).remaining().len() % 2) as int,
            ),
            r is Ok,
    {
        // binding the slice length keeps the cursor increment in range
        let l = self.buf.len();
        if self.misaligned {
            self.byte_pos = self.byte_pos + 1;
            self.misaligned = false;
            proof {
                lemma_source_realign(self.buf@, (self.byte_pos - 1) as int);
            }
        } else {
            proof {
                assert(self.remaining().skip(0) =~= self.remaining());
            }
        }
        Ok(())
    }
}

/// A source whose remaining stream is exhausted has an empty unread
/// remainder.
pub proof fn lemma_exhausted_remainder_empty<'de>(s: &NibbleSlice<'de>, rem: &&'de [u8])
    requires
        s.wf(),
        s.remaining().len() == 0,
        s.remainder_matches(rem),
    ensures
        (*rem)@ =~= Seq::<u8>::empty(),
{
}

impl<'de> NibbleFlavor<'de> for NibbleSlice<'de> {
    type Remainder = &'de [u8];

    type Source = &'de [u8];

    closed spec fn remaining(&self) -> Seq<u8> {
        source_remaining(self.buf@, self.byte_pos as int, self.misaligned)
    }

    closed spec fn consumed(&self) -> nat {
        if self.misaligned {
            (2 * self.byte_pos + 1) as nat
        } else {
            (2 * self.byte_pos) as nat
        }
    }

    closed spec fn wf(&self) -> bool {
        self.byte_pos <= self.buf@.len() && (self.misaligned ==> self.byte_pos < self.buf@.len())
    }

    closed spec fn at_boundary(&self) -> bool {
        !self.misaligned
    }

    open spec fn remainder_matches(&self, rem: &&'de [u8]) -> bool {
        // the unread bytes: their nibble stream, past the half already
        // consumed when mid-byte, is exactly the remaining stream
        &&& nibs_of_bytes((*rem)@).skip((self.consumed() % 2) as int) == self.remaining()
        &&& (*rem)@.len() == (self.remaining().len() + self.consumed() % 2 + 1) / 2
    }

    proof fn lemma_boundary_parity(&self) {
    }

    proof fn lemma_remaining_bounded(&self) {
        lemma_nibs_bounded(self.buf@.skip(self.byte_pos as int));
        if self.misaligned {
            lemma_nibs_bounded(self.buf@.skip(self.byte_pos + 1));
            let b = self.buf@[self.byte_pos as int];
            assert(b & 0xf < 16) by (bit_vector);
        }
    }

    fn try_take_nib(&mut self) -> (r: Result<u8, Error>) {
        if self.misaligned {
            let b = self.buf[self.byte_pos];
            self.byte_pos = self.byte_pos + 1;
            self.misaligned = false;
            proof {
                lemma_source_realign(self.buf@, (self.byte_pos - 1) as int);
            }
            Ok(b & 0xf)
        } else {
            if self.byte_pos < self.buf.len() {
                let b = self.buf[self.byte_pos];
                self.misaligned = true;
                proof {
                    lemma_source_unfold(self.buf@, self.byte_pos as int);
                    assert((seq![nib_hi(b)] + self.remaining()).skip(1) =~= self.remaining());
                }
                Ok(b >> 4)
            } else {
                Err(Error::DeserializeUnexpectedEnd)
            }
        }
    }

    fn try_take_u8(&mut self) -> (r: Result<u8, Error>) {
        if self.misaligned {
            let l = self.buf.len();
            if self.byte_pos + 1 < l {
                let hi_src = self.buf[self.byte_pos];
                let lo_src = self.buf[self.byte_pos + 1];
                self.byte_pos = self.byte_pos + 1;
                proof {
                    let bs = self.buf@;
                    let p = self.byte_pos - 1;
                    lemma_source_unfold(bs, p + 1);
                    assert(source_remaining(bs, p, true).skip(2) =~= source_remaining(
                        bs,
                        p + 1,
                        true,
                    ));
                    assert(byte_of(hi_src & 0xf, lo_src >> 4) == (hi_src << 4) | (lo_src >> 4))
                        by (bit_vector);
                }
                Ok((hi_src << 4) | (lo_src >> 4))
            } else {
                Err(Error::DeserializeUnexpectedEnd)
            }
        } else {
            if self.byte_pos < self.buf.len() {
                let b = self.buf[self.byte_pos];
                self.byte_pos = self.byte_pos + 1;
                proof {
                    let bs = self.buf@;
                    let p = self.byte_pos - 1;
                    lemma_source_take_n(bs, p, 1);
                    assert(source_remaining(bs, p, false).skip(2) =~= source_remaining(
                        bs,
                        p + 1,
                        false,
                    ));
                    assert(byte_of(b >> 4, b & 0xf) == b) by (bit_vector);
                }
                Ok(b)
            } else {
                Err(Error::DeserializeUnexpectedEnd)
            }
        }
    }

    fn try_take_n(&mut self, ct: usize) -> (r: Result<&'de [u8], Error>) {
        let avail = if self.misaligned {
            self.buf.len() - self.byte_pos - 1
        } else {
            self.buf.len() - self.byte_pos
        };
        if avail < ct {
            Err(Error::DeserializeUnexpectedEnd)
        } else {
            let ghost old_rem = self.remaining();
            let ghost pad = old_rem.len() % 2;
            if self.misaligned {
                self.byte_pos = self.byte_pos + 1;
                self.misaligned = false;
                proof {
                    lemma_source_realign(self.buf@, (self.byte_pos - 1) as int);
                }
            }
            proof {
                assert(self.remaining() =~= old_rem.skip(pad as int));
            }
            let out = slice_subrange(self.buf, self.byte_pos, self.byte_pos + ct);
            let ghost p = self.byte_pos as int;
            self.byte_pos = self.byte_pos + ct;
            proof {
                lemma_source_take_n(self.buf@, p, ct as int);
                assert(nibs_of_bytes(out@) =~= old_rem.subrange(pad as int, (pad + 2 * ct) as int));
                assert(self.remaining() =~= old_rem.skip((pad + 2 * ct) as int));
            }
            Ok(out)
        }
    }

    fn finalize(self) -> (r: Result<&'de [u8], Error>) {
        let rem = slice_subrange(self.buf, self.byte_pos, self.buf.len());
        proof {
            assert(rem@ =~= self.buf@.skip(self.byte_pos as int));
            if self.misaligned {
                lemma_source_unfold(self.buf@, self.byte_pos as int);
                assert(nibs_of_bytes(rem@).skip(1) =~= self.remaining());
            } else {
                assert(nibs_of_bytes(rem@).skip(0) =~= self.remaining());
            }
        }
        Ok(rem)
    }
}

} // verus!
