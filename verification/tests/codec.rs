use nibble_codec::de::nibble_flavors::NibbleFlavor as DeFlavor;
use nibble_codec::de::nibble_flavors::NibbleSlice as DeSlice;
use nibble_codec::error::Error;
use nibble_codec::ser::nibble_flavors::AllocVec;
use nibble_codec::ser::nibble_flavors::NibbleFlavor as SerFlavor;
use nibble_codec::ser::nibble_flavors::NibbleHVec;
use nibble_codec::ser::nibble_flavors::NibbleSize;
use nibble_codec::ser::nibble_flavors::NibbleSlice as SerSlice;
use nibble_codec::vlu32n::Vlu32N;

fn encode(v: u32) -> Vec<u8> {
    let mut sink = AllocVec::new();
    Vlu32N(v).ser(&mut sink).unwrap();
    sink.finalize().unwrap()
}

fn decode(bytes: &[u8]) -> Result<u32, Error> {
    let mut src = DeSlice::new(bytes);
    Vlu32N::de(&mut src).map(|w| w.0)
}

#[test]
fn vlu32n_literal_vectors() {
    assert_eq!(encode(0), vec![0x00]);
    assert_eq!(encode(7), vec![0x70]);
    assert_eq!(encode(8), vec![0x90]);
    assert_eq!(
        encode(0xFFFF_FFFF),
        vec![0xBF, 0xFF, 0xFF, 0xFF, 0xFF, 0x70]
    );
}

#[test]
fn vlu32n_sizes() {
    let cases: [(u32, usize); 6] = [(0, 1), (7, 1), (8, 2), (63, 2), (64, 3), (0xFFFF_FFFF, 11)];
    for (v, nibs) in cases {
        let mut sink = NibbleSize::new();
        Vlu32N(v).ser(&mut sink).unwrap();
        assert_eq!(sink.finalize().unwrap(), nibs);
    }
}

#[test]
fn vlu32n_decode_vectors() {
    assert_eq!(decode(&[0x00]), Ok(0));
    assert_eq!(decode(&[0x70]), Ok(7));
    assert_eq!(decode(&[0x90]), Ok(8));
    assert_eq!(decode(&[0xBF, 0xFF, 0xFF, 0xFF, 0xFF, 0x70]), Ok(0xFFFF_FFFF));
}

#[test]
fn vlu32n_malformed_eleventh_nibble() {
    // eleven nibbles, all with the continuation flag still set
    let bytes = [0xFF, 0xFF, 0xFF, 0xFF, 0xFF, 0xF0];
    assert_eq!(decode(&bytes), Err(Error::DeserializeBadVlu32N));
}

#[test]
fn vlu32n_truncated() {
    assert_eq!(decode(&[]), Err(Error::DeserializeUnexpectedEnd));
    // two nibbles, both with the continuation flag: the stream ends too early
    assert_eq!(decode(&[0xFF]), Err(Error::DeserializeUnexpectedEnd));
}

#[test]
fn vlu32n_round_trip() {
    let values: [u32; 13] = [
        0,
        1,
        3,
        7,
        8,
        63,
        64,
        300,
        32767,
        32768,
        0x12345678,
        0x4000_0000,
        u32::MAX,
    ];
    for v in values {
        let bytes = encode(v);
        let mut src = DeSlice::new(&bytes);
        assert_eq!(Vlu32N::de(&mut src).unwrap().0, v);
    }
}

#[test]
fn vlu32n_round_trip_empty_remainder() {
    // the encoding of 8 fills one byte exactly: nothing is left unread
    let bytes = encode(8);
    assert_eq!(bytes.len(), 1);
    let mut src = DeSlice::new(&bytes);
    assert_eq!(Vlu32N::de(&mut src).unwrap().0, 8);
    assert_eq!(src.finalize().unwrap(), &[] as &[u8]);
}

#[test]
fn vlu32n_exact_fit_and_overflow() {
    // the encoding of 64 takes three nibbles: two bytes hold it, one cannot
    let mut sink = SerSlice::new(vec![0u8; 2]);
    assert!(Vlu32N(64).ser(&mut sink).is_ok());
    let mut sink = SerSlice::new(vec![0u8; 1]);
    assert_eq!(Vlu32N(64).ser(&mut sink), Err(Error::SerializeBufferFull));
}

#[test]
fn buffer_full_exactness() {
    // a four-byte sink accepts exactly eight nibbles and refuses the ninth
    let mut sink = SerSlice::new(vec![0u8; 4]);
    for i in 0..8u8 {
        assert_eq!(sink.try_push_nib(i), Ok(()));
    }
    assert_eq!(sink.try_push_nib(0), Err(Error::SerializeBufferFull));
    assert_eq!(sink.finalize().unwrap(), vec![0x01, 0x23, 0x45, 0x67]);
}

#[test]
fn buffer_full_exactness_bytes() {
    let mut sink = SerSlice::new(vec![0u8; 2]);
    assert_eq!(sink.try_push_u8(0xAA), Ok(()));
    assert_eq!(sink.try_push_u8(0xBB), Ok(()));
    assert_eq!(sink.try_push_u8(0xCC), Err(Error::SerializeBufferFull));
    assert_eq!(sink.try_push_nib(1), Err(Error::SerializeBufferFull));
}

#[test]
fn mid_byte_byte_write_equals_two_nibbles() {
    let mut a = SerSlice::new(vec![0u8; 2]);
    a.try_push_nib(0xA).unwrap();
    a.try_push_u8(0xBC).unwrap();
    a.try_push_nib(0xD).unwrap();
    let mut b = SerSlice::new(vec![0u8; 2]);
    for nib in [0xA, 0xB, 0xC, 0xD] {
        b.try_push_nib(nib).unwrap();
    }
    let out_a = a.finalize().unwrap();
    let out_b = b.finalize().unwrap();
    assert_eq!(out_a, out_b);
    assert_eq!(out_a, vec![0xAB, 0xCD]);
}

#[test]
fn extend_pads_to_boundary() {
    let mut sink = AllocVec::new();
    sink.try_push_nib(0xF).unwrap();
    sink.try_extend(&[0xAB, 0xCD]).unwrap();
    assert_eq!(sink.finalize().unwrap(), vec![0xF0, 0xAB, 0xCD]);
}

#[test]
fn extend_aligned_is_plain_copy() {
    let mut sink = AllocVec::new();
    sink.try_extend(&[0x01, 0x02]).unwrap();
    sink.try_push_u8(0x03).unwrap();
    assert_eq!(sink.finalize().unwrap(), vec![0x01, 0x02, 0x03]);
}

#[test]
fn size_accumulator_matches_slice_output() {
    // the same operation sequence driven into the counter and a byte sink
    let mut size = NibbleSize::new();
    let mut slice = SerSlice::new(vec![0u8; 16]);
    size.try_push_nib(1).unwrap();
    slice.try_push_nib(1).unwrap();
    size.try_push_u8(0xAB).unwrap();
    slice.try_push_u8(0xAB).unwrap();
    size.try_extend(&[1, 2, 3]).unwrap();
    slice.try_extend(&[1, 2, 3]).unwrap();
    size.try_push_nib(2).unwrap();
    slice.try_push_nib(2).unwrap();
    let nibs = size.finalize().unwrap();
    let out = slice.finalize().unwrap();
    // eleven nibbles: six bytes, less the final half-nibble
    assert_eq!(nibs, 11);
    assert_eq!(out.len(), 6);
    assert_eq!(nibs, 2 * out.len() - 1);
}

#[test]
fn size_accumulator_even_sequence() {
    let mut size = NibbleSize::new();
    let mut slice = SerSlice::new(vec![0u8; 16]);
    size.try_push_u8(0x12).unwrap();
    slice.try_push_u8(0x12).unwrap();
    size.try_extend(&[9, 8]).unwrap();
    slice.try_extend(&[9, 8]).unwrap();
    let nibs = size.finalize().unwrap();
    let out = slice.finalize().unwrap();
    assert_eq!(nibs, 6);
    assert_eq!(nibs, 2 * out.len());
}

#[test]
fn take_n_failure_leaves_cursor_unchanged() {
    let bytes = [0xAB, 0xCD];
    let mut src = DeSlice::new(&bytes);
    assert_eq!(src.try_take_nib(), Ok(0xA));
    // one byte and a half remain: five whole bytes cannot be taken
    assert_eq!(src.try_take_n(5), Err(Error::DeserializeUnexpectedEnd));
    // the cursor did not move: the next nibble is still the pending low half
    assert_eq!(src.try_take_nib(), Ok(0xB));
    assert_eq!(src.try_take_n(1).unwrap(), &[0xCD]);
    assert_eq!(src.finalize().unwrap(), &[] as &[u8]);
}

#[test]
fn take_n_discards_padding_nibble() {
    let bytes = [0xA0, 0x12, 0x34];
    let mut src = DeSlice::new(&bytes);
    assert_eq!(src.try_take_nib(), Ok(0xA));
    // realigns past the zero pad, then takes two whole bytes
    assert_eq!(src.try_take_n(2).unwrap(), &[0x12, 0x34]);
    assert_eq!(src.nibbles_left(), 0);
}

#[test]
fn take_u8_mid_byte() {
    let bytes = [0xAB, 0xCD];
    let mut src = DeSlice::new(&bytes);
    assert_eq!(src.nibbles_left(), 4);
    assert_eq!(src.try_take_nib(), Ok(0xA));
    assert_eq!(src.nibbles_left(), 3);
    assert_eq!(src.try_take_u8(), Ok(0xBC));
    assert_eq!(src.nibbles_left(), 1);
    assert_eq!(src.try_take_nib(), Ok(0xD));
    assert_eq!(src.nibbles_left(), 0);
    assert_eq!(src.try_take_nib(), Err(Error::DeserializeUnexpectedEnd));
}

#[test]
fn take_u8_needs_two_nibbles() {
    let bytes = [0xAB];
    let mut src = DeSlice::new(&bytes);
    assert_eq!(src.try_take_nib(), Ok(0xA));
    assert_eq!(src.try_take_u8(), Err(Error::DeserializeUnexpectedEnd));
    assert_eq!(src.try_take_nib(), Ok(0xB));
}

#[test]
fn align_discards_one_pad_nibble() {
    let bytes = [0xA0, 0xCD];
    let mut src = DeSlice::new(&bytes);
    assert_eq!(src.try_take_nib(), Ok(0xA));
    src.align().unwrap();
    assert_eq!(src.try_take_u8(), Ok(0xCD));
    // aligning on a boundary changes nothing
    src.align().unwrap();
    assert_eq!(src.nibbles_left(), 0);
}

#[test]
fn source_finalize_returns_unread_tail() {
    let bytes = [0x12, 0x34, 0x56];
    let mut src = DeSlice::new(&bytes);
    assert_eq!(src.try_take_u8(), Ok(0x12));
    assert_eq!(src.finalize().unwrap(), &[0x34, 0x56]);
}

#[test]
fn hvec_bounded_capacity() {
    let mut sink: NibbleHVec<2> = NibbleHVec::new();
    assert_eq!(sink.try_push_u8(0xAB), Ok(()));
    assert_eq!(sink.try_push_u8(0xCD), Ok(()));
    assert_eq!(sink.try_push_nib(1), Err(Error::SerializeBufferFull));
    assert_eq!(sink.finalize().unwrap(), vec![0xAB, 0xCD]);
}

#[test]
fn hvec_mid_byte_and_extend() {
    let mut sink: NibbleHVec<4> = NibbleHVec::default();
    sink.try_push_nib(0x5).unwrap();
    sink.try_push_u8(0x67).unwrap();
    sink.try_extend(&[0x89]).unwrap();
    assert_eq!(sink.finalize().unwrap(), vec![0x56, 0x70, 0x89]);
}

#[test]
fn hvec_extend_overflow_changes_nothing() {
    let mut sink: NibbleHVec<2> = NibbleHVec::new();
    sink.try_push_u8(0x11).unwrap();
    assert_eq!(
        sink.try_extend(&[0x22, 0x33]),
        Err(Error::SerializeBufferFull)
    );
    assert_eq!(sink.try_push_u8(0x22), Ok(()));
    assert_eq!(sink.finalize().unwrap(), vec![0x11, 0x22]);
}

#[test]
fn alloc_vec_default_and_growth() {
    let mut sink = AllocVec::default();
    for i in 0..100u32 {
        sink.try_push_u8((i % 256) as u8).unwrap();
    }
    let out = sink.finalize().unwrap();
    assert_eq!(out.len(), 100);
    assert_eq!(out[99], 99);
}

#[test]
fn slice_sink_keeps_half_written_byte() {
    let mut sink = SerSlice::new(vec![0u8; 4]);
    sink.try_push_u8(0xAB).unwrap();
    sink.try_push_nib(0xC).unwrap();
    // the trailing half byte is part of the output, its low half zero
    assert_eq!(sink.finalize().unwrap(), vec![0xAB, 0xC0]);
}

#[test]
fn vlu32n_through_every_sink() {
    let v = 0xCAFE;
    let expected = {
        let mut sink = AllocVec::new();
        Vlu32N(v).ser(&mut sink).unwrap();
        sink.finalize().unwrap()
    };
    let mut hv: NibbleHVec<16> = NibbleHVec::new();
    Vlu32N(v).ser(&mut hv).unwrap();
    assert_eq!(hv.finalize().unwrap(), expected);
    let mut sl = SerSlice::new(vec![0u8; 16]);
    Vlu32N(v).ser(&mut sl).unwrap();
    assert_eq!(sl.finalize().unwrap(), expected);
    let mut sz = NibbleSize::new();
    Vlu32N(v).ser(&mut sz).unwrap();
    let nibs = sz.finalize().unwrap();
    assert_eq!((nibs + 1) / 2, expected.len());
}
