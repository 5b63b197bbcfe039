//! Verified scenarios: what callers learn, from the contracts alone, about the buffers
//! they hand to a `SliceWriter` and about ULEB128 encodings.

use vstd::prelude::*;
use crate::enc::write::{lemma_writes_keep_destination, SliceWriter, Writer};
use crate::uleb128::{lemma_signed_roundtrip, uleb128_bytes, zigzag, Uleb128};
use crate::error::{DecodeError, EncodeError};
use vstd::arithmetic::power2::{lemma2_to64, lemma_pow2_strictly_increases};

verus! {

/// Writing five bytes at the start of a 100-byte buffer leaves them there, and the next
/// byte untouched.
#[allow(dead_code)]
fn slice_writer_fills_the_callers_buffer() {
    let mut destination = [0u8; 100];
    let mut writer = SliceWriter::new(&mut destination);
    let bytes: [u8; 5] = [1, 2, 3, 4, 5];
    let r = writer.write(&bytes);
    assert(r is Ok);
    let n = writer.bytes_written();
    assert(n == 5);
    proof {
        writer.lemma_hands_back();
    }
    assert(destination@.subrange(0, 6) == seq![1u8, 2, 3, 4, 5, 0]);
}

/// Overwriting never reaches past what was written, nor moves the append position.
#[allow(dead_code)]
fn overwrite_cannot_extend_or_move_the_cursor() {
    let mut output = [0u8; 8];
    let mut writer = SliceWriter::new(&mut output);
    let first: [u8; 3] = [1, 2, 3];
    let r1 = writer.write(&first);
    assert(r1 is Ok);
    let nines: [u8; 2] = [9, 9];
    let r2 = writer.overwrite(2, &nines);
    assert(r2 is Err);
    let nine: [u8; 1] = [9];
    let r3 = writer.overwrite(usize::MAX, &nine);
    assert(r3 is Err);
    let nothing: [u8; 0] = [];
    let r4 = writer.overwrite(4, &nothing);
    assert(r4 is Err);
    let r5 = writer.overwrite(3, &nothing);
    assert(r5 is Ok);
    let eight: [u8; 1] = [8];
    let r6 = writer.overwrite(1, &eight);
    assert(r6 is Ok);
    let r7 = writer.bytes_written();
    assert(r7 == 3);
    let four: [u8; 1] = [4];
    let r8 = writer.write(&four);
    assert(r8 is Ok);
    proof {
        writer.lemma_hands_back();
    }
    assert(output@ == seq![1u8, 8, 3, 4, 0, 0, 0, 0]);
}

/// A frame whose length prefix is backpatched once the payload is written.
#[allow(dead_code)]
fn backpatched_frame() {
    let mut output = [0u8; 10];
    let mut writer = SliceWriter::new(&mut output);
    let start = writer.bytes_written();
    let zeros: [u8; 4] = [0, 0, 0, 0];
    let r9 = writer.write(&zeros);
    assert(r9 is Ok);
    let payload: [u8; 3] = [1, 2, 3];
    let r10 = writer.write(&payload);
    assert(r10 is Ok);
    let length: [u8; 4] = [3, 0, 0, 0];
    let r11 = writer.overwrite(start, &length);
    assert(r11 is Ok);
    let r12 = writer.bytes_written();
    assert(r12 == 7);
    let tail: [u8; 1] = [9];
    let r13 = writer.write(&tail);
    assert(r13 is Ok);
    let r14 = writer.bytes_written();
    assert(r14 == 8);
    proof {
        writer.lemma_hands_back();
    }
    assert(output@.subrange(0, 8) == seq![3u8, 0, 0, 0, 1, 2, 3, 9]);
}

/// Calls made through a reference to the writer reach the writer itself: where the
/// append position is, which overwrites succeed and which fail, and what the caller's
/// buffer holds at the end are as with direct calls.
#[allow(dead_code)]
fn calls_through_a_reference() {
    let mut output = [0u8; 4];
    let mut writer = SliceWriter::new(&mut output);
    {
        let mut lent = &mut writer;
        let start = <&mut SliceWriter as Writer>::position(&lent);
        assert(start == Ok::<usize, EncodeError>(0));
        let zeros: [u8; 2] = [0, 0];
        let r1 = <&mut SliceWriter as Writer>::write(&mut lent, &zeros);
        assert(r1 is Ok);
        let seven: [u8; 1] = [7];
        let r2 = <&mut SliceWriter as Writer>::overwrite(&mut lent, 1, &seven);
        assert(r2 is Ok);
        let r3 = <&mut SliceWriter as Writer>::overwrite(&mut lent, 2, &seven);
        assert(r3 == Err::<(), EncodeError>(EncodeError::UnexpectedEnd));
        let end = <&mut SliceWriter as Writer>::position(&lent);
        assert(end == Ok::<usize, EncodeError>(2));
    }
    let n = writer.bytes_written();
    assert(n == 2);
    proof {
        writer.lemma_hands_back();
    }
    assert(output@ == seq![0u8, 7, 0, 0]);
}

/// Known encodings land in the caller's buffer: 624485 takes `e5 8e 26`, and -150 takes
/// `ab 02` (the bytes of 299, its zigzag).
#[allow(dead_code)]
fn known_encodings() {
    let mut buffer = [0u8; 32];
    let mut writer = SliceWriter::new(&mut buffer);
    proof {
        reveal_with_fuel(uleb128_bytes, 4);
        assert(uleb128_bytes(624485) == seq![0xe5u8, 0x8e, 0x26]);
        assert(zigzag(-150) == 299);
        assert(uleb128_bytes(299) == seq![0xabu8, 2]);
    }
    let ghost fresh = writer;
    let r15 = Uleb128(624485u64).encode(&mut writer);
    assert(r15 is Ok);
    let ghost middle = writer;
    let r16 = Uleb128(-150i128).encode(&mut writer);
    assert(r16 is Ok);
    let r17 = writer.bytes_written();
    assert(r17 == 5);
    proof {
        lemma_writes_keep_destination(fresh, middle, uleb128_bytes(624485));
        lemma_writes_keep_destination(middle, writer, uleb128_bytes(299));
        writer.lemma_hands_back();
    }
    assert(buffer@.subrange(0, 6) == seq![0xe5u8, 0x8e, 0x26, 0xab, 2, 0]);
}

/// Encoding into a buffer and decoding the buffer gives the value back, having read just
/// its encoding: -150 as an `i128` takes two bytes.
#[allow(dead_code)]
fn round_trip_through_the_buffer() {
    let mut buffer = [0u8; 16];
    let mut writer = SliceWriter::new(&mut buffer);
    proof {
        reveal_with_fuel(uleb128_bytes, 3);
        assert(zigzag(-150) == 299);
        assert(uleb128_bytes(299) == seq![0xabu8, 2]);
    }
    let ghost fresh = writer;
    let r = Uleb128(-150i128).encode(&mut writer);
    assert(r is Ok);
    proof {
        lemma_writes_keep_destination(fresh, writer, uleb128_bytes(299));
        writer.lemma_hands_back();
        writer.lemma_storage_parts();
        lemma2_to64();
        lemma_pow2_strictly_increases(64, 127);
        let rest = buffer@.skip(2);
        assert(buffer@ == uleb128_bytes(zigzag(-150)) + rest);
        lemma_signed_roundtrip(128, 16, -150, rest, None);
    }
    let decoded = Uleb128::<i128>::decode(&buffer, None);
    assert(decoded == Ok::<(Uleb128<i128>, usize), DecodeError>((Uleb128(-150i128), 2usize)));
}

/// The largest `u128` takes nineteen bytes: eighteen `ff` and a final `03`.
#[allow(dead_code)]
fn widest_value() {
    let mut buffer = [0u8; 19];
    let mut writer = SliceWriter::new(&mut buffer);
    proof {
        reveal_with_fuel(uleb128_bytes, 20);
        assert(uleb128_bytes(u128::MAX as nat) =~= seq![0xffu8, 0xff, 0xff, 0xff, 0xff, 0xff, 0xff, 0xff, 0xff, 0xff, 0xff, 0xff, 0xff, 0xff, 0xff, 0xff, 0xff, 0xff, 0x03]);
    }
    let ghost fresh = writer;
    let r = crate::uleb128::encode(u128::MAX, &mut writer);
    assert(r is Ok);
    let n = writer.bytes_written();
    assert(n == 19);
    proof {
        lemma_writes_keep_destination(fresh, writer, uleb128_bytes(u128::MAX as nat));
        writer.lemma_hands_back();
    }
    assert(buffer@ == seq![0xffu8, 0xff, 0xff, 0xff, 0xff, 0xff, 0xff, 0xff, 0xff, 0xff, 0xff, 0xff, 0xff, 0xff, 0xff, 0xff, 0xff, 0xff, 0x03]);
}

/// Zero takes one byte, and the rest of the caller's buffer is left as it was.
#[allow(dead_code)]
fn zero_takes_one_byte() {
    let mut buffer = [0xAAu8; 4];
    let mut writer = SliceWriter::new(&mut buffer);
    assert(uleb128_bytes(0) == seq![0u8]);
    let ghost fresh = writer;
    let r18 = crate::uleb128::encode(0, &mut writer);
    assert(r18 is Ok);
    let r19 = writer.bytes_written();
    assert(r19 == 1);
    proof {
        lemma_writes_keep_destination(fresh, writer, uleb128_bytes(0));
        writer.lemma_hands_back();
    }
    assert(buffer@ == seq![0u8, 0xAA, 0xAA, 0xAA]);
}

/// 128 needs two bytes: a one-byte destination takes the first and reports the end.
#[allow(dead_code)]
fn too_small_a_destination() {
    let mut buffer = [0u8; 1];
    let mut writer = SliceWriter::new(&mut buffer);
    proof {
        reveal_with_fuel(uleb128_bytes, 2);
        assert(uleb128_bytes(128) == seq![0x80u8, 1]);
    }
    let ghost fresh = writer;
    let r = Uleb128(128u16).encode(&mut writer);
    assert(r == Err::<(), crate::error::EncodeError>(crate::error::EncodeError::UnexpectedEnd));
    proof {
        lemma_writes_keep_destination(fresh, writer, uleb128_bytes(128));
        writer.lemma_hands_back();
    }
    assert(buffer@ == seq![0x80u8]);
}

} // verus!
