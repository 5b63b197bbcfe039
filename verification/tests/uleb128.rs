//! ULEB128 wrappers: round trips, known bytes, malformed input and limits.
use cu_bincode::enc::write::SliceWriter;
use cu_bincode::error::{DecodeError, EncodeError};
use cu_bincode::Uleb128;

fn check_u8(value: u8) {
    let mut bytes = [0; 19];
    let mut writer = SliceWriter::new(&mut bytes);
    Uleb128(value).encode(&mut writer).unwrap();
    let len = writer.bytes_written();
    let (decoded, used) = Uleb128::<u8>::decode(&bytes[..len], None).unwrap();
    assert_eq!(decoded.0, value);
    assert_eq!(used, len);
    let (again, used) = Uleb128::<u8>::decode(&bytes, Some(64)).unwrap();
    assert_eq!(again.0, value);
    assert_eq!(used, len);
}

fn check_u16(value: u16) {
    let mut bytes = [0; 19];
    let mut writer = SliceWriter::new(&mut bytes);
    Uleb128(value).encode(&mut writer).unwrap();
    let len = writer.bytes_written();
    let (decoded, used) = Uleb128::<u16>::decode(&bytes[..len], None).unwrap();
    assert_eq!(decoded.0, value);
    assert_eq!(used, len);
    let (again, used) = Uleb128::<u16>::decode(&bytes, Some(64)).unwrap();
    assert_eq!(again.0, value);
    assert_eq!(used, len);
}

fn check_u32(value: u32) {
    let mut bytes = [0; 19];
    let mut writer = SliceWriter::new(&mut bytes);
    Uleb128(value).encode(&mut writer).unwrap();
    let len = writer.bytes_written();
    let (decoded, used) = Uleb128::<u32>::decode(&bytes[..len], None).unwrap();
    assert_eq!(decoded.0, value);
    assert_eq!(used, len);
    let (again, used) = Uleb128::<u32>::decode(&bytes, Some(64)).unwrap();
    assert_eq!(again.0, value);
    assert_eq!(used, len);
}

fn check_u64(value: u64) {
    let mut bytes = [0; 19];
    let mut writer = SliceWriter::new(&mut bytes);
    Uleb128(value).encode(&mut writer).unwrap();
    let len = writer.bytes_written();
    let (decoded, used) = Uleb128::<u64>::decode(&bytes[..len], None).unwrap();
    assert_eq!(decoded.0, value);
    assert_eq!(used, len);
    let (again, used) = Uleb128::<u64>::decode(&bytes, Some(64)).unwrap();
    assert_eq!(again.0, value);
    assert_eq!(used, len);
}

fn check_u128(value: u128) {
    let mut bytes = [0; 19];
    let mut writer = SliceWriter::new(&mut bytes);
    Uleb128(value).encode(&mut writer).unwrap();
    let len = writer.bytes_written();
    let (decoded, used) = Uleb128::<u128>::decode(&bytes[..len], None).unwrap();
    assert_eq!(decoded.0, value);
    assert_eq!(used, len);
    let (again, used) = Uleb128::<u128>::decode(&bytes, Some(64)).unwrap();
    assert_eq!(again.0, value);
    assert_eq!(used, len);
}

fn check_usize(value: usize) {
    let mut bytes = [0; 19];
    let mut writer = SliceWriter::new(&mut bytes);
    Uleb128(value).encode(&mut writer).unwrap();
    let len = writer.bytes_written();
    let (decoded, used) = Uleb128::<usize>::decode(&bytes[..len], None).unwrap();
    assert_eq!(decoded.0, value);
    assert_eq!(used, len);
    let (again, used) = Uleb128::<usize>::decode(&bytes, Some(64)).unwrap();
    assert_eq!(again.0, value);
    assert_eq!(used, len);
}

fn check_i8(value: i8) {
    let mut bytes = [0; 19];
    let mut writer = SliceWriter::new(&mut bytes);
    Uleb128(value).encode(&mut writer).unwrap();
    let len = writer.bytes_written();
    let (decoded, used) = Uleb128::<i8>::decode(&bytes[..len], None).unwrap();
    assert_eq!(decoded.0, value);
    assert_eq!(used, len);
    let (again, used) = Uleb128::<i8>::decode(&bytes, Some(64)).unwrap();
    assert_eq!(again.0, value);
    assert_eq!(used, len);
}

fn check_i16(value: i16) {
    let mut bytes = [0; 19];
    let mut writer = SliceWriter::new(&mut bytes);
    Uleb128(value).encode(&mut writer).unwrap();
    let len = writer.bytes_written();
    let (decoded, used) = Uleb128::<i16>::decode(&bytes[..len], None).unwrap();
    assert_eq!(decoded.0, value);
    assert_eq!(used, len);
    let (again, used) = Uleb128::<i16>::decode(&bytes, Some(64)).unwrap();
    assert_eq!(again.0, value);
    assert_eq!(used, len);
}

fn check_i32(value: i32) {
    let mut bytes = [0; 19];
    let mut writer = SliceWriter::new(&mut bytes);
    Uleb128(value).encode(&mut writer).unwrap();
    let len = writer.bytes_written();
    let (decoded, used) = Uleb128::<i32>::decode(&bytes[..len], None).unwrap();
    assert_eq!(decoded.0, value);
    assert_eq!(used, len);
    let (again, used) = Uleb128::<i32>::decode(&bytes, Some(64)).unwrap();
    assert_eq!(again.0, value);
    assert_eq!(used, len);
}

fn check_i64(value: i64) {
    let mut bytes = [0; 19];
    let mut writer = SliceWriter::new(&mut bytes);
    Uleb128(value).encode(&mut writer).unwrap();
    let len = writer.bytes_written();
    let (decoded, used) = Uleb128::<i64>::decode(&bytes[..len], None).unwrap();
    assert_eq!(decoded.0, value);
    assert_eq!(used, len);
    let (again, used) = Uleb128::<i64>::decode(&bytes, Some(64)).unwrap();
    assert_eq!(again.0, value);
    assert_eq!(used, len);
}

fn check_i128(value: i128) {
    let mut bytes = [0; 19];
    let mut writer = SliceWriter::new(&mut bytes);
    Uleb128(value).encode(&mut writer).unwrap();
    let len = writer.bytes_written();
    let (decoded, used) = Uleb128::<i128>::decode(&bytes[..len], None).unwrap();
    assert_eq!(decoded.0, value);
    assert_eq!(used, len);
    let (again, used) = Uleb128::<i128>::decode(&bytes, Some(64)).unwrap();
    assert_eq!(again.0, value);
    assert_eq!(used, len);
}

fn check_isize(value: isize) {
    let mut bytes = [0; 19];
    let mut writer = SliceWriter::new(&mut bytes);
    Uleb128(value).encode(&mut writer).unwrap();
    let len = writer.bytes_written();
    let (decoded, used) = Uleb128::<isize>::decode(&bytes[..len], None).unwrap();
    assert_eq!(decoded.0, value);
    assert_eq!(used, len);
    let (again, used) = Uleb128::<isize>::decode(&bytes, Some(64)).unwrap();
    assert_eq!(again.0, value);
    assert_eq!(used, len);
}

fn encoded<F: FnOnce(&mut SliceWriter) -> Result<(), EncodeError>>(f: F) -> Vec<u8> {
    let mut bytes = [0; 19];
    let mut writer = SliceWriter::new(&mut bytes);
    f(&mut writer).unwrap();
    let len = writer.bytes_written();
    bytes[..len].to_vec()
}

#[test]
fn all_integer_widths_and_signed_extremes() {

    for value in [0, 1, 127, 128, u8::MAX] {
        check_u8(value);
    }

    for value in [0, 1, 127, 128, u16::MAX] {
        check_u16(value);
    }

    for value in [0, 1, 127, 128, u32::MAX] {
        check_u32(value);
    }

    for value in [0, 1, 127, 128, u64::MAX] {
        check_u64(value);
    }

    for value in [0, 1, 127, 128, u128::MAX] {
        check_u128(value);
    }

    for value in [0, 1, 127, 128, usize::MAX] {
        check_usize(value);
    }

    for value in [i8::MIN, -65, -64, -1, 0, 1, 63, 64, i8::MAX] {
        check_i8(value);
    }

    for value in [i16::MIN, -65, -64, -1, 0, 1, 63, 64, i16::MAX] {
        check_i16(value);
    }

    for value in [i32::MIN, -65, -64, -1, 0, 1, 63, 64, i32::MAX] {
        check_i32(value);
    }

    for value in [i64::MIN, -65, -64, -1, 0, 1, 63, 64, i64::MAX] {
        check_i64(value);
    }

    for value in [i128::MIN, -65, -64, -1, 0, 1, 63, 64, i128::MAX] {
        check_i128(value);
    }

    for value in [isize::MIN, -65, -64, -1, 0, 1, 63, 64, isize::MAX] {
        check_isize(value);
    }

    for shift in (7..128).step_by(7) {
        for value in [(1u128 << shift) - 1, 1u128 << shift, (1u128 << shift) + 1] {
            check_u128(value);
        }
    }
}

#[test]
fn known_bytes_and_unwrapped_values_are_unchanged() {
    assert_eq!(encoded(|w| Uleb128(624485u64).encode(w)), [0xe5, 0x8e, 0x26]);
    assert_eq!(encoded(|w| Uleb128(-150i128).encode(w)), [0xab, 2]);
    assert_eq!(encoded(|w| Uleb128(300u32).encode(w)), [0xac, 2]);
    let mut bytes = [0; 32];
    let mut writer = SliceWriter::new(&mut bytes);
    Uleb128(624485u64).encode(&mut writer).unwrap();
    Uleb128(-150i128).encode(&mut writer).unwrap();
    let len = writer.bytes_written();
    assert_eq!(&bytes[..len], &[0xe5, 0x8e, 0x26, 0xab, 2]);
    let (first, used) = Uleb128::<u64>::decode(&bytes[..len], None).unwrap();
    assert_eq!((first, used), (Uleb128(624485), 3));
    let (second, used2) = Uleb128::<i128>::decode(&bytes[used..len], None).unwrap();
    assert_eq!((second, used2), (Uleb128(-150), 2));
}

#[test]
fn copper_timestamp_and_backreference_bytes_match() {
    // Independent reference for the encoding previously used by Copper.
    fn old_encode(mut value: u128) -> Vec<u8> {
        let mut out = Vec::new();
        loop {
            let mut byte = (value & 0x7f) as u8;
            value >>= 7;
            if value != 0 {
                byte |= 0x80;
            }
            out.push(byte);
            if value == 0 {
                return out;
            }
        }
    }
    for delta in [
        -i128::from(u64::MAX),
        -1_000_000,
        -1000,
        -65,
        -1,
        0,
        1,
        63,
        64,
        1000,
        1_000_000,
        i128::from(u64::MAX),
    ] {
        let zigzag = if delta < 0 {
            ((-delta) as u128) * 2 - 1
        } else {
            (delta as u128) << 1
        };
        assert_eq!(encoded(|w| Uleb128(delta).encode(w)), old_encode(zigzag));
    }
    for backref in 0..=1024u128 {
        assert_eq!(encoded(|w| Uleb128(backref).encode(w)), old_encode(backref));
    }
}

#[test]
fn malformed_input_and_limits() {
    assert!(matches!(
        Uleb128::<u64>::decode(&[0x80], None),
        Err(DecodeError::UnexpectedEnd { .. })
    ));
    assert!(Uleb128::<u8>::decode(&[0x80, 2], None).is_err());
    assert!(Uleb128::<i8>::decode(&[0xff, 2], None).is_err());
    assert!(Uleb128::<u128>::decode(&[0x80; 19], None).is_err());
    let mut overflow = [0xff; 19];
    overflow[18] = 4;
    assert!(Uleb128::<u128>::decode(&overflow, None).is_err());
    assert!(matches!(
        Uleb128::<u64>::decode(&[0], Some(7)),
        Err(DecodeError::LimitExceeded)
    ));
    assert_eq!(Uleb128::<u64>::decode(&[0], Some(8)).unwrap(), (Uleb128(0), 1));
    let mut one = [0; 1];
    let mut writer = SliceWriter::new(&mut one);
    assert!(Uleb128(128u16).encode(&mut writer).is_err());
}

#[test]
fn decode_errors_name_their_cause() {
    assert_eq!(
        Uleb128::<u64>::decode(&[], None),
        Err(DecodeError::UnexpectedEnd { additional: 1 })
    );
    assert_eq!(
        Uleb128::<u8>::decode(&[0x80, 2], None),
        Err(DecodeError::Other("ULEB128 integer overflow"))
    );
    assert_eq!(
        Uleb128::<u8>::decode(&[0x80, 0x81, 0], None),
        Err(DecodeError::Other("ULEB128 integer is too long"))
    );
    assert_eq!(
        Uleb128::<u128>::decode(&[0x80; 19], None),
        Err(DecodeError::Other("ULEB128 integer is too long"))
    );
    assert_eq!(Uleb128::<u8>::decode(&[0x80, 1], None), Ok((Uleb128(128), 2)));
    assert_eq!(Uleb128::<u8>::decode(&[0xff, 1], None), Ok((Uleb128(255), 2)));
    assert_eq!(Uleb128::<i8>::decode(&[0xff, 1], None), Ok((Uleb128(i8::MIN), 2)));
    assert_eq!(Uleb128::<u32>::decode(&[0x80, 0x00, 9], None), Ok((Uleb128(0), 2)));
}

#[test]
fn zigzag_bytes_for_small_signed_values() {
    assert_eq!(encoded(|w| Uleb128(0i32).encode(w)), [0]);
    assert_eq!(encoded(|w| Uleb128(-1i32).encode(w)), [1]);
    assert_eq!(encoded(|w| Uleb128(1i32).encode(w)), [2]);
    assert_eq!(encoded(|w| Uleb128(-2i32).encode(w)), [3]);
    assert_eq!(encoded(|w| Uleb128(-64i32).encode(w)), [127]);
    assert_eq!(encoded(|w| Uleb128(64i32).encode(w)), [0x80, 1]);
    assert_eq!(encoded(|w| Uleb128(i8::MIN).encode(w)), [0xff, 1]);
}

#[test]
fn encoding_lengths_stay_within_bounds() {
    assert_eq!(encoded(|w| Uleb128(u128::MAX).encode(w)).len(), 19);
    assert_eq!(encoded(|w| Uleb128(u64::MAX).encode(w)).len(), 10);
    assert_eq!(encoded(|w| Uleb128(u32::MAX).encode(w)).len(), 5);
    assert_eq!(encoded(|w| Uleb128(127u8).encode(w)).len(), 1);
    let bytes = encoded(|w| Uleb128(u64::MAX).encode(w));
    assert!(bytes[..9].iter().all(|b| *b >= 0x80));
    assert!(bytes[9] < 0x80 && bytes[9] != 0);
}

#[test]
fn free_functions_encode_and_decode() {
    let bytes = encoded(|w| cu_bincode::uleb128::encode(300, w));
    assert_eq!(bytes, [0xac, 2]);
    assert_eq!(cu_bincode::uleb128::decode(16, &[0xac, 2, 7]), Ok((300, 2)));
    assert_eq!(
        cu_bincode::uleb128::decode(8, &[0xac, 2]),
        Err(DecodeError::Other("ULEB128 integer overflow"))
    );
    assert_eq!(
        cu_bincode::uleb128::decode(0, &[0]),
        Err(DecodeError::Other("ULEB128 integer is too long"))
    );
}

#[test]
fn failed_encoding_keeps_what_fits_and_leaves_the_rest() {
    let mut one = [0; 1];
    let mut writer = SliceWriter::new(&mut one);
    assert_eq!(Uleb128(128u16).encode(&mut writer), Err(EncodeError::UnexpectedEnd));
    assert_eq!(writer.bytes_written(), 1);
    assert_eq!(one, [0x80]);
    let mut buffer = [0xAA; 4];
    let mut writer = SliceWriter::new(&mut buffer);
    Uleb128(0u8).encode(&mut writer).unwrap();
    assert_eq!(writer.bytes_written(), 1);
    assert_eq!(buffer, [0x00, 0xAA, 0xAA, 0xAA]);
    let mut full = [0; 19];
    let mut writer = SliceWriter::new(&mut full);
    Uleb128(u128::MAX).encode(&mut writer).unwrap();
    assert_eq!(writer.bytes_written(), 19);
    assert!(full[..18].iter().all(|b| *b == 0xff));
    assert_eq!(full[18], 0x03);
}

/// A writer of its own that records each call and refuses the fourth one with its own error.
struct Recorder {
    calls: Vec<Vec<u8>>,
}

impl cu_bincode::enc::write::Writer for Recorder {
    fn write(&mut self, bytes: &[u8]) -> Result<(), EncodeError> {
        self.calls.push(bytes.to_vec());
        if self.calls.len() == 4 {
            Err(EncodeError::Other("recorder is full"))
        } else {
            Ok(())
        }
    }
}

#[test]
fn any_writer_gets_one_byte_per_call_and_its_own_error_back() {
    let mut recorder = Recorder { calls: Vec::new() };
    assert_eq!(cu_bincode::uleb128::encode(624485, &mut recorder), Ok(()));
    assert_eq!(recorder.calls, vec![vec![0xe5], vec![0x8e], vec![0x26]]);

    let mut recorder = Recorder { calls: Vec::new() };
    let r = cu_bincode::uleb128::encode(u128::MAX, &mut recorder);
    assert_eq!(r, Err(EncodeError::Other("recorder is full")));
    assert_eq!(recorder.calls, vec![vec![0xff], vec![0xff], vec![0xff], vec![0xff]]);
}

#[test]
fn round_trip_through_the_callers_buffer() {
    let mut buffer = [0u8; 16];
    let mut writer = SliceWriter::new(&mut buffer);
    Uleb128(-150i128).encode(&mut writer).unwrap();
    assert_eq!(writer.bytes_written(), 2);
    assert_eq!(&buffer[..3], &[171, 2, 0]);
    assert_eq!(Uleb128::<i128>::decode(&buffer, None), Ok((Uleb128(-150i128), 2)));
}
