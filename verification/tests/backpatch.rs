//! Backpatching preserves the append cursor and rejects unwritten ranges.
use cu_bincode::enc::write::{SizeWriter, SliceWriter, Writer};
use cu_bincode::error::EncodeError;

/// Writes a frame: a four-byte little-endian length, backpatched after the payload.
fn frame<W: Writer>(writer: &mut W) -> Result<(), EncodeError> {
    let start = writer.position()?;
    writer.write(&[0; 4])?;
    writer.write(&[1, 2, 3])?;
    let len = writer.position()? - start - 4;
    writer.overwrite(start, &(len as u32).to_le_bytes())?;
    writer.write(&[9])
}

#[test]
fn backpatch_slice_and_size_writer() {
    let mut output = [0; 10];
    let mut writer = SliceWriter::new(&mut output);
    frame(&mut writer).unwrap();
    let len = writer.bytes_written();
    assert_eq!(len, 8);
    assert_eq!(&output[..len], &[3, 0, 0, 0, 1, 2, 3, 9]);
    let mut size = SizeWriter::default();
    frame(&mut size).unwrap();
    assert_eq!(size.bytes_written, len);
    assert!(size.overwrite(usize::MAX, &[1]).is_err());
    assert!(size.overwrite(len, &[1]).is_err());
    assert_eq!(size.bytes_written, len);
}

#[test]
fn overwrite_cannot_extend_or_move_cursor() {
    let mut output = [0; 8];
    let mut writer = SliceWriter::new(&mut output);
    writer.write(&[1, 2, 3]).unwrap();
    assert!(writer.overwrite(2, &[9, 9]).is_err());
    assert!(writer.overwrite(usize::MAX, &[9]).is_err());
    assert!(writer.overwrite(4, &[]).is_err());
    writer.overwrite(3, &[]).unwrap();
    writer.overwrite(1, &[8]).unwrap();
    assert_eq!(writer.bytes_written(), 3);
    writer.write(&[4]).unwrap();
    assert_eq!(output, [1, 8, 3, 4, 0, 0, 0, 0]);
}

#[test]
fn forward_only_writer_rejects_before_writing() {
    struct ForwardOnly(usize);
    impl Writer for ForwardOnly {
        fn write(&mut self, bytes: &[u8]) -> Result<(), EncodeError> {
            self.0 += bytes.len();
            Ok(())
        }
    }
    let mut writer = ForwardOnly(0);
    assert!(frame(&mut writer).is_err());
    assert_eq!(writer.0, 0);
}

#[test]
fn forward_only_writer_rejects_overwrite() {
    struct ForwardOnly(usize);
    impl Writer for ForwardOnly {
        fn write(&mut self, bytes: &[u8]) -> Result<(), EncodeError> {
            self.0 += bytes.len();
            Ok(())
        }
    }
    let mut writer = ForwardOnly(0);
    writer.write(&[1, 2]).unwrap();
    assert_eq!(
        writer.position(),
        Err(EncodeError::Other("Writer does not support backpatching"))
    );
    assert_eq!(
        writer.overwrite(0, &[5]),
        Err(EncodeError::Other("Writer does not support backpatching"))
    );
    assert_eq!(writer.0, 2);
}

#[test]
fn slice_writer_write_past_end_is_rejected_unchanged() {
    let mut output = [7; 4];
    let mut writer = SliceWriter::new(&mut output);
    writer.write(&[1, 2, 3]).unwrap();
    assert_eq!(writer.write(&[4, 5]), Err(EncodeError::UnexpectedEnd));
    assert_eq!(writer.bytes_written(), 3);
    assert_eq!(writer.position(), Ok(3));
    writer.write(&[4]).unwrap();
    assert_eq!(writer.write(&[]), Ok(()));
    assert_eq!(writer.write(&[5]), Err(EncodeError::UnexpectedEnd));
    assert_eq!(output, [1, 2, 3, 4]);
}

#[test]
fn size_writer_counts_and_rejects_overflow() {
    let mut size = SizeWriter::default();
    assert_eq!(size.bytes_written, 0);
    size.write(&[1, 2, 3]).unwrap();
    assert_eq!(size.position(), Ok(3));
    size.overwrite(0, &[1, 2, 3]).unwrap();
    size.overwrite(3, &[]).unwrap();
    assert_eq!(size.overwrite(4, &[]), Err(EncodeError::UnexpectedEnd));
    assert_eq!(size.bytes_written, 3);
    let mut full = SizeWriter { bytes_written: usize::MAX - 1 };
    full.write(&[0]).unwrap();
    assert_eq!(full.write(&[0]), Err(EncodeError::UnexpectedEnd));
    assert_eq!(full.bytes_written, usize::MAX);
}

#[test]
fn mutable_reference_writer_forwards() {
    let mut output = [0; 4];
    let mut writer = SliceWriter::new(&mut output);
    {
        let mut by_ref = &mut writer;
        Writer::write(&mut by_ref, &[1, 2]).unwrap();
        assert_eq!(Writer::position(&by_ref), Ok(2));
        Writer::overwrite(&mut by_ref, 0, &[5]).unwrap();
    }
    assert_eq!(writer.bytes_written(), 2);
    assert_eq!(output, [5, 2, 0, 0]);
}

#[test]
fn count_is_the_sum_of_accepted_writes() {
    let mut output = [0; 6];
    let mut writer = SliceWriter::new(&mut output);
    let mut size = SizeWriter::default();
    writer.write(&[1, 2, 3]).unwrap();
    size.write(&[1, 2, 3]).unwrap();
    writer.overwrite(0, &[7, 7]).unwrap();
    size.overwrite(0, &[7, 7]).unwrap();
    assert!(writer.write(&[0; 4]).is_err());
    assert!(writer.overwrite(2, &[5, 5]).is_err());
    writer.write(&[4, 5]).unwrap();
    size.write(&[4, 5]).unwrap();
    assert_eq!(writer.bytes_written(), 5);
    assert_eq!(size.bytes_written, 5);
    assert_eq!(&output, &[7, 7, 3, 4, 5, 0]);
}
