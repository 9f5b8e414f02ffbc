use ripgzip::deflate::tracking_writer::TrackingWriter;

#[test]
fn write() {
    let mut writer = TrackingWriter::with_limit(10);

    assert_eq!(writer.write(&[1, 2, 3, 4]), 4);
    assert_eq!(writer.byte_count(), 4);

    assert_eq!(writer.write(&[4, 8, 15, 16, 23]), 5);
    assert_eq!(writer.byte_count(), 9);

    assert_eq!(writer.write(&[0, 0, 123]), 1);
    assert_eq!(writer.byte_count(), 10);

    assert_eq!(writer.write(&[42, 124, 234, 27]), 0);
    assert_eq!(writer.byte_count(), 10);
    assert_eq!(writer.crc32(), 2992191065);
}

#[test]
fn write_previous() {
    let mut writer = TrackingWriter::with_limit(512);

    for i in 0..=255 {
        writer.write_u8(i).unwrap();
    }

    writer.write_previous(192, 128).unwrap();
    assert_eq!(writer.byte_count(), 384);

    assert!(writer.write_previous(10000, 20).is_err());
    assert_eq!(writer.byte_count(), 384);

    assert!(writer.write_previous(256, 256).is_err());
    assert_eq!(writer.byte_count(), 512);

    assert!(writer.write_previous(1, 1).is_err());
    assert_eq!(writer.byte_count(), 512);
    assert_eq!(writer.crc32(), 2733545866);
}

#[test]
fn write_previous_overlapping() {
    let mut writer = TrackingWriter::new();
    writer.write_u8(b'a').unwrap();
    writer.write_previous(1, 5).unwrap();
    assert_eq!(writer.byte_count(), 6);
    let crc = crc::Crc::<u32>::new(&crc::CRC_32_ISO_HDLC).checksum(b"aaaaaa");
    assert_eq!(writer.crc32(), crc);
    assert_eq!(writer.into_output(), b"aaaaaa".to_vec());
}

#[test]
fn window_reset_blocks_back_references() {
    let mut writer = TrackingWriter::new();
    writer.write_u8(1).unwrap();
    writer.write_u8(2).unwrap();
    writer.reset_window();
    assert!(writer.write_previous(1, 1).is_err());
    assert_eq!(writer.byte_count(), 2);
}

#[test]
fn member_accounting_restarts() {
    let mut writer = TrackingWriter::new();
    writer.write_u8(7).unwrap();
    writer.write_u8(9).unwrap();
    assert_eq!(writer.byte_count(), 2);
    writer.start_member();
    assert_eq!(writer.byte_count(), 0);
    let empty_crc = crc::Crc::<u32>::new(&crc::CRC_32_ISO_HDLC).checksum(b"");
    assert_eq!(writer.crc32(), empty_crc);
    writer.write_u8(5).unwrap();
    assert_eq!(writer.byte_count(), 1);
    let one_crc = crc::Crc::<u32>::new(&crc::CRC_32_ISO_HDLC).checksum(&[5u8]);
    assert_eq!(writer.crc32(), one_crc);
    assert_eq!(writer.into_output(), vec![7u8, 9, 5]);
}
