use mfat32::entry::{FullLoongEntry, LongEntry, ShortEntry, ATTR_ARCHIVE, ATTR_DIRECTORY};

#[test]
fn test_short_entry_new() {
    let short_entry = ShortEntry::new("test.txt", ATTR_DIRECTORY, 0);
    assert_eq!(short_entry.filename(), "TEST.TXT");
    assert_eq!(
        short_entry.name.as_slice(),
        [0x54u8, 0x45, 0x53, 0x54, 0x20, 0x20, 0x20, 0x20].as_ref()
    );
    assert_eq!(short_entry.ext.as_slice(), [0x54u8, 0x58, 0x54].as_ref());
    assert_eq!(short_entry.file_size, 0);
    assert_eq!(short_entry.start_cluster(), 0);
    let entry = ShortEntry::new("hhhhhhhhhhh", ATTR_DIRECTORY, 0);
    assert_eq!(entry.filename(), "HHHHHHHH");
    let entry = ShortEntry::new("hhhhhhhhhhhh.txtx", ATTR_DIRECTORY, 0);
    assert_eq!(entry.filename(), "HHHHHHHH.TXT");
}

#[test]
fn test_short_entry_from_buffer() {
    let mut buffer = [0u8; 32];
    buffer[0..12].fill(0x20);
    buffer[0] = 0x54;
    buffer[1] = 0x45;
    buffer[2] = 0x53;
    buffer[3] = 0x54;
    buffer[8] = 0x54;
    buffer[9] = 0x58;
    buffer[10] = 0x54;
    let short_entry = ShortEntry::from_buffer(&buffer);
    assert_eq!(short_entry.filename(), "TEST.TXT");
    assert_eq!(
        short_entry.name.as_slice(),
        [0x54u8, 0x45, 0x53, 0x54, 0x20, 0x20, 0x20, 0x20].as_ref()
    );
    assert_eq!(short_entry.ext.as_slice(), [0x54u8, 0x58, 0x54].as_ref());
    assert_eq!(short_entry.file_size, 0);
    assert_eq!(short_entry.start_cluster(), 0);
}

#[test]
fn test_short_entry_to_buffer() {
    let short_entry = ShortEntry::new("test.txt", ATTR_DIRECTORY, 0);
    let buffer = short_entry.to_buffer();
    assert_eq!(
        buffer[0..11],
        [0x54u8, 0x45, 0x53, 0x54, 0x20, 0x20, 0x20, 0x20, 0x54, 0x58, 0x54]
    );
}

#[test]
fn test_short_entry_checksum() {
    let short_entry = ShortEntry::new("hello", ATTR_DIRECTORY, 0);
    assert_eq!(short_entry.checksum(), 0x14);
}

#[test]
fn test_short_entry_buffer_round_trip() {
    let e = ShortEntry::new("data.bin", ATTR_ARCHIVE, 0x00123456);
    let buf = e.to_buffer();
    let back = ShortEntry::from_buffer(&buf);
    assert_eq!(back.name, e.name);
    assert_eq!(back.ext, e.ext);
    assert_eq!(back.attr, e.attr);
    assert_eq!(back.start_cluster(), 0x00123456);
    assert_eq!(back.file_size, 0);
}

#[test]
fn test_long_entry_buffer_round_trip() {
    let units: Vec<u16> = "abcdefgh.json".encode_utf16().collect();
    let e = LongEntry::new(&units, 0x41, 0xAB);
    let buf = e.to_buffer();
    assert_eq!(buf.len(), 32);
    assert_eq!(buf[0], 0x41);
    assert_eq!(buf[11], 0x0F);
    assert_eq!(buf[13], 0xAB);
    let back = LongEntry::from_buffer(&buf);
    assert_eq!(back.order, 0x41);
    assert_eq!(back.checksum, 0xAB);
    assert_eq!(back.filename_units(), units);
}

#[test]
fn test_long_name_group_round_trip() {
    // a name spanning three long entries
    let name = "a_rather_long_file_name_indeed.markdown";
    let units: Vec<u16> = name.encode_utf16().collect();
    let group = FullLoongEntry::from_file_name(&units, 0x5C);
    assert_eq!(group.len(), 3);
    for e in group.iter() {
        assert_eq!(e.check_sum(), 0x5C);
    }
    // orders: 1, 2, then 0x40 | 3 on the final chunk
    assert_eq!(group.iter()[0].order, 1);
    assert_eq!(group.iter()[1].order, 2);
    assert_eq!(group.iter()[2].order, 0x43);
    assert_eq!(group.filename_units(), units);
    assert_eq!(group.filename(), name);
}

#[test]
fn test_long_name_group_bmp_round_trip() {
    // BMP characters beyond ASCII survive the codec
    let name = "r\u{e9}sum\u{e9}-\u{4f60}\u{597d}.txt";
    let units: Vec<u16> = name.encode_utf16().collect();
    let group = FullLoongEntry::from_file_name(&units, 0x77);
    assert_eq!(group.filename_units(), units);
    assert_eq!(group.filename(), name);
}

#[test]
fn test_long_name_exact_chunk_round_trip() {
    // exactly 13 units: no terminator, no padding
    let name = "exactly13char";
    assert_eq!(name.len(), 13);
    let units: Vec<u16> = name.encode_utf16().collect();
    let group = FullLoongEntry::from_file_name(&units, 0x01);
    assert_eq!(group.len(), 1);
    assert_eq!(group.iter()[0].order, 0x41);
    assert_eq!(group.filename_units(), units);
}
