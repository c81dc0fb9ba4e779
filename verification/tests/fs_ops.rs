use mfat32::disk::Disk;
use mfat32::dir::OperationError;
use mfat32::entry::ShortEntry;
use mfat32::Fat32;

fn put16(s: &mut [u8], off: usize, v: u16) {
    s[off] = (v & 0xFF) as u8;
    s[off + 1] = (v >> 8) as u8;
}

fn put32(s: &mut [u8], off: usize, v: u32) {
    s[off] = (v & 0xFF) as u8;
    s[off + 1] = ((v >> 8) & 0xFF) as u8;
    s[off + 2] = ((v >> 16) & 0xFF) as u8;
    s[off + 3] = ((v >> 24) & 0xFF) as u8;
}

/// A freshly formatted little volume: `total` sectors, `spc` sectors per
/// cluster, 32 reserved sectors, two FATs of `spf` sectors each.
fn make_image(total: u32, spc: u8, spf: u32) -> Disk {
    let reserved: u16 = 32;
    let mut sectors: Vec<Vec<u8>> = (0..total).map(|_| vec![0u8; 512]).collect();
    {
        let s0 = &mut sectors[0];
        put16(s0, 0x0b, 512);
        s0[0x0d] = spc;
        put16(s0, 0x0e, reserved);
        s0[0x10] = 2;
        put32(s0, 0x20, total);
        put32(s0, 0x24, spf);
        put32(s0, 0x2c, 2);
        put16(s0, 0x30, 1);
    }
    {
        let info = &mut sectors[1];
        put32(info, 0, 0x41615252);
        put32(info, 484, 0x61417272);
        let rds = reserved as u32 + 2 * spf;
        let free = (total - rds) / spc as u32 - 1;
        put32(info, 488, free);
        put32(info, 492, 3);
        put32(info, 508, 0xAA550000);
    }
    {
        // the first FAT: media entries, then the root's single cluster
        let fat = &mut sectors[32];
        put32(fat, 0, 0x0FFFFFF8);
        put32(fat, 4, 0x0FFFFFFF);
        put32(fat, 8, 0x0FFFFFFF);
    }
    Disk::from_sectors(sectors).unwrap()
}

fn mount() -> Fat32 {
    Fat32::new(make_image(4096, 1, 32)).unwrap()
}

#[test]
fn test_mount_rejects_bad_fsinfo() {
    let mut sectors: Vec<Vec<u8>> = (0..64).map(|_| vec![0u8; 512]).collect();
    put16(&mut sectors[0], 0x0b, 512);
    sectors[0][0x0d] = 1;
    put16(&mut sectors[0], 0x0e, 8);
    sectors[0][0x10] = 1;
    put32(&mut sectors[0], 0x20, 64);
    put32(&mut sectors[0], 0x24, 4);
    put32(&mut sectors[0], 0x2c, 2);
    put16(&mut sectors[0], 0x30, 1);
    // no FSInfo signatures written
    let disk = Disk::from_sectors(sectors).unwrap();
    assert!(Fat32::new(disk).is_err());
}

#[test]
fn test_create_write_read_hello() {
    let mut fs = mount();
    let mut root = fs.root_dir().unwrap();
    root.create_file(&mut fs, "a.txt").unwrap();
    let f = root.open("a.txt").unwrap();
    let written = f.write(&mut fs, 0, b"Hello").unwrap();
    assert_eq!(written, 5);
    let data = f.read(&fs, 0, 10).unwrap();
    assert_eq!(data, b"Hello".to_vec());
    assert_eq!(f.size(&fs), 5);
}

#[test]
fn test_read_empty_file() {
    let mut fs = mount();
    let mut root = fs.root_dir().unwrap();
    root.create_file(&mut fs, "test_read_file").unwrap();
    let f = root.open("test_read_file").unwrap();
    let data = f.read(&fs, 0, 10).unwrap();
    assert_eq!(data.len(), 0);
    assert!(root.open("no_file").is_err());
}

#[test]
fn test_create_fail_on_existing() {
    let mut fs = mount();
    let mut root = fs.root_dir().unwrap();
    assert!(root.create_file(&mut fs, "test_create_fail").is_ok());
    assert_eq!(
        root.create_file(&mut fs, "test_create_fail"),
        Err(OperationError::FileExist)
    );
    assert!(root.create_dir(&mut fs, "test_create_fail").is_ok());
    assert_eq!(
        root.create_dir(&mut fs, "test_create_fail"),
        Err(OperationError::DirExist)
    );
}

#[test]
fn test_invalid_names_rejected() {
    let mut fs = mount();
    let mut root = fs.root_dir().unwrap();
    assert_eq!(root.create_file(&mut fs, ""), Err(OperationError::InvalidDirName));
    assert_eq!(root.create_file(&mut fs, "a\u{0}b"), Err(OperationError::InvalidDirName));
    assert_eq!(
        root.create_file(&mut fs, "emoji_\u{1F600}.txt"),
        Err(OperationError::InvalidDirName)
    );
    let long: String = "x".repeat(256);
    assert_eq!(root.create_file(&mut fs, &long), Err(OperationError::InvalidDirName));
}

#[test]
fn test_bmp_names_round_trip() {
    let mut fs = mount();
    let mut root = fs.root_dir().unwrap();
    let name = "caf\u{e9}-\u{4f60}\u{597d}.txt";
    root.create_file(&mut fs, name).unwrap();
    let f = root.open(name).unwrap();
    f.write(&mut fs, 0, b"bonjour").unwrap();
    // a fresh load decodes the long-entry name back
    let root2 = fs.root_dir().unwrap();
    assert!(root2.list().contains(&name.to_string()));
    let g = root2.open(name).unwrap();
    assert_eq!(g.read(&fs, 0, 16).unwrap(), b"bonjour".to_vec());
}

#[test]
fn test_dir_dot_entries() {
    let mut fs = mount();
    let mut root = fs.root_dir().unwrap();
    root.create_dir(&mut fs, "d").unwrap();
    let mut d = root.cd(&fs, "d").unwrap();
    let names = d.list();
    assert!(names.contains(&".".to_string()));
    assert!(names.contains(&"..".to_string()));
    d.create_dir(&mut fs, "inner").unwrap();
    let d2 = root.cd(&fs, "d").unwrap();
    let names = d2.list();
    assert!(names.contains(&".".to_string()));
    assert!(names.contains(&"..".to_string()));
    assert!(names.contains(&"inner".to_string()));
    root.delete_dir(&mut fs, "d").unwrap();
    assert!(root.cd(&fs, "d").is_err());
}

#[test]
fn test_delete_file_and_dir_errors() {
    let mut fs = mount();
    let mut root = fs.root_dir().unwrap();
    root.create_file(&mut fs, "test_delete_file").unwrap();
    assert!(root.delete_file(&mut fs, "test_delete_file").is_ok());
    assert_eq!(
        root.delete_file(&mut fs, "test_delete_file"),
        Err(OperationError::FileNotFound)
    );
    assert_eq!(
        root.delete_dir(&mut fs, "test_delete_file"),
        Err(OperationError::DirNotFound)
    );
    assert!(root.open("test_delete_file").is_err());
    match root.cd(&fs, "missing") {
        Err(e) => assert_eq!(e, OperationError::DirNotFound),
        Ok(_) => panic!("cd of a missing directory succeeded"),
    }
}

#[test]
fn test_hundred_files_create_delete_create() {
    let mut fs = mount();
    let mut root = fs.root_dir().unwrap();
    for i in 0..100 {
        root.create_file(&mut fs, &format!("f{}", i)).unwrap();
    }
    let names = root.list();
    assert_eq!(names.len(), 100);
    for i in 0..100 {
        root.delete_file(&mut fs, &format!("f{}", i)).unwrap();
    }
    assert_eq!(root.list().len(), 0);
    root.create_file(&mut fs, "f0").unwrap();
    let f = root.open("f0").unwrap();
    assert_eq!(f.size(&fs), 0);
    assert_eq!(f.read(&fs, 0, 16).unwrap().len(), 0);
}

#[test]
fn test_short_name_collision() {
    let mut fs = mount();
    let mut root = fs.root_dir().unwrap();
    root.create_file(&mut fs, "hello1234.txt").unwrap();
    assert_eq!(
        root.create_file(&mut fs, "hello1234.txt"),
        Err(OperationError::FileExist)
    );
    // the generated 8.3 name carries the `~N` suffix
    let d = mfat32::dir::Dir::empty(0, 0, 0);
    assert_eq!(
        d.name_to_short_name("hello1234.txt", mfat32::dir::DirEntryType::File),
        "hello1~1.txt"
    );
}

#[test]
fn test_write_large_and_read_back() {
    let mut fs = mount();
    let mut root = fs.root_dir().unwrap();
    root.create_file(&mut fs, "test_write_large_file").unwrap();
    let f = root.open("test_write_large_file").unwrap();
    let data = vec![0x12u8; 512 * 10];
    assert_eq!(f.write(&mut fs, 0, &data).unwrap(), 512 * 10);
    let content = f.read(&fs, 512, 10).unwrap();
    assert_eq!(content.len(), 10);
    assert_eq!(content, vec![0x12u8; 10]);
    let content = f.read(&fs, 512 * 10 - 10, 10).unwrap();
    assert_eq!(content.len(), 10);
    assert_eq!(content, vec![0x12u8; 10]);
    assert_eq!(f.size(&fs), 5120);
}

#[test]
fn test_write_boundaries() {
    // two sectors per cluster, so sector and cluster boundaries differ
    let mut fs = Fat32::new(make_image(4096, 2, 32)).unwrap();
    let mut root = fs.root_dir().unwrap();
    root.create_file(&mut fs, "edges.bin").unwrap();
    let f = root.open("edges.bin").unwrap();
    // exactly one sector
    assert_eq!(f.write(&mut fs, 0, &vec![7u8; 512]).unwrap(), 512);
    assert_eq!(f.read(&fs, 0, 512).unwrap(), vec![7u8; 512]);
    // exactly one cluster
    assert_eq!(f.write(&mut fs, 0, &vec![8u8; 1024]).unwrap(), 1024);
    assert_eq!(f.read(&fs, 0, 1024).unwrap(), vec![8u8; 1024]);
    // spanning the cluster boundary
    assert_eq!(f.write(&mut fs, 1000, &vec![9u8; 100]).unwrap(), 100);
    assert_eq!(f.read(&fs, 1000, 100).unwrap(), vec![9u8; 100]);
    assert_eq!(f.read(&fs, 990, 10).unwrap(), vec![8u8; 10]);
    assert_eq!(f.size(&fs), 1100);
}

#[test]
fn test_write_at_offset_preserves_prefix() {
    let mut fs = mount();
    let mut root = fs.root_dir().unwrap();
    root.create_file(&mut fs, "mix.bin").unwrap();
    let f = root.open("mix.bin").unwrap();
    f.write(&mut fs, 0, &vec![1u8; 600]).unwrap();
    f.write(&mut fs, 600, &vec![2u8; 600]).unwrap();
    assert_eq!(f.read(&fs, 0, 600).unwrap(), vec![1u8; 600]);
    assert_eq!(f.read(&fs, 600, 600).unwrap(), vec![2u8; 600]);
    assert_eq!(f.size(&fs), 1200);
}

#[test]
fn test_clear_file() {
    let mut fs = mount();
    let mut root = fs.root_dir().unwrap();
    root.create_file(&mut fs, "long_file_name.txt").unwrap();
    let f = root.open("long_file_name.txt").unwrap();
    f.write(&mut fs, 0, &vec![0x12u8; 5120]).unwrap();
    f.clear(&mut fs);
    assert_eq!(f.read(&fs, 0, 512).unwrap().len(), 0);
    assert_eq!(f.size(&fs), 0);
}

#[test]
fn test_rename_preserves_content() {
    let mut fs = mount();
    let mut root = fs.root_dir().unwrap();
    root.create_file(&mut fs, "test.txt").unwrap();
    let f = root.open("test.txt").unwrap();
    f.write(&mut fs, 0, b"payload-123").unwrap();
    let before = f.read(&fs, 0, 64).unwrap();
    root.rename_file(&mut fs, "test.txt", "newtest.txt").unwrap();
    assert!(root.open("test.txt").is_err());
    let g = root.open("newtest.txt").unwrap();
    assert_eq!(g.size(&fs), 11);
    assert_eq!(g.read(&fs, 0, 64).unwrap(), before);
    root.create_dir(&mut fs, "test_dir").unwrap();
    root.rename_dir(&mut fs, "test_dir", "new_test_dir").unwrap();
    let names = root.list();
    assert!(names.contains(&"newtest.txt".to_string()));
    assert!(names.contains(&"new_test_dir".to_string()));
    assert_eq!(names.len(), 2);
}

#[test]
fn test_entry_spanning_sector_boundary() {
    let mut fs = mount();
    let mut root = fs.root_dir().unwrap();
    // fill the leading slots: seven files of two slots each
    for i in 0..7 {
        root.create_file(&mut fs, &format!("pad{}", i)).unwrap();
    }
    // this group (two long entries and the short entry) spans a sector
    root.create_file(&mut fs, "a_name_that_needs_two_long_entries").unwrap();
    assert!(root.open("a_name_that_needs_two_long_entries").is_ok());
    root.delete_file(&mut fs, "a_name_that_needs_two_long_entries").unwrap();
    assert!(root.open("a_name_that_needs_two_long_entries").is_err());
    // a fresh load no longer sees it
    let root2 = fs.root_dir().unwrap();
    assert_eq!(root2.list().len(), 7);
}

#[test]
fn test_list_after_reload_matches() {
    let mut fs = mount();
    let mut root = fs.root_dir().unwrap();
    root.create_file(&mut fs, "seen.txt").unwrap();
    root.create_dir(&mut fs, "subdir").unwrap();
    let reloaded = fs.root_dir().unwrap();
    let mut a = root.list();
    let mut b = reloaded.list();
    a.sort();
    b.sort();
    assert_eq!(a, b);
}

#[test]
fn test_create_delete_restores_listing() {
    let mut fs = mount();
    let mut root = fs.root_dir().unwrap();
    root.create_file(&mut fs, "stable.txt").unwrap();
    let mut before = root.list();
    before.sort();
    root.create_file(&mut fs, "transient.txt").unwrap();
    root.delete_file(&mut fs, "transient.txt").unwrap();
    let mut after = root.list();
    after.sort();
    assert_eq!(before, after);
}

#[test]
fn test_no_enough_space() {
    // three data clusters: the root takes one, files take the rest
    let mut fs = Fat32::new(make_image(37, 1, 1)).unwrap();
    let mut root = fs.root_dir().unwrap();
    root.create_file(&mut fs, "a").unwrap();
    root.create_file(&mut fs, "b").unwrap();
    assert_eq!(root.create_file(&mut fs, "c"), Err(OperationError::NoEnoughSpace));
}

#[test]
fn test_parent_entry_decodes_child() {
    let mut fs = mount();
    let mut root = fs.root_dir().unwrap();
    root.create_file(&mut fs, "probe.txt").unwrap();
    let f = root.open("probe.txt").unwrap();
    let raw = fs.disk.read_bytes(f.sector, f.offset, 32);
    let entry = ShortEntry::from_buffer(&raw);
    assert_eq!(entry.start_cluster(), f.start_cluster);
    assert_eq!(entry.file_size, 0);
}

#[test]
fn test_sync_writes_fsinfo() {
    let mut fs = mount();
    let mut root = fs.root_dir().unwrap();
    root.create_file(&mut fs, "one.txt").unwrap();
    fs.sync();
    let info = fs.disk.read_bytes(1, 0, 512);
    assert_eq!(&info[0..4], &[0x52, 0x52, 0x61, 0x41]);
    assert_eq!(&info[508..512], &[0x00, 0x00, 0x55, 0xAA]);
}

#[test]
fn test_subdir_file_survives_reload() {
    let mut fs = mount();
    let mut root = fs.root_dir().unwrap();
    root.create_dir(&mut fs, "docs").unwrap();
    let mut docs = root.cd(&fs, "docs").unwrap();
    docs.create_file(&mut fs, "a_longer_note_name.txt").unwrap();
    let f = docs.open("a_longer_note_name.txt").unwrap();
    f.write(&mut fs, 0, b"remember this").unwrap();
    // a fresh walk from the root must find the same bytes
    let root2 = fs.root_dir().unwrap();
    let docs2 = root2.cd(&fs, "docs").unwrap();
    let g = docs2.open("a_longer_note_name.txt").unwrap();
    assert_eq!(g.start_cluster, f.start_cluster);
    assert_eq!(g.read(&fs, 0, 64).unwrap(), b"remember this".to_vec());
    assert_eq!(g.size(&fs), 13);
}

#[test]
fn test_content_buffer() {
    let mut c = mfat32::layout::Content::new();
    assert_eq!(c.read().len(), 512);
    assert!(c.read().iter().all(|&b| b == 0));
    c.write(3, 0xAB);
    assert_eq!(c.read()[3], 0xAB);
    assert_eq!(c.read()[4], 0x00);
}

#[test]
fn test_fsinfo_decode() {
    let mut sector = vec![0u8; 512];
    put32(&mut sector, 0, 0x41615252);
    put32(&mut sector, 484, 0x61417272);
    put32(&mut sector, 488, 1234);
    put32(&mut sector, 492, 56);
    put32(&mut sector, 508, 0xAA550000);
    let info = mfat32::layout::FsInfo::new(&sector);
    assert!(info.is_valid());
    assert_eq!(info.free_cluster_count, 1234);
    assert_eq!(info.next_free_cluster, 56);
    put32(&mut sector, 508, 0);
    assert!(!mfat32::layout::FsInfo::new(&sector).is_valid());
}
