use mfat32::dir::{Dir, DirEntryType, File};
use mfat32::entry::ATTR_ARCHIVE;

fn make_dir() -> Dir {
    Dir::empty(0, 0, 0)
}

fn units(s: &str) -> Vec<u16> {
    s.encode_utf16().collect()
}

#[test]
fn test_name_to_short_name() {
    let mut dir = make_dir();
    let name1 = "hello1234.txt";
    let short_name = dir.name_to_short_name(name1, DirEntryType::File);
    assert_eq!("hello1~1.txt", short_name);
    dir.files.insert(units("hello1234.txt"), File::new(0, (0, 0)));
    let short_name = dir.name_to_short_name(name1, DirEntryType::File);
    assert_eq!("hello1~2.txt", short_name);
    let short_name = dir.name_to_short_name(name1, DirEntryType::Dir);
    assert_eq!("hello1~1.txt", short_name);
    dir.sub_dirs.insert(
        units(name1),
        mfat32::dir::ChildDir { start_cluster: 0, sector: 0, offset: 0 },
    );
    let short_name = dir.name_to_short_name(name1, DirEntryType::Dir);
    assert_eq!("hello1~2.txt", short_name);
}

#[test]
fn test_make_entry() {
    let dir = make_dir();
    let name1 = "hello1234.txt";
    let short_name = dir.name_to_short_name(name1, DirEntryType::File);
    let (short_entry, full_long_entry) = dir
        .make_entry(name1, &short_name, 0, DirEntryType::File)
        .unwrap();
    assert_eq!(short_entry.start_cluster(), 0);
    assert_eq!(short_entry.filename(), short_name.to_uppercase());
    assert_eq!(short_entry.attr(), ATTR_ARCHIVE);
    assert_eq!(full_long_entry.filename(), name1);
    assert_eq!(full_long_entry.len(), 1);
    for long_entry in full_long_entry.iter() {
        assert_eq!(long_entry.check_sum(), short_entry.checksum());
    }
}

#[test]
fn test_short_names_keep_short_stems() {
    let dir = make_dir();
    assert_eq!(dir.name_to_short_name("notes.md", DirEntryType::File), "notes.md");
    assert_eq!(dir.name_to_short_name("t", DirEntryType::File), "t");
    assert_eq!(dir.name_to_short_name(".", DirEntryType::Dir), ".");
    assert_eq!(dir.name_to_short_name("..", DirEntryType::Dir), "..");
}
