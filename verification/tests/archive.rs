use hpk::container::{ArchiveFile, EntryType, FileTableEntry};
use hpk::{Archive, Directory, Error};

const MAGIC: u32 = 0x4c55_5042;

fn put_u32(data: &mut Vec<u8>, at: usize, value: u32) {
    if data.len() < at + 4 {
        data.resize(at + 4, 0);
    }
    data[at..at + 4].copy_from_slice(&value.to_le_bytes());
}

fn put_bytes(data: &mut Vec<u8>, at: usize, bytes: &[u8]) {
    if data.len() < at + bytes.len() {
        data.resize(at + bytes.len(), 0);
    }
    data[at..at + bytes.len()].copy_from_slice(bytes);
}

fn header(magic: u32, header_size: u32, filetbl_offset: u32) -> Vec<u8> {
    let mut data = vec![0u8; 0x20];
    put_u32(&mut data, 0, magic);
    put_u32(&mut data, 4, header_size);
    put_u32(&mut data, 0x1c, filetbl_offset);
    data
}

fn with_rows(rows: &[(u32, u32)]) -> Vec<u8> {
    let mut data = header(MAGIC, 0x20, 0x20);
    for (i, (offset, size)) in rows.iter().enumerate() {
        put_u32(&mut data, 0x20 + 8 * i, *offset);
        put_u32(&mut data, 0x24 + 8 * i, *size);
    }
    data
}

fn name_entry(file_index: u32, kind: u32, name: &[u8]) -> Vec<u8> {
    let mut entry = Vec::new();
    entry.extend_from_slice(&file_index.to_le_bytes());
    entry.extend_from_slice(&kind.to_le_bytes());
    entry.extend_from_slice(&(name.len() as u16).to_le_bytes());
    entry.extend_from_slice(name);
    entry
}

/// A chain of `depth` directories, each holding the next, the last empty.
fn chain(depth: u32) -> Vec<u8> {
    let table_end = 0x20 + 8 * depth;
    let mut rows = Vec::new();
    for i in 0..depth {
        let size = if i + 1 < depth { 11 } else { 0 };
        rows.push((table_end + 11 * i, size));
    }
    let mut data = with_rows(&rows);
    for i in 0..depth {
        if i + 1 < depth {
            put_bytes(&mut data, (table_end + 11 * i) as usize, &name_entry(i + 2, 1, b"d"));
        }
    }
    data
}

fn depth_of(dir: &Directory) -> usize {
    1 + dir.directories().iter().map(depth_of).max().unwrap_or(0)
}

fn error_of(data: Vec<u8>) -> Error {
    match Archive::open(data) {
        Ok(_) => panic!("the archive was accepted"),
        Err(e) => e,
    }
}

#[test]
fn zero_magic_is_refused() {
    assert_eq!(error_of(header(0, 0x20, 0x20)), Error::HeaderInvalid);
}

#[test]
fn unsupported_header_size_is_refused() {
    assert_eq!(error_of(header(MAGIC, 0x30, 0x30)), Error::HeaderInvalid);
    assert_eq!(error_of(header(MAGIC, 0x25, 0x30)), Error::HeaderInvalid);
}

#[test]
fn short_header_size_is_refused() {
    assert_eq!(error_of(header(MAGIC, 0x1f, 0x20)), Error::HeaderInvalid);
}

#[test]
fn file_table_inside_header_is_refused() {
    assert_eq!(error_of(header(MAGIC, 0x24, 0x23)), Error::HeaderInvalid);
    assert_eq!(error_of(header(MAGIC, 0x20, 0x1f)), Error::HeaderInvalid);
}

#[test]
fn truncated_header_is_an_io_error() {
    let mut data = header(MAGIC, 0x20, 0x20);
    data.truncate(0x1f);
    assert_eq!(error_of(data), Error::Io);
    assert_eq!(error_of(Vec::new()), Error::Io);
}

#[test]
fn header_fields_are_little_endian() {
    let mut data = header(MAGIC, 0x24, 0x0102_0304);
    assert_eq!(&data[0..4], &[0x42, 0x50, 0x55, 0x4c]);
    assert_eq!(ArchiveFile::read_header(&data), Ok(0x0102_0304));
    data[0x1c..0x20].copy_from_slice(&[0x24, 0, 0, 0]);
    assert_eq!(ArchiveFile::read_header(&data), Ok(0x24));
    data[0x1c..0x20].copy_from_slice(&[0, 0, 0, 0x24]);
    assert_eq!(ArchiveFile::read_header(&data), Ok(0x2400_0000));
}

#[test]
fn every_accepted_header_size_opens() {
    for header_size in 0x20u32..=0x24 {
        let mut data = header(MAGIC, header_size, 0x28);
        put_u32(&mut data, 0x28, 0x30);
        put_u32(&mut data, 0x2c, 0);
        assert!(Archive::open(data).is_ok());
    }
}

#[test]
fn missing_root_row_is_an_io_error() {
    assert_eq!(error_of(header(MAGIC, 0x20, 0x20)), Error::Io);
    let mut data = header(MAGIC, 0x20, 0x20);
    data.extend_from_slice(&[0u8; 7]);
    assert_eq!(error_of(data), Error::Io);
}

#[test]
fn minimal_archive_has_an_empty_root() {
    let archive = Archive::open(with_rows(&[(0x28, 0)])).unwrap();
    let root = archive.root_directory();
    assert_eq!(root.files().len(), 0);
    assert_eq!(root.directories().len(), 0);
    assert!(root.name().is_none());
}

#[test]
fn file_entries_are_read_by_one_based_index() {
    let file = ArchiveFile::open(with_rows(&[(0x30, 0), (0x1234_5678, 0x9abc_def0)])).unwrap();
    assert_eq!(file.read_file_entry(1), Ok(FileTableEntry { offset: 0x30, size: 0 }));
    assert_eq!(
        file.read_file_entry(2),
        Ok(FileTableEntry { offset: 0x1234_5678, size: 0x9abc_def0 })
    );
    assert_eq!(file.read_file_entry(0), Err(Error::IndexZero));
    assert_eq!(file.read_file_entry(3), Err(Error::Io));
    assert_eq!(file.read_file_entry(u32::MAX), Err(Error::Io));
}

#[test]
fn name_entry_is_decoded() {
    let mut data = with_rows(&[(0x28, 0)]);
    put_bytes(&mut data, 0x40, &name_entry(0x0102_0304, 1, b"abc"));
    let file = ArchiveFile::open(data).unwrap();
    let entry = file.read_name_entry(0x40).unwrap();
    assert_eq!(entry.file_index, 0x0102_0304);
    assert_eq!(entry.entry_type, EntryType::Directory);
    assert_eq!(entry.entry_size, 13);
    assert_eq!(entry.name, "abc");
}

#[test]
fn name_length_is_little_endian() {
    let mut data = with_rows(&[(0x28, 0)]);
    let name = vec![b'x'; 0x0102];
    put_bytes(&mut data, 0x40, &name_entry(7, 0, &name));
    assert_eq!(&data[0x48..0x4a], &[0x02, 0x01]);
    let file = ArchiveFile::open(data).unwrap();
    let entry = file.read_name_entry(0x40).unwrap();
    assert_eq!(entry.entry_type, EntryType::File);
    assert_eq!(entry.entry_size, 10 + 0x0102);
    assert_eq!(entry.name.len(), 0x0102);
}

#[test]
fn empty_name_is_the_empty_string() {
    let mut data = with_rows(&[(0x30, 10), (0x40, 0)]);
    put_bytes(&mut data, 0x30, &name_entry(2, 0, b""));
    put_bytes(&mut data, 0x40, &[0u8; 4]);
    let archive = Archive::open(data).unwrap();
    let root = archive.root_directory();
    assert_eq!(root.files().len(), 1);
    assert_eq!(root.files()[0].name(), "");
    assert_eq!(root.files()[0].size(), 0);
}

#[test]
fn invalid_utf8_in_a_name_is_replaced() {
    let mut data = with_rows(&[(0x30, 13), (0x40, 0)]);
    put_bytes(&mut data, 0x30, &name_entry(2, 0, &[b'f', 0xff, b'o']));
    let archive = Archive::open(data).unwrap();
    assert_eq!(archive.root_directory().files()[0].name(), "f\u{fffd}o");
}

#[test]
fn multibyte_utf8_in_a_name_is_kept() {
    let mut data = with_rows(&[(0x30, 12), (0x40, 0)]);
    put_bytes(&mut data, 0x30, &name_entry(2, 0, "é".as_bytes()));
    let archive = Archive::open(data).unwrap();
    assert_eq!(archive.root_directory().files()[0].name(), "é");
}

#[test]
fn name_entry_with_index_zero_is_refused() {
    let mut data = with_rows(&[(0x30, 11)]);
    put_bytes(&mut data, 0x30, &name_entry(0, 0, b"a"));
    assert_eq!(error_of(data), Error::IndexZero);
}

#[test]
fn name_entry_of_unknown_kind_is_refused() {
    let mut data = with_rows(&[(0x30, 11), (0x40, 0)]);
    put_bytes(&mut data, 0x30, &name_entry(2, 2, b"a"));
    assert_eq!(error_of(data.clone()), Error::UnknownKind);
    put_u32(&mut data, 0x34, 0x0100_0000);
    assert_eq!(error_of(data), Error::UnknownKind);
}

#[test]
fn index_zero_is_reported_before_unknown_kind() {
    let mut data = with_rows(&[(0x30, 11)]);
    put_bytes(&mut data, 0x30, &name_entry(0, 9, b"a"));
    assert_eq!(error_of(data), Error::IndexZero);
}

#[test]
fn truncated_name_entry_is_an_io_error() {
    let mut data = with_rows(&[(0x28, 20)]);
    put_bytes(&mut data, 0x28, &[2, 0, 0, 0, 0, 0, 0, 0, 4]);
    assert_eq!(data.len(), 0x31);
    assert_eq!(error_of(data), Error::Io);

    let mut data = with_rows(&[(0x28, 20)]);
    put_bytes(&mut data, 0x28, &name_entry(2, 0, b"abcdefghij"));
    data.truncate(0x28 + 19);
    assert_eq!(error_of(data), Error::Io);
}

#[test]
fn name_entry_past_the_directory_is_refused() {
    let mut data = with_rows(&[(0x30, 12), (0x50, 0)]);
    put_bytes(&mut data, 0x30, &name_entry(2, 0, b"abc"));
    assert_eq!(error_of(data), Error::NameEntrySpanOverrun);
}

#[test]
fn second_name_entry_past_the_directory_is_refused() {
    let mut data = with_rows(&[(0x30, 25), (0x60, 0)]);
    put_bytes(&mut data, 0x30, &name_entry(2, 0, b"abc"));
    put_bytes(&mut data, 0x3d, &name_entry(2, 0, b"abc"));
    assert_eq!(error_of(data.clone()), Error::NameEntrySpanOverrun);
    put_u32(&mut data, 0x24, 26);
    assert_eq!(Archive::open(data).unwrap().root_directory().files().len(), 2);
}

#[test]
fn child_without_a_row_is_an_io_error() {
    let mut data = with_rows(&[(0x30, 11)]);
    put_bytes(&mut data, 0x30, &name_entry(900, 0, b"a"));
    assert_eq!(error_of(data), Error::Io);
}

#[test]
fn one_file_is_listed() {
    let mut data = with_rows(&[(0x30, 0x14), (0x50, 5)]);
    put_bytes(&mut data, 0x30, &name_entry(2, 0, b"hello.txt\0"));
    put_bytes(&mut data, 0x50, b"hello");
    let archive = Archive::open(data).unwrap();
    let root = archive.root_directory();
    assert_eq!(root.files().len(), 1);
    assert_eq!(root.directories().len(), 0);
    assert_eq!(root.files()[0].name(), "hello.txt\0");
    assert_eq!(root.files()[0].size(), 5);
}

#[test]
fn children_keep_the_order_of_the_name_table() {
    let rows = [(0x60, 57), (0, 1), (0, 2), (0xa0, 12), (0, 4), (0xb0, 0)];
    let mut data = with_rows(&rows);
    let mut table = Vec::new();
    table.extend(name_entry(3, 0, b"zz"));
    table.extend(name_entry(4, 1, b"sub"));
    table.extend(name_entry(2, 0, b"a"));
    table.extend(name_entry(6, 1, b"b"));
    table.extend(name_entry(5, 0, b""));
    assert_eq!(table.len(), 57);
    put_bytes(&mut data, 0x60, &table);
    put_bytes(&mut data, 0xa0, &name_entry(2, 0, b"in"));
    let archive = Archive::open(data).unwrap();
    let root = archive.root_directory();
    let files: Vec<(&str, u32)> = root.files().iter().map(|f| (f.name(), f.size())).collect();
    assert_eq!(files, vec![("zz", 2), ("a", 1), ("", 4)]);
    let dirs: Vec<Option<&str>> = root.directories().iter().map(|d| d.name()).collect();
    assert_eq!(dirs, vec![Some("sub"), Some("b")]);
    let sub = &root.directories()[0];
    assert_eq!(sub.files().len(), 1);
    assert_eq!(sub.files()[0].name(), "in");
    assert_eq!(sub.files()[0].size(), 1);
    assert_eq!(sub.directories().len(), 0);
    assert_eq!(root.directories()[1].files().len(), 0);
}

#[test]
fn directory_that_holds_itself_is_refused() {
    let mut data = with_rows(&[(0x30, 14)]);
    put_bytes(&mut data, 0x30, &name_entry(1, 1, b"loop"));
    assert_eq!(error_of(data), Error::DirectoryCycle);
}

#[test]
fn directory_that_holds_an_ancestor_is_refused() {
    let mut data = with_rows(&[(0x40, 11), (0x50, 11), (0x60, 11)]);
    put_bytes(&mut data, 0x40, &name_entry(2, 1, b"a"));
    put_bytes(&mut data, 0x50, &name_entry(3, 1, b"b"));
    put_bytes(&mut data, 0x60, &name_entry(2, 1, b"c"));
    assert_eq!(error_of(data), Error::DirectoryCycle);
}

#[test]
fn directory_reached_twice_on_different_paths_is_accepted() {
    let mut data = with_rows(&[(0x40, 22), (0x60, 0)]);
    put_bytes(&mut data, 0x40, &name_entry(2, 1, b"a"));
    put_bytes(&mut data, 0x4b, &name_entry(2, 1, b"b"));
    let archive = Archive::open(data).unwrap();
    let names: Vec<Option<&str>> =
        archive.root_directory().directories().iter().map(|d| d.name()).collect();
    assert_eq!(names, vec![Some("a"), Some("b")]);
}

#[test]
fn tree_of_the_greatest_depth_is_accepted() {
    let archive = Archive::open(chain(128)).unwrap();
    assert_eq!(depth_of(archive.root_directory()), 128);
}

#[test]
fn tree_deeper_than_the_greatest_depth_is_refused() {
    assert_eq!(error_of(chain(129)), Error::DepthExceeded);
    assert_eq!(error_of(chain(200)), Error::DepthExceeded);
}

#[test]
fn name_entries_fill_each_directory() {
    let rows = [(0x60, 37), (0, 1), (0xa0, 12), (0, 7)];
    let mut data = with_rows(&rows);
    let mut table = Vec::new();
    table.extend(name_entry(2, 0, b"one"));
    table.extend(name_entry(3, 1, b"dir"));
    table.extend(name_entry(4, 0, b"x"));
    put_bytes(&mut data, 0x60, &table);
    put_bytes(&mut data, 0xa0, &name_entry(4, 0, b"in"));
    let archive = Archive::open(data).unwrap();
    let root = archive.root_directory();
    let names: usize = root.files().iter().map(|f| 10 + f.name().len()).sum::<usize>()
        + root.directories().iter().map(|d| 10 + d.name().unwrap().len()).sum::<usize>();
    assert_eq!(names, 37);
    let sub = &root.directories()[0];
    assert_eq!(sub.files().iter().map(|f| 10 + f.name().len()).sum::<usize>(), 12);
}

#[test]
fn failure_below_refuses_the_whole_archive() {
    let mut data = with_rows(&[(0x40, 22), (0x60, 0), (0x70, 11)]);
    put_bytes(&mut data, 0x40, &name_entry(2, 1, b"a"));
    put_bytes(&mut data, 0x4b, &name_entry(3, 1, b"b"));
    put_bytes(&mut data, 0x70, &name_entry(2, 7, b"c"));
    assert_eq!(error_of(data), Error::UnknownKind);
}

#[test]
fn directory_loop_reports_what_the_stack_says() {
    let mut data = with_rows(&[(0x40, 11), (0x50, 0)]);
    put_bytes(&mut data, 0x40, &name_entry(2, 1, b"a"));
    let file = ArchiveFile::open(data).unwrap();

    let mut stack = vec![7u32, 9];
    let dir = file.read_directory_loop(1, &mut stack).unwrap();
    assert_eq!(stack, vec![7, 9]);
    assert_eq!(dir.directories().len(), 1);
    assert!(dir.name().is_none());

    let mut stack = vec![2u32];
    assert!(matches!(file.read_directory_loop(1, &mut stack), Err(Error::DirectoryCycle)));

    let mut stack = vec![1u32];
    assert!(matches!(file.read_directory_loop(1, &mut stack), Err(Error::DirectoryCycle)));

    let mut stack = vec![5u32; 127];
    assert!(matches!(file.read_directory_loop(1, &mut stack), Err(Error::DepthExceeded)));

    let mut stack = vec![5u32; 127];
    assert!(file.read_directory_loop(2, &mut stack).is_ok());

    let mut stack = vec![5u32; 128];
    assert!(matches!(file.read_directory_loop(2, &mut stack), Err(Error::DepthExceeded)));
}

#[test]
fn depth_and_cycle_are_looked_at_before_the_row() {
    let file = ArchiveFile::open(with_rows(&[(0x28, 0)])).unwrap();
    let mut stack = vec![5u32; 128];
    assert!(matches!(file.read_directory_loop(0, &mut stack), Err(Error::DepthExceeded)));
    let mut stack = vec![900u32, 0];
    assert!(matches!(file.read_directory_loop(900, &mut stack), Err(Error::DirectoryCycle)));
    let mut stack = vec![900u32, 0];
    assert!(matches!(file.read_directory_loop(0, &mut stack), Err(Error::DirectoryCycle)));
    let mut stack = Vec::new();
    assert!(matches!(file.read_directory_loop(0, &mut stack), Err(Error::IndexZero)));
    let mut stack = Vec::new();
    assert!(matches!(file.read_directory_loop(900, &mut stack), Err(Error::Io)));
    assert!(matches!(file.read_directory(0), Err(Error::IndexZero)));
    assert!(file.read_directory(1).is_ok());
    assert!(file.read_rootdir().is_ok());
}
