use hpk::blocks::{check_inflated, is_zlib_magic, parse_header, unpack};
use hpk::container::{ArchiveFile, FileTableEntry};
use hpk::filedata::FileData;
use hpk::le::{u16_at, u32_at};
use hpk::plain::{copy_bytes, seek_target, FileDataPlain};
use hpk::tree::on_path;
use hpk::zlib::{largest_key, smallest_key, FileDataZlib};
use hpk::{Error, SeekFrom};
use libflate::zlib::Encoder;
use std::collections::HashMap;
use std::io::Write;

fn deflate(bytes: &[u8]) -> Vec<u8> {
    let mut encoder = Encoder::new(Vec::new()).unwrap();
    encoder.write_all(bytes).unwrap();
    encoder.finish().into_result().unwrap()
}

fn blocked_header(size: u32, blocksize: u32) -> Vec<u8> {
    let mut header = b"ZLIB".to_vec();
    header.extend_from_slice(&size.to_le_bytes());
    header.extend_from_slice(&blocksize.to_le_bytes());
    header
}

#[test]
fn numbers_are_little_endian() {
    let data = [0x01u8, 0x02, 0x03, 0x04, 0x05, 0xff];
    assert_eq!(u16_at(&data, 0), 0x0201);
    assert_eq!(u16_at(&data, 4), 0xff05);
    assert_eq!(u32_at(&data, 0), 0x0403_0201);
    assert_eq!(u32_at(&data, 2), 0xff05_0403);
    assert_eq!(u32_at(&[0xff, 0xff, 0xff, 0xff], 0), u32::MAX);
    assert_eq!(u16_at(&[0, 0], 0), 0);
}

#[test]
fn magic_of_a_blocked_payload() {
    assert!(is_zlib_magic(b"ZLIB"));
    assert!(is_zlib_magic(b"ZLIB and more"));
    assert!(!is_zlib_magic(b"ZLI"));
    assert!(!is_zlib_magic(b""));
    assert!(!is_zlib_magic(b"zlib"));
    assert!(!is_zlib_magic(b"BILZ"));
    assert!(!is_zlib_magic(b"ZLIA"));
}

#[test]
fn header_of_a_blocked_payload() {
    assert_eq!(parse_header(&blocked_header(0x20, 0x10)), Ok((0x20, 0x10)));
    assert_eq!(parse_header(&blocked_header(0, 1)), Ok((0, 1)));
    assert_eq!(
        parse_header(&blocked_header(u32::MAX, 0x100_0000)),
        Ok((u32::MAX as u64, 0x100_0000))
    );
    assert_eq!(parse_header(&blocked_header(5, 0)), Err(Error::ZlibHeaderInvalid));
    assert_eq!(parse_header(&blocked_header(5, 0x100_0001)), Err(Error::ZlibHeaderInvalid));
    let mut header = blocked_header(0x20, 0x10);
    header[3] = b'b';
    assert_eq!(parse_header(&header), Err(Error::ZlibHeaderInvalid));
    let mut longer = blocked_header(0x0102_0304, 0x0a0b);
    longer.extend_from_slice(&[9, 9, 9]);
    assert_eq!(parse_header(&longer), Ok((0x0102_0304, 0x0a0b)));
}

#[test]
fn inflated_block_must_have_its_length() {
    assert_eq!(check_inflated(Ok(vec![1, 2, 3]), 3), Ok(vec![1, 2, 3]));
    assert_eq!(check_inflated(Ok(vec![1, 2, 3]), 2), Err(Error::InflateFailure));
    assert_eq!(check_inflated(Ok(vec![1, 2, 3]), 4), Err(Error::InflateFailure));
    assert_eq!(check_inflated(Ok(Vec::new()), 0), Ok(Vec::new()));
    let failed = || std::io::Error::new(std::io::ErrorKind::InvalidData, "bad frame");
    assert_eq!(check_inflated(Err(failed()), 0), Err(Error::InflateFailure));
    assert_eq!(check_inflated(Err(failed()), 3), Err(Error::InflateFailure));
}

#[test]
fn block_is_stored_raw_or_deflated() {
    assert_eq!(unpack(vec![5, 6, 7], 3), Ok(vec![5, 6, 7]));
    let block = vec![b'q'; 100];
    let packed = deflate(&block);
    assert!(packed.len() != 100);
    assert_eq!(unpack(packed.clone(), 100), Ok(block));
    assert_eq!(unpack(packed.clone(), 99), Err(Error::InflateFailure));
    assert_eq!(unpack(packed, 101), Err(Error::InflateFailure));
    assert_eq!(unpack(vec![5, 6, 7], 4), Err(Error::InflateFailure));
    assert_eq!(unpack(Vec::new(), 4), Err(Error::InflateFailure));
}

#[test]
fn frame_that_has_the_length_of_its_block_is_taken_as_raw() {
    let packed = deflate(b"ab");
    let len = packed.len() as u64;
    assert_eq!(unpack(packed.clone(), len), Ok(packed));
}

#[test]
fn bytes_after_a_frame_are_ignored() {
    let block = vec![b'q'; 100];
    let mut packed = deflate(&block);
    packed.extend_from_slice(&[1, 2, 3]);
    assert_eq!(unpack(packed, 100), Ok(block));
}

#[test]
fn target_of_a_seek() {
    assert_eq!(seek_target(10, 3, SeekFrom::Start(0)), Ok(0));
    assert_eq!(seek_target(10, 3, SeekFrom::Start(10)), Ok(10));
    assert_eq!(seek_target(10, 3, SeekFrom::Start(11)), Err(Error::SeekOutOfRange));
    assert_eq!(seek_target(10, 3, SeekFrom::End(0)), Ok(10));
    assert_eq!(seek_target(10, 3, SeekFrom::End(-10)), Ok(0));
    assert_eq!(seek_target(10, 3, SeekFrom::End(-11)), Err(Error::SeekOutOfRange));
    assert_eq!(seek_target(10, 3, SeekFrom::End(1)), Err(Error::SeekOutOfRange));
    assert_eq!(seek_target(10, 3, SeekFrom::Current(7)), Ok(10));
    assert_eq!(seek_target(10, 3, SeekFrom::Current(8)), Err(Error::SeekOutOfRange));
    assert_eq!(seek_target(10, 3, SeekFrom::Current(-3)), Ok(0));
    assert_eq!(seek_target(10, 3, SeekFrom::Current(-4)), Err(Error::SeekOutOfRange));
    assert_eq!(seek_target(0, 0, SeekFrom::Start(0)), Ok(0));
    let far = u64::MAX - (1 << 63);
    assert_eq!(seek_target(u64::MAX, u64::MAX, SeekFrom::Current(i64::MIN)), Ok(far));
    assert_eq!(seek_target(u64::MAX, u64::MAX, SeekFrom::Current(1)), Err(Error::SeekOutOfRange));
    assert_eq!(seek_target(u64::MAX, 0, SeekFrom::End(i64::MIN)), Ok(far));
}

#[test]
fn bytes_are_copied_in_place() {
    let mut dst = *b"0123456789";
    copy_bytes(&mut dst, 2, b"abcdef", 1, 4);
    assert_eq!(&dst, b"01bcde6789");
    copy_bytes(&mut dst, 0, b"xyz", 3, 0);
    assert_eq!(&dst, b"01bcde6789");
    copy_bytes(&mut dst, 7, b"xyz", 0, 3);
    assert_eq!(&dst, b"01bcde6xyz");
}

#[test]
fn index_on_a_path() {
    assert!(on_path(&vec![1, 5, 9], 5));
    assert!(on_path(&vec![1, 5, 9], 9));
    assert!(!on_path(&vec![1, 5, 9], 2));
    assert!(!on_path(&Vec::new(), 1));
}

#[test]
fn smallest_and_largest_key() {
    let mut cache: HashMap<u32, Vec<u8>> = HashMap::new();
    assert_eq!(smallest_key(&cache), None);
    assert_eq!(largest_key(&cache), None);
    cache.insert(7, vec![1]);
    assert_eq!(smallest_key(&cache), Some(7));
    assert_eq!(largest_key(&cache), Some(7));
    cache.insert(3, vec![2]);
    cache.insert(u32::MAX, vec![3]);
    cache.insert(0, vec![4]);
    assert_eq!(smallest_key(&cache), Some(0));
    assert_eq!(largest_key(&cache), Some(u32::MAX));
}

#[test]
fn stream_over_stored_bytes() {
    let data = b"....hello, world....";
    let mut plain = FileDataPlain::from(data, &FileTableEntry { offset: 4, size: 12 });
    assert_eq!(plain.size(), 12);
    let mut buf = [0u8; 5];
    assert_eq!(plain.read(&mut buf), 5);
    assert_eq!(&buf, b"hello");
    assert_eq!(plain.read_exact(&mut buf), Ok(()));
    assert_eq!(&buf, b", wor");
    let mut buf = [b'-'; 5];
    assert_eq!(plain.read_exact(&mut buf), Err(Error::Io));
    assert_eq!(&buf, b"ld---");
    assert_eq!(plain.read(&mut buf), 0);
    assert_eq!(plain.seek(SeekFrom::Start(7)), Ok(7));
    assert_eq!(plain.seek(SeekFrom::Start(13)), Err(Error::SeekOutOfRange));
    assert_eq!(plain.read(&mut buf), 5);
    assert_eq!(&buf, b"world");
    let mut none = [0u8; 0];
    assert_eq!(plain.read_exact(&mut none), Ok(()));
}

#[test]
fn stream_over_stored_bytes_past_the_archive() {
    let data = b"abc";
    let mut plain = FileDataPlain::from(data, &FileTableEntry { offset: 10, size: 5 });
    let mut buf = [0u8; 5];
    assert_eq!(plain.read(&mut buf), 0);
    assert_eq!(plain.read_exact(&mut buf), Err(Error::Io));
    let mut plain = FileDataPlain::from(data, &FileTableEntry { offset: u32::MAX, size: u32::MAX });
    assert_eq!(plain.seek(SeekFrom::End(0)), Ok(u32::MAX as u64));
    assert_eq!(plain.read(&mut buf), 0);
}

#[test]
fn block_table_of_a_blocked_payload() {
    let mut payload = blocked_header(40, 16);
    for start in [24u32, 40, 50] {
        payload.extend_from_slice(&start.to_le_bytes());
    }
    payload.extend_from_slice(&[1u8; 16]);
    payload.extend_from_slice(&deflate(&[2u8; 16])[..10]);
    payload.extend_from_slice(&[3u8; 8]);
    let entry = FileTableEntry { offset: 0, size: payload.len() as u32 };
    let mut zlib = match FileDataZlib::from(&payload, &entry) {
        Ok(zlib) => zlib,
        Err(e) => panic!("{:?}", e),
    };
    assert_eq!(zlib.size(), 40);
    assert_eq!(zlib.num_blocks(), 3);
    assert_eq!(zlib.read_block_offset_and_size(0), Ok((24, 16, 16)));
    assert_eq!(zlib.read_block_offset_and_size(1), Ok((40, 10, 16)));
    assert_eq!(zlib.read_block_offset_and_size(2), Ok((50, 8, 8)));
    assert_eq!(zlib.read_block(0), Ok(vec![1u8; 16]));
    assert_eq!(zlib.read_block(1), Err(Error::InflateFailure));
    assert_eq!(zlib.read_block(2), Ok(vec![3u8; 8]));
}

#[test]
fn number_of_blocks() {
    for (size, blocksize, count) in
        [(0u32, 16u32, 0u32), (1, 16, 1), (16, 16, 1), (17, 16, 2), (32, 16, 2), (5, 1, 5)]
    {
        let payload = blocked_header(size, blocksize);
        let entry = FileTableEntry { offset: 0, size: 12 };
        let zlib = match FileDataZlib::from(&payload, &entry) {
            Ok(zlib) => zlib,
            Err(e) => panic!("{:?}", e),
        };
        assert_eq!(zlib.num_blocks(), count);
    }
    let payload = blocked_header(u32::MAX, 1);
    let zlib = match FileDataZlib::from(&payload, &FileTableEntry { offset: 0, size: 12 }) {
        Ok(zlib) => zlib,
        Err(e) => panic!("{:?}", e),
    };
    assert_eq!(zlib.num_blocks(), u32::MAX);
}

#[test]
fn kept_blocks_give_way_to_new_ones() {
    let mut payload = blocked_header(64, 16);
    for k in 0..4u32 {
        payload.extend_from_slice(&(28 + 16 * k).to_le_bytes());
    }
    for k in 0..4u8 {
        payload.extend_from_slice(&[k; 16]);
    }
    let entry = FileTableEntry { offset: 0, size: payload.len() as u32 };
    let mut zlib = match FileDataZlib::from(&payload, &entry) {
        Ok(zlib) => zlib,
        Err(e) => panic!("{:?}", e),
    };
    assert_eq!(zlib.cached_len(), 0);
    for (i, k) in [0u32, 1, 2, 3, 0, 3, 1, 1, 2, 0].into_iter().enumerate() {
        let block = zlib.get_block(k).map(|block| block.clone());
        assert_eq!(block, Ok(vec![k as u8; 16]));
        assert_eq!(zlib.cached_len(), if i == 0 { 1 } else { 2 });
    }
    let mut buf = [0u8; 64];
    assert_eq!(zlib.read(&mut buf), Ok(64));
    assert_eq!(zlib.cached_len(), 2);
    assert_eq!(zlib.seek(SeekFrom::Start(20)), Ok(20));
    assert_eq!(zlib.cached_len(), 2);
    assert_eq!(zlib.read(&mut buf[..4]), Ok(4));
    assert_eq!(&buf[..4], &[1u8; 4]);
    assert_eq!(zlib.cached_len(), 2);
}

#[test]
fn block_that_cannot_be_had_is_not_kept() {
    let mut payload = blocked_header(32, 16);
    payload.extend_from_slice(&20u32.to_le_bytes());
    payload.extend_from_slice(&36u32.to_le_bytes());
    payload.extend_from_slice(&[1u8; 16]);
    payload.extend_from_slice(&[0xaau8; 7]);
    let entry = FileTableEntry { offset: 0, size: payload.len() as u32 };
    let mut zlib = match FileDataZlib::from(&payload, &entry) {
        Ok(zlib) => zlib,
        Err(e) => panic!("{:?}", e),
    };
    assert_eq!(zlib.get_block(1).map(|block| block.clone()), Err(Error::InflateFailure));
    assert_eq!(zlib.cached_len(), 0);
    assert_eq!(zlib.get_block(0).map(|block| block.clone()), Ok(vec![1u8; 16]));
    assert_eq!(zlib.cached_len(), 1);
    assert_eq!(zlib.get_block(1).map(|block| block.clone()), Err(Error::InflateFailure));
    assert_eq!(zlib.cached_len(), 1);
}

#[test]
fn smallest_block_is_given_up_unless_it_is_asked_for() {
    let mut payload = blocked_header(64, 16);
    for k in 0..4u32 {
        payload.extend_from_slice(&(28 + 16 * k).to_le_bytes());
    }
    for k in 0..4u8 {
        payload.extend_from_slice(&[k; 16]);
    }
    let entry = FileTableEntry { offset: 0, size: payload.len() as u32 };
    let mut zlib = match FileDataZlib::from(&payload, &entry) {
        Ok(zlib) => zlib,
        Err(e) => panic!("{:?}", e),
    };
    assert!(zlib.get_block(1).is_ok());
    assert!(zlib.get_block(3).is_ok());
    zlib.evict_another_entry(1);
    assert_eq!(zlib.cached_len(), 1);
    assert!(zlib.get_block(2).is_ok());
    assert_eq!(zlib.cached_len(), 2);
    zlib.evict_another_entry(0);
    assert_eq!(zlib.cached_len(), 1);
    zlib.evict_another_entry(0);
    assert_eq!(zlib.cached_len(), 0);
}

#[test]
fn view_straight_from_bytes() {
    let data = b"....ZLI?....";
    let mut view = match FileData::new(data, &FileTableEntry { offset: 4, size: 4 }) {
        Ok(view) => view,
        Err(e) => panic!("{:?}", e),
    };
    let mut buf = [0u8; 8];
    assert_eq!(view.read(&mut buf), Ok(4));
    assert_eq!(&buf[..4], b"ZLI?");
    assert!(matches!(
        FileData::new(data, &FileTableEntry { offset: 9, size: 0 }),
        Err(Error::Io)
    ));
    assert!(FileData::new(data, &FileTableEntry { offset: 8, size: 0 }).is_ok());
}

#[test]
fn archive_file_keeps_the_table_offset() {
    let mut data = vec![0u8; 0x40];
    data[0..4].copy_from_slice(&0x4c55_5042u32.to_le_bytes());
    data[4..8].copy_from_slice(&0x22u32.to_le_bytes());
    data[0x1c..0x20].copy_from_slice(&0x30u32.to_le_bytes());
    data[0x30..0x34].copy_from_slice(&0x11u32.to_le_bytes());
    data[0x34..0x38].copy_from_slice(&0x22u32.to_le_bytes());
    let file = ArchiveFile::open(data).unwrap();
    assert_eq!(file.filetbl_offset, 0x30);
    assert_eq!(file.read_file_entry(1), Ok(FileTableEntry { offset: 0x11, size: 0x22 }));
    assert_eq!(file.read_file_entry(2), Ok(FileTableEntry { offset: 0, size: 0 }));
    assert_eq!(file.read_file_entry(3), Err(Error::Io));
}
