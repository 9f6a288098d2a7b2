use tar::{
    ArchiveError, AsyncArchive, AsyncArchiveReader, AsyncEntry, AsyncEntryFields,
    AsyncEntryReader, AsyncEntryTrait, AsyncMutexReader, EntryType, Header, SeekFrom, UnpackStep,
};

fn header(path: &[u8], size: u64, ty: EntryType) -> Header {
    let mut header = Header::new_gnu();
    header.set_path(path).unwrap();
    header.set_size(size).unwrap();
    header.set_mode(0o644).unwrap();
    header.set_entry_type(ty);
    header.set_cksum();
    header
}

fn member(path: &[u8], contents: &[u8]) -> Vec<u8> {
    let mut data = header(path, contents.len() as u64, EntryType::Regular)
        .as_bytes()
        .to_vec();
    data.extend_from_slice(contents);
    data.resize(data.len().div_ceil(512) * 512, 0);
    data
}

fn two_members() -> Vec<u8> {
    let mut data = member(b"first.txt", b"The first member.");
    data.extend_from_slice(&member(b"second.txt", b"And the second one, which is longer."));
    data.extend_from_slice(&[0; 1024]);
    data
}

fn single(contents: &[u8]) -> AsyncEntry {
    let mut data = member(b"file", contents);
    data.extend_from_slice(&[0; 1024]);
    let mut archive = AsyncArchiveReader::new(data);
    let mut entries = archive.entries().unwrap();
    entries.next().unwrap().unwrap()
}

#[test]
fn entry_knows_where_it_stands() {
    let mut archive = AsyncArchiveReader::new(two_members());
    let mut entries = archive.entries().unwrap();
    let first = entries.next().unwrap().unwrap();
    let second = entries.next().unwrap().unwrap();
    assert_eq!(first.raw_header_position(), 0);
    assert_eq!(first.raw_file_position(), 512);
    assert_eq!(first.size(), 17);
    assert_eq!(first.position(), 0);
    assert_eq!(second.raw_header_position(), 1024);
    assert_eq!(second.raw_file_position(), 1536);
    assert_eq!(second.size(), 36);
    assert_eq!(second.path(), b"second.txt".to_vec());
    assert_eq!(second.link_name(), None);
    assert_eq!(second.pax_extensions(), None);
}

#[test]
fn interleaved_reads_give_each_entry_its_own_bytes() {
    let mut archive = AsyncArchiveReader::new(two_members());
    let mut entries = archive.entries().unwrap();
    let mut first = entries.next().unwrap().unwrap();
    let mut second = entries.next().unwrap().unwrap();

    let mut a = Vec::new();
    let mut b = Vec::new();
    let mut buf = [0u8; 4];
    loop {
        let n = second.read(&mut buf).unwrap();
        b.extend_from_slice(&buf[..n]);
        let m = first.read(&mut buf[..3]).unwrap();
        a.extend_from_slice(&buf[..m]);
        if n == 0 && m == 0 {
            break;
        }
    }
    assert_eq!(a, b"The first member.".to_vec());
    assert_eq!(b, b"And the second one, which is longer.".to_vec());
    assert_eq!(first.position(), 17);
    assert_eq!(second.position(), 36);
}

#[test]
fn entries_of_a_cloned_archive_read_the_same_stream() {
    let mut archive = AsyncArchiveReader::new(two_members());
    let mut copy = archive.clone();
    let mut here = archive.entries().unwrap();
    let mut there = copy.entries().unwrap();
    let mut x = here.next().unwrap().unwrap();
    let mut y = there.next().unwrap().unwrap();
    let mut buf = [0u8; 9];
    assert_eq!(x.read(&mut buf), Ok(9));
    assert_eq!(&buf, b"The first");
    assert_eq!(y.read_all().unwrap(), b"The first member.".to_vec());
    assert_eq!(x.read_all().unwrap(), b" member.".to_vec());
}

#[test]
fn read_into_an_empty_buffer_reads_nothing() {
    let mut entry = single(b"abc");
    let mut none: [u8; 0] = [];
    assert_eq!(entry.read(&mut none), Ok(0));
    assert_eq!(entry.position(), 0);
}

#[test]
fn read_does_not_go_beyond_the_payload() {
    let mut entry = single(b"abc");
    let mut buf = [0xee_u8; 8];
    assert_eq!(entry.read(&mut buf), Ok(3));
    assert_eq!(&buf, b"abc\xee\xee\xee\xee\xee");
    assert_eq!(entry.read(&mut buf), Ok(0));
    assert_eq!(entry.position(), 3);
}

#[test]
fn read_all_gives_the_rest() {
    let mut entry = single(b"Hello, World!");
    let mut buf = [0u8; 7];
    assert_eq!(entry.read(&mut buf), Ok(7));
    assert_eq!(entry.read_all().unwrap(), b"World!".to_vec());
    assert_eq!(entry.read_all().unwrap(), Vec::<u8>::new());
    assert_eq!(entry.position(), 13);
}

#[test]
fn read_all_of_a_payload_larger_than_one_chunk() {
    let contents: Vec<u8> = (0..20000u32).map(|i| (i % 253) as u8).collect();
    let mut entry = single(&contents);
    assert_eq!(entry.read_all().unwrap(), contents);
}

#[test]
fn read_all_of_an_empty_payload() {
    let mut entry = single(b"");
    assert_eq!(entry.read_all().unwrap(), Vec::<u8>::new());
}

#[test]
fn truncated_payload_is_read_as_far_as_it_goes() {
    let mut data = header(b"test.txt", 1000, EntryType::Regular).as_bytes().to_vec();
    data.extend_from_slice(b"truncated");
    let mut archive = AsyncArchiveReader::new(data);
    let mut entries = archive.entries().unwrap();
    let mut entry = entries.next().unwrap().unwrap();

    let mut buf = [0u8; 16];
    assert_eq!(entry.read(&mut buf), Ok(9));
    assert_eq!(&buf[..9], b"truncated");
    assert_eq!(entry.read(&mut buf), Ok(0));
    assert_eq!(entry.read_all(), Err(ArchiveError::TruncatedPayload));
    assert_eq!(entry.position(), 9);
}

#[test]
fn read_all_of_a_truncated_payload_leaves_the_cursor_at_the_end_of_the_stream() {
    let mut data = header(b"test.txt", 1000, EntryType::Regular).as_bytes().to_vec();
    data.extend_from_slice(b"truncated");
    let mut archive = AsyncArchiveReader::new(data);
    let mut entries = archive.entries().unwrap();
    let mut entry = entries.next().unwrap().unwrap();
    assert_eq!(entry.read_all(), Err(ArchiveError::TruncatedPayload));
    assert_eq!(entry.position(), 9);
}

#[test]
fn seek_from_start_current_and_end() {
    let mut entry = single(b"0123456789");
    assert_eq!(entry.seek(SeekFrom::Start(4)), 4);
    assert_eq!(entry.read_all().unwrap(), b"456789".to_vec());
    assert_eq!(entry.seek(SeekFrom::Current(-3)), 7);
    assert_eq!(entry.seek(SeekFrom::Current(2)), 9);
    assert_eq!(entry.seek(SeekFrom::End(-10)), 0);
    assert_eq!(entry.seek(SeekFrom::End(-1)), 9);
    assert_eq!(entry.read_all().unwrap(), b"9".to_vec());
    assert_eq!(entry.seek(SeekFrom::End(0)), 10);
}

#[test]
fn seek_stays_within_the_payload() {
    let mut entry = single(b"0123456789");
    assert_eq!(entry.seek(SeekFrom::Start(11)), 10);
    assert_eq!(entry.seek(SeekFrom::Start(u64::MAX)), 10);
    assert_eq!(entry.seek(SeekFrom::Current(-11)), 0);
    assert_eq!(entry.seek(SeekFrom::Current(i64::MIN)), 0);
    assert_eq!(entry.seek(SeekFrom::Current(i64::MAX)), 10);
    assert_eq!(entry.seek(SeekFrom::End(1)), 10);
    assert_eq!(entry.seek(SeekFrom::End(-11)), 0);
    assert_eq!(entry.seek(SeekFrom::End(i64::MIN)), 0);
    assert_eq!(entry.position(), 0);
}

#[test]
fn entry_reader_is_made_from_its_parts() {
    let data = two_members();
    let stream = AsyncMutexReader::new(data.clone());
    let head = Header::from_byte_slice(&data[1024..1536]);
    let mut entry = AsyncEntryReader::new(head, 36, 1024, 1536, stream).unwrap();
    assert_eq!(entry.size(), 36);
    assert_eq!(entry.position(), 0);
    assert_eq!(entry.path(), b"second.txt".to_vec());
    assert_eq!(entry.link_name(), None);
    assert_eq!(entry.header().size(), Ok(36));
    let mut buf = [0u8; 7];
    assert_eq!(entry.read(&mut buf), Ok(7));
    assert_eq!(&buf, b"And the");
    assert_eq!(entry.seek(SeekFrom::Current(1)), 8);
    assert_eq!(entry.read_all().unwrap(), b"second one, which is longer.".to_vec());
}

#[test]
fn entry_reader_rejects_a_payload_beyond_the_largest_offset() {
    let stream = AsyncMutexReader::new(vec![0; 16]);
    let head = Header::new_gnu();
    let made = AsyncEntryReader::new(head, 2, 0, u64::MAX - 1, stream.clone());
    assert_eq!(made.err(), Some(ArchiveError::SizeOverflow));
    let made = AsyncEntryFields::new(head, u64::MAX, 0, 1, stream.clone());
    assert_eq!(made.err(), Some(ArchiveError::SizeOverflow));
    let mut far = AsyncEntryReader::new(head, 1, 0, u64::MAX - 1, stream).unwrap();
    assert_eq!(far.read_all(), Err(ArchiveError::TruncatedPayload));
}

#[test]
fn long_names_take_the_place_of_the_header_fields() {
    let data = two_members();
    let stream = AsyncMutexReader::new(data.clone());
    let head = Header::from_byte_slice(&data[0..512]);
    let mut entry = AsyncEntryReader::new(head, 17, 0, 512, stream).unwrap();
    assert_eq!(entry.path(), b"first.txt".to_vec());
    entry.set_long_pathname(b"a/much/longer/name\0".to_vec());
    assert_eq!(entry.path(), b"a/much/longer/name".to_vec());
    entry.set_long_pathname(b"no/nul/at/the/end".to_vec());
    assert_eq!(entry.path(), b"no/nul/at/the/end".to_vec());
    entry.set_long_pathname(b"two/nuls\0\0".to_vec());
    assert_eq!(entry.path(), b"two/nuls\0".to_vec());
    entry.set_long_linkname(b"the/target\0".to_vec());
    assert_eq!(entry.link_name(), Some(b"the/target".to_vec()));
    entry.set_pax_extensions(b"13 path=abc\n".to_vec());
    assert_eq!(entry.header().path(), b"first.txt".to_vec());
}

#[test]
fn unpack_of_a_regular_file() {
    let mut entry = single(b"Hello, World!");
    let step = entry.unpack(b"dst").unwrap();
    assert_eq!(
        step,
        UnpackStep::File {
            path: b"dst/file".to_vec(),
            contents: b"Hello, World!".to_vec(),
            mode: Some(0o644),
        }
    );
    assert_eq!(entry.position(), 13);
}

#[test]
fn unpack_of_a_regular_file_starts_at_the_cursor() {
    let mut entry = single(b"Hello, World!");
    entry.seek(SeekFrom::Start(7));
    let step = entry.unpack(b"dst/").unwrap();
    assert_eq!(
        step,
        UnpackStep::File {
            path: b"dst/file".to_vec(),
            contents: b"World!".to_vec(),
            mode: Some(0o644),
        }
    );
}

#[test]
fn unpack_of_a_truncated_file_fails() {
    let mut data = header(b"test.txt", 1000, EntryType::Regular).as_bytes().to_vec();
    data.extend_from_slice(b"truncated");
    let mut archive = AsyncArchiveReader::new(data);
    let mut entries = archive.entries().unwrap();
    let mut entry = entries.next().unwrap().unwrap();
    assert_eq!(entry.unpack(b"dst"), Err(ArchiveError::TruncatedPayload));
    assert_eq!(entry.position(), 9);
}

fn only(head: Header) -> AsyncEntry {
    let mut data = head.as_bytes().to_vec();
    data.extend_from_slice(&[0; 1024]);
    let mut archive = AsyncArchiveReader::new(data);
    let mut entries = archive.entries().unwrap();
    entries.next().unwrap().unwrap()
}

#[test]
fn unpack_of_a_directory() {
    let mut head = Header::new_gnu();
    head.set_path(b"some/dir/").unwrap();
    head.set_size(0).unwrap();
    head.set_mode(0o755).unwrap();
    head.set_entry_type(EntryType::Directory);
    head.set_cksum();
    let mut entry = only(head);
    assert_eq!(
        entry.unpack(b"dst"),
        Ok(UnpackStep::Directory { path: b"dst/some/dir/".to_vec(), mode: Some(0o755) })
    );
}

#[test]
fn unpack_of_a_symlink() {
    let mut head = Header::new_gnu();
    head.set_path(b"link").unwrap();
    head.set_link_name(b"../target").unwrap();
    head.set_size(0).unwrap();
    head.set_mode(0o777).unwrap();
    head.set_entry_type(EntryType::Symlink);
    head.set_cksum();
    let mut entry = only(head);
    assert_eq!(
        entry.unpack(b""),
        Ok(UnpackStep::Symlink {
            path: b"link".to_vec(),
            target: b"../target".to_vec(),
            mode: Some(0o777),
        })
    );
}

#[test]
fn unpack_of_a_symlink_without_a_target_fails() {
    let mut entry = only(header(b"link", 0, EntryType::Symlink));
    assert_eq!(entry.unpack(b"dst"), Err(ArchiveError::MissingLinkTarget));
}

#[test]
fn unpack_of_other_types_creates_nothing() {
    for ty in [
        EntryType::Link,
        EntryType::Char,
        EntryType::Block,
        EntryType::Fifo,
        EntryType::Continuous,
        EntryType::GNUSparse,
        EntryType::XGlobalHeader,
        EntryType::Other(b'Z'),
    ] {
        let mut entry = only(header(b"/dev/thing", 0, ty));
        assert_eq!(
            entry.unpack(b"dst"),
            Ok(UnpackStep::Nothing { path: b"dst/dev/thing".to_vec() })
        );
    }
}

#[test]
fn mode_is_masked_or_left_out() {
    let mut data = member(b"file", b"x");
    data.extend_from_slice(&[0; 1024]);

    let mut archive = AsyncArchiveReader::new(data.clone());
    archive.set_mask(Some(0o022));
    let mut entry = archive.entries().unwrap().next().unwrap().unwrap();
    assert_eq!(
        entry.unpack(b"d"),
        Ok(UnpackStep::File { path: b"d/file".to_vec(), contents: b"x".to_vec(), mode: Some(0o644) })
    );

    let mut archive = AsyncArchiveReader::new(data.clone());
    archive.set_mask(Some(0o444));
    let mut entry = archive.entries().unwrap().next().unwrap().unwrap();
    assert_eq!(
        entry.unpack(b"d"),
        Ok(UnpackStep::File { path: b"d/file".to_vec(), contents: b"x".to_vec(), mode: Some(0o200) })
    );

    let mut archive = AsyncArchiveReader::new(data.clone());
    archive.set_mask(Some(0o444)).set_mask(None);
    let mut entry = archive.entries().unwrap().next().unwrap().unwrap();
    assert_eq!(
        entry.unpack(b"d"),
        Ok(UnpackStep::File { path: b"d/file".to_vec(), contents: b"x".to_vec(), mode: Some(0o644) })
    );

    let mut archive = AsyncArchiveReader::new(data);
    archive.set_preserve_permissions(false);
    let mut entry = archive.entries().unwrap().next().unwrap().unwrap();
    assert_eq!(
        entry.unpack(b"d"),
        Ok(UnpackStep::File { path: b"d/file".to_vec(), contents: b"x".to_vec(), mode: None })
    );
}

#[test]
fn mode_that_is_no_number_is_left_out() {
    let mut head = Header::new_gnu();
    head.set_path(b"file").unwrap();
    head.set_size(0).unwrap();
    head.set_cksum();
    let mut entry = only(head);
    assert_eq!(
        entry.unpack(b"d"),
        Ok(UnpackStep::File { path: b"d/file".to_vec(), contents: Vec::new(), mode: None })
    );
}
