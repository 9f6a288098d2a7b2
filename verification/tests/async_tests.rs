use tar::{
    ArchiveError, AsyncArchive, AsyncArchiveReader, AsyncEntryTrait, EntryType, Header,
    UnpackStep,
};

fn file_header(path: &[u8], size: u64) -> Header {
    let mut header = Header::new_gnu();
    header.set_path(path).unwrap();
    header.set_size(size).unwrap();
    header.set_cksum();
    header
}

#[test]
fn test_async_archive_read_empty() {
    let data = Vec::new();
    let mut archive = AsyncArchiveReader::new(data);
    let result = archive.entries();
    assert_eq!(result.err(), Some(ArchiveError::InvalidHeader));
}

#[test]
fn test_async_archive_read_single_file() {
    let header = file_header(b"test.txt", 4);

    let mut data = Vec::new();
    data.extend_from_slice(header.as_bytes());
    data.extend_from_slice(b"test");
    data.extend_from_slice(&[0; 508]);

    let mut archive = AsyncArchiveReader::new(data);
    let mut entries = archive.entries().unwrap();

    let mut entry = entries.next().unwrap().unwrap();
    assert_eq!(entry.header().path(), b"test.txt".to_vec());
    assert_eq!(entry.header().size().unwrap(), 4);

    let contents = entry.read_all().unwrap();
    assert_eq!(&contents, b"test");

    assert!(entries.next().unwrap().is_none());
}

#[test]
fn test_async_entry_read() {
    let content = b"Hello, World!";
    let header = file_header(b"test.txt", content.len() as u64);

    let mut data = Vec::new();
    data.extend_from_slice(header.as_bytes());
    data.extend_from_slice(content);
    data.extend_from_slice(&[0; 499]);

    let mut archive = AsyncArchiveReader::new(data);
    let mut entries = archive.entries().unwrap();
    let mut entry = entries.next().unwrap().unwrap();
    assert_eq!(entry.size(), 13);

    let mut buffer = [0; 5];
    let n = entry.read(&mut buffer).unwrap();
    assert_eq!(n, 5);
    assert_eq!(&buffer, b"Hello");

    let n = entry.read(&mut buffer).unwrap();
    assert_eq!(n, 5);
    assert_eq!(&buffer[..n], b", Wor");

    let n = entry.read(&mut buffer).unwrap();
    assert_eq!(n, 3);
    assert_eq!(&buffer[..n], b"ld!");

    let n = entry.read(&mut buffer).unwrap();
    assert_eq!(n, 0);
}

#[test]
fn test_async_unpack() {
    let test_content = b"Hello, World!";

    let mut header = Header::new_gnu();
    header.set_path(b"test.txt").unwrap();
    header.set_size(test_content.len() as u64).unwrap();
    header.set_mode(0o644).unwrap();
    header.set_cksum();

    let mut data = Vec::new();
    data.extend_from_slice(header.as_bytes());
    data.extend_from_slice(test_content);
    data.extend_from_slice(&[0; 499]);

    let mut archive = AsyncArchiveReader::new(data);
    let unpacked = archive.unpack(b"out");
    assert_eq!(unpacked.result(), Ok(()));

    let steps = unpacked.into_steps();
    assert_eq!(
        steps,
        vec![UnpackStep::File {
            path: b"out/test.txt".to_vec(),
            contents: test_content.to_vec(),
            mode: Some(0o644),
        }]
    );
}

#[test]
fn test_async_large_file() {
    let size: u64 = 1024 * 1024;
    let header = file_header(b"large.bin", size);

    let mut data = Vec::new();
    data.extend_from_slice(header.as_bytes());
    let pattern: Vec<u8> = (0..255).cycle().take(size as usize).collect();
    data.extend_from_slice(&pattern);
    data.extend_from_slice(&vec![0; 512 - (size % 512) as usize]);

    let mut archive = AsyncArchiveReader::new(data);
    let mut entries = archive.entries().unwrap();
    let mut entry = entries.next().unwrap().unwrap();

    let content = entry.read_all().unwrap();
    assert_eq!(content, pattern);
}

#[test]
fn test_async_directory_entry() {
    let mut header = Header::new_gnu();
    header.set_path(b"test_dir/").unwrap();
    header.set_entry_type(EntryType::Directory);
    header.set_mode(0o755).unwrap();
    header.set_size(0).unwrap();
    header.set_cksum();

    let data = header.as_bytes().to_vec();
    let mut archive = AsyncArchiveReader::new(data);
    let mut entries = archive.entries().unwrap();
    let entry = entries.next().unwrap().unwrap();

    assert_eq!(entry.header().entry_type(), EntryType::Directory);
    assert_eq!(entry.header().path(), b"test_dir/".to_vec());
}

#[test]
fn test_async_symlink_entry() {
    let mut header = Header::new_gnu();
    header.set_path(b"link").unwrap();
    header.set_entry_type(EntryType::Symlink);
    header.set_size(0).unwrap();
    header.set_link_name(b"target").unwrap();
    header.set_cksum();

    let data = header.as_bytes().to_vec();
    let mut archive = AsyncArchiveReader::new(data);
    let mut entries = archive.entries().unwrap();
    let entry = entries.next().unwrap().unwrap();

    assert_eq!(entry.header().entry_type(), EntryType::Symlink);
    assert_eq!(entry.header().link_name().unwrap(), b"target".to_vec());
}

#[test]
fn test_async_malformed_header() {
    let data = vec![0; 512];
    let mut archive = AsyncArchiveReader::new(data);
    let result = archive.entries();
    assert!(result.is_err());
}

#[test]
fn test_async_truncated_archive() {
    let header = file_header(b"test.txt", 1000);

    let mut data = Vec::new();
    data.extend_from_slice(header.as_bytes());
    data.extend_from_slice(b"truncated");

    let mut archive = AsyncArchiveReader::new(data);
    let mut entries = archive.entries().unwrap();
    let mut entry = entries.next().unwrap().unwrap();

    let result = entry.read_all();
    assert_eq!(result, Err(ArchiveError::TruncatedPayload));
}

#[test]
fn test_async_long_filename() {
    let long_name = "a".repeat(200);

    let mut long = Header::new_gnu();
    long.set_path(b"././@LongLink").unwrap();
    long.set_entry_type(EntryType::GNULongName);
    long.set_size(201).unwrap();
    long.set_cksum();

    let header = file_header(&long_name.as_bytes()[..100], 4);

    let mut data = Vec::new();
    data.extend_from_slice(long.as_bytes());
    data.extend_from_slice(long_name.as_bytes());
    data.extend_from_slice(&[0; 512 - 200]);
    data.extend_from_slice(header.as_bytes());
    data.extend_from_slice(b"test");
    data.extend_from_slice(&[0; 508]);

    let mut archive = AsyncArchiveReader::new(data);
    let mut entries = archive.entries().unwrap();
    let mut entry = entries.next().unwrap().unwrap();

    assert_eq!(entry.path(), long_name.as_bytes().to_vec());
    assert_eq!(entry.header().path().len(), 100);
    assert_eq!(entry.read_all().unwrap(), b"test".to_vec());
    assert!(entries.next().unwrap().is_none());
}

#[test]
fn single_member_is_one_entry_and_then_the_end() {
    let content = b"Hello, World!";
    let header = file_header(b"hello.txt", 13);

    let mut data = Vec::new();
    data.extend_from_slice(header.as_bytes());
    data.extend_from_slice(content);
    data.extend_from_slice(&[0; 499]);
    data.extend_from_slice(&[0; 1024]);

    let mut archive = AsyncArchiveReader::new(data);
    let mut entries = archive.entries().unwrap();
    let mut entry = entries.next().unwrap().unwrap();
    assert_eq!(entry.size(), 13);
    assert_eq!(entry.read_all().unwrap(), content.to_vec());
    assert!(entries.next().unwrap().is_none());
    assert!(entries.next().unwrap().is_none());
}
