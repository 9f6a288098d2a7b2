use std::io::Write;
use tar::{
    has_gz_extension, ArchiveError, AsyncArchive, AsyncArchiveReader, AsyncEntryTrait, Builder,
    EntryType, Header, UnpackStep,
};

fn file_header(mode: u32) -> Header {
    let mut header = Header::new_gnu();
    header.set_mode(mode).unwrap();
    header
}

#[test]
fn empty_archive_is_two_zero_blocks() {
    let builder = Builder::new();
    assert_eq!(builder.len(), 0);
    assert_eq!(builder.into_inner(), vec![0u8; 1024]);
}

#[test]
fn append_writes_header_payload_and_padding() {
    let mut header = Header::new_gnu();
    header.set_path(b"a").unwrap();
    header.set_size(5).unwrap();
    header.set_cksum();
    let mut builder = Builder::new();
    assert_eq!(builder.append(&header, b"hello"), Ok(()));
    assert_eq!(builder.len(), 1024);
    let bytes = builder.into_inner();
    assert_eq!(bytes.len(), 2048);
    assert_eq!(&bytes[..512], header.as_bytes());
    assert_eq!(&bytes[512..517], b"hello");
    assert!(bytes[517..].iter().all(|b| *b == 0));
}

#[test]
fn append_pads_to_whole_blocks() {
    for (len, total) in [(0usize, 512usize), (1, 1024), (511, 1024), (512, 1024), (513, 1536)] {
        let mut header = Header::new_gnu();
        header.set_size(len as u64).unwrap();
        let mut builder = Builder::new();
        builder.append(&header, &vec![7; len]).unwrap();
        assert_eq!(builder.len(), total);
    }
}

#[test]
fn append_rejects_a_header_with_another_size() {
    let mut header = Header::new_gnu();
    header.set_size(4).unwrap();
    let mut builder = Builder::new();
    assert_eq!(builder.append(&header, b"hello"), Err(ArchiveError::InvalidSize));
    assert_eq!(builder.append(&Header::new_gnu(), b""), Err(ArchiveError::InvalidSize));
    assert_eq!(builder.len(), 0);
    assert_eq!(builder.append(&header, b"hell"), Ok(()));
}

#[test]
fn append_data_fills_the_header_in() {
    let mut header = file_header(0o600);
    let mut builder = Builder::new();
    builder.append_data(&mut header, b"dir/name", b"payload").unwrap();
    assert_eq!(header.path(), b"dir/name".to_vec());
    assert_eq!(header.size(), Ok(7));
    assert_eq!(header.mode(), Ok(0o600));
    assert_eq!(header.validate(), Ok(()));
    assert_eq!(builder.len(), 1024);
}

#[test]
fn append_data_rejects_a_path_with_a_nul() {
    let mut header = file_header(0o600);
    let before = header.as_bytes().to_vec();
    let mut builder = Builder::new();
    assert_eq!(
        builder.append_data(&mut header, b"dir\0name", b"payload"),
        Err(ArchiveError::EmbeddedNul)
    );
    assert_eq!(builder.len(), 0);
    assert_eq!(header.as_bytes().to_vec(), before);
}

#[test]
fn what_is_written_is_read_back() {
    let mut builder = Builder::new();
    let mut dir = file_header(0o755);
    dir.set_entry_type(EntryType::Directory);
    builder.append_data(&mut dir, b"docs/", b"").unwrap();
    builder.append_data(&mut file_header(0o644), b"docs/readme", b"Read me.").unwrap();
    let big: Vec<u8> = (0..3000u32).map(|i| (i % 256) as u8).collect();
    builder.append_data(&mut file_header(0o600), b"docs/big.bin", &big).unwrap();
    let mut link = file_header(0o777);
    link.set_entry_type(EntryType::Symlink);
    link.set_link_name(b"readme").unwrap();
    builder.append_data(&mut link, b"docs/link", b"").unwrap();

    let mut archive = AsyncArchiveReader::new(builder.into_inner());
    let mut entries = archive.entries().unwrap();

    let first = entries.next().unwrap().unwrap();
    assert_eq!(first.path(), b"docs/".to_vec());
    assert_eq!(first.header().entry_type(), EntryType::Directory);
    let mut second = entries.next().unwrap().unwrap();
    assert_eq!(second.path(), b"docs/readme".to_vec());
    assert_eq!(second.read_all().unwrap(), b"Read me.".to_vec());
    let mut third = entries.next().unwrap().unwrap();
    assert_eq!(third.path(), b"docs/big.bin".to_vec());
    assert_eq!(third.read_all().unwrap(), big);
    let fourth = entries.next().unwrap().unwrap();
    assert_eq!(fourth.path(), b"docs/link".to_vec());
    assert_eq!(fourth.link_name(), Some(b"readme".to_vec()));
    assert!(entries.next().unwrap().is_none());
}

#[test]
fn long_path_is_written_as_a_long_name() {
    let path = [b"very/".repeat(40), b"deep".to_vec()].concat();
    assert_eq!(path.len(), 204);
    let mut header = file_header(0o644);
    let mut builder = Builder::new();
    builder.append_data(&mut header, &path, b"found").unwrap();
    assert_eq!(header.path(), path[..100].to_vec());
    assert_eq!(builder.len(), 512 + 512 + 512 + 512);
    let bytes = builder.into_inner();

    let mut archive = AsyncArchiveReader::new(bytes.clone());
    let mut raw = archive.entries().unwrap().raw(true);
    let mut long = raw.next().unwrap().unwrap();
    assert_eq!(long.header().entry_type(), EntryType::GNULongName);
    assert_eq!(long.path(), b"././@LongLink".to_vec());
    assert_eq!(long.size(), 205);
    assert_eq!(long.read_all().unwrap(), [path.clone(), vec![0]].concat());

    let mut entries = archive.entries().unwrap();
    let mut entry = entries.next().unwrap().unwrap();
    assert_eq!(entry.path(), path);
    assert_eq!(entry.read_all().unwrap(), b"found".to_vec());
    assert!(entries.next().unwrap().is_none());

    let steps = AsyncArchiveReader::new(bytes).unpack(b"").into_steps();
    assert_eq!(
        steps,
        vec![UnpackStep::File { path, contents: b"found".to_vec(), mode: Some(0o644) }]
    );
}

#[test]
fn path_of_one_hundred_bytes_needs_no_long_name() {
    let path = vec![b'p'; 100];
    let mut builder = Builder::new();
    builder.append_data(&mut file_header(0o644), &path, b"").unwrap();
    assert_eq!(builder.len(), 512);
    let mut archive = AsyncArchiveReader::new(builder.into_inner());
    assert_eq!(archive.entries().unwrap().next().unwrap().unwrap().path(), path);
}

fn gzip(data: &[u8]) -> Vec<u8> {
    let mut encoder = flate2::write::GzEncoder::new(Vec::new(), flate2::Compression::default());
    encoder.write_all(data).unwrap();
    encoder.finish().unwrap()
}

fn small_archive() -> Vec<u8> {
    let mut builder = Builder::new();
    builder.append_data(&mut file_header(0o644), b"hello.txt", b"Hello, World!").unwrap();
    builder.into_inner()
}

#[test]
fn gz_extension() {
    assert!(has_gz_extension(b"a.gz"));
    assert!(has_gz_extension(b"archive.tar.gz"));
    assert!(has_gz_extension(b"dir/archive.gz"));
    assert!(has_gz_extension(b"..gz"));
    assert!(!has_gz_extension(b".gz"));
    assert!(!has_gz_extension(b"dir/.gz"));
    assert!(!has_gz_extension(b"gz"));
    assert!(!has_gz_extension(b""));
    assert!(!has_gz_extension(b"archive.tar"));
    assert!(!has_gz_extension(b"archive.gz.tar"));
    assert!(!has_gz_extension(b"archive.GZ"));
    assert!(!has_gz_extension(b"archive.tgz"));
}

#[test]
fn gzip_data_is_decoded() {
    let plain = small_archive();
    let packed = gzip(&plain);
    assert_ne!(packed, plain);

    let mut archive = AsyncArchiveReader::from_gzip(&packed).unwrap();
    assert_eq!(archive.stream().len(), plain.len());
    let mut entry = archive.entries().unwrap().next().unwrap().unwrap();
    assert_eq!(entry.path(), b"hello.txt".to_vec());
    assert_eq!(entry.read_all().unwrap(), b"Hello, World!".to_vec());
}

#[test]
fn data_that_is_no_gzip_data_is_rejected() {
    assert_eq!(
        AsyncArchiveReader::from_gzip(&small_archive()).err(),
        Some(ArchiveError::InvalidGzip)
    );
    assert_eq!(AsyncArchiveReader::from_gzip(b"").err(), Some(ArchiveError::InvalidGzip));
    let mut cut = gzip(&small_archive());
    cut.truncate(cut.len() - 4);
    assert_eq!(AsyncArchiveReader::from_gzip(&cut).err(), Some(ArchiveError::InvalidGzip));
    let mut wrong = gzip(&small_archive());
    let at = wrong.len() - 8;
    wrong[at] ^= 0xff;
    assert_eq!(AsyncArchiveReader::from_gzip(&wrong).err(), Some(ArchiveError::InvalidGzip));
}

#[test]
fn open_decodes_by_the_name_of_the_file() {
    let plain = small_archive();
    let packed = gzip(&plain);

    let mut archive = AsyncArchiveReader::open(b"a.tar.gz", packed.clone()).unwrap();
    assert!(archive.entries().unwrap().next().unwrap().is_some());
    let mut archive = AsyncArchiveReader::open(b"a.tar", plain.clone()).unwrap();
    assert!(archive.entries().unwrap().next().unwrap().is_some());

    assert_eq!(
        AsyncArchiveReader::open(b"a.tar.gz", plain).err(),
        Some(ArchiveError::InvalidGzip)
    );
    let mut archive = AsyncArchiveReader::open(b"a.tar", packed).unwrap();
    assert_eq!(archive.stream().len() < 1024, true);
    assert!(archive.entries().is_err());
}

#[test]
fn ustar_header_holds_a_long_path_without_a_long_name() {
    let path = [b"d/".repeat(60), b"file.txt".to_vec()].concat();
    let mut header = Header::new_ustar();
    header.set_mode(0o644).unwrap();
    let mut builder = Builder::new();
    builder.append_data(&mut header, &path, b"found").unwrap();
    assert_eq!(header.path(), path);
    assert_eq!(builder.len(), 1024);

    let mut archive = AsyncArchiveReader::new(builder.into_inner());
    let mut entries = archive.entries().unwrap().raw(true);
    let mut entry = entries.next().unwrap().unwrap();
    assert_eq!(entry.header().entry_type(), EntryType::Regular);
    assert_eq!(entry.path(), path);
    assert_eq!(entry.read_all().unwrap(), b"found".to_vec());
    assert!(entries.next().unwrap().is_none());
}

#[test]
fn ustar_header_gets_a_long_name_where_the_path_cannot_be_split() {
    let path = vec![b'n'; 130];
    let mut header = Header::new_ustar();
    header.set_mode(0o644).unwrap();
    let mut builder = Builder::new();
    builder.append_data(&mut header, &path, b"found").unwrap();
    assert_eq!(header.path(), path[..100].to_vec());
    assert_eq!(builder.len(), 2048);

    let mut archive = AsyncArchiveReader::new(builder.into_inner());
    let mut entry = archive.entries().unwrap().next().unwrap().unwrap();
    assert_eq!(entry.path(), path);
    assert_eq!(entry.read_all().unwrap(), b"found".to_vec());
}
