use tar::{
    join_path, path_le, ArchiveError, AsyncArchive, AsyncArchiveReader, EntryType, Header,
    UnpackStep, Unpacked,
};

fn member_of(path: &[u8], contents: &[u8], ty: EntryType, mode: u32) -> Vec<u8> {
    let mut header = Header::new_gnu();
    header.set_path(path).unwrap();
    header.set_size(contents.len() as u64).unwrap();
    header.set_mode(mode).unwrap();
    header.set_entry_type(ty);
    header.set_cksum();
    let mut data = header.as_bytes().to_vec();
    data.extend_from_slice(contents);
    data.resize(data.len().div_ceil(512) * 512, 0);
    data
}

fn file(path: &[u8], contents: &[u8]) -> Vec<u8> {
    member_of(path, contents, EntryType::Regular, 0o644)
}

fn dir(path: &[u8], mode: u32) -> Vec<u8> {
    member_of(path, b"", EntryType::Directory, mode)
}

fn unpack(parts: &[Vec<u8>]) -> Unpacked {
    let mut data = parts.concat();
    data.extend_from_slice(&[0; 1024]);
    AsyncArchiveReader::new(data).unpack(b"out")
}

fn file_step(path: &[u8], contents: &[u8]) -> UnpackStep {
    UnpackStep::File { path: path.to_vec(), contents: contents.to_vec(), mode: Some(0o644) }
}

fn dir_step(path: &[u8], mode: u32) -> UnpackStep {
    UnpackStep::Directory { path: path.to_vec(), mode: Some(mode) }
}

#[test]
fn join_path_puts_one_slash_between() {
    assert_eq!(join_path(b"out", b"a/b"), b"out/a/b".to_vec());
    assert_eq!(join_path(b"out/", b"a/b"), b"out/a/b".to_vec());
    assert_eq!(join_path(b"", b"a/b"), b"a/b".to_vec());
    assert_eq!(join_path(b"/", b"a"), b"/a".to_vec());
    assert_eq!(join_path(b"out", b""), b"out/".to_vec());
    assert_eq!(join_path(b"", b""), Vec::<u8>::new());
}

#[test]
fn join_path_takes_the_path_as_relative() {
    assert_eq!(join_path(b"out", b"/etc/passwd"), b"out/etc/passwd".to_vec());
    assert_eq!(join_path(b"out", b"///etc"), b"out/etc".to_vec());
    assert_eq!(join_path(b"", b"/etc"), b"etc".to_vec());
    assert_eq!(join_path(b"out", b"/"), b"out/".to_vec());
}

#[test]
fn path_le_is_the_lexicographic_order() {
    assert!(path_le(b"", b""));
    assert!(path_le(b"", b"a"));
    assert!(!path_le(b"a", b""));
    assert!(path_le(b"a", b"a"));
    assert!(path_le(b"a", b"b"));
    assert!(!path_le(b"b", b"a"));
    assert!(path_le(b"a", b"a/b"));
    assert!(!path_le(b"a/b", b"a"));
    assert!(path_le(b"a/b", b"a0"));
    assert!(path_le(b"ab", b"b"));
    assert!(path_le(b"\x7f", b"\x80"));
    assert!(!path_le(b"\xff", b"\x00\xff"));
}

#[test]
fn file_inside_a_directory_is_created_before_the_directory_is_finished() {
    let expected = vec![file_step(b"out/d/f", b"inside"), dir_step(b"out/d/", 0o555)];

    let first = unpack(&[dir(b"d/", 0o555), file(b"d/f", b"inside")]);
    assert_eq!(first.result(), Ok(()));
    assert_eq!(first.into_steps(), expected);

    let second = unpack(&[file(b"d/f", b"inside"), dir(b"d/", 0o555)]);
    assert_eq!(second.result(), Ok(()));
    assert_eq!(second.into_steps(), expected);
}

#[test]
fn directories_come_last_and_deepest_first() {
    let unpacked = unpack(&[
        dir(b"a/", 0o700),
        file(b"a/one", b"1"),
        dir(b"a/b/", 0o500),
        dir(b"c/", 0o755),
        file(b"a/b/two", b"2"),
        member_of(b"a/link", b"", EntryType::Fifo, 0o644),
        dir(b"a/b/c/", 0o711),
        file(b"z", b"3"),
    ]);
    assert_eq!(unpacked.failure(), None);
    assert_eq!(
        unpacked.into_steps(),
        vec![
            file_step(b"out/a/one", b"1"),
            file_step(b"out/a/b/two", b"2"),
            UnpackStep::Nothing { path: b"out/a/link".to_vec() },
            file_step(b"out/z", b"3"),
            dir_step(b"out/c/", 0o755),
            dir_step(b"out/a/b/c/", 0o711),
            dir_step(b"out/a/b/", 0o500),
            dir_step(b"out/a/", 0o700),
        ]
    );
}

#[test]
fn directories_are_not_made_after_a_failure() {
    let mut unpacked = Unpacked::new();
    unpacked.route(dir_step(b"b", 1));
    unpacked.route(file_step(b"x", b""));
    unpacked.fail(ArchiveError::TruncatedHeader);
    assert_eq!(unpacked.result(), Err(ArchiveError::TruncatedHeader));
    assert_eq!(unpacked.deferred(), &vec![dir_step(b"b", 1)]);
    assert_eq!(unpacked.into_steps(), vec![file_step(b"x", b"")]);
}

#[test]
fn route_sorts_directories_as_they_come() {
    let mut unpacked = Unpacked::new();
    unpacked.route(dir_step(b"b", 1));
    unpacked.route(file_step(b"x", b""));
    unpacked.route(dir_step(b"c", 2));
    unpacked.route(dir_step(b"a", 3));
    unpacked.route(dir_step(b"b", 4));
    unpacked.route(file_step(b"a", b""));
    assert_eq!(unpacked.result(), Ok(()));
    assert_eq!(
        unpacked.into_steps(),
        vec![
            file_step(b"x", b""),
            file_step(b"a", b""),
            dir_step(b"c", 2),
            dir_step(b"b", 4),
            dir_step(b"b", 1),
            dir_step(b"a", 3),
        ]
    );
}

#[test]
fn unpack_of_an_empty_stream_fails() {
    let unpacked = AsyncArchiveReader::new(Vec::new()).unpack(b"out");
    assert_eq!(unpacked.failure(), Some(ArchiveError::InvalidHeader));
    assert_eq!(unpacked.result(), Err(ArchiveError::InvalidHeader));
    assert_eq!(unpacked.into_steps(), Vec::new());
}

#[test]
fn unpack_keeps_the_steps_before_a_failure() {
    let mut broken = file(b"broken", b"data");
    broken[0] = b'B';
    let unpacked = unpack(&[
        dir(b"d/", 0o755),
        file(b"d/good", b"ok"),
        broken,
        file(b"never", b"seen"),
    ]);
    assert_eq!(unpacked.failure(), Some(ArchiveError::ChecksumMismatch));
    assert_eq!(unpacked.deferred(), &vec![dir_step(b"out/d/", 0o755)]);
    assert_eq!(unpacked.into_steps(), vec![file_step(b"out/d/good", b"ok")]);
}

#[test]
fn unpack_fails_at_a_member_that_cannot_be_unpacked() {
    let unpacked = unpack(&[
        file(b"good", b"ok"),
        member_of(b"link", b"", EntryType::Symlink, 0o777),
        file(b"never", b"seen"),
    ]);
    assert_eq!(unpacked.failure(), Some(ArchiveError::MissingLinkTarget));
    assert_eq!(unpacked.into_steps(), vec![file_step(b"out/good", b"ok")]);

    let mut cut = file(b"cut", &[1; 700]);
    cut.truncate(512 + 600);
    let unpacked = AsyncArchiveReader::new([file(b"good", b"ok"), cut].concat()).unpack(b"out");
    assert_eq!(unpacked.failure(), Some(ArchiveError::TruncatedPayload));
    assert_eq!(unpacked.into_steps(), vec![file_step(b"out/good", b"ok")]);
}

#[test]
fn unpack_uses_long_names() {
    let name = [b"deep/".repeat(30), b"file".to_vec()].concat();
    let mut payload = name.clone();
    payload.push(0);
    let unpacked = unpack(&[
        member_of(b"././@LongLink", &payload, EntryType::GNULongName, 0o644),
        file(b"deep/deep/file", b"found"),
    ]);
    assert_eq!(unpacked.result(), Ok(()));
    assert_eq!(
        unpacked.into_steps(),
        vec![file_step(&[b"out/".to_vec(), name].concat(), b"found")]
    );
}

#[test]
fn unpack_leaves_the_archive_as_it_was() {
    let mut data = file(b"a", b"1");
    data.extend_from_slice(&[0; 1024]);
    let mut archive = AsyncArchiveReader::new(data);
    let first = archive.unpack(b"x").into_steps();
    let second = archive.unpack(b"x").into_steps();
    assert_eq!(first, second);
    assert_eq!(first, vec![file_step(b"x/a", b"1")]);
    assert!(archive.entries().unwrap().next().unwrap().is_some());
}
