use rusty_share::archive::{
    archive_size, can_name_archive, entry_size, get_archive_name, is_hidden, measure_entry, path2bytes, write_entry,
    NotUnicode, Platform, WalkEntry, WalkError, WalkMetadata, WriteStep,
};
use rusty_share::share_entry;
use tar::{Builder, Header};

fn entry(path_len: usize, is_dir: bool, len: u64) -> WalkEntry {
    WalkEntry {
        metadata: Some(WalkMetadata { is_dir, len }),
        relative_path: Some(vec![b'a'; path_len]),
    }
}

fn size(path_len: usize, is_dir: bool, len: u64) -> Result<u64, WalkError> {
    entry_size(&entry(path_len, is_dir, len), Platform::Unix)
}

fn texts(names: &[&str]) -> Vec<String> {
    names.iter().map(|name| name.to_string()).collect()
}

fn written(entries: &[(usize, bool, usize)]) -> u64 {
    let mut builder = Builder::new(Vec::new());
    for &(path_len, is_dir, len) in entries {
        let mut header = Header::new_gnu();
        header.set_size(if is_dir { 0 } else { len as u64 });
        header.set_mode(0o644);
        header.set_entry_type(if is_dir {
            tar::EntryType::Directory
        } else {
            tar::EntryType::Regular
        });
        let data = if is_dir { Vec::new() } else { vec![7u8; len] };
        builder
            .append_data(&mut header, "a".repeat(path_len), &data[..])
            .unwrap();
    }
    builder.into_inner().unwrap().len() as u64
}

fn measured(entries: &[(usize, bool, usize)]) -> u64 {
    let walks = entries
        .iter()
        .map(|&(path_len, is_dir, len)| vec![Some(entry(path_len, is_dir, len as u64))])
        .collect();
    archive_size(&walks, Platform::Unix).unwrap()
}

#[test]
fn unix_paths_are_kept() {
    assert_eq!(path2bytes(b"a\\b/c", Platform::Unix), Ok(b"a\\b/c".to_vec()));
    assert_eq!(path2bytes(b"\xff", Platform::Unix), Ok(b"\xff".to_vec()));
    assert_eq!(path2bytes(b"", Platform::Unix), Ok(Vec::new()));
}

#[test]
fn windows_paths_get_slashes() {
    assert_eq!(
        path2bytes(b"a\\b\\c", Platform::Windows),
        Ok(b"a/b/c".to_vec())
    );
    assert_eq!(
        path2bytes("\u{e4}/b".as_bytes(), Platform::Windows),
        Ok("\u{e4}/b".as_bytes().to_vec())
    );
}

#[test]
fn windows_paths_are_unicode() {
    assert_eq!(path2bytes(b"a\xff", Platform::Windows), Err(NotUnicode));
}

#[test]
fn dot_files_and_undecodable_names_are_skipped() {
    assert!(is_hidden(b".git"));
    assert!(is_hidden(b"."));
    assert!(is_hidden(b"\xff"));
    assert!(!is_hidden(b"a.txt"));
    assert!(!is_hidden(b""));
    assert!(!is_hidden("\u{e4}".as_bytes()));
}

#[test]
fn entries_take_up_blocks() {
    assert_eq!(size(1, true, 4096), Ok(512));
    assert_eq!(size(1, false, 0), Ok(512));
    assert_eq!(size(1, false, 1), Ok(1024));
    assert_eq!(size(1, false, 512), Ok(1024));
    assert_eq!(size(1, false, 513), Ok(1536));
}

#[test]
fn long_paths_take_up_more() {
    assert_eq!(size(100, false, 0), Ok(512));
    assert_eq!(size(101, false, 0), Ok(1536));
    assert_eq!(size(511, true, 0), Ok(1536));
    assert_eq!(size(512, true, 0), Ok(1536));
    assert_eq!(size(513, true, 0), Ok(2048));
}

#[test]
fn path_lengths_do_not_depend_on_separators() {
    let e = WalkEntry {
        metadata: Some(WalkMetadata { is_dir: true, len: 0 }),
        relative_path: Some(vec![b'\\'; 101]),
    };
    assert_eq!(entry_size(&e, Platform::Windows), Ok(1536));
    assert_eq!(entry_size(&e, Platform::Unix), Ok(1536));
}

#[test]
fn entries_without_metadata_are_not_measured() {
    let e = WalkEntry { metadata: None, relative_path: None };
    assert_eq!(entry_size(&e, Platform::Unix), Err(WalkError::Metadata));
    assert_eq!(write_entry(&e), Err(WalkError::Metadata));
}

#[test]
fn entries_elsewhere_are_not_measured() {
    let e = WalkEntry {
        metadata: Some(WalkMetadata { is_dir: false, len: 3 }),
        relative_path: None,
    };
    assert_eq!(entry_size(&e, Platform::Unix), Err(WalkError::Prefix));
    assert_eq!(write_entry(&e), Err(WalkError::Prefix));
}

#[test]
fn entries_can_be_too_long() {
    assert_eq!(size(1, false, u64::MAX), Err(WalkError::TooLong));
    assert_eq!(size(1, false, u64::MAX - 1023), Ok(u64::MAX - 511));
    assert_eq!(size(1, false, u64::MAX - 1022), Err(WalkError::TooLong));
    assert_eq!(size(1, true, u64::MAX), Ok(512));
}

#[test]
fn directories_and_files_are_added_differently() {
    assert_eq!(write_entry(&entry(1, true, 0)), Ok(WriteStep::AppendDir));
    assert_eq!(write_entry(&entry(1, false, 0)), Ok(WriteStep::AppendFile));
}

#[test]
fn walks_are_sums() {
    let walk = vec![
        Some(entry(1, true, 0)),
        None,
        Some(WalkEntry { metadata: None, relative_path: None }),
        Some(entry(3, false, 700)),
    ];
    assert_eq!(measure_entry(&walk, Platform::Unix), Some(512 + 512 + 1024));
    assert_eq!(measure_entry(&Vec::new(), Platform::Unix), Some(0));
}

#[test]
fn walks_can_be_too_long() {
    let half = u64::MAX / 2 + 1;
    let walk = vec![Some(entry(1, false, half)), Some(entry(1, false, half))];
    assert_eq!(measure_entry(&walk, Platform::Unix), None);
    let walk = vec![Some(entry(1, false, u64::MAX))];
    assert_eq!(measure_entry(&walk, Platform::Unix), None);
    assert_eq!(archive_size(&vec![walk], Platform::Unix), None);
}

#[test]
fn archives_can_be_too_long() {
    let half = u64::MAX / 2 + 1;
    let walks = vec![
        vec![Some(entry(1, false, half - 1024))],
        vec![Some(entry(1, false, half - 1024))],
    ];
    assert_eq!(archive_size(&walks, Platform::Unix), None);
}

#[test]
fn archives_end_in_two_blocks() {
    assert_eq!(archive_size(&Vec::new(), Platform::Unix), Some(1024));
    let walks = vec![vec![Some(entry(1, false, 1))], vec![Some(entry(1, true, 0))]];
    assert_eq!(archive_size(&walks, Platform::Unix), Some(1024 + 1024 + 512));
}

#[test]
fn archives_are_measured_as_they_are_written() {
    let entries = [
        (1, true, 0),
        (9, false, 0),
        (20, false, 1),
        (100, false, 511),
        (101, false, 512),
        (150, true, 0),
        (511, false, 513),
        (513, false, 5000),
    ];
    assert_eq!(measured(&entries), written(&entries));
    for e in entries {
        assert_eq!(measured(&[e]), written(&[e]));
    }
    assert_eq!(measured(&[]), written(&[]));
}

#[test]
fn paths_that_fill_blocks_are_measured_short() {
    assert_eq!(measured(&[(512, false, 9)]) + 512, written(&[(512, false, 9)]));
    let entries = [(1024, true, 0), (3, false, 3), (512, false, 9)];
    assert_eq!(measured(&entries) + 2 * 512, written(&entries));
}

#[test]
fn one_file_names_the_archive() {
    assert_eq!(get_archive_name("/", &texts(&["foo"])), b"foo.tar".to_vec());
    assert_eq!(get_archive_name("/x/", &texts(&["foo/"])), b"foo.tar".to_vec());
    assert_eq!(get_archive_name("/x/", &texts(&["foo//"])), b"foo.tar".to_vec());
    assert_eq!(get_archive_name("", &texts(&["a/b"])), b"a/b.tar".to_vec());
    assert_eq!(
        get_archive_name("/", &texts(&["\u{e4}"])),
        "\u{e4}.tar".as_bytes().to_vec()
    );
}

#[test]
fn the_directory_names_the_archive() {
    assert_eq!(get_archive_name("/", &texts(&[])), b"archive.tar".to_vec());
    assert_eq!(get_archive_name("/", &texts(&["a", "b"])), b"archive.tar".to_vec());
    assert_eq!(get_archive_name("/x/", &texts(&["a", "b"])), b"x.tar".to_vec());
    assert_eq!(get_archive_name("/x/y/", &texts(&[])), b"y.tar".to_vec());
    assert_eq!(get_archive_name("/x/y", &texts(&[])), b"y.tar".to_vec());
    assert_eq!(get_archive_name("/x/y//", &texts(&[])), b"y.tar".to_vec());
    assert_eq!(get_archive_name("//x", &texts(&[])), b"x.tar".to_vec());
}

#[test]
fn walks_add_up() {
    let a = || vec![Some(entry(1, true, 0)), Some(entry(200, false, 3)), None];
    let b = || vec![Some(entry(7, false, 1000))];
    let both: Vec<Option<WalkEntry>> = a().into_iter().chain(b()).collect();
    assert_eq!(measure_entry(&a(), Platform::Unix), Some(512 + 2048));
    assert_eq!(measure_entry(&b(), Platform::Unix), Some(1536));
    assert_eq!(measure_entry(&both, Platform::Unix), Some(512 + 2048 + 1536));
}

#[test]
fn hidden_names_are_skipped() {
    for name in [&b".a"[..], b"a", b".\xff", b"", b"\xc3\xa4"] {
        if share_entry::is_hidden(name) || std::str::from_utf8(name).is_ok() {
            assert_eq!(is_hidden(name), share_entry::is_hidden(name));
        }
    }
    assert!(is_hidden(b"\xff") && !share_entry::is_hidden(b"\xff"));
}

#[test]
fn archives_without_a_name_are_told() {
    assert!(can_name_archive("/", &texts(&[])));
    assert!(can_name_archive("//", &texts(&["a"])));
    assert!(can_name_archive("/x", &texts(&["a", "b"])));
    assert!(can_name_archive("//x/", &texts(&[])));
    assert!(!can_name_archive("//", &texts(&[])));
    assert!(!can_name_archive("//", &texts(&["a", "b"])));
    assert!(!can_name_archive("x/", &texts(&[])));
    assert!(!can_name_archive("", &texts(&[])));
}

#[test]
fn directories_are_measured_as_themselves_and_their_children() {
    let own = || Some(entry(1, true, 4096));
    let first = || vec![Some(entry(5, false, 10))];
    let second = || vec![Some(entry(3, true, 0)), Some(entry(120, false, 600))];
    let mut walk = vec![own()];
    walk.extend(first());
    walk.extend(second());
    let parts = [vec![own()], first(), second()];
    let sum = parts.iter().map(|part| measure_entry(part, Platform::Unix).unwrap()).sum();
    assert_eq!(measure_entry(&walk, Platform::Unix), Some(sum));
    assert_eq!(sum, 512 + 1024 + 512 + 2560);
}

#[test]
fn archives_are_laid_out_in_blocks() {
    let path = "b".repeat(600);
    let contents = vec![9u8; 700];
    let mut header = Header::new_gnu();
    header.set_size(700);
    let mut builder = Builder::new(Vec::new());
    builder.append_data(&mut header, &path, &contents[..]).unwrap();
    let bytes = builder.into_inner().unwrap();
    let walk = vec![Some(entry(600, false, 700))];
    let measured = measure_entry(&walk, Platform::Unix).unwrap() as usize;
    assert_eq!(bytes.len(), measured + 1024);
    assert_eq!(&bytes[512..1112], path.as_bytes());
    assert!(bytes[1112..1536].iter().all(|&b| b == 0));
    assert_eq!(&bytes[2048..2748], &contents[..]);
    assert!(bytes[2748..].iter().all(|&b| b == 0));
    assert_eq!(measured, 3072);
}
