use rusty_share::share_entry::{
    get_dir_index, get_share_entry, is_hidden, DirEntry, EntryError, Metadata, ShareEntry,
};
use rusty_share::timestamp::{Timestamp, MAX_SECS, NANOS_PER_SEC};

fn at(secs: i64) -> Timestamp {
    Timestamp::new(secs, 0).unwrap()
}

fn found(name: &[u8], is_dir: bool, len: u64, secs: i64) -> Option<DirEntry> {
    Some(DirEntry {
        name: name.to_vec(),
        metadata: Some(Metadata { is_dir, len, modified: Some(at(secs)) }),
    })
}

fn listed(name: &[u8], is_dir: bool, size: u64) -> ShareEntry {
    ShareEntry { name: name.to_vec(), is_dir, size, date: at(0) }
}

fn sized(size: u64) -> String {
    listed(b"f", false, size).size()
}

fn seen(secs: i64, nanos: u32, now_secs: i64, now_nanos: u32) -> String {
    let date = Timestamp::new(secs, nanos).unwrap();
    date.relative_to(&Timestamp::new(now_secs, now_nanos).unwrap())
}

#[test]
fn names_with_a_dot_are_hidden() {
    assert!(is_hidden(b".a"));
    assert!(is_hidden(b"."));
    assert!(!is_hidden(b"a."));
    assert!(!is_hidden(b""));
    assert!(!is_hidden(b"\xff"));
}

#[test]
fn entries_are_listed() {
    let e = get_share_entry(found(b"a", false, 7, 12).unwrap()).unwrap().unwrap();
    assert_eq!(e.name, b"a".to_vec());
    assert!(!e.is_dir);
    assert_eq!(e.size, 7);
    assert_eq!(e.date.parts(), (12, 0));
}

#[test]
fn hidden_entries_are_not_listed() {
    assert!(get_share_entry(found(b".a", false, 7, 12).unwrap()).unwrap().is_none());
}

#[test]
fn entries_without_metadata_are_errors() {
    let e = DirEntry { name: b".a".to_vec(), metadata: None };
    assert_eq!(get_share_entry(e).unwrap_err(), EntryError::Metadata);
}

#[test]
fn entries_without_a_date_are_errors() {
    let metadata = Metadata { is_dir: true, len: 0, modified: None };
    let e = DirEntry { name: b".a".to_vec(), metadata: Some(metadata) };
    assert_eq!(get_share_entry(e).unwrap_err(), EntryError::Modified);
}

#[test]
fn unreadable_directories_have_no_index() {
    assert!(get_dir_index(None).is_none());
    assert!(get_dir_index(Some(Vec::new())).unwrap().is_empty());
}

#[test]
fn directories_come_first_and_old_before_new() {
    let index = get_dir_index(Some(vec![
        found(b"new", false, 1, 30),
        found(b"dir2", true, 1, 50),
        None,
        found(b"old", false, 1, 10),
        found(b".hidden", false, 1, 5),
        found(b"before", false, 1, -10),
        Some(DirEntry { name: b"broken".to_vec(), metadata: None }),
        found(b"dir1", true, 1, 40),
    ]))
    .unwrap();
    let names: Vec<&[u8]> = index.iter().map(|e| &e.name[..]).collect();
    assert_eq!(names, vec![&b"dir1"[..], b"dir2", b"before", b"old", b"new"]);
}

#[test]
fn nanoseconds_count_in_the_order() {
    let entry = |name: &[u8], nanos: u32| {
        let modified = Timestamp::new(-1, nanos);
        let metadata = Metadata { is_dir: false, len: 0, modified };
        Some(DirEntry { name: name.to_vec(), metadata: Some(metadata) })
    };
    let index = get_dir_index(Some(vec![entry(b"b", 9), entry(b"c", 10), entry(b"a", 8)])).unwrap();
    let names: Vec<&[u8]> = index.iter().map(|e| &e.name[..]).collect();
    assert_eq!(names, vec![&b"a"[..], b"b", b"c"]);
}

#[test]
fn links_are_encoded() {
    assert_eq!(listed(b"a b", false, 0).link(), "a%20b");
    assert_eq!(listed(b"a b", true, 0).link(), "a%20b/");
    assert_eq!(listed("\u{e4}".as_bytes(), false, 0).link(), "%C3%A4");
    assert_eq!(listed(b"\xff\x00\x7f", false, 0).link(), "%FF%00%7F");
    assert_eq!(listed(b"\"#<>`?{}", false, 0).link(), "%22%23%3C%3E%60%3F%7B%7D");
    assert_eq!(listed(b"100%&'+~", false, 0).link(), "100%&'+~");
}

#[test]
fn names_are_shown_as_text() {
    assert_eq!(listed(b"a b", false, 0).display_name(), "a b");
    assert_eq!(listed(b"a b", true, 0).display_name(), "a b/");
    assert_eq!(listed("\u{e4}".as_bytes(), false, 0).display_name(), "\u{e4}");
    assert_eq!(listed(b"a\xffb", false, 0).display_name(), "a\u{fffd}b");
}

#[test]
fn directories_have_no_size() {
    assert_eq!(listed(b"d", true, 4096).size(), "");
}

#[test]
fn sizes_are_shown_with_units() {
    assert_eq!(sized(0), "0 B");
    assert_eq!(sized(215), "215 B");
    assert_eq!(sized(999), "999 B");
    assert_eq!(sized(1000), "1.0 KB");
    assert_eq!(sized(1536), "1.5 KB");
    assert_eq!(sized(1_000_000), "1000.0 KB");
    assert_eq!(sized(1_500_000), "1.5 MB");
    assert_eq!(sized(518_000_000_000), "518.0 GB");
    assert_eq!(sized(609_000_000_000_000_000), "609.0 PB");
    assert_eq!(sized(u64::MAX), "18.4 EB");
}

#[test]
fn timestamps_have_bounds() {
    assert!(Timestamp::new(0, NANOS_PER_SEC).is_none());
    assert!(Timestamp::new(MAX_SECS + 1, 0).is_none());
    assert!(Timestamp::new(-MAX_SECS - 1, 0).is_none());
    assert_eq!(Timestamp::new(-MAX_SECS, 5).unwrap().parts(), (-MAX_SECS, 5));
    assert_eq!(
        Timestamp::new(MAX_SECS, NANOS_PER_SEC - 1).unwrap().parts(),
        (MAX_SECS, NANOS_PER_SEC - 1)
    );
}

#[test]
fn dates_are_shown_in_words() {
    assert_eq!(seen(0, 0, 3 * 86400, 0), "3 days ago");
    assert_eq!(seen(3 * 86400, 0, 0, 0), "in 3 days");
    assert_eq!(seen(5, 0, 5, 0), "now");
    assert_eq!(seen(0, 500_000_000, 11, 200_000_000), "now");
    assert_eq!(seen(0, 500_000_000, 11, 500_000_000), "11 seconds ago");
    assert_eq!(listed(b"f", false, 0).date_string(&at(2 * 3600)), "2 hours ago");
}

#[test]
fn distant_dates_are_shown() {
    assert_eq!(seen(-MAX_SECS, 0, MAX_SECS, 1), "292471208 years ago");
    assert_eq!(seen(MAX_SECS, 1, -MAX_SECS, 0), "in 292471208 years");
}

#[test]
fn links_are_plain() {
    let name: Vec<u8> = (0..=255u8).collect();
    let link = listed(&name, false, 0).link();
    assert!(link.bytes().all(|b| b > 0x20 && b < 0x7f && b != b'"' && b != b'<' && b != b'>'));
}

fn scaled(text: &str) -> (u32, u128) {
    let (number, unit) = text.split_once(' ').unwrap();
    let (whole, tenth) = number.split_once('.').unwrap();
    assert_eq!(tenth.len(), 1);
    let exp = "KMGTPE".find(&unit[..1]).unwrap() as u32 + 1;
    assert_eq!(&unit[1..], "B");
    (exp, whole.parse::<u128>().unwrap() * 10 + tenth.parse::<u128>().unwrap())
}

#[test]
fn sizes_are_near_the_truth() {
    let mut sizes: Vec<u64> = Vec::new();
    let mut seed = 1u64;
    for bits in 10..64 {
        for _ in 0..50 {
            seed = seed.wrapping_mul(6364136223846793005).wrapping_add(1442695040888963407);
            sizes.push((1u64 << bits) | (seed >> (64 - bits)));
        }
        sizes.push(1u64 << bits);
        sizes.push((1u64 << bits) - 1);
    }
    for exp in 1..7 {
        for offset in 0..3 {
            sizes.push(1000u64.pow(exp) + offset);
            sizes.push(1000u64.pow(exp) * 3 / 2 + offset);
        }
    }
    sizes.push(u64::MAX);
    for size in sizes.into_iter().filter(|&size| size >= 1000) {
        let (exp, tenths) = scaled(&sized(size));
        let size = size as u128;
        let unit = 1000u128.pow(exp);
        let error = 2 * (tenths * unit).abs_diff(10 * size);
        assert!(error <= unit + size / 1_000_000_000, "{}", size);
        assert!(exp == 1 || size * 1_000_000 >= 1024u128.pow(exp) * 999_999, "{}", size);
        assert!(exp == 6 || size * 1_000_000 <= 1024u128.pow(exp + 1) * 1_000_001, "{}", size);
    }
}
