use rusty_share::archive::{Platform, WalkEntry, WalkMetadata};
use rusty_share::form::{select_files, selected_files, FormError};
use rusty_share::page::Assets;
use rusty_share::response::{Payload, Response};
use rusty_share::server::{
    archive_response, call, content_type, handle_get, handle_post, list_directory, visible_files,
    Call, GetStep, Method, PathError, PostStep,
};
use rusty_share::share_entry::{get_dir_index, DirEntry, Metadata, ShareEntry};
use rusty_share::target::{relative_path, target_path};
use rusty_share::timestamp::Timestamp;
use url::form_urlencoded;

fn assets() -> Assets {
    Assets { style: "s".to_string(), player: "p".to_string() }
}

fn at(secs: i64) -> Timestamp {
    Timestamp::new(secs, 0).unwrap()
}

fn texts(names: &[&str]) -> Vec<String> {
    names.iter().map(|name| name.to_string()).collect()
}

fn entry(name: &str, is_dir: bool) -> ShareEntry {
    ShareEntry { name: name.as_bytes().to_vec(), is_dir, size: 0, date: at(0) }
}

fn submitted(entries: &[ShareEntry]) -> String {
    let mut form = form_urlencoded::Serializer::new(String::new());
    for entry in entries {
        form.append_pair("s", &entry.link());
    }
    form.finish()
}

fn bare_status(response: &Response) -> u16 {
    assert!(matches!(response.payload, Payload::Empty));
    assert_eq!(response.location, None);
    response.status
}

fn got(raw_path: &str) -> String {
    match call(Method::Get, b"/srv", raw_path) {
        Ok(Call::Get { target, path }) => {
            assert_eq!(target, target_path(b"/srv", &path));
            path
        }
        other => panic!("{:?}", other),
    }
}

fn archived(body: &[u8]) -> Vec<String> {
    match handle_post(body) {
        PostStep::Archive(files) => files,
        other => panic!("{:?}", other),
    }
}

#[test]
fn paths_are_decoded() {
    assert_eq!(got("/"), "/");
    assert_eq!(got("/a%20b/%C3%A4"), "/a b/\u{e4}");
    assert_eq!(got("/100%/%4"), "/100%/%4");
    assert_eq!(got("/%2e%2E"), "/..");
    assert_eq!(got("/a+b"), "/a+b");
    assert_eq!(got("%2Fa"), "/a");
}

#[test]
fn methods_are_told_apart() {
    match call(Method::Post, b"root", "/a%20b") {
        Ok(Call::Post { target, path }) => {
            assert_eq!(target, b"root/a b".to_vec());
            assert_eq!(path, "/a b");
        }
        other => panic!("{:?}", other),
    }
    match call(Method::Other, b".", "/a") {
        Ok(Call::Reply(response)) => assert_eq!(bare_status(&response), 405),
        other => panic!("{:?}", other),
    }
}

#[test]
fn paths_have_to_be_utf8() {
    assert_eq!(call(Method::Get, b".", "/%FF").unwrap_err(), PathError::NotUtf8);
    assert_eq!(call(Method::Other, b".", "%C3").unwrap_err(), PathError::NotUtf8);
}

#[test]
fn paths_have_to_be_absolute() {
    assert_eq!(call(Method::Get, b".", "").unwrap_err(), PathError::NotAbsolute);
    assert_eq!(call(Method::Post, b".", "a/").unwrap_err(), PathError::NotAbsolute);
    assert_eq!(call(Method::Other, b".", "*").unwrap_err(), PathError::NotAbsolute);
}

#[test]
fn unreadable_paths_fail() {
    match handle_get(None, "/a") {
        GetStep::Reply(response) => assert_eq!(bare_status(&response), 500),
        other => panic!("{:?}", other),
    }
}

#[test]
fn directories_end_in_a_slash() {
    match handle_get(Some(true), "/a") {
        GetStep::Reply(response) => {
            assert_eq!(response.status, 302);
            assert_eq!(response.location, Some("/a/".to_string()));
        }
        other => panic!("{:?}", other),
    }
    assert!(matches!(handle_get(Some(true), "/a/"), GetStep::ListDirectory));
    assert!(matches!(handle_get(Some(false), "/a"), GetStep::SendFile));
    assert!(matches!(handle_get(Some(false), "/a/"), GetStep::SendFile));
}

#[test]
fn redirects_lead_to_listings() {
    let location = match handle_get(Some(true), "/a b") {
        GetStep::Reply(response) => response.location.unwrap(),
        other => panic!("{:?}", other),
    };
    let path = got(&location);
    assert_eq!(path, "/a b/");
    assert!(matches!(handle_get(Some(true), &path), GetStep::ListDirectory));
}

#[test]
fn links_lead_to_entries() {
    for (name, is_dir) in [("a b", false), ("100%", true), ("\u{e4}?#&+", false)] {
        let entry = entry(name, is_dir);
        let raw_path = format!("/some%20dir/{}", entry.link());
        assert_eq!(got(&raw_path), format!("/some dir/{}", entry.display_name()));
    }
}

#[test]
fn links_to_names_with_escapes_lead_elsewhere() {
    assert_eq!(got(&format!("/{}", entry("%41", false).link())), "/A");
}

#[test]
fn listings_are_answers() {
    let found = vec![
        Some(DirEntry {
            name: b"f".to_vec(),
            metadata: Some(Metadata { is_dir: false, len: 12, modified: Some(at(0)) }),
        }),
        Some(DirEntry { name: b".h".to_vec(), metadata: None }),
        None,
    ];
    let response = list_directory(Some(found), &at(0), &assets());
    assert_eq!(response.status, 200);
    assert_eq!(response.content_type, Some("text/html; charset=utf-8".to_string()));
    match response.payload {
        Payload::Page(page) => {
            assert_eq!(response.content_length, Some(page.len() as u64));
            assert!(page.contains(
                "</tr><tr><td><input name=\"s\" value=\"f\" type=\"checkbox\"></td><td>\
                 <a href=\"f\">f</a></td><td>12 B</td><td>now</td></tr></table>"
            ));
        }
        other => panic!("{:?}", other),
    }
    assert_eq!(bare_status(&list_directory(None, &at(0), &assets())), 500);
}

#[test]
fn types_are_sniffed_off_the_start() {
    let buf = *b"%PDF-1.5\0\0\0\0\0\0\0\0";
    assert_eq!(content_type(&buf, 8), Some("application/pdf".to_string()));
    assert_eq!(content_type(&buf, 5), Some("application/pdf".to_string()));
    assert_eq!(content_type(&buf, 4), None);
    assert_eq!(content_type(&buf, 0), None);
    assert_eq!(content_type(b"GIF89a.", 7), Some("image/gif".to_string()));
    assert_eq!(content_type(b"hello", 5), None);
}

#[test]
fn forms_select_files() {
    assert_eq!(archived(b"s=a&s=b"), texts(&["a", "b"]));
    assert_eq!(archived(b"s=a%2520b"), texts(&["a b"]));
    assert_eq!(archived(b"s=a+b&&s="), texts(&["a b", ""]));
    assert_eq!(archived(b"s"), texts(&[""]));
    assert_eq!(archived(b"s=x=y"), texts(&["x=y"]));
    assert_eq!(archived(b"%73=x"), texts(&["x"]));
}

#[test]
fn empty_forms_select_the_directory() {
    assert!(matches!(handle_post(b""), PostStep::ReadDirectory));
    assert!(matches!(handle_post(b"&&"), PostStep::ReadDirectory));
}

#[test]
fn unknown_fields_are_bad_requests() {
    for body in [&b"t=a"[..], b"s=a&S=b", b"=a", b"s=a&t"] {
        match handle_post(body) {
            PostStep::Reply(response) => assert_eq!(bare_status(&response), 400),
            other => panic!("{:?}", other),
        }
        assert_eq!(selected_files(body).unwrap_err(), FormError::UnknownField);
    }
}

#[test]
fn undecodable_values_are_given_up() {
    assert!(matches!(handle_post(b"s=%25FF"), PostStep::Undecodable));
    assert_eq!(selected_files(b"s=%25FF&t=a").unwrap_err(), FormError::NotUtf8);
    assert_eq!(selected_files(b"t=a&s=%25FF").unwrap_err(), FormError::UnknownField);
    assert_eq!(selected_files(b"s=%FF"), Ok(texts(&["\u{fffd}"])));
}

#[test]
fn fields_are_decoded_once_more() {
    let fields = vec![("s".to_string(), "a%20b".to_string()), ("s".to_string(), "c".to_string())];
    assert_eq!(select_files(&fields), Ok(texts(&["a b", "c"])));
    let fields = vec![("s ".to_string(), "a".to_string())];
    assert_eq!(select_files(&fields), Err(FormError::UnknownField));
    let fields = vec![("s".to_string(), "%ff".to_string())];
    assert_eq!(select_files(&fields), Err(FormError::NotUtf8));
}

#[test]
fn ticked_entries_are_selected() {
    let entries = vec![
        entry("a b&c=d", false),
        entry("100%", true),
        entry("\u{e4}+*-._~\"<>'", false),
    ];
    let names: Vec<String> = entries.iter().map(|entry| entry.display_name()).collect();
    assert_eq!(archived(submitted(&entries).as_bytes()), names);
    assert!(matches!(
        handle_post(submitted(&[]).as_bytes()),
        PostStep::ReadDirectory
    ));
}

#[test]
fn visible_names_go_into_the_archive() {
    let names = vec![b"b".to_vec(), b".h\xff".to_vec(), "\u{e4}".as_bytes().to_vec()];
    assert_eq!(visible_files(&Some(names)), Some(texts(&["b", "\u{e4}"])));
    assert_eq!(visible_files(&Some(Vec::new())), Some(Vec::new()));
    let names = vec![b"a".to_vec(), b"\xff".to_vec(), b"b".to_vec()];
    assert_eq!(visible_files(&Some(names)), None);
    assert_eq!(visible_files(&None), None);
}

#[test]
fn visible_names_are_listed() {
    let names = [&b"b"[..], b".h", b"a"];
    let found = names
        .iter()
        .map(|name| {
            let metadata = Metadata { is_dir: false, len: 0, modified: Some(at(0)) };
            Some(DirEntry { name: name.to_vec(), metadata: Some(metadata) })
        })
        .collect();
    let index = get_dir_index(Some(found)).unwrap();
    let mut listed: Vec<String> = index.iter().map(|entry| entry.display_name()).collect();
    let names = names.iter().map(|name| name.to_vec()).collect();
    let mut visible = visible_files(&Some(names)).unwrap();
    listed.sort();
    visible.sort();
    assert_eq!(listed, visible);
}

#[test]
fn archives_are_answers() {
    let walk = vec![
        Some(WalkEntry {
            metadata: Some(WalkMetadata { is_dir: false, len: 600 }),
            relative_path: Some(b"a".to_vec()),
        }),
        None,
    ];
    let response =
        archive_response("/x/", &texts(&["a", "b"]), &vec![walk, Vec::new()], Platform::Unix)
            .unwrap();
    assert_eq!(response.status, 200);
    assert_eq!(response.content_type, Some("application/x-tar".to_string()));
    assert_eq!(response.content_length, Some(512 + 1024 + 1024));
    assert_eq!(
        response.content_disposition,
        Some(b"attachment; filename*=ISO-8859-1''x.tar".to_vec())
    );
    assert!(matches!(response.payload, Payload::Archive));
}

#[test]
fn endless_archives_are_no_answers() {
    let walk = vec![Some(WalkEntry {
        metadata: Some(WalkMetadata { is_dir: false, len: u64::MAX }),
        relative_path: Some(b"a".to_vec()),
    })];
    let files = texts(&["a"]);
    assert!(archive_response("/", &files, &vec![walk], Platform::Unix).is_none());
}

#[test]
fn paths_lose_what_leads_nowhere() {
    assert_eq!(relative_path("/"), "");
    assert_eq!(relative_path("/a/b/"), "a/b");
    assert_eq!(relative_path("//etc"), "etc");
    assert_eq!(relative_path("///"), "");
    assert_eq!(relative_path("/./a/./b/."), "a/./b");
    assert_eq!(relative_path("/."), "");
    assert_eq!(relative_path("/.a/b."), ".a/b.");
    assert_eq!(relative_path("/../a/.."), "../a/..");
    assert_eq!(relative_path("/\u{e4}/"), "\u{e4}");
}

#[test]
fn targets_lie_below_the_root() {
    assert_eq!(target_path(b".", "/"), b"./".to_vec());
    assert_eq!(target_path(b".", "/a/"), b"./a".to_vec());
    assert_eq!(target_path(b".", "/a/b/."), b"./a/b".to_vec());
    assert_eq!(target_path(b"/srv", "//etc"), b"/srv/etc".to_vec());
    assert_eq!(target_path(b"/srv/", "//etc"), b"/srv/etc".to_vec());
    assert_eq!(target_path(b"", "//etc"), b"etc".to_vec());
    assert_eq!(target_path(b"/", "/etc"), b"/etc".to_vec());
    assert_eq!(target_path(b"\xff", "/\u{e4}"), b"\xff/\xc3\xa4".to_vec());
}

#[test]
fn targets_are_joined_paths() {
    let mut paths = vec!["/".to_string()];
    for _ in 0..5 {
        for path in paths.clone() {
            for next in ["/", ".", "a"] {
                paths.push(format!("{}{}", path, next));
            }
        }
        paths.sort();
        paths.dedup();
    }
    for path in &paths {
        let rest = std::path::Path::new(path).strip_prefix("/").unwrap();
        assert_eq!(relative_path(path), rest.to_str().unwrap());
        for root in ["", ".", "/", "/srv", "/srv/", "a//b"] {
            let found = String::from_utf8(target_path(root.as_bytes(), path)).unwrap();
            let joined = std::path::Path::new(root).join(rest);
            assert_eq!(found, joined.to_str().unwrap());
            assert!(std::path::Path::new(&found).starts_with(root));
            assert_eq!(found.as_bytes(), target_path(root.as_bytes(), &format!("{}/", path)));
        }
    }
}
