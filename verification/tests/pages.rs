use rusty_share::disposition::content_disposition;
use rusty_share::page::{
    index, index_with_texts, login, register, render_index, render_index_with_texts, shares,
    Assets, Share,
};
use rusty_share::response::{
    archive, bad_request, found, internal_server_error, method_not_allowed, Payload, Response,
};
use rusty_share::share_entry::ShareEntry;
use rusty_share::timestamp::Timestamp;

fn assets() -> Assets {
    Assets { style: "p > a {}".to_string(), player: "1 < 2;".to_string() }
}

fn at(secs: i64) -> Timestamp {
    Timestamp::new(secs, 0).unwrap()
}

fn entries() -> Vec<ShareEntry> {
    vec![
        ShareEntry { name: b"R&B \"mix\"".to_vec(), is_dir: true, size: 4096, date: at(0) },
        ShareEntry { name: b"a<b.mp3".to_vec(), is_dir: false, size: 1500, date: at(86400) },
    ]
}

fn body(response: &Response) -> &str {
    match &response.payload {
        Payload::Page(page) => {
            assert_eq!(response.status, 200);
            assert_eq!(response.content_type, Some("text/html; charset=utf-8".to_string()));
            assert_eq!(response.content_length, Some(page.len() as u64));
            assert_eq!(response.location, None);
            assert_eq!(response.content_disposition, None);
            page
        }
        _ => panic!("no page"),
    }
}

const HEAD: &str = "<!DOCTYPE html><html><head><meta name=\"viewport\" \
                    content=\"width=device-width, initial-scale=1\">";

const PLAYER: &str = "<div id=\"player-section\" class=\"hidden\"><p id=\"song-title\"></p><div>\
                      <audio id=\"player\" preload=\"auto\" controls></audio></div><div>\
                      <button id=\"shuffle\" class=\"media-control\" type=\"button\">\u{1f500}\
                      </button><button id=\"prev\" class=\"media-control\" type=\"button\">\u{23ee}\
                      </button><button id=\"next\" class=\"media-control\" type=\"button\">\u{23ed}\
                      </button></div></div>";

#[test]
fn listings_are_rendered() {
    let expected = "<!DOCTYPE html><html><head><script>1 < 2;</script><style>p > a {}</style></head>\
        <body><form method=\"POST\"><table class=\"view\"><colgroup><col class=\"selected\">\
        <col class=\"name\"><col class=\"size\"><col class=\"date\"></colgroup><tr class=\"header\">\
        <th></th><th>Name</th><th>Size</th><th>Last modified</th></tr><tr><td></td><td>\
        <a href=\"..\">..</a></td><td></td><td></td></tr>\
        <tr><td><input name=\"s\" value=\"R&B%20%22mix%22/\" type=\"checkbox\"></td><td>\
        <a href=\"R&B%20%22mix%22/\">R&amp;B &quot;mix&quot;/</a></td><td></td><td>2 days ago</td>\
        </tr><tr><td><input name=\"s\" value=\"a%3Cb.mp3\" type=\"checkbox\"></td><td>\
        <a href=\"a%3Cb.mp3\">a&lt;b.mp3</a></td><td>1.5 KB</td><td>a day ago</td></tr>\
        </table><input type=\"submit\" value=\"Download\"></form></body></html>";
    assert_eq!(render_index(&entries(), &at(2 * 86400), &assets()), expected);
    let sizes = vec![String::new(), "1.5 KB".to_string()];
    let dates = vec!["2 days ago".to_string(), "a day ago".to_string()];
    assert_eq!(render_index_with_texts(&entries(), &sizes, &dates, &assets()), expected);
}

#[test]
fn rows_follow_each_other() {
    let now = at(0);
    let all = render_index(&entries(), &now, &assets());
    let first = render_index(&entries()[..1].iter().map(copy).collect(), &now, &assets());
    let second = render_index(&entries()[1..].iter().map(copy).collect(), &now, &assets());
    let none = render_index(&Vec::new(), &now, &assets());
    let split = none.find("</table>").unwrap();
    let head = &none[..split];
    let tail = &none[split..];
    let rows = |page: &str| page[split..page.len() - tail.len()].to_string();
    assert_eq!(all, format!("{}{}{}{}", head, rows(&first), rows(&second), tail));
}

fn copy(entry: &ShareEntry) -> ShareEntry {
    ShareEntry {
        name: entry.name.clone(),
        is_dir: entry.is_dir,
        size: entry.size,
        date: entry.date,
    }
}

fn expected_index(user: &str) -> String {
    format!(
        "{}<title>Index of my &amp; yours/sub/\u{fffd}</title><style>p > a {{}}</style></head><body>\
         <form method=\"POST\"><div class=\"view\"><p>{}</p><div class=\"entry header\"><div></div>\
         <div>Name</div><div>Size</div><div>Last modified</div></div><div class=\"entry\"><div></div>\
         <div><a href=\"..\">..</a></div><div></div><div></div></div>\
         <div class=\"entry\"><input name=\"s\" value=\"R&amp;B%20%22mix%22/\" type=\"checkbox\">\
         <a href=\"R&amp;B%20%22mix%22/\">R&amp;B &quot;mix&quot;/</a><div></div>\
         <div>2 days ago</div></div>\
         <div class=\"entry\"><input name=\"s\" value=\"a%3Cb.mp3\" type=\"checkbox\">\
         <a href=\"a%3Cb.mp3\">a&lt;b.mp3</a><div>1.5 KB</div><div>a day ago</div></div>\
         </div><input type=\"submit\" value=\"Download\"></form>{}<script>1 < 2;</script></body></html>",
        HEAD, user, PLAYER
    )
}

#[test]
fn indexes_are_pages() {
    let now = at(2 * 86400);
    let path = b"sub/\xff";
    let page = index("my & yours", path, &entries(), None, &now, &assets());
    assert_eq!(body(&page), expected_index(""));
    assert_eq!(page.set_cookie, None);
    let page = index("my & yours", path, &entries(), Some(String::new()), &now, &assets());
    assert_eq!(body(&page), expected_index(""));
    let sizes = vec![String::new(), "1.5 KB".to_string()];
    let dates = vec!["2 days ago".to_string(), "a day ago".to_string()];
    let page =
        index_with_texts("my & yours", path, &entries(), &sizes, &dates, None, &assets());
    assert_eq!(body(&page), expected_index(""));
}

#[test]
fn indexes_name_the_user() {
    let now = at(2 * 86400);
    let user = Some("<joe>".to_string());
    let page = index("my & yours", b"sub/\xff", &entries(), user, &now, &assets());
    assert_eq!(
        body(&page),
        expected_index("Logged in as &lt;joe&gt; <a href=\"/login\">login</a>")
    );
}

#[test]
fn shares_are_listed() {
    let list = vec![
        Share { name: "A&B".to_string(), link: "/A&B/".to_string() },
        Share { name: "c".to_string(), link: "/c/".to_string() },
    ];
    let expected = |user: &str| {
        format!(
            "{}<title>Browse shares</title><style>p > a {{}}</style></head><body>\
             <div class=\"view\"><p>{}</p><div class=\"entry header share\"><div>Name</div></div>\
             <div class=\"entry share\"><a href=\"/A&amp;B/\">A&amp;B</a></div>\
             <div class=\"entry share\"><a href=\"/c/\">c</a></div></div></body></html>",
            HEAD, user
        )
    };
    assert_eq!(list[0].name(), "A&B");
    assert_eq!(list[0].link(), "/A&B/");
    assert_eq!(body(&shares(&list, None, &assets())), expected(""));
    assert_eq!(
        body(&shares(&list, Some("joe".to_string()), &assets())),
        expected("Logged in as joe <a href=\"/login\">login</a>")
    );
}

fn expected_login(message: &str) -> String {
    format!(
        "{}<title>Login</title><style>p > a {{}}</style></head><body><div class=\"login-page\">\
         <form method=\"POST\" class=\"form\">\
         <input type=\"text\" name=\"user\" placeholder=\"username\" autofocus>\
         <input type=\"password\" name=\"pass\" placeholder=\"password\">\
         <button>Log in</button>{}</form></div></body></html>",
        HEAD, message
    )
}

#[test]
fn login_pages_take_the_session_away_with_a_message() {
    let page = login(None, &assets());
    assert_eq!(body(&page), expected_login(""));
    assert_eq!(page.set_cookie, None);
    let page = login(Some("a \"bad\" <try> & more"), &assets());
    assert_eq!(
        body(&page),
        expected_login("<p class=\"message\">a &quot;bad&quot; &lt;try&gt; &amp; more</p>")
    );
    assert_eq!(page.set_cookie, Some("sid=".to_string()));
}

#[test]
fn users_can_register() {
    let expected = |message: &str| {
        format!(
            "{}<title>Register</title><style>p > a {{}}</style></head><body>\
             <div class=\"register-page\"><form method=\"POST\" class=\"form\">\
             <input type=\"text\" name=\"user\" placeholder=\"username\" autofocus>\
             <input type=\"password\" name=\"pass\" placeholder=\"password\">\
             <input type=\"password\" name=\"confirm_pass\" placeholder=\"confirm password\">\
             <button>Register</button>{}</form></div></body></html>",
            HEAD, message
        )
    };
    let page = register(None, &assets());
    assert_eq!(body(&page), expected(""));
    assert_eq!(page.set_cookie, None);
    let page = register(Some("no"), &assets());
    assert_eq!(body(&page), expected("<p class=\"message\">no</p>"));
    assert_eq!(page.set_cookie, None);
}

#[test]
fn bare_answers_have_a_status_only() {
    for (response, status) in [
        (bad_request(), 400),
        (method_not_allowed(), 405),
        (internal_server_error(), 500),
    ] {
        assert_eq!(response.status, status);
        assert_eq!(response.content_type, None);
        assert_eq!(response.content_length, None);
        assert_eq!(response.location, None);
        assert_eq!(response.content_disposition, None);
        assert_eq!(response.set_cookie, None);
        assert!(matches!(response.payload, Payload::Empty));
    }
}

#[test]
fn other_answers_have_headers() {
    let response = found("/a/".to_string());
    assert_eq!(response.status, 302);
    assert_eq!(response.location, Some("/a/".to_string()));
    assert!(matches!(response.payload, Payload::Empty));
    let response = archive(b"a b.tar", 2048);
    assert_eq!(response.status, 200);
    assert_eq!(response.content_type, Some("application/x-tar".to_string()));
    assert_eq!(response.content_length, Some(2048));
    assert_eq!(
        response.content_disposition,
        Some(b"attachment; filename*=ISO-8859-1''a%20b.tar".to_vec())
    );
    assert!(matches!(response.payload, Payload::Archive));
}

#[test]
fn downloads_are_named() {
    let value = |name: &[u8]| String::from_utf8(content_disposition(name)).unwrap();
    assert_eq!(value(b""), "attachment; filename*=ISO-8859-1''");
    assert_eq!(
        value("\u{e4}-x.tar".as_bytes()),
        "attachment; filename*=ISO-8859-1''%C3%A4%2Dx.tar"
    );
    assert_eq!(
        value(b"\x00 \"%'()*,-/:;<>?[\\]{}\x7f\xff"),
        "attachment; filename*=ISO-8859-1''%00%20%22%25%27%28%29%2A%2C%2D%2F%3A%3B%3C%3E%3F%5B%5C\
         %5D%7B%7D%7F%FF"
    );
    let plain = "!#$&+.0123456789=@ABCXYZ^_`abcxyz|~";
    assert_eq!(
        value(plain.as_bytes()),
        format!("attachment; filename*=ISO-8859-1''{}", plain)
    );
}

#[test]
fn names_of_downloads_can_be_read_back() {
    let name: Vec<u8> = (0..=255u8).collect();
    let value = content_disposition(&name);
    let start = b"attachment; filename*=ISO-8859-1''".len();
    let decoded: Vec<u8> = url::percent_encoding::percent_decode(&value[start..]).collect();
    assert_eq!(decoded, name);
}

#[test]
fn messages_stay_apart() {
    let messages = ["<", "&lt;", "&amp;lt;", "\"", "&quot;", ">", "&", "a", ""];
    let pages: Vec<String> = messages
        .iter()
        .map(|message| body(&register(Some(message), &assets())).to_string())
        .collect();
    for i in 0..pages.len() {
        for j in 0..i {
            assert_ne!(pages[i], pages[j]);
        }
    }
}
