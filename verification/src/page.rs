//! The web pages.

use cookie::Cookie;
use vstd::prelude::*;

use crate::html;
use crate::response;
use crate::response::Response;
use crate::share_entry;
use crate::share_entry::{ShareEntry, ShareEntryView};
use crate::text;
use crate::timestamp;
use crate::timestamp::Timestamp;

verus! {

/// The start of a page, up to its title.
pub const HEAD: &'static str = "<!DOCTYPE html><html><head>\
    <meta name=\"viewport\" content=\"width=device-width, initial-scale=1\"><title>";

/// The rows of an index above those of the entries.
pub const INDEX_HEADER: &'static str = "</p>\
    <div class=\"entry header\"><div></div><div>Name</div><div>Size</div><div>Last modified</div></div>\
    <div class=\"entry\"><div></div><div><a href=\"..\">..</a></div><div></div><div></div></div>";

/// The end of an index, up to the script of the player.
pub const INDEX_FOOTER: &'static str = "</div><input type=\"submit\" value=\"Download\"></form>\
    <div id=\"player-section\" class=\"hidden\"><p id=\"song-title\"></p>\
    <div><audio id=\"player\" preload=\"auto\" controls></audio></div>\
    <div><button id=\"shuffle\" class=\"media-control\" type=\"button\">🔀</button>\
    <button id=\"prev\" class=\"media-control\" type=\"button\">⏮</button>\
    <button id=\"next\" class=\"media-control\" type=\"button\">⏭</button>\
    </div></div><script>";

/// The row of the page of shares above those of the shares.
pub const SHARES_HEADER: &'static str = "</p><div class=\"entry header share\"><div>Name</div></div>";

/// The form of the login page, up to the message.
pub const LOGIN_FORM: &'static str = "<body><div class=\"login-page\">\
    <form method=\"POST\" class=\"form\">\
    <input type=\"text\" name=\"user\" placeholder=\"username\" autofocus>\
    <input type=\"password\" name=\"pass\" placeholder=\"password\">\
    <button>Log in</button>";

/// The form of the page on which users register, up to the message.
pub const REGISTER_FORM: &'static str = "<body><div class=\"register-page\">\
    <form method=\"POST\" class=\"form\">\
    <input type=\"text\" name=\"user\" placeholder=\"username\" autofocus>\
    <input type=\"password\" name=\"pass\" placeholder=\"password\">\
    <input type=\"password\" name=\"confirm_pass\" placeholder=\"confirm password\">\
    <button>Register</button>";

/// The rows of a listing above those of the entries.
pub const LISTING_HEADER: &'static str = "</style></head><body><form method=\"POST\">\
    <table class=\"view\">\
    <colgroup><col class=\"selected\"><col class=\"name\"><col class=\"size\"><col class=\"date\">\
    </colgroup>\
    <tr class=\"header\"><th></th><th>Name</th><th>Size</th><th>Last modified</th></tr>\
    <tr><td></td><td><a href=\"..\">..</a></td><td></td><td></td></tr>";

/// The end of a listing.
pub const LISTING_FOOTER: &'static str = "</table><input type=\"submit\" value=\"Download\"></form></body></html>";

/// The style sheet and the script that the pages carry.
#[derive(Debug)]
pub struct Assets {
    pub style: String,
    pub player: String,
}

/// A share as the page of shares shows it.
#[derive(Debug)]
pub struct Share {
    pub name: String,
    pub link: String,
}

impl Share {
    /// The name of the share.
    pub fn name(&self) -> (name: &str)
        ensures
            name@ == self.name@,
    {
        self.name.as_str()
    }

    /// The link to the share.
    pub fn link(&self) -> (link: &str)
        ensures
            link@ == self.link@,
    {
        self.link.as_str()
    }
}

/// What a page says of the user: something only where there is one with a name.
pub open spec fn user_markup(user_name: Option<Seq<char>>) -> Seq<char> {
    match user_name {
        Some(user) => if user.len() > 0 {
            "Logged in as "@ + html::escaped(user) + " "@ + "<a href=\"/login\">login</a>"@
        } else {
            Seq::empty()
        },
        None => Seq::empty(),
    }
}

/// Whether the texts show the sizes of the entries, one by one.
pub open spec fn are_sizes(entries: Seq<ShareEntryView>, sizes: Seq<Seq<char>>) -> bool {
    &&& sizes.len() == entries.len()
    &&& forall|i: int| 0 <= i < entries.len() ==> entries[i].is_size(#[trigger] sizes[i])
}

/// The texts that show when entries were last modified.
pub open spec fn date_texts(entries: Seq<ShareEntryView>, now: int) -> Seq<Seq<char>> {
    entries.map_values(|e: ShareEntryView| timestamp::span_text(e.date - now))
}

/// The row of an entry in the index of a share, with the texts for its size and its date.
pub open spec fn row_markup(entry: ShareEntryView, size: Seq<char>, date: Seq<char>) -> Seq<char> {
    "<div class=\"entry\"><input name=\"s\" value=\""@ + html::escaped(entry.link())
        + "\" type=\"checkbox\"><a href=\""@ + html::escaped(entry.link()) + "\">"@
        + html::escaped(entry.display_name()) + "</a><div>"@ + size + "</div><div>"@ + date
        + "</div></div>"@
}

/// The rows of entries in the index of a share.
pub open spec fn rows_markup(
    entries: Seq<ShareEntryView>,
    sizes: Seq<Seq<char>>,
    dates: Seq<Seq<char>>,
) -> Seq<char>
    decreases entries.len(),
{
    if entries.len() == 0 {
        Seq::empty()
    } else {
        rows_markup(entries.drop_last(), sizes.drop_last(), dates.drop_last()) + row_markup(
            entries.last(),
            sizes.last(),
            dates.last(),
        )
    }
}

fn user_line(user_name: &Option<String>) -> (markup: String)
    ensures
        markup@ == user_markup(text::text_view(*user_name)),
{
    let mut out = String::new();
    if let Some(user) = user_name {
        if !user.as_str().is_empty() {
            out = "Logged in as ".to_owned();
            out.append(html::escape(user.as_str()).as_str());
            out.append(" ");
            out.append("<a href=\"/login\">login</a>");
        }
    }
    out
}

fn row(entry: &ShareEntry, size: &str, date: &str) -> (markup: String)
    ensures
        markup@ == row_markup(entry@, size@, date@),
{
    let link = html::escape(entry.link().as_str());
    let mut out = "<div class=\"entry\"><input name=\"s\" value=\"".to_owned();
    out.append(link.as_str());
    out.append("\" type=\"checkbox\"><a href=\"");
    out.append(link.as_str());
    out.append("\">");
    out.append(html::escape(entry.display_name().as_str()).as_str());
    out.append("</a><div>");
    out.append(size);
    out.append("</div><div>");
    out.append(date);
    out.append("</div></div>");
    out
}

fn rows(entries: &Vec<ShareEntry>, sizes: &Vec<String>, dates: &Vec<String>) -> (markup: String)
    requires
        sizes@.len() == entries@.len(),
        dates@.len() == entries@.len(),
    ensures
        markup@ == rows_markup(
            share_entry::entry_views(entries@),
            text::text_views(sizes@),
            text::text_views(dates@),
        ),
{
    let ghost views = share_entry::entry_views(entries@);
    let ghost size_views = text::text_views(sizes@);
    let ghost date_views = text::text_views(dates@);
    let mut out = String::new();
    let mut i: usize = 0;
    while i < entries.len()
        invariant
            i <= entries.len(),
            sizes@.len() == entries@.len(),
            dates@.len() == entries@.len(),
            views == share_entry::entry_views(entries@),
            size_views == text::text_views(sizes@),
            date_views == text::text_views(dates@),
            out@ == rows_markup(
                views.take(i as int),
                size_views.take(i as int),
                date_views.take(i as int),
            ),
        decreases entries.len() - i,
    {
        out.append(row(&entries[i], sizes[i].as_str(), dates[i].as_str()).as_str());
        i += 1;
        assert(views.take(i as int).drop_last() =~= views.take(i - 1));
        assert(size_views.take(i as int).drop_last() =~= size_views.take(i - 1));
        assert(date_views.take(i as int).drop_last() =~= date_views.take(i - 1));
    }
    assert(views.take(i as int) =~= views);
    assert(size_views.take(i as int) =~= size_views);
    assert(date_views.take(i as int) =~= date_views);
    out
}

/// The start of a page, up to its body.
pub open spec fn head_markup(title: Seq<char>, style: Seq<char>) -> Seq<char> {
    HEAD@
        + title + "</title><style>"@ + style + "</style></head>"@
}

/// The title of the index of a directory of a share.
pub open spec fn index_title(share_name: Seq<char>, path: Seq<u8>) -> Seq<char> {
    "Index of "@ + html::escaped(share_name) + "/"@ + html::escaped(text::lossy_text(path))
}

/// The index of a directory of a share.
pub open spec fn index_markup(
    share_name: Seq<char>,
    path: Seq<u8>,
    entries: Seq<ShareEntryView>,
    sizes: Seq<Seq<char>>,
    dates: Seq<Seq<char>>,
    user_name: Option<Seq<char>>,
    style: Seq<char>,
    player: Seq<char>,
) -> Seq<char> {
    head_markup(index_title(share_name, path), style)
        + "<body><form method=\"POST\"><div class=\"view\"><p>"@ + user_markup(user_name)
        + INDEX_HEADER@ + rows_markup(entries, sizes, dates) + INDEX_FOOTER@ + player + "</script></body></html>"@
}

/// The row of a share on the page of shares.
pub open spec fn share_markup(share: Share) -> Seq<char> {
    "<div class=\"entry share\"><a href=\""@ + html::escaped(share.link@) + "\">"@ + html::escaped(
        share.name@,
    ) + "</a></div>"@
}

/// The rows of shares on the page of shares.
pub open spec fn shares_rows_markup(shares: Seq<Share>) -> Seq<char>
    decreases shares.len(),
{
    if shares.len() == 0 {
        Seq::empty()
    } else {
        shares_rows_markup(shares.drop_last()) + share_markup(shares.last())
    }
}

/// The page of shares.
pub open spec fn shares_markup(
    shares: Seq<Share>,
    user_name: Option<Seq<char>>,
    style: Seq<char>,
) -> Seq<char> {
    head_markup("Browse shares"@, style) + "<body><div class=\"view\"><p>"@ + user_markup(user_name)
        + SHARES_HEADER@ + shares_rows_markup(shares)
        + "</div></body></html>"@
}

/// The message above a form: nothing where there is none.
pub open spec fn message_markup(message: Option<Seq<char>>) -> Seq<char> {
    match message {
        Some(message) => "<p class=\"message\">"@ + html::escaped(message) + "</p>"@,
        None => Seq::empty(),
    }
}

/// The login page.
pub open spec fn login_markup(message: Option<Seq<char>>, style: Seq<char>) -> Seq<char> {
    head_markup("Login"@, style)
        + LOGIN_FORM@
        + message_markup(message) + "</form></div></body></html>"@
}

/// The page on which users register.
pub open spec fn register_markup(message: Option<Seq<char>>, style: Seq<char>) -> Seq<char> {
    head_markup("Register"@, style)
        + REGISTER_FORM@
        + message_markup(message) + "</form></div></body></html>"@
}

/// The row of an entry in the listing of a directory, with the texts for its size and its date.
pub open spec fn table_row_markup(
    entry: ShareEntryView,
    size: Seq<char>,
    date: Seq<char>,
) -> Seq<char> {
    "<tr><td><input name=\"s\" value=\""@ + entry.link()
        + "\" type=\"checkbox\"></td><td><a href=\""@ + entry.link() + "\">"@ + html::escaped(
        entry.display_name(),
    ) + "</a></td><td>"@ + size + "</td><td>"@ + date + "</td></tr>"@
}

/// The rows of entries in the listing of a directory.
pub open spec fn table_rows_markup(
    entries: Seq<ShareEntryView>,
    sizes: Seq<Seq<char>>,
    dates: Seq<Seq<char>>,
) -> Seq<char>
    decreases entries.len(),
{
    if entries.len() == 0 {
        Seq::empty()
    } else {
        table_rows_markup(entries.drop_last(), sizes.drop_last(), dates.drop_last())
            + table_row_markup(entries.last(), sizes.last(), dates.last())
    }
}

/// The listing of a directory.
pub open spec fn listing_markup(
    entries: Seq<ShareEntryView>,
    sizes: Seq<Seq<char>>,
    dates: Seq<Seq<char>>,
    style: Seq<char>,
    player: Seq<char>,
) -> Seq<char> {
    "<!DOCTYPE html><html><head><script>"@ + player + "</script><style>"@ + style
        + LISTING_HEADER@ + table_rows_markup(entries, sizes, dates) + LISTING_FOOTER@
}

/// The view of an optional message.
pub open spec fn message_view(message: Option<&str>) -> Option<Seq<char>> {
    match message {
        Some(message) => Some(message@),
        None => None,
    }
}

fn head(title: &str, style: &str) -> (markup: String)
    ensures
        markup@ == head_markup(title@, style@),
{
    let mut out = HEAD.to_owned();
    out.append(title);
    out.append("</title><style>");
    out.append(style);
    out.append("</style></head>");
    out
}

/// The texts for the sizes of entries.
fn sizes(entries: &Vec<ShareEntry>) -> (sizes: Vec<String>)
    ensures
        are_sizes(share_entry::entry_views(entries@), text::text_views(sizes@)),
{
    let mut sizes: Vec<String> = Vec::new();
    let mut i: usize = 0;
    while i < entries.len()
        invariant
            i <= entries.len(),
            sizes@.len() == i,
            forall|k: int| 0 <= k < i ==> entries@[k]@.is_size((#[trigger] sizes@[k])@),
        decreases entries.len() - i,
    {
        sizes.push(entries[i].size());
        i += 1;
    }
    sizes
}

/// The texts that show when entries were last modified.
fn dates(entries: &Vec<ShareEntry>, now: &Timestamp) -> (dates: Vec<String>)
    ensures
        text::text_views(dates@) == date_texts(share_entry::entry_views(entries@), now@),
{
    let mut dates: Vec<String> = Vec::new();
    let mut i: usize = 0;
    while i < entries.len()
        invariant
            i <= entries.len(),
            dates@.len() == i,
            forall|k: int|
                0 <= k < i ==> (#[trigger] dates@[k])@ == timestamp::span_text(
                    entries@[k]@.date - now@,
                ),
        decreases entries.len() - i,
    {
        dates.push(entries[i].date_string(now));
        i += 1;
    }
    assert(text::text_views(dates@) =~= date_texts(share_entry::entry_views(entries@), now@));
    dates
}

/// Answers with the index of a directory of a share.
pub fn index(
    share_name: &str,
    path: &[u8],
    entries: &Vec<ShareEntry>,
    user_name: Option<String>,
    now: &Timestamp,
    assets: &Assets,
) -> (response: Response)
    ensures
        exists|sizes: Seq<Seq<char>>|
            {
                &&& #[trigger] are_sizes(share_entry::entry_views(entries@), sizes)
                &&& response@ == response::page_view(
                    index_markup(
                        share_name@,
                        path@,
                        share_entry::entry_views(entries@),
                        sizes,
                        date_texts(share_entry::entry_views(entries@), now@),
                        text::text_view(user_name),
                        assets.style@,
                        assets.player@,
                    ),
                )
            },
{
    let sizes = sizes(entries);
    let dates = dates(entries, now);
    index_with_texts(share_name, path, entries, &sizes, &dates, user_name, assets)
}

/// Answers with the index of a directory of a share, with the given texts for the sizes and the
/// dates of the entries.
pub fn index_with_texts(
    share_name: &str,
    path: &[u8],
    entries: &Vec<ShareEntry>,
    sizes: &Vec<String>,
    dates: &Vec<String>,
    user_name: Option<String>,
    assets: &Assets,
) -> (response: Response)
    requires
        sizes@.len() == entries@.len(),
        dates@.len() == entries@.len(),
    ensures
        response@ == response::page_view(
            index_markup(
                share_name@,
                path@,
                share_entry::entry_views(entries@),
                text::text_views(sizes@),
                text::text_views(dates@),
                text::text_view(user_name),
                assets.style@,
                assets.player@,
            ),
        ),
{
    let mut title = "Index of ".to_owned();
    title.append(html::escape(share_name).as_str());
    title.append("/");
    title.append(html::escape(text::text_lossy(path).as_str()).as_str());
    let mut out = head(title.as_str(), assets.style.as_str());
    out.append("<body><form method=\"POST\"><div class=\"view\"><p>");
    out.append(user_line(&user_name).as_str());
    out.append(INDEX_HEADER);
    out.append(rows(entries, sizes, dates).as_str());
    out.append(INDEX_FOOTER);
    out.append(assets.player.as_str());
    out.append("</script></body></html>");
    response::page(out)
}

/// Answers with the page of shares.
pub fn shares(list: &Vec<Share>, user_name: Option<String>, assets: &Assets) -> (response:
    Response)
    ensures
        response@ == response::page_view(
            shares_markup(list@, text::text_view(user_name), assets.style@),
        ),
{
    let mut out = head("Browse shares", assets.style.as_str());
    out.append("<body><div class=\"view\"><p>");
    out.append(user_line(&user_name).as_str());
    out.append(SHARES_HEADER);
    out.append(shares_rows(list).as_str());
    out.append("</div></body></html>");
    response::page(out)
}

fn shares_rows(shares: &Vec<Share>) -> (markup: String)
    ensures
        markup@ == shares_rows_markup(shares@),
{
    let mut out = String::new();
    let mut i: usize = 0;
    while i < shares.len()
        invariant
            i <= shares.len(),
            out@ == shares_rows_markup(shares@.take(i as int)),
        decreases shares.len() - i,
    {
        let share = &shares[i];
        let mut row = "<div class=\"entry share\"><a href=\"".to_owned();
        row.append(html::escape(share.link()).as_str());
        row.append("\">");
        row.append(html::escape(share.name()).as_str());
        row.append("</a></div>");
        out.append(row.as_str());
        i += 1;
        assert(shares@.take(i as int).drop_last() =~= shares@.take(i - 1));
    }
    assert(shares@.take(i as int) =~= shares@);
    out
}

fn message_line(message: Option<&str>) -> (markup: String)
    ensures
        markup@ == message_markup(message_view(message)),
{
    match message {
        Some(message) => {
            let mut out = "<p class=\"message\">".to_owned();
            out.append(html::escape(message).as_str());
            out.append("</p>");
            out
        },
        None => String::new(),
    }
}

/// Calls `cookie::Cookie::named` and formats the cookie. The claim is that a cookie that has a name
/// only is written as the name and an equals sign.
#[verifier::external_body]
fn named_cookie(name: &str) -> (text: String)
    ensures
        text@ == name@ + "="@,
{
    Cookie::named(name.to_owned()).to_string()
}

/// Answers with the login page. One that tells a message takes the session away from the client.
pub fn login(message: Option<&str>, assets: &Assets) -> (response: Response)
    ensures
        response@ == (response::ResponseView {
            set_cookie: if message is Some {
                Some("sid"@ + "="@)
            } else {
                None
            },
            ..response::page_view(login_markup(message_view(message), assets.style@))
        }),
{
    let mut out = head("Login", assets.style.as_str());
    out.append(LOGIN_FORM);
    out.append(message_line(message).as_str());
    out.append("</form></div></body></html>");
    let mut response = response::page(out);
    if message.is_some() {
        response.set_cookie = Some(named_cookie("sid"));
    }
    response
}

/// Answers with the page on which users register.
pub fn register(message: Option<&str>, assets: &Assets) -> (response: Response)
    ensures
        response@ == response::page_view(
            register_markup(message_view(message), assets.style@),
        ),
{
    let mut out = head("Register", assets.style.as_str());
    out.append(REGISTER_FORM);
    out.append(message_line(message).as_str());
    out.append("</form></div></body></html>");
    response::page(out)
}

fn table_row(entry: &ShareEntry, size: &str, date: &str) -> (markup: String)
    ensures
        markup@ == table_row_markup(entry@, size@, date@),
{
    let link = entry.link();
    let mut out = "<tr><td><input name=\"s\" value=\"".to_owned();
    out.append(link.as_str());
    out.append("\" type=\"checkbox\"></td><td><a href=\"");
    out.append(link.as_str());
    out.append("\">");
    out.append(html::escape(entry.display_name().as_str()).as_str());
    out.append("</a></td><td>");
    out.append(size);
    out.append("</td><td>");
    out.append(date);
    out.append("</td></tr>");
    out
}

/// Renders the listing of a directory.
pub fn render_index(entries: &Vec<ShareEntry>, now: &Timestamp, assets: &Assets) -> (markup: String)
    ensures
        exists|sizes: Seq<Seq<char>>|
            {
                &&& #[trigger] are_sizes(share_entry::entry_views(entries@), sizes)
                &&& markup@ == listing_markup(
                    share_entry::entry_views(entries@),
                    sizes,
                    date_texts(share_entry::entry_views(entries@), now@),
                    assets.style@,
                    assets.player@,
                )
            },
{
    let sizes = sizes(entries);
    let dates = dates(entries, now);
    render_index_with_texts(entries, &sizes, &dates, assets)
}

/// Renders the listing of a directory, with the given texts for the sizes and the dates of the
/// entries.
pub fn render_index_with_texts(
    entries: &Vec<ShareEntry>,
    sizes: &Vec<String>,
    dates: &Vec<String>,
    assets: &Assets,
) -> (markup: String)
    requires
        sizes@.len() == entries@.len(),
        dates@.len() == entries@.len(),
    ensures
        markup@ == listing_markup(
            share_entry::entry_views(entries@),
            text::text_views(sizes@),
            text::text_views(dates@),
            assets.style@,
            assets.player@,
        ),
{
    let ghost views = share_entry::entry_views(entries@);
    let ghost size_views = text::text_views(sizes@);
    let ghost date_views = text::text_views(dates@);
    let mut rows = String::new();
    let mut i: usize = 0;
    while i < entries.len()
        invariant
            i <= entries.len(),
            sizes@.len() == entries@.len(),
            dates@.len() == entries@.len(),
            views == share_entry::entry_views(entries@),
            size_views == text::text_views(sizes@),
            date_views == text::text_views(dates@),
            rows@ == table_rows_markup(
                views.take(i as int),
                size_views.take(i as int),
                date_views.take(i as int),
            ),
        decreases entries.len() - i,
    {
        rows.append(table_row(&entries[i], sizes[i].as_str(), dates[i].as_str()).as_str());
        i += 1;
        assert(views.take(i as int).drop_last() =~= views.take(i - 1));
        assert(size_views.take(i as int).drop_last() =~= size_views.take(i - 1));
        assert(date_views.take(i as int).drop_last() =~= date_views.take(i - 1));
    }
    assert(views.take(i as int) =~= views);
    assert(size_views.take(i as int) =~= size_views);
    assert(date_views.take(i as int) =~= date_views);
    let mut out = "<!DOCTYPE html><html><head><script>".to_owned();
    out.append(assets.player.as_str());
    out.append("</script><style>");
    out.append(assets.style.as_str());
    out.append(LISTING_HEADER);
    out.append(rows.as_str());
    out.append(LISTING_FOOTER);
    out
}

/// The rows of a listing and of an index come in the order of the entries: those of some entries are
/// followed by those of the entries behind them.
pub proof fn lemma_rows_in_order(
    a: Seq<ShareEntryView>,
    a_sizes: Seq<Seq<char>>,
    a_dates: Seq<Seq<char>>,
    b: Seq<ShareEntryView>,
    b_sizes: Seq<Seq<char>>,
    b_dates: Seq<Seq<char>>,
)
    requires
        a_sizes.len() == a.len() && a_dates.len() == a.len(),
        b_sizes.len() == b.len() && b_dates.len() == b.len(),
    ensures
        table_rows_markup(a + b, a_sizes + b_sizes, a_dates + b_dates) == table_rows_markup(
            a,
            a_sizes,
            a_dates,
        ) + table_rows_markup(b, b_sizes, b_dates),
        rows_markup(a + b, a_sizes + b_sizes, a_dates + b_dates) == rows_markup(
            a,
            a_sizes,
            a_dates,
        ) + rows_markup(b, b_sizes, b_dates),
    decreases b.len(),
{
    let all = a + b;
    let sizes = a_sizes + b_sizes;
    let dates = a_dates + b_dates;
    if b.len() == 0 {
        assert(all =~= a);
        assert(sizes =~= a_sizes);
        assert(dates =~= a_dates);
    } else {
        assert(all.drop_last() =~= a + b.drop_last());
        assert(sizes.drop_last() =~= a_sizes + b_sizes.drop_last());
        assert(dates.drop_last() =~= a_dates + b_dates.drop_last());
        lemma_rows_in_order(
            a,
            a_sizes,
            a_dates,
            b.drop_last(),
            b_sizes.drop_last(),
            b_dates.drop_last(),
        );
    }
    assert(table_rows_markup(all, sizes, dates) =~= table_rows_markup(a, a_sizes, a_dates)
        + table_rows_markup(b, b_sizes, b_dates));
    assert(rows_markup(all, sizes, dates) =~= rows_markup(a, a_sizes, a_dates) + rows_markup(
        b,
        b_sizes,
        b_dates,
    ));
}

/// Whether a page holds a part, as it is.
pub open spec fn holds(page: Seq<char>, part: Seq<char>) -> bool {
    exists|before: Seq<char>, after: Seq<char>| page == #[trigger] (before + part + after)
}

/// What a part holds, whatever holds the part holds too.
proof fn lemma_holds(
    page: Seq<char>,
    before: Seq<char>,
    part: Seq<char>,
    after: Seq<char>,
    inner: Seq<char>,
)
    requires
        page == before + part + after,
        holds(part, inner),
    ensures
        holds(page, inner),
{
    let (b, a) = choose|b: Seq<char>, a: Seq<char>| part == #[trigger] (b + inner + a);
    assert(page =~= (before + b) + inner + (a + after));
}

/// The row of an entry holds a box to tick whose value is the link to the entry, and the entry's name
/// as a link to it, followed by its size and its date. There is nothing else in it that depends on
/// the entry.
#[verifier::spinoff_prover]
#[verifier::rlimit(60)]
pub proof fn lemma_table_row(entry: ShareEntryView, size: Seq<char>, date: Seq<char>)
    ensures
        holds(
            table_row_markup(entry, size, date),
            "<input name=\"s\" value=\""@ + entry.link() + "\" type=\"checkbox\">"@,
        ),
        holds(
            table_row_markup(entry, size, date),
            "<a href=\""@ + entry.link() + "\">"@ + html::escaped(entry.display_name())
                + "</a></td><td>"@ + size + "</td><td>"@ + date + "</td></tr>"@,
        ),
        table_row_markup(entry, size, date).len() == 101 + 2 * entry.link().len() + html::escaped(
            entry.display_name(),
        ).len() + size.len() + date.len(),
{
    reveal_strlit("<tr><td><input name=\"s\" value=\"");
    reveal_strlit("\" type=\"checkbox\"></td><td><a href=\"");
    reveal_strlit("\">");
    reveal_strlit("</a></td><td>");
    reveal_strlit("</td><td>");
    reveal_strlit("</td></tr>");
    reveal_strlit("<tr><td>");
    reveal_strlit("<input name=\"s\" value=\"");
    reveal_strlit("\" type=\"checkbox\">");
    reveal_strlit("<a href=\"");
    let row = table_row_markup(entry, size, date);
    let link = entry.link();
    let name = html::escaped(entry.display_name());
    let between = "\" type=\"checkbox\"></td><td><a href=\""@;
    let cells = "</a></td><td>"@ + size + "</td><td>"@ + date + "</td></tr>"@;
    let tick = "<input name=\"s\" value=\""@ + link + "\" type=\"checkbox\">"@;
    let anchor = "<a href=\""@ + link + "\">"@ + name + "</a></td><td>"@ + size + "</td><td>"@ + date
        + "</td></tr>"@;
    assert("<tr><td><input name=\"s\" value=\""@ =~= "<tr><td>"@ + "<input name=\"s\" value=\""@);
    assert(between =~= "\" type=\"checkbox\">"@ + "</td><td>"@ + "<a href=\""@);
    assert(row =~= "<tr><td>"@ + tick + ("</td><td>"@ + "<a href=\""@ + link + "\">"@ + name
        + cells));
    assert(row =~= ("<tr><td>"@ + tick + "</td><td>"@) + anchor + Seq::empty());
}

/// The row of an entry in the index of a share holds a box to tick whose value is the link to the
/// entry, and the entry's name as a link to it, followed by its size and its date. There is nothing
/// else in it that depends on the entry.
#[verifier::spinoff_prover]
#[verifier::rlimit(60)]
pub proof fn lemma_row(entry: ShareEntryView, size: Seq<char>, date: Seq<char>)
    ensures
        holds(
            row_markup(entry, size, date),
            "<input name=\"s\" value=\""@ + html::escaped(entry.link())
                + "\" type=\"checkbox\">"@,
        ),
        holds(
            row_markup(entry, size, date),
            "<a href=\""@ + html::escaped(entry.link()) + "\">"@ + html::escaped(
                entry.display_name(),
            ) + "</a><div>"@ + size + "</div><div>"@ + date + "</div></div>"@,
        ),
        row_markup(entry, size, date).len() == 103 + 2 * html::escaped(entry.link()).len()
            + html::escaped(entry.display_name()).len() + size.len() + date.len(),
{
    reveal_strlit("<div class=\"entry\"><input name=\"s\" value=\"");
    reveal_strlit("\" type=\"checkbox\"><a href=\"");
    reveal_strlit("\">");
    reveal_strlit("</a><div>");
    reveal_strlit("</div><div>");
    reveal_strlit("</div></div>");
    reveal_strlit("<div class=\"entry\">");
    reveal_strlit("<input name=\"s\" value=\"");
    reveal_strlit("\" type=\"checkbox\">");
    reveal_strlit("<a href=\"");
    let row = row_markup(entry, size, date);
    let link = html::escaped(entry.link());
    let name = html::escaped(entry.display_name());
    let between = "\" type=\"checkbox\"><a href=\""@;
    let cells = "</a><div>"@ + size + "</div><div>"@ + date + "</div></div>"@;
    let tick = "<input name=\"s\" value=\""@ + link + "\" type=\"checkbox\">"@;
    let anchor = "<a href=\""@ + link + "\">"@ + name + "</a><div>"@ + size + "</div><div>"@ + date
        + "</div></div>"@;
    let start = "<div class=\"entry\">"@;
    assert("<div class=\"entry\"><input name=\"s\" value=\""@ =~= start
        + "<input name=\"s\" value=\""@);
    assert(between =~= "\" type=\"checkbox\">"@ + "<a href=\""@);
    assert(row =~= start + tick + ("<a href=\""@ + link + "\">"@ + name + cells));
    assert(row =~= (start + tick) + anchor + Seq::empty());
}

proof fn lemma_rows_around(
    entries: Seq<ShareEntryView>,
    sizes: Seq<Seq<char>>,
    dates: Seq<Seq<char>>,
    i: int,
)
    requires
        0 <= i < entries.len(),
        sizes.len() == entries.len() && dates.len() == entries.len(),
    ensures
        holds(
            table_rows_markup(entries, sizes, dates),
            table_row_markup(entries[i], sizes[i], dates[i]),
        ),
        holds(rows_markup(entries, sizes, dates), row_markup(entries[i], sizes[i], dates[i])),
{
    let e = entries.take(i + 1);
    let s = sizes.take(i + 1);
    let d = dates.take(i + 1);
    lemma_rows_in_order(e, s, d, entries.skip(i + 1), sizes.skip(i + 1), dates.skip(i + 1));
    assert(entries =~= e + entries.skip(i + 1));
    assert(sizes =~= s + sizes.skip(i + 1));
    assert(dates =~= d + dates.skip(i + 1));
    assert(e.last() == entries[i] && s.last() == sizes[i] && d.last() == dates[i]);
    assert(table_rows_markup(entries, sizes, dates) =~= table_rows_markup(
        e.drop_last(),
        s.drop_last(),
        d.drop_last(),
    ) + table_row_markup(entries[i], sizes[i], dates[i]) + table_rows_markup(
        entries.skip(i + 1),
        sizes.skip(i + 1),
        dates.skip(i + 1),
    ));
    assert(rows_markup(entries, sizes, dates) =~= rows_markup(
        e.drop_last(),
        s.drop_last(),
        d.drop_last(),
    ) + row_markup(entries[i], sizes[i], dates[i]) + rows_markup(
        entries.skip(i + 1),
        sizes.skip(i + 1),
        dates.skip(i + 1),
    ));
}

/// The listing of a directory has a row for each of its entries: each can be ticked, and opened by
/// its name, and is shown with its size and its date.
#[verifier::spinoff_prover]
#[verifier::rlimit(60)]
pub proof fn lemma_listing_holds_each(
    entries: Seq<ShareEntryView>,
    sizes: Seq<Seq<char>>,
    dates: Seq<Seq<char>>,
    style: Seq<char>,
    player: Seq<char>,
    i: int,
)
    requires
        0 <= i < entries.len(),
        sizes.len() == entries.len() && dates.len() == entries.len(),
    ensures
        holds(
            listing_markup(entries, sizes, dates, style, player),
            "<input name=\"s\" value=\""@ + entries[i].link() + "\" type=\"checkbox\">"@,
        ),
        holds(
            listing_markup(entries, sizes, dates, style, player),
            "<a href=\""@ + entries[i].link() + "\">"@ + html::escaped(entries[i].display_name())
                + "</a></td><td>"@ + sizes[i] + "</td><td>"@ + dates[i] + "</td></tr>"@,
        ),
{
    let page = listing_markup(entries, sizes, dates, style, player);
    let rows = table_rows_markup(entries, sizes, dates);
    let row = table_row_markup(entries[i], sizes[i], dates[i]);
    let start = "<!DOCTYPE html><html><head><script>"@ + player + "</script><style>"@ + style
        + LISTING_HEADER@;
    lemma_rows_around(entries, sizes, dates, i);
    lemma_table_row(entries[i], sizes[i], dates[i]);
    assert(page =~= start + rows + LISTING_FOOTER@);
    lemma_holds(page, start, rows, LISTING_FOOTER@, row);
    let (before, after) = choose|before: Seq<char>, after: Seq<char>|
        page == #[trigger] (before + row + after);
    lemma_holds(
        page,
        before,
        row,
        after,
        "<input name=\"s\" value=\""@ + entries[i].link() + "\" type=\"checkbox\">"@,
    );
    lemma_holds(
        page,
        before,
        row,
        after,
        "<a href=\""@ + entries[i].link() + "\">"@ + html::escaped(entries[i].display_name())
            + "</a></td><td>"@ + sizes[i] + "</td><td>"@ + dates[i] + "</td></tr>"@,
    );
}

/// The listing of some entries and then others is that of no entries, with the rows of the ones and
/// then those of the others in the one place where rows stand.
#[verifier::spinoff_prover]
#[verifier::rlimit(60)]
pub proof fn lemma_listing_in_order(
    a: Seq<ShareEntryView>,
    a_sizes: Seq<Seq<char>>,
    a_dates: Seq<Seq<char>>,
    b: Seq<ShareEntryView>,
    b_sizes: Seq<Seq<char>>,
    b_dates: Seq<Seq<char>>,
    style: Seq<char>,
    player: Seq<char>,
)
    requires
        a_sizes.len() == a.len() && a_dates.len() == a.len(),
        b_sizes.len() == b.len() && b_dates.len() == b.len(),
    ensures
        exists|start: Seq<char>, end: Seq<char>|
            {
                let a_rows = table_rows_markup(a, a_sizes, a_dates);
                let b_rows = table_rows_markup(b, b_sizes, b_dates);
                &&& listing_markup(Seq::empty(), Seq::empty(), Seq::empty(), style, player)
                    == #[trigger] (start + end)
                &&& listing_markup(a, a_sizes, a_dates, style, player) == start + a_rows + end
                &&& listing_markup(b, b_sizes, b_dates, style, player) == start + b_rows + end
                &&& listing_markup(a + b, a_sizes + b_sizes, a_dates + b_dates, style, player)
                    == start + a_rows + b_rows + end
            },
        listing_markup(a + b, a_sizes + b_sizes, a_dates + b_dates, style, player).len()
            + listing_markup(Seq::empty(), Seq::empty(), Seq::empty(), style, player).len()
            == listing_markup(a, a_sizes, a_dates, style, player).len() + listing_markup(
            b,
            b_sizes,
            b_dates,
            style,
            player,
        ).len(),
{
    let start = "<!DOCTYPE html><html><head><script>"@ + player + "</script><style>"@ + style
        + LISTING_HEADER@;
    let end = LISTING_FOOTER@;
    let a_rows = table_rows_markup(a, a_sizes, a_dates);
    let b_rows = table_rows_markup(b, b_sizes, b_dates);
    lemma_rows_in_order(a, a_sizes, a_dates, b, b_sizes, b_dates);
    assert(listing_markup(Seq::empty(), Seq::empty(), Seq::empty(), style, player) =~= start + end);
    assert(listing_markup(a + b, a_sizes + b_sizes, a_dates + b_dates, style, player) =~= start
        + a_rows + b_rows + end);
}

/// One entry takes up one row of a listing.
pub proof fn lemma_listing_of_one(
    entry: ShareEntryView,
    size: Seq<char>,
    date: Seq<char>,
    style: Seq<char>,
    player: Seq<char>,
)
    ensures
        listing_markup(seq![entry], seq![size], seq![date], style, player).len() == listing_markup(
            Seq::empty(),
            Seq::empty(),
            Seq::empty(),
            style,
            player,
        ).len() + 101 + 2 * entry.link().len() + html::escaped(entry.display_name()).len()
            + size.len() + date.len(),
{
    lemma_table_row(entry, size, date);
    reveal_with_fuel(table_rows_markup, 2);
    assert(seq![entry].drop_last() =~= Seq::empty());
    assert(seq![size].drop_last() =~= Seq::empty());
    assert(seq![date].drop_last() =~= Seq::empty());
}

/// A listing carries the script of the player and the style sheet as they are.
#[verifier::spinoff_prover]
#[verifier::rlimit(60)]
pub proof fn lemma_listing_assets(
    entries: Seq<ShareEntryView>,
    sizes: Seq<Seq<char>>,
    dates: Seq<Seq<char>>,
    style: Seq<char>,
    player: Seq<char>,
)
    ensures
        holds(
            listing_markup(entries, sizes, dates, style, player),
            "<script>"@ + player + "</script><style>"@ + style + LISTING_HEADER@,
        ),
        listing_markup(entries, sizes, dates, style, player).len() == listing_markup(
            entries,
            sizes,
            dates,
            Seq::empty(),
            Seq::empty(),
        ).len() + style.len() + player.len(),
{
    reveal_strlit("<!DOCTYPE html><html><head><script>");
    reveal_strlit("<script>");
    reveal_strlit("<!DOCTYPE html><html><head>");
    let page = listing_markup(entries, sizes, dates, style, player);
    let part = "<script>"@ + player + "</script><style>"@ + style + LISTING_HEADER@;
    assert("<!DOCTYPE html><html><head><script>"@ =~= "<!DOCTYPE html><html><head>"@ + "<script>"@);
    assert(page =~= "<!DOCTYPE html><html><head>"@ + part + (table_rows_markup(entries, sizes, dates)
        + LISTING_FOOTER@));
}

/// A page names a user that has a name, and says nothing of one that has none.
pub proof fn lemma_user(user: Seq<char>)
    ensures
        user_markup(None).len() == 0,
        user.len() == 0 ==> user_markup(Some(user)).len() == 0,
        user.len() > 0 ==> holds(
            user_markup(Some(user)),
            "Logged in as "@ + html::escaped(user) + " "@,
        ) && holds(user_markup(Some(user)), "<a href=\"/login\">login</a>"@) && user_markup(
            Some(user),
        ).len() == 40 + html::escaped(user).len(),
{
    reveal_strlit("Logged in as ");
    reveal_strlit(" ");
    reveal_strlit("<a href=\"/login\">login</a>");
    if user.len() > 0 {
        let line = user_markup(Some(user));
        let part = "Logged in as "@ + html::escaped(user) + " "@;
        assert(line =~= Seq::empty() + part + "<a href=\"/login\">login</a>"@);
        assert(line =~= part + "<a href=\"/login\">login</a>"@ + Seq::empty());
    }
}

/// The index of a directory of a share has a row for each of its entries: each can be ticked, and
/// opened by its name, and is shown with its size and its date.
#[verifier::spinoff_prover]
#[verifier::rlimit(60)]
pub proof fn lemma_index_holds_each(
    share_name: Seq<char>,
    path: Seq<u8>,
    entries: Seq<ShareEntryView>,
    sizes: Seq<Seq<char>>,
    dates: Seq<Seq<char>>,
    user_name: Option<Seq<char>>,
    style: Seq<char>,
    player: Seq<char>,
    i: int,
)
    requires
        0 <= i < entries.len(),
        sizes.len() == entries.len() && dates.len() == entries.len(),
    ensures
        holds(
            index_markup(share_name, path, entries, sizes, dates, user_name, style, player),
            "<input name=\"s\" value=\""@ + html::escaped(entries[i].link())
                + "\" type=\"checkbox\">"@,
        ),
        holds(
            index_markup(share_name, path, entries, sizes, dates, user_name, style, player),
            "<a href=\""@ + html::escaped(entries[i].link()) + "\">"@ + html::escaped(
                entries[i].display_name(),
            ) + "</a><div>"@ + sizes[i] + "</div><div>"@ + dates[i] + "</div></div>"@,
        ),
{
    let page = index_markup(share_name, path, entries, sizes, dates, user_name, style, player);
    let rows = rows_markup(entries, sizes, dates);
    let row = row_markup(entries[i], sizes[i], dates[i]);
    let start = head_markup(index_title(share_name, path), style)
        + "<body><form method=\"POST\"><div class=\"view\"><p>"@ + user_markup(user_name)
        + INDEX_HEADER@;
    let end = INDEX_FOOTER@ + player + "</script></body></html>"@;
    lemma_rows_around(entries, sizes, dates, i);
    lemma_row(entries[i], sizes[i], dates[i]);
    assert(page =~= start + rows + end);
    lemma_holds(page, start, rows, end, row);
    let (before, after) = choose|before: Seq<char>, after: Seq<char>|
        page == #[trigger] (before + row + after);
    lemma_holds(
        page,
        before,
        row,
        after,
        "<input name=\"s\" value=\""@ + html::escaped(entries[i].link())
            + "\" type=\"checkbox\">"@,
    );
    lemma_holds(
        page,
        before,
        row,
        after,
        "<a href=\""@ + html::escaped(entries[i].link()) + "\">"@ + html::escaped(
            entries[i].display_name(),
        ) + "</a><div>"@ + sizes[i] + "</div><div>"@ + dates[i] + "</div></div>"@,
    );
}

/// The index of some entries and then others is that of no entries, with the rows of the ones and
/// then those of the others in the one place where rows stand.
#[verifier::spinoff_prover]
#[verifier::rlimit(60)]
pub proof fn lemma_index_in_order(
    share_name: Seq<char>,
    path: Seq<u8>,
    a: Seq<ShareEntryView>,
    a_sizes: Seq<Seq<char>>,
    a_dates: Seq<Seq<char>>,
    b: Seq<ShareEntryView>,
    b_sizes: Seq<Seq<char>>,
    b_dates: Seq<Seq<char>>,
    user_name: Option<Seq<char>>,
    style: Seq<char>,
    player: Seq<char>,
)
    requires
        a_sizes.len() == a.len() && a_dates.len() == a.len(),
        b_sizes.len() == b.len() && b_dates.len() == b.len(),
    ensures
        ({
            let none = index_markup(
                share_name,
                path,
                Seq::empty(),
                Seq::empty(),
                Seq::empty(),
                user_name,
                style,
                player,
            );
            let first = index_markup(
                share_name,
                path,
                a,
                a_sizes,
                a_dates,
                user_name,
                style,
                player,
            );
            let second = index_markup(
                share_name,
                path,
                b,
                b_sizes,
                b_dates,
                user_name,
                style,
                player,
            );
            let both = index_markup(
                share_name,
                path,
                a + b,
                a_sizes + b_sizes,
                a_dates + b_dates,
                user_name,
                style,
                player,
            );
            let a_rows = rows_markup(a, a_sizes, a_dates);
            let b_rows = rows_markup(b, b_sizes, b_dates);
            &&& both.len() + none.len() == first.len() + second.len()
            &&& exists|start: Seq<char>, end: Seq<char>|
                {
                    &&& none == #[trigger] (start + end)
                    &&& first == start + a_rows + end
                    &&& second == start + b_rows + end
                    &&& both == start + a_rows + b_rows + end
                }
        }),
{
    let start = head_markup(index_title(share_name, path), style)
        + "<body><form method=\"POST\"><div class=\"view\"><p>"@ + user_markup(user_name)
        + INDEX_HEADER@;
    let end = INDEX_FOOTER@ + player + "</script></body></html>"@;
    let a_rows = rows_markup(a, a_sizes, a_dates);
    let b_rows = rows_markup(b, b_sizes, b_dates);
    lemma_rows_in_order(a, a_sizes, a_dates, b, b_sizes, b_dates);
    assert(index_markup(
        share_name,
        path,
        Seq::empty(),
        Seq::empty(),
        Seq::empty(),
        user_name,
        style,
        player,
    ) =~= start + end);
    assert(index_markup(share_name, path, a, a_sizes, a_dates, user_name, style, player) =~= start
        + a_rows + end);
    assert(index_markup(share_name, path, b, b_sizes, b_dates, user_name, style, player) =~= start
        + b_rows + end);
    assert(index_markup(
        share_name,
        path,
        a + b,
        a_sizes + b_sizes,
        a_dates + b_dates,
        user_name,
        style,
        player,
    ) =~= start + a_rows + b_rows + end);
}

/// The index of a directory is titled by the share and the path, says of the user what there is to
/// say, and carries the style sheet and the script of the player as they are.
#[verifier::spinoff_prover]
#[verifier::rlimit(60)]
pub proof fn lemma_index_parts(
    share_name: Seq<char>,
    path: Seq<u8>,
    entries: Seq<ShareEntryView>,
    sizes: Seq<Seq<char>>,
    dates: Seq<Seq<char>>,
    user_name: Option<Seq<char>>,
    style: Seq<char>,
    player: Seq<char>,
)
    ensures
        ({
            let page = index_markup(
                share_name,
                path,
                entries,
                sizes,
                dates,
                user_name,
                style,
                player,
            );
            let plain = index_markup(
                Seq::empty(),
                Seq::empty(),
                entries,
                sizes,
                dates,
                None,
                Seq::empty(),
                Seq::empty(),
            );
            &&& holds(
                page,
                HEAD@ + ("Index of "@ + html::escaped(share_name) + "/"@ + html::escaped(
                    text::lossy_text(path),
                )) + "</title><style>"@ + style + "</style></head>"@,
            )
            &&& holds(page, "<p>"@ + user_markup(user_name) + INDEX_HEADER@)
            &&& holds(page, INDEX_FOOTER@ + player + "</script></body></html>"@)
            &&& page.len() == plain.len() + html::escaped(share_name).len() + html::escaped(
                text::lossy_text(path),
            ).len() + user_markup(user_name).len() + style.len() + player.len()
        }),
{
    let page = index_markup(share_name, path, entries, sizes, dates, user_name, style, player);
    let rows = rows_markup(entries, sizes, dates);
    let title = index_title(share_name, path);
    let user = user_markup(user_name);
    let body = "<body><form method=\"POST\"><div class=\"view\"><p>"@;
    let end = "</script></body></html>"@;
    assert(title =~= "Index of "@ + html::escaped(share_name) + "/"@ + html::escaped(
        text::lossy_text(path),
    ));
    let head = head_markup(title, style);
    assert(page =~= Seq::empty() + head + (body + user + INDEX_HEADER@ + rows + INDEX_FOOTER@ + player
        + end));
    reveal_strlit("<body><form method=\"POST\"><div class=\"view\"><p>");
    reveal_strlit("<body><form method=\"POST\"><div class=\"view\">");
    reveal_strlit("<p>");
    assert(body =~= "<body><form method=\"POST\"><div class=\"view\">"@ + "<p>"@);
    assert(page =~= (head + "<body><form method=\"POST\"><div class=\"view\">"@) + ("<p>"@ + user
        + INDEX_HEADER@) + (rows + INDEX_FOOTER@ + player + end));
    assert(page =~= (head + body + user + INDEX_HEADER@ + rows) + (INDEX_FOOTER@ + player + end)
        + Seq::empty());
    text::lemma_text_of_bytes(Seq::empty(), Seq::empty());
}

/// The row of a share holds its name as a link to it, and nothing else that depends on the share.
pub proof fn lemma_share_row(share: Share)
    ensures
        holds(
            share_markup(share),
            "<a href=\""@ + html::escaped(share.link@) + "\">"@ + html::escaped(share.name@)
                + "</a>"@,
        ),
        share_markup(share).len() == 46 + html::escaped(share.link@).len() + html::escaped(
            share.name@,
        ).len(),
{
    reveal_strlit("<div class=\"entry share\"><a href=\"");
    reveal_strlit("\">");
    reveal_strlit("</a></div>");
    reveal_strlit("<div class=\"entry share\">");
    reveal_strlit("<a href=\"");
    reveal_strlit("</a>");
    reveal_strlit("</div>");
    let row = share_markup(share);
    let part = "<a href=\""@ + html::escaped(share.link@) + "\">"@ + html::escaped(share.name@)
        + "</a>"@;
    assert("<div class=\"entry share\"><a href=\""@ =~= "<div class=\"entry share\">"@
        + "<a href=\""@);
    assert("</a></div>"@ =~= "</a>"@ + "</div>"@);
    assert(row =~= "<div class=\"entry share\">"@ + part + "</div>"@);
}

proof fn lemma_shares_rows_concat(a: Seq<Share>, b: Seq<Share>)
    ensures
        shares_rows_markup(a + b) == shares_rows_markup(a) + shares_rows_markup(b),
    decreases b.len(),
{
    if b.len() == 0 {
        assert(a + b =~= a);
    } else {
        assert((a + b).drop_last() =~= a + b.drop_last());
        lemma_shares_rows_concat(a, b.drop_last());
    }
    assert(shares_rows_markup(a + b) =~= shares_rows_markup(a) + shares_rows_markup(b));
}

/// The page of shares has a row for each share, in their order, in the one place where rows stand. It
/// says of the user what there is to say, and carries the style sheet as it is.
#[verifier::spinoff_prover]
#[verifier::rlimit(60)]
pub proof fn lemma_shares_in_order(
    a: Seq<Share>,
    b: Seq<Share>,
    share: Share,
    user_name: Option<Seq<char>>,
    style: Seq<char>,
)
    ensures
        exists|start: Seq<char>, end: Seq<char>|
            {
                let a_rows = shares_rows_markup(a);
                let b_rows = shares_rows_markup(b);
                &&& shares_markup(Seq::empty(), user_name, style) == #[trigger] (start + end)
                &&& shares_markup(a, user_name, style) == start + a_rows + end
                &&& shares_markup(b, user_name, style) == start + b_rows + end
                &&& shares_markup(a + b, user_name, style) == start + a_rows + b_rows + end
                &&& shares_markup(seq![share], user_name, style) == start + share_markup(share)
                    + end
            },
        shares_markup(a + b, user_name, style).len() + shares_markup(
            Seq::empty(),
            user_name,
            style,
        ).len() == shares_markup(a, user_name, style).len() + shares_markup(
            b,
            user_name,
            style,
        ).len(),
        holds(shares_markup(a, user_name, style), "<p>"@ + user_markup(user_name) + SHARES_HEADER@),
        holds(
            shares_markup(a, user_name, style),
            HEAD@ + "Browse shares"@ + "</title><style>"@ + style + "</style></head>"@,
        ),
        shares_markup(a, user_name, style).len() == shares_markup(a, None, Seq::empty()).len()
            + user_markup(user_name).len() + style.len(),
{
    let body = "<body><div class=\"view\"><p>"@;
    let user = user_markup(user_name);
    let head = head_markup("Browse shares"@, style);
    let start = head + body + user + SHARES_HEADER@;
    let end = "</div></body></html>"@;
    lemma_shares_rows_concat(a, b);
    reveal_with_fuel(shares_rows_markup, 2);
    assert(seq![share].drop_last() =~= Seq::empty());
    assert(seq![share].last() == share);
    assert(shares_rows_markup(seq![share]) =~= share_markup(share));
    assert(shares_markup(Seq::empty(), user_name, style) =~= start + end);
    assert(shares_markup(a + b, user_name, style) =~= start + shares_rows_markup(a)
        + shares_rows_markup(b) + end);
    let page = shares_markup(a, user_name, style);
    assert(page =~= Seq::empty() + head + (body + user + SHARES_HEADER@ + shares_rows_markup(a)
        + end));
    reveal_strlit("<body><div class=\"view\"><p>");
    reveal_strlit("<body><div class=\"view\">");
    reveal_strlit("<p>");
    assert(body =~= "<body><div class=\"view\">"@ + "<p>"@);
    assert(page =~= (head + "<body><div class=\"view\">"@) + ("<p>"@ + user + SHARES_HEADER@) + (
    shares_rows_markup(a) + end));
}

/// The page of shares has a row for each share.
pub proof fn lemma_shares_hold_each(
    shares: Seq<Share>,
    user_name: Option<Seq<char>>,
    style: Seq<char>,
    i: int,
)
    requires
        0 <= i < shares.len(),
    ensures
        holds(
            shares_markup(shares, user_name, style),
            "<a href=\""@ + html::escaped(shares[i].link@) + "\">"@ + html::escaped(shares[i].name@)
                + "</a>"@,
        ),
{
    let page = shares_markup(shares, user_name, style);
    let first = shares.take(i + 1);
    let rest = shares.skip(i + 1);
    let row = share_markup(shares[i]);
    let start = head_markup("Browse shares"@, style) + "<body><div class=\"view\"><p>"@
        + user_markup(user_name) + SHARES_HEADER@ + shares_rows_markup(first.drop_last());
    let end = shares_rows_markup(rest) + "</div></body></html>"@;
    lemma_shares_rows_concat(first, rest);
    lemma_share_row(shares[i]);
    assert(shares =~= first + rest);
    assert(first.last() == shares[i]);
    assert(page =~= start + row + end);
    lemma_holds(
        page,
        start,
        row,
        end,
        "<a href=\""@ + html::escaped(shares[i].link@) + "\">"@ + html::escaped(shares[i].name@)
            + "</a>"@,
    );
}

/// The login page and the page on which users register tell a message, as they are without one but
/// for the message, and carry the style sheet as it is.
#[verifier::spinoff_prover]
#[verifier::rlimit(60)]
pub proof fn lemma_message(message: Seq<char>, style: Seq<char>)
    ensures
        exists|start: Seq<char>, end: Seq<char>|
            {
                &&& login_markup(None, style) == #[trigger] (start + end)
                &&& login_markup(Some(message), style) == start + ("<p class=\"message\">"@
                    + html::escaped(message) + "</p>"@) + end
            },
        exists|start: Seq<char>, end: Seq<char>|
            {
                &&& register_markup(None, style) == #[trigger] (start + end)
                &&& register_markup(Some(message), style) == start + ("<p class=\"message\">"@
                    + html::escaped(message) + "</p>"@) + end
            },
        holds(
            login_markup(Some(message), style),
            HEAD@ + "Login"@ + "</title><style>"@ + style + "</style></head>"@,
        ),
        holds(
            register_markup(Some(message), style),
            HEAD@ + "Register"@ + "</title><style>"@ + style + "</style></head>"@,
        ),
        login_markup(None, style).len() == login_markup(None, Seq::empty()).len() + style.len(),
        register_markup(None, style).len() == register_markup(None, Seq::empty()).len()
            + style.len(),
{
    let part = "<p class=\"message\">"@ + html::escaped(message) + "</p>"@;
    let end = "</form></div></body></html>"@;
    let login_start = head_markup("Login"@, style) + LOGIN_FORM@;
    let register_start = head_markup("Register"@, style) + REGISTER_FORM@;
    assert(login_markup(None, style) =~= login_start + end);
    assert(login_markup(Some(message), style) =~= login_start + part + end);
    assert(register_markup(None, style) =~= register_start + end);
    assert(register_markup(Some(message), style) =~= register_start + part + end);
    assert(login_markup(Some(message), style) =~= Seq::empty() + head_markup("Login"@, style) + (
    LOGIN_FORM@ + part + end));
    assert(register_markup(Some(message), style) =~= Seq::empty() + head_markup("Register"@, style)
        + (REGISTER_FORM@ + part + end));
}

/// The texts for sizes and dates belong to the entries one by one.
pub proof fn lemma_texts_of_entries(
    entries: Seq<ShareEntryView>,
    sizes: Seq<Seq<char>>,
    now: int,
    message: Option<&str>,
)
    ensures
        are_sizes(entries, sizes) <==> sizes.len() == entries.len() && forall|i: int|
            0 <= i < entries.len() ==> (#[trigger] entries[i]).is_size(sizes[i]),
        date_texts(entries, now).len() == entries.len(),
        forall|i: int|
            0 <= i < entries.len() ==> #[trigger] date_texts(entries, now)[i]
                == timestamp::span_text(entries[i].date - now),
        message_view(message) == (match message {
            Some(text) => Some(text@),
            None => None,
        }),
{
    if sizes.len() == entries.len() && forall|i: int|
        0 <= i < entries.len() ==> (#[trigger] entries[i]).is_size(sizes[i]) {
        assert forall|i: int| 0 <= i < entries.len() implies entries[i].is_size(
            #[trigger] sizes[i],
        ) by {
            assert(entries[i].is_size(sizes[i]));
        }
    }
    if are_sizes(entries, sizes) {
        assert forall|i: int| 0 <= i < entries.len() implies (#[trigger] entries[i]).is_size(
            sizes[i],
        ) by {
            assert(entries[i].is_size(sizes[i]));
        }
    }
}

} // verus!
