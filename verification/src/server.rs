//! How requests are answered. Each function takes what was read last and tells what to do next.

use mime_sniffer::MimeTypeSniffer;
use vstd::prelude::*;
use vstd::utf8::*;

use crate::archive;
use crate::archive::{Platform, WalkEntry};
use crate::form;
use crate::form::FormError;
use crate::page;
use crate::page::Assets;
use crate::percent;
use crate::response;
use crate::response::{Response, ResponseView};
use crate::share_entry;
use crate::share_entry::{DirEntry, ShareEntryView};
use crate::target;
use crate::text;
use crate::timestamp::Timestamp;

verus! {

/// The method of a request.
#[derive(Debug, Clone, Copy, PartialEq, Eq, Structural)]
pub enum Method {
    Get,
    Post,
    Other,
}

/// Why a request has no path that could be served.
#[derive(Debug, Clone, Copy, PartialEq, Eq, Structural)]
pub enum PathError {
    /// The path does not decode to UTF-8.
    NotUtf8,
    /// The path does not start with a slash.
    NotAbsolute,
}

/// What to do about a request.
#[derive(Debug)]
pub enum Call {
    /// Serve the file or directory `target`, for which `path` was asked.
    Get { target: Vec<u8>, path: String },
    /// Serve an archive of files below `target`, for which `path` was asked.
    Post { target: Vec<u8>, path: String },
    /// Send an answer.
    Reply(Response),
}

/// The model of [`Call`].
pub enum CallView {
    Get { target: Seq<u8>, path: Seq<char> },
    Post { target: Seq<u8>, path: Seq<char> },
    Reply(ResponseView),
}

impl View for Call {
    type V = CallView;

    open spec fn view(&self) -> CallView {
        match *self {
            Call::Get { target, path } => CallView::Get { target: target@, path: path@ },
            Call::Post { target, path } => CallView::Post { target: target@, path: path@ },
            Call::Reply(response) => CallView::Reply(response@),
        }
    }
}

/// What is done about a request to a share of `root`: the path is decoded once, and its target lies
/// below the root.
pub open spec fn called(method: Method, root: Seq<u8>, raw_path: Seq<char>) -> Result<
    CallView,
    PathError,
> {
    match percent::decoded_text(raw_path) {
        None => Err(PathError::NotUtf8),
        Some(path) => if path.len() == 0 || path[0] != '/' {
            Err(PathError::NotAbsolute)
        } else {
            match method {
                Method::Get => Ok(CallView::Get { target: target::target(root, path), path }),
                Method::Post => Ok(CallView::Post { target: target::target(root, path), path }),
                Method::Other => Ok(CallView::Reply(response::bare(405))),
            }
        },
    }
}

/// The view of the outcome of [`call`].
pub open spec fn call_view(outcome: Result<Call, PathError>) -> Result<CallView, PathError> {
    match outcome {
        Ok(call) => Ok(call@),
        Err(e) => Err(e),
    }
}

/// Decides what to do about a request to a share of `root`, by its method and its path as it was
/// sent.
pub fn call(method: Method, root: &[u8], raw_path: &str) -> (outcome: Result<Call, PathError>)
    ensures
        call_view(outcome) == called(method, root@, raw_path@),
{
    let path = match percent::percent_decode(raw_path) {
        Some(path) => path,
        None => {
            return Err(PathError::NotUtf8);
        },
    };
    if path.as_str().is_empty() || path.as_str().get_char(0) != '/' {
        return Err(PathError::NotAbsolute);
    }
    match method {
        Method::Get => {
            let target = target::target_path(root, path.as_str());
            Ok(Call::Get { target, path })
        },
        Method::Post => {
            let target = target::target_path(root, path.as_str());
            Ok(Call::Post { target, path })
        },
        Method::Other => Ok(Call::Reply(response::method_not_allowed())),
    }
}

/// What to do next about a request for a file or directory.
#[derive(Debug)]
pub enum GetStep {
    /// Send an answer.
    Reply(Response),
    /// Read the directory.
    ListDirectory,
    /// Send the file.
    SendFile,
}

/// The model of [`GetStep`].
pub enum GetStepView {
    Reply(ResponseView),
    ListDirectory,
    SendFile,
}

impl View for GetStep {
    type V = GetStepView;

    open spec fn view(&self) -> GetStepView {
        match *self {
            GetStep::Reply(response) => GetStepView::Reply(response@),
            GetStep::ListDirectory => GetStepView::ListDirectory,
            GetStep::SendFile => GetStepView::SendFile,
        }
    }
}

/// What is done about a decoded path.
pub open spec fn got(is_dir: Option<bool>, path: Seq<char>) -> GetStepView {
    match is_dir {
        None => GetStepView::Reply(response::bare(500)),
        Some(true) => if path.len() > 0 && path.last() == '/' {
            GetStepView::ListDirectory
        } else {
            GetStepView::Reply(response::found_view(path + "/"@))
        },
        Some(false) => GetStepView::SendFile,
    }
}

/// Decides how to serve the decoded path. Whether it leads to a directory is absent where the
/// metadata cannot be read.
pub fn handle_get(is_dir: Option<bool>, path: &str) -> (step: GetStep)
    ensures
        step@ == got(is_dir, path@),
{
    match is_dir {
        None => GetStep::Reply(response::internal_server_error()),
        Some(true) => {
            let len: usize = path.unicode_len();
            if len > 0 && path.get_char(len - 1) == '/' {
                GetStep::ListDirectory
            } else {
                GetStep::Reply(response::found(path.to_owned().concat("/")))
            }
        },
        Some(false) => GetStep::SendFile,
    }
}

/// Whether the entries are what is listed of a directory, in an order in which it may be listed.
pub open spec fn is_index(entries: Seq<ShareEntryView>, found: Seq<Option<DirEntry>>) -> bool {
    &&& entries.to_multiset() == share_entry::listed(found).to_multiset()
    &&& forall|i: int, j: int|
        0 <= i <= j < entries.len() ==> (#[trigger] entries[i]).may_precede(#[trigger] entries[j])
}

/// Answers with the listing of a directory, by what is found in it.
pub fn list_directory(
    found: Option<Vec<Option<DirEntry>>>,
    now: &Timestamp,
    assets: &Assets,
) -> (response: Response)
    ensures
        match found {
            None => response@ == response::bare(500),
            Some(found) => exists|entries: Seq<ShareEntryView>, sizes: Seq<Seq<char>>|
                {
                    &&& #[trigger] is_index(entries, found@)
                    &&& #[trigger] page::are_sizes(entries, sizes)
                    &&& response@ == response::page_view(
                        page::listing_markup(
                            entries,
                            sizes,
                            page::date_texts(entries, now@),
                            assets.style@,
                            assets.player@,
                        ),
                    )
                },
        },
{
    match share_entry::get_dir_index(found) {
        None => response::internal_server_error(),
        Some(entries) => {
            let ghost views = share_entry::entry_views(entries@);
            assert(is_index(views, found->0@)) by {
                assert forall|i: int, j: int| 0 <= i <= j < views.len() implies (
                #[trigger] views[i]).may_precede(#[trigger] views[j]) by {
                    assert(entries@[i]@.may_precede(entries@[j]@));
                }
            }
            response::page(page::render_index(&entries, now, assets))
        },
    }
}

/// The type of contents that start with the given bytes.
pub uninterp spec fn sniffed_type(bytes: Seq<u8>) -> Option<Seq<char>>;

/// Calls `mime_sniffer::MimeTypeSniffer::sniff_mime_type` on bytes. The claim is that the type
/// depends on the bytes alone; which bytes have which type is left unsaid.
#[verifier::external_body]
fn sniff(bytes: &[u8]) -> (content_type: Option<String>)
    ensures
        text::text_view(content_type) == sniffed_type(bytes@),
{
    bytes.sniff_mime_type().map(|content_type| content_type.to_owned())
}

/// The type of a file, by the first `len` bytes of `buf`, which were read off its start.
pub fn content_type(buf: &[u8], len: usize) -> (content_type: Option<String>)
    requires
        len <= buf@.len(),
    ensures
        text::text_view(content_type) == sniffed_type(buf@.take(len as int)),
{
    let start = vstd::slice::slice_subrange(buf, 0, len);
    assert(start@ =~= buf@.take(len as int));
    sniff(start)
}

/// What to do next about a request for an archive.
#[derive(Debug)]
pub enum PostStep {
    /// Send an answer.
    Reply(Response),
    /// Read the directory: all of it goes into the archive.
    ReadDirectory,
    /// Walk the selected files.
    Archive(Vec<String>),
    /// Give up: a selected file does not decode to UTF-8.
    Undecodable,
}

/// The model of [`PostStep`].
pub enum PostStepView {
    Reply(ResponseView),
    ReadDirectory,
    Archive(Seq<Seq<char>>),
    Undecodable,
}

impl View for PostStep {
    type V = PostStepView;

    open spec fn view(&self) -> PostStepView {
        match *self {
            PostStep::Reply(response) => PostStepView::Reply(response@),
            PostStep::ReadDirectory => PostStepView::ReadDirectory,
            PostStep::Archive(files) => PostStepView::Archive(text::text_views(files@)),
            PostStep::Undecodable => PostStepView::Undecodable,
        }
    }
}

/// What is done about a selection.
pub open spec fn posted(selection: Result<Seq<Seq<char>>, FormError>) -> PostStepView {
    match selection {
        Err(FormError::UnknownField) => PostStepView::Reply(response::bare(400)),
        Err(FormError::NotUtf8) => PostStepView::Undecodable,
        Ok(files) => if files.len() == 0 {
            PostStepView::ReadDirectory
        } else {
            PostStepView::Archive(files)
        },
    }
}

/// Decides what to put into an archive, by the body of the request for it.
pub fn handle_post(body: &[u8]) -> (step: PostStep)
    ensures
        step@ == posted(form::selection(form::form_fields(body@))),
{
    match form::selected_files(body) {
        Err(FormError::UnknownField) => PostStep::Reply(response::bad_request()),
        Err(FormError::NotUtf8) => PostStep::Undecodable,
        Ok(files) => {
            if files.is_empty() {
                PostStep::ReadDirectory
            } else {
                PostStep::Archive(files)
            }
        },
    }
}

/// The names of a directory that are not hidden.
pub open spec fn visible(names: Seq<Seq<u8>>) -> Seq<Seq<u8>>
    decreases names.len(),
{
    if names.len() == 0 {
        Seq::empty()
    } else if share_entry::hidden_name(names.last()) {
        visible(names.drop_last())
    } else {
        visible(names.drop_last()).push(names.last())
    }
}

/// The views of a sequence of names.
pub open spec fn name_views(names: Seq<Vec<u8>>) -> Seq<Seq<u8>> {
    names.map_values(|n: Vec<u8>| n@)
}

/// Selects all that is not hidden in a directory, by the names in it. There is no selection, and no
/// answer, where the directory cannot be read or such a name is not UTF-8.
pub fn visible_files(names: &Option<Vec<Vec<u8>>>) -> (files: Option<Vec<String>>)
    ensures
        files is Some <==> {
            &&& names is Some
            &&& forall|i: int|
                0 <= i < visible(name_views(names->0@)).len() ==> valid_utf8(
                    #[trigger] visible(name_views(names->0@))[i],
                )
        },
        files matches Some(files) ==> text::text_views(files@) == visible(
            name_views(names->0@),
        ).map_values(|n: Seq<u8>| decode_utf8(n)),
{
    let list = match names {
        Some(list) => list,
        None => {
            return None;
        },
    };
    let ghost views = name_views(list@);
    let ghost decode = |n: Seq<u8>| decode_utf8(n);
    let mut files: Vec<String> = Vec::new();
    let mut i: usize = 0;
    assert(views.take(0) =~= Seq::empty());
    while i < list.len()
        invariant
            i <= list.len(),
            *names == Some(*list),
            views == name_views(list@),
            decode == (|n: Seq<u8>| decode_utf8(n)),
            forall|k: int|
                0 <= k < visible(views.take(i as int)).len() ==> valid_utf8(
                    #[trigger] visible(views.take(i as int))[k],
                ),
            text::text_views(files@) == visible(views.take(i as int)).map_values(decode),
        decreases list.len() - i,
    {
        let ghost before = visible(views.take(i as int));
        let ghost files_before = files@;
        let name = list[i].as_slice();
        proof {
            assert(views.take(i + 1).drop_last() =~= views.take(i as int));
            assert(views.take(i + 1).last() == name@);
        }
        if !share_entry::is_hidden(name) {
            match text::text_of_utf8(name) {
                Some(file) => {
                    files.push(file);
                    proof {
                        assert(text::text_views(files@) =~= text::text_views(files_before).push(
                            file@,
                        ));
                        assert(before.push(name@).map_values(decode) =~= before.map_values(
                            decode,
                        ).push(decode_utf8(name@)));
                    }
                },
                None => {
                    proof {
                        lemma_visible_prefix(views, i + 1);
                        let k = before.len() as int;
                        assert(visible(views.take(i + 1))[k] == name@);
                        assert(!valid_utf8(visible(name_views(names->0@))[k]));
                    }
                    return None;
                },
            }
        }
        i += 1;
    }
    assert(views.take(i as int) =~= views);
    Some(files)
}

/// The visible names of the start of a directory are the first of its visible names.
proof fn lemma_visible_prefix(names: Seq<Seq<u8>>, i: int)
    requires
        0 <= i <= names.len(),
    ensures
        visible(names.take(i)).len() <= visible(names).len(),
        forall|k: int|
            0 <= k < visible(names.take(i)).len() ==> visible(names)[k] == visible(
                names.take(i),
            )[k],
    decreases names.len() - i,
{
    if i < names.len() {
        lemma_visible_prefix(names, i + 1);
        assert(names.take(i + 1).drop_last() =~= names.take(i));
    } else {
        assert(names.take(i) =~= names);
    }
}

/// Answers with the archive of the selected files of the decoded path, by what is met below them:
/// nothing where the archive is too long for its length to be told.
pub fn archive_response(
    path: &str,
    files: &Vec<String>,
    walks: &Vec<Vec<Option<WalkEntry>>>,
    platform: Platform,
) -> (response: Option<Response>)
    requires
        forall|i: int|
            0 <= i < walks@.len() ==> archive::has_paths((#[trigger] walks@[i])@, platform),
        archive::has_archive_name(path@, text::text_views(files@)),
    ensures
        response is Some <==> archive::archive_len(archive::walk_views(walks@), platform) <= u64::MAX,
        response matches Some(response) ==> response@ == response::archive_view(
            encode_utf8(archive::archive_name(path@, text::text_views(files@))),
            archive::archive_len(archive::walk_views(walks@), platform),
        ),
{
    let name = archive::get_archive_name(path, files);
    match archive::archive_size(walks, platform) {
        Some(size) => Some(response::archive(name.as_slice(), size)),
        None => None,
    }
}

/// The length that the answer announces is that of the archive that is sent, unless a path in it is
/// long and fills whole blocks.
pub proof fn lemma_announced_is_sent(
    name: Seq<u8>,
    parts: Seq<Seq<Seq<u8>>>,
    walks: Seq<Seq<Option<WalkEntry>>>,
    platform: Platform,
)
    requires
        parts.len() == walks.len(),
        forall|i: int|
            0 <= i < walks.len() ==> archive::are_written(#[trigger] parts[i], walks[i], platform),
        archive::filling_archive_entries(walks, platform) == 0,
    ensures
        response::archive_view(name, archive::archive_len(walks, platform)).content_length == Some(
            archive::archive_bytes(parts).len(),
        ),
{
    archive::lemma_sent_is_as_measured(parts, walks, platform);
}

/// What boxes are ticked is what goes into the archive: where a client submits the links of
/// entries, the entries are selected under the names that they are shown with. This holds of names
/// that are UTF-8 and have no escape in them.
pub proof fn lemma_ticked_is_selected(entries: Seq<ShareEntryView>)
    requires
        forall|i: int|
            0 <= i < entries.len() ==> {
                let name = (#[trigger] entries[i]).shown_name();
                valid_utf8(name) && !percent::has_escape(name)
            },
    ensures
        posted(
            form::selection(
                form::form_fields(
                    form::form_body(entries.map_values(|e: ShareEntryView| e.link())),
                ),
            ),
        ) == (if entries.len() == 0 {
            PostStepView::ReadDirectory
        } else {
            PostStepView::Archive(entries.map_values(|e: ShareEntryView| e.display_name()))
        }),
{
    form::lemma_form_round_trip(entries.map_values(|e: ShareEntryView| e.link()));
    lemma_selection_of_links(entries);
    assert(entries.map_values(|e: ShareEntryView| e.link()).map_values(
        |value: Seq<char>| ("s"@, value),
    ) =~= entries.map_values(|e: ShareEntryView| ("s"@, e.link())));
}

proof fn lemma_selection_of_links(entries: Seq<ShareEntryView>)
    requires
        forall|i: int|
            0 <= i < entries.len() ==> {
                let name = (#[trigger] entries[i]).shown_name();
                valid_utf8(name) && !percent::has_escape(name)
            },
    ensures
        form::selection(entries.map_values(|e: ShareEntryView| ("s"@, e.link()))) == Ok::<
            _,
            FormError,
        >(entries.map_values(|e: ShareEntryView| e.display_name())),
    decreases entries.len(),
{
    let fields = entries.map_values(|e: ShareEntryView| ("s"@, e.link()));
    let names = entries.map_values(|e: ShareEntryView| e.display_name());
    if entries.len() == 0 {
        assert(names =~= Seq::empty());
    } else {
        let rest = entries.skip(1);
        lemma_selection_of_links(rest);
        assert(fields.skip(1) =~= rest.map_values(|e: ShareEntryView| ("s"@, e.link())));
        assert(names =~= seq![entries[0].display_name()] + rest.map_values(
            |e: ShareEntryView| e.display_name(),
        ));
        percent::lemma_link_round_trip(entries[0].shown_name());
    }
}

/// A link in the listing of a directory leads to the entry: the request that a client makes by it
/// gets the path of the directory with the name of the entry behind it. This holds of names that
/// are UTF-8 and have no escape in them.
pub proof fn lemma_link_leads_to_entry(
    root: Seq<u8>,
    raw_dir: Seq<char>,
    dir: Seq<char>,
    entry: ShareEntryView,
)
    requires
        called(Method::Get, root, raw_dir) == Ok::<_, PathError>(
            CallView::Get { target: target::target(root, dir), path: dir },
        ),
        raw_dir.len() > 0 && raw_dir.last() == '/',
        valid_utf8(entry.shown_name()),
        !percent::has_escape(entry.shown_name()),
    ensures
        called(Method::Get, root, raw_dir + entry.link()) == Ok::<_, PathError>(
            CallView::Get {
                target: target::target(root, dir + entry.display_name()),
                path: dir + entry.display_name(),
            },
        ),
{
    let dir_bytes = encode_utf8(raw_dir);
    let link_bytes = encode_utf8(entry.link());
    text::lemma_encode_concat(raw_dir.drop_last(), seq!['/']);
    text::lemma_encode_ascii('/');
    assert(raw_dir =~= raw_dir.drop_last() + seq!['/']);
    assert(dir_bytes.last() == text::SLASH);
    text::lemma_encode_concat(raw_dir, entry.link());
    percent::lemma_decoded_concat(dir_bytes, link_bytes);
    percent::lemma_link_round_trip(entry.shown_name());
    text::lemma_decode_concat(percent::percent_decoded(dir_bytes), entry.shown_name());
    assert((dir + entry.display_name())[0] == dir[0]);
}

/// A client that is sent to another path for a directory gets its listing there. This holds of
/// paths without an escape in them.
pub proof fn lemma_redirect_leads_to_listing(root: Seq<u8>, path: Seq<char>)
    requires
        path.len() > 0 && path[0] == '/',
        !percent::has_escape(encode_utf8(path)),
    ensures
        called(Method::Get, root, path + "/"@) == Ok::<_, PathError>(
            CallView::Get { target: target::target(root, path + "/"@), path: path + "/"@ },
        ),
        got(Some(true), path + "/"@) == GetStepView::ListDirectory,
{
    reveal_strlit("/");
    let location = path + "/"@;
    assert("/"@ =~= seq!['/']);
    text::lemma_encode_concat(path, seq!['/']);
    text::lemma_encode_ascii('/');
    assert(encode_utf8(location) =~= encode_utf8(path).push(text::SLASH));
    percent::lemma_no_escape_with_slash(encode_utf8(path));
    percent::lemma_decoded_plain(encode_utf8(location));
    encode_utf8_valid_utf8(location);
    encode_utf8_decode_utf8(location);
    assert(location[0] == path[0]);
}

/// Where nothing is ticked, the archive holds what the listing shows: the visible names of a
/// directory are those of its listed entries, in the order in which they are found. This holds
/// where every entry can be read.
pub proof fn lemma_visible_is_listed(found: Seq<Option<DirEntry>>)
    requires
        forall|i: int|
            0 <= i < found.len() ==> {
                &&& (#[trigger] found[i]) is Some
                &&& share_entry::shared(found[i]->0) is Ok
            },
    ensures
        visible(found.map_values(|e: Option<DirEntry>| e->0.name@)) == share_entry::listed(
            found,
        ).map_values(|e: ShareEntryView| e.name),
    decreases found.len(),
{
    let names = found.map_values(|e: Option<DirEntry>| e->0.name@);
    let shown = share_entry::listed(found).map_values(|e: ShareEntryView| e.name);
    if found.len() == 0 {
        assert(visible(names) =~= shown);
    } else {
        let rest = found.drop_last();
        lemma_visible_is_listed(rest);
        assert(names.drop_last() =~= rest.map_values(|e: Option<DirEntry>| e->0.name@));
        assert(found[found.len() - 1] is Some);
        assert(visible(names) =~= shown);
    }
}

/// A request whose path decodes to an absolute one is answered by its method. GET and POST of one
/// path have one target, along which stand the names along the root, and then those along the
/// decoded path. Any other method is answered that it is not supported.
pub proof fn lemma_called(root: Seq<u8>, raw_path: Seq<char>, path: Seq<char>)
    requires
        percent::percent_decoded(encode_utf8(raw_path)) == encode_utf8(path),
        path.len() > 0 && path[0] == '/',
    ensures
        called(Method::Get, root, raw_path) matches Ok(CallView::Get { target, path: asked }) && {
            &&& asked == path
            &&& target::segments(target) == target::segments(root) + target::segments(
                encode_utf8(path),
            )
            &&& target == target::target(root, path)
            &&& called(Method::Post, root, raw_path) == Ok::<_, PathError>(
                CallView::Post { target, path },
            )
        },
        called(Method::Other, root, raw_path) matches Ok(CallView::Reply(response))
            && response.status == 405 && response.payload is Empty,
{
    percent::lemma_decoded_text(raw_path, path);
    target::lemma_target_below_root(root, path);
}

/// A request has no path that could be served, whatever its method is, exactly where the path does
/// not decode to UTF-8 or what it decodes to does not start with a slash.
pub proof fn lemma_call_error(method: Method, root: Seq<u8>, raw_path: Seq<char>)
    ensures
        called(method, root, raw_path) == Err::<CallView, _>(PathError::NotUtf8) <==> !valid_utf8(
            percent::percent_decoded(encode_utf8(raw_path)),
        ),
        called(method, root, raw_path) == Err::<CallView, _>(PathError::NotAbsolute) <==> {
            let bytes = percent::percent_decoded(encode_utf8(raw_path));
            valid_utf8(bytes) && (bytes.len() == 0 || decode_utf8(bytes)[0] != '/')
        },
{
    let bytes = percent::percent_decoded(encode_utf8(raw_path));
    if valid_utf8(bytes) {
        decode_utf8_encode_utf8(bytes);
        percent::lemma_decoded_text(raw_path, decode_utf8(bytes));
        if bytes.len() > 0 && decode_utf8(bytes).len() == 0 {
            assert(encode_utf8(decode_utf8(bytes)).len() == 0);
        }
    } else {
        percent::lemma_decoded_text(raw_path, Seq::empty());
    }
}

/// A path that cannot be read is answered that something went wrong. A directory is listed where its
/// path ends in a slash, and else the client is sent to the path with a slash behind it. All else
/// is sent as a file.
pub proof fn lemma_got(path: Seq<char>)
    ensures
        got(None, path) matches GetStepView::Reply(response) && response.status == 500
            && response.location is None,
        got(Some(false), path) is SendFile,
        path.len() > 0 && path.last() == '/' ==> got(Some(true), path) is ListDirectory,
        path.len() == 0 || path.last() != '/' ==> {
            got(Some(true), path) matches GetStepView::Reply(response) && response.status == 302
                && response.location == Some(path.push('/'))
        },
{
    reveal_strlit("/");
    assert(path + "/"@ =~= path.push('/'));
}

/// All selected files go into the archive, and where none is, the directory does. A form with an
/// unknown field is answered that it makes no sense.
pub proof fn lemma_posted(files: Seq<Seq<char>>)
    ensures
        files.len() > 0 ==> posted(Ok(files)) == PostStepView::Archive(files),
        files.len() == 0 ==> posted(Ok(files)) is ReadDirectory,
        posted(Err(FormError::UnknownField)) matches PostStepView::Reply(response)
            && response.status == 400,
        posted(Err(FormError::NotUtf8)) is Undecodable,
{
}

/// The visible names of two halves of a directory are those of the one, and then those of the other.
/// A name is visible exactly where its first byte is not a dot.
pub proof fn lemma_visible(a: Seq<Seq<u8>>, b: Seq<Seq<u8>>, name: Seq<u8>)
    ensures
        visible(Seq::empty()).len() == 0,
        visible(a + b) == visible(a) + visible(b),
        visible(seq![name]) == (if name.len() > 0 && name[0] == 46 {
            Seq::empty()
        } else {
            seq![name]
        }),
    decreases b.len(),
{
    reveal_with_fuel(visible, 2);
    assert(seq![name].drop_last() =~= Seq::empty());
    assert(seq![name].last() == name);
    assert(Seq::<Seq<u8>>::empty().push(name) =~= seq![name]);
    if b.len() == 0 {
        assert(a + b =~= a);
        assert(visible(a) + visible(b) =~= visible(a));
    } else {
        assert((a + b).drop_last() =~= a + b.drop_last());
        lemma_visible(a, b.drop_last(), name);
        assert(visible(a + b) =~= visible(a) + visible(b));
    }
}

/// The index of a directory holds each listed entry as often as it is listed, and nothing else. No
/// file stands in it before a directory, and none of a kind before one that was modified earlier.
pub proof fn lemma_index(entries: Seq<ShareEntryView>, found: Seq<Option<DirEntry>>)
    requires
        is_index(entries, found),
    ensures
        entries.len() == share_entry::listed(found).len(),
        forall|e: ShareEntryView|
            entries.to_multiset().count(e) == #[trigger] share_entry::listed(
                found,
            ).to_multiset().count(e),
        forall|i: int, j: int|
            0 <= i < j < entries.len() ==> {
                &&& (#[trigger] entries[j]).is_dir ==> (#[trigger] entries[i]).is_dir
                &&& entries[i].is_dir == entries[j].is_dir ==> entries[i].date <= entries[j].date
            },
{
    broadcast use vstd::seq_lib::group_to_multiset_ensures;

    assert(entries.to_multiset().len() == entries.len());
    assert(share_entry::listed(found).to_multiset().len() == share_entry::listed(found).len());
    assert forall|i: int, j: int| 0 <= i < j < entries.len() implies {
        &&& (#[trigger] entries[j]).is_dir ==> (#[trigger] entries[i]).is_dir
        &&& entries[i].is_dir == entries[j].is_dir ==> entries[i].date <= entries[j].date
    } by {
        assert(entries[i].may_precede(entries[j]));
    }
}

/// The models of what is decided hold what is decided.
pub proof fn lemma_step_views(
    call: Call,
    outcome: Result<Call, PathError>,
    get: GetStep,
    post: PostStep,
    names: Seq<Vec<u8>>,
)
    ensures
        match call {
            Call::Get { target, path } => call@ == CallView::Get { target: target@, path: path@ },
            Call::Post { target, path } => call@ == CallView::Post { target: target@, path: path@ },
            Call::Reply(response) => call@ == CallView::Reply(response@),
        },
        match outcome {
            Ok(call) => call_view(outcome) == Ok::<_, PathError>(call@),
            Err(e) => call_view(outcome) == Err::<CallView, _>(e),
        },
        match get {
            GetStep::Reply(response) => get@ == GetStepView::Reply(response@),
            GetStep::ListDirectory => get@ is ListDirectory,
            GetStep::SendFile => get@ is SendFile,
        },
        match post {
            PostStep::Reply(response) => post@ == PostStepView::Reply(response@),
            PostStep::ReadDirectory => post@ is ReadDirectory,
            PostStep::Archive(files) => {
                &&& post@ is Archive
                &&& post@->Archive_0.len() == files@.len()
                &&& forall|i: int|
                    0 <= i < files@.len() ==> #[trigger] post@->Archive_0[i] == files@[i]@
            },
            PostStep::Undecodable => post@ is Undecodable,
        },
        name_views(names).len() == names.len(),
        forall|i: int| 0 <= i < names.len() ==> #[trigger] name_views(names)[i] == names[i]@,
{
}

} // verus!
