//! The archive that a download consists of: what goes into it, how long it gets, and its name.

use vstd::prelude::*;
use vstd::utf8::*;

use crate::share_entry;
use crate::text;

verus! {

/// The length of the blocks that an archive is made of.
pub const BLOCK: u64 = 512;

/// The length of the longest path that fits into the header of an entry.
pub const SHORT_PATH: u64 = 100;

/// The length of the two empty blocks that end an archive.
pub const TRAILER: u64 = 1024;

/// The byte `\`.
pub const BACKSLASH: u8 = 92;

/// A family of platforms, by how it writes paths.
#[derive(Debug, Clone, Copy, PartialEq, Eq, Structural)]
pub enum Platform {
    Unix,
    Windows,
}

/// A path is not Unicode text on a platform whose paths have to be.
#[derive(Debug, Clone, Copy, PartialEq, Eq, Structural)]
pub struct NotUnicode;

/// The path with its separators as they are written in an archive.
pub open spec fn slashed(path: Seq<u8>) -> Seq<u8> {
    path.map_values(
        |b: u8|
            if b == BACKSLASH {
                text::SLASH
            } else {
                b
            },
    )
}

/// The bytes of a path as they are written in an archive.
pub open spec fn path_bytes(path: Seq<u8>, platform: Platform) -> Result<Seq<u8>, NotUnicode> {
    match platform {
        Platform::Unix => Ok(path),
        Platform::Windows => if valid_utf8(path) {
            Ok(slashed(path))
        } else {
            Err(NotUnicode)
        },
    }
}

/// Gives the bytes of a path as they are written in an archive. On Unix this never fails.
pub fn path2bytes(path: &[u8], platform: Platform) -> (bytes: Result<Vec<u8>, NotUnicode>)
    ensures
        match bytes {
            Ok(bytes) => path_bytes(path@, platform) == Ok::<_, NotUnicode>(bytes@),
            Err(e) => path_bytes(path@, platform) == Err::<Seq<u8>, _>(e),
        },
{
    match platform {
        Platform::Unix => Ok(vstd::slice::slice_to_vec(path)),
        Platform::Windows => {
            if text::text_of_utf8(path).is_none() {
                return Err(NotUnicode);
            }
            let mut bytes: Vec<u8> = Vec::new();
            let mut i: usize = 0;
            while i < path.len()
                invariant
                    i <= path.len(),
                    bytes@ == slashed(path@.take(i as int)),
                decreases path.len() - i,
            {
                let b = if path[i] == BACKSLASH {
                    text::SLASH
                } else {
                    path[i]
                };
                bytes.push(b);
                i += 1;
                assert(bytes@ =~= slashed(path@.take(i as int)));
            }
            assert(path@.take(i as int) =~= path@);
            Ok(bytes)
        },
    }
}

/// Whether an entry with this name is left out of archives, with everything below it.
pub open spec fn skipped_name(name: Seq<u8>) -> bool {
    !valid_utf8(name) || share_entry::hidden_name(name)
}

/// Tells whether an entry with this name is left out of archives.
pub fn is_hidden(name: &[u8]) -> (hidden: bool)
    ensures
        hidden == skipped_name(name@),
{
    match text::text_of_utf8(name) {
        None => true,
        Some(_) => share_entry::is_hidden(name),
    }
}

/// What the file system tells of an entry that goes into an archive.
#[derive(Debug, Clone, Copy)]
pub struct WalkMetadata {
    pub is_dir: bool,
    pub len: u64,
}

/// An entry as it is met on a walk below the selected files.
#[derive(Debug)]
pub struct WalkEntry {
    /// Absent where the metadata cannot be read.
    pub metadata: Option<WalkMetadata>,
    /// The path below the shared directory. Absent where the entry lies elsewhere.
    pub relative_path: Option<Vec<u8>>,
}

/// Why an entry does not go into an archive.
#[derive(Debug, Clone, Copy, PartialEq, Eq, Structural)]
pub enum WalkError {
    /// The metadata cannot be read.
    Metadata,
    /// The entry does not lie below the shared directory.
    Prefix,
    /// The entry is too long for its length to be told.
    TooLong,
}

/// A length, filled up to whole blocks.
pub open spec fn padded(len: nat) -> nat {
    (len + (BLOCK - 1) as nat) / BLOCK as nat * BLOCK as nat
}

/// The length of an entry in an archive: a header, for a long path another header and the path,
/// and the contents of a file.
pub open spec fn entry_len(path_len: nat, is_dir: bool, len: nat) -> nat {
    BLOCK as nat + (if path_len > SHORT_PATH {
        BLOCK as nat + padded(path_len)
    } else {
        0
    }) + (if is_dir {
        0
    } else {
        padded(len)
    })
}

/// Whether the path of an entry can be written in an archive, where it comes to that.
pub open spec fn has_path_bytes(entry: WalkEntry, platform: Platform) -> bool {
    entry.metadata is Some && entry.relative_path is Some ==> path_bytes(
        entry.relative_path->0@,
        platform,
    ) is Ok
}

/// The length that an entry of a walk takes up in an archive.
pub open spec fn walked_len(entry: WalkEntry, platform: Platform) -> Result<nat, WalkError> {
    match entry.metadata {
        None => Err(WalkError::Metadata),
        Some(metadata) => match entry.relative_path {
            None => Err(WalkError::Prefix),
            Some(path) => Ok(
                entry_len(
                    path_bytes(path@, platform)->Ok_0.len(),
                    metadata.is_dir,
                    metadata.len as nat,
                ),
            ),
        },
    }
}

/// Measures the length that an entry takes up in an archive.
pub fn entry_size(entry: &WalkEntry, platform: Platform) -> (size: Result<u64, WalkError>)
    requires
        has_path_bytes(*entry, platform),
    ensures
        match walked_len(*entry, platform) {
            Ok(len) => if len <= u64::MAX {
                size matches Ok(n) && n == len
            } else {
                size == Err::<u64, _>(WalkError::TooLong)
            },
            Err(e) => size == Err::<u64, _>(e),
        },
{
    let metadata = match &entry.metadata {
        Some(metadata) => metadata,
        None => {
            return Err(WalkError::Metadata);
        },
    };
    let path = match &entry.relative_path {
        Some(path) => path,
        None => {
            return Err(WalkError::Prefix);
        },
    };
    let block: u128 = BLOCK as u128;
    let mut header_len: u128 = block;
    let path_len: u128 = match path2bytes(path.as_slice(), platform) {
        Ok(bytes) => bytes.len() as u128,
        // Ruled out by the precondition.
        Err(_) => 0,
    };
    if path_len > SHORT_PATH as u128 {
        header_len = header_len + block + path_len;
        if path_len % block > 0 {
            header_len = header_len + (block - path_len % block);
        }
    }
    if !metadata.is_dir {
        let mut len: u128 = metadata.len as u128;
        if len % block > 0 {
            len = len + (block - len % block);
        }
        header_len = header_len + len;
    }
    if header_len <= u64::MAX as u128 {
        Ok(header_len as u64)
    } else {
        Err(WalkError::TooLong)
    }
}

/// The length that a walk takes up in an archive. Entries that cannot be read take up nothing; one
/// that the walk could not even step on is `None`.
pub open spec fn walk_len(walk: Seq<Option<WalkEntry>>, platform: Platform) -> nat
    decreases walk.len(),
{
    if walk.len() == 0 {
        0
    } else {
        walk_len(walk.drop_last(), platform) + (match walk.last() {
            None => 0nat,
            Some(entry) => match walked_len(entry, platform) {
                Ok(len) => len,
                Err(_) => 0,
            },
        })
    }
}

/// A walk is at least as long as any start of it.
proof fn lemma_walk_len_grows(walk: Seq<Option<WalkEntry>>, platform: Platform, i: int)
    requires
        0 <= i <= walk.len(),
    ensures
        walk_len(walk.take(i), platform) <= walk_len(walk, platform),
    decreases walk.len() - i,
{
    if i < walk.len() {
        lemma_walk_len_grows(walk, platform, i + 1);
        assert(walk.take(i + 1).drop_last() =~= walk.take(i));
    } else {
        assert(walk.take(i) =~= walk);
    }
}

/// Whether the paths of a walk can be written in an archive.
pub open spec fn has_paths(walk: Seq<Option<WalkEntry>>, platform: Platform) -> bool {
    forall|i: int|
        0 <= i < walk.len() ==> (#[trigger] walk[i] matches Some(entry) ==> has_path_bytes(
            entry,
            platform,
        ))
}

/// Measures the length that a walk takes up in an archive: nothing where it is too long to be told.
pub fn measure_entry(walk: &Vec<Option<WalkEntry>>, platform: Platform) -> (size: Option<u64>)
    requires
        has_paths(walk@, platform),
    ensures
        match size {
            Some(n) => n == walk_len(walk@, platform),
            None => walk_len(walk@, platform) > u64::MAX,
        },
{
    let mut total_size: u64 = 0;
    let mut i: usize = 0;
    while i < walk.len()
        invariant
            i <= walk.len(),
            has_paths(walk@, platform),
            total_size == walk_len(walk@.take(i as int), platform),
        decreases walk.len() - i,
    {
        proof {
            lemma_walk_len_grows(walk@, platform, i + 1);
            assert(walk@.take(i + 1).drop_last() =~= walk@.take(i as int));
        }
        if let Some(entry) = &walk[i] {
            match entry_size(entry, platform) {
                Ok(size) => match total_size.checked_add(size) {
                    Some(sum) => {
                        total_size = sum;
                    },
                    None => {
                        return None;
                    },
                },
                Err(WalkError::TooLong) => {
                    return None;
                },
                Err(_) => {},
            }
        }
        i += 1;
    }
    assert(walk@.take(i as int) =~= walk@);
    Some(total_size)
}

/// The walks of an archive.
pub open spec fn walk_views(walks: Seq<Vec<Option<WalkEntry>>>) -> Seq<Seq<Option<WalkEntry>>> {
    walks.map_values(|w: Vec<Option<WalkEntry>>| w@)
}

/// The length of an archive: that of its walks, and of the blocks that end it.
pub open spec fn archive_len(walks: Seq<Seq<Option<WalkEntry>>>, platform: Platform) -> nat
    decreases walks.len(),
{
    if walks.len() == 0 {
        TRAILER as nat
    } else {
        archive_len(walks.drop_last(), platform) + walk_len(walks.last(), platform)
    }
}

/// An archive is at least as long as one of its first walks only.
proof fn lemma_archive_len_grows(walks: Seq<Seq<Option<WalkEntry>>>, platform: Platform, i: int)
    requires
        0 <= i <= walks.len(),
    ensures
        archive_len(walks.take(i), platform) <= archive_len(walks, platform),
    decreases walks.len() - i,
{
    if i < walks.len() {
        lemma_archive_len_grows(walks, platform, i + 1);
        assert(walks.take(i + 1).drop_last() =~= walks.take(i));
    } else {
        assert(walks.take(i) =~= walks);
    }
}

/// Measures an archive: nothing where it is too long to be told.
pub fn archive_size(walks: &Vec<Vec<Option<WalkEntry>>>, platform: Platform) -> (size: Option<u64>)
    requires
        forall|i: int| 0 <= i < walks@.len() ==> has_paths((#[trigger] walks@[i])@, platform),
    ensures
        match size {
            Some(n) => n == archive_len(walk_views(walks@), platform),
            None => archive_len(walk_views(walks@), platform) > u64::MAX,
        },
{
    let ghost views = walk_views(walks@);
    let mut archive_size: u64 = TRAILER;
    let mut i: usize = 0;
    while i < walks.len()
        invariant
            i <= walks.len(),
            forall|i: int| 0 <= i < walks@.len() ==> has_paths((#[trigger] walks@[i])@, platform),
            views == walk_views(walks@),
            archive_size == archive_len(views.take(i as int), platform),
        decreases walks.len() - i,
    {
        proof {
            lemma_archive_len_grows(views, platform, i + 1);
            assert(views.take(i + 1).drop_last() =~= views.take(i as int));
        }
        match measure_entry(&walks[i], platform) {
            Some(size) => match archive_size.checked_add(size) {
                Some(sum) => {
                    archive_size = sum;
                },
                None => {
                    return None;
                },
            },
            None => {
                return None;
            },
        }
        i += 1;
    }
    assert(views.take(i as int) =~= views);
    Some(archive_size)
}

/// How an entry is added to an archive.
#[derive(Debug, Clone, Copy, PartialEq, Eq, Structural)]
pub enum WriteStep {
    /// Add the directory itself.
    AppendDir,
    /// Open the file and add its contents.
    AppendFile,
}

/// How an entry of a walk is added to an archive.
pub open spec fn write_step(entry: WalkEntry) -> Result<WriteStep, WalkError> {
    match entry.metadata {
        None => Err(WalkError::Metadata),
        Some(metadata) => if entry.relative_path is None {
            Err(WalkError::Prefix)
        } else if metadata.is_dir {
            Ok(WriteStep::AppendDir)
        } else {
            Ok(WriteStep::AppendFile)
        },
    }
}

/// Decides how an entry of a walk is added to an archive.
pub fn write_entry(entry: &WalkEntry) -> (step: Result<WriteStep, WalkError>)
    ensures
        step == write_step(*entry),
{
    match &entry.metadata {
        None => Err(WalkError::Metadata),
        Some(metadata) => match &entry.relative_path {
            None => Err(WalkError::Prefix),
            Some(_) => if metadata.is_dir {
                Ok(WriteStep::AppendDir)
            } else {
                Ok(WriteStep::AppendFile)
            },
        },
    }
}

/// A text without the slashes that it ends in.
pub open spec fn without_slashes(s: Seq<char>) -> Seq<char>
    decreases s.len(),
{
    if s.len() > 0 && s.last() == '/' {
        without_slashes(s.drop_last())
    } else {
        s
    }
}

/// What stands behind the last slash of a text.
pub open spec fn last_segment(s: Seq<char>) -> Seq<char>
    decreases s.len(),
{
    if s.len() == 0 || s.last() == '/' {
        Seq::empty()
    } else {
        last_segment(s.drop_last()).push(s.last())
    }
}

/// The name of an archive: that of the file where there is one only, else that of the directory.
pub open spec fn archive_name(path: Seq<char>, files: Seq<Seq<char>>) -> Seq<char> {
    if files.len() == 1 {
        without_slashes(files[0]) + ".tar"@
    } else if path == "/"@ {
        "archive.tar"@
    } else {
        last_segment(without_slashes(path)) + ".tar"@
    }
}

/// Whether there is a name for an archive of these files of the directory.
pub open spec fn has_archive_name(path: Seq<char>, files: Seq<Seq<char>>) -> bool {
    files.len() == 1 || path == "/"@ || without_slashes(path).contains('/')
}

/// Tells whether there is a name for an archive of these files of the directory.
pub fn can_name_archive(path: &str, files: &Vec<String>) -> (named: bool)
    ensures
        named == has_archive_name(path@, text::text_views(files@)),
{
    proof {
        reveal_strlit("/");
    }
    if files.len() == 1 {
        return true;
    }
    if path.unicode_len() == 1 && path.get_char(0) == '/' {
        assert(path@ =~= "/"@);
        return true;
    }
    let trimmed = trim_slashes(path);
    let len: usize = trimmed.unicode_len();
    let mut i: usize = 0;
    while i < len
        invariant
            i <= len,
            len == trimmed@.len(),
            trimmed@ == without_slashes(path@),
            forall|k: int| 0 <= k < i ==> trimmed@[k] != '/',
            has_archive_name(path@, text::text_views(files@)) == trimmed@.contains('/'),
        decreases len - i,
    {
        if trimmed.get_char(i) == '/' {
            assert(trimmed@[i as int] == '/');
            return true;
        }
        i += 1;
    }
    false
}

fn trim_slashes(s: &str) -> (trimmed: &str)
    ensures
        trimmed@ == without_slashes(s@),
{
    let mut end: usize = s.unicode_len();
    assert(s@.take(end as int) =~= s@);
    while end > 0 && s.get_char(end - 1) == '/'
        invariant
            end <= s@.len(),
            without_slashes(s@.take(end as int)) == without_slashes(s@),
        decreases end,
    {
        assert(s@.take(end as int).drop_last() =~= s@.take(end - 1));
        end -= 1;
    }
    s.substring_char(0, end)
}

fn segment(s: &str) -> (segment: &str)
    ensures
        segment@ == last_segment(s@),
{
    let len: usize = s.unicode_len();
    let mut start: usize = len;
    assert(s@.take(start as int) =~= s@);
    assert(last_segment(s@) =~= last_segment(s@) + s@.skip(start as int));
    while start > 0 && s.get_char(start - 1) != '/'
        invariant
            start <= len,
            len == s@.len(),
            last_segment(s@) == last_segment(s@.take(start as int)) + s@.skip(start as int),
        decreases start,
    {
        proof {
            assert(s@.take(start as int).drop_last() =~= s@.take(start - 1));
            let before = last_segment(s@.take(start - 1));
            assert(before.push(s@[start - 1]) + s@.skip(start as int) =~= before + s@.skip(
                start - 1,
            ));
        }
        start -= 1;
    }
    assert(last_segment(s@.take(start as int)) =~= Seq::empty());
    assert(last_segment(s@) =~= s@.subrange(start as int, len as int));
    s.substring_char(start, len)
}

/// Names the archive of the selected files of a directory.
pub fn get_archive_name(path: &str, files: &Vec<String>) -> (name: Vec<u8>)
    requires
        has_archive_name(path@, text::text_views(files@)),
    ensures
        name@ == encode_utf8(archive_name(path@, text::text_views(files@))),
{
    proof {
        reveal_strlit("/");
    }
    let name: String = if files.len() == 1 {
        trim_slashes(files[0].as_str()).to_owned().concat(".tar")
    } else if path.unicode_len() == 1 && path.get_char(0) == '/' {
        assert(path@ =~= "/"@);
        "archive.tar".to_owned()
    } else {
        segment(trim_slashes(path)).to_owned().concat(".tar")
    };
    name.as_str().as_bytes_vec()
}

/// The bytes of a path are as many on every platform, and no backslash is among those of a path on
/// Windows.
pub proof fn lemma_path_bytes(path: Seq<u8>, platform: Platform)
    requires
        path_bytes(path, platform) is Ok,
    ensures
        path_bytes(path, platform)->Ok_0.len() == path.len(),
        platform == Platform::Windows ==> !path_bytes(path, platform)->Ok_0.contains(BACKSLASH),
{
}

/// Whole blocks, and no more of them than the length takes.
#[verifier::spinoff_prover]
pub proof fn lemma_padded(len: nat)
    ensures
        padded(len) % BLOCK as nat == 0,
        len <= padded(len) < len + BLOCK,
{
}

/// An entry takes up whole blocks, and at least its header.
pub proof fn lemma_entry_is_blocks(path_len: nat, is_dir: bool, len: nat)
    ensures
        entry_len(path_len, is_dir, len) % BLOCK as nat == 0,
        entry_len(path_len, is_dir, len) >= BLOCK,
{
}

/// The length of an entry as the GNU format lays it out: the path that follows the additional
/// header of a long path ends in a zero byte.
pub open spec fn gnu_entry_len(path_len: nat, is_dir: bool, len: nat) -> nat {
    BLOCK as nat + (if path_len > SHORT_PATH {
        BLOCK as nat + padded(path_len + 1)
    } else {
        0
    }) + (if is_dir {
        0
    } else {
        padded(len)
    })
}

#[verifier::spinoff_prover]
proof fn lemma_padded_next(len: nat)
    ensures
        padded(len + 1) == padded(len) + (if len % BLOCK as nat == 0 {
            BLOCK as nat
        } else {
            0
        }),
{
    if len % BLOCK as nat == 0 {
        lemma_room(len, len);
        lemma_room(len + 1, len + BLOCK as nat);
    } else {
        lemma_padded(len);
        lemma_room(len + 1, padded(len));
    }
}

/// An entry is measured as the GNU format lays it out, unless its path is long and fills whole
/// blocks: then it is measured one block short.
#[verifier::spinoff_prover]
pub proof fn lemma_entry_len_is_gnu(path_len: nat, is_dir: bool, len: nat)
    ensures
        gnu_entry_len(path_len, is_dir, len) == entry_len(path_len, is_dir, len) + (if path_len
            > SHORT_PATH && path_len % BLOCK as nat == 0 {
            BLOCK as nat
        } else {
            0
        }),
{
    lemma_padded_next(path_len);
}

proof fn lemma_walk_is_blocks(walk: Seq<Option<WalkEntry>>, platform: Platform)
    ensures
        walk_len(walk, platform) % BLOCK as nat == 0,
    decreases walk.len(),
{
    if walk.len() > 0 {
        lemma_walk_is_blocks(walk.drop_last(), platform);
    }
}

/// An archive consists of whole blocks and has at least the two that end it.
pub proof fn lemma_archive_is_blocks(walks: Seq<Seq<Option<WalkEntry>>>, platform: Platform)
    ensures
        archive_len(walks, platform) % BLOCK as nat == 0,
        archive_len(walks, platform) >= TRAILER,
    decreases walks.len(),
{
    if walks.len() > 0 {
        lemma_archive_is_blocks(walks.drop_last(), platform);
        lemma_walk_is_blocks(walks.last(), platform);
    }
}

/// Two walks take up together what they take up one by one.
pub proof fn lemma_walk_len_adds(
    a: Seq<Option<WalkEntry>>,
    b: Seq<Option<WalkEntry>>,
    platform: Platform,
)
    ensures
        walk_len(a + b, platform) == walk_len(a, platform) + walk_len(b, platform),
    decreases b.len(),
{
    if b.len() == 0 {
        assert(a + b =~= a);
    } else {
        assert((a + b).drop_last() =~= a + b.drop_last());
        lemma_walk_len_adds(a, b.drop_last(), platform);
    }
}

/// An entry is measured exactly where it is added to the archive, and left out for the same reason.
pub proof fn lemma_measured_where_written(entry: WalkEntry, platform: Platform)
    ensures
        walked_len(entry, platform) is Ok <==> write_step(entry) is Ok,
        write_step(entry) matches Err(e) ==> walked_len(entry, platform) == Err::<nat, _>(e),
{
}

/// The length that an entry of a walk has once it is added to an archive in the GNU format.
pub open spec fn written_len(entry: WalkEntry, platform: Platform) -> nat {
    match write_step(entry) {
        Ok(step) => gnu_entry_len(
            path_bytes(entry.relative_path->0@, platform)->Ok_0.len(),
            step == WriteStep::AppendDir,
            entry.metadata->0.len as nat,
        ),
        Err(_) => 0,
    }
}

/// The length that a walk has once it is added to an archive in the GNU format.
pub open spec fn written_walk_len(walk: Seq<Option<WalkEntry>>, platform: Platform) -> nat
    decreases walk.len(),
{
    if walk.len() == 0 {
        0
    } else {
        written_walk_len(walk.drop_last(), platform) + (match walk.last() {
            None => 0nat,
            Some(entry) => written_len(entry, platform),
        })
    }
}

/// The length of a finished archive in the GNU format.
pub open spec fn written_archive_len(
    walks: Seq<Seq<Option<WalkEntry>>>,
    platform: Platform,
) -> nat
    decreases walks.len(),
{
    if walks.len() == 0 {
        TRAILER as nat
    } else {
        written_archive_len(walks.drop_last(), platform) + written_walk_len(walks.last(), platform)
    }
}

/// Whether the path of an entry is long and fills whole blocks.
pub open spec fn fills_blocks(entry: WalkEntry, platform: Platform) -> bool {
    &&& write_step(entry) is Ok
    &&& path_bytes(entry.relative_path->0@, platform)->Ok_0.len() > SHORT_PATH
    &&& path_bytes(entry.relative_path->0@, platform)->Ok_0.len() % BLOCK as nat == 0
}

/// The number of entries of a walk whose paths are long and fill whole blocks.
pub open spec fn filling_entries(walk: Seq<Option<WalkEntry>>, platform: Platform) -> nat
    decreases walk.len(),
{
    if walk.len() == 0 {
        0
    } else {
        filling_entries(walk.drop_last(), platform) + (match walk.last() {
            None => 0nat,
            Some(entry) => if fills_blocks(entry, platform) {
                1
            } else {
                0
            },
        })
    }
}

/// The number of entries of an archive whose paths are long and fill whole blocks.
pub open spec fn filling_archive_entries(
    walks: Seq<Seq<Option<WalkEntry>>>,
    platform: Platform,
) -> nat
    decreases walks.len(),
{
    if walks.len() == 0 {
        0
    } else {
        filling_archive_entries(walks.drop_last(), platform) + filling_entries(
            walks.last(),
            platform,
        )
    }
}

/// A walk takes up as much as it was measured before it is written, but for one block for each entry
/// whose path is long and fills whole blocks.
pub proof fn lemma_walk_len_is_written(walk: Seq<Option<WalkEntry>>, platform: Platform)
    ensures
        written_walk_len(walk, platform) == walk_len(walk, platform) + BLOCK as nat
            * filling_entries(walk, platform),
    decreases walk.len(),
{
    if walk.len() > 0 {
        lemma_walk_len_is_written(walk.drop_last(), platform);
        if let Some(entry) = walk.last() {
            if write_step(entry) is Ok {
                lemma_entry_len_is_gnu(
                    path_bytes(entry.relative_path->0@, platform)->Ok_0.len(),
                    entry.metadata->0.is_dir,
                    entry.metadata->0.len as nat,
                );
            }
        }
    }
}

/// An archive is as long as it was measured before it is written, but for one block for each entry
/// whose path is long and fills whole blocks.
pub proof fn lemma_archive_len_is_written(
    walks: Seq<Seq<Option<WalkEntry>>>,
    platform: Platform,
)
    ensures
        written_archive_len(walks, platform) == archive_len(walks, platform) + BLOCK as nat
            * filling_archive_entries(walks, platform),
    decreases walks.len(),
{
    if walks.len() > 0 {
        lemma_archive_len_is_written(walks.drop_last(), platform);
        lemma_walk_len_is_written(walks.last(), platform);
    }
}

/// Zero bytes.
pub open spec fn zeros(n: nat) -> Seq<u8> {
    Seq::new(n, |i: int| 0u8)
}

/// Bytes, filled up to whole blocks.
pub open spec fn filled(bytes: Seq<u8>) -> Seq<u8> {
    bytes + zeros((padded(bytes.len()) - bytes.len()) as nat)
}

/// Whether bytes are those of an entry in the GNU format, with the given headers and contents. The
/// path that follows the additional header of a long path ends in a zero byte.
pub open spec fn lays_out(
    bytes: Seq<u8>,
    path: Seq<u8>,
    long_header: Seq<u8>,
    header: Seq<u8>,
    contents: Seq<u8>,
) -> bool {
    &&& long_header.len() == BLOCK
    &&& header.len() == BLOCK
    &&& bytes == (if path.len() > SHORT_PATH {
        long_header + filled(path.push(0))
    } else {
        Seq::empty()
    }) + header + filled(contents)
}

/// Whether bytes are what is added to an archive in the GNU format for an entry that is met on a
/// walk: nothing where the entry is left out, and the contents in full where it is a file.
pub open spec fn is_written(
    bytes: Seq<u8>,
    met: Option<WalkEntry>,
    platform: Platform,
) -> bool {
    match met {
        Some(entry) if write_step(entry) is Ok => exists|
            long_header: Seq<u8>,
            header: Seq<u8>,
            contents: Seq<u8>,
        |
            {
                &&& #[trigger] lays_out(
                    bytes,
                    path_bytes(entry.relative_path->0@, platform)->Ok_0,
                    long_header,
                    header,
                    contents,
                )
                &&& contents.len() == (if entry.metadata->0.is_dir {
                    0
                } else {
                    entry.metadata->0.len as nat
                })
            },
        _ => bytes == Seq::<u8>::empty(),
    }
}

/// Whether the parts are what is added to an archive for a walk, one for each entry.
pub open spec fn are_written(
    parts: Seq<Seq<u8>>,
    walk: Seq<Option<WalkEntry>>,
    platform: Platform,
) -> bool {
    &&& parts.len() == walk.len()
    &&& forall|i: int| 0 <= i < walk.len() ==> is_written(#[trigger] parts[i], walk[i], platform)
}

/// Parts in a row.
pub open spec fn in_a_row(parts: Seq<Seq<u8>>) -> Seq<u8>
    decreases parts.len(),
{
    if parts.len() == 0 {
        Seq::empty()
    } else {
        in_a_row(parts.drop_last()) + parts.last()
    }
}

/// The bytes of a finished archive: those of its walks in a row, and the zero bytes that end it.
pub open spec fn archive_bytes(walks: Seq<Seq<Seq<u8>>>) -> Seq<u8> {
    in_a_row(walks.map_values(|parts: Seq<Seq<u8>>| in_a_row(parts))) + zeros(TRAILER as nat)
}

proof fn lemma_written_len(bytes: Seq<u8>, met: Option<WalkEntry>, platform: Platform)
    requires
        is_written(bytes, met, platform),
    ensures
        bytes.len() == (match met {
            Some(entry) => written_len(entry, platform),
            None => 0,
        }),
{
    if let Some(entry) = met {
        if write_step(entry) is Ok {
            let path = path_bytes(entry.relative_path->0@, platform)->Ok_0;
            let (long_header, header, contents) = choose|
                long_header: Seq<u8>,
                header: Seq<u8>,
                contents: Seq<u8>,
            |
                {
                    &&& #[trigger] lays_out(bytes, path, long_header, header, contents)
                    &&& contents.len() == (if entry.metadata->0.is_dir {
                        0
                    } else {
                        entry.metadata->0.len as nat
                    })
                };
            assert(lays_out(bytes, path, long_header, header, contents));
            lemma_padded(path.len() + 1);
            lemma_padded(contents.len());
        }
    }
}

proof fn lemma_written_walk_len(
    parts: Seq<Seq<u8>>,
    walk: Seq<Option<WalkEntry>>,
    platform: Platform,
)
    requires
        are_written(parts, walk, platform),
    ensures
        in_a_row(parts).len() == written_walk_len(walk, platform),
    decreases walk.len(),
{
    if walk.len() > 0 {
        assert forall|i: int| 0 <= i < walk.len() - 1 implies is_written(
            #[trigger] parts.drop_last()[i],
            walk.drop_last()[i],
            platform,
        ) by {
            assert(is_written(parts[i], walk[i], platform));
        }
        lemma_written_walk_len(parts.drop_last(), walk.drop_last(), platform);
        lemma_written_len(parts.last(), walk.last(), platform);
    }
}

/// What has been sent of an archive grows by the length that a walk was measured to take up, unless a
/// path in it is long and fills whole blocks.
pub proof fn lemma_sent_grows_as_measured(
    sent: Seq<u8>,
    parts: Seq<Seq<u8>>,
    walk: Seq<Option<WalkEntry>>,
    platform: Platform,
)
    requires
        are_written(parts, walk, platform),
        filling_entries(walk, platform) == 0,
    ensures
        (sent + in_a_row(parts)).len() == sent.len() + walk_len(walk, platform),
{
    lemma_written_walk_len(parts, walk, platform);
    lemma_walk_len_is_written(walk, platform);
}

proof fn lemma_written_archive_len(
    parts: Seq<Seq<Seq<u8>>>,
    walks: Seq<Seq<Option<WalkEntry>>>,
    platform: Platform,
)
    requires
        parts.len() == walks.len(),
        forall|i: int|
            0 <= i < walks.len() ==> are_written(#[trigger] parts[i], walks[i], platform),
    ensures
        archive_bytes(parts).len() == written_archive_len(walks, platform),
    decreases walks.len(),
{
    let rows = parts.map_values(|p: Seq<Seq<u8>>| in_a_row(p));
    if walks.len() > 0 {
        let rest = parts.drop_last();
        assert forall|i: int| 0 <= i < walks.len() - 1 implies are_written(
            #[trigger] rest[i],
            walks.drop_last()[i],
            platform,
        ) by {
            assert(are_written(parts[i], walks[i], platform));
        }
        lemma_written_archive_len(rest, walks.drop_last(), platform);
        lemma_written_walk_len(parts.last(), walks.last(), platform);
        assert(rows.drop_last() =~= rest.map_values(|p: Seq<Seq<u8>>| in_a_row(p)));
    }
}

/// The bytes of an archive are as many as it was measured to have, unless a path in it is long and
/// fills whole blocks, and the last of them are zero.
pub proof fn lemma_sent_is_as_measured(
    parts: Seq<Seq<Seq<u8>>>,
    walks: Seq<Seq<Option<WalkEntry>>>,
    platform: Platform,
)
    requires
        parts.len() == walks.len(),
        forall|i: int|
            0 <= i < walks.len() ==> are_written(#[trigger] parts[i], walks[i], platform),
        filling_archive_entries(walks, platform) == 0,
    ensures
        archive_bytes(parts).len() == archive_len(walks, platform),
        archive_bytes(parts).skip(archive_bytes(parts).len() - TRAILER) == zeros(TRAILER as nat),
{
    lemma_written_archive_len(parts, walks, platform);
    lemma_archive_len_is_written(walks, platform);
    assert(archive_bytes(parts).skip(archive_bytes(parts).len() - TRAILER) =~= zeros(
        TRAILER as nat,
    ));
}

/// A file or directory with everything below it.
pub struct Tree {
    pub name: Seq<u8>,
    /// Absent where the walk cannot step on it.
    pub entry: Option<WalkEntry>,
    pub children: Seq<Tree>,
}

/// The walk through a tree: the tree itself, followed by the walks through its children. What is
/// left out of archives is left out with everything below it.
pub open spec fn walk_through(tree: Tree) -> Seq<Option<WalkEntry>>
    decreases tree,
{
    if skipped_name(tree.name) {
        Seq::empty()
    } else {
        seq![tree.entry] + walk_through_all(tree.children)
    }
}

/// The walks through trees, one after the other.
pub open spec fn walk_through_all(trees: Seq<Tree>) -> Seq<Option<WalkEntry>>
    decreases trees,
{
    if trees.len() == 0 {
        Seq::empty()
    } else {
        walk_through(trees[0]) + walk_through_all(trees.subrange(1, trees.len() as int))
    }
}

/// The lengths of the walks through trees, added up.
pub open spec fn trees_len(trees: Seq<Tree>, platform: Platform) -> nat
    decreases trees.len(),
{
    if trees.len() == 0 {
        0
    } else {
        walk_len(walk_through(trees[0]), platform) + trees_len(
            trees.subrange(1, trees.len() as int),
            platform,
        )
    }
}

proof fn lemma_trees_len(trees: Seq<Tree>, platform: Platform)
    ensures
        walk_len(walk_through_all(trees), platform) == trees_len(trees, platform),
    decreases trees.len(),
{
    if trees.len() > 0 {
        let rest = trees.subrange(1, trees.len() as int);
        lemma_trees_len(rest, platform);
        lemma_walk_len_adds(walk_through(trees[0]), walk_through_all(rest), platform);
    }
}

/// A directory is measured as itself and its children, each of them measured by itself. A hidden one
/// takes up nothing.
pub proof fn lemma_directory_is_sum(tree: Tree, platform: Platform)
    ensures
        walk_len(walk_through(tree), platform) == (if skipped_name(tree.name) {
            0
        } else {
            walk_len(seq![tree.entry], platform) + trees_len(tree.children, platform)
        }),
        tree.entry matches Some(entry) ==> walk_len(seq![tree.entry], platform) == (
        match walked_len(entry, platform) {
            Ok(len) => len,
            Err(_) => 0,
        }),
{
    assert(seq![tree.entry].drop_last() =~= Seq::empty());
    assert(walk_len(Seq::empty(), platform) == 0);
    if !skipped_name(tree.name) {
        lemma_walk_len_adds(seq![tree.entry], walk_through_all(tree.children), platform);
        lemma_trees_len(tree.children, platform);
    }
}

/// What listings leave out, archives leave out too; they leave out more only where a name is not
/// UTF-8.
pub proof fn lemma_hidden_is_skipped(name: Seq<u8>)
    ensures
        share_entry::hidden_name(name) ==> skipped_name(name),
        valid_utf8(name) ==> skipped_name(name) == share_entry::hidden_name(name),
{
}

proof fn lemma_last_segment_has_no_slash(s: Seq<char>)
    ensures
        !last_segment(s).contains('/'),
    decreases s.len(),
{
    if s.len() > 0 && s.last() != '/' {
        lemma_last_segment_has_no_slash(s.drop_last());
        let rest = last_segment(s.drop_last());
        assert forall|i: int| 0 <= i < last_segment(s).len() implies last_segment(s)[i] != '/' by {
            if i < rest.len() {
                assert(rest[i] != '/');
            }
        }
    }
}

/// The archive of a directory is named without a slash, however many slashes the path ends in.
pub proof fn lemma_directory_archive_name(path: Seq<char>, files: Seq<Seq<char>>)
    requires
        files.len() != 1,
        path != "/"@,
        has_archive_name(path, files),
    ensures
        !archive_name(path, files).contains('/'),
        archive_name(path.push('/'), files) == archive_name(path, files),
{
    reveal_strlit(".tar");
    reveal_strlit("/");
    lemma_last_segment_has_no_slash(without_slashes(path));
    let name = last_segment(without_slashes(path));
    assert forall|i: int| 0 <= i < archive_name(path, files).len() implies archive_name(
        path,
        files,
    )[i] != '/' by {
        if i < name.len() {
            assert(name[i] != '/');
        }
    }
    assert(path.push('/').drop_last() =~= path);
    assert(path.len() > 0);
    assert(path.push('/').len() != "/"@.len());
}

/// A text without the slashes that it ends in is its longest start that ends in none.
pub proof fn lemma_without_slashes(s: Seq<char>)
    ensures
        without_slashes(s).len() <= s.len(),
        without_slashes(s) == s.take(without_slashes(s).len() as int),
        forall|i: int| without_slashes(s).len() <= i < s.len() ==> s[i] == '/',
        without_slashes(s).len() > 0 ==> without_slashes(s).last() != '/',
    decreases s.len(),
{
    if s.len() > 0 && s.last() == '/' {
        let rest = s.drop_last();
        lemma_without_slashes(rest);
        assert forall|i: int| without_slashes(s).len() <= i < s.len() implies s[i] == '/' by {
            if i < rest.len() {
                assert(rest[i] == '/');
            }
        }
        assert(s.take(without_slashes(s).len() as int) =~= rest.take(
            without_slashes(s).len() as int,
        ));
    } else {
        assert(s.take(s.len() as int) =~= s);
    }
}

/// There is a name for any archive of an absolute path, unless nothing or several files are selected
/// and the path consists of several slashes.
pub proof fn lemma_absolute_path_has_archive_name(path: Seq<char>, files: Seq<Seq<char>>)
    requires
        path.len() > 0 && path[0] == '/',
    ensures
        has_archive_name(path, files) <==> files.len() == 1 || path.len() == 1 || exists|i: int|
            0 <= i < path.len() && path[i] != '/',
{
    let trimmed = without_slashes(path);
    lemma_without_slashes(path);
    reveal_strlit("/");
    if path.len() == 1 {
        assert(path =~= "/"@);
    }
    if exists|i: int| 0 <= i < path.len() && path[i] != '/' {
        assert(trimmed.len() > 0);
        assert(trimmed[0] == '/');
    } else if trimmed.len() > 0 {
        assert(trimmed.last() == path[trimmed.len() - 1]);
    }
}

/// On Unix a path is written as it is. On Windows it is written where it is Unicode, with a slash for
/// each backslash and all else as it is.
pub proof fn lemma_path_as_written(path: Seq<u8>)
    ensures
        path_bytes(path, Platform::Unix) == Ok::<_, NotUnicode>(path),
        path_bytes(path, Platform::Windows) is Ok <==> valid_utf8(path),
        path_bytes(path, Platform::Windows) matches Ok(bytes) ==> {
            &&& bytes.len() == path.len()
            &&& forall|i: int|
                0 <= i < path.len() ==> #[trigger] bytes[i] == (if path[i] == 92 {
                    47
                } else {
                    path[i]
                })
        },
{
}

/// Every path can be written on Unix, and on Windows those that are Unicode can.
pub proof fn lemma_paths_can_be_written(entry: WalkEntry, walk: Seq<Option<WalkEntry>>)
    ensures
        has_path_bytes(entry, Platform::Unix),
        has_paths(walk, Platform::Unix),
        entry.relative_path matches Some(path) ==> valid_utf8(path@) ==> has_path_bytes(
            entry,
            Platform::Windows,
        ),
{
}

/// A name is left out of archives exactly where its first byte is a dot or it is not UTF-8.
pub proof fn lemma_skipped_name(name: Seq<u8>)
    ensures
        skipped_name(name) <==> !valid_utf8(name) || name.len() > 0 && name[0] == 46,
{
}

/// Whatever is met on a walk goes into the archive where its metadata can be read and it lies below
/// the shared directory, whatever its path is: a directory as one, and all else as a file. Nothing
/// else goes into it.
pub proof fn lemma_met_is_written(entry: WalkEntry, platform: Platform)
    ensures
        write_step(entry) is Ok <==> entry.metadata is Some && entry.relative_path is Some,
        write_step(entry) == Ok::<_, WalkError>(WriteStep::AppendDir) <==> entry.metadata is Some
            && entry.relative_path is Some && entry.metadata->0.is_dir,
        entry.metadata is None ==> write_step(entry) == Err::<WriteStep, _>(WalkError::Metadata),
        entry.metadata is Some && entry.relative_path is None ==> write_step(entry) == Err::<
            WriteStep,
            _,
        >(WalkError::Prefix),
        walked_len(entry, platform) is Ok <==> entry.metadata is Some && entry.relative_path is Some,
        walked_len(entry, platform) is Err ==> walked_len(entry, platform)->Err_0 == write_step(
            entry,
        )->Err_0,
{
}

/// What is met on a walk takes up a header of 512 bytes, the contents of a file, and for a path of
/// more than 100 bytes another header and the path, each filled up to a multiple of 512 bytes and
/// no further.
pub proof fn lemma_met_is_measured(
    entry: WalkEntry,
    platform: Platform,
    path_room: nat,
    file_room: nat,
)
    requires
        entry.metadata is Some && entry.relative_path is Some,
        has_path_bytes(entry, platform),
        path_room % 512 == 0 && entry.relative_path->0@.len() <= path_room
            < entry.relative_path->0@.len() + 512,
        file_room % 512 == 0 && entry.metadata->0.len <= file_room < entry.metadata->0.len + 512,
    ensures
        walked_len(entry, platform) is Ok,
        walked_len(entry, platform)->Ok_0 == 512 + (if entry.relative_path->0@.len() > 100 {
            512 + path_room
        } else {
            0
        }) + (if entry.metadata->0.is_dir {
            0
        } else {
            file_room as int
        }),
{
    lemma_path_bytes(entry.relative_path->0@, platform);
    lemma_room(entry.relative_path->0@.len(), path_room);
    lemma_room(entry.metadata->0.len as nat, file_room);
}

/// There is one way to fill up a length to whole blocks.
#[verifier::spinoff_prover]
proof fn lemma_room(len: nat, room: nat)
    requires
        room % 512 == 0,
        len <= room < len + 512,
    ensures
        padded(len) == room,
{
    lemma_padded(len);
}

/// A walk that meets nothing takes up nothing, and one that meets a single entry takes up as much as
/// the entry does: nothing where it is left out.
pub proof fn lemma_walk_of_one(met: Option<WalkEntry>, platform: Platform)
    ensures
        walk_len(Seq::empty(), platform) == 0,
        met is None ==> walk_len(seq![met], platform) == 0,
        met matches Some(entry) ==> if entry.metadata is Some && entry.relative_path is Some {
            walked_len(entry, platform) == Ok::<nat, WalkError>(walk_len(seq![met], platform))
        } else {
            walk_len(seq![met], platform) == 0
        },
{
    reveal_with_fuel(walk_len, 2);
    assert(seq![met].drop_last() =~= Seq::empty());
    assert(seq![met].last() == met);
}

/// An archive of nothing has 1024 bytes. One of two selections has as many as the archives of either
/// have together, but for the end, which it has once.
pub proof fn lemma_archive_len_adds(
    a: Seq<Seq<Option<WalkEntry>>>,
    b: Seq<Seq<Option<WalkEntry>>>,
    walk: Seq<Option<WalkEntry>>,
    platform: Platform,
)
    ensures
        archive_len(Seq::empty(), platform) == 1024,
        archive_len(a + b, platform) + 1024 == archive_len(a, platform) + archive_len(b, platform),
        archive_len(seq![walk], platform) == 1024 + walk_len(walk, platform),
    decreases b.len(),
{
    reveal_with_fuel(archive_len, 2);
    assert(seq![walk].drop_last() =~= Seq::empty());
    if b.len() == 0 {
        assert(a + b =~= a);
    } else {
        assert((a + b).drop_last() =~= a + b.drop_last());
        lemma_archive_len_adds(a, b.drop_last(), walk, platform);
    }
}

/// The walks of an archive are viewed one by one.
pub proof fn lemma_walk_views(walks: Seq<Vec<Option<WalkEntry>>>)
    ensures
        walk_views(walks).len() == walks.len(),
        forall|i: int| 0 <= i < walks.len() ==> #[trigger] walk_views(walks)[i] == walks[i]@,
{
}

/// What stands behind the last slash of a text is its longest end without a slash in it.
pub proof fn lemma_last_segment(s: Seq<char>)
    ensures
        last_segment(s).len() <= s.len(),
        last_segment(s) == s.skip(s.len() - last_segment(s).len()),
        !last_segment(s).contains('/'),
        last_segment(s).len() < s.len() ==> s[s.len() - last_segment(s).len() - 1] == '/',
    decreases s.len(),
{
    lemma_last_segment_has_no_slash(s);
    if s.len() > 0 && s.last() != '/' {
        let rest = s.drop_last();
        lemma_last_segment(rest);
        assert(last_segment(s) =~= s.skip(s.len() - last_segment(s).len()));
    } else {
        assert(s.skip(s.len() as int) =~= Seq::empty());
    }
}

/// The archive of one file is named as the file is, without the slashes that its name ends in, and
/// `.tar`.
pub proof fn lemma_name_of_one_file(path: Seq<char>, file: Seq<char>)
    ensures
        ({
            let name = archive_name(path, seq![file]);
            let stem = name.take(name.len() - 4);
            &&& name.len() >= 4
            &&& name.skip(name.len() - 4) == seq!['.', 't', 'a', 'r']
            &&& stem.len() <= file.len()
            &&& stem == file.take(stem.len() as int)
            &&& stem.len() > 0 ==> stem.last() != '/'
            &&& forall|i: int| stem.len() <= i < file.len() ==> file[i] == '/'
        }),
{
    reveal_strlit(".tar");
    lemma_without_slashes(file);
    let name = archive_name(path, seq![file]);
    assert(name.take(name.len() - 4) =~= without_slashes(file));
    assert(name.skip(name.len() - 4) =~= seq!['.', 't', 'a', 'r']);
}

/// The archive of nothing or several files is named `archive.tar` where the directory is the root.
/// Else it is named as the directory is, by all that stands between the last two slashes of its
/// path, and `.tar`.
pub proof fn lemma_name_of_directory(path: Seq<char>, files: Seq<Seq<char>>)
    requires
        files.len() != 1,
        has_archive_name(path, files),
    ensures
        path == seq!['/'] ==> archive_name(path, files) == seq![
            'a',
            'r',
            'c',
            'h',
            'i',
            'v',
            'e',
            '.',
            't',
            'a',
            'r',
        ],
        path != seq!['/'] ==> {
            let name = archive_name(path, files);
            let stem = name.take(name.len() - 4);
            &&& name.len() > 4
            &&& name.skip(name.len() - 4) == seq!['.', 't', 'a', 'r']
            &&& !stem.contains('/')
            &&& exists|i: int|
                {
                    &&& 0 <= i && i + 1 + stem.len() <= path.len()
                    &&& #[trigger] path[i] == '/'
                    &&& stem == path.subrange(i + 1, i + 1 + stem.len())
                    &&& forall|k: int| i + 1 + stem.len() <= k < path.len() ==> path[k] == '/'
                }
        },
{
    reveal_strlit(".tar");
    reveal_strlit("/");
    reveal_strlit("archive.tar");
    assert("/"@ =~= seq!['/']);
    if path == seq!['/'] {
        assert(archive_name(path, files) =~= seq![
            'a',
            'r',
            'c',
            'h',
            'i',
            'v',
            'e',
            '.',
            't',
            'a',
            'r',
        ]);
    } else {
        let trimmed = without_slashes(path);
        let stem = last_segment(trimmed);
        let name = archive_name(path, files);
        lemma_without_slashes(path);
        lemma_last_segment(trimmed);
        assert(name.take(name.len() - 4) =~= stem);
        assert(name.skip(name.len() - 4) =~= seq!['.', 't', 'a', 'r']);
        if stem.len() == trimmed.len() {
            assert(stem =~= trimmed);
        }
        assert(stem.len() < trimmed.len());
        let i = trimmed.len() - stem.len() - 1;
        assert(trimmed[i] == '/');
        assert(path[i] == '/');
        assert(stem.len() > 0) by {
            if stem.len() == 0 {
                assert(trimmed.last() == '/');
            }
        }
        assert(stem =~= path.subrange(i + 1, i + 1 + stem.len()));
    }
}

/// There is a name for an archive where one file is selected, where the directory is the root, and
/// where a slash of its path has something other than slashes behind it.
pub proof fn lemma_archive_can_be_named(path: Seq<char>, files: Seq<Seq<char>>)
    ensures
        has_archive_name(path, files) <==> files.len() == 1 || path == seq!['/'] || exists|
            i: int,
            j: int,
        |
            0 <= i < j < path.len() && #[trigger] path[i] == '/' && #[trigger] path[j] != '/',
{
    reveal_strlit("/");
    assert("/"@ =~= seq!['/']);
    let trimmed = without_slashes(path);
    lemma_without_slashes(path);
    if trimmed.contains('/') {
        let i = choose|i: int| 0 <= i < trimmed.len() && trimmed[i] == '/';
        let j = trimmed.len() - 1;
        assert(trimmed[j] == trimmed.last());
        assert(path[i] == '/' && path[j] != '/');
    }
    if exists|i: int, j: int|
        0 <= i < j < path.len() && #[trigger] path[i] == '/' && #[trigger] path[j] != '/' {
        let (i, j) = choose|i: int, j: int|
            0 <= i < j < path.len() && #[trigger] path[i] == '/' && #[trigger] path[j] != '/';
        assert(j < trimmed.len());
        assert(trimmed[i] == '/');
    }
}

} // verus!
