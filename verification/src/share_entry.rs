//! The entries of a shared directory.

use bytesize::ByteSize;
use rayon::slice::ParallelSliceMut;
use vstd::prelude::*;
use vstd::utf8::*;

use crate::percent;
use crate::text;
use crate::timestamp::{Timestamp, NANOS_PER_SEC};

verus! {

/// What the file system tells of a file or directory.
#[derive(Debug, Clone, Copy)]
pub struct Metadata {
    pub is_dir: bool,
    pub len: u64,
    /// Absent where the time of the last modification cannot be read.
    pub modified: Option<Timestamp>,
}

/// An entry as it is found in a directory.
#[derive(Debug)]
pub struct DirEntry {
    pub name: Vec<u8>,
    /// Absent where the metadata cannot be read.
    pub metadata: Option<Metadata>,
}

/// An entry as it is listed.
#[derive(Debug)]
pub struct ShareEntry {
    pub name: Vec<u8>,
    pub is_dir: bool,
    pub size: u64,
    pub date: Timestamp,
}

/// Why an entry cannot be listed.
#[derive(Debug, Clone, Copy, PartialEq, Eq, Structural)]
pub enum EntryError {
    /// The metadata cannot be read.
    Metadata,
    /// The time of the last modification cannot be read.
    Modified,
}

/// The model of [`ShareEntry`].
#[verifier::ext_equal]
pub struct ShareEntryView {
    pub name: Seq<u8>,
    pub is_dir: bool,
    pub size: u64,
    /// Nanoseconds since the epoch.
    pub date: int,
}

impl View for ShareEntry {
    type V = ShareEntryView;

    open spec fn view(&self) -> ShareEntryView {
        ShareEntryView {
            name: self.name@,
            is_dir: self.is_dir,
            size: self.size,
            date: self.date@,
        }
    }
}

/// The models of a sequence of entries.
pub open spec fn entry_views(entries: Seq<ShareEntry>) -> Seq<ShareEntryView> {
    entries.map_values(|e: ShareEntry| e@)
}

impl ShareEntryView {
    /// The bytes of the name that is shown: that of a directory ends in a slash.
    pub open spec fn shown_name(self) -> Seq<u8> {
        if self.is_dir {
            self.name.push(text::SLASH)
        } else {
            self.name
        }
    }

    /// The text of the link to the entry.
    pub open spec fn link(self) -> Seq<char> {
        percent::ascii_text(percent::percent_encoded(self.shown_name()))
    }

    /// The text that names the entry.
    pub open spec fn display_name(self) -> Seq<char> {
        text::lossy_text(self.shown_name())
    }

    /// Whether a text shows the size of the entry: directories have none.
    pub open spec fn is_size(self, text: Seq<char>) -> bool {
        if self.is_dir {
            text == Seq::<char>::empty()
        } else {
            is_size_text(self.size, text)
        }
    }

    /// The key by which entries are sorted: whether it is a file, then the seconds and the
    /// nanoseconds of its date.
    pub open spec fn sort_key(self) -> (bool, int, int) {
        (!self.is_dir, self.date / NANOS_PER_SEC as int, self.date % NANOS_PER_SEC as int)
    }

    /// Whether the entry may stand before `other` in a listing: directories come first, and among
    /// their like the ones modified longest ago.
    pub open spec fn may_precede(self, other: ShareEntryView) -> bool {
        if self.is_dir == other.is_dir {
            self.date <= other.date
        } else {
            self.is_dir
        }
    }
}

/// Whether names that start like this one stay out of listings.
pub open spec fn hidden_name(name: Seq<u8>) -> bool {
    name.len() > 0 && name[0] == text::DOT
}

/// The decimal digits of a number.
pub open spec fn decimal(n: int) -> Seq<char>
    decreases n,
{
    if n < 10 {
        seq![(48 + n) as char]
    } else {
        decimal(n / 10).push((48 + n % 10) as char)
    }
}

/// The letter of a unit of `1000` to the power of `exp` bytes.
pub open spec fn unit_letter(exp: int) -> char {
    if exp == 1 {
        'K'
    } else if exp == 2 {
        'M'
    } else if exp == 3 {
        'G'
    } else if exp == 4 {
        'T'
    } else if exp == 5 {
        'P'
    } else {
        'E'
    }
}

/// The text for a number of tenths of a unit.
pub open spec fn scaled_text(exp: int, tenths: int) -> Seq<char> {
    decimal(tenths / 10) + "."@ + decimal(tenths % 10) + " "@ + seq![unit_letter(exp), 'B']
}

/// Whether a number of bytes may be shown as a number of tenths of a unit: the unit is that whose
/// power of `1024` the number has reached, give or take a millionth, and the tenths are as near
/// as can be, give or take a billionth.
pub open spec fn is_scaled(size: int, exp: int, tenths: int) -> bool {
    let unit = vstd::arithmetic::power::pow(1000, exp as nat);
    &&& 1 <= exp <= 6
    &&& exp > 1 ==> size * 1_000_000 >= vstd::arithmetic::power::pow(1024, exp as nat) * 999_999
    &&& exp < 6 ==> size * 1_000_000 <= vstd::arithmetic::power::pow(1024, (exp + 1) as nat)
        * 1_000_001
    &&& 0 <= tenths
    &&& -unit - size / 1_000_000_000 <= 2 * (tenths * unit - 10 * size) <= unit + size
        / 1_000_000_000
}

/// Whether a text shows a number of bytes.
pub open spec fn is_size_text(size: u64, text: Seq<char>) -> bool {
    if size < 1000 {
        text == decimal(size as int) + " B"@
    } else {
        exists|exp: int, tenths: int| #[trigger]
            is_scaled(size as int, exp, tenths) && text == scaled_text(exp, tenths)
    }
}

/// Calls `bytesize::ByteSize::to_string` without the binary prefixes. The claim is that a number
/// below 1000 is written out, with ` B` behind it, and any other with one digit behind the point
/// and a unit from `KB` to `EB`. The crate picks the unit by a logarithm in floating point: which
/// one it is next to a power of `1024` is left unsaid, and so is what becomes of the tenths where
/// they have to be rounded by less than floating point can tell.
#[verifier::external_body]
fn byte_size(size: u64) -> (text: String)
    ensures
        is_size_text(size, text@),
{
    ByteSize::b(size).to_string(false)
}

/// Tells whether an entry with this name stays out of listings.
pub fn is_hidden(name: &[u8]) -> (hidden: bool)
    ensures
        hidden == hidden_name(name@),
{
    name.len() > 0 && name[0] == text::DOT
}

/// What is listed of an entry, where nothing keeps it from being read.
pub open spec fn shared(entry: DirEntry) -> Result<Option<ShareEntryView>, EntryError> {
    match entry.metadata {
        None => Err(EntryError::Metadata),
        Some(metadata) => match metadata.modified {
            None => Err(EntryError::Modified),
            Some(modified) => if hidden_name(entry.name@) {
                Ok(None)
            } else {
                Ok(
                    Some(
                        ShareEntryView {
                            name: entry.name@,
                            is_dir: metadata.is_dir,
                            size: metadata.len,
                            date: modified@,
                        },
                    ),
                )
            },
        },
    }
}

/// The view of the outcome of [`get_share_entry`].
pub open spec fn shared_view(outcome: Result<Option<ShareEntry>, EntryError>) -> Result<
    Option<ShareEntryView>,
    EntryError,
> {
    match outcome {
        Ok(Some(e)) => Ok(Some(e@)),
        Ok(None) => Ok(None),
        Err(e) => Err(e),
    }
}

/// Turns an entry of a directory into one that can be listed: nothing where it is hidden.
pub fn get_share_entry(entry: DirEntry) -> (outcome: Result<Option<ShareEntry>, EntryError>)
    ensures
        shared_view(outcome) == shared(entry),
{
    match entry.metadata {
        None => Err(EntryError::Metadata),
        Some(metadata) => match metadata.modified {
            None => Err(EntryError::Modified),
            Some(date) => {
                if is_hidden(entry.name.as_slice()) {
                    Ok(None)
                } else {
                    Ok(
                        Some(
                            ShareEntry {
                                name: entry.name,
                                is_dir: metadata.is_dir,
                                size: metadata.len,
                                date,
                            },
                        ),
                    )
                }
            },
        },
    }
}

/// What is listed of a directory, in the order in which its entries are found. An entry that could
/// not be read at all is `None`.
pub open spec fn listed(found: Seq<Option<DirEntry>>) -> Seq<ShareEntryView>
    decreases found.len(),
{
    if found.len() == 0 {
        Seq::empty()
    } else {
        let rest = listed(found.drop_last());
        match found.last() {
            None => rest,
            Some(entry) => match shared(entry) {
                Ok(Some(e)) => rest.push(e),
                _ => rest,
            },
        }
    }
}

/// A listing holds what can be read and is not hidden, and nothing else.
pub proof fn lemma_listed(found: Seq<Option<DirEntry>>, entry: ShareEntryView)
    ensures
        listed(found).contains(entry) <==> exists|i: int|
            0 <= i < found.len() && (#[trigger] found[i]) is Some && shared(found[i]->0) == Ok::<
                _,
                EntryError,
            >(Some(entry)),
        listed(found).contains(entry) ==> !hidden_name(entry.name),
    decreases found.len(),
{
    if found.len() > 0 {
        let rest = found.drop_last();
        let last = found.len() - 1;
        lemma_listed(rest, entry);
        if listed(found).contains(entry) {
            if listed(rest).contains(entry) {
                let i = choose|i: int|
                    0 <= i < rest.len() && (#[trigger] rest[i]) is Some && shared(rest[i]->0) == Ok::<
                        _,
                        EntryError,
                    >(Some(entry));
                assert(found[i] is Some);
            } else {
                let i = listed(found).index_of(entry);
                if i < listed(rest).len() {
                    assert(listed(rest)[i] == entry);
                }
                assert(found[last] is Some);
            }
        }
        if exists|i: int|
            0 <= i < found.len() && (#[trigger] found[i]) is Some && shared(found[i]->0) == Ok::<
                _,
                EntryError,
            >(Some(entry)) {
            let i = choose|i: int|
                0 <= i < found.len() && (#[trigger] found[i]) is Some && shared(found[i]->0) == Ok::<
                    _,
                    EntryError,
                >(Some(entry));
            if i < last {
                assert(rest[i] is Some);
                let k = listed(rest).index_of(entry);
                assert(listed(found)[k] == entry);
            } else {
                assert(listed(found).last() == entry);
            }
        }
    }
}

/// Any two entries have an order in which they may be listed, and the order is transitive.
pub proof fn lemma_may_precede(a: ShareEntryView, b: ShareEntryView, c: ShareEntryView)
    ensures
        a.may_precede(b) || b.may_precede(a),
        a.may_precede(b) && b.may_precede(c) ==> a.may_precede(c),
{
}

impl ShareEntry {
    /// The key by which entries are sorted.
    fn sort_key(&self) -> (key: (bool, i64, u32))
        ensures
            (key.0, key.1 as int, key.2 as int) == self@.sort_key(),
    {
        let parts = self.date.parts();
        (!self.is_dir, parts.0, parts.1)
    }

    /// The link to the entry, relative to its directory.
    pub fn link(&self) -> (link: String)
        ensures
            link@ == self@.link(),
    {
        let name = self.shown_name();
        percent::percent_encode(name.as_slice())
    }

    /// The name of the entry as it is shown.
    pub fn display_name(&self) -> (name: String)
        ensures
            name@ == self@.display_name(),
    {
        let name = self.shown_name();
        text::text_lossy(name.as_slice())
    }

    /// The size of the entry as it is shown.
    pub fn size(&self) -> (size: String)
        ensures
            self@.is_size(size@),
    {
        if self.is_dir {
            String::new()
        } else {
            byte_size(self.size)
        }
    }

    /// The time of the last modification as it is shown.
    pub fn date_string(&self, now: &Timestamp) -> (date: String)
        ensures
            date@ == crate::timestamp::span_text(self@.date - now@),
    {
        self.date.relative_to(now)
    }

    fn shown_name(&self) -> (name: Vec<u8>)
        ensures
            name@ == self@.shown_name(),
    {
        let mut name = vstd::slice::slice_to_vec(self.name.as_slice());
        if self.is_dir {
            name.push(text::SLASH);
        }
        name
    }
}

/// The order of sort keys: that of tuples, with `false` before `true`.
pub open spec fn key_le(a: (bool, int, int), b: (bool, int, int)) -> bool {
    if a.0 != b.0 {
        b.0
    } else if a.1 != b.1 {
        a.1 < b.1
    } else {
        a.2 <= b.2
    }
}

/// Calls `rayon`'s `par_sort_unstable_by_key` with the entries' sort keys. The claim is that the
/// entries are rearranged so that their keys ascend; in which order entries with the same key come
/// out is left unsaid.
#[verifier::external_body]
fn sort_entries(entries: Vec<ShareEntry>) -> (sorted: Vec<ShareEntry>)
    ensures
        entry_views(sorted@).to_multiset() == entry_views(entries@).to_multiset(),
        forall|i: int, j: int|
            0 <= i <= j < sorted@.len() ==> key_le(
                (#[trigger] sorted@[i])@.sort_key(),
                (#[trigger] sorted@[j])@.sort_key(),
            ),
{
    let mut entries = entries;
    entries.par_sort_unstable_by_key(|entry| entry.sort_key());
    entries
}

/// Turns what is found in a directory into its listing. A directory that cannot be read has none;
/// entries that cannot be read and hidden ones are left out.
pub fn get_dir_index(found: Option<Vec<Option<DirEntry>>>) -> (index: Option<Vec<ShareEntry>>)
    ensures
        index is Some <==> found is Some,
        index matches Some(entries) ==> entry_views(entries@).to_multiset() == listed(
            found->0@,
        ).to_multiset(),
        index matches Some(entries) ==> forall|i: int, j: int|
            0 <= i <= j < entries@.len() ==> (#[trigger] entries@[i])@.may_precede(
                (#[trigger] entries@[j])@,
            ),
{
    match found {
        None => None,
        Some(found) => {
            let ghost all = found@;
            let mut entries: Vec<ShareEntry> = Vec::new();
            for entry in iter: found
                invariant
                    iter.seq() == all,
                    entry_views(entries@) == listed(all.take(iter.index() as int)),
            {
                let ghost before = entries@;
                let ghost n = iter.index() as int;
                assert(all.take(n + 1).drop_last() =~= all.take(n));
                if let Some(entry) = entry {
                    if let Ok(Some(entry)) = get_share_entry(entry) {
                        entries.push(entry);
                        assert(entry_views(entries@) =~= entry_views(before).push(entry@));
                    }
                }
            }
            assert(all.take(all.len() as int) =~= all);
            let sorted = sort_entries(entries);
            Some(sorted)
        },
    }
}

/// An entry that can be read is listed under its own name, kind, size and date exactly where the
/// first byte of its name is not a dot. One that cannot be read is told, hidden or not.
pub proof fn lemma_shared(entry: DirEntry)
    ensures
        entry.metadata is None ==> shared(entry) == Err::<Option<ShareEntryView>, _>(
            EntryError::Metadata,
        ),
        entry.metadata matches Some(metadata) ==> {
            &&& metadata.modified is None ==> shared(entry) == Err::<Option<ShareEntryView>, _>(
                EntryError::Modified,
            )
            &&& metadata.modified matches Some(modified) ==> {
                &&& entry.name@.len() > 0 && entry.name@[0] == 46 ==> shared(entry) == Ok::<
                    Option<ShareEntryView>,
                    EntryError,
                >(None)
                &&& entry.name@.len() == 0 || entry.name@[0] != 46 ==> {
                    &&& shared(entry) matches Ok(Some(shown))
                    &&& shown.name == entry.name@
                    &&& shown.is_dir == metadata.is_dir
                    &&& shown.size == metadata.len
                    &&& shown.date == modified@
                }
            }
        },
{
}

/// A name is hidden exactly where its first byte is a dot.
pub proof fn lemma_hidden_name(name: Seq<u8>)
    ensures
        hidden_name(name) <==> name.len() > 0 && name[0] == 46,
{
}

/// What is listed of two halves of a directory is what is listed of the one, and then what is listed
/// of the other.
pub proof fn lemma_listed_concat(a: Seq<Option<DirEntry>>, b: Seq<Option<DirEntry>>)
    ensures
        listed(a + b) == listed(a) + listed(b),
    decreases b.len(),
{
    if b.len() == 0 {
        assert(a + b =~= a);
        assert(listed(a) + listed(b) =~= listed(a));
    } else {
        assert((a + b).drop_last() =~= a + b.drop_last());
        lemma_listed_concat(a, b.drop_last());
        assert(listed(a + b) =~= listed(a) + listed(b));
    }
}

/// One entry is listed once where it can be read and does not start with a dot, and not at all where
/// it cannot be read or does.
pub proof fn lemma_listed_one(found: Option<DirEntry>)
    ensures
        listed(Seq::empty()).len() == 0,
        match found {
            Some(entry) => if entry.metadata is Some && entry.metadata->0.modified is Some && (
            entry.name@.len() == 0 || entry.name@[0] != 46) {
                &&& listed(seq![found]).len() == 1
                &&& listed(seq![found])[0].name == entry.name@
                &&& listed(seq![found])[0].is_dir == entry.metadata->0.is_dir
                &&& listed(seq![found])[0].size == entry.metadata->0.len
                &&& listed(seq![found])[0].date == entry.metadata->0.modified->0@
            } else {
                listed(seq![found]).len() == 0
            },
            None => listed(seq![found]).len() == 0,
        },
{
    reveal_with_fuel(listed, 2);
    assert(seq![found].drop_last() =~= Seq::empty());
    assert(seq![found].last() == found);
}

/// Directories may precede files and never follow them, and of two of a kind the one that was
/// modified first precedes the other.
pub proof fn lemma_order(a: ShareEntryView, b: ShareEntryView)
    ensures
        a.is_dir && !b.is_dir ==> a.may_precede(b) && !b.may_precede(a),
        a.is_dir == b.is_dir ==> (a.may_precede(b) <==> a.date <= b.date),
        key_le(a.sort_key(), b.sort_key()) <==> a.may_precede(b),
{
}

/// The name of a directory is shown with a slash behind it, and that of a file as it is.
pub proof fn lemma_shown_name(entry: ShareEntryView)
    ensures
        entry.is_dir ==> entry.shown_name() == entry.name + seq![47u8],
        !entry.is_dir ==> entry.shown_name() == entry.name,
{
    assert(entry.is_dir ==> entry.shown_name() =~= entry.name + seq![47u8]);
}

/// An entry is shown by the text of its name, where that is UTF-8, with a slash behind it for a
/// directory.
pub proof fn lemma_display_name(entry: ShareEntryView, name: Seq<char>)
    requires
        entry.name == encode_utf8(name),
    ensures
        entry.display_name() == (if entry.is_dir {
            name.push('/')
        } else {
            name
        }),
{
    if entry.is_dir {
        text::lemma_encode_concat(name, seq!['/']);
        text::lemma_encode_ascii('/');
        assert(name.push('/') =~= name + seq!['/']);
        lemma_shown_name(entry);
        text::lemma_text_of_bytes(entry.shown_name(), name.push('/'));
    } else {
        text::lemma_text_of_bytes(entry.shown_name(), name);
    }
}

/// A link is read as the name of its entry, with a slash behind it for a directory, where there is no
/// escape in the name.
pub proof fn lemma_link(entry: ShareEntryView)
    requires
        !percent::has_escape(entry.name),
    ensures
        percent::percent_decoded(encode_utf8(entry.link())) == (if entry.is_dir {
            entry.name + seq![47u8]
        } else {
            entry.name
        }),
        entry.link() == percent::ascii_text(percent::percent_encoded(entry.name)) + (
        if entry.is_dir {
            seq!['/']
        } else {
            Seq::empty()
        }),
{
    lemma_shown_name(entry);
    if entry.is_dir {
        percent::lemma_no_escape_with_slash(entry.name);
        assert(entry.name.push(text::SLASH) =~= entry.name + seq![47u8]);
        percent::lemma_link_concat(entry.name, seq![47u8]);
        percent::lemma_link_byte(47);
        assert(entry.link() =~= percent::ascii_text(percent::percent_encoded(entry.name))
            + seq!['/']);
    } else {
        assert(entry.link() =~= percent::ascii_text(percent::percent_encoded(entry.name))
            + Seq::empty());
    }
    percent::lemma_link_round_trip(entry.shown_name());
}

/// A directory is shown without a size, and a file with that of its contents.
pub proof fn lemma_size(entry: ShareEntryView, text: Seq<char>)
    ensures
        entry.is_dir ==> (entry.is_size(text) <==> text.len() == 0),
        !entry.is_dir ==> (entry.is_size(text) <==> is_size_text(entry.size, text)),
{
    if text.len() == 0 {
        assert(text =~= Seq::empty());
    }
}

/// A number below 1000 is shown by its digits and ` B`. Any other is shown by a number of tenths of a
/// unit, which is at most a tenth off, give or take a billionth of it.
pub proof fn lemma_size_text(size: u64, text: Seq<char>)
    requires
        is_size_text(size, text),
    ensures
        size < 1000 ==> text == decimal(size as int) + seq![' ', 'B'],
        size >= 1000 ==> exists|exp: int, tenths: int|
            {
                let unit = vstd::arithmetic::power::pow(1000, exp as nat);
                &&& 1 <= exp <= 6
                &&& 0 <= tenths
                &&& -unit - size as int / 1_000_000_000 <= tenths * unit - 10 * size <= unit
                    + size as int / 1_000_000_000
                &&& text == decimal(tenths / 10) + seq!['.'] + decimal(tenths % 10) + seq![
                    ' ',
                    seq!['B', 'K', 'M', 'G', 'T', 'P', 'E'][exp],
                    'B',
                ]
                &&& #[trigger] is_scaled(size as int, exp, tenths)
            },
{
    reveal_strlit(" B");
    reveal_strlit(".");
    reveal_strlit(" ");
    assert(" B"@ =~= seq![' ', 'B']);
    if size >= 1000 {
        let (exp, tenths) = choose|exp: int, tenths: int| #[trigger]
            is_scaled(size as int, exp, tenths) && text == scaled_text(exp, tenths);
        let letter = seq!['B', 'K', 'M', 'G', 'T', 'P', 'E'][exp];
        assert(letter == unit_letter(exp));
        assert(text =~= decimal(tenths / 10) + seq!['.'] + decimal(tenths % 10) + seq![
            ' ',
            letter,
            'B',
        ]);
    }
}

/// The digits of a number: one for each power of ten.
pub proof fn lemma_decimal(n: int, digit: int)
    requires
        0 <= n,
        0 <= digit < 10,
    ensures
        decimal(digit) == seq![(48 + digit) as char],
        n > 0 ==> decimal(10 * n + digit) == decimal(n).push((48 + digit) as char),
{
}

/// The model of an entry holds what the entry holds, and those of several are those of each of them.
pub proof fn lemma_entry_views(
    entries: Seq<ShareEntry>,
    outcome: Result<Option<ShareEntry>, EntryError>,
)
    ensures
        entry_views(entries).len() == entries.len(),
        forall|i: int|
            0 <= i < entries.len() ==> {
                let shown = #[trigger] entry_views(entries)[i];
                &&& shown.name == entries[i].name@
                &&& shown.is_dir == entries[i].is_dir
                &&& shown.size == entries[i].size
                &&& shown.date == entries[i].date@
            },
        match outcome {
            Ok(Some(e)) => shared_view(Ok(Some(e))) matches Ok(Some(shown)) && shown.name == e.name@
                && shown.is_dir == e.is_dir && shown.size == e.size && shown.date == e.date@,
            Ok(None) => shared_view(Ok(None)) matches Ok(None),
            Err(e) => shared_view(Err(e)) == Err::<Option<ShareEntryView>, _>(e),
        },
{
}

} // verus!
