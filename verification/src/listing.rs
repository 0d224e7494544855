//! How the entries of an archive are shown, counted and put back.

use crate::format::EntryKind;
use crate::index;
use crate::index::{Entry, EntryView};
use crate::text;
use vstd::prelude::*;

verus! {

/// The word for a kind of entry.
pub open spec fn kind_word(kind: EntryKind) -> Seq<char> {
    match kind {
        EntryKind::File => "file"@,
        EntryKind::Dir => "dir"@,
        EntryKind::Symlink => "link"@,
    }
}

/// The word for a kind of entry.
pub fn kind_label(kind: EntryKind) -> (label: &'static str)
    ensures
        label@ == kind_word(kind),
{
    match kind {
        EntryKind::File => "file",
        EntryKind::Dir => "dir",
        EntryKind::Symlink => "link",
    }
}

/// A text with blanks before it, so that it has at least `width` characters.
pub open spec fn padded(s: Seq<char>, width: nat) -> Seq<char> {
    if s.len() >= width {
        s
    } else {
        Seq::new((width - s.len()) as nat, |i: int| ' ') + s
    }
}

/// A text with blanks before it, so that it has at least `width` characters.
pub fn pad_left(s: &str, width: usize) -> (res: String)
    ensures
        res@ == padded(s@, width as nat),
{
    let len: usize = s.unicode_len();
    if len >= width {
        return String::from_str(s);
    }
    let mut res = String::new();
    let mut i: usize = 0;
    while i < width - len
        invariant
            len < width,
            i <= width - len,
            res@ =~= Seq::new(i as nat, |j: int| ' '),
        decreases width - len - i,
    {
        res.append(" ");
        proof {
            reveal_strlit(" ");
            assert(" "@ =~= seq![' ']);
        }
        i = i + 1;
    }
    res.append(s);
    res
}

/// A line of a listing: four columns, aligned to the right, and the path.
pub open spec fn line_of(
    size: Seq<char>,
    frame_size: Seq<char>,
    kind: Seq<char>,
    frame: Seq<char>,
    path: Seq<char>,
) -> Seq<char> {
    padded(size, 12) + "  "@ + padded(frame_size, 12) + "  "@ + padded(kind, 5) + "  "@ + padded(
        frame,
        10,
    ) + "  "@ + path
}

fn line(size: &str, frame_size: &str, kind: &str, frame: &str, path: &str) -> (res: String)
    ensures
        res@ == line_of(size@, frame_size@, kind@, frame@, path@),
{
    let mut res = pad_left(size, 12);
    res.append("  ");
    res.append(pad_left(frame_size, 12).as_str());
    res.append("  ");
    res.append(pad_left(kind, 5).as_str());
    res.append("  ");
    res.append(pad_left(frame, 10).as_str());
    res.append("  ");
    res.append(path);
    res
}

/// The head of a listing.
pub fn list_head() -> (res: String)
    ensures
        res@ == line_of("size"@, "frame_size"@, "kind"@, "frame@"@, "path"@),
{
    line("size", "frame_size", "kind", "frame@", "path")
}

/// The line of a listing for one entry.
pub open spec fn row_of(e: EntryView) -> Seq<char> {
    line_of(
        text::decimal_text(e.uncompressed_size as nat),
        text::decimal_text(e.frame_compressed_size as nat),
        kind_word(e.kind),
        text::decimal_text(e.frame_offset as nat),
        e.path,
    )
}

/// The line of a listing for one entry.
pub fn list_row(entry: &Entry) -> (res: String)
    ensures
        res@ == row_of(entry@),
{
    line(
        text::decimal(entry.uncompressed_size).as_str(),
        text::decimal(entry.frame_compressed_size).as_str(),
        kind_label(entry.kind),
        text::decimal(entry.frame_offset).as_str(),
        entry.path.as_str(),
    )
}

/// One entry as a user interface shows it.
#[derive(Debug)]
pub struct ListEntry {
    pub path: String,
    pub kind: String,
    pub size: u64,
    pub frame_size: u64,
    pub frame_offset: u64,
}

/// Whether `item` shows the entry `e`.
pub open spec fn shows(item: ListEntry, e: EntryView) -> bool {
    &&& item.path@ == e.path
    &&& item.kind@ == kind_word(e.kind)
    &&& item.size == e.uncompressed_size
    &&& item.frame_size == e.frame_compressed_size
    &&& item.frame_offset == e.frame_offset
}

/// Every entry as a user interface shows it, in the order of the index.
pub fn list_entries(entries: &Vec<Entry>) -> (items: Vec<ListEntry>)
    ensures
        items@.len() == entries@.len(),
        forall|i: int| 0 <= i < items@.len() ==> #[trigger] shows(items@[i], entries@[i]@),
{
    let mut items: Vec<ListEntry> = Vec::new();
    let mut i: usize = 0;
    while i < entries.len()
        invariant
            i <= entries@.len(),
            items@.len() == i,
            forall|j: int| 0 <= j < i ==> #[trigger] shows(items@[j], entries@[j]@),
        decreases entries@.len() - i,
    {
        let e: &Entry = &entries[i];
        items.push(
            ListEntry {
                path: e.path.clone(),
                kind: String::from_str(kind_label(e.kind)),
                size: e.uncompressed_size,
                frame_size: e.frame_compressed_size,
                frame_offset: e.frame_offset,
            },
        );
        i = i + 1;
    }
    items
}

/// The sizes of entries, added up; of files alone if `files_only`.
pub open spec fn sizes(entries: Seq<EntryView>, files_only: bool) -> nat
    decreases entries.len(),
{
    if entries.len() == 0 {
        0
    } else {
        let e = entries.last();
        sizes(entries.drop_last(), files_only) + if files_only && e.kind != EntryKind::File {
            0
        } else {
            e.uncompressed_size as nat
        }
    }
}

/// How many of the entries are files.
pub open spec fn file_count(entries: Seq<EntryView>) -> nat
    decreases entries.len(),
{
    if entries.len() == 0 {
        0
    } else {
        file_count(entries.drop_last()) + if entries.last().kind == EntryKind::File {
            1nat
        } else {
            0
        }
    }
}

/// The sizes of entries added up, or nothing where that exceeds 64 bits.
fn add_sizes(entries: &Vec<Entry>, files_only: bool) -> (total: Option<u64>)
    ensures
        match total {
            Some(n) => n == sizes(index::views(entries@), files_only),
            None => sizes(index::views(entries@), files_only) > u64::MAX,
        },
{
    let ghost all = index::views(entries@);
    let mut total: u64 = 0;
    let mut i: usize = 0;
    while i < entries.len()
        invariant
            i <= entries@.len(),
            all == index::views(entries@),
            total == sizes(all.take(i as int), files_only),
        decreases entries@.len() - i,
    {
        let ghost next = all.take(i + 1);
        proof {
            assert(next.drop_last() =~= all.take(i as int));
            assert(next.last() == entries@[i as int]@);
        }
        if !files_only || entries[i].kind == EntryKind::File {
            match total.checked_add(entries[i].uncompressed_size) {
                Some(sum) => {
                    total = sum;
                },
                None => {
                    proof {
                        lemma_sizes_grow(all, files_only, i + 1);
                    }
                    return None;
                },
            }
        }
        i = i + 1;
    }
    assert(all.take(i as int) =~= all);
    Some(total)
}

/// More entries have no smaller sum.
proof fn lemma_sizes_grow(entries: Seq<EntryView>, files_only: bool, count: int)
    requires
        0 <= count <= entries.len(),
    ensures
        sizes(entries.take(count), files_only) <= sizes(entries, files_only),
    decreases entries.len() - count,
{
    if count < entries.len() {
        assert(entries.take(count + 1).drop_last() =~= entries.take(count));
        lemma_sizes_grow(entries, files_only, count + 1);
    } else {
        assert(entries.take(count) =~= entries);
    }
}

/// The size of everything in an archive, or nothing where it exceeds 64 bits.
pub fn total_uncompressed(entries: &Vec<Entry>) -> (total: Option<u64>)
    ensures
        match total {
            Some(n) => n == sizes(index::views(entries@), false),
            None => sizes(index::views(entries@), false) > u64::MAX,
        },
{
    add_sizes(entries, false)
}

/// The size of all files in an archive, or nothing where it exceeds 64 bits.
pub fn total_file_bytes(entries: &Vec<Entry>) -> (total: Option<u64>)
    ensures
        match total {
            Some(n) => n == sizes(index::views(entries@), true),
            None => sizes(index::views(entries@), true) > u64::MAX,
        },
{
    add_sizes(entries, true)
}

/// How many files are in an archive.
pub fn total_files(entries: &Vec<Entry>) -> (total: u64)
    ensures
        total == file_count(index::views(entries@)),
{
    let ghost all = index::views(entries@);
    let mut total: u64 = 0;
    let mut i: usize = 0;
    while i < entries.len()
        invariant
            i <= entries@.len(),
            all == index::views(entries@),
            total == file_count(all.take(i as int)),
            total <= i,
        decreases entries@.len() - i,
    {
        let ghost next = all.take(i + 1);
        proof {
            assert(next.drop_last() =~= all.take(i as int));
            assert(next.last() == entries@[i as int]@);
        }
        if entries[i].kind == EntryKind::File {
            total = total + 1;
        }
        i = i + 1;
    }
    assert(all.take(i as int) =~= all);
    total
}

/// What is to be made of an entry before any file is written.
pub enum RestoreStep {
    /// Make a directory.
    MakeDir,
    /// Make a link that points to this.
    MakeLink(String),
    /// Nothing yet: files come once the directories are there.
    Later,
}

/// A [`RestoreStep`] with its text as a sequence of characters.
pub enum RestoreView {
    MakeDir,
    MakeLink(Seq<char>),
    Later,
}

impl View for RestoreStep {
    type V = RestoreView;

    open spec fn view(&self) -> RestoreView {
        match self {
            RestoreStep::MakeDir => RestoreView::MakeDir,
            RestoreStep::MakeLink(target) => RestoreView::MakeLink(target@),
            RestoreStep::Later => RestoreView::Later,
        }
    }
}

/// What is to be made of an entry before any file is written.
pub open spec fn restore_of(e: EntryView) -> RestoreView {
    match e.kind {
        EntryKind::Dir => RestoreView::MakeDir,
        EntryKind::Symlink => RestoreView::MakeLink(e.target_text()),
        EntryKind::File => RestoreView::Later,
    }
}

/// What is to be made of an entry before any file is written.
pub fn restore_step(entry: &Entry) -> (step: RestoreStep)
    ensures
        step@ == restore_of(entry@),
{
    match entry.kind {
        EntryKind::Dir => RestoreStep::MakeDir,
        EntryKind::Symlink => match &entry.link_target {
            Some(target) => RestoreStep::MakeLink(target.clone()),
            None => RestoreStep::MakeLink(String::new()),
        },
        EntryKind::File => RestoreStep::Later,
    }
}

/// The permission bits that a restored file gets; none where none were kept.
pub fn restored_mode(entry: &Entry) -> (mode: Option<u32>)
    ensures
        mode == if entry.mode != 0 {
            Some(entry.mode)
        } else {
            None
        },
{
    if entry.mode != 0 {
        Some(entry.mode)
    } else {
        None
    }
}

/// The files of an archive are never larger than everything in it.
pub proof fn law_files_within_total(entries: Seq<EntryView>)
    ensures
        sizes(entries, true) <= sizes(entries, false),
        file_count(entries) <= entries.len(),
    decreases entries.len(),
{
    if entries.len() > 0 {
        law_files_within_total(entries.drop_last());
    }
}

/// Nothing but blanks; none where there is no room for any.
pub open spec fn blanks(count: int) -> Seq<char> {
    if count <= 0 {
        Seq::empty()
    } else {
        Seq::new(count as nat, |i: int| ' ')
    }
}

/// A text is aligned to the right by blanks before it, and by nothing else: it
/// keeps all of its characters, and is never wider than it has to be.
pub proof fn law_aligned(s: &str, width: usize, res: String)
    requires
        call_ensures(pad_left, (s, width), res),
    ensures
        res@.len() == if s@.len() < width {
            width as int
        } else {
            s@.len() as int
        },
        res@.skip(res@.len() - s@.len()) == s@,
        forall|i: int| 0 <= i < res@.len() - s@.len() ==> res@[i] == ' ',
{
    assert(res@.skip(res@.len() - s@.len()) =~= s@);
}

/// The row of an entry shows, each aligned to the right in its column: the size
/// of its content, the size of its frame, the word for its kind, and where the
/// frame lies. The path ends the row. The numbers are those of the entry, and
/// each of them depends on nothing else.
pub proof fn law_row_shows_the_entry(
    e: Entry,
    row: String,
    size: String,
    frame_size: String,
    word: &'static str,
    frame: String,
)
    requires
        call_ensures(list_row, (&e,), row),
        call_ensures(text::decimal, (e.uncompressed_size,), size),
        call_ensures(text::decimal, (e.frame_compressed_size,), frame_size),
        call_ensures(kind_label, (e.kind,), word),
        call_ensures(text::decimal, (e.frame_offset,), frame),
    ensures
        row@ == blanks(12 - size@.len()) + size@ + blanks(2) + blanks(12 - frame_size@.len())
            + frame_size@ + blanks(2) + blanks(5 - word@.len()) + word@ + blanks(2) + blanks(
            10 - frame@.len(),
        ) + frame@ + blanks(2) + e.path@,
        text::spelled(size@) == e.uncompressed_size,
        text::spelled(frame_size@) == e.frame_compressed_size,
        text::spelled(frame@) == e.frame_offset,
        word@ == match e.kind {
            EntryKind::File => "file"@,
            EntryKind::Dir => "dir"@,
            EntryKind::Symlink => "link"@,
        },
{
    text::lemma_decimal_spells(e.uncompressed_size as nat);
    text::lemma_decimal_spells(e.frame_compressed_size as nat);
    text::lemma_decimal_spells(e.frame_offset as nat);
    reveal_strlit("  ");
    assert("  "@ =~= blanks(2));
    lemma_padded(size@, 12);
    lemma_padded(frame_size@, 12);
    lemma_padded(word@, 5);
    lemma_padded(frame@, 10);
    assert(row@ =~= blanks(12 - size@.len()) + size@ + blanks(2) + blanks(
        12 - frame_size@.len(),
    ) + frame_size@ + blanks(2) + blanks(5 - word@.len()) + word@ + blanks(2) + blanks(
        10 - frame@.len(),
    ) + frame@ + blanks(2) + e.path@);
}

/// Aligning puts blanks before a text.
proof fn lemma_padded(s: Seq<char>, width: nat)
    ensures
        padded(s, width) == blanks(width - s.len()) + s,
{
    assert(padded(s, width) =~= blanks(width - s.len()) + s);
}

/// The first column of two rows is the same wherever the contents have the same
/// size, whatever else differs.
pub proof fn law_first_column_is_the_size(e: Entry, other: Entry, row: String, other_row: String)
    requires
        call_ensures(list_row, (&e,), row),
        call_ensures(list_row, (&other,), other_row),
        e.uncompressed_size == other.uncompressed_size,
    ensures
        row@.len() >= 12,
        other_row@.len() >= 12,
        row@.take(12) == other_row@.take(12),
{
    assert(row@.take(12) =~= other_row@.take(12));
}

/// A listing shows every entry once and in the order of the index, each with its
/// own path, kind, sizes and place.
pub proof fn law_listing_shows_all(entries: Vec<Entry>, items: Vec<ListEntry>, i: int)
    requires
        call_ensures(list_entries, (&entries,), items),
        0 <= i < entries@.len(),
    ensures
        items@.len() == entries@.len(),
        items@[i].path@ == entries@[i].path@,
        items@[i].kind@ == match entries@[i].kind {
            EntryKind::File => "file"@,
            EntryKind::Dir => "dir"@,
            EntryKind::Symlink => "link"@,
        },
        items@[i].size == entries@[i].uncompressed_size,
        items@[i].frame_size == entries@[i].frame_compressed_size,
        items@[i].frame_offset == entries@[i].frame_offset,
{
    assert(shows(items@[i], entries@[i]@));
}

/// One more entry adds its size to the total, and, if it is a file, to that of
/// the files, and counts as a file. Nothing has no size.
pub proof fn law_totals_add_up(
    entries: Vec<Entry>,
    more: Vec<Entry>,
    all: Option<u64>,
    all_more: Option<u64>,
    files: Option<u64>,
    files_more: Option<u64>,
    count: u64,
    count_more: u64,
)
    requires
        call_ensures(total_uncompressed, (&entries,), all),
        call_ensures(total_uncompressed, (&more,), all_more),
        call_ensures(total_file_bytes, (&entries,), files),
        call_ensures(total_file_bytes, (&more,), files_more),
        call_ensures(total_files, (&entries,), count),
        call_ensures(total_files, (&more,), count_more),
        more@.len() > 0,
        more@.drop_last() == entries@,
    ensures
        ({
            let last = more@.last();
            let size = last.uncompressed_size;
            let is_file = last.kind == EntryKind::File;
            &&& entries@.len() == 0 ==> all == Some(0u64) && files == Some(0u64) && count == 0
            &&& all_more == if all is Some && all->Some_0 + size <= u64::MAX {
                Some((all->Some_0 + size) as u64)
            } else {
                None
            }
            &&& is_file ==> files_more == if files is Some && files->Some_0 + size <= u64::MAX {
                Some((files->Some_0 + size) as u64)
            } else {
                None
            }
            &&& !is_file ==> files_more == files
            &&& count_more == count + if is_file {
                1int
            } else {
                0
            }
        }),
{
    let (few, many) = (index::views(entries@), index::views(more@));
    assert(many.drop_last() =~= few);
    assert(many.last() == more@.last()@);
}

/// What is made of an entry: a directory of a directory, a link to the stored
/// target of a link, and nothing yet of a file; the permission bits are those
/// that were stored.
pub proof fn law_restores_what_was_stored(e: Entry, step: RestoreStep, mode: Option<u32>)
    requires
        call_ensures(restore_step, (&e,), step),
        call_ensures(restored_mode, (&e,), mode),
    ensures
        step is MakeDir <==> e.kind == EntryKind::Dir,
        step is Later <==> e.kind == EntryKind::File,
        step matches RestoreStep::MakeLink(target) ==> match e.link_target {
            Some(stored) => target@ == stored@,
            None => target@.len() == 0,
        },
        e.mode != 0 ==> mode == Some(e.mode),
        e.mode == 0 ==> mode is None,
{
}

/// The head of a listing names the columns of its rows, each over its column.
pub proof fn law_head_names_the_columns(res: String)
    requires
        call_ensures(list_head, (), res),
    ensures
        res@ == blanks(8) + "size"@ + blanks(2) + blanks(2) + "frame_size"@ + blanks(2) + blanks(1)
            + "kind"@ + blanks(2) + blanks(4) + "frame@"@ + blanks(2) + "path"@,
{
    reveal_strlit("  ");
    reveal_strlit("size");
    reveal_strlit("frame_size");
    reveal_strlit("kind");
    reveal_strlit("frame@");
    assert("  "@ =~= blanks(2));
    lemma_padded("size"@, 12);
    lemma_padded("frame_size"@, 12);
    lemma_padded("kind"@, 5);
    lemma_padded("frame@"@, 10);
    assert(res@ =~= blanks(8) + "size"@ + blanks(2) + blanks(2) + "frame_size"@ + blanks(2)
        + blanks(1) + "kind"@ + blanks(2) + blanks(4) + "frame@"@ + blanks(2) + "path"@);
}

} // verus!
