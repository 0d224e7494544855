//! What a finished archive promises to whoever reads it.

use crate::assembly;
use crate::codec;
use crate::crypto::Encryption;
use crate::error::{ErrorView, Result};
use crate::extract;
use crate::extract::Delivery;
use crate::format::{EncryptionHeaderView, EntryKind, Footer, Header};
use crate::frame;
use crate::groups;
use crate::groups::FrameGroup;
use crate::index;
use crate::index::EntryView;
use crate::reader;
use vstd::prelude::*;

pub use crate::reader::Reader;
pub use crate::writer::{Writer, WriterMode};

verus! {

/// Whether an archive holds `content` for the entry `e`.
pub open spec fn holds(
    archive: Seq<u8>,
    key: Option<Seq<u8>>,
    e: EntryView,
    content: Seq<u8>,
) -> bool {
    &&& e.frame_compressed_size > 0
    &&& e.frame_offset + e.frame_compressed_size <= archive.len()
    &&& extract::frame_data(archive, key, e.frame_offset, e.frame_compressed_size) matches Ok(data)
        && extract::content_of(e, data) == Ok::<Seq<u8>, ErrorView>(content)
        && made_of(archive, key, e, data)
}

/// Whether the frame of an entry is what an encoder makes of `data`.
pub open spec fn made_of(
    archive: Seq<u8>,
    key: Option<Seq<u8>>,
    e: EntryView,
    data: Seq<u8>,
) -> bool {
    extract::frame_payload(archive, key, e.frame_offset, e.frame_compressed_size) matches Ok(
        payload,
    ) && codec::encoded(data, payload)
}

/// Whether the files that start at the same place in an archive have frames of
/// the same size.
pub open spec fn frames_agree(entries: Seq<EntryView>) -> bool {
    forall|i: int, j: int| #![trigger entries[i], entries[j]]
        0 <= i < entries.len() && 0 <= j < entries.len() && entries[i].kind == EntryKind::File
            && entries[j].kind == EntryKind::File && entries[i].frame_offset
            == entries[j].frame_offset ==> entries[i].frame_compressed_size
            == entries[j].frame_compressed_size
}

/// Where a file ends within the data of its frame.
pub open spec fn end_of(e: EntryView) -> int {
    e.block_offset + e.uncompressed_size
}

/// Whether the files lie in the archive in the order of the index: frame after
/// frame, and within a frame one behind the other.
pub open spec fn in_order(entries: Seq<EntryView>) -> bool {
    forall|i: int, j: int| #![trigger entries[i], entries[j]]
        0 <= i < j < entries.len() && entries[i].kind == EntryKind::File && entries[j].kind
            == EntryKind::File ==> {
            &&& entries[i].frame_offset <= entries[j].frame_offset
            &&& entries[i].frame_offset == entries[j].frame_offset ==> end_of(entries[i])
                <= entries[j].block_offset
        }
}

/// Whether shared frames keep to a target: a file that does not begin its frame
/// ends within the target, and so does one that shares its frame with a file
/// that has bytes.
pub open spec fn within_target(entries: Seq<EntryView>, target: u64) -> bool {
    &&& forall|j: int| #![trigger entries[j]]
        0 <= j < entries.len() && entries[j].kind == EntryKind::File && entries[j].block_offset > 0
            ==> end_of(entries[j]) <= target
    &&& forall|i: int, j: int| #![trigger entries[i], entries[j]]
        0 <= i < entries.len() && 0 <= j < entries.len() && i != j && entries[i].kind
            == EntryKind::File && entries[j].kind == EntryKind::File && entries[i].frame_offset
            == entries[j].frame_offset && entries[i].uncompressed_size > 0 ==> end_of(entries[j])
            <= target
}

/// Where the frames of the files end if they follow each other from `start` on.
pub open spec fn frames_end(entries: Seq<EntryView>, start: nat) -> nat
    decreases entries.len(),
{
    if entries.len() == 0 {
        start
    } else {
        frames_end(entries.drop_last(), start) + if entries.last().kind == EntryKind::File {
            entries.last().frame_compressed_size as nat
        } else {
            0
        }
    }
}

/// Whether each file has a frame of its own, not empty, and the frames follow
/// each other from `start` on.
pub open spec fn tiled(entries: Seq<EntryView>, start: nat) -> bool {
    forall|i: int| #![trigger entries[i]]
        0 <= i < entries.len() && entries[i].kind == EntryKind::File ==> {
            &&& entries[i].frame_offset == frames_end(entries.take(i), start)
            &&& entries[i].frame_compressed_size > 0
            &&& entries[i].block_offset == 0
        }
}

/// Whether an archive whose headers take `start` bytes has one frame for each
/// file, without gaps, and the index right behind the last of them.
pub open spec fn per_file_layout(
    archive: Seq<u8>,
    key: Option<Seq<u8>>,
    start: nat,
    entries: Seq<EntryView>,
) -> bool {
    &&& tiled(entries, start)
    &&& (reader::contents_of(archive, key) matches Ok((footer, listed)) && footer.index_offset
        == frames_end(entries, start))
}

/// Whether an archive starts with these headers, opens under this key to these
/// entries, and holds these contents for its files.
#[verifier::opaque]
pub open spec fn is_archive(
    archive: Seq<u8>,
    head: (Header, Option<EncryptionHeaderView>),
    key: Option<Seq<u8>>,
    entries: Seq<EntryView>,
    contents: Seq<Seq<u8>>,
) -> bool {
    &&& reader::opening_of(archive.len(), archive) == Ok::<
        (Header, Option<EncryptionHeaderView>),
        ErrorView,
    >(head)
    &&& (reader::contents_of(archive, key) matches Ok((footer, listed)) && listed == entries)
    &&& forall|i: int| #![trigger entries[i]]
        0 <= i < entries.len() && entries[i].kind == EntryKind::File ==> holds(
            archive,
            key,
            entries[i],
            contents[i],
        )
    &&& frames_agree(entries)
    &&& in_order(entries)
}

/// The size of a footer.
pub proof fn lemma_footer_size(footer: Footer)
    ensures
        crate::format::footer_bytes(footer).len() == 32,
{
    crate::bytes::lemma_le_bytes_len(footer.index_offset as nat, 8);
    crate::bytes::lemma_le_bytes_len(footer.index_size as nat, 8);
    crate::bytes::lemma_le_bytes_len(footer.index_xxh3 as nat, 8);
    crate::bytes::lemma_le_bytes_len(footer.flags as nat, 4);
}

/// Behind any bytes, an index that was stored and the footer for it read back.
pub proof fn lemma_reads_index(
    stream: Seq<u8>,
    key: Option<Seq<u8>>,
    entries: Seq<EntryView>,
    stored: Seq<u8>,
    footer: Footer,
)
    requires
        index::index_write(entries).fault is None,
        index::canonical(entries) == entries,
        frame::unsealed(key, stored, "encrypted index too small"@) == Ok::<Seq<u8>, ErrorView>(
            index::index_write(entries).bytes,
        ),
        footer.index_offset == stream.len(),
        footer.index_size == stored.len(),
        footer.index_xxh3 == codec::xxh3_of(index::index_write(entries).bytes),
    ensures
        reader::contents_of(stream + stored + crate::format::footer_bytes(footer), key) == Ok::<
            (Footer, Seq<EntryView>),
            ErrorView,
        >((footer, entries)),
        index::index_write(entries).bytes.len() >= 4,
{
    let listing = index::index_write(entries).bytes;
    let end = crate::format::footer_bytes(footer);
    let whole = stream + stored + end;
    lemma_footer_size(footer);
    assert(reader::tail_of(whole) =~= end);
    assert(end + Seq::empty() =~= end);
    crate::format::law_footer_round_trip(footer, Seq::empty());
    assert(whole.subrange(stream.len() as int, (stream.len() + stored.len()) as int) =~= stored);
    index::law_index_round_trip(entries, Seq::empty());
    assert(listing + Seq::empty() =~= listing);
    crate::bytes::lemma_le_bytes_len(entries.len(), 4);
}

/// A finished archive without encryption opens to its entries.
pub proof fn law_plain_archive_opens(
    archive: Seq<u8>,
    head: (Header, Option<EncryptionHeaderView>),
    entries: Seq<EntryView>,
    contents: Seq<Seq<u8>>,
    res: Result<Reader>,
)
    requires
        is_archive(archive, head, None, entries, contents),
        reader::opens_to(archive, head.0, None, res),
    ensures
        res matches Ok(r) && r.listed() == entries && r.header == head.0 && r.key() is None,
{
    reveal(is_archive);
}

/// A finished archive with encryption opens to its entries with every password
/// that leads to its key.
pub proof fn law_password_opens(
    archive: Seq<u8>,
    created_at: i64,
    enc: Encryption,
    entries: Seq<EntryView>,
    contents: Seq<Seq<u8>>,
    password: String,
    res: Result<Reader>,
)
    requires
        is_archive(
            archive,
            assembly::head_for(created_at, Some(enc)),
            Some(enc.key@),
            entries,
            contents,
        ),
        enc.unlocked_by(password@),
        reader::opens_with(
            archive,
            assembly::head_for(created_at, Some(enc)).0,
            assembly::head_for(created_at, Some(enc)).1->Some_0,
            Ok(password),
            res,
        ),
    ensures
        res matches Ok(r) && r.listed() == entries && r.key() == Some(enc.key@) && r.header
            == assembly::head_for(created_at, Some(enc)).0,
{
    reveal(is_archive);
}

/// Whatever opens has the headers that a probe reads.
pub proof fn law_probe_agrees(archive: Seq<u8>)
    ensures
        reader::opening_of(archive.len(), archive) matches Ok(head) ==> reader::head_of(archive)
            == Ok::<(Header, Option<EncryptionHeaderView>), ErrorView>(head),
{
}

/// Extracting a file of a finished archive gives the content that it was
/// written with.
pub proof fn law_extract_gives_content(
    archive: Seq<u8>,
    head: (Header, Option<EncryptionHeaderView>),
    key: Option<Seq<u8>>,
    entries: Seq<EntryView>,
    contents: Seq<Seq<u8>>,
    i: int,
    before: Seq<u8>,
    after: Seq<u8>,
    res: Result<u64>,
)
    requires
        is_archive(archive, head, key, entries, contents),
        0 <= i < entries.len(),
        entries[i].kind == EntryKind::File,
        extract::extracts(archive, key, entries[i], before, after, res),
    ensures
        after == before + contents[i],
        res matches Ok(n) && n == contents[i].len(),
{
    reveal(is_archive);
    assert(holds(archive, key, entries[i], contents[i]));
    let e = entries[i];
    let data = extract::frame_data(archive, key, e.frame_offset, e.frame_compressed_size)->Ok_0;
    law_walk_and_extract_agree(e, data);
}

/// The two ways to a file agree: where a walk hands a file out, extracting it
/// gives the same bytes; where extracting it gives its content, and it begins
/// within the frame, a walk hands that out.
pub proof fn law_walk_and_extract_agree(e: EntryView, data: Seq<u8>)
    ensures
        extract::content_of(e, data) matches Ok(content) ==> extract::portion(e, data) == content
            && extract::is_content(e, content),
        extract::is_content(e, extract::portion(e, data)) && e.block_offset <= data.len()
            ==> extract::content_of(e, data) == Ok::<Seq<u8>, ErrorView>(extract::portion(e, data)),
{
    let start = e.block_offset as int;
    let end = e.block_offset + e.uncompressed_size;
    if end <= data.len() {
        assert(extract::portion(e, data) =~= data.subrange(start, end));
    }
}

/// Whether the file `i` is among those handed out.
pub open spec fn served(files: Seq<(int, Seq<u8>)>, i: int) -> bool {
    exists|a: int| 0 <= a < files.len() && #[trigger] files[a].0 == i
}

/// Whether `files` are files with the contents that they were written with, no
/// one twice.
pub open spec fn right_files(
    entries: Seq<EntryView>,
    contents: Seq<Seq<u8>>,
    files: Seq<(int, Seq<u8>)>,
) -> bool {
    &&& forall|a: int| #![trigger files[a]]
        0 <= a < files.len() ==> {
            &&& 0 <= files[a].0 < entries.len()
            &&& entries[files[a].0].kind == EntryKind::File
            &&& files[a].1 == contents[files[a].0]
        }
    &&& forall|a: int, b: int| #![trigger files[a], files[b]]
        0 <= a < b < files.len() ==> files[a].0 != files[b].0
}

/// What the members of one frame lead to.
proof fn lemma_members_served(
    entries: Seq<EntryView>,
    contents: Seq<Seq<u8>>,
    data: Seq<u8>,
    members: Seq<usize>,
)
    requires
        forall|a: int| #![trigger members[a]]
            0 <= a < members.len() ==> {
                &&& members[a] < entries.len()
                &&& entries[members[a] as int].kind == EntryKind::File
                &&& extract::content_of(entries[members[a] as int], data) == Ok::<
                    Seq<u8>,
                    ErrorView,
                >(contents[members[a] as int])
            },
        forall|a: int, b: int| #![trigger members[a], members[b]]
            0 <= a < b < members.len() ==> members[a] != members[b],
    ensures
        ({
            let d = extract::deliver_members(entries, data, members);
            &&& d.fault is None
            &&& d.files.len() == members.len()
            &&& forall|a: int| #![trigger d.files[a]] #![trigger members[a]]
                0 <= a < members.len() ==> d.files[a] == (
                    members[a] as int,
                    contents[members[a] as int],
                )
            &&& right_files(entries, contents, d.files)
        }),
    decreases members.len(),
{
    let d = extract::deliver_members(entries, data, members);
    if members.len() > 0 {
        let rest = members.drop_first();
        assert forall|a: int| #![trigger rest[a]] 0 <= a < rest.len() implies {
            &&& rest[a] < entries.len()
            &&& entries[rest[a] as int].kind == EntryKind::File
            &&& extract::content_of(entries[rest[a] as int], data) == Ok::<Seq<u8>, ErrorView>(
                contents[rest[a] as int],
            )
        } by {
            assert(rest[a] == members[a + 1]);
        }
        assert forall|a: int, b: int| #![trigger rest[a], rest[b]]
            0 <= a < b < rest.len() implies rest[a] != rest[b] by {
            assert(rest[a] == members[a + 1]);
            assert(rest[b] == members[b + 1]);
        }
        lemma_members_served(entries, contents, data, rest);
        let later = extract::deliver_members(entries, data, rest);
        assert(members[0] < entries.len());
        assert forall|a: int| #![trigger d.files[a]] #![trigger members[a]]
            0 <= a < members.len() implies d.files[a] == (
            members[a] as int,
            contents[members[a] as int],
        ) by {
            if a > 0 {
                assert(d.files[a] == later.files[a - 1]);
                assert(rest[a - 1] == members[a]);
            }
        }
    }
}

/// Whether a group can be handed out in full.
spec fn group_held(
    archive: Seq<u8>,
    key: Option<Seq<u8>>,
    entries: Seq<EntryView>,
    contents: Seq<Seq<u8>>,
    group: FrameGroup,
) -> bool {
    let d = extract::deliver_group(archive, key, entries, group);
    &&& d.fault is None
    &&& right_files(entries, contents, d.files)
    &&& forall|i: int| #[trigger] served(d.files, i) <==> 0 <= i < entries.len()
        && groups::shares_frame(entries, group.first as int, i)
}

/// A group of a finished archive can be handed out in full.
proof fn lemma_group_held(
    archive: Seq<u8>,
    key: Option<Seq<u8>>,
    entries: Seq<EntryView>,
    contents: Seq<Seq<u8>>,
    group: FrameGroup,
)
    requires
        groups::is_group(entries, entries.len() as int, group),
        frames_agree(entries),
        forall|i: int| #![trigger entries[i]]
            0 <= i < entries.len() && entries[i].kind == EntryKind::File ==> holds(
                archive,
                key,
                entries[i],
                contents[i],
            ),
        entries.len() <= usize::MAX,
    ensures
        group_held(archive, key, entries, contents, group),
        ({
            let files = extract::deliver_group(archive, key, entries, group).files;
            &&& files.len() == group.members@.len()
            &&& forall|a: int| #![trigger files[a]]
                0 <= a < files.len() ==> files[a].0 == group.members@[a]
        }),
{
    let first = entries[group.first as int];
    let members = group.members@;
    assert(holds(archive, key, first, contents[group.first as int]));
    let data = extract::frame_data(
        archive,
        key,
        first.frame_offset,
        first.frame_compressed_size,
    )->Ok_0;
    assert forall|a: int| #![trigger members[a]] 0 <= a < members.len() implies {
        &&& members[a] < entries.len()
        &&& entries[members[a] as int].kind == EntryKind::File
        &&& extract::content_of(entries[members[a] as int], data) == Ok::<Seq<u8>, ErrorView>(
            contents[members[a] as int],
        )
    } by {
        let e = entries[members[a] as int];
        assert(groups::shares_frame(entries, group.first as int, members[a] as int));
        assert(holds(archive, key, e, contents[members[a] as int]));
        assert(e.frame_compressed_size == first.frame_compressed_size);
    }
    assert forall|a: int, b: int| #![trigger members[a], members[b]]
        0 <= a < b < members.len() implies members[a] != members[b] by {
        assert(groups::visited_before(entries, members[a] as int, members[b] as int));
    }
    lemma_members_served(entries, contents, data, members);
    let d = extract::deliver_group(archive, key, entries, group);
    assert forall|i: int| #[trigger] served(d.files, i) implies 0 <= i < entries.len()
        && groups::shares_frame(entries, group.first as int, i) by {
        let a = choose|a: int| 0 <= a < d.files.len() && #[trigger] d.files[a].0 == i;
        assert(d.files[a] == (members[a] as int, contents[members[a] as int]));
    }
    assert forall|i: int|
        0 <= i < entries.len() && groups::shares_frame(
            entries,
            group.first as int,
            i,
        ) implies #[trigger] served(d.files, i) by {
        assert(members.contains(i as usize));
        let a = choose|a: int| 0 <= a < members.len() && members[a] == i as usize;
        assert(d.files[a] == (members[a] as int, contents[members[a] as int]));
        assert(d.files[a].0 == i);
    }
}

/// What groups lead to that can each be handed out in full.
proof fn lemma_groups_served(
    archive: Seq<u8>,
    key: Option<Seq<u8>>,
    entries: Seq<EntryView>,
    contents: Seq<Seq<u8>>,
    groups: Seq<FrameGroup>,
)
    requires
        forall|k: int| #![trigger groups[k]]
            0 <= k < groups.len() ==> group_held(archive, key, entries, contents, groups[k]),
        forall|k: int, l: int| #![trigger groups[k], groups[l]]
            0 <= k < l < groups.len() ==> entries[groups[k].first as int].frame_offset
                != entries[groups[l].first as int].frame_offset,
    ensures
        ({
            let d = extract::deliver_groups(archive, key, entries, groups);
            &&& d.fault is None
            &&& right_files(entries, contents, d.files)
            &&& forall|i: int| #[trigger] served(d.files, i) <==> 0 <= i < entries.len()
                && groups::has_group(entries, groups, i)
        }),
    decreases groups.len(),
{
    let d = extract::deliver_groups(archive, key, entries, groups);
    if groups.len() > 0 {
        let rest = groups.drop_first();
        assert forall|k: int| #![trigger rest[k]] 0 <= k < rest.len() implies group_held(
            archive,
            key,
            entries,
            contents,
            rest[k],
        ) by {
            assert(rest[k] == groups[k + 1]);
        }
        assert forall|k: int, l: int| #![trigger rest[k], rest[l]]
            0 <= k < l < rest.len() implies entries[rest[k].first as int].frame_offset
            != entries[rest[l].first as int].frame_offset by {
            assert(rest[k] == groups[k + 1]);
            assert(rest[l] == groups[l + 1]);
        }
        lemma_groups_served(archive, key, entries, contents, rest);
        assert(group_held(archive, key, entries, contents, groups[0]));
        let near = extract::deliver_group(archive, key, entries, groups[0]).files;
        let far = extract::deliver_groups(archive, key, entries, rest).files;
        assert(d.files == near + far);
        assert forall|i: int| served(near, i) implies !#[trigger] served(far, i) by {
            if served(far, i) {
                assert(groups::has_group(entries, rest, i));
                let k = choose|k: int| 0 <= k < rest.len() && #[trigger] groups::shares_frame(
                    entries,
                    rest[k].first as int,
                    i,
                );
                assert(rest[k] == groups[k + 1]);
                assert(groups[0].first == groups[0].first);
            }
        }
        assert forall|a: int, b: int| #![trigger d.files[a], d.files[b]]
            0 <= a < b < d.files.len() implies d.files[a].0 != d.files[b].0 by {
            if b < near.len() {
                assert(d.files[a] == near[a] && d.files[b] == near[b]);
            } else if a >= near.len() {
                assert(d.files[a] == far[a - near.len()] && d.files[b] == far[b - near.len()]);
            } else {
                assert(near[a].0 == d.files[a].0);
                assert(served(near, d.files[a].0));
                assert(far[b - near.len()].0 == d.files[b].0);
                assert(served(far, d.files[b].0));
            }
        }
        assert forall|a: int| #![trigger d.files[a]] 0 <= a < d.files.len() implies {
            &&& 0 <= d.files[a].0 < entries.len()
            &&& entries[d.files[a].0].kind == EntryKind::File
            &&& d.files[a].1 == contents[d.files[a].0]
        } by {
            if a < near.len() {
                assert(d.files[a] == near[a]);
            } else {
                assert(d.files[a] == far[a - near.len()]);
            }
        }
        assert forall|i: int| #[trigger] served(d.files, i) implies 0 <= i < entries.len()
            && groups::has_group(entries, groups, i) by {
            let a = choose|a: int| 0 <= a < d.files.len() && #[trigger] d.files[a].0 == i;
            if a < near.len() {
                assert(near[a].0 == i);
                assert(served(near, i));
                assert(groups::shares_frame(entries, groups[0].first as int, i));
            } else {
                assert(far[a - near.len()].0 == i);
                assert(served(far, i));
                let k = choose|k: int| 0 <= k < rest.len() && #[trigger] groups::shares_frame(
                    entries,
                    rest[k].first as int,
                    i,
                );
                assert(groups::shares_frame(entries, groups[k + 1].first as int, i));
            }
        }
        assert forall|i: int|
            0 <= i < entries.len() && groups::has_group(
                entries,
                groups,
                i,
            ) implies #[trigger] served(d.files, i) by {
            let k = choose|k: int| 0 <= k < groups.len() && #[trigger] groups::shares_frame(
                entries,
                groups[k].first as int,
                i,
            );
            if k == 0 {
                assert(served(near, i));
                let a = choose|a: int| 0 <= a < near.len() && #[trigger] near[a].0 == i;
                assert(d.files[a].0 == i);
            } else {
                assert(groups::shares_frame(entries, rest[k - 1].first as int, i));
                assert(groups::has_group(entries, rest, i));
                assert(served(far, i));
                let a = choose|a: int| 0 <= a < far.len() && #[trigger] far[a].0 == i;
                assert(d.files[near.len() + a].0 == i);
            }
        }
    }
}

/// A walk over a finished archive meets no error, and hands out every file
/// exactly once, with the content that it was written with.
pub proof fn law_walk_gives_every_file(
    archive: Seq<u8>,
    head: (Header, Option<EncryptionHeaderView>),
    key: Option<Seq<u8>>,
    entries: Seq<EntryView>,
    contents: Seq<Seq<u8>>,
    d: Delivery,
)
    requires
        is_archive(archive, head, key, entries, contents),
        extract::is_delivery(archive, key, entries, d),
        entries.len() <= usize::MAX,
    ensures
        d.fault is None,
        right_files(entries, contents, d.files),
        forall|i: int| #[trigger] served(d.files, i) <==> 0 <= i < entries.len() && entries[i].kind
            == EntryKind::File,
{
    reveal(is_archive);
    let groups = choose|groups: Seq<FrameGroup>| #[trigger]
        groups::is_grouping(entries, entries.len() as int, groups) && d == extract::deliver_groups(
            archive,
            key,
            entries,
            groups,
        );
    assert forall|k: int| #![trigger groups[k]] 0 <= k < groups.len() implies group_held(
        archive,
        key,
        entries,
        contents,
        groups[k],
    ) by {
        assert(groups::is_group(entries, entries.len() as int, groups[k]));
        lemma_group_held(archive, key, entries, contents, groups[k]);
    }
    lemma_groups_served(archive, key, entries, contents, groups);
    assert forall|i: int| #[trigger] served(d.files, i) <==> 0 <= i < entries.len()
        && entries[i].kind == EntryKind::File by {
        if 0 <= i < entries.len() && entries[i].kind == EntryKind::File {
            assert(groups::has_group(entries, groups, i));
        }
    }
}

/// Whether the places in the index go up.
pub open spec fn ascending(files: Seq<(int, Seq<u8>)>) -> bool {
    forall|a: int, b: int| #![trigger files[a], files[b]]
        0 <= a < b < files.len() ==> files[a].0 < files[b].0
}

/// Files in order are visited in order within a frame.
proof fn lemma_members_ascend(entries: Seq<EntryView>, group: FrameGroup, a: int, b: int)
    requires
        in_order(entries),
        groups::is_group(entries, entries.len() as int, group),
        0 <= a < b < group.members@.len(),
    ensures
        group.members@[a] < group.members@[b],
{
    let i = group.members@[a] as int;
    let j = group.members@[b] as int;
    assert(groups::visited_before(entries, i, j));
    assert(groups::shares_frame(entries, group.first as int, i));
    assert(groups::shares_frame(entries, group.first as int, j));
    if j < i {
        assert(end_of(entries[j]) <= entries[i].block_offset);
    }
}

/// Files in order are visited in order from frame to frame.
proof fn lemma_frames_ascend(
    entries: Seq<EntryView>,
    groups: Seq<FrameGroup>,
    k: int,
    l: int,
    i: int,
    j: int,
)
    requires
        in_order(entries),
        groups::is_grouping(entries, entries.len() as int, groups),
        0 <= k < l < groups.len(),
        0 <= i < entries.len(),
        0 <= j < entries.len(),
        groups::shares_frame(entries, groups[k].first as int, i),
        groups::shares_frame(entries, groups[l].first as int, j),
    ensures
        i < j,
{
    let m = groups[k].first as int;
    let n = groups[l].first as int;
    assert(groups::is_group(entries, entries.len() as int, groups[k]));
    assert(groups::is_group(entries, entries.len() as int, groups[l]));
    assert(m < n);
    assert(entries[m].frame_offset <= entries[n].frame_offset);
    if j < i {
        assert(entries[j].frame_offset <= entries[i].frame_offset);
    }
}

/// Whether the file `i` lies in one of the frames from the group `from` on.
spec fn lies_behind(entries: Seq<EntryView>, groups: Seq<FrameGroup>, from: int, i: int) -> bool {
    exists|k: int|
        from <= k < groups.len() && 0 <= i < entries.len() && #[trigger] groups::shares_frame(
            entries,
            groups[k].first as int,
            i,
        )
}

/// What a walk hands out of frames whose files are in order goes up.
proof fn lemma_walk_ascends(
    archive: Seq<u8>,
    key: Option<Seq<u8>>,
    entries: Seq<EntryView>,
    contents: Seq<Seq<u8>>,
    groups: Seq<FrameGroup>,
    from: int,
)
    requires
        in_order(entries),
        groups::is_grouping(entries, entries.len() as int, groups),
        forall|k: int| #![trigger groups[k]]
            0 <= k < groups.len() ==> group_held(archive, key, entries, contents, groups[k])
                && ascending(extract::deliver_group(archive, key, entries, groups[k]).files),
        0 <= from <= groups.len(),
    ensures
        ({
            let d = extract::deliver_groups(archive, key, entries, groups.skip(from));
            &&& ascending(d.files)
            &&& forall|a: int| #![trigger d.files[a]]
                0 <= a < d.files.len() ==> lies_behind(entries, groups, from, d.files[a].0)
        }),
    decreases groups.len() - from,
{
    let d = extract::deliver_groups(archive, key, entries, groups.skip(from));
    if from < groups.len() {
        lemma_walk_ascends(archive, key, entries, contents, groups, from + 1);
        assert(groups.skip(from).drop_first() =~= groups.skip(from + 1));
        assert(groups.skip(from)[0] == groups[from]);
        assert(group_held(archive, key, entries, contents, groups[from]));
        let near = extract::deliver_group(archive, key, entries, groups[from]).files;
        let far = extract::deliver_groups(archive, key, entries, groups.skip(from + 1)).files;
        assert(d.files == near + far);
        assert forall|a: int| #![trigger near[a]] 0 <= a < near.len() implies 0 <= near[a].0
            < entries.len() && groups::shares_frame(
            entries,
            groups[from].first as int,
            near[a].0,
        ) by {
            assert(served(near, near[a].0));
        }
        assert forall|a: int, b: int| #![trigger d.files[a], d.files[b]]
            0 <= a < b < d.files.len() implies d.files[a].0 < d.files[b].0 by {
            if b < near.len() {
                assert(d.files[a] == near[a] && d.files[b] == near[b]);
            } else if a >= near.len() {
                assert(d.files[a] == far[a - near.len()] && d.files[b] == far[b - near.len()]);
            } else {
                assert(d.files[a] == near[a] && d.files[b] == far[b - near.len()]);
                assert(lies_behind(entries, groups, from + 1, far[b - near.len()].0));
                let l = choose|l: int|
                    from + 1 <= l < groups.len() && 0 <= far[b - near.len()].0 < entries.len()
                        && #[trigger] groups::shares_frame(
                        entries,
                        groups[l].first as int,
                        far[b - near.len()].0,
                    );
                lemma_frames_ascend(
                    entries,
                    groups,
                    from,
                    l,
                    near[a].0,
                    far[b - near.len()].0,
                );
            }
        }
        assert forall|a: int| #![trigger d.files[a]] 0 <= a < d.files.len() implies lies_behind(
            entries,
            groups,
            from,
            d.files[a].0,
        ) by {
            if a < near.len() {
                assert(d.files[a] == near[a]);
                assert(groups::shares_frame(entries, groups[from].first as int, d.files[a].0));
            } else {
                assert(d.files[a] == far[a - near.len()]);
                assert(lies_behind(entries, groups, from + 1, far[a - near.len()].0));
                let l = choose|l: int|
                    from + 1 <= l < groups.len() && 0 <= far[a - near.len()].0 < entries.len()
                        && #[trigger] groups::shares_frame(
                        entries,
                        groups[l].first as int,
                        far[a - near.len()].0,
                    );
                assert(groups::shares_frame(entries, groups[l].first as int, d.files[a].0));
            }
        }
    } else {
        assert(groups.skip(from).len() == 0);
    }
}

/// A walk over a finished archive hands the files out in the order of the
/// index.
pub proof fn law_walk_in_order(
    archive: Seq<u8>,
    head: (Header, Option<EncryptionHeaderView>),
    key: Option<Seq<u8>>,
    entries: Seq<EntryView>,
    contents: Seq<Seq<u8>>,
    d: Delivery,
)
    requires
        is_archive(archive, head, key, entries, contents),
        extract::is_delivery(archive, key, entries, d),
        entries.len() <= usize::MAX,
    ensures
        ascending(d.files),
{
    reveal(is_archive);
    let groups = choose|groups: Seq<FrameGroup>| #[trigger]
        groups::is_grouping(entries, entries.len() as int, groups) && d == extract::deliver_groups(
            archive,
            key,
            entries,
            groups,
        );
    assert forall|k: int| #![trigger groups[k]] 0 <= k < groups.len() implies group_held(
        archive,
        key,
        entries,
        contents,
        groups[k],
    ) && ascending(extract::deliver_group(archive, key, entries, groups[k]).files) by {
        assert(groups::is_group(entries, entries.len() as int, groups[k]));
        lemma_group_held(archive, key, entries, contents, groups[k]);
        let files = extract::deliver_group(archive, key, entries, groups[k]).files;
        assert forall|a: int, b: int| #![trigger files[a], files[b]]
            0 <= a < b < files.len() implies files[a].0 < files[b].0 by {
            lemma_members_ascend(entries, groups[k], a, b);
        }
    }
    assert(groups.skip(0) =~= groups);
    lemma_walk_ascends(archive, key, entries, contents, groups, 0);
}

/// Files that go up, and are the same with the same contents, come in the same
/// sequence.
proof fn lemma_same_files(
    f: Seq<(int, Seq<u8>)>,
    g: Seq<(int, Seq<u8>)>,
    contents: Seq<Seq<u8>>,
)
    requires
        ascending(f),
        ascending(g),
        forall|i: int| #[trigger] served(f, i) <==> served(g, i),
        forall|a: int| #![trigger f[a]] 0 <= a < f.len() ==> f[a].1 == contents[f[a].0],
        forall|a: int| #![trigger g[a]] 0 <= a < g.len() ==> g[a].1 == contents[g[a].0],
    ensures
        f == g,
    decreases f.len(),
{
    if f.len() == 0 {
        if g.len() > 0 {
            assert(served(g, g[0].0));
            assert(served(f, g[0].0));
        }
        assert(f =~= g);
    } else {
        let x = f.last();
        assert(f[f.len() - 1].0 == x.0);
        assert(served(f, x.0));
        assert(served(g, x.0));
        let y = g.last();
        assert(g[g.len() - 1].0 == y.0);
        assert(served(g, y.0));
        assert(served(f, y.0));
        let p = choose|p: int| 0 <= p < g.len() && #[trigger] g[p].0 == x.0;
        let q = choose|q: int| 0 <= q < f.len() && #[trigger] f[q].0 == y.0;
        assert(x.0 == y.0) by {
            if p < g.len() - 1 {
                assert(g[p].0 < g[g.len() - 1].0);
            }
            if q < f.len() - 1 {
                assert(f[q].0 < f[f.len() - 1].0);
            }
        }
        let u = f.drop_last();
        let v = g.drop_last();
        assert forall|i: int| #[trigger] served(u, i) <==> served(v, i) by {
            lemma_served_drop(f, i);
            lemma_served_drop(g, i);
            assert(served(f, i) == served(g, i));
        }
        lemma_same_files(u, v, contents);
        assert(f =~= u.push(x));
        assert(g =~= v.push(y));
    }
}

/// What is served without the last file of an ascending sequence.
proof fn lemma_served_drop(f: Seq<(int, Seq<u8>)>, i: int)
    requires
        f.len() > 0,
        ascending(f),
    ensures
        served(f.drop_last(), i) <==> served(f, i) && i != f.last().0,
{
    let u = f.drop_last();
    if served(u, i) {
        let a = choose|a: int| 0 <= a < u.len() && #[trigger] u[a].0 == i;
        assert(f[a].0 == i);
        assert(f[a].0 < f[f.len() - 1].0);
    }
    if served(f, i) && i != f.last().0 {
        let a = choose|a: int| 0 <= a < f.len() && #[trigger] f[a].0 == i;
        assert(a < f.len() - 1);
        assert(u[a].0 == i);
    }
}

/// How files are packed changes only the stored form: a walk over two finished
/// archives that were given the same files hands out the same files with the
/// same contents in the same sequence, whatever their packing, compression and
/// encryption.
pub proof fn law_packing_keeps_contents(
    archive: Seq<u8>,
    head: (Header, Option<EncryptionHeaderView>),
    key: Option<Seq<u8>>,
    entries: Seq<EntryView>,
    d: Delivery,
    other: Seq<u8>,
    other_head: (Header, Option<EncryptionHeaderView>),
    other_key: Option<Seq<u8>>,
    other_entries: Seq<EntryView>,
    other_d: Delivery,
    contents: Seq<Seq<u8>>,
)
    requires
        is_archive(archive, head, key, entries, contents),
        is_archive(other, other_head, other_key, other_entries, contents),
        assembly::accounts(entries) == assembly::accounts(other_entries),
        extract::is_delivery(archive, key, entries, d),
        extract::is_delivery(other, other_key, other_entries, other_d),
        entries.len() <= usize::MAX,
    ensures
        d.fault is None,
        other_d.fault is None,
        d.files == other_d.files,
        forall|i: int| 0 <= i < entries.len() ==> #[trigger] assembly::account(entries[i])
            == assembly::account(other_entries[i]),
{
    assert(assembly::accounts(entries).len() == entries.len());
    assert(assembly::accounts(other_entries).len() == other_entries.len());
    assert(entries.len() == other_entries.len());
    assert forall|i: int| 0 <= i < entries.len() implies #[trigger] assembly::account(entries[i])
        == assembly::account(other_entries[i]) by {
        assert(assembly::accounts(entries)[i] == assembly::account(entries[i]));
        assert(assembly::accounts(other_entries)[i] == assembly::account(other_entries[i]));
    }
    law_walk_gives_every_file(archive, head, key, entries, contents, d);
    law_walk_gives_every_file(other, other_head, other_key, other_entries, contents, other_d);
    law_walk_in_order(archive, head, key, entries, contents, d);
    law_walk_in_order(other, other_head, other_key, other_entries, contents, other_d);
    assert forall|i: int| #[trigger] served(d.files, i) <==> served(other_d.files, i) by {
        if 0 <= i < entries.len() {
            assert(assembly::account(entries[i]) == assembly::account(other_entries[i]));
        }
    }
    lemma_same_files(d.files, other_d.files, contents);
}

/// The sizes of the files of the frame at `offset`, added up.
pub open spec fn frame_sum(entries: Seq<EntryView>, offset: u64) -> nat
    decreases entries.len(),
{
    if entries.len() == 0 {
        0
    } else {
        frame_sum(entries.drop_last(), offset) + if entries.last().kind == EntryKind::File
            && entries.last().frame_offset == offset {
            entries.last().uncompressed_size as nat
        } else {
            0
        }
    }
}

/// Files that follow each other within a frame have no more bytes together than
/// where the last of them ends.
proof fn lemma_frame_sum(entries: Seq<EntryView>, count: int, offset: u64, bound: int)
    requires
        in_order(entries),
        0 <= count <= entries.len(),
        0 <= bound,
        forall|i: int| #![trigger entries[i]]
            0 <= i < count && entries[i].kind == EntryKind::File && entries[i].frame_offset
                == offset ==> end_of(entries[i]) <= bound,
    ensures
        frame_sum(entries.take(count), offset) <= bound,
    decreases count,
{
    if count > 0 {
        let part = entries.take(count);
        let j = count - 1;
        assert(part.drop_last() =~= entries.take(j));
        assert(part.last() == entries[j]);
        if entries[j].kind == EntryKind::File && entries[j].frame_offset == offset {
            assert forall|i: int| #![trigger entries[i]]
                0 <= i < j && entries[i].kind == EntryKind::File && entries[i].frame_offset
                    == offset implies end_of(entries[i]) <= entries[j].block_offset by {
                assert(entries[j].kind == EntryKind::File);
            }
            lemma_frame_sum(entries, j, offset, entries[j].block_offset as int);
        } else {
            lemma_frame_sum(entries, j, offset, bound);
        }
    }
}

/// Where every file fits the target of a shared frame, the files of a frame
/// have no more bytes together than the target.
pub proof fn law_frames_keep_to_target(entries: Seq<EntryView>, target: u64, offset: u64)
    requires
        in_order(entries),
        within_target(entries, target),
        forall|i: int| #![trigger entries[i]]
            0 <= i < entries.len() && entries[i].kind == EntryKind::File
                ==> entries[i].uncompressed_size <= target,
    ensures
        frame_sum(entries, offset) <= target,
{
    assert(entries.take(entries.len() as int) =~= entries);
    lemma_frame_sum(entries, entries.len() as int, offset, target as int);
}

/// A file that is larger than the target by itself shares its frame with empty
/// files only, and they come before it.
pub proof fn law_larger_file_is_alone(entries: Seq<EntryView>, target: u64, i: int, j: int)
    requires
        in_order(entries),
        within_target(entries, target),
        0 <= i < entries.len(),
        0 <= j < entries.len(),
        i != j,
        entries[i].kind == EntryKind::File,
        entries[j].kind == EntryKind::File,
        entries[i].frame_offset == entries[j].frame_offset,
        entries[i].uncompressed_size > target,
    ensures
        j < i,
        entries[j].uncompressed_size == 0,
{
}

/// Entries without a file among them leave the end of the frames where it is.
proof fn lemma_no_file_between(entries: Seq<EntryView>, start: nat, from: int, to: int)
    requires
        0 <= from <= to <= entries.len(),
        forall|i: int| #![trigger entries[i]]
            from <= i < to ==> entries[i].kind != EntryKind::File,
    ensures
        frames_end(entries.take(to), start) == frames_end(entries.take(from), start),
    decreases to - from,
{
    if from < to {
        assert(entries.take(to).drop_last() =~= entries.take(to - 1));
        assert(entries.take(to).last() == entries[to - 1]);
        lemma_no_file_between(entries, start, from, to - 1);
    }
}

/// Outside solid mode the frames lie side by side: the first right behind the
/// headers, each next right behind the one before, and the index right behind
/// the last; each file has a frame of its own, which is not empty.
pub proof fn law_per_file_layout(
    archive: Seq<u8>,
    key: Option<Seq<u8>>,
    start: nat,
    entries: Seq<EntryView>,
    i: int,
    j: int,
)
    requires
        per_file_layout(archive, key, start, entries),
        -1 <= i < j <= entries.len(),
        i >= 0 ==> entries[i].kind == EntryKind::File,
        j < entries.len() ==> entries[j].kind == EntryKind::File,
        forall|k: int| #![trigger entries[k]] i < k < j ==> entries[k].kind != EntryKind::File,
    ensures
        ({
            let end = if i < 0 {
                start as int
            } else {
                entries[i].frame_offset + entries[i].frame_compressed_size
            };
            if j < entries.len() {
                &&& entries[j].frame_offset == end
                &&& entries[j].frame_compressed_size > 0
                &&& entries[j].block_offset == 0
            } else {
                reader::contents_of(archive, key) matches Ok((footer, listed))
                    && footer.index_offset == end
            }
        }),
{
    lemma_no_file_between(entries, start, i + 1, j);
    if i >= 0 {
        assert(entries.take(i + 1).drop_last() =~= entries.take(i));
        assert(entries.take(i + 1).last() == entries[i]);
    } else {
        assert(entries.take(0) =~= Seq::empty());
    }
    if j == entries.len() {
        assert(entries.take(j) =~= entries);
    }
}

} // verus!
