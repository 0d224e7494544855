//! What reading an archive promises: which archives open, what is handed out of
//! them, and that nothing damaged is.

use crate::archive;
use crate::codec;
use crate::crypto;
use crate::crypto::Encryption;
use crate::error;
use crate::error::{Error, ErrorView, Result};
use crate::extract;
use crate::extract::{check_content, content_in, Delivery, Walk};
use crate::format::{EncryptionHeader, EntryKind, Footer, Header};
use crate::frame;
use crate::groups;
use crate::groups::{frame_groups, FrameGroup};
use crate::index;
use crate::index::{Entry, EntryView};
use crate::reader::{Opening, Reader};
use vstd::prelude::*;

verus! {

/// A file lies in the data of its frame from its place on, with as many bytes as
/// its entry says, and is accepted exactly if it lies there in full and its hash
/// is the stored one, whatever its size.
pub proof fn law_content_is_hashed(e: EntryView, data: Seq<u8>)
    ensures
        ({
            let start = e.block_offset as int;
            let end = e.block_offset + e.uncompressed_size;
            &&& extract::content_of(e, data) is Ok <==> end <= data.len() && codec::xxh3_of(
                data.subrange(start, end),
            ) == e.content_xxh3
            &&& extract::content_of(e, data) matches Ok(content) ==> content == data.subrange(
                start,
                end,
            )
            &&& end > data.len() ==> extract::content_of(e, data) == Err::<Seq<u8>, ErrorView>(
                ErrorView::Corrupt("entry range exceeds decoded block size"@),
            )
            &&& end <= data.len() && codec::xxh3_of(data.subrange(start, end)) != e.content_xxh3
                ==> extract::content_of(e, data) == Err::<Seq<u8>, ErrorView>(
                ErrorView::ContentChecksum { path: e.path },
            )
        }),
{
}

/// The same of the bytes that are handed out: they are those of the file, and
/// hash to what its entry says.
pub proof fn law_content_in_is_hashed<'a>(e: Entry, data: &'a [u8], res: Result<&'a [u8]>)
    requires
        call_ensures(content_in, (&e, data), res),
    ensures
        ({
            let start = e.block_offset as int;
            let end = e.block_offset + e.uncompressed_size;
            &&& res is Ok <==> end <= data@.len() && codec::xxh3_of(data@.subrange(start, end))
                == e.content_xxh3
            &&& res matches Ok(content) ==> content@ == data@.subrange(start, end)
            &&& end > data@.len() ==> (res matches Err(x) && x@ is Corrupt)
            &&& end <= data@.len() && codec::xxh3_of(data@.subrange(start, end))
                != e.content_xxh3 ==> (res matches Err(x) && x@ == (ErrorView::ContentChecksum {
                path: e.path@,
            }))
        }),
{
}

/// What came out of a frame is accepted exactly if it has the size and the hash
/// of the entry.
pub proof fn law_checked_content(e: Entry, decoded: u64, hash: u64, res: Result<()>)
    requires
        call_ensures(check_content, (&e, decoded, hash), res),
    ensures
        res is Ok <==> decoded == e.uncompressed_size && hash == e.content_xxh3,
        res matches Err(x) ==> x@ == (ErrorView::ContentChecksum { path: e.path@ }),
{
}

/// Whether a file is intact in an archive: its frame lies within it, opens,
/// decompresses, and holds the file in full, with the stored hash.
pub open spec fn intact(archive: Seq<u8>, key: Option<Seq<u8>>, e: Entry) -> bool {
    let start = e.frame_offset as int;
    let end = e.frame_offset + e.frame_compressed_size;
    let stored = if e.frame_compressed_size == 0 {
        Seq::empty()
    } else {
        archive.subrange(start, end)
    };
    &&& e.frame_compressed_size > 0 ==> end <= archive.len()
    &&& frame::unsealed(key, stored, "encrypted frame too small"@) matches Ok(payload)
        && codec::zstd_decoded(payload) matches Some(data) && {
        &&& e.block_offset + e.uncompressed_size <= data.len()
        &&& codec::xxh3_of(
            data.subrange(e.block_offset as int, e.block_offset + e.uncompressed_size),
        ) == e.content_xxh3
    }
}

/// An archive is reported as intact exactly if every file in it is, as long as
/// the files of a frame agree on its size: damage to any byte that changes a hash
/// is found, in files of every size.
pub proof fn law_integrity_test(r: Reader, archive: &[u8], res: Result<()>)
    requires
        call_ensures(Reader::verify_all, (&r, archive), res),
        forall|i: int, j: int| #![trigger r.entries@[i], r.entries@[j]]
            0 <= i < r.entries@.len() && 0 <= j < r.entries@.len() && r.entries@[i].kind
                == EntryKind::File && r.entries@[j].kind == EntryKind::File
                && r.entries@[i].frame_offset == r.entries@[j].frame_offset
                ==> r.entries@[i].frame_compressed_size == r.entries@[j].frame_compressed_size,
    ensures
        res is Ok <==> forall|i: int| #![trigger r.entries@[i]]
            0 <= i < r.entries@.len() && r.entries@[i].kind == EntryKind::File ==> intact(
                archive@,
                frame::key_of(r.encryption),
                r.entries@[i],
            ),
{
    let entries = r.listed();
    let key = r.key();
    assert(archive::frames_agree(entries)) by {
        assert forall|i: int, j: int| #![trigger entries[i], entries[j]]
            0 <= i < entries.len() && 0 <= j < entries.len() && entries[i].kind == EntryKind::File
                && entries[j].kind == EntryKind::File && entries[i].frame_offset
                == entries[j].frame_offset implies entries[i].frame_compressed_size
            == entries[j].frame_compressed_size by {
            assert(entries[i] == r.entries@[i]@ && entries[j] == r.entries@[j]@);
        }
    }
    assert forall|i: int| #![trigger r.entries@[i]] 0 <= i < r.entries@.len() implies (
    extract::readable(archive@, key, entries[i]) <==> intact(archive@, key, r.entries@[i])) by {
        assert(entries[i] == r.entries@[i]@);
    }
    if extract::all_readable(archive@, key, entries) {
        assert forall|i: int| #![trigger r.entries@[i]]
            0 <= i < r.entries@.len() && r.entries@[i].kind == EntryKind::File implies intact(
            archive@,
            key,
            r.entries@[i],
        ) by {
            assert(entries[i] == r.entries@[i]@);
        }
    } else {
        let i = choose|i: int| #![trigger entries[i]]
            0 <= i < entries.len() && entries[i].kind == EntryKind::File && !extract::readable(
                archive@,
                key,
                entries[i],
            );
        assert(entries[i] == r.entries@[i]@);
    }
}

/// What is extracted of a file and accepted has the size and the hash that its
/// entry says; what is no file gives nothing, and an index beyond the end an
/// error.
pub proof fn law_extracted_is_hashed(r: Reader, archive: &[u8], idx: usize)
    ensures
        forall|out: &mut Vec<u8>, res: Result<u64>| #[trigger]
            call_ensures(Reader::extract_entry, (&r, archive, idx, out), res) ==> {
                let part = final(out)@.skip(out@.len() as int);
                &&& out@.len() <= final(out)@.len()
                &&& final(out)@.take(out@.len() as int) == out@
                &&& idx >= r.entries@.len() ==> part.len() == 0 && (res matches Err(e) && e@
                    == ErrorView::Corrupt("entry index out of range"@))
                &&& idx < r.entries@.len() && r.entries@[idx as int].kind != EntryKind::File
                    ==> part.len() == 0 && res == Ok::<u64, Error>(0)
                &&& idx < r.entries@.len() && r.entries@[idx as int].kind == EntryKind::File
                    && res is Ok ==> {
                    &&& res->Ok_0 == part.len()
                    &&& part.len() == r.entries@[idx as int].uncompressed_size
                    &&& codec::xxh3_of(part) == r.entries@[idx as int].content_xxh3
                }
            },
{
    assert forall|out: &mut Vec<u8>, res: Result<u64>| #[trigger]
        call_ensures(Reader::extract_entry, (&r, archive, idx, out), res) implies {
        let part = final(out)@.skip(out@.len() as int);
        &&& out@.len() <= final(out)@.len()
        &&& final(out)@.take(out@.len() as int) == out@
        &&& idx >= r.entries@.len() ==> part.len() == 0 && (res matches Err(e) && e@
            == ErrorView::Corrupt("entry index out of range"@))
        &&& idx < r.entries@.len() && r.entries@[idx as int].kind != EntryKind::File ==> part.len()
            == 0 && res == Ok::<u64, Error>(0)
        &&& idx < r.entries@.len() && r.entries@[idx as int].kind == EntryKind::File && res is Ok
            ==> {
            &&& res->Ok_0 == part.len()
            &&& part.len() == r.entries@[idx as int].uncompressed_size
            &&& codec::xxh3_of(part) == r.entries@[idx as int].content_xxh3
        }
    } by {
        let (before, after) = (out@, final(out)@);
        if idx < r.entries@.len() {
            let e = r.listed()[idx as int];
            assert(e == r.entries@[idx as int]@);
            if e.kind == EntryKind::File {
                match extract::frame_payload(
                    archive@,
                    r.key(),
                    e.frame_offset,
                    e.frame_compressed_size,
                ) {
                    Err(_) => {
                        assert(after.take(before.len() as int) =~= before);
                    },
                    Ok(payload) => {
                        let part = choose|part: Seq<u8>| #[trigger]
                            extract::yields(e, part, res) && after == before + part;
                        assert(after.take(before.len() as int) =~= before);
                        assert(after.skip(before.len() as int) =~= part);
                    },
                }
            }
        }
        assert(before.take(before.len() as int) =~= before);
    }
}

/// A file whose frame an encoder made is extracted exactly if it lies in what the
/// encoder was given, with the stored hash, and what comes out is that.
pub proof fn law_extracted_is_the_content(
    r: Reader,
    archive: &[u8],
    idx: usize,
    payload: Seq<u8>,
    data: Seq<u8>,
)
    requires
        idx < r.entries@.len(),
        r.entries@[idx as int].kind == EntryKind::File,
        r.entries@[idx as int].frame_compressed_size > 0,
        r.entries@[idx as int].frame_offset + r.entries@[idx as int].frame_compressed_size
            <= archive@.len(),
        frame::unsealed(
            frame::key_of(r.encryption),
            archive@.subrange(
                r.entries@[idx as int].frame_offset as int,
                r.entries@[idx as int].frame_offset
                    + r.entries@[idx as int].frame_compressed_size,
            ),
            "encrypted frame too small"@,
        ) == Ok::<Seq<u8>, ErrorView>(payload),
        codec::encoded(data, payload),
        r.entries@[idx as int].block_offset + r.entries@[idx as int].uncompressed_size
            <= data.len(),
    ensures
        forall|out: &mut Vec<u8>, res: Result<u64>| #[trigger]
            call_ensures(Reader::extract_entry, (&r, archive, idx, out), res) ==> {
                let e = r.entries@[idx as int];
                let content = data.subrange(
                    e.block_offset as int,
                    e.block_offset + e.uncompressed_size,
                );
                &&& final(out)@ == out@ + content
                &&& res is Ok <==> codec::xxh3_of(content) == e.content_xxh3
                &&& res matches Ok(n) ==> n == e.uncompressed_size
                &&& res matches Err(x) ==> x@ == (ErrorView::ContentChecksum { path: e.path@ })
            },
{
    let e = r.listed()[idx as int];
    assert(e == r.entries@[idx as int]@);
    let content = data.subrange(e.block_offset as int, e.block_offset + e.uncompressed_size);
    assert(extract::portion(e, data) =~= content);
}

/// Whether a walk hands out `f` of one of the frames.
spec fn from_group(
    archive: Seq<u8>,
    key: Option<Seq<u8>>,
    entries: Seq<EntryView>,
    group: FrameGroup,
    f: (int, Seq<u8>),
) -> bool {
    &&& 0 <= f.0
    &&& group.members@.contains(f.0 as usize)
    &&& f.0 == f.0 as usize
    &&& extract::group_frame(archive, entries, group) matches Ok(stored) && extract::opened_frame(
        key,
        stored,
    ) matches Ok(data) && extract::content_of(entries[f.0], data) == Ok::<Seq<u8>, ErrorView>(f.1)
}

/// What a walk hands out of one frame is what lies there.
proof fn lemma_members_files(entries: Seq<EntryView>, data: Seq<u8>, members: Seq<usize>)
    ensures
        ({
            let d = extract::deliver_members(entries, data, members);
            &&& d.files.len() <= members.len()
            &&& d.fault is None ==> d.files.len() == members.len()
            &&& d.fault matches Some(e) ==> d.files.len() < members.len() && extract::content_of(
                entries[members[d.files.len() as int] as int],
                data,
            ) == Err::<Seq<u8>, ErrorView>(e)
            &&& forall|a: int| #![trigger d.files[a]]
                0 <= a < d.files.len() ==> d.files[a].0 == members[a] && extract::content_of(
                    entries[members[a] as int],
                    data,
                ) == Ok::<Seq<u8>, ErrorView>(d.files[a].1)
        }),
    decreases members.len(),
{
    let d = extract::deliver_members(entries, data, members);
    if members.len() > 0 {
        let rest = members.drop_first();
        lemma_members_files(entries, data, rest);
        if let Ok(content) = extract::content_of(entries[members[0] as int], data) {
            let later = extract::deliver_members(entries, data, rest);
            if later.fault is Some {
                let n = later.files.len() as int;
                assert(rest[n] == members[n + 1]);
                assert(d.files.len() == n + 1);
            }
            assert forall|a: int| #![trigger d.files[a]] 0 <= a < d.files.len() implies d.files[a].0
                == members[a] && extract::content_of(entries[members[a] as int], data) == Ok::<
                Seq<u8>,
                ErrorView,
            >(d.files[a].1) by {
                if a > 0 {
                    assert(d.files[a] == later.files[a - 1]);
                    assert(rest[a - 1] == members[a]);
                }
            }
        }
    }
}

/// Whether a file that was handed out comes from one of the frames.
spec fn from_some_group(
    archive: Seq<u8>,
    key: Option<Seq<u8>>,
    entries: Seq<EntryView>,
    groups: Seq<FrameGroup>,
    f: (int, Seq<u8>),
) -> bool {
    exists|k: int| 0 <= k < groups.len() && #[trigger] from_group(
        archive,
        key,
        entries,
        groups[k],
        f,
    )
}

/// What a walk hands out is what lies in the frames, and where it meets no error
/// it hands out all of it.
proof fn lemma_groups_files(
    archive: Seq<u8>,
    key: Option<Seq<u8>>,
    entries: Seq<EntryView>,
    groups: Seq<FrameGroup>,
)
    ensures
        ({
            let d = extract::deliver_groups(archive, key, entries, groups);
            &&& forall|a: int| #![trigger d.files[a]]
                0 <= a < d.files.len() ==> from_some_group(
                    archive,
                    key,
                    entries,
                    groups,
                    d.files[a],
                )
            &&& d.fault is None ==> forall|k: int, b: int| #![trigger groups[k].members@[b]]
                0 <= k < groups.len() && 0 <= b < groups[k].members@.len() ==> archive::served(
                    d.files,
                    groups[k].members@[b] as int,
                )
        }),
    decreases groups.len(),
{
    if groups.len() > 0 {
        let d = extract::deliver_groups(archive, key, entries, groups);
        let group = groups[0];
        let later = groups.drop_first();
        let first = extract::deliver_group(archive, key, entries, group);
        let rest = extract::deliver_groups(archive, key, entries, later);
        lemma_groups_files(archive, key, entries, later);
        if let Ok(stored) = extract::group_frame(archive, entries, group) {
            if let Ok(data) = extract::opened_frame(key, stored) {
                lemma_members_files(entries, data, group.members@);
                assert forall|a: int| #![trigger first.files[a]]
                    0 <= a < first.files.len() implies from_group(
                    archive,
                    key,
                    entries,
                    group,
                    first.files[a],
                ) by {
                    assert(first.files[a].0 == group.members@[a]);
                    assert(group.members@.contains(group.members@[a]));
                }
            }
        }
        assert forall|a: int| #![trigger d.files[a]] 0 <= a < d.files.len() implies from_some_group(
            archive,
            key,
            entries,
            groups,
            d.files[a],
        ) by {
            if a < first.files.len() {
                assert(d.files[a] == first.files[a]);
                assert(from_group(archive, key, entries, groups[0], d.files[a]));
            } else {
                let f = rest.files[a - first.files.len()];
                assert(d.files[a] == f);
                assert(from_some_group(archive, key, entries, later, f));
                let k = choose|k: int| 0 <= k < later.len() && #[trigger] from_group(
                    archive,
                    key,
                    entries,
                    later[k],
                    f,
                );
                assert(groups[k + 1] == later[k]);
            }
        }
        if d.fault is None {
            assert forall|k: int, b: int| #![trigger groups[k].members@[b]]
                0 <= k < groups.len() && 0 <= b < groups[k].members@.len() implies archive::served(
                d.files,
                groups[k].members@[b] as int,
            ) by {
                let i = groups[k].members@[b] as int;
                if k == 0 {
                    assert(d.files[b] == first.files[b]);
                    assert(d.files[b].0 == i);
                } else {
                    assert(later[k - 1] == groups[k]);
                    assert(archive::served(rest.files, later[k - 1].members@[b] as int));
                    let a = choose|a: int| 0 <= a < rest.files.len() && #[trigger] rest.files[a].0
                        == i;
                    assert(d.files[first.files.len() + a] == rest.files[a]);
                }
            }
        }
    }
}

/// Whatever a walk hands out is a file of the archive, in full and with the
/// stored hash. Where the walk meets no error, every file is handed out.
pub proof fn law_walk_is_hashed(r: Reader, archive: &[u8])
    ensures
        forall|out: &mut Vec<(usize, Vec<u8>)>, res: Result<()>| #[trigger]
            call_ensures(Reader::for_each_file, (&r, archive, out), res) ==> {
                let n = out@.len() as int;
                &&& n <= final(out)@.len()
                &&& forall|a: int| #![trigger final(out)@[a]]
                    n <= a < final(out)@.len() ==> {
                        let (i, content) = (final(out)@[a].0 as int, final(out)@[a].1@);
                        &&& i < r.entries@.len()
                        &&& r.entries@[i].kind == EntryKind::File
                        &&& content.len() == r.entries@[i].uncompressed_size
                        &&& codec::xxh3_of(content) == r.entries@[i].content_xxh3
                    }
                &&& res is Ok ==> forall|i: int| #![trigger r.entries@[i]]
                    0 <= i < r.entries@.len() && r.entries@[i].kind == EntryKind::File
                        ==> exists|a: int|
                        n <= a < final(out)@.len() && (#[trigger] final(out)@[a]).0 == i
            },
{
    assert forall|out: &mut Vec<(usize, Vec<u8>)>, res: Result<()>| #[trigger]
        call_ensures(Reader::for_each_file, (&r, archive, out), res) implies {
        let n = out@.len() as int;
        &&& n <= final(out)@.len()
        &&& forall|a: int| #![trigger final(out)@[a]]
            n <= a < final(out)@.len() ==> {
                let (i, content) = (final(out)@[a].0 as int, final(out)@[a].1@);
                &&& i < r.entries@.len()
                &&& r.entries@[i].kind == EntryKind::File
                &&& content.len() == r.entries@[i].uncompressed_size
                &&& codec::xxh3_of(content) == r.entries@[i].content_xxh3
            }
        &&& res is Ok ==> forall|i: int| #![trigger r.entries@[i]]
            0 <= i < r.entries@.len() && r.entries@[i].kind == EntryKind::File ==> exists|a: int|
                n <= a < final(out)@.len() && (#[trigger] final(out)@[a]).0 == i
    } by {
        let entries = r.listed();
        let n = out@.len() as int;
        let (before, after) = (
            extract::delivered_views(out@),
            extract::delivered_views(final(out)@),
        );
        let d = choose|d: Delivery| #[trigger]
            extract::is_delivery(archive@, r.key(), entries, d) && after == before + d.files
                && match d.fault {
                None => res is Ok,
                Some(e) => res matches Err(x) && x@ == e,
            };
        assert(before.len() == n && after.len() == final(out)@.len());
        assert(entries.len() == r.entries.len());
        assert(after.skip(n) =~= d.files);
        lemma_walk_files(archive@, r.key(), entries, d);
        assert forall|a: int| #![trigger final(out)@[a]] n <= a < final(out)@.len() implies {
            let (i, content) = (final(out)@[a].0 as int, final(out)@[a].1@);
            &&& i < r.entries@.len()
            &&& r.entries@[i].kind == EntryKind::File
            &&& content.len() == r.entries@[i].uncompressed_size
            &&& codec::xxh3_of(content) == r.entries@[i].content_xxh3
        } by {
            assert(after[a] == d.files[a - n]);
            assert(entries[d.files[a - n].0] == r.entries@[d.files[a - n].0]@);
        }
        assert forall|i: int| #![trigger r.entries@[i]]
            res is Ok && 0 <= i < r.entries@.len() && r.entries@[i].kind
                == EntryKind::File implies exists|a: int|
            n <= a < final(out)@.len() && (#[trigger] final(out)@[a]).0 == i by {
            assert(entries[i] == r.entries@[i]@);
            assert(archive::served(d.files, i));
            let b = choose|b: int| 0 <= b < d.files.len() && #[trigger] d.files[b].0 == i;
            assert(after[n + b] == d.files[b]);
            assert(final(out)@[n + b].0 == i);
        }
    }
}

/// What a walk over an archive hands out.
proof fn lemma_walk_files(
    archive: Seq<u8>,
    key: Option<Seq<u8>>,
    entries: Seq<EntryView>,
    d: Delivery,
)
    requires
        extract::is_delivery(archive, key, entries, d),
    ensures
        forall|a: int| #![trigger d.files[a]]
            0 <= a < d.files.len() ==> {
                let e = entries[d.files[a].0];
                &&& 0 <= d.files[a].0 < entries.len()
                &&& e.kind == EntryKind::File
                &&& d.files[a].1.len() == e.uncompressed_size
                &&& codec::xxh3_of(d.files[a].1) == e.content_xxh3
            },
        d.fault is None && entries.len() <= usize::MAX ==> forall|i: int| #![trigger entries[i]]
            0 <= i < entries.len() && entries[i].kind == EntryKind::File ==> archive::served(
                d.files,
                i,
            ),
{
    let groups = choose|groups: Seq<FrameGroup>| #[trigger]
        groups::is_grouping(entries, entries.len() as int, groups) && d == extract::deliver_groups(
            archive,
            key,
            entries,
            groups,
        );
    lemma_groups_files(archive, key, entries, groups);
    assert forall|a: int| #![trigger d.files[a]] 0 <= a < d.files.len() implies {
        let e = entries[d.files[a].0];
        &&& 0 <= d.files[a].0 < entries.len()
        &&& e.kind == EntryKind::File
        &&& d.files[a].1.len() == e.uncompressed_size
        &&& codec::xxh3_of(d.files[a].1) == e.content_xxh3
    } by {
        let f = d.files[a];
        assert(from_some_group(archive, key, entries, groups, f));
        let k = choose|k: int| 0 <= k < groups.len() && #[trigger] from_group(
            archive,
            key,
            entries,
            groups[k],
            f,
        );
        assert(groups::is_group(entries, entries.len() as int, groups[k]));
        let b = choose|b: int| 0 <= b < groups[k].members@.len() && groups[k].members@[b]
            == f.0 as usize;
        assert(groups[k].members@[b] as int == f.0);
        let data = extract::opened_frame(
            key,
            extract::group_frame(archive, entries, groups[k])->Ok_0,
        )->Ok_0;
        law_content_is_hashed(entries[f.0], data);
    }
    if d.fault is None && entries.len() <= usize::MAX {
        assert forall|i: int| #![trigger entries[i]]
            0 <= i < entries.len() && entries[i].kind == EntryKind::File implies archive::served(
            d.files,
            i,
        ) by {
            assert(groups::has_group(entries, groups, i));
            let k = choose|k: int| 0 <= k < groups.len() && #[trigger] groups::shares_frame(
                entries,
                groups[k].first as int,
                i,
            );
            assert(groups::is_group(entries, entries.len() as int, groups[k]));
            assert(groups[k].members@.contains(i as usize));
            let b = choose|b: int| 0 <= b < groups[k].members@.len() && groups[k].members@[b]
                == i as usize;
            assert(archive::served(d.files, groups[k].members@[b] as int));
        }
    }
}

/// The data of a frame is what decompressing gives of what opening it gives.
pub proof fn law_decoded_frame(
    r: Reader,
    stored: Vec<u8>,
    res: Result<Vec<u8>>,
    opened: Result<Vec<u8>>,
)
    requires
        call_ensures(Reader::decode_frame, (&r, stored), res),
        call_ensures(
            frame::unseal,
            (&r.encryption, stored, "encrypted frame too small"),
            opened,
        ),
    ensures
        match opened {
            Err(e) => res matches Err(x) && x@ == e@,
            Ok(payload) => match codec::zstd_decoded(payload@) {
                Some(data) => res matches Ok(x) && x@ == data,
                None => res matches Err(x) && x@ == error::source_fault(),
            },
        },
{
}

/// A frame is fetched from where its first file says, all of it, unless it
/// reaches past the end.
pub proof fn law_frame_is_fetched_whole(
    r: Reader,
    group: FrameGroup,
    total: u64,
    res: Result<Option<(u64, u64)>>,
)
    requires
        call_ensures(Reader::frame_range, (&r, &group, total), res),
        group.first < r.entries@.len(),
    ensures
        ({
            let first = r.entries@[group.first as int];
            let size = first.frame_compressed_size;
            &&& size == 0 ==> res == Ok::<Option<(u64, u64)>, Error>(None)
            &&& size > 0 && first.frame_offset + size <= total ==> res == Ok::<
                Option<(u64, u64)>,
                Error,
            >(Some((first.frame_offset, size)))
            &&& size > 0 && first.frame_offset + size > total ==> (res matches Err(e) && e@
                == error::eof())
        }),
{
    assert(r.listed()[group.first as int] == r.entries@[group.first as int]@);
}

/// Every file is in one group, with the files of the same frame and no others.
pub proof fn law_files_are_grouped_by_frame(
    entries: Vec<Entry>,
    groups: Vec<FrameGroup>,
    i: int,
    k: int,
)
    requires
        call_ensures(frame_groups, (&entries,), groups),
        0 <= i < entries@.len(),
        0 <= k < groups@.len(),
    ensures
        groups@[k].members@.contains(i as usize) <==> entries@[i].kind == EntryKind::File
            && entries@[i].frame_offset == entries@[groups@[k].first as int].frame_offset,
        entries@[i].kind == EntryKind::File ==> exists|l: int|
            0 <= l < groups@.len() && (#[trigger] groups@[l]).members@.contains(i as usize),
        forall|l: int| #![trigger groups@[l]]
            0 <= l < groups@.len() && l != k && groups@[k].members@.contains(i as usize)
                ==> !groups@[l].members@.contains(i as usize),
        forall|a: int, b: int| #![trigger groups@[k].members@[a], groups@[k].members@[b]]
            0 <= a < b < groups@[k].members@.len() ==> groups@[k].members@[a]
                != groups@[k].members@[b] && entries@[groups@[k].members@[a] as int].block_offset
                <= entries@[groups@[k].members@[b] as int].block_offset,
{
    let all = index::views(entries@);
    let n = all.len() as int;
    assert(entries.len() == n);
    assert(all[i] == entries@[i]@);
    assert forall|l: int| #![trigger groups@[l]] 0 <= l < groups@.len() implies (
    groups@[l].members@.contains(i as usize) <==> groups::shares_frame(
        all,
        groups@[l].first as int,
        i,
    )) by {
        assert(groups::is_group(all, n, groups@[l]));
        if groups@[l].members@.contains(i as usize) {
            let a = choose|a: int| 0 <= a < groups@[l].members@.len() && groups@[l].members@[a]
                == i as usize;
            assert(groups@[l].members@[a] as int == i);
        }
    }
    assert(groups::is_group(all, n, groups@[k]));
    assert(all[groups@[k].first as int] == entries@[groups@[k].first as int]@);
    if entries@[i].kind == EntryKind::File {
        assert(groups::has_group(all, groups@, i));
        let l = choose|l: int| 0 <= l < groups@.len() && #[trigger] groups::shares_frame(
            all,
            groups@[l].first as int,
            i,
        );
        assert(groups@[l].members@.contains(i as usize));
    }
    assert forall|l: int| #![trigger groups@[l]]
        0 <= l < groups@.len() && l != k && groups@[k].members@.contains(i as usize) implies
        !groups@[l].members@.contains(i as usize) by {
        if k < l {
            assert(groups@[k].first < groups@[l].first);
        } else {
            assert(groups@[l].first < groups@[k].first);
        }
    }
    assert forall|a: int, b: int| #![trigger groups@[k].members@[a], groups@[k].members@[b]]
        0 <= a < b < groups@[k].members@.len() implies groups@[k].members@[a]
        != groups@[k].members@[b] && entries@[groups@[k].members@[a] as int].block_offset
        <= entries@[groups@[k].members@[b] as int].block_offset by {
        let (x, y) = (groups@[k].members@[a] as int, groups@[k].members@[b] as int);
        assert(groups::visited_before(all, x, y));
        assert(all[x] == entries@[x]@ && all[y] == entries@[y]@);
    }
}

/// The headers of an archive are those that stand at its start, and there is an
/// encryption header exactly if the lowest bit of the flags is set.
pub proof fn law_probe_reads_the_headers(
    archive: &[u8],
    res: Result<(Header, Option<EncryptionHeader>)>,
)
    requires
        call_ensures(Reader::probe, (archive,), res),
    ensures
        res matches Ok((header, eh)) ==> {
            &&& crate::format::header_stands(archive@, header)
            &&& header.version_major == 1
            &&& eh is Some <==> header.flags % 2 == 1
            &&& eh matches Some(x) ==> crate::format::encryption_header_stands(
                archive@.skip(32),
                x,
            )
        },
        archive@.len() >= 72 && crate::format::marked(archive@, 0) && crate::format::u16_at(
            archive@,
            4,
        ) == 1 ==> (res is Ok <==> archive@[8] % 2 == 0 || (archive@[32] == 1 && archive@[33]
            == 1)),
        archive@.len() >= 32 && crate::format::marked(archive@, 0) && crate::format::u16_at(
            archive@,
            4,
        ) == 1 && archive@[8] % 2 == 0 ==> res is Ok,
        archive@.len() >= 4 && !crate::format::marked(archive@, 0) ==> (res matches Err(e) && e@
            is BadMagic),
        crate::reader::HEAD_SIZE == 72,
{
    let s = archive@;
    crate::format::lemma_head_numbers(s);
    if let Ok((header, eh)) = res {
        let flags = header.flags;
        assert(flags & 1 != 0 <==> flags % 2 == 1) by (bit_vector);
    }
    if s.len() >= 32 {
        let flags = crate::format::u32_at(s, 8) as u32;
        assert(flags & 1 != 0 <==> flags % 2 == 1) by (bit_vector);
        crate::format::lemma_numbers_at(s, 8);
    }
}

/// An archive is opened only if it has room for a header and a footer, and then
/// its headers are read like those of a probe.
pub proof fn law_opening_starts(
    total: u64,
    head: &[u8],
    res: Result<Opening>,
    probed: Result<(Header, Option<EncryptionHeader>)>,
)
    requires
        call_ensures(Opening::start, (total, head), res),
        call_ensures(Reader::probe, (head,), probed),
    ensures
        total < 64 ==> (res matches Err(e) && e@ == ErrorView::Corrupt(
            "file too small for HGR1"@,
        )),
        total >= 64 ==> match probed {
            Ok((header, eh)) => res matches Ok(o) && o.total == total && o.header == header
                && match eh {
                None => o.enc_header is None,
                Some(x) => o.enc_header matches Some(y) && y@ == x@,
            },
            Err(e) => res matches Err(x) && x@ == e@,
        },
{
}

/// The key of an archive is derived from the password, with the salt and the
/// costs in its header; without an encryption header there is none.
pub proof fn law_unlocks_with_the_password(
    o: Opening,
    password: &str,
    res: Result<Option<Encryption>>,
    derived: Result<Encryption>,
)
    requires
        call_ensures(Opening::unlock, (&o, password), res),
        o.enc_header matches Some(eh) ==> call_ensures(
            Encryption::from_password,
            (password, eh.salt, eh.argon2),
            derived,
        ),
    ensures
        o.enc_header is None ==> (res matches Ok(key) && key is None),
        o.enc_header is Some ==> match derived {
            Ok(enc) => res matches Ok(Some(x)) && x.key@ == enc.key@,
            Err(e) => res matches Err(x) && x@ == e@,
        },
{
}

/// A footer is accepted exactly if it stands in the last bytes and the index that
/// it points to ends where it begins.
pub proof fn law_footer_has_to_fit(o: Opening, tail: &[u8], res: Result<Footer>)
    requires
        call_ensures(Opening::locate, (&o, tail), res),
    ensures
        res is Ok <==> tail@.len() >= 32 && crate::format::marked(tail@, 28)
            && crate::format::u64_at(tail@, 0) + crate::format::u64_at(tail@, 8) + 32 == o.total,
        res matches Ok(footer) ==> crate::format::footer_stands(tail@, footer),
{
    crate::format::lemma_footer_numbers(tail@);
}

/// An index is accepted exactly if it opens, has the hash that the footer names,
/// and can be read; the entries are those that are read from it.
pub proof fn law_index_is_hashed(
    o: Opening,
    encryption: Option<Encryption>,
    footer: Footer,
    stored: Vec<u8>,
    res: Result<Reader>,
    opened: Result<Vec<u8>>,
)
    requires
        call_ensures(Opening::load, (o, encryption, footer, stored), res),
        call_ensures(frame::unseal, (&encryption, stored, "encrypted index too small"), opened),
    ensures
        match opened {
            Err(e) => res matches Err(x) && x@ == e@,
            Ok(plain) => if codec::xxh3_of(plain@) != footer.index_xxh3 {
                res matches Err(x) && x@ is IndexChecksum
            } else {
                forall|r: &mut &[u8], read: Result<Vec<Entry>>| #[trigger]
                    call_ensures(index::read_index, (r,), read) && r@ == plain@ ==> match read {
                        Err(e) => res matches Err(x) && x@ == e@,
                        Ok(entries) => res matches Ok(reader) && {
                            &&& index::views(reader.entries@) == index::views(entries@)
                            &&& reader.footer == footer
                            &&& reader.header == o.header
                            &&& reader.encryption == encryption
                        },
                    }
            },
        },
{
}

/// An archive that opens has the header and the footer that stand in it, an index
/// right before the footer, with the hash that the footer names, and the entries
/// of that index.
pub proof fn law_opened_archive<F: FnOnce() -> Result<String>>(
    archive: &[u8],
    provider: F,
    res: Result<Reader>,
)
    requires
        call_ensures(Reader::open::<F>, (archive, provider), res),
    ensures
        archive@.len() < 64 ==> (res matches Err(e) && e@ is Corrupt),
        res matches Ok(r) ==> {
            let s = archive@;
            let end = s.len() - 32;
            let start = end - r.footer.index_size;
            &&& s.len() >= 64
            &&& crate::format::header_stands(s, r.header)
            &&& crate::format::footer_stands(s.skip(end), r.footer)
            &&& 0 <= start && r.footer.index_offset == start
            &&& r.encryption is Some <==> r.header.flags % 2 == 1
            &&& frame::unsealed(
                frame::key_of(r.encryption),
                s.subrange(start, end),
                "encrypted index too small"@,
            ) matches Ok(plain) && {
                &&& codec::xxh3_of(plain) == r.footer.index_xxh3
                &&& index::parse_index(plain) matches Ok((entries, len)) && entries
                    == index::views(r.entries@)
            }
        },
{
    let s = archive@;
    crate::format::lemma_head_numbers(s);
    if s.len() >= 64 {
        crate::format::lemma_footer_numbers(s.skip(s.len() - 32));
    }
    if let Ok(r) = res {
        let flags = r.header.flags;
        assert(flags & 1 != 0 <==> flags % 2 == 1) by (bit_vector);
    }
}

/// An encrypted archive opens with the key that Argon2id derives from the
/// password that was provided, the salt and the costs in its header.
pub proof fn law_opened_by_the_password<F: FnOnce() -> Result<String>>(
    archive: &[u8],
    provider: F,
    res: Result<Reader>,
    password: String,
    eh: EncryptionHeader,
)
    requires
        call_ensures(Reader::open::<F>, (archive, provider), res),
        forall|given: Result<String>| #[trigger]
            provider.ensures((), given) ==> (given matches Ok(p) && p@ == password@),
        archive@.len() >= 72,
        crate::format::marked(archive@, 0),
        crate::format::u32_at(archive@, 8) % 2 == 1,
        crate::format::encryption_header_stands(archive@.skip(32), eh),
    ensures
        res matches Ok(r) ==> (r.encryption matches Some(enc) && enc.key@ == crypto::argon2id_key(
            vstd::utf8::encode_utf8(password@),
            eh.salt@,
            eh.argon2.m_cost_kib,
            eh.argon2.t_cost,
            eh.argon2.p_cost,
        )),
{
    let s = archive@;
    crate::format::lemma_head_numbers(s);
    crate::format::lemma_numbers_at(s, 8);
    let flags = crate::format::u32_at(s, 8) as u32;
    assert(flags & 1 != 0 <==> flags % 2 == 1) by (bit_vector);
    let t = s.skip(32);
    crate::format::lemma_numbers_at(t, 4);
    crate::format::lemma_numbers_at(t, 8);
    crate::format::lemma_numbers_at(t, 12);
}

/// A frame that was fetched hands out files of the archive only, each in full and
/// with the stored hash; without an error all of its files.
pub proof fn law_taken_frame_is_hashed(r: Reader, stored: Vec<u8>)
    ensures
        forall|
            walk: &mut Walk,
            out: &mut Vec<(usize, Vec<u8>)>,
            res: Result<()>,
        | #[trigger]
            call_ensures(Reader::take_frame, (&r, walk, stored, out), res) && walk.is_over(
                r.listed(),
            ) && walk.left().len() > 0 && groups::is_group(
                r.listed(),
                r.listed().len() as int,
                walk.left()[0],
            ) ==> {
                let n = out@.len() as int;
                let members = walk.left()[0].members@;
                &&& n <= final(out)@.len() <= n + members.len()
                &&& res is Ok ==> final(out)@.len() == n + members.len()
                &&& res is Err && extract::opened_frame(r.key(), stored@) is Ok ==> {
                    let at = final(out)@.len() - n;
                    &&& at < members.len()
                    &&& extract::content_of(
                        r.entries@[members[at] as int]@,
                        extract::opened_frame(r.key(), stored@)->Ok_0,
                    ) is Err
                }
                &&& forall|a: int| #![trigger final(out)@[a]]
                    n <= a < final(out)@.len() ==> {
                        let (i, content) = (final(out)@[a].0 as int, final(out)@[a].1@);
                        &&& i == members[a - n]
                        &&& r.entries@[i].kind == EntryKind::File
                        &&& content.len() == r.entries@[i].uncompressed_size
                        &&& codec::xxh3_of(content) == r.entries@[i].content_xxh3
                    }
                &&& final(walk).left() == walk.left().drop_first()
            },
{
    assert forall|
        walk: &mut Walk,
        out: &mut Vec<(usize, Vec<u8>)>,
        res: Result<()>,
    | #[trigger]
        call_ensures(Reader::take_frame, (&r, walk, stored, out), res) && walk.is_over(
            r.listed(),
        ) && walk.left().len() > 0 && groups::is_group(
            r.listed(),
            r.listed().len() as int,
            walk.left()[0],
        ) implies {
        let n = out@.len() as int;
        let members = walk.left()[0].members@;
        &&& n <= final(out)@.len() <= n + members.len()
        &&& res is Ok ==> final(out)@.len() == n + members.len()
        &&& res is Err && extract::opened_frame(r.key(), stored@) is Ok ==> {
            let at = final(out)@.len() - n;
            &&& at < members.len()
            &&& extract::content_of(
                r.entries@[members[at] as int]@,
                extract::opened_frame(r.key(), stored@)->Ok_0,
            ) is Err
        }
        &&& forall|a: int| #![trigger final(out)@[a]]
            n <= a < final(out)@.len() ==> {
                let (i, content) = (final(out)@[a].0 as int, final(out)@[a].1@);
                &&& i == members[a - n]
                &&& r.entries@[i].kind == EntryKind::File
                &&& content.len() == r.entries@[i].uncompressed_size
                &&& codec::xxh3_of(content) == r.entries@[i].content_xxh3
            }
        &&& final(walk).left() == walk.left().drop_first()
    } by {
        let group = walk.left()[0];
        let entries = r.listed();
        let d = extract::deliver_stored(r.key(), entries, group, stored@);
        let (before, after) = (
            extract::delivered_views(out@),
            extract::delivered_views(final(out)@),
        );
        let n = out@.len() as int;
        assert(before.len() == n && after.len() == final(out)@.len());
        if let Ok(data) = extract::opened_frame(r.key(), stored@) {
            lemma_members_files(entries, data, group.members@);
            if d.fault is Some {
                let i = group.members@[d.files.len() as int] as int;
                assert(groups::shares_frame(entries, group.first as int, i));
                assert(entries[i] == r.entries@[i]@);
            }
            assert forall|a: int| #![trigger final(out)@[a]] n <= a < final(out)@.len() implies {
                let (i, content) = (final(out)@[a].0 as int, final(out)@[a].1@);
                &&& i == group.members@[a - n]
                &&& r.entries@[i].kind == EntryKind::File
                &&& content.len() == r.entries@[i].uncompressed_size
                &&& codec::xxh3_of(content) == r.entries@[i].content_xxh3
            } by {
                assert(after[a] == d.files[a - n]);
                let i = group.members@[a - n] as int;
                assert(groups::shares_frame(entries, group.first as int, i));
                assert(entries[i] == r.entries@[i]@);
                law_content_is_hashed(entries[i], data);
            }
        }
    }
}

/// A walk that fetches its frames begins with all of them, asks for each where its
/// first file says it lies, and ends when none is left.
pub proof fn law_walk_asks_for_every_frame(
    r: Reader,
    walk: Walk,
    total: u64,
    start: Walk,
    res: Result<Option<(u64, u64)>>,
)
    requires
        call_ensures(Reader::start_walk, (&r,), start),
        call_ensures(Reader::next_frame, (&r, &walk, total), res),
        walk.is_over(r.listed()),
        walk.left().len() > 0 ==> walk.left()[0].first < r.entries@.len(),
    ensures
        start.is_over(r.listed()),
        groups::is_grouping(r.listed(), r.listed().len() as int, start.left()),
        walk.left().len() == 0 <==> res == Ok::<Option<(u64, u64)>, Error>(None),
        walk.left().len() > 0 ==> {
            let first = r.entries@[walk.left()[0].first as int];
            let (offset, size) = (first.frame_offset, first.frame_compressed_size);
            &&& size > 0 && offset + size <= total ==> res == Ok::<Option<(u64, u64)>, Error>(
                Some((offset, size)),
            )
            &&& size > 0 && offset + size > total ==> (res matches Err(e) && e@ == error::eof())
            &&& size == 0 ==> (res matches Ok(Some(range)) && range.1 == 0)
        },
{
    if walk.left().len() > 0 {
        let i = walk.left()[0].first as int;
        assert(r.listed()[i] == r.entries@[i]@);
    }
}

/// An archive is opened step by step: its headers are read, the key is derived if
/// they call for one, the footer is found in its last bytes, and the index is read
/// from where the footer says. What goes wrong first is what is reported.
pub proof fn law_opened_step_by_step<F: FnOnce() -> Result<String>>(
    archive: &[u8],
    provider: F,
    res: Result<Reader>,
    started: Result<Opening>,
    tail: &[u8],
    located: Result<Footer>,
    loaded: Result<Reader>,
    stored: Vec<u8>,
)
    requires
        call_ensures(Reader::open::<F>, (archive, provider), res),
        call_ensures(Opening::start, (archive@.len() as u64, archive), started),
        archive@.len() <= u64::MAX,
        started matches Ok(o) ==> {
            &&& tail@ == archive@.skip(archive@.len() - 32)
            &&& call_ensures(Opening::locate, (&o, tail), located)
            &&& located matches Ok(footer) ==> {
                &&& stored@ == archive@.subrange(
                    footer.index_offset as int,
                    footer.index_offset + footer.index_size,
                )
                &&& call_ensures(Opening::load, (o, None, footer, stored), loaded)
            }
        },
    ensures
        started matches Err(e) ==> (res matches Err(x) && x@ == e@),
        started matches Ok(o) && o.enc_header is None ==> match located {
            Err(e) => res matches Err(x) && x@ == e@,
            Ok(_) => match loaded {
                Err(e) => res matches Err(x) && x@ == e@,
                Ok(l) => res matches Ok(r) && {
                    &&& index::views(r.entries@) == index::views(l.entries@)
                    &&& r.header == l.header
                    &&& r.footer == l.footer
                    &&& r.encryption is None
                },
            },
        },
{
    if let Ok(o) = started {
        assert(crate::reader::tail_of(archive@) =~= tail@);
    }
}

/// For an encrypted archive the provider is asked. Its error is what is reported;
/// its password leads to the key, and an error in deriving the key is reported
/// too.
pub proof fn law_opened_with_the_provider<F: FnOnce() -> Result<String>>(
    archive: &[u8],
    provider: F,
    res: Result<Reader>,
    o: Opening,
    answer: Result<String>,
    unlocked: Result<Option<Encryption>>,
    tail: &[u8],
    located: Result<Footer>,
    loaded: Result<Reader>,
    stored: Vec<u8>,
)
    requires
        call_ensures(Reader::open::<F>, (archive, provider), res),
        archive@.len() <= u64::MAX,
        call_ensures(Opening::start, (archive@.len() as u64, archive), Ok(o)),
        o.enc_header is Some,
        forall|given: Result<String>| #[trigger] provider.ensures((), given) ==> given == answer,
        answer matches Ok(password) ==> exists|text: &str| #[trigger]
            call_ensures(Opening::unlock, (&o, text), unlocked) && text@ == password@,
        tail@ == archive@.skip(archive@.len() - 32),
        call_ensures(Opening::locate, (&o, tail), located),
        located matches Ok(footer) ==> {
            &&& stored@ == archive@.subrange(
                footer.index_offset as int,
                footer.index_offset + footer.index_size,
            )
            &&& unlocked matches Ok(key) ==> call_ensures(
                Opening::load,
                (o, key, footer, stored),
                loaded,
            )
        },
    ensures
        match answer {
            Err(e) => res == Err::<Reader, Error>(e),
            Ok(_) => match unlocked {
                Err(e) => res matches Err(x) && x@ == e@,
                Ok(key) => match located {
                    Err(e) => res matches Err(x) && x@ == e@,
                    Ok(_) => match loaded {
                        Err(e) => res matches Err(x) && x@ == e@,
                        Ok(l) => res matches Ok(r) && {
                            &&& index::views(r.entries@) == index::views(l.entries@)
                            &&& r.header == l.header
                            &&& r.footer == l.footer
                            &&& frame::key_of(r.encryption) == frame::key_of(key)
                        },
                    },
                },
            },
        },
{
    assert(crate::reader::tail_of(archive@) =~= tail@);
}

/// A test of an archive ends as a walk over it does.
pub proof fn law_test_and_walk_agree(r: Reader, archive: &[u8], tested: Result<()>)
    requires
        call_ensures(Reader::verify_all, (&r, archive), tested),
    ensures
        forall|out: &mut Vec<(usize, Vec<u8>)>, walked: Result<()>| #[trigger]
            call_ensures(Reader::for_each_file, (&r, archive, out), walked) ==> match tested {
                Ok(_) => walked is Ok,
                Err(e) => walked matches Err(x) && x@ == e@,
            },
{
    let entries = r.listed();
    assert(entries.len() == r.entries.len());
    let a = choose|d: Delivery| #[trigger]
        extract::is_delivery(archive@, r.key(), entries, d) && match d.fault {
            None => tested is Ok,
            Some(e) => tested matches Err(x) && x@ == e,
        };
    assert forall|out: &mut Vec<(usize, Vec<u8>)>, walked: Result<()>| #[trigger]
        call_ensures(Reader::for_each_file, (&r, archive, out), walked) implies match tested {
        Ok(_) => walked is Ok,
        Err(e) => walked matches Err(x) && x@ == e@,
    } by {
        let b = choose|d: Delivery| #[trigger]
            extract::is_delivery(archive@, r.key(), entries, d) && match d.fault {
                None => walked is Ok,
                Some(e) => walked matches Err(x) && x@ == e,
            };
        extract::law_delivery_unique(archive@, r.key(), entries, a, b);
    }
}

/// What is wrong with a file of an archive, if anything is: its frame reaches past
/// the end, does not open, does not decompress, does not hold the file in full, or
/// holds it with another hash.
pub open spec fn damage_of(archive: Seq<u8>, key: Option<Seq<u8>>, e: Entry) -> Option<
    ErrorView,
> {
    let end = e.frame_offset + e.frame_compressed_size;
    let stored = if e.frame_compressed_size == 0 {
        Seq::empty()
    } else {
        archive.subrange(e.frame_offset as int, end)
    };
    if e.frame_compressed_size > 0 && end > archive.len() {
        Some(error::eof())
    } else {
        match frame::unsealed(key, stored, "encrypted frame too small"@) {
            Err(fault) => Some(fault),
            Ok(payload) => match codec::zstd_decoded(payload) {
                None => Some(error::source_fault()),
                Some(data) => if e.block_offset + e.uncompressed_size > data.len() {
                    Some(ErrorView::Corrupt("entry range exceeds decoded block size"@))
                } else if codec::xxh3_of(
                    data.subrange(e.block_offset as int, e.block_offset + e.uncompressed_size),
                ) != e.content_xxh3 {
                    Some(ErrorView::ContentChecksum { path: e.path@ })
                } else {
                    None
                },
            },
        }
    }
}

/// A test of an archive reports what is wrong with one of its files; with no file
/// damaged it reports nothing.
pub proof fn law_damage_is_reported(r: Reader, archive: &[u8], res: Result<()>)
    requires
        call_ensures(Reader::verify_all, (&r, archive), res),
        forall|i: int, j: int| #![trigger r.entries@[i], r.entries@[j]]
            0 <= i < r.entries@.len() && 0 <= j < r.entries@.len() && r.entries@[i].kind
                == EntryKind::File && r.entries@[j].kind == EntryKind::File
                && r.entries@[i].frame_offset == r.entries@[j].frame_offset
                ==> r.entries@[i].frame_compressed_size == r.entries@[j].frame_compressed_size,
    ensures
        res matches Err(x) ==> exists|i: int|
            0 <= i < r.entries@.len() && (#[trigger] r.entries@[i]).kind == EntryKind::File
                && damage_of(archive@, frame::key_of(r.encryption), r.entries@[i]) == Some(x@),
{
    let entries = r.listed();
    let key = r.key();
    if let Err(x) = res {
        let d = choose|d: Delivery| #[trigger]
            extract::is_delivery(archive@, key, entries, d) && match d.fault {
                None => res is Ok,
                Some(e) => res matches Err(x) && x@ == e,
            };
        let groups = choose|groups: Seq<FrameGroup>| #[trigger]
            groups::is_grouping(entries, entries.len() as int, groups) && d
                == extract::deliver_groups(archive@, key, entries, groups);
        let k = lemma_first_fault(archive@, key, entries, groups);
        let group = groups[k];
        assert(groups::is_group(entries, entries.len() as int, group));
        let first = group.first as int;
        assert(entries[first] == r.entries@[first]@);
        match extract::group_frame(archive@, entries, group) {
            Err(_) => {
                assert(damage_of(archive@, key, r.entries@[first]) == Some(x@));
            },
            Ok(stored) => match extract::opened_frame(key, stored) {
                Err(_) => {
                    assert(damage_of(archive@, key, r.entries@[first]) == Some(x@));
                },
                Ok(data) => {
                    let b = lemma_first_damaged(entries, data, group.members@);
                    let i = group.members@[b] as int;
                    assert(groups::shares_frame(entries, first, i));
                    assert(entries[i] == r.entries@[i]@);
                    assert(r.entries@[i].frame_compressed_size
                        == r.entries@[first].frame_compressed_size);
                    law_content_is_hashed(entries[i], data);
                    assert(damage_of(archive@, key, r.entries@[i]) == Some(x@));
                },
            },
        }
    }
}

/// The frame at which a walk meets its error.
proof fn lemma_first_fault(
    archive: Seq<u8>,
    key: Option<Seq<u8>>,
    entries: Seq<EntryView>,
    groups: Seq<FrameGroup>,
) -> (k: int)
    requires
        extract::deliver_groups(archive, key, entries, groups).fault is Some,
    ensures
        0 <= k < groups.len(),
        extract::deliver_group(archive, key, entries, groups[k]).fault == extract::deliver_groups(
            archive,
            key,
            entries,
            groups,
        ).fault,
    decreases groups.len(),
{
    if extract::deliver_group(archive, key, entries, groups[0]).fault is Some {
        0
    } else {
        let later = groups.drop_first();
        let k = lemma_first_fault(archive, key, entries, later);
        assert(later[k] == groups[k + 1]);
        k + 1
    }
}

/// The file at which a frame is found damaged.
proof fn lemma_first_damaged(entries: Seq<EntryView>, data: Seq<u8>, members: Seq<usize>) -> (b:
    int)
    requires
        extract::deliver_members(entries, data, members).fault is Some,
    ensures
        0 <= b < members.len(),
        extract::content_of(entries[members[b] as int], data) == Err::<Seq<u8>, ErrorView>(
            extract::deliver_members(entries, data, members).fault->Some_0,
        ),
    decreases members.len(),
{
    if extract::content_of(entries[members[0] as int], data) is Err {
        0
    } else {
        let later = members.drop_first();
        let b = lemma_first_damaged(entries, data, later);
        assert(later[b] == members[b + 1]);
        b + 1
    }
}

/// A walk hands out every file of a frame as long as nothing in that frame, or in
/// one that is visited before it, is damaged, whatever comes later.
pub proof fn law_walk_goes_on_until_the_damage(
    r: Reader,
    archive: &[u8],
    groups: Vec<FrameGroup>,
    k: int,
    i: int,
)
    requires
        call_ensures(frame_groups, (&r.entries,), groups),
        forall|i: int, j: int| #![trigger r.entries@[i], r.entries@[j]]
            0 <= i < r.entries@.len() && 0 <= j < r.entries@.len() && r.entries@[i].kind
                == EntryKind::File && r.entries@[j].kind == EntryKind::File
                && r.entries@[i].frame_offset == r.entries@[j].frame_offset
                ==> r.entries@[i].frame_compressed_size == r.entries@[j].frame_compressed_size,
        0 <= k < groups@.len(),
        0 <= i < r.entries@.len(),
        groups@[k].members@.contains(i as usize),
        forall|l: int, j: int| #![trigger groups@[l], r.entries@[j]]
            0 <= l <= k && 0 <= j < r.entries@.len() && groups@[l].members@.contains(j as usize)
                ==> intact(archive@, frame::key_of(r.encryption), r.entries@[j]),
    ensures
        forall|out: &mut Vec<(usize, Vec<u8>)>, res: Result<()>| #[trigger]
            call_ensures(Reader::for_each_file, (&r, archive, out), res) ==> exists|a: int|
                out@.len() <= a < final(out)@.len() && (#[trigger] final(out)@[a]).0 == i,
{
    let entries = r.listed();
    let key = r.key();
    let n = entries.len() as int;
    assert(n == r.entries.len());
    assert(archive::frames_agree(entries)) by {
        assert forall|i: int, j: int| #![trigger entries[i], entries[j]]
            0 <= i < entries.len() && 0 <= j < entries.len() && entries[i].kind == EntryKind::File
                && entries[j].kind == EntryKind::File && entries[i].frame_offset
                == entries[j].frame_offset implies entries[i].frame_compressed_size
            == entries[j].frame_compressed_size by {
            assert(entries[i] == r.entries@[i]@ && entries[j] == r.entries@[j]@);
        }
    }
    assert forall|l: int| #![trigger groups@[l]] 0 <= l <= k implies extract::deliver_group(
        archive@,
        key,
        entries,
        groups@[l],
    ).fault is None by {
        assert(groups::is_group(entries, n, groups@[l]));
        assert forall|j: int|
            0 <= j < n && #[trigger] groups::shares_frame(
                entries,
                groups@[l].first as int,
                j,
            ) implies extract::readable(archive@, key, entries[j]) by {
            assert(groups@[l].members@.contains(j as usize));
            assert(entries[j] == r.entries@[j]@);
            assert(intact(archive@, key, r.entries@[j]));
        }
        extract::lemma_group_end(archive@, key, entries, groups@[l]);
    }
    let whole = extract::deliver_groups(archive@, key, entries, groups@);
    lemma_served_up_to(archive@, key, entries, groups@, k);
    let b = choose|b: int| 0 <= b < groups@[k].members@.len() && groups@[k].members@[b]
        == i as usize;
    assert(archive::served(whole.files, groups@[k].members@[b] as int));
    assert(extract::is_delivery(archive@, key, entries, whole));
    assert forall|out: &mut Vec<(usize, Vec<u8>)>, res: Result<()>| #[trigger]
        call_ensures(Reader::for_each_file, (&r, archive, out), res) implies exists|a: int|
        out@.len() <= a < final(out)@.len() && (#[trigger] final(out)@[a]).0 == i by {
        let (before, after) = (
            extract::delivered_views(out@),
            extract::delivered_views(final(out)@),
        );
        let d = choose|d: Delivery| #[trigger]
            extract::is_delivery(archive@, key, entries, d) && after == before + d.files
                && match d.fault {
                None => res is Ok,
                Some(e) => res matches Err(x) && x@ == e,
            };
        extract::law_delivery_unique(archive@, key, entries, whole, d);
        let a = choose|a: int| 0 <= a < d.files.len() && #[trigger] d.files[a].0 == i;
        let at = before.len() + a;
        assert(after[at] == d.files[a]);
        assert(after.len() == final(out)@.len() && before.len() == out@.len());
        assert(final(out)@[at].0 == i);
    }
}

/// What a walk hands out of frames that are intact, it hands out whatever follows.
proof fn lemma_served_up_to(
    archive: Seq<u8>,
    key: Option<Seq<u8>>,
    entries: Seq<EntryView>,
    groups: Seq<FrameGroup>,
    k: int,
)
    requires
        0 <= k < groups.len(),
        forall|l: int| #![trigger groups[l]]
            0 <= l <= k ==> extract::deliver_group(archive, key, entries, groups[l]).fault is None,
    ensures
        forall|b: int| #![trigger groups[k].members@[b]]
            0 <= b < groups[k].members@.len() ==> archive::served(
                extract::deliver_groups(archive, key, entries, groups).files,
                groups[k].members@[b] as int,
            ),
    decreases k,
{
    let d = extract::deliver_groups(archive, key, entries, groups);
    let first = extract::deliver_group(archive, key, entries, groups[0]);
    let later = groups.drop_first();
    let rest = extract::deliver_groups(archive, key, entries, later);
    assert(first.fault is None);
    assert(d.files == first.files + rest.files);
    if k == 0 {
        let stored = extract::group_frame(archive, entries, groups[0])->Ok_0;
        let data = extract::opened_frame(key, stored)->Ok_0;
        lemma_members_files(entries, data, groups[0].members@);
        assert forall|b: int| #![trigger groups[k].members@[b]]
            0 <= b < groups[k].members@.len() implies archive::served(
            d.files,
            groups[k].members@[b] as int,
        ) by {
            assert(d.files[b] == first.files[b]);
            assert(d.files[b].0 == groups[k].members@[b]);
        }
    } else {
        assert forall|l: int| #![trigger later[l]] 0 <= l <= k - 1 implies extract::deliver_group(
            archive,
            key,
            entries,
            later[l],
        ).fault is None by {
            assert(later[l] == groups[l + 1]);
        }
        lemma_served_up_to(archive, key, entries, later, k - 1);
        assert(later[k - 1] == groups[k]);
        assert forall|b: int| #![trigger groups[k].members@[b]]
            0 <= b < groups[k].members@.len() implies archive::served(
            d.files,
            groups[k].members@[b] as int,
        ) by {
            let i = later[k - 1].members@[b] as int;
            assert(archive::served(rest.files, i));
            let a = choose|a: int| 0 <= a < rest.files.len() && #[trigger] rest.files[a].0 == i;
            assert(d.files[first.files.len() + a] == rest.files[a]);
        }
    }
}

} // verus!
