//! Getting files out of an open archive.

use crate::archive;
use crate::codec;
use crate::codec::{copy_decoded, decode_all, decoder_new, skip_decoded, HashingReader};
use crate::error;
use crate::error::{Error, ErrorView, IoFault, Result};
use crate::format::{copy_range, EntryKind};
use crate::frame;
use crate::frame::unseal;
use crate::groups;
use crate::groups::{frame_groups, FrameGroup};
use crate::index;
use crate::index::{Entry, EntryView};
use crate::reader::Reader;
use vstd::prelude::*;

verus! {

/// Where a frame lies in an archive of `total` bytes: nowhere if it is empty,
/// and it must not reach past the end.
pub open spec fn range_of(total: nat, offset: u64, size: u64) -> core::result::Result<
    Option<(u64, u64)>,
    ErrorView,
> {
    if size == 0 {
        Ok(None)
    } else if offset + size > total {
        Err(error::eof())
    } else {
        Ok(Some((offset, size)))
    }
}

/// The bytes of a frame as they lie in an archive.
pub open spec fn stored_frame(archive: Seq<u8>, offset: u64, size: u64) -> core::result::Result<
    Seq<u8>,
    ErrorView,
> {
    match range_of(archive.len(), offset, size) {
        Err(e) => Err(e),
        Ok(None) => Ok(Seq::empty()),
        Ok(Some((start, len))) => Ok(archive.subrange(start as int, start + len)),
    }
}

/// The compressed data of a frame.
pub open spec fn frame_payload(
    archive: Seq<u8>,
    key: Option<Seq<u8>>,
    offset: u64,
    size: u64,
) -> core::result::Result<Seq<u8>, ErrorView> {
    match stored_frame(archive, offset, size) {
        Err(e) => Err(e),
        Ok(stored) => frame::unsealed(key, stored, "encrypted frame too small"@),
    }
}

/// The data of a frame, decompressed.
pub open spec fn frame_data(
    archive: Seq<u8>,
    key: Option<Seq<u8>>,
    offset: u64,
    size: u64,
) -> core::result::Result<Seq<u8>, ErrorView> {
    match stored_frame(archive, offset, size) {
        Err(e) => Err(e),
        Ok(stored) => opened_frame(key, stored),
    }
}

/// What is left of the data of a frame for a file: from its place on, as much
/// as its size says, or less where the data ends before.
pub open spec fn portion(e: EntryView, data: Seq<u8>) -> Seq<u8> {
    let rest = data.skip(codec::least(e.block_offset as nat, data.len()) as int);
    rest.take(codec::least(e.uncompressed_size as nat, rest.len()) as int)
}

/// Whether these are the bytes that an entry was made for.
pub open spec fn is_content(e: EntryView, content: Seq<u8>) -> bool {
    content.len() == e.uncompressed_size && codec::xxh3_of(content) == e.content_xxh3
}

/// The content of a file within the data of its frame.
pub open spec fn content_of(e: EntryView, data: Seq<u8>) -> core::result::Result<
    Seq<u8>,
    ErrorView,
> {
    if e.block_offset + e.uncompressed_size > data.len() {
        Err(ErrorView::Corrupt("entry range exceeds decoded block size"@))
    } else {
        let content = data.subrange(e.block_offset as int, e.block_offset + e.uncompressed_size);
        if codec::xxh3_of(content) != e.content_xxh3 {
            Err(ErrorView::ContentChecksum { path: e.path })
        } else {
            Ok(content)
        }
    }
}

/// The files that a walk hands out, each with its place in the index, and the
/// error that ends the walk, if one does.
pub struct Delivery {
    pub files: Seq<(int, Seq<u8>)>,
    pub fault: Option<ErrorView>,
}

/// What a walk hands out of one frame.
pub open spec fn deliver_members(
    entries: Seq<EntryView>,
    data: Seq<u8>,
    members: Seq<usize>,
) -> Delivery
    decreases members.len(),
{
    if members.len() == 0 {
        Delivery { files: Seq::empty(), fault: None }
    } else {
        match content_of(entries[members[0] as int], data) {
            Err(e) => Delivery { files: Seq::empty(), fault: Some(e) },
            Ok(content) => {
                let rest = deliver_members(entries, data, members.drop_first());
                Delivery {
                    files: seq![(members[0] as int, content)] + rest.files,
                    fault: rest.fault,
                }
            },
        }
    }
}

/// The data of a frame, given the bytes as they lie in the archive.
pub open spec fn opened_frame(key: Option<Seq<u8>>, stored: Seq<u8>) -> core::result::Result<
    Seq<u8>,
    ErrorView,
> {
    match frame::unsealed(key, stored, "encrypted frame too small"@) {
        Err(e) => Err(e),
        Ok(payload) => match codec::zstd_decoded(payload) {
            Some(data) => Ok(data),
            None => Err(error::source_fault()),
        },
    }
}

/// What a walk hands out of one frame, given the bytes as they lie in the
/// archive.
pub open spec fn deliver_stored(
    key: Option<Seq<u8>>,
    entries: Seq<EntryView>,
    group: FrameGroup,
    stored: Seq<u8>,
) -> Delivery {
    match opened_frame(key, stored) {
        Err(e) => Delivery { files: Seq::empty(), fault: Some(e) },
        Ok(data) => deliver_members(entries, data, group.members@),
    }
}

/// The bytes of the frame of a group as they lie in an archive.
pub open spec fn group_frame(
    archive: Seq<u8>,
    entries: Seq<EntryView>,
    group: FrameGroup,
) -> core::result::Result<Seq<u8>, ErrorView> {
    let first = entries[group.first as int];
    stored_frame(archive, first.frame_offset, first.frame_compressed_size)
}

/// What a walk hands out of one frame of an archive.
pub open spec fn deliver_group(
    archive: Seq<u8>,
    key: Option<Seq<u8>>,
    entries: Seq<EntryView>,
    group: FrameGroup,
) -> Delivery {
    match group_frame(archive, entries, group) {
        Err(e) => Delivery { files: Seq::empty(), fault: Some(e) },
        Ok(stored) => deliver_stored(key, entries, group, stored),
    }
}

/// What a walk hands out of frames that are fetched one by one, given what
/// fetching each of them led to.
pub open spec fn deliver_fetched(
    key: Option<Seq<u8>>,
    entries: Seq<EntryView>,
    groups: Seq<FrameGroup>,
    frames: Seq<core::result::Result<Seq<u8>, ErrorView>>,
) -> Delivery
    decreases groups.len(),
{
    if groups.len() == 0 {
        Delivery { files: Seq::empty(), fault: None }
    } else {
        match frames[0] {
            Err(e) => Delivery { files: Seq::empty(), fault: Some(e) },
            Ok(stored) => {
                let first = deliver_stored(key, entries, groups[0], stored);
                if first.fault is Some {
                    first
                } else {
                    let rest = deliver_fetched(
                        key,
                        entries,
                        groups.drop_first(),
                        frames.drop_first(),
                    );
                    Delivery { files: first.files + rest.files, fault: rest.fault }
                }
            },
        }
    }
}

/// What a walk hands out of an archive, frame by frame.
pub open spec fn deliver_groups(
    archive: Seq<u8>,
    key: Option<Seq<u8>>,
    entries: Seq<EntryView>,
    groups: Seq<FrameGroup>,
) -> Delivery
    decreases groups.len(),
{
    if groups.len() == 0 {
        Delivery { files: Seq::empty(), fault: None }
    } else {
        let first = deliver_group(archive, key, entries, groups[0]);
        if first.fault is Some {
            first
        } else {
            let rest = deliver_groups(archive, key, entries, groups.drop_first());
            Delivery { files: first.files + rest.files, fault: rest.fault }
        }
    }
}

/// Whether a walk over the files of an archive hands out `delivery`.
pub open spec fn is_delivery(
    archive: Seq<u8>,
    key: Option<Seq<u8>>,
    entries: Seq<EntryView>,
    delivery: Delivery,
) -> bool {
    exists|groups: Seq<FrameGroup>| #[trigger]
        groups::is_grouping(entries, entries.len() as int, groups) && delivery == deliver_groups(
            archive,
            key,
            entries,
            groups,
        )
}

/// Files that were handed out, with their contents as sequences.
pub open spec fn delivered_views(delivered: Seq<(usize, Vec<u8>)>) -> Seq<(int, Seq<u8>)> {
    Seq::new(delivered.len(), |i: int| (delivered[i].0 as int, delivered[i].1@))
}

/// What handing out `more` behind `before` leads to; nothing is added where
/// nothing is kept.
pub open spec fn grown(before: Seq<(int, Seq<u8>)>, keep: bool, more: Seq<(int, Seq<u8>)>) -> Seq<
    (int, Seq<u8>),
> {
    if keep {
        before + more
    } else {
        before
    }
}

/// Holds what came out of a frame for an entry against what the entry says of
/// it: `decoded` bytes with the hash `hash`.
pub fn check_content(entry: &Entry, decoded: u64, hash: u64) -> (res: Result<()>)
    ensures
        if decoded == entry.uncompressed_size && hash == entry.content_xxh3 {
            res is Ok
        } else {
            res matches Err(e) && e@ == (ErrorView::ContentChecksum { path: entry.path@ })
        },
{
    if decoded != entry.uncompressed_size || hash != entry.content_xxh3 {
        Err(Error::ContentChecksum { path: entry.path.clone() })
    } else {
        Ok(())
    }
}

/// Where a frame lies in an archive of `total` bytes.
fn stored_range(total: u64, offset: u64, size: u64) -> (res: Result<Option<(u64, u64)>>)
    ensures
        match range_of(total as nat, offset, size) {
            Ok(range) => res == Ok::<Option<(u64, u64)>, Error>(range),
            Err(e) => res matches Err(x) && x@ == e,
        },
{
    if size == 0 {
        Ok(None)
    } else if offset > total || size > total - offset {
        Err(Error::Io(IoFault::UnexpectedEof))
    } else {
        Ok(Some((offset, size)))
    }
}

/// The content of a file within the data of its frame, held against its hash.
pub fn content_in<'a>(entry: &Entry, data: &'a [u8]) -> (res: Result<&'a [u8]>)
    ensures
        match content_of(entry@, data@) {
            Ok(content) => res matches Ok(x) && x@ == content,
            Err(e) => res matches Err(x) && x@ == e,
        },
{
    let len: usize = data.len();
    if entry.block_offset > len as u64 || entry.uncompressed_size > len as u64
        - entry.block_offset {
        return Err(Error::Corrupt("entry range exceeds decoded block size"));
    }
    let start: usize = entry.block_offset as usize;
    let end: usize = start + entry.uncompressed_size as usize;
    let content: &[u8] = vstd::slice::slice_subrange(data, start, end);
    if codec::xxh3(content) != entry.content_xxh3 {
        return Err(Error::ContentChecksum { path: entry.path.clone() });
    }
    Ok(content)
}

impl Reader {
    /// The key of the archive, if it has one.
    pub open spec fn key(self) -> Option<Seq<u8>> {
        frame::key_of(self.encryption)
    }

    /// The entries with their texts as sequences of characters.
    pub open spec fn listed(self) -> Seq<EntryView> {
        index::views(self.entries@)
    }

    /// The bytes of a frame as they lie in the archive.
    fn read_frame(archive: &[u8], frame_offset: u64, frame_size: u64) -> (res: Result<Vec<u8>>)
        ensures
            match stored_frame(archive@, frame_offset, frame_size) {
                Ok(stored) => res matches Ok(x) && x@ == stored,
                Err(e) => res matches Err(x) && x@ == e,
            },
    {
        match stored_range(archive.len() as u64, frame_offset, frame_size) {
            Ok(Some((start, len))) => Ok(
                copy_range(archive, start as usize, start as usize + len as usize),
            ),
            Ok(None) => Ok(Vec::new()),
            Err(e) => Err(e),
        }
    }

    /// The compressed data of a frame, decrypted where the archive is
    /// encrypted.
    fn read_decoded_frame(&self, archive: &[u8], frame_offset: u64, frame_size: u64) -> (res:
        Result<Vec<u8>>)
        ensures
            match frame_payload(archive@, self.key(), frame_offset, frame_size) {
                Ok(payload) => res matches Ok(x) && x@ == payload,
                Err(e) => res matches Err(x) && x@ == e,
            },
    {
        match Self::read_frame(archive, frame_offset, frame_size) {
            Ok(stored) => unseal(&self.encryption, stored, "encrypted frame too small"),
            Err(e) => Err(e),
        }
    }

    /// Where the frame of a group lies in an archive of `total` bytes, for a
    /// caller that fetches it itself: its offset and its size, or nothing where
    /// it is empty.
    pub fn frame_range(&self, group: &FrameGroup, total: u64) -> (res: Result<Option<(u64, u64)>>)
        requires
            group.first < self.entries@.len(),
        ensures
            ({
                let first = self.listed()[group.first as int];
                match range_of(total as nat, first.frame_offset, first.frame_compressed_size) {
                    Ok(range) => res == Ok::<Option<(u64, u64)>, Error>(range),
                    Err(e) => res matches Err(x) && x@ == e,
                }
            }),
    {
        let first: &Entry = &self.entries[group.first];
        stored_range(total, first.frame_offset, first.frame_compressed_size)
    }

    /// The data of a frame, given the bytes as they lie in the archive.
    pub fn decode_frame(&self, stored: Vec<u8>) -> (res: Result<Vec<u8>>)
        ensures
            match opened_frame(self.key(), stored@) {
                Ok(data) => res matches Ok(x) && x@ == data,
                Err(e) => res matches Err(x) && x@ == e,
            },
    {
        match unseal(&self.encryption, stored, "encrypted frame too small") {
            Ok(payload) => match decode_all(payload.as_slice()) {
                Ok(data) => Ok(data),
                Err(e) => Err(Error::Io(IoFault::Source(e))),
            },
            Err(e) => Err(e),
        }
    }

    /// Extracts one entry: appends the bytes of a file to `out` and returns
    /// how many there are. An entry that is no file has none. Where the bytes
    /// do not fit the entry they are appended all the same, and the error
    /// says so. For many files prefer [`Reader::for_each_file`], which decodes
    /// a shared frame only once.
    pub fn extract_entry(&self, archive: &[u8], idx: usize, out: &mut Vec<u8>) -> (res: Result<u64>)
        ensures
            if idx >= self.entries@.len() {
                &&& (res matches Err(e) && e@ == ErrorView::Corrupt("entry index out of range"@))
                &&& final(out)@ == old(out)@
            } else if self.listed()[idx as int].kind != EntryKind::File {
                &&& res == Ok::<u64, Error>(0)
                &&& final(out)@ == old(out)@
            } else {
                extracts(
                    archive@,
                    self.key(),
                    self.listed()[idx as int],
                    old(out)@,
                    final(out)@,
                    res,
                )
            },
    {
        if idx >= self.entries.len() {
            return Err(Error::Corrupt("entry index out of range"));
        }
        let entry: &Entry = &self.entries[idx];
        if entry.kind != EntryKind::File {
            return Ok(0);
        }
        let payload = match self.read_decoded_frame(
            archive,
            entry.frame_offset,
            entry.frame_compressed_size,
        ) {
            Ok(payload) => payload,
            Err(e) => {
                return Err(e);
            },
        };
        extract_from(entry, payload.as_slice(), out)
    }

    /// Walks over every file, decompressing each frame once even where many
    /// files share it, and appends to `delivered` the index and the content of
    /// each, already held against its hash.
    pub fn for_each_file(&self, archive: &[u8], delivered: &mut Vec<(usize, Vec<u8>)>) -> (res:
        Result<()>)
        ensures
            exists|d: Delivery| #[trigger]
                is_delivery(archive@, self.key(), self.listed(), d) && delivered_views(
                    final(delivered)@,
                ) == delivered_views(old(delivered)@) + d.files && match d.fault {
                    None => res is Ok,
                    Some(e) => res matches Err(x) && x@ == e,
                },
    {
        self.walk(archive, true, delivered)
    }

    /// Walks over every file and holds its content against its hash.
    pub fn verify_all(&self, archive: &[u8]) -> (res: Result<()>)
        ensures
            archive::frames_agree(self.listed()) ==> (res is Ok <==> all_readable(
                archive@,
                self.key(),
                self.listed(),
            )),
            exists|d: Delivery| #[trigger]
                is_delivery(archive@, self.key(), self.listed(), d) && match d.fault {
                    None => res is Ok,
                    Some(e) => res matches Err(x) && x@ == e,
                },
    {
        let mut nothing: Vec<(usize, Vec<u8>)> = Vec::new();
        let res = self.walk(archive, false, &mut nothing);
        proof {
            let d = choose|d: Delivery| #[trigger]
                is_delivery(archive@, self.key(), self.listed(), d) && match d.fault {
                    None => res is Ok,
                    Some(e) => res matches Err(x) && x@ == e,
                };
            assert(self.entries.len() == self.listed().len());
            if archive::frames_agree(self.listed()) {
                law_walk_ends_well(archive@, self.key(), self.listed(), d);
            }
        }
        res
    }

    /// Walks over every file; what it finds is appended to `delivered` or, if
    /// nothing is to be kept, let go.
    fn walk(&self, archive: &[u8], keep: bool, delivered: &mut Vec<(usize, Vec<u8>)>) -> (res:
        Result<()>)
        ensures
            exists|d: Delivery| #[trigger]
                is_delivery(archive@, self.key(), self.listed(), d) && delivered_views(
                    final(delivered)@,
                ) == grown(delivered_views(old(delivered)@), keep, d.files) && match d.fault {
                    None => res is Ok,
                    Some(e) => res matches Err(x) && x@ == e,
                },
    {
        let groups = frame_groups(&self.entries);
        let ghost all = groups@;
        let ghost whole = deliver_groups(archive@, self.key(), self.listed(), all);
        let ghost start = delivered_views(delivered@);
        let mut k: usize = 0;
        proof {
            assert(self.listed().len() == self.entries@.len());
            assert(groups::is_grouping(self.listed(), self.listed().len() as int, all));
            assert(is_delivery(archive@, self.key(), self.listed(), whole));
            assert(all.skip(0) =~= all);
        }
        while k < groups.len()
            invariant
                k <= groups@.len(),
                groups@ == all,
                groups::is_grouping(self.listed(), self.entries@.len() as int, all),
                whole == deliver_groups(archive@, self.key(), self.listed(), all),
                is_delivery(archive@, self.key(), self.listed(), whole),
                start == delivered_views(old(delivered)@),
                ({
                    let rest = deliver_groups(
                        archive@,
                        self.key(),
                        self.listed(),
                        all.skip(k as int),
                    );
                    &&& grown(delivered_views(delivered@), keep, rest.files) == grown(
                        start,
                        keep,
                        whole.files,
                    )
                    &&& rest.fault == whole.fault
                }),
            decreases groups@.len() - k,
        {
            let ghost before = delivered_views(delivered@);
            let ghost here = deliver_group(archive@, self.key(), self.listed(), all[k as int]);
            let ghost later = deliver_groups(
                archive@,
                self.key(),
                self.listed(),
                all.skip(k + 1),
            );
            proof {
                assert(all.skip(k as int)[0] == all[k as int]);
                assert(all.skip(k as int).drop_first() =~= all.skip(k + 1));
                assert(groups::is_group(
                    self.listed(),
                    self.entries@.len() as int,
                    all[k as int],
                ));
                assert(before + (here.files + later.files) =~= before + here.files + later.files);
            }
            match self.walk_group(archive, &groups[k], keep, delivered) {
                Ok(_) => {},
                Err(e) => {
                    return Err(e);
                },
            }
            k = k + 1;
        }
        proof {
            assert(all.skip(k as int).len() == 0);
            assert(delivered_views(delivered@) + Seq::empty() =~= delivered_views(delivered@));
        }
        Ok(())
    }

    /// Decodes one frame and walks over the files in it.
    fn walk_group(
        &self,
        archive: &[u8],
        group: &FrameGroup,
        keep: bool,
        delivered: &mut Vec<(usize, Vec<u8>)>,
    ) -> (res: Result<()>)
        requires
            groups::is_group(self.listed(), self.entries@.len() as int, *group),
        ensures
            ({
                let d = deliver_group(archive@, self.key(), self.listed(), *group);
                &&& delivered_views(final(delivered)@) == grown(
                    delivered_views(old(delivered)@),
                    keep,
                    d.files,
                )
                &&& match d.fault {
                    None => res is Ok,
                    Some(e) => res matches Err(x) && x@ == e,
                }
            }),
    {
        let first: &Entry = &self.entries[group.first];
        let ghost start = delivered_views(delivered@);
        assert(start + Seq::empty() =~= start);
        match Self::read_frame(archive, first.frame_offset, first.frame_compressed_size) {
            Ok(stored) => self.walk_stored(group, stored, keep, delivered),
            Err(e) => Err(e),
        }
    }

    /// Decodes one frame, given the bytes as they lie in the archive, and walks
    /// over the files in it.
    fn walk_stored(
        &self,
        group: &FrameGroup,
        stored: Vec<u8>,
        keep: bool,
        delivered: &mut Vec<(usize, Vec<u8>)>,
    ) -> (res: Result<()>)
        requires
            groups::is_group(self.listed(), self.entries@.len() as int, *group),
        ensures
            ({
                let d = deliver_stored(self.key(), self.listed(), *group, stored@);
                &&& delivered_views(final(delivered)@) == grown(
                    delivered_views(old(delivered)@),
                    keep,
                    d.files,
                )
                &&& match d.fault {
                    None => res is Ok,
                    Some(e) => res matches Err(x) && x@ == e,
                }
            }),
    {
        let ghost start = delivered_views(delivered@);
        assert(start + Seq::empty() =~= start);
        let ghost here = deliver_stored(self.key(), self.listed(), *group, stored@);
        let data = match self.decode_frame(stored) {
            Ok(data) => data,
            Err(e) => {
                return Err(e);
            },
        };
        let ghost all = group.members@;
        let ghost whole = deliver_members(self.listed(), data@, all);
        let mut a: usize = 0;
        assert(all.skip(0) =~= all);
        while a < group.members.len()
            invariant
                a <= group.members@.len(),
                group.members@ == all,
                groups::is_group(self.listed(), self.entries@.len() as int, *group),
                whole == deliver_members(self.listed(), data@, all),
                whole == here,
                here == deliver_stored(self.key(), self.listed(), *group, stored@),
                start == delivered_views(old(delivered)@),
                ({
                    let rest = deliver_members(self.listed(), data@, all.skip(a as int));
                    &&& grown(delivered_views(delivered@), keep, rest.files) == grown(
                        start,
                        keep,
                        whole.files,
                    )
                    &&& rest.fault == whole.fault
                }),
            decreases group.members@.len() - a,
        {
            let i: usize = group.members[a];
            let ghost before = delivered_views(delivered@);
            let ghost later = deliver_members(self.listed(), data@, all.skip(a + 1));
            proof {
                assert(all.skip(a as int)[0] == all[a as int]);
                assert(all.skip(a as int).drop_first() =~= all.skip(a + 1));
                assert(before + Seq::empty() =~= before);
            }
            match content_in(&self.entries[i], data.as_slice()) {
                Ok(content) => {
                    let ghost item = (i as int, content@);
                    assert(before + (seq![item] + later.files) =~= before.push(item) + later.files);
                    if keep {
                        delivered.push((i, vstd::slice::slice_to_vec(content)));
                        assert(delivered_views(delivered@) =~= before.push(item));
                    }
                },
                Err(e) => {
                    return Err(e);
                },
            }
            a = a + 1;
        }
        proof {
            assert(all.skip(a as int).len() == 0);
            assert(delivered_views(delivered@) + Seq::empty() =~= delivered_views(delivered@));
        }
        Ok(())
    }
}

/// A walk over the files of an archive, for a caller that fetches the frames
/// itself: which of them are still to come.
pub struct Walk {
    groups: Vec<FrameGroup>,
    done: usize,
}

impl Walk {
    /// The frames that are still to come.
    pub closed spec fn left(self) -> Seq<FrameGroup> {
        self.groups@.skip(self.done as int)
    }

    /// Whether the walk is one over these entries.
    pub closed spec fn is_over(self, entries: Seq<EntryView>) -> bool {
        &&& self.done <= self.groups@.len()
        &&& groups::is_grouping(entries, entries.len() as int, self.groups@)
    }
}

impl Reader {
    /// Begins a walk over every file. [`Reader::next_frame`] says which frame
    /// comes next, and [`Reader::take_frame`] hands out the files in it.
    pub fn start_walk(&self) -> (walk: Walk)
        ensures
            walk.is_over(self.listed()),
            groups::is_grouping(self.listed(), self.listed().len() as int, walk.left()),
    {
        let groups = frame_groups(&self.entries);
        let ghost all = groups@;
        let walk = Walk { groups, done: 0 };
        assert(walk.left() =~= all);
        walk
    }

    /// Where the next frame lies in an archive of `total` bytes: its offset and
    /// its size, or nothing once the walk is at its end.
    pub fn next_frame(&self, walk: &Walk, total: u64) -> (res: Result<Option<(u64, u64)>>)
        requires
            walk.is_over(self.listed()),
        ensures
            if walk.left().len() == 0 {
                res == Ok::<Option<(u64, u64)>, Error>(None)
            } else {
                let first = self.listed()[walk.left()[0].first as int];
                match range_of(total as nat, first.frame_offset, first.frame_compressed_size) {
                    Ok(Some(range)) => res == Ok::<Option<(u64, u64)>, Error>(Some(range)),
                    Ok(None) => res == Ok::<Option<(u64, u64)>, Error>(Some((0, 0))),
                    Err(e) => res matches Err(x) && x@ == e,
                }
            },
    {
        if walk.done >= walk.groups.len() {
            return Ok(None);
        }
        let group: &FrameGroup = &walk.groups[walk.done];
        assert(groups::is_group(self.listed(), self.listed().len() as int, *group));
        match self.frame_range(group, total) {
            Ok(Some(range)) => Ok(Some(range)),
            Ok(None) => Ok(Some((0, 0))),
            Err(e) => Err(e),
        }
    }

    /// Takes the bytes of the next frame, as they lie in the archive, and
    /// appends to `delivered` the index and the content of each file in it, up
    /// to the first that is not as its entry says.
    pub fn take_frame(
        &self,
        walk: &mut Walk,
        stored: Vec<u8>,
        delivered: &mut Vec<(usize, Vec<u8>)>,
    ) -> (res: Result<()>)
        requires
            old(walk).is_over(self.listed()),
            old(walk).left().len() > 0,
        ensures
            final(walk).is_over(self.listed()),
            final(walk).left() == old(walk).left().drop_first(),
            ({
                let d = deliver_stored(
                    self.key(),
                    self.listed(),
                    old(walk).left()[0],
                    stored@,
                );
                &&& delivered_views(final(delivered)@) == delivered_views(old(delivered)@)
                    + d.files
                &&& match d.fault {
                    None => res is Ok,
                    Some(e) => res matches Err(x) && x@ == e,
                }
            }),
    {
        let at: usize = walk.done;
        assert(walk.groups.len() > at);
        assert(groups::is_group(
            self.listed(),
            self.listed().len() as int,
            walk.groups@[at as int],
        ));
        walk.done = at + 1;
        assert(walk.left() =~= old(walk).left().drop_first());
        self.walk_stored(&walk.groups[at], stored, true, delivered)
    }
}

/// A walk that fetches each frame from where it lies hands out what a walk over
/// the whole archive does, and ends as it does.
pub proof fn law_fetched_frames_make_the_walk(
    archive: Seq<u8>,
    key: Option<Seq<u8>>,
    entries: Seq<EntryView>,
    groups: Seq<FrameGroup>,
    frames: Seq<core::result::Result<Seq<u8>, ErrorView>>,
)
    requires
        frames.len() == groups.len(),
        forall|k: int| #![trigger frames[k]]
            0 <= k < frames.len() ==> frames[k] == group_frame(archive, entries, groups[k]),
    ensures
        deliver_fetched(key, entries, groups, frames) == deliver_groups(
            archive,
            key,
            entries,
            groups,
        ),
        groups::is_grouping(entries, entries.len() as int, groups) ==> is_delivery(
            archive,
            key,
            entries,
            deliver_fetched(key, entries, groups, frames),
        ),
    decreases groups.len(),
{
    if groups.len() > 0 {
        let later = groups.drop_first();
        let rest = frames.drop_first();
        assert(frames[0] == group_frame(archive, entries, groups[0]));
        assert forall|k: int| #![trigger rest[k]] 0 <= k < rest.len() implies rest[k]
            == group_frame(archive, entries, later[k]) by {
            assert(rest[k] == frames[k + 1]);
        }
        law_fetched_frames_make_the_walk(archive, key, entries, later, rest);
    }
}

/// Whether extracting a file, appended to `before`, may end like this.
pub open spec fn extracts(
    archive: Seq<u8>,
    key: Option<Seq<u8>>,
    e: EntryView,
    before: Seq<u8>,
    after: Seq<u8>,
    res: Result<u64>,
) -> bool {
    match frame_payload(archive, key, e.frame_offset, e.frame_compressed_size) {
        Err(fault) => after == before && (res matches Err(x) && x@ == fault),
        Ok(payload) => extracts_from(e, payload, before, after, res),
    }
}

/// Whether extracting a file from the compressed data of its frame, appended to
/// `before`, may end like this. What an encoder made has one outcome. Of other
/// data some part comes out, no longer than the file, and is held against the
/// entry, or the decoder reports a fault.
pub open spec fn extracts_from(
    e: EntryView,
    payload: Seq<u8>,
    before: Seq<u8>,
    after: Seq<u8>,
    res: Result<u64>,
) -> bool {
    &&& forall|data: Seq<u8>| #[trigger]
        codec::encoded(data, payload) ==> after == before + portion(e, data) && ends_as(
            e,
            portion(e, data),
            res,
        )
    &&& exists|part: Seq<u8>| #[trigger] yields(e, part, res) && after == before + part
}

/// Whether extracting a file may end like this once `part` has come out of its
/// frame.
pub open spec fn yields(e: EntryView, part: Seq<u8>, res: Result<u64>) -> bool {
    &&& part.len() <= e.uncompressed_size
    &&& ends_as(e, part, res) || (res matches Err(x) && x@ == error::source_fault())
}

/// What comes back once `content` has come out of a frame for an entry.
pub open spec fn ends_as(e: EntryView, content: Seq<u8>, res: Result<u64>) -> bool {
    if is_content(e, content) {
        res == Ok::<u64, Error>(e.uncompressed_size)
    } else {
        res matches Err(x) && x@ == (ErrorView::ContentChecksum { path: e.path })
    }
}

/// Decompresses the data of a frame as far as an entry needs it, and appends
/// what belongs to the entry to `out`.
fn extract_from(entry: &Entry, payload: &[u8], out: &mut Vec<u8>) -> (res: Result<u64>)
    ensures
        extracts_from(entry@, payload@, old(out)@, final(out)@, res),
{
    let ghost before = out@;
    assert(before + Seq::<u8>::empty() =~= before);
    assert(Seq::<u8>::empty().len() == 0);
    let mut decoder = match decoder_new(payload) {
        Ok(decoder) => decoder,
        Err(e) => {
            return Err(Error::Io(IoFault::Source(e)));
        },
    };
    match skip_decoded(&mut decoder, entry.block_offset) {
        Ok(_) => {},
        Err(e) => {
            let res: Result<u64> = Err(e);
            assert(yields(entry@, Seq::empty(), res));
            return res;
        },
    }
    let mut hashing = HashingReader::new(decoder);
    match copy_decoded(&mut hashing, entry.uncompressed_size, out) {
        Ok(_) => {},
        Err(e) => {
            let res: Result<u64> = Err(e);
            assert(yields(entry@, hashing.seen(), res));
            return res;
        },
    }
    let ghost seen = hashing.seen();
    let (decoded, hash) = hashing.finish();
    let res: Result<u64> = match check_content(entry, decoded, hash) {
        Ok(_) => Ok(decoded),
        Err(e) => Err(e),
    };
    assert(yields(entry@, seen, res));
    res
}

/// Groups with the same files hand out the same.
proof fn lemma_same_delivery(
    archive: Seq<u8>,
    key: Option<Seq<u8>>,
    entries: Seq<EntryView>,
    groups: Seq<FrameGroup>,
    others: Seq<FrameGroup>,
)
    requires
        groups.len() == others.len(),
        forall|k: int| #![trigger groups[k]] #![trigger others[k]]
            0 <= k < groups.len() ==> groups[k].first == others[k].first && groups[k].members@
                == others[k].members@,
    ensures
        deliver_groups(archive, key, entries, groups) == deliver_groups(
            archive,
            key,
            entries,
            others,
        ),
    decreases groups.len(),
{
    if groups.len() > 0 {
        let a = groups.drop_first();
        let b = others.drop_first();
        assert(groups[0].first == others[0].first);
        assert forall|k: int| #![trigger a[k]] #![trigger b[k]] 0 <= k < a.len() implies a[k].first
            == b[k].first && a[k].members@ == b[k].members@ by {
            assert(a[k] == groups[k + 1]);
            assert(b[k] == others[k + 1]);
        }
        lemma_same_delivery(archive, key, entries, a, b);
    }
}

/// The archive, its key and its entries alone decide what a walk hands out, in
/// what order, and how it ends.
pub proof fn law_delivery_unique(
    archive: Seq<u8>,
    key: Option<Seq<u8>>,
    entries: Seq<EntryView>,
    d: Delivery,
    other: Delivery,
)
    requires
        is_delivery(archive, key, entries, d),
        is_delivery(archive, key, entries, other),
        entries.len() <= usize::MAX,
    ensures
        d == other,
{
    let a = choose|groups: Seq<FrameGroup>| #[trigger]
        groups::is_grouping(entries, entries.len() as int, groups) && d == deliver_groups(
            archive,
            key,
            entries,
            groups,
        );
    let b = choose|groups: Seq<FrameGroup>| #[trigger]
        groups::is_grouping(entries, entries.len() as int, groups) && other == deliver_groups(
            archive,
            key,
            entries,
            groups,
        );
    groups::law_grouping_unique(entries, a, b);
    lemma_same_delivery(archive, key, entries, a, b);
}

/// Whether the frame of a file decodes, and holds the file where its entry says,
/// with the right hash.
pub open spec fn readable(archive: Seq<u8>, key: Option<Seq<u8>>, e: EntryView) -> bool {
    frame_data(archive, key, e.frame_offset, e.frame_compressed_size) matches Ok(data)
        && content_of(e, data) is Ok
}

/// Whether every file is readable.
pub open spec fn all_readable(
    archive: Seq<u8>,
    key: Option<Seq<u8>>,
    entries: Seq<EntryView>,
) -> bool {
    forall|i: int| #![trigger entries[i]]
        0 <= i < entries.len() && entries[i].kind == EntryKind::File ==> readable(
            archive,
            key,
            entries[i],
        )
}

/// A frame is walked to its end exactly if all of its files are in it.
proof fn lemma_members_end(entries: Seq<EntryView>, data: Seq<u8>, members: Seq<usize>)
    ensures
        deliver_members(entries, data, members).fault is None <==> (forall|a: int|
            #![trigger members[a]]
            0 <= a < members.len() ==> content_of(entries[members[a] as int], data) is Ok),
    decreases members.len(),
{
    if members.len() > 0 {
        let rest = members.drop_first();
        lemma_members_end(entries, data, rest);
        assert forall|a: int| #![trigger rest[a]] 0 <= a < rest.len() implies rest[a] == members[a
            + 1] by {}
        if deliver_members(entries, data, members).fault is None {
            assert forall|a: int| #![trigger members[a]] 0 <= a < members.len() implies content_of(
                entries[members[a] as int],
                data,
            ) is Ok by {
                if a > 0 {
                    assert(rest[a - 1] == members[a]);
                }
            }
        } else {
            if forall|a: int| #![trigger members[a]]
                0 <= a < members.len() ==> content_of(entries[members[a] as int], data) is Ok {
                assert(content_of(entries[members[0] as int], data) is Ok);
                assert forall|a: int| #![trigger rest[a]] 0 <= a < rest.len() implies content_of(
                    entries[rest[a] as int],
                    data,
                ) is Ok by {
                    assert(rest[a] == members[a + 1]);
                }
            }
        }
    }
}

/// An archive is walked to its end exactly if each frame is.
proof fn lemma_groups_end(
    archive: Seq<u8>,
    key: Option<Seq<u8>>,
    entries: Seq<EntryView>,
    groups: Seq<FrameGroup>,
)
    ensures
        deliver_groups(archive, key, entries, groups).fault is None <==> (forall|k: int|
            #![trigger groups[k]]
            0 <= k < groups.len() ==> deliver_group(archive, key, entries, groups[k]).fault is None),
    decreases groups.len(),
{
    if groups.len() > 0 {
        let rest = groups.drop_first();
        lemma_groups_end(archive, key, entries, rest);
        if deliver_groups(archive, key, entries, groups).fault is None {
            assert forall|k: int| #![trigger groups[k]] 0 <= k < groups.len() implies deliver_group(
                archive,
                key,
                entries,
                groups[k],
            ).fault is None by {
                if k > 0 {
                    assert(rest[k - 1] == groups[k]);
                }
            }
        } else {
            if forall|k: int| #![trigger groups[k]]
                0 <= k < groups.len() ==> deliver_group(
                    archive,
                    key,
                    entries,
                    groups[k],
                ).fault is None {
                assert(deliver_group(archive, key, entries, groups[0]).fault is None);
                assert forall|k: int| #![trigger rest[k]] 0 <= k < rest.len() implies deliver_group(
                    archive,
                    key,
                    entries,
                    rest[k],
                ).fault is None by {
                    assert(rest[k] == groups[k + 1]);
                }
            }
        }
    }
}

/// Where the entries that share a frame agree on its size, a walk meets no
/// error exactly if every file is readable.
pub proof fn law_walk_ends_well(
    archive: Seq<u8>,
    key: Option<Seq<u8>>,
    entries: Seq<EntryView>,
    d: Delivery,
)
    requires
        is_delivery(archive, key, entries, d),
        archive::frames_agree(entries),
        entries.len() <= usize::MAX,
    ensures
        d.fault is None <==> all_readable(archive, key, entries),
{
    let groups = choose|groups: Seq<FrameGroup>| #[trigger]
        groups::is_grouping(entries, entries.len() as int, groups) && d == deliver_groups(
            archive,
            key,
            entries,
            groups,
        );
    lemma_groups_end(archive, key, entries, groups);
    assert forall|k: int| #![trigger groups[k]] 0 <= k < groups.len() implies (deliver_group(
        archive,
        key,
        entries,
        groups[k],
    ).fault is None <==> group_readable(archive, key, entries, groups[k])) by {
        assert(groups::is_group(entries, entries.len() as int, groups[k]));
        lemma_group_end(archive, key, entries, groups[k]);
    }
    if all_readable(archive, key, entries) {
        assert forall|k: int| #![trigger groups[k]] 0 <= k < groups.len() implies group_readable(
            archive,
            key,
            entries,
            groups[k],
        ) by {
            assert(groups::is_group(entries, entries.len() as int, groups[k]));
        }
    } else {
        let i = choose|i: int| #![trigger entries[i]]
            0 <= i < entries.len() && entries[i].kind == EntryKind::File && !readable(
                archive,
                key,
                entries[i],
            );
        assert(groups::has_group(entries, groups, i));
        let k = choose|k: int| 0 <= k < groups.len() && #[trigger] groups::shares_frame(
            entries,
            groups[k].first as int,
            i,
        );
        assert(!group_readable(archive, key, entries, groups[k]));
    }
}

/// Whether every file of a group is readable.
pub(crate) open spec fn group_readable(
    archive: Seq<u8>,
    key: Option<Seq<u8>>,
    entries: Seq<EntryView>,
    group: FrameGroup,
) -> bool {
    forall|i: int|
        0 <= i < entries.len() && #[trigger] groups::shares_frame(entries, group.first as int, i)
            ==> readable(archive, key, entries[i])
}

/// A frame is walked to its end exactly if every file of its group is readable.
pub(crate) proof fn lemma_group_end(
    archive: Seq<u8>,
    key: Option<Seq<u8>>,
    entries: Seq<EntryView>,
    group: FrameGroup,
)
    requires
        groups::is_group(entries, entries.len() as int, group),
        archive::frames_agree(entries),
        entries.len() <= usize::MAX,
    ensures
        deliver_group(archive, key, entries, group).fault is None <==> group_readable(
            archive,
            key,
            entries,
            group,
        ),
{
    let first = entries[group.first as int];
    let members = group.members@;
    assert(groups::shares_frame(entries, group.first as int, group.first as int));
    assert forall|i: int|
        0 <= i < entries.len() && #[trigger] groups::shares_frame(
            entries,
            group.first as int,
            i,
        ) implies entries[i].frame_compressed_size == first.frame_compressed_size by {}
    match frame_data(archive, key, first.frame_offset, first.frame_compressed_size) {
        Err(e) => {
            assert(!readable(archive, key, first));
        },
        Ok(data) => {
            lemma_members_end(entries, data, members);
            if deliver_members(entries, data, members).fault is None {
                assert forall|i: int|
                    0 <= i < entries.len() && #[trigger] groups::shares_frame(
                        entries,
                        group.first as int,
                        i,
                    ) implies readable(archive, key, entries[i]) by {
                    assert(members.contains(i as usize));
                    let a = choose|a: int| 0 <= a < members.len() && members[a] == i as usize;
                    assert(content_of(entries[members[a] as int], data) is Ok);
                }
            } else {
                let a = choose|a: int| #![trigger members[a]]
                    0 <= a < members.len() && content_of(
                        entries[members[a] as int],
                        data,
                    ) is Err;
                assert(groups::shares_frame(entries, group.first as int, members[a] as int));
                assert(!readable(archive, key, entries[members[a] as int]));
            }
        },
    }
}

} // verus!
