//! Which files share a frame, and in what order frames and files are visited.

use crate::format::EntryKind;
use crate::index;
use crate::index::{Entry, EntryView};
use std::collections::HashMap;
use vstd::prelude::*;
use vstd::std_specs::hash::*;

verus! {

/// The files of one frame: the one that comes first in the index, and all of
/// them in the order of their place in the decoded frame.
pub struct FrameGroup {
    pub first: usize,
    pub members: Vec<usize>,
}

/// Whether `i` is a file that lies in the frame of the file `first`.
pub open spec fn shares_frame(entries: Seq<EntryView>, first: int, i: int) -> bool {
    &&& entries[i].kind == EntryKind::File
    &&& entries[i].frame_offset == entries[first].frame_offset
}

/// Whether the file `i` is visited before the file `j` of the same frame.
pub open spec fn visited_before(entries: Seq<EntryView>, i: int, j: int) -> bool {
    entries[i].block_offset < entries[j].block_offset || (entries[i].block_offset
        == entries[j].block_offset && i < j)
}

/// Whether the group holds the files, among the first `count` entries, of the
/// frame that its first file lies in, each once and in their order.
pub open spec fn is_group(entries: Seq<EntryView>, count: int, group: FrameGroup) -> bool {
    &&& 0 <= group.first < count
    &&& entries[group.first as int].kind == EntryKind::File
    &&& forall|a: int| #![trigger group.members@[a]]
        0 <= a < group.members@.len() ==> group.first <= group.members@[a] < count && shares_frame(
            entries,
            group.first as int,
            group.members@[a] as int,
        )
    &&& forall|i: int| 0 <= i < count && #[trigger] shares_frame(entries, group.first as int, i)
        ==> group.members@.contains(i as usize)
    &&& forall|a: int, b: int| #![trigger group.members@[a], group.members@[b]]
        0 <= a < b < group.members@.len() ==> visited_before(
            entries,
            group.members@[a] as int,
            group.members@[b] as int,
        )
}

/// Whether the groups are those of the first `count` entries: one for each
/// frame, in the order in which the frames first appear.
pub open spec fn is_grouping(entries: Seq<EntryView>, count: int, groups: Seq<FrameGroup>) -> bool {
    &&& forall|k: int| 0 <= k < groups.len() ==> #[trigger] is_group(entries, count, groups[k])
    &&& forall|k: int, l: int| #![trigger groups[k], groups[l]]
        0 <= k < l < groups.len() ==> groups[k].first < groups[l].first
            && entries[groups[k].first as int].frame_offset
            != entries[groups[l].first as int].frame_offset
    &&& forall|i: int| #![trigger entries[i]]
        0 <= i < count && entries[i].kind == EntryKind::File ==> has_group(entries, groups, i)
}

/// Whether one of the groups is that of the frame of the file `i`.
pub open spec fn has_group(entries: Seq<EntryView>, groups: Seq<FrameGroup>, i: int) -> bool {
    exists|k: int| 0 <= k < groups.len() && #[trigger] shares_frame(
        entries,
        groups[k].first as int,
        i,
    )
}

/// Whether `known` says of every frame which group is its own.
spec fn is_lookup(
    entries: Seq<EntryView>,
    groups: Seq<FrameGroup>,
    known: Map<u64, usize>,
) -> bool {
    &&& forall|k: int| #![trigger groups[k]]
        0 <= k < groups.len() ==> known.contains_key(
            entries[groups[k].first as int].frame_offset,
        ) && known[entries[groups[k].first as int].frame_offset] == k
    &&& forall|offset: u64| #[trigger] known.contains_key(offset) ==> known[offset] < groups.len()
        && entries[groups[known[offset] as int].first as int].frame_offset == offset
}

/// Puts the file `i`, which comes behind all members in the index, into its
/// place among them.
fn insert_member(entries: &Vec<Entry>, group: &mut FrameGroup, i: usize)
    requires
        i < entries@.len(),
        is_group(index::views(entries@), i as int, *old(group)),
        shares_frame(index::views(entries@), old(group).first as int, i as int),
    ensures
        is_group(index::views(entries@), i + 1, *final(group)),
        final(group).first == old(group).first,
{
    let ghost all = index::views(entries@);
    let ghost before = group.members@;
    let mut at: usize = group.members.len();
    while at > 0 && entries[group.members[at - 1]].block_offset > entries[i].block_offset
        invariant
            i < entries@.len(),
            all == index::views(entries@),
            is_group(all, i as int, *group),
            group.members@ == before,
            at <= before.len(),
            forall|a: int| at <= a < before.len() ==> all[#[trigger] before[a] as int].block_offset
                > all[i as int].block_offset,
        decreases at,
    {
        at = at - 1;
    }
    group.members.insert(at, i);
    proof {
        assert(entries.len() == all.len());
        if at > 0 {
            assert((before[at - 1] as int) < entries@.len());
        }
        lemma_member_inserted(all, i as int, *old(group), at as int, *group);
    }
}

/// A group with a file that comes behind all its members in the index, put in
/// its place among them, is again a group.
proof fn lemma_member_inserted(
    entries: Seq<EntryView>,
    i: int,
    before: FrameGroup,
    at: int,
    after: FrameGroup,
)
    requires
        0 <= i < entries.len() <= usize::MAX,
        is_group(entries, i, before),
        shares_frame(entries, before.first as int, i),
        0 <= at <= before.members@.len(),
        after.first == before.first,
        after.members@ == before.members@.insert(at, i as usize),
        at > 0 ==> entries[before.members@[at - 1] as int].block_offset <= entries[i].block_offset,
        forall|a: int| #![trigger before.members@[a]]
            at <= a < before.members@.len() ==> entries[before.members@[a] as int].block_offset
                > entries[i].block_offset,
    ensures
        is_group(entries, i + 1, after),
{
    let s = before.members@;
    let t = after.members@;
    assert forall|a: int| #![trigger t[a]] 0 <= a < t.len() implies after.first <= t[a] < i + 1
        && shares_frame(entries, after.first as int, t[a] as int) by {
        if a < at {
            assert(t[a] == s[a]);
        } else if a > at {
            assert(t[a] == s[a - 1]);
        }
    }
    assert forall|j: int|
        0 <= j < i + 1 && #[trigger] shares_frame(
            entries,
            after.first as int,
            j,
        ) implies t.contains(j as usize) by {
        if j == i {
            assert(t[at] == i as usize);
        } else {
            assert(s.contains(j as usize));
            let a = choose|a: int| 0 <= a < s.len() && s[a] == j as usize;
            if a < at {
                assert(t[a] == s[a]);
            } else {
                assert(t[a + 1] == s[a]);
            }
        }
    }
    assert forall|a: int, b: int| #![trigger t[a], t[b]]
        0 <= a < b < t.len() implies visited_before(entries, t[a] as int, t[b] as int) by {
        let pa = if a < at {
            a
        } else {
            a - 1
        };
        let pb = if b < at {
            b
        } else {
            b - 1
        };
        if a != at {
            assert(t[a] == s[pa]);
        }
        if b != at {
            assert(t[b] == s[pb]);
        }
        if a != at && b != at {
            assert(visited_before(entries, s[pa] as int, s[pb] as int));
        } else if b == at && a < at - 1 {
            assert(visited_before(entries, s[a] as int, s[at - 1] as int));
        }
    }
}

/// A group stays one when an entry follows that is no file of its frame.
proof fn lemma_group_grows(entries: Seq<EntryView>, count: int, group: FrameGroup)
    requires
        0 <= count < entries.len(),
        is_group(entries, count, group),
        !shares_frame(entries, group.first as int, count),
    ensures
        is_group(entries, count + 1, group),
{
    assert forall|i: int|
        0 <= i < count + 1 && #[trigger] shares_frame(
            entries,
            group.first as int,
            i,
        ) implies group.members@.contains(i as usize) by {
        assert(i < count);
    }
}

/// The files of the index, frame by frame. A frame comes where the first of its
/// files stands in the index; within a frame the files come in the order of
/// their place in it, and of their place in the index where that is the same.
pub fn frame_groups(entries: &Vec<Entry>) -> (groups: Vec<FrameGroup>)
    ensures
        is_grouping(index::views(entries@), entries@.len() as int, groups@),
{
    broadcast use group_hash_axioms;

    let ghost all = index::views(entries@);
    let mut groups: Vec<FrameGroup> = Vec::new();
    let mut known: HashMap<u64, usize> = HashMap::new();
    let mut i: usize = 0;
    while i < entries.len()
        invariant
            i <= entries@.len(),
            all == index::views(entries@),
            is_grouping(all, i as int, groups@),
            is_lookup(all, groups@, known@),
        decreases entries@.len() - i,
    {
        let ghost before = groups@;
        let ghost known_before = known@;
        if entries[i].kind == EntryKind::File {
            let offset: u64 = entries[i].frame_offset;
            let place: Option<usize> = match known.get(&offset) {
                Some(k) => Some(*k),
                None => None,
            };
            match place {
                Some(k) => {
                    assert(is_group(all, i as int, before[k as int]));
                    insert_member(entries, &mut groups[k], i);
                    proof {
                        assert forall|l: int| 0 <= l < groups@.len() implies #[trigger] is_group(
                            all,
                            i + 1,
                            groups@[l],
                        ) by {
                            if l != k {
                                assert(groups@[l] == before[l]);
                                assert(is_group(all, i as int, before[l]));
                                assert(all[before[l].first as int].frame_offset
                                    != all[before[k as int].first as int].frame_offset) by {
                                    if l < k {
                                        assert(before[l].first < before[k as int].first);
                                    } else {
                                        assert(before[k as int].first < before[l].first);
                                    }
                                }
                                lemma_group_grows(all, i as int, before[l]);
                            }
                        }
                        assert forall|a: int, b: int| #![trigger groups@[a], groups@[b]]
                            0 <= a < b < groups@.len() implies groups@[a].first < groups@[b].first
                            && all[groups@[a].first as int].frame_offset
                            != all[groups@[b].first as int].frame_offset by {
                            assert(groups@[a].first == before[a].first);
                            assert(groups@[b].first == before[b].first);
                            assert(before[a].first < before[b].first);
                        }
                        assert forall|j: int| #![trigger all[j]]
                            0 <= j < i + 1 && all[j].kind == EntryKind::File implies has_group(
                            all,
                            groups@,
                            j,
                        ) by {
                            if j == i {
                                assert(shares_frame(all, groups@[k as int].first as int, j));
                            } else {
                                assert(has_group(all, before, j));
                                let l = choose|l: int| 0 <= l < before.len() && #[trigger]
                                    shares_frame(all, before[l].first as int, j);
                                assert(groups@[l].first == before[l].first);
                                assert(shares_frame(all, groups@[l].first as int, j));
                            }
                        }
                    }
                },
                None => {
                    let k: usize = groups.len();
                    let mut members: Vec<usize> = Vec::new();
                    members.push(i);
                    groups.push(FrameGroup { first: i, members });
                    known.insert(offset, k);
                    proof {
                        assert(groups@ == before.push(groups@[k as int]));
                        assert forall|l: int| 0 <= l < k implies all[(
                        #[trigger] groups@[l]).first as int].frame_offset != offset by {
                            assert(groups@[l] == before[l]);
                            assert(known_before.contains_key(
                                all[before[l].first as int].frame_offset,
                            ));
                        }
                        assert forall|l: int| 0 <= l < groups@.len() implies #[trigger] is_group(
                            all,
                            i + 1,
                            groups@[l],
                        ) by {
                            if l < k {
                                assert(groups@[l] == before[l]);
                                assert(is_group(all, i as int, before[l]));
                                lemma_group_grows(all, i as int, before[l]);
                            } else {
                                assert(groups@[l].members@ =~= seq![i]);
                                assert forall|j: int|
                                    0 <= j < i + 1 && #[trigger] shares_frame(
                                        all,
                                        i as int,
                                        j,
                                    ) implies groups@[l].members@.contains(j as usize) by {
                                    if j < i {
                                        assert(has_group(all, before, j));
                                        let m = choose|m: int| 0 <= m < before.len() && #[trigger]
                                            shares_frame(all, before[m].first as int, j);
                                        assert(groups@[m] == before[m]);
                                    } else {
                                        assert(groups@[l].members@[0] == i);
                                    }
                                }
                            }
                        }
                        assert forall|a: int, b: int| #![trigger groups@[a], groups@[b]]
                            0 <= a < b < groups@.len() implies groups@[a].first < groups@[b].first
                            && all[groups@[a].first as int].frame_offset
                            != all[groups@[b].first as int].frame_offset by {
                            assert(groups@[a] == before[a]);
                            assert(is_group(all, i as int, before[a]));
                            if b < k {
                                assert(groups@[b] == before[b]);
                                assert(before[a].first < before[b].first);
                            }
                        }
                        assert forall|j: int| #![trigger all[j]]
                            0 <= j < i + 1 && all[j].kind == EntryKind::File implies has_group(
                            all,
                            groups@,
                            j,
                        ) by {
                            if j == i {
                                assert(shares_frame(all, groups@[k as int].first as int, j));
                            } else {
                                assert(has_group(all, before, j));
                                let l = choose|l: int| 0 <= l < before.len() && #[trigger]
                                    shares_frame(all, before[l].first as int, j);
                                assert(groups@[l] == before[l]);
                                assert(shares_frame(all, groups@[l].first as int, j));
                            }
                        }
                    }
                },
            }
        } else {
            proof {
                assert forall|l: int| 0 <= l < groups@.len() implies #[trigger] is_group(
                    all,
                    i + 1,
                    groups@[l],
                ) by {
                    assert(is_group(all, i as int, before[l]));
                    lemma_group_grows(all, i as int, before[l]);
                }
            }
        }
        i = i + 1;
    }
    groups
}

/// Whether a sequence goes up in the order `lt`.
spec fn ascends(s: Seq<usize>, lt: spec_fn(usize, usize) -> bool) -> bool {
    forall|a: int, b: int| #![trigger s[a], s[b]] 0 <= a < b < s.len() ==> lt(s[a], s[b])
}

/// Two sequences that go up in the same order and have the same elements are
/// the same.
proof fn lemma_ascending_unique(
    s: Seq<usize>,
    t: Seq<usize>,
    lt: spec_fn(usize, usize) -> bool,
)
    requires
        forall|x: usize, y: usize| !(#[trigger] lt(x, y) && lt(y, x)),
        ascends(s, lt),
        ascends(t, lt),
        forall|x: usize| s.contains(x) <==> t.contains(x),
    ensures
        s == t,
    decreases s.len(),
{
    if s.len() == 0 {
        if t.len() > 0 {
            assert(t.contains(t[0]));
        }
        assert(s =~= t);
    } else {
        assert(s.contains(s[0]));
        let p = choose|p: int| 0 <= p < t.len() && t[p] == s[0];
        assert(t.contains(t[0]));
        let q = choose|q: int| 0 <= q < s.len() && s[q] == t[0];
        assert(s[0] == t[0]) by {
            if p > 0 {
                assert(lt(t[0], t[p]));
                if q > 0 {
                    assert(lt(s[0], s[q]));
                }
            }
        }
        let u = s.drop_first();
        let v = t.drop_first();
        assert(ascends(u, lt)) by {
            assert forall|a: int, b: int| #![trigger u[a], u[b]] 0 <= a < b < u.len() implies lt(
                u[a],
                u[b],
            ) by {
                assert(u[a] == s[a + 1] && u[b] == s[b + 1]);
            }
        }
        assert(ascends(v, lt)) by {
            assert forall|a: int, b: int| #![trigger v[a], v[b]] 0 <= a < b < v.len() implies lt(
                v[a],
                v[b],
            ) by {
                assert(v[a] == t[a + 1] && v[b] == t[b + 1]);
            }
        }
        lemma_tail_elements(s, t, lt);
        lemma_tail_elements(t, s, lt);
        lemma_ascending_unique(u, v, lt);
        assert(s =~= seq![s[0]] + u);
        assert(t =~= seq![t[0]] + v);
    }
}

/// Without its first element, an ascending sequence has what another with the
/// same elements has without it.
proof fn lemma_tail_elements(s: Seq<usize>, t: Seq<usize>, lt: spec_fn(usize, usize) -> bool)
    requires
        forall|x: usize, y: usize| !(#[trigger] lt(x, y) && lt(y, x)),
        ascends(s, lt),
        s.len() > 0,
        t.len() > 0,
        s[0] == t[0],
        forall|x: usize| s.contains(x) <==> t.contains(x),
    ensures
        forall|x: usize| s.drop_first().contains(x) ==> t.drop_first().contains(x),
{
    let u = s.drop_first();
    let v = t.drop_first();
    assert forall|x: usize| u.contains(x) implies v.contains(x) by {
        let a = choose|a: int| 0 <= a < u.len() && u[a] == x;
        assert(s[a + 1] == x);
        assert(lt(s[0], s[a + 1]));
        assert(s.contains(x));
        assert(t.contains(x));
        let b = choose|b: int| 0 <= b < t.len() && t[b] == x;
        if b == 0 {
            assert(lt(x, x));
        }
        assert(v[b - 1] == x);
    }
}

/// The first files of the groups.
pub open spec fn firsts(groups: Seq<FrameGroup>) -> Seq<usize> {
    Seq::new(groups.len(), |k: int| groups[k].first)
}

/// Whether no file before `i` shares its frame.
spec fn leads(entries: Seq<EntryView>, i: int) -> bool {
    &&& 0 <= i < entries.len()
    &&& entries[i].kind == EntryKind::File
    &&& forall|j: int| 0 <= j < i ==> !#[trigger] shares_frame(entries, i, j)
}

/// The first files of groups are the files that no other of their frame
/// precedes.
proof fn lemma_firsts(entries: Seq<EntryView>, groups: Seq<FrameGroup>)
    requires
        is_grouping(entries, entries.len() as int, groups),
        entries.len() <= usize::MAX,
    ensures
        forall|x: usize| firsts(groups).contains(x) <==> #[trigger] leads(entries, x as int),
        ascends(firsts(groups), |x: usize, y: usize| x < y),
{
    let heads = firsts(groups);
    assert forall|x: usize| heads.contains(x) implies #[trigger] leads(entries, x as int) by {
        let k = choose|k: int| 0 <= k < heads.len() && heads[k] == x;
        assert(is_group(entries, entries.len() as int, groups[k]));
        assert forall|j: int| 0 <= j < x implies !#[trigger] shares_frame(entries, x as int, j) by {
            if shares_frame(entries, x as int, j) {
                assert(groups[k].members@.contains(j as usize));
                let a = choose|a: int|
                    0 <= a < groups[k].members@.len() && groups[k].members@[a] == j as usize;
                assert(groups[k].first <= groups[k].members@[a]);
            }
        }
    }
    assert forall|x: usize| #[trigger] leads(entries, x as int) implies heads.contains(x) by {
        let i = x as int;
        assert(entries[i].kind == EntryKind::File);
        assert(has_group(entries, groups, i));
        let k = choose|k: int| 0 <= k < groups.len() && #[trigger] shares_frame(
            entries,
            groups[k].first as int,
            i,
        );
        assert(is_group(entries, entries.len() as int, groups[k]));
        assert(groups[k].members@.contains(x));
        let a = choose|a: int| 0 <= a < groups[k].members@.len() && groups[k].members@[a] == x;
        assert(groups[k].first <= groups[k].members@[a]);
        if groups[k].first < x {
            assert(shares_frame(entries, i, groups[k].first as int));
        }
        assert(heads[k] == x);
    }
    assert forall|a: int, b: int| #![trigger heads[a], heads[b]]
        0 <= a < b < heads.len() implies heads[a] < heads[b] by {
        assert(groups[a].first < groups[b].first);
    }
}

/// The entries alone decide which groups there are, in what order they come,
/// and in what order their members do.
pub proof fn law_grouping_unique(
    entries: Seq<EntryView>,
    groups: Seq<FrameGroup>,
    others: Seq<FrameGroup>,
)
    requires
        is_grouping(entries, entries.len() as int, groups),
        is_grouping(entries, entries.len() as int, others),
        entries.len() <= usize::MAX,
    ensures
        groups.len() == others.len(),
        forall|k: int| #![trigger groups[k]] #![trigger others[k]]
            0 <= k < groups.len() ==> groups[k].first == others[k].first && groups[k].members@
                == others[k].members@,
{
    let up = |x: usize, y: usize| x < y;
    lemma_firsts(entries, groups);
    lemma_firsts(entries, others);
    assert forall|x: usize| firsts(groups).contains(x) <==> firsts(others).contains(x) by {
        assert(firsts(groups).contains(x) == leads(entries, x as int));
        assert(firsts(others).contains(x) == leads(entries, x as int));
    }
    lemma_ascending_unique(firsts(groups), firsts(others), up);
    assert forall|k: int| #![trigger groups[k]] #![trigger others[k]]
        0 <= k < groups.len() implies groups[k].first == others[k].first && groups[k].members@
        == others[k].members@ by {
        assert(firsts(groups)[k] == firsts(others)[k]);
        let s = groups[k].members@;
        let t = others[k].members@;
        assert(is_group(entries, entries.len() as int, groups[k]));
        assert(is_group(entries, entries.len() as int, others[k]));
        let lt = |x: usize, y: usize| visited_before(entries, x as int, y as int);
        assert forall|x: usize| s.contains(x) implies t.contains(x) by {
            let a = choose|a: int| 0 <= a < s.len() && s[a] == x;
            assert(shares_frame(entries, others[k].first as int, s[a] as int));
        }
        assert forall|x: usize| t.contains(x) implies s.contains(x) by {
            let a = choose|a: int| 0 <= a < t.len() && t[a] == x;
            assert(shares_frame(entries, groups[k].first as int, t[a] as int));
        }
        assert(ascends(s, lt));
        assert(ascends(t, lt));
        lemma_ascending_unique(s, t, lt);
    }
}

} // verus!
