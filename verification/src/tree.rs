//! Trees of files: what goes into an archive, and what comes out of it again.

use crate::archive;
use crate::assembly;
use crate::assembly::Added;
use crate::extract;
use crate::extract::Delivery;
use crate::format::{EncryptionHeaderView, EntryKind, Header};
use crate::index::EntryView;
use crate::listing;
use crate::listing::RestoreView;
use crate::naming;
use crate::naming::PartView;
use vstd::prelude::*;

verus! {

/// Something in a tree of files.
pub enum Node {
    Dir,
    Link(Seq<char>),
    File(Seq<u8>),
}

/// Something in a tree of files, and where it is.
pub struct Item {
    pub path: Seq<char>,
    pub node: Node,
}

/// What an entry with this content stands for.
pub open spec fn item_of(e: EntryView, content: Seq<u8>) -> Item {
    Item {
        path: e.path,
        node: match e.kind {
            EntryKind::Dir => Node::Dir,
            EntryKind::Symlink => Node::Link(e.target_text()),
            EntryKind::File => Node::File(content),
        },
    }
}

/// What was added, as items of a tree.
pub open spec fn items_of(added: Seq<Added>) -> Seq<Item> {
    Seq::new(added.len(), |i: int| item_of(added[i].account, added[i].content))
}

/// Whether `dir` is the path of a directory above `path`.
pub open spec fn is_above(dir: Seq<char>, path: Seq<char>) -> bool {
    &&& 0 < dir.len() < path.len()
    &&& path[dir.len() as int] == '/'
    &&& dir == path.take(dir.len() as int)
}

/// Whether something is at `path`, or below it.
pub open spec fn reaches(items: Seq<Item>, path: Seq<char>) -> bool {
    exists|i: int| 0 <= i < items.len() && #[trigger] leads_through(items[i], path)
}

/// Whether an item is at `path`, or below it.
pub open spec fn leads_through(item: Item, path: Seq<char>) -> bool {
    item.path == path || is_above(path, item.path)
}

/// Whether an item is at `path`.
pub open spec fn is_at(item: Item, path: Seq<char>) -> bool {
    item.path == path
}

/// What is at `path`: the item that is there, or a directory.
pub open spec fn node_at(items: Seq<Item>, path: Seq<char>) -> Node {
    if exists|i: int| 0 <= i < items.len() && #[trigger] is_at(items[i], path) {
        let i = choose|i: int| 0 <= i < items.len() && #[trigger] is_at(items[i], path);
        items[i].node
    } else {
        Node::Dir
    }
}

/// The tree of these items, and of the directories above them.
pub open spec fn tree_of(items: Seq<Item>) -> Map<Seq<char>, Node> {
    Map::new(|path: Seq<char>| reaches(items, path), |path: Seq<char>| node_at(items, path))
}

/// Whether items can stand in one tree: no two at the same place, and only
/// directories above others.
pub open spec fn is_coherent(items: Seq<Item>) -> bool {
    &&& forall|i: int, j: int| #![trigger items[i], items[j]]
        0 <= i < j < items.len() ==> items[i].path != items[j].path
    &&& forall|i: int, j: int| #![trigger items[i], items[j]]
        0 <= i < items.len() && 0 <= j < items.len() && is_above(items[i].path, items[j].path)
            ==> items[i].node == Node::Dir
}

/// A tree once an item is made in it, with the directories above it where they
/// were not there.
pub open spec fn made(tree: Map<Seq<char>, Node>, item: Item) -> Map<Seq<char>, Node> {
    Map::new(
        |path: Seq<char>| leads_through(item, path) || tree.dom().contains(path),
        |path: Seq<char>|
            if path == item.path {
                item.node
            } else if tree.dom().contains(path) {
                tree[path]
            } else {
                Node::Dir
            },
    )
}

/// The directories and the links of an archive, made one after the other.
pub open spec fn first_pass(entries: Seq<EntryView>) -> Map<Seq<char>, Node>
    decreases entries.len(),
{
    if entries.len() == 0 {
        Map::empty()
    } else {
        let tree = first_pass(entries.drop_last());
        let e = entries.last();
        match listing::restore_of(e) {
            RestoreView::MakeDir => made(tree, Item { path: e.path, node: Node::Dir }),
            RestoreView::MakeLink(target) => made(
                tree,
                Item { path: e.path, node: Node::Link(target) },
            ),
            RestoreView::Later => tree,
        }
    }
}

/// A tree with the files that a walk hands out made in it.
pub open spec fn second_pass(
    tree: Map<Seq<char>, Node>,
    entries: Seq<EntryView>,
    files: Seq<(int, Seq<u8>)>,
) -> Map<Seq<char>, Node>
    decreases files.len(),
{
    if files.len() == 0 {
        tree
    } else {
        made(
            second_pass(tree, entries, files.drop_last()),
            Item { path: entries[files.last().0].path, node: Node::File(files.last().1) },
        )
    }
}

/// What restoring an archive into an empty directory leaves there.
pub open spec fn restored(entries: Seq<EntryView>, files: Seq<(int, Seq<u8>)>) -> Map<
    Seq<char>,
    Node,
> {
    second_pass(first_pass(entries), entries, files)
}

/// Whether a tree holds nothing but what the tree of the items holds.
spec fn is_part(tree: Map<Seq<char>, Node>, items: Seq<Item>) -> bool {
    forall|path: Seq<char>| #[trigger]
        tree.dom().contains(path) ==> reaches(items, path) && tree[path] == node_at(items, path)
}

/// An item is what is at its place.
proof fn lemma_node_at(items: Seq<Item>, i: int)
    requires
        is_coherent(items),
        0 <= i < items.len(),
    ensures
        node_at(items, items[i].path) == items[i].node,
        reaches(items, items[i].path),
        forall|path: Seq<char>|
            is_above(path, items[i].path) ==> #[trigger] node_at(items, path) == Node::Dir,
{
    let path = items[i].path;
    assert(is_at(items[i], path));
    let k = choose|k: int| 0 <= k < items.len() && #[trigger] is_at(items[k], path);
    assert(k == i) by {
        if k < i {
            assert(items[k].path != items[i].path);
        } else if k > i {
            assert(items[i].path != items[k].path);
        }
    }
    assert(leads_through(items[i], path));
    assert forall|path: Seq<char>| is_above(path, items[i].path) implies #[trigger] node_at(
        items,
        path,
    ) == Node::Dir by {
        if exists|j: int| 0 <= j < items.len() && #[trigger] is_at(items[j], path) {
            let j = choose|j: int| 0 <= j < items.len() && #[trigger] is_at(items[j], path);
            assert(is_above(items[j].path, items[i].path));
        }
    }
}

/// Making one of the items keeps a tree a part of theirs, and nothing that was
/// there goes.
proof fn lemma_made(tree: Map<Seq<char>, Node>, items: Seq<Item>, i: int)
    requires
        is_coherent(items),
        is_part(tree, items),
        0 <= i < items.len(),
    ensures
        is_part(made(tree, items[i]), items),
        made(tree, items[i]).dom().contains(items[i].path),
        forall|path: Seq<char>| #[trigger]
            is_above(path, items[i].path) ==> made(tree, items[i]).dom().contains(path),
        tree.dom().subset_of(made(tree, items[i]).dom()),
{
    let after = made(tree, items[i]);
    lemma_node_at(items, i);
    assert forall|path: Seq<char>| #[trigger] after.dom().contains(path) implies reaches(
        items,
        path,
    ) && after[path] == node_at(items, path) by {
        if leads_through(items[i], path) {
            assert(reaches(items, path));
        }
    }
    assert(leads_through(items[i], items[i].path));
    assert forall|path: Seq<char>| #[trigger] is_above(path, items[i].path) implies
        after.dom().contains(path) by {
        assert(leads_through(items[i], path));
    }
}

/// Whether an item, and what is above it, stands in a tree.
spec fn stands(tree: Map<Seq<char>, Node>, item: Item) -> bool {
    forall|path: Seq<char>| #[trigger] leads_through(item, path) ==> tree.dom().contains(path)
}

/// After the first pass the directories and the links stand.
proof fn lemma_first_pass(entries: Seq<EntryView>, items: Seq<Item>, count: int)
    requires
        is_coherent(items),
        items.len() == entries.len(),
        0 <= count <= entries.len(),
        forall|i: int| #![trigger items[i]]
            0 <= i < items.len() ==> items[i] == item_of(
                entries[i],
                match items[i].node {
                    Node::File(content) => content,
                    _ => Seq::empty(),
                },
            ),
    ensures
        is_part(first_pass(entries.take(count)), items),
        forall|i: int| #![trigger items[i]]
            0 <= i < count && entries[i].kind != EntryKind::File ==> stands(
                first_pass(entries.take(count)),
                items[i],
            ),
    decreases count,
{
    if count > 0 {
        let i = count - 1;
        let tree = first_pass(entries.take(i));
        let after = first_pass(entries.take(count));
        lemma_first_pass(entries, items, i);
        assert(entries.take(count).drop_last() =~= entries.take(i));
        assert(entries.take(count).last() == entries[i]);
        assert(items[i].path == entries[i].path);
        if entries[i].kind != EntryKind::File {
            lemma_made(tree, items, i);
            assert(after == made(tree, items[i]));
        }
        assert forall|k: int| #![trigger items[k]]
            0 <= k < count && entries[k].kind != EntryKind::File implies stands(
            after,
            items[k],
        ) by {
            if k < i {
                assert(stands(tree, items[k]));
            }
        }
    }
}

/// After the second pass the files stand too.
proof fn lemma_second_pass(
    tree: Map<Seq<char>, Node>,
    entries: Seq<EntryView>,
    items: Seq<Item>,
    files: Seq<(int, Seq<u8>)>,
)
    requires
        is_coherent(items),
        is_part(tree, items),
        items.len() == entries.len(),
        forall|a: int| #![trigger files[a]]
            0 <= a < files.len() ==> 0 <= files[a].0 < items.len() && items[files[a].0] == (Item {
                path: entries[files[a].0].path,
                node: Node::File(files[a].1),
            }),
    ensures
        is_part(second_pass(tree, entries, files), items),
        tree.dom().subset_of(second_pass(tree, entries, files).dom()),
        forall|a: int| #![trigger files[a]]
            0 <= a < files.len() ==> stands(
                second_pass(tree, entries, files),
                items[files[a].0],
            ),
    decreases files.len(),
{
    if files.len() > 0 {
        let fewer = files.drop_last();
        let before = second_pass(tree, entries, fewer);
        let after = second_pass(tree, entries, files);
        let last = files[files.len() - 1];
        assert forall|a: int| #![trigger fewer[a]] 0 <= a < fewer.len() implies 0 <= fewer[a].0
            < items.len() && items[fewer[a].0] == (Item {
            path: entries[fewer[a].0].path,
            node: Node::File(fewer[a].1),
        }) by {
            assert(fewer[a] == files[a]);
        }
        lemma_second_pass(tree, entries, items, fewer);
        lemma_made(before, items, last.0);
        assert forall|a: int| #![trigger files[a]] 0 <= a < files.len() implies stands(
            after,
            items[files[a].0],
        ) by {
            if a < fewer.len() {
                assert(fewer[a] == files[a]);
            }
        }
    }
}

/// Restoring a finished archive into an empty directory gives back what was
/// added to it: the same paths, the same kind of thing at each of them, the same
/// bytes in each file and the same target in each link. Besides there are only
/// the directories above them, whether these were added or not.
pub proof fn law_tree_comes_back(
    archive: Seq<u8>,
    head: (Header, Option<EncryptionHeaderView>),
    key: Option<Seq<u8>>,
    entries: Seq<EntryView>,
    added: Seq<Added>,
    d: Delivery,
)
    requires
        archive::is_archive(archive, head, key, entries, assembly::contents_of(added)),
        assembly::accounts(entries) == assembly::accounts_of(added),
        extract::is_delivery(archive, key, entries, d),
        entries.len() <= usize::MAX,
        is_coherent(items_of(added)),
    ensures
        d.fault is None,
        restored(entries, d.files) == tree_of(items_of(added)),
{
    let items = items_of(added);
    let contents = assembly::contents_of(added);
    assert(assembly::accounts(entries).len() == entries.len());
    assert(assembly::accounts_of(added).len() == added.len());
    assert forall|i: int| 0 <= i < entries.len() implies #[trigger] items[i] == item_of(
        entries[i],
        contents[i],
    ) by {
        assert(assembly::accounts(entries)[i] == assembly::account(entries[i]));
        assert(assembly::accounts_of(added)[i] == added[i].account);
        assert(added[i].account.target_text() == entries[i].target_text());
    }
    archive::law_walk_gives_every_file(archive, head, key, entries, contents, d);
    let tree = first_pass(entries);
    assert(entries.take(entries.len() as int) =~= entries);
    lemma_first_pass(entries, items, entries.len() as int);
    assert forall|a: int| #![trigger d.files[a]] 0 <= a < d.files.len() implies 0 <= d.files[a].0
        < items.len() && items[d.files[a].0] == (Item {
        path: entries[d.files[a].0].path,
        node: Node::File(d.files[a].1),
    }) by {
        let i = d.files[a].0;
        assert(items[i] == item_of(entries[i], contents[i]));
    }
    lemma_second_pass(tree, entries, items, d.files);
    let after = restored(entries, d.files);
    assert forall|path: Seq<char>| reaches(items, path) implies #[trigger] after.dom().contains(
        path,
    ) by {
        let i = choose|i: int| 0 <= i < items.len() && #[trigger] leads_through(items[i], path);
        if entries[i].kind == EntryKind::File {
            assert(archive::served(d.files, i));
            let a = choose|a: int| 0 <= a < d.files.len() && #[trigger] d.files[a].0 == i;
            assert(stands(after, items[d.files[a].0]));
        } else {
            assert(stands(tree, items[i]));
        }
    }
    assert(after =~= tree_of(items));
}

/// Something that lies below a root, by the names that lead to it; none for the
/// root itself.
pub struct Found {
    pub below: Seq<PartView>,
    pub node: Node,
}

/// Whether a directory is found under these names.
pub open spec fn has_dir(found: Seq<Found>, below: Seq<PartView>) -> bool {
    exists|k: int| 0 <= k < found.len() && #[trigger] is_dir_at(found[k], below)
}

/// Whether this is the directory under these names.
pub open spec fn is_dir_at(f: Found, below: Seq<PartView>) -> bool {
    f.below == below && f.node == Node::Dir
}

/// Whether this is all of a tree, in any order: each thing once, under names
/// that may stand in an archive, and with each thing the directories that hold
/// it.
pub open spec fn is_whole(found: Seq<Found>) -> bool {
    &&& forall|k: int, l: int| #![trigger found[k], found[l]]
        0 <= k < l < found.len() ==> found[k].below != found[l].below
    &&& forall|k: int| #![trigger found[k]]
        0 <= k < found.len() ==> all_portable(found[k].below) && all_held(found, found[k].below)
}

/// Whether all of these names may stand in an archive.
pub open spec fn all_portable(below: Seq<PartView>) -> bool {
    forall|i: int| 0 <= i < below.len() ==> #[trigger] naming::is_portable(below[i])
}

/// Whether each directory on the way to a thing is found.
pub open spec fn all_held(found: Seq<Found>, below: Seq<PartView>) -> bool {
    forall|m: int| 0 <= m < below.len() ==> #[trigger] has_dir(found, below.take(m))
}

/// The path of something below a root in an archive of the root.
pub open spec fn path_below(root: Seq<PartView>, below: Seq<PartView>) -> Seq<char> {
    match naming::name_of(root, root + below) {
        Ok(name) => name,
        Err(_) => Seq::empty(),
    }
}

/// The items that go into an archive of a root.
pub open spec fn items_below(root: Seq<PartView>, found: Seq<Found>) -> Seq<Item> {
    Seq::new(
        found.len(),
        |k: int| Item { path: path_below(root, found[k].below), node: found[k].node },
    )
}

/// A directory above joined names is some of the first of them, joined.
proof fn lemma_above_is_front(dir: Seq<char>, parts: Seq<PartView>) -> (m: int)
    requires
        parts.len() > 0,
        forall|i: int| 0 <= i < parts.len() ==> #[trigger] naming::is_name(parts[i]),
        naming::slashed(parts) is Some,
        is_above(dir, naming::slashed(parts)->Some_0),
    ensures
        0 < m < parts.len(),
        naming::slashed(parts.take(m)) == Some(dir),
    decreases parts.len(),
{
    let fewer = parts.drop_last();
    let front = naming::slashed(fewer)->Some_0;
    let text = vstd::utf8::decode_utf8(parts.last().name);
    let path = naming::slashed(parts)->Some_0;
    let at = dir.len() as int;
    assert(naming::is_name(parts[parts.len() - 1]));
    assert forall|i: int| 0 <= i < text.len() implies text[i] != '/' by {
        assert(text.contains(text[i]));
    }
    assert forall|i: int| 0 <= i < fewer.len() implies #[trigger] naming::is_name(fewer[i]) by {
        assert(naming::is_name(parts[i]));
    }
    if fewer.len() == 0 {
        assert(fewer =~= Seq::empty());
        assert(path == text);
        0
    } else {
        naming::lemma_joined_names(fewer);
        assert(path == front + seq!['/'] + text);
        if at > front.len() {
            assert(path[at] == text[at - front.len() - 1]);
        }
        if at == front.len() {
            assert(dir =~= front);
            assert(parts.take(parts.len() - 1) =~= fewer);
            parts.len() - 1
        } else {
            assert(front[at] == path[at]);
            assert(front.take(at) =~= path.take(at));
            let m = lemma_above_is_front(dir, fewer);
            assert(fewer.take(m) =~= parts.take(m));
            m
        }
    }
}

/// A directory above something below a root is found too.
proof fn lemma_above_is_found(root: Seq<PartView>, found: Seq<Found>, j: int, dir: Seq<char>) -> (k:
    int)
    requires
        root.len() > 0,
        naming::is_portable(root.last()),
        is_whole(found),
        0 <= j < found.len(),
        is_above(dir, path_below(root, found[j].below)),
    ensures
        0 <= k < found.len(),
        path_below(root, found[k].below) == dir,
        found[k].node == Node::Dir,
{
    let below = found[j].below;
    let top = seq![root.last()];
    let parts = top + below;
    assert(all_portable(below) && all_held(found, below));
    naming::law_names_are_accepted(root, below);
    assert forall|i: int| 0 <= i < parts.len() implies #[trigger] naming::is_name(parts[i]) by {
        if i > 0 {
            assert(parts[i] == below[i - 1]);
            assert(naming::is_portable(below[i - 1]));
        }
    }
    let m = lemma_above_is_front(dir, parts);
    assert(has_dir(found, below.take(m - 1)));
    let k = choose|k: int| 0 <= k < found.len() && #[trigger] is_dir_at(found[k], below.take(m - 1));
    assert(all_portable(found[k].below));
    naming::law_names_are_accepted(root, found[k].below);
    assert(parts.take(m) =~= top + below.take(m - 1));
    k
}

/// Different things below a root have different paths.
proof fn lemma_paths_differ(root: Seq<PartView>, found: Seq<Found>, k: int, l: int)
    requires
        root.len() > 0,
        naming::is_portable(root.last()),
        is_whole(found),
        0 <= k < found.len(),
        0 <= l < found.len(),
        k != l,
    ensures
        path_below(root, found[k].below) != path_below(root, found[l].below),
{
    let (a, b) = (found[k].below, found[l].below);
    assert(a != b) by {
        if k < l {
            assert(found[k].below != found[l].below);
        } else {
            assert(found[l].below != found[k].below);
        }
    }
    assert(all_portable(a) && all_portable(b));
    naming::law_names_are_accepted(root, a);
    naming::law_names_are_accepted(root, b);
    assert forall|i: int| 0 <= i < a.len() implies #[trigger] naming::is_name(a[i]) by {
        assert(naming::is_portable(a[i]));
    }
    assert forall|i: int| 0 <= i < b.len() implies #[trigger] naming::is_name(b[i]) by {
        assert(naming::is_portable(b[i]));
    }
    naming::law_names_are_distinct(root, a, b);
}

/// A whole tree makes items that can stand in one tree.
proof fn lemma_whole_is_coherent(root: Seq<PartView>, found: Seq<Found>)
    requires
        root.len() > 0,
        naming::is_portable(root.last()),
        is_whole(found),
    ensures
        is_coherent(items_below(root, found)),
{
    let items = items_below(root, found);
    assert forall|i: int, j: int| #![trigger items[i], items[j]]
        0 <= i < j < items.len() implies items[i].path != items[j].path by {
        lemma_paths_differ(root, found, i, j);
    }
    assert forall|i: int, j: int| #![trigger items[i], items[j]]
        0 <= i < items.len() && 0 <= j < items.len() && is_above(
            items[i].path,
            items[j].path,
        ) implies items[i].node == Node::Dir by {
        let k = lemma_above_is_found(root, found, j, items[i].path);
        if k != i {
            lemma_paths_differ(root, found, k, i);
        }
    }
}

/// A directory tree that is archived and restored comes back whole, named like
/// its root: everything that was found is there under its path, with its kind,
/// its bytes or its target, and nothing else is.
pub proof fn law_directory_comes_back(
    root: Seq<PartView>,
    found: Seq<Found>,
    archive: Seq<u8>,
    head: (Header, Option<EncryptionHeaderView>),
    key: Option<Seq<u8>>,
    entries: Seq<EntryView>,
    added: Seq<Added>,
    d: Delivery,
)
    requires
        root.len() > 0,
        naming::is_portable(root.last()),
        is_whole(found),
        items_of(added) == items_below(root, found),
        archive::is_archive(archive, head, key, entries, assembly::contents_of(added)),
        assembly::accounts(entries) == assembly::accounts_of(added),
        extract::is_delivery(archive, key, entries, d),
        entries.len() <= usize::MAX,
    ensures
        d.fault is None,
        ({
            let tree = restored(entries, d.files);
            &&& forall|k: int| #![trigger found[k]]
                0 <= k < found.len() ==> {
                    let path = path_below(root, found[k].below);
                    tree.dom().contains(path) && tree[path] == found[k].node
                }
            &&& forall|path: Seq<char>| #[trigger]
                tree.dom().contains(path) ==> is_found(root, found, path)
        }),
{
    let items = items_below(root, found);
    lemma_whole_is_coherent(root, found);
    law_tree_comes_back(archive, head, key, entries, added, d);
    let tree = restored(entries, d.files);
    assert(tree == tree_of(items));
    assert forall|k: int| #![trigger found[k]] 0 <= k < found.len() implies ({
        let path = path_below(root, found[k].below);
        tree.dom().contains(path) && tree[path] == found[k].node
    }) by {
        lemma_node_at(items, k);
        assert(items[k].path == path_below(root, found[k].below));
    }
    assert forall|path: Seq<char>| #[trigger] tree.dom().contains(path) implies is_found(
        root,
        found,
        path,
    ) by {
        let i = choose|i: int| 0 <= i < items.len() && #[trigger] leads_through(items[i], path);
        if items[i].path == path {
            assert(has_path(root, found[i], path));
        } else {
            let k = lemma_above_is_found(root, found, i, path);
            assert(has_path(root, found[k], path));
        }
    }
}

/// Whether something is found that has this path in an archive of the root.
pub open spec fn is_found(root: Seq<PartView>, found: Seq<Found>, path: Seq<char>) -> bool {
    exists|k: int| 0 <= k < found.len() && #[trigger] has_path(root, found[k], path)
}

/// Whether this has the path in an archive of the root.
pub open spec fn has_path(root: Seq<PartView>, f: Found, path: Seq<char>) -> bool {
    path_below(root, f.below) == path
}

} // verus!
