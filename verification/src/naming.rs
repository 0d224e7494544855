//! The name under which a file of the file system goes into an archive.

use crate::path;
use vstd::prelude::*;
use vstd::utf8::*;

verus! {

/// What a component of a path of the file system is.
#[derive(Debug, Clone, Copy, PartialEq, Eq, Structural)]
pub enum PartKind {
    Prefix,
    RootDir,
    CurDir,
    ParentDir,
    Normal,
}

/// One component of a path of the file system, with the bytes it is written
/// with.
#[derive(Debug)]
pub struct PathPart {
    pub kind: PartKind,
    pub name: Vec<u8>,
}

/// A [`PathPart`] with its bytes as a sequence.
pub struct PartView {
    pub kind: PartKind,
    pub name: Seq<u8>,
}

impl View for PathPart {
    type V = PartView;

    open spec fn view(&self) -> PartView {
        PartView { kind: self.kind, name: self.name@ }
    }
}

/// Why a path of the file system has no name in an archive.
#[derive(Debug, Clone, Copy, PartialEq, Eq, Structural)]
pub enum NamingFault {
    /// The root that was asked for does not end in a name.
    NoFileName,
    /// The path is not below the directory that holds the root.
    NotBelow,
    /// A component is not UTF-8.
    NotUtf8,
}

/// The components with their bytes as sequences.
pub open spec fn parts_view(parts: Seq<PathPart>) -> Seq<PartView> {
    Seq::new(parts.len(), |i: int| parts[i]@)
}

/// The components of the directory that holds a path: all but the last, unless
/// that is a root or a prefix; none where nothing holds it.
pub open spec fn parent_of(path: Seq<PartView>) -> Seq<PartView> {
    if path.len() > 0 && path.last().kind != PartKind::RootDir && path.last().kind
        != PartKind::Prefix {
        path.drop_last()
    } else {
        Seq::empty()
    }
}

/// The components of `entry` that stand in an archive made of `root`: the file
/// name of the root itself, and for what is below it the path from the
/// directory that holds the root.
pub open spec fn relative(root: Seq<PartView>, entry: Seq<PartView>) -> core::result::Result<
    Seq<PartView>,
    NamingFault,
> {
    if root == entry {
        if root.len() > 0 && root.last().kind == PartKind::Normal {
            Ok(seq![root.last()])
        } else {
            Err(NamingFault::NoFileName)
        }
    } else if parent_of(root).is_prefix_of(entry) {
        Ok(entry.skip(parent_of(root).len() as int))
    } else {
        Err(NamingFault::NotBelow)
    }
}

/// A name with one more component behind it, a slash between the two.
pub open spec fn with_part(name: Seq<char>, part: Seq<char>) -> Seq<char> {
    if name.len() == 0 {
        part
    } else {
        name + seq!['/'] + part
    }
}

/// The components joined by slashes, if all of them are UTF-8.
pub open spec fn slashed(parts: Seq<PartView>) -> Option<Seq<char>>
    decreases parts.len(),
{
    if parts.len() == 0 {
        Some(Seq::empty())
    } else {
        match slashed(parts.drop_last()) {
            None => None,
            Some(name) => if valid_utf8(parts.last().name) {
                Some(with_part(name, decode_utf8(parts.last().name)))
            } else {
                None
            },
        }
    }
}

/// The name of `entry` in an archive made of `root`.
pub open spec fn name_of(root: Seq<PartView>, entry: Seq<PartView>) -> core::result::Result<
    Seq<char>,
    NamingFault,
> {
    match relative(root, entry) {
        Err(fault) => Err(fault),
        Ok(parts) => match slashed(parts) {
            Some(name) => Ok(name),
            None => Err(NamingFault::NotUtf8),
        },
    }
}

/// Whether two runs of bytes are the same.
fn same_bytes(a: &Vec<u8>, b: &Vec<u8>) -> (res: bool)
    ensures
        res == (a@ == b@),
{
    if a.len() != b.len() {
        return false;
    }
    let mut i: usize = 0;
    while i < a.len()
        invariant
            a@.len() == b@.len(),
            i <= a@.len(),
            forall|j: int| 0 <= j < i ==> a@[j] == b@[j],
        decreases a@.len() - i,
    {
        if a[i] != b[i] {
            return false;
        }
        i = i + 1;
    }
    assert(a@ =~= b@);
    true
}

/// Whether the first `count` components of two paths are the same.
fn same_start(a: &Vec<PathPart>, b: &Vec<PathPart>, count: usize) -> (res: bool)
    requires
        count <= a@.len(),
        count <= b@.len(),
    ensures
        res == (parts_view(a@).take(count as int) == parts_view(b@).take(count as int)),
{
    let ghost s = parts_view(a@).take(count as int);
    let ghost t = parts_view(b@).take(count as int);
    let mut i: usize = 0;
    while i < count
        invariant
            i <= count,
            count <= a@.len(),
            count <= b@.len(),
            s == parts_view(a@).take(count as int),
            t == parts_view(b@).take(count as int),
            forall|j: int| 0 <= j < i ==> s[j] == t[j],
        decreases count - i,
    {
        let same = a[i].kind == b[i].kind && same_bytes(&a[i].name, &b[i].name);
        assert(s[i as int] == a@[i as int]@ && t[i as int] == b@[i as int]@);
        if !same {
            return false;
        }
        i = i + 1;
    }
    assert(s =~= t);
    true
}

/// The components from `start` on, joined by slashes.
fn join_from(parts: &Vec<PathPart>, start: usize) -> (res: Option<String>)
    requires
        start <= parts@.len(),
    ensures
        match slashed(parts_view(parts@).skip(start as int)) {
            Some(name) => res matches Some(s) && s@ == name,
            None => res is None,
        },
{
    let ghost all = parts_view(parts@).skip(start as int);
    let mut name = String::new();
    let mut i: usize = start;
    proof {
        assert(all.take(0) =~= Seq::empty());
        assert(name@ =~= Seq::empty());
    }
    while i < parts.len()
        invariant
            start <= i <= parts@.len(),
            all == parts_view(parts@).skip(start as int),
            slashed(all.take(i - start)) == Some(name@),
        decreases parts@.len() - i,
    {
        let ghost next = all.take(i + 1 - start);
        proof {
            assert(next.drop_last() =~= all.take(i - start));
            assert(next.last() == parts@[i as int]@);
        }
        let bytes: Vec<u8> = vstd::slice::slice_to_vec(parts[i].name.as_slice());
        let part = match String::from_utf8(bytes) {
            Ok(part) => part,
            Err(_) => {
                proof {
                    lemma_slashed_prefix(all, i + 1 - start);
                }
                return None;
            },
        };
        if name.as_str().unicode_len() > 0 {
            name.append("/");
            proof {
                reveal_strlit("/");
                assert("/"@ =~= seq!['/']);
            }
            name.append(part.as_str());
        } else {
            name = part;
        }
        i = i + 1;
    }
    assert(all.take(i - start) =~= all);
    Some(name)
}

/// Components that cannot be joined cannot be joined with more behind them
/// either.
proof fn lemma_slashed_prefix(parts: Seq<PartView>, count: int)
    requires
        0 <= count <= parts.len(),
        slashed(parts.take(count)) is None,
    ensures
        slashed(parts) is None,
    decreases parts.len() - count,
{
    if count < parts.len() {
        assert(parts.take(count + 1).drop_last() =~= parts.take(count));
        lemma_slashed_prefix(parts, count + 1);
    } else {
        assert(parts.take(count) =~= parts);
    }
}

/// The name of `entry` in an archive made of `root`. Roots become the top of
/// the archive: with the root `foo/bar` the names are `bar/...`, and a single
/// file is stored under just its file name.
pub fn archive_path(root: &Vec<PathPart>, entry: &Vec<PathPart>) -> (res: core::result::Result<
    String,
    NamingFault,
>)
    ensures
        match name_of(parts_view(root@), parts_view(entry@)) {
            Ok(name) => res matches Ok(s) && s@ == name,
            Err(fault) => res == Err::<String, NamingFault>(fault),
        },
{
    let ghost r = parts_view(root@);
    let ghost e = parts_view(entry@);
    let count: usize = root.len();
    let same = count == entry.len() && same_start(root, entry, count);
    proof {
        assert(r.take(count as int) =~= r);
        if count == e.len() {
            assert(e.take(count as int) =~= e);
        }
    }
    if same {
        if count == 0 || root[count - 1].kind != PartKind::Normal {
            return Err(NamingFault::NoFileName);
        }
        assert(r.skip(count - 1) =~= seq![r.last()]);
        return match join_from(root, count - 1) {
            Some(name) => Ok(name),
            None => Err(NamingFault::NotUtf8),
        };
    }
    let mut held: usize = 0;
    if count > 0 && root[count - 1].kind != PartKind::RootDir && root[count - 1].kind
        != PartKind::Prefix {
        held = count - 1;
    }
    let ghost parent = parent_of(r);
    assert(parent =~= r.take(held as int));
    if held > entry.len() || !same_start(root, entry, held) {
        assert(!parent.is_prefix_of(e)) by {
            if held <= e.len() && parent.is_prefix_of(e) {
                assert(e.take(held as int) =~= parent);
            }
        }
        return Err(NamingFault::NotBelow);
    }
    assert(parent.is_prefix_of(e)) by {
        assert(parent == e.take(held as int));
    }
    match join_from(entry, held) {
        Some(name) => Ok(name),
        None => Err(NamingFault::NotUtf8),
    }
}

/// What is below a root goes under the name of the root: its name is that of
/// the root, a slash, and the components behind the root's.
pub proof fn law_below_root(root: Seq<PartView>, below: Seq<PartView>)
    requires
        root.len() > 0,
        root.last().kind == PartKind::Normal,
        root.last().name.len() > 0,
        below.len() > 0,
        forall|i: int| 0 <= i < below.len() ==> (#[trigger] below[i]).name.len() > 0,
    ensures
        match (name_of(root, root), slashed(below)) {
            (Ok(top), Some(rest)) => name_of(root, root + below) == Ok::<Seq<char>, NamingFault>(
                top + seq!['/'] + rest,
            ),
            _ => name_of(root, root + below) == Err::<Seq<char>, NamingFault>(
                NamingFault::NotUtf8,
            ),
        },
{
    let entry = root + below;
    assert(root.len() != entry.len());
    assert(parent_of(root).is_prefix_of(entry)) by {
        assert(entry.take(parent_of(root).len() as int) =~= parent_of(root));
    }
    let parts = entry.skip(parent_of(root).len() as int);
    assert(parts =~= seq![root.last()] + below);
    lemma_slashed_join(root.last(), below);
}

/// A component that is not empty has a text that is not empty.
proof fn lemma_part_text(name: Seq<u8>)
    requires
        valid_utf8(name),
        name.len() > 0,
    ensures
        decode_utf8(name).len() > 0,
{
    decode_utf8_encode_utf8(name);
    if decode_utf8(name).len() == 0 {
        assert(encode_utf8(decode_utf8(name)).len() == 0);
    }
}

/// Joining one component and more.
proof fn lemma_slashed_join(first: PartView, rest: Seq<PartView>)
    requires
        first.name.len() > 0,
        forall|i: int| 0 <= i < rest.len() ==> (#[trigger] rest[i]).name.len() > 0,
    ensures
        match (slashed(seq![first]), slashed(rest)) {
            (Some(top), Some(name)) => {
                &&& slashed(seq![first] + rest) == Some(
                    if rest.len() == 0 {
                        top
                    } else {
                        top + seq!['/'] + name
                    },
                )
                &&& top.len() > 0
                &&& rest.len() > 0 ==> name.len() > 0
            },
            _ => slashed(seq![first] + rest) is None,
        },
    decreases rest.len(),
{
    let one = seq![first];
    assert(one.drop_last() =~= Seq::empty());
    assert(one.last() == first);
    reveal_with_fuel(slashed, 2);
    if valid_utf8(first.name) {
        lemma_part_text(first.name);
    }
    if rest.len() == 0 {
        assert(one + rest =~= one);
    } else {
        let fewer = rest.drop_last();
        let last = rest.last();
        assert(last == rest[rest.len() - 1]);
        assert forall|i: int| 0 <= i < fewer.len() implies (#[trigger] fewer[i]).name.len() > 0 by {
            assert(fewer[i] == rest[i]);
        }
        lemma_slashed_join(first, fewer);
        assert((one + rest).drop_last() =~= one + fewer);
        assert((one + rest).last() == last);
        if valid_utf8(last.name) {
            lemma_part_text(last.name);
            if let (Some(top), Some(name)) = (slashed(one), slashed(fewer)) {
                let text = decode_utf8(last.name);
                if fewer.len() > 0 {
                    assert(top + seq!['/'] + name + seq!['/'] + text =~= top + seq!['/'] + (name
                        + seq!['/'] + text));
                } else {
                    assert(fewer =~= Seq::empty());
                }
            }
        }
    }
}

/// Whether a component is the UTF-8 name of a file or a directory: not empty,
/// not `..`, and without a slash.
pub open spec fn is_name(part: PartView) -> bool {
    let chars = decode_utf8(part.name);
    &&& part.kind == PartKind::Normal
    &&& valid_utf8(part.name)
    &&& chars.len() > 0
    &&& chars != seq!['.', '.']
    &&& !chars.contains('/')
}

/// Whether a component is such a name and holds no backslash either.
pub open spec fn is_portable(part: PartView) -> bool {
    is_name(part) && !decode_utf8(part.name).contains('\\')
}

/// Names joined by slashes start with no slash, and none of their segments is
/// `..`.
pub(crate) proof fn lemma_joined_names(parts: Seq<PartView>)
    requires
        parts.len() > 0,
        forall|i: int| 0 <= i < parts.len() ==> #[trigger] is_name(parts[i]),
    ensures
        slashed(parts) matches Some(name) && {
            &&& name.len() > 0
            &&& name[0] != '/'
            &&& !path::has_parent_segment(name)
            &&& (forall|i: int| 0 <= i < parts.len() ==> #[trigger] is_portable(parts[i]))
                ==> !name.contains('\\')
        },
    decreases parts.len(),
{
    let fewer = parts.drop_last();
    let last = parts.last();
    let text = decode_utf8(last.name);
    assert(is_name(parts[parts.len() - 1]));
    assert forall|i: int| 0 <= i < fewer.len() implies #[trigger] is_name(fewer[i]) by {
        assert(is_name(parts[i]));
    }
    assert forall|i: int| 0 <= i < text.len() implies text[i] != '/' by {
        assert(text.contains(text[i]));
    }
    if fewer.len() == 0 {
        assert(fewer =~= Seq::empty());
        assert(slashed(fewer) == Some(Seq::<char>::empty()));
        lemma_no_segment();
        lemma_last_segment(Seq::empty(), text);
    } else {
        lemma_joined_names(fewer);
        lemma_last_segment(slashed(fewer)->Some_0, text);
    }
    let front = slashed(fewer)->Some_0;
    let name = slashed(parts)->Some_0;
    if forall|i: int| 0 <= i < parts.len() ==> #[trigger] is_portable(parts[i]) {
        assert(is_portable(parts[parts.len() - 1]));
        assert forall|i: int| 0 <= i < fewer.len() implies #[trigger] is_portable(fewer[i]) by {
            assert(is_portable(parts[i]));
        }
        if name.contains('\\') {
            let i = choose|i: int| 0 <= i < name.len() && name[i] == '\\';
            if fewer.len() == 0 {
                assert(text[i] == '\\');
            } else if i < front.len() {
                assert(front[i] == '\\');
            } else if i > front.len() {
                assert(text[i - front.len() - 1] == '\\');
            }
        }
    }
}

/// The empty path has no `..` segment.
proof fn lemma_no_segment()
    ensures
        !path::has_parent_segment(Seq::empty()),
{
    let none = Seq::<char>::empty();
    if path::has_parent_segment(none) {
        let (start, end) = choose|start: int, end: int| #[trigger]
            path::is_segment(none, start, end) && none.subrange(start, end) == seq!['.', '.'];
        assert(none.subrange(start, end).len() == 2);
    }
}

/// One more name behind a path brings no `..` segment in.
proof fn lemma_last_segment(front: Seq<char>, text: Seq<char>)
    requires
        !path::has_parent_segment(front),
        text != seq!['.', '.'],
        forall|i: int| 0 <= i < text.len() ==> text[i] != '/',
    ensures
        !path::has_parent_segment(with_part(front, text)),
{
    let name = with_part(front, text);
    if path::has_parent_segment(name) {
        let (start, end) = choose|start: int, end: int| #[trigger]
            path::is_segment(name, start, end) && name.subrange(start, end) == seq!['.', '.'];
        assert(name.subrange(start, end).len() == 2);
        if front.len() == 0 {
            if start > 0 {
                assert(text[start - 1] == '/');
            }
            if end < name.len() {
                assert(text[end] == '/');
            }
            assert(name.subrange(start, end) =~= text);
        } else {
            let n = front.len() as int;
            assert(name[n] == '/');
            if end <= n {
                assert(path::is_segment(front, start, end));
                assert(front.subrange(start, end) =~= name.subrange(start, end));
            } else if start <= n {
                assert(name[n] != '/');
            } else {
                if start > n + 1 {
                    assert(text[start - n - 2] == '/');
                }
                if end < name.len() {
                    assert(text[end - n - 1] == '/');
                }
                assert(name.subrange(start, end) =~= text);
            }
        }
    }
}

/// What `root` and the names below it lead to is a path that may stand in an
/// archive, as long as no name holds a backslash: it is the name of the root and
/// the names below it, joined by slashes.
pub proof fn law_names_are_accepted(root: Seq<PartView>, below: Seq<PartView>)
    requires
        root.len() > 0,
        is_portable(root.last()),
        forall|i: int| 0 <= i < below.len() ==> #[trigger] is_portable(below[i]),
    ensures
        name_of(root, root + below) matches Ok(name) && {
            &&& path::path_fault(name) is None
            &&& slashed(seq![root.last()] + below) == Some(name)
        },
{
    let parts = seq![root.last()] + below;
    lemma_relative(root, below);
    assert forall|i: int| 0 <= i < parts.len() implies #[trigger] is_portable(parts[i]) by {
        if i > 0 {
            assert(parts[i] == below[i - 1]);
        }
    }
    assert forall|i: int| 0 <= i < parts.len() implies #[trigger] is_name(parts[i]) by {
        assert(is_portable(parts[i]));
    }
    lemma_joined_names(parts);
}

/// What stands in an archive of something below a root.
proof fn lemma_relative(root: Seq<PartView>, below: Seq<PartView>)
    requires
        root.len() > 0,
        root.last().kind == PartKind::Normal,
    ensures
        relative(root, root + below) == Ok::<Seq<PartView>, NamingFault>(
            seq![root.last()] + below,
        ),
{
    let entry = root + below;
    if below.len() == 0 {
        assert(entry =~= root);
        assert(seq![root.last()] + below =~= seq![root.last()]);
    } else {
        assert(root.len() != entry.len());
        assert(entry.take(parent_of(root).len() as int) =~= parent_of(root));
        assert(parent_of(root).is_prefix_of(entry));
        assert(entry.skip(parent_of(root).len() as int) =~= seq![root.last()] + below);
    }
}

/// Names that are joined to the same text are the same names.
proof fn lemma_join_is_injective(a: Seq<PartView>, b: Seq<PartView>)
    requires
        forall|i: int| 0 <= i < a.len() ==> #[trigger] is_name(a[i]),
        forall|i: int| 0 <= i < b.len() ==> #[trigger] is_name(b[i]),
        slashed(a) == slashed(b),
    ensures
        a == b,
    decreases a.len() + b.len(),
{
    if a.len() > 0 {
        lemma_joined_names(a);
    }
    if b.len() > 0 {
        lemma_joined_names(b);
    }
    if a.len() > 0 && b.len() > 0 {
        let (fa, fb) = (a.drop_last(), b.drop_last());
        let (ta, tb) = (decode_utf8(a.last().name), decode_utf8(b.last().name));
        assert(is_name(a[a.len() - 1]) && is_name(b[b.len() - 1]));
        assert forall|i: int| 0 <= i < fa.len() implies #[trigger] is_name(fa[i]) by {
            assert(is_name(a[i]));
        }
        assert forall|i: int| 0 <= i < fb.len() implies #[trigger] is_name(fb[i]) by {
            assert(is_name(b[i]));
        }
        if fa.len() > 0 {
            lemma_joined_names(fa);
        }
        if fb.len() > 0 {
            lemma_joined_names(fb);
        }
        lemma_split_at_last_slash(slashed(fa)->Some_0, ta, slashed(fb)->Some_0, tb);
        lemma_join_is_injective(fa, fb);
        decode_utf8_encode_utf8(a.last().name);
        decode_utf8_encode_utf8(b.last().name);
        assert(a.last() == b.last());
        assert(a =~= fa.push(a.last()));
        assert(b =~= fb.push(b.last()));
    } else {
        assert(a =~= b);
    }
}

/// The last component of a path is what stands behind its last slash.
proof fn lemma_split_at_last_slash(
    front: Seq<char>,
    text: Seq<char>,
    other_front: Seq<char>,
    other: Seq<char>,
)
    requires
        !text.contains('/'),
        !other.contains('/'),
        text.len() > 0,
        other.len() > 0,
        with_part(front, text) == with_part(other_front, other),
    ensures
        front == other_front,
        text == other,
{
    let name = with_part(front, text);
    let at: int = if front.len() == 0 {
        0
    } else {
        front.len() as int + 1
    };
    let other_at: int = if other_front.len() == 0 {
        0
    } else {
        other_front.len() as int + 1
    };
    let twin = with_part(other_front, other);
    assert(name.skip(at) =~= text);
    assert(twin.skip(other_at) =~= other);
    if at < other_at {
        assert(twin[other_at - 1] == '/');
        assert(name.skip(at)[other_at - 1 - at] == '/');
    } else if other_at < at {
        assert(name[at - 1] == '/');
        assert(twin.skip(other_at)[at - 1 - other_at] == '/');
    }
    assert(at == other_at);
    if at > 0 {
        assert(front =~= name.take(at - 1));
        assert(other_front =~= name.take(at - 1));
    } else {
        assert(front =~= other_front);
    }
}

/// Different files below a root have different names in an archive.
pub proof fn law_names_are_distinct(root: Seq<PartView>, a: Seq<PartView>, b: Seq<PartView>)
    requires
        root.len() > 0,
        is_name(root.last()),
        forall|i: int| 0 <= i < a.len() ==> #[trigger] is_name(a[i]),
        forall|i: int| 0 <= i < b.len() ==> #[trigger] is_name(b[i]),
        a != b,
    ensures
        name_of(root, root + a) != name_of(root, root + b),
{
    let pa = seq![root.last()] + a;
    let pb = seq![root.last()] + b;
    lemma_relative(root, a);
    lemma_relative(root, b);
    assert forall|i: int| 0 <= i < pa.len() implies #[trigger] is_name(pa[i]) by {
        if i > 0 {
            assert(pa[i] == a[i - 1]);
        }
    }
    assert forall|i: int| 0 <= i < pb.len() implies #[trigger] is_name(pb[i]) by {
        if i > 0 {
            assert(pb[i] == b[i - 1]);
        }
    }
    lemma_joined_names(pa);
    lemma_joined_names(pb);
    if slashed(pa) == slashed(pb) {
        lemma_join_is_injective(pa, pb);
        assert(pa.skip(1) =~= a);
        assert(pb.skip(1) =~= b);
    }
}

/// A root goes into an archive under its file name alone, and what lies one step
/// below something goes under the name of that, a slash, and its own name.
pub proof fn law_names_step_by_step(
    root: Vec<PathPart>,
    entry: Vec<PathPart>,
    next: Vec<PathPart>,
    top: core::result::Result<String, NamingFault>,
    upper: core::result::Result<String, NamingFault>,
    lower: core::result::Result<String, NamingFault>,
)
    requires
        call_ensures(archive_path, (&root, &root), top),
        call_ensures(archive_path, (&root, &entry), upper),
        call_ensures(archive_path, (&root, &next), lower),
        root@.len() > 0,
        parts_view(root@).is_prefix_of(parts_view(entry@)),
        parts_view(next@).drop_last() == parts_view(entry@),
        next@.len() == entry@.len() + 1,
        root@.last().kind == PartKind::Normal,
        root@.last().name@.len() > 0,
        forall|i: int| 0 <= i < next@.len() ==> (#[trigger] next@[i]).name@.len() > 0,
    ensures
        if valid_utf8(root@.last().name@) {
            top matches Ok(s) && s@ == decode_utf8(root@.last().name@)
        } else {
            top == Err::<String, NamingFault>(NamingFault::NotUtf8)
        },
        match upper {
            Ok(above) => if valid_utf8(next@.last().name@) {
                lower matches Ok(s) && s@ == above@ + seq!['/'] + decode_utf8(next@.last().name@)
            } else {
                lower == Err::<String, NamingFault>(NamingFault::NotUtf8)
            },
            Err(fault) => fault == NamingFault::NotUtf8 && lower == upper,
        },
{
    let (r, e, n) = (parts_view(root@), parts_view(entry@), parts_view(next@));
    let below = e.skip(r.len() as int);
    let further = n.skip(r.len() as int);
    assert(r + below =~= e);
    assert(n.take(e.len() as int) =~= e);
    assert(r + further =~= n);
    assert(r.last() == root@.last()@);
    assert(r + Seq::empty() =~= r);
    lemma_relative(r, Seq::empty());
    lemma_relative(r, below);
    lemma_relative(r, further);
    let one = seq![r.last()];
    assert(one + Seq::empty() =~= one);
    assert(one.drop_last() =~= Seq::empty());
    assert(slashed(one.drop_last()) == Some(Seq::<char>::empty()));
    let (upper_parts, lower_parts) = (one + below, one + further);
    assert(lower_parts.drop_last() =~= upper_parts);
    assert(lower_parts.last() == next@.last()@);
    assert forall|i: int| 0 <= i < below.len() implies (#[trigger] below[i]).name.len() > 0 by {
        assert(below[i] == n[r.len() + i]);
        assert(n[r.len() + i] == next@[r.len() + i]@);
    }
    lemma_slashed_join(r.last(), below);
    if below.len() == 0 {
        assert(upper_parts =~= one);
    }
}

/// A root without a file name, and what does not lie below the directory that
/// holds the root, have no name.
pub proof fn law_no_name_outside(
    root: Vec<PathPart>,
    entry: Vec<PathPart>,
    res: core::result::Result<String, NamingFault>,
)
    requires
        call_ensures(archive_path, (&root, &entry), res),
    ensures
        parts_view(root@) == parts_view(entry@) && (root@.len() == 0 || root@.last().kind
            != PartKind::Normal) ==> res == Err::<String, NamingFault>(NamingFault::NoFileName),
        parts_view(root@) != parts_view(entry@) && root@.len() > 0 && root@.last().kind
            == PartKind::Normal && !parts_view(root@).drop_last().is_prefix_of(
            parts_view(entry@),
        ) ==> res == Err::<String, NamingFault>(NamingFault::NotBelow),
{
    let r = parts_view(root@);
    if root@.len() > 0 {
        assert(r.last() == root@.last()@);
    }
}

/// A component is told by its kind and its bytes as they are.
pub proof fn law_part_is_told_as_it_is(p: PathPart)
    ensures
        p@.kind == p.kind,
        p@.name == p.name@,
{
}

} // verus!
