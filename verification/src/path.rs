//! Paths inside an archive: relative, with forward slashes, never climbing up.

use crate::error::{Error, ErrorView, Result};
use crate::text;
use vstd::prelude::*;

verus! {

/// Whether the characters from `start` up to `end` are one segment of a path:
/// what stands between two slashes, or between a slash and an end.
pub open spec fn is_segment(path: Seq<char>, start: int, end: int) -> bool {
    &&& 0 <= start <= end <= path.len()
    &&& start == 0 || path[start - 1] == '/'
    &&& end == path.len() || path[end] == '/'
    &&& forall|i: int| start <= i < end ==> path[i] != '/'
}

/// Whether a segment of the path is `..`.
pub open spec fn has_parent_segment(path: Seq<char>) -> bool {
    exists|start: int, end: int| #[trigger]
        is_segment(path, start, end) && path.subrange(start, end) == seq!['.', '.']
}

/// The text of the error that refuses a path, if it is refused.
pub open spec fn path_fault(path: Seq<char>) -> Option<Seq<char>> {
    if path.len() == 0 {
        Some("empty path"@)
    } else if path[0] == '/' {
        Some("absolute path: "@ + path)
    } else if path.contains('\\') {
        Some("backslash in path: "@ + path)
    } else if has_parent_segment(path) {
        Some("'..' segment in path: "@ + path)
    } else {
        None
    }
}

/// Whether `..` stands as a segment from `at` on.
fn parent_segment_at(chars: &Vec<char>, at: usize) -> (res: bool)
    requires
        at < chars@.len(),
    ensures
        res == (is_segment(chars@, at as int, at + 2) && chars@.subrange(at as int, at + 2)
            == seq!['.', '.']),
{
    let len: usize = chars.len();
    if len - at < 2 {
        return false;
    }
    let res = (at == 0 || chars[at - 1] == '/') && chars[at] == '.' && chars[at + 1] == '.' && (at
        + 2 == len || chars[at + 2] == '/');
    proof {
        let part = chars@.subrange(at as int, at + 2);
        assert(part[0] == chars@[at as int] && part[1] == chars@[at + 1]);
        if res {
            assert(part =~= seq!['.', '.']);
        }
    }
    res
}

/// Accepts a path that may be stored in an archive: not empty, not absolute,
/// without a backslash and without a `..` segment.
pub fn validate_archive_path(p: &str) -> (res: Result<()>)
    ensures
        match path_fault(p@) {
            None => res is Ok,
            Some(what) => res matches Err(e) && e@ == ErrorView::InvalidPath(what),
        },
{
    let chars: Vec<char> = text::chars_of(p);
    let len: usize = chars.len();
    if len == 0 {
        return Err(Error::InvalidPath(String::from_str("empty path")));
    }
    if chars[0] == '/' {
        return Err(Error::InvalidPath(text::joined("absolute path: ", p)));
    }
    let mut i: usize = 0;
    while i < len
        invariant
            len == chars@.len(),
            chars@ == p@,
            i <= len,
            len > 0,
            chars@[0] != '/',
            forall|j: int| 0 <= j < i ==> chars@[j] != '\\',
        decreases len - i,
    {
        if chars[i] == '\\' {
            assert(p@.contains('\\'));
            return Err(Error::InvalidPath(text::joined("backslash in path: ", p)));
        }
        i = i + 1;
    }
    assert(!p@.contains('\\'));
    let mut at: usize = 0;
    while at < len
        invariant
            len == chars@.len(),
            chars@ == p@,
            at <= len,
            len > 0,
            chars@[0] != '/',
            !p@.contains('\\'),
            forall|j: int|
                0 <= j < at ==> !(#[trigger] is_segment(p@, j, j + 2) && p@.subrange(j, j + 2)
                    == seq!['.', '.']),
        decreases len - at,
    {
        if parent_segment_at(&chars, at) {
            assert(is_segment(p@, at as int, at + 2));
            return Err(Error::InvalidPath(text::joined("'..' segment in path: ", p)));
        }
        at = at + 1;
    }
    proof {
        if has_parent_segment(p@) {
            let (start, end) = choose|start: int, end: int| #[trigger]
                is_segment(p@, start, end) && p@.subrange(start, end) == seq!['.', '.'];
            assert(p@.subrange(start, end).len() == 2);
            assert(is_segment(p@, start, start + 2));
            assert(start < len);
        }
    }
    Ok(())
}

/// An accepted path names something below the directory it is joined to: it
/// starts with no slash, holds no backslash, and none of its segments is `..`.
pub proof fn law_accepted_path_stays_below(path: Seq<char>, start: int, end: int)
    requires
        path_fault(path) is None,
        is_segment(path, start, end),
    ensures
        path.len() > 0,
        path[0] != '/',
        !path.contains('\\'),
        path.subrange(start, end) != seq!['.', '.'],
{
}

/// Whether two dots stand at `at` with nothing but slashes, or the ends, around
/// them.
pub open spec fn climbs_at(path: Seq<char>, at: int) -> bool {
    &&& 0 <= at
    &&& at + 2 <= path.len()
    &&& path[at] == '.'
    &&& path[at + 1] == '.'
    &&& at == 0 || path[at - 1] == '/'
    &&& at + 2 == path.len() || path[at + 2] == '/'
}

/// A path is accepted exactly if it is not empty, starts with no slash, holds no
/// backslash and nowhere climbs up; what is refused is named in the error.
pub proof fn law_accepted_paths(p: &str, res: Result<()>)
    requires
        call_ensures(validate_archive_path, (p,), res),
    ensures
        res is Ok <==> {
            &&& p@.len() > 0
            &&& p@[0] != '/'
            &&& forall|i: int| 0 <= i < p@.len() ==> p@[i] != '\\'
            &&& forall|at: int| !#[trigger] climbs_at(p@, at)
        },
        res matches Err(e) ==> {
            ||| p@.len() == 0 && e@ == ErrorView::InvalidPath("empty path"@)
            ||| p@.len() > 0 && p@[0] == '/' && e@ == ErrorView::InvalidPath(
                "absolute path: "@ + p@,
            )
            ||| p@.len() > 0 && p@[0] != '/' && p@.contains('\\') && e@ == ErrorView::InvalidPath(
                "backslash in path: "@ + p@,
            )
            ||| p@.len() > 0 && p@[0] != '/' && !p@.contains('\\') && e@ == ErrorView::InvalidPath(
                "'..' segment in path: "@ + p@,
            )
        },
{
    let path = p@;
    if path.contains('\\') {
        let i = choose|i: int| 0 <= i < path.len() && path[i] == '\\';
        assert(path[i] == '\\');
    } else {
        assert forall|i: int| 0 <= i < path.len() implies path[i] != '\\' by {
            assert(path.contains(path[i]));
        }
    }
    lemma_climbs(path);
}

/// A path has a `..` segment exactly if it climbs up somewhere.
pub(crate) proof fn lemma_climbs(path: Seq<char>)
    ensures
        has_parent_segment(path) <==> exists|at: int| #[trigger] climbs_at(path, at),
{
    if has_parent_segment(path) {
        let (start, end) = choose|start: int, end: int| #[trigger]
            is_segment(path, start, end) && path.subrange(start, end) == seq!['.', '.'];
        let part = path.subrange(start, end);
        assert(part.len() == 2);
        assert(part[0] == path[start] && part[1] == path[start + 1]);
        assert(climbs_at(path, start));
    }
    if exists|at: int| #[trigger] climbs_at(path, at) {
        let at = choose|at: int| #[trigger] climbs_at(path, at);
        assert(path.subrange(at, at + 2) =~= seq!['.', '.']);
        assert(is_segment(path, at, at + 2));
    }
}

} // verus!
