//! Which passwords are accepted, and from where.

use crate::error::{Error, ErrorView, Result};
use crate::text;
use vstd::prelude::*;

verus! {

/// Where the first line break at or behind `from` is, or the end of the text.
pub open spec fn break_at(raw: Seq<char>, from: int) -> int
    decreases raw.len() - from,
{
    if from >= raw.len() {
        raw.len() as int
    } else if raw[from] == '\n' {
        from
    } else {
        break_at(raw, from + 1)
    }
}

/// The first line of a text: what stands before the first line feed, without
/// the carriage return that may precede it, or all of a text without one.
pub open spec fn first_line(raw: Seq<char>) -> Seq<char> {
    let end = break_at(raw, 0);
    if end < raw.len() && end > 0 && raw[end - 1] == '\r' {
        raw.subrange(0, end - 1)
    } else {
        raw.subrange(0, end)
    }
}

/// The password that a password file holds: its first line, which must not be
/// empty.
pub fn first_password_line(raw: &str) -> (res: Result<String>)
    ensures
        if first_line(raw@).len() == 0 {
            res matches Err(e) && e@ == ErrorView::Crypto("password file is empty"@)
        } else {
            res matches Ok(password) && password@ == first_line(raw@)
        },
{
    let chars: Vec<char> = text::chars_of(raw);
    let len: usize = chars.len();
    let mut end: usize = 0;
    while end < len && chars[end] != '\n'
        invariant
            len == chars@.len(),
            chars@ == raw@,
            end <= len,
            break_at(raw@, 0) == break_at(raw@, end as int),
        decreases len - end,
    {
        end = end + 1;
    }
    if end < len && end > 0 && chars[end - 1] == '\r' {
        end = end - 1;
    }
    if end == 0 {
        return Err(Error::Crypto(String::from_str("password file is empty")));
    }
    Ok(String::from_str(raw.substring_char(0, end)))
}

/// What is wrong with a new password that was typed in, and typed in again to
/// confirm it.
pub open spec fn new_password_fault(first: Seq<char>, again: Option<Seq<char>>) -> Option<
    Seq<char>,
> {
    if first.len() == 0 {
        Some("password must not be empty"@)
    } else {
        match again {
            Some(second) => if first != second {
                Some("passwords do not match"@)
            } else {
                None
            },
            None => None,
        }
    }
}

/// Looks at a new password that was typed in, and at its confirmation once that
/// was typed in too.
pub fn check_new_password(first: &String, again: Option<&String>) -> (fault: Option<&'static str>)
    ensures
        match new_password_fault(
            first@,
            match again {
                Some(second) => Some(second@),
                None => None,
            },
        ) {
            Some(what) => fault matches Some(x) && x@ == what,
            None => fault is None,
        },
{
    if first.as_str().unicode_len() == 0 {
        return Some("password must not be empty");
    }
    match again {
        Some(second) => if *first == *second {
            None
        } else {
            Some("passwords do not match")
        },
        None => None,
    }
}

/// The password to open an archive with, where an empty one stands for none.
pub fn provide_password(password: &str) -> (res: Result<String>)
    ensures
        if password@.len() == 0 {
            res matches Err(e) && e@ == ErrorView::PasswordRequired
        } else {
            res matches Ok(p) && p@ == password@
        },
{
    if password.unicode_len() == 0 {
        Err(Error::PasswordRequired)
    } else {
        Ok(String::from_str(password))
    }
}

/// Whether a new archive is to be encrypted: it is if there is a password, and
/// it is not empty.
pub fn wants_encryption(password: Option<&str>) -> (res: bool)
    ensures
        res == (password matches Some(p) && p@.len() > 0),
{
    match password {
        Some(p) => p.unicode_len() > 0,
        None => false,
    }
}

/// A first line holds no line feed, and the text goes on with nothing or with
/// a line break behind it.
pub proof fn law_first_line(raw: Seq<char>)
    ensures
        !first_line(raw).contains('\n'),
        first_line(raw).len() <= raw.len(),
        raw.take(first_line(raw).len() as int) == first_line(raw),
        ({
            let rest = raw.skip(first_line(raw).len() as int);
            rest.len() == 0 || rest[0] == '\n' || (rest.len() > 1 && rest[0] == '\r' && rest[1]
                == '\n')
        }),
{
    lemma_break(raw, 0);
    let end = break_at(raw, 0);
    let line = first_line(raw);
    assert(raw.take(line.len() as int) =~= line);
    assert forall|i: int| 0 <= i < line.len() implies line[i] != '\n' by {
        assert(line[i] == raw[i]);
    }
    let rest = raw.skip(line.len() as int);
    if rest.len() > 0 {
        assert(rest[0] == raw[line.len() as int]);
    }
    if rest.len() > 1 {
        assert(rest[1] == raw[line.len() as int + 1]);
    }
}

/// No line feed stands before the first.
proof fn lemma_break(raw: Seq<char>, from: int)
    requires
        0 <= from <= raw.len(),
    ensures
        from <= break_at(raw, from) <= raw.len(),
        forall|i: int| from <= i < break_at(raw, from) ==> raw[i] != '\n',
        break_at(raw, from) < raw.len() ==> raw[break_at(raw, from)] == '\n',
    decreases raw.len() - from,
{
    if from < raw.len() && raw[from] != '\n' {
        lemma_break(raw, from + 1);
    }
}

/// A new password that was typed in twice is accepted exactly if it is not empty
/// and both texts are the same; one that was typed in once, exactly if it is not
/// empty.
pub proof fn law_new_password(
    first: String,
    again: String,
    fault: Option<&'static str>,
    early: Option<&'static str>,
)
    requires
        call_ensures(check_new_password, (&first, Some(&again)), fault),
        call_ensures(check_new_password, (&first, None), early),
    ensures
        fault is None <==> first@.len() > 0 && first@ == again@,
        early is None <==> first@.len() > 0,
        first@.len() > 0 && first@ != again@ ==> (fault matches Some(text) && text@
            == "passwords do not match"@),
        first@.len() == 0 ==> (fault matches Some(text) && text@ == "password must not be empty"@),
        first@.len() == 0 ==> (early matches Some(text) && text@ == "password must not be empty"@),
{
}

/// The password of a file is what stands before its first line break: a line
/// feed, or a carriage return and a line feed. There is one exactly if the file
/// does not start with a line break, or end there.
pub proof fn law_password_file(raw: &str, res: Result<String>)
    requires
        call_ensures(first_password_line, (raw,), res),
    ensures
        match res {
            Ok(line) => {
                let n = line@.len() as int;
                &&& 0 < n <= raw@.len()
                &&& raw@.take(n) == line@
                &&& forall|i: int| 0 <= i < n ==> raw@[i] != '\n'
                &&& {
                    ||| n == raw@.len()
                    ||| raw@[n] == '\n' && raw@[n - 1] != '\r'
                    ||| n + 1 < raw@.len() && raw@[n] == '\r' && raw@[n + 1] == '\n'
                }
            },
            Err(e) => {
                &&& e@ == ErrorView::Crypto("password file is empty"@)
                &&& {
                    ||| raw@.len() == 0
                    ||| raw@[0] == '\n'
                    ||| raw@.len() > 1 && raw@[0] == '\r' && raw@[1] == '\n'
                }
            },
        },
{
    law_first_line(raw@);
    lemma_break(raw@, 0);
    let line = first_line(raw@);
    let end = break_at(raw@, 0);
    if line.len() == 0 && raw@.len() > 0 {
        assert(raw@.skip(0) =~= raw@);
    }
    assert forall|i: int| 0 <= i < line.len() implies raw@[i] != '\n' by {
        assert(line[i] == raw@[i]);
    }
    if line.len() > 0 && line.len() < raw@.len() && raw@[line.len() as int] == '\n' {
        assert(end == line.len());
    }
}

/// A password that is provided is the one that was given, and an empty one is
/// none; the same passwords ask for encryption.
pub proof fn law_given_password(password: &str, res: Result<String>, wanted: bool, without: bool)
    requires
        call_ensures(provide_password, (password,), res),
        call_ensures(wants_encryption, (Some(password),), wanted),
        call_ensures(wants_encryption, (None,), without),
    ensures
        res matches Ok(p) ==> p@ == password@ && p@.len() > 0,
        res matches Err(e) ==> e@ == ErrorView::PasswordRequired && password@.len() == 0,
        wanted == (res is Ok),
        !without,
{
}

} // verus!
