//! Paths as text, with `/` between their parts.
use crate::text::{chars_of, string_of};
use vstd::prelude::*;
use vstd::string::StringExecFns;

verus! {

/// `name` inside the directory `dir`.
pub open spec fn joined_path(dir: Seq<char>, name: Seq<char>) -> Seq<char> {
    if dir.len() == 0 || dir.last() == '/' {
        dir + name
    } else {
        dir.push('/') + name
    }
}

/// `name`, a relative name, inside the directory `dir`.
pub fn join_path(dir: &str, name: &str) -> (s: String)
    ensures
        s@ == joined_path(dir@, name@),
{
    let chars: Vec<char> = chars_of(dir);
    let mut s: String = dir.to_owned();
    if chars.len() > 0 && chars[chars.len() - 1] != '/' {
        s.push('/');
    }
    s.append(name);
    s
}

/// Where the last part of `p` begins.
pub open spec fn last_part(p: Seq<char>) -> int
    decreases p.len(),
{
    if p.len() == 0 || p.last() == '/' {
        p.len() as int
    } else {
        last_part(p.drop_last())
    }
}

/// The final name of a path: its last part, past any trailing `/` and `/.`;
/// none where the path ends in `..`, names the root, or is `.` or empty.
pub open spec fn file_name_of(p: Seq<char>) -> Option<Seq<char>>
    decreases p.len(),
{
    let at = last_part(p);
    let name = p.skip(at);
    if p.len() == 0 {
        None
    } else if p.last() == '/' {
        file_name_of(p.drop_last())
    } else if name == seq!['.'] {
        if at == 0 {
            None
        } else {
            file_name_of(p.drop_last())
        }
    } else if name == seq!['.', '.'] {
        None
    } else {
        Some(name)
    }
}

fn find_last_part(p: &Vec<char>, end: usize) -> (at: usize)
    requires
        end <= p@.len(),
    ensures
        at == last_part(p@.take(end as int)),
        at <= end,
{
    let mut i: usize = end;
    while i > 0 && p[i - 1] != '/'
        invariant
            i <= end <= p@.len(),
            last_part(p@.take(end as int)) == last_part(p@.take(i as int)),
        decreases i,
    {
        assert(p@.take(i as int).drop_last() =~= p@.take(i - 1));
        i = i - 1;
    }
    i
}

/// The final name of a path, where it has one.
pub fn file_name(path: &str) -> (r: Option<String>)
    ensures
        r is Some == file_name_of(path@) is Some,
        r is Some ==> r->0@ == file_name_of(path@)->0,
{
    let p: Vec<char> = chars_of(path);
    let mut end: usize = p.len();
    assert(p@.take(end as int) =~= path@);
    while end > 0
        invariant
            end <= p@.len(),
            file_name_of(path@) == file_name_of(p@.take(end as int)),
        decreases end,
    {
        let ghost now = p@.take(end as int);
        assert(now.drop_last() =~= p@.take(end - 1));
        if p[end - 1] == '/' {
            end = end - 1;
            continue;
        }
        let at: usize = find_last_part(&p, end);
        assert(now.skip(at as int) =~= p@.subrange(at as int, end as int));
        if end - at == 1 && p[at] == '.' {
            assert(now.skip(at as int) =~= seq!['.']);
            if at == 0 {
                return None;
            }
            end = end - 1;
            continue;
        }
        assert(now.skip(at as int) != seq!['.']) by {
            if now.skip(at as int) == seq!['.'] {
                assert(now.skip(at as int).len() == 1);
                assert(now.skip(at as int)[0] == p@[at as int]);
            }
        }
        if end - at == 2 && p[at] == '.' && p[at + 1] == '.' {
            assert(now.skip(at as int) =~= seq!['.', '.']);
            return None;
        }
        assert(now.skip(at as int) != seq!['.', '.']) by {
            if now.skip(at as int) == seq!['.', '.'] {
                assert(now.skip(at as int).len() == 2);
                assert(now.skip(at as int)[0] == p@[at as int]);
                assert(now.skip(at as int)[1] == p@[at + 1]);
            }
        }
        return Some(string_of(p.as_slice(), at, end));
    }
    None
}

/// A directory's text without what follows its last part: trailing `/` and
/// `/.`, but not a root's `/`.
pub open spec fn trimmed_dir(dir: Seq<char>) -> Seq<char>
    decreases dir.len(),
{
    if dir.len() > 1 && dir.last() == '/' {
        trimmed_dir(dir.drop_last())
    } else if dir.len() > 1 && dir.last() == '.' && dir[dir.len() - 2] == '/' {
        trimmed_dir(dir.drop_last())
    } else {
        dir
    }
}

/// The path without its last part; none for the root and the empty path.
pub open spec fn parent_of(p: Seq<char>) -> Option<Seq<char>> {
    let t = trimmed_dir(p);
    if t.len() == 0 || t == seq!['/'] {
        None
    } else {
        Some(trimmed_dir(t.take(last_part(t))))
    }
}

fn trim_dir(p: &Vec<char>, from: usize) -> (end: usize)
    requires
        from <= p@.len(),
    ensures
        end <= from,
        p@.take(end as int) == trimmed_dir(p@.take(from as int)),
{
    let mut end: usize = from;
    let ghost dir = p@.take(from as int);
    while end > 1 && (p[end - 1] == '/' || (p[end - 1] == '.' && p[end - 2] == '/'))
        invariant
            end <= from <= p@.len(),
            trimmed_dir(dir) == trimmed_dir(p@.take(end as int)),
        decreases end,
    {
        assert(p@.take(end as int).drop_last() =~= p@.take(end - 1));
        end = end - 1;
    }
    end
}

/// The path without its last part.
pub fn parent(path: &str) -> (r: Option<String>)
    ensures
        match parent_of(path@) {
            Some(dir) => r is Some && r->0@ == dir,
            None => r is None,
        },
{
    let p: Vec<char> = chars_of(path);
    assert(p@.take(p@.len() as int) =~= p@);
    let end: usize = trim_dir(&p, p.len());
    let ghost t = p@.take(end as int);
    if end == 0 {
        return None;
    }
    if end == 1 && p[0] == '/' {
        assert(t =~= seq!['/']);
        return None;
    }
    assert(t != seq!['/']) by {
        if t == seq!['/'] {
            assert(t.len() == 1 && t[0] == p@[0]);
        }
    }
    let at: usize = find_last_part(&p, end);
    assert(t.take(at as int) =~= p@.take(at as int));
    let dir: usize = trim_dir(&p, at);
    let s: String = string_of(p.as_slice(), 0, dir);
    assert(s@ =~= p@.take(dir as int));
    Some(s)
}

/// Where the final name of a path begins; the path's end where it has none.
pub open spec fn name_start(p: Seq<char>) -> int
    decreases p.len(),
{
    let at = last_part(p);
    if file_name_of(p) is None || p.len() == 0 {
        p.len() as int
    } else if p.last() == '/' || p.skip(at) == seq!['.'] {
        name_start(p.drop_last())
    } else {
        at
    }
}

/// A path with another final name: beside the old one, or inside the path
/// where it has none.
pub open spec fn with_file_name(p: Seq<char>, name: Seq<char>) -> Seq<char> {
    match file_name_of(p) {
        Some(_) => joined_path(trimmed_dir(p.take(name_start(p))), name),
        None => joined_path(p, name),
    }
}

fn find_name_start(p: &Vec<char>) -> (at: usize)
    requires
        file_name_of(p@) is Some,
    ensures
        at == name_start(p@),
        at <= p@.len(),
{
    let mut end: usize = p.len();
    assert(p@.take(end as int) =~= p@);
    while end > 0
        invariant
            end <= p@.len(),
            file_name_of(p@.take(end as int)) is Some,
            name_start(p@) == name_start(p@.take(end as int)),
        decreases end,
    {
        let ghost now = p@.take(end as int);
        assert(now.drop_last() =~= p@.take(end - 1));
        if p[end - 1] == '/' {
            end = end - 1;
            continue;
        }
        let at: usize = find_last_part(p, end);
        assert(now.skip(at as int) =~= p@.subrange(at as int, end as int));
        if end - at == 1 && p[at] == '.' {
            assert(now.skip(at as int) =~= seq!['.']);
            end = end - 1;
            continue;
        }
        assert(now.skip(at as int) != seq!['.']) by {
            if now.skip(at as int) == seq!['.'] {
                assert(now.skip(at as int).len() == 1);
                assert(now.skip(at as int)[0] == p@[at as int]);
            }
        }
        return at;
    }
    assert(false);
    0
}

/// A path with another final name.
pub fn replace_file_name(path: &str, name: &str) -> (s: String)
    ensures
        s@ == with_file_name(path@, name@),
{
    match file_name(path) {
        None => join_path(path, name),
        Some(_) => {
            let p: Vec<char> = chars_of(path);
            let start: usize = find_name_start(&p);
            let end: usize = trim_dir(&p, start);
            let parent: String = string_of(p.as_slice(), 0, end);
            assert(parent@ =~= p@.take(end as int));
            join_path(parent.as_str(), name)
        },
    }
}

/// The position of the last `.` in a name, or -1.
pub open spec fn last_dot(name: Seq<char>) -> int
    decreases name.len(),
{
    if name.len() == 0 {
        -1
    } else if name.last() == '.' {
        name.len() - 1
    } else {
        last_dot(name.drop_last())
    }
}

/// What follows the last `.` of a path's final name; none without a `.` or
/// where the only one leads the name.
pub open spec fn extension_of(p: Seq<char>) -> Option<Seq<char>> {
    match file_name_of(p) {
        Some(name) => if last_dot(name) > 0 {
            Some(name.skip(last_dot(name) + 1))
        } else {
            None
        },
        None => None,
    }
}

/// The extension of a path's final name.
pub fn extension(path: &str) -> (r: Option<String>)
    ensures
        r is Some == extension_of(path@) is Some,
        r is Some ==> r->0@ == extension_of(path@)->0,
{
    match file_name(path) {
        None => None,
        Some(name) => {
            let chars: Vec<char> = chars_of(name.as_str());
            let mut i: usize = chars.len();
            assert(name@.take(i as int) =~= name@);
            while i > 0 && chars[i - 1] != '.'
                invariant
                    i <= chars@.len(),
                    chars@ == name@,
                    last_dot(name@) == last_dot(name@.take(i as int)),
                decreases i,
            {
                assert(name@.take(i as int).drop_last() =~= name@.take(i - 1));
                i = i - 1;
            }
            if i > 1 {
                assert(name@.skip(i as int) =~= chars@.subrange(i as int, chars@.len() as int));
                Some(string_of(chars.as_slice(), i, chars.len()))
            } else {
                None
            }
        },
    }
}

// ---------------------------------------------------------------------- laws

/// A name that is one part of a path.
pub open spec fn is_part(name: Seq<char>) -> bool {
    &&& name.len() > 0
    &&& !name.contains('/')
    &&& name != seq!['.']
    &&& name != seq!['.', '.']
}

/// A directory's path without a trailing `/` or `/.`.
pub open spec fn is_tidy(dir: Seq<char>) -> bool {
    &&& dir.len() > 0
    &&& dir.last() != '/'
    &&& dir.len() > 1 && dir.last() == '.' ==> dir[dir.len() - 2] != '/'
}

proof fn lemma_last_part(dir: Seq<char>, name: Seq<char>)
    requires
        !name.contains('/'),
    ensures
        last_part(dir.push('/') + name) == dir.len() + 1,
    decreases name.len(),
{
    let p = dir.push('/') + name;
    if name.len() > 0 {
        assert(p.last() == name[name.len() - 1]);
        assert(name.contains(name[name.len() - 1]));
        assert(p.drop_last() =~= dir.push('/') + name.drop_last());
        assert forall|c: char| name.drop_last().contains(c) implies name.contains(c) by {
            let k = choose|k: int| 0 <= k < name.len() - 1 && name.drop_last()[k] == c;
            assert(name[k] == c);
        }
        lemma_last_part(dir, name.drop_last());
    } else {
        assert(p =~= dir.push('/'));
    }
}

/// A file in a directory has its name, the directory as its parent, and beside it
/// stands what gets another name.
pub proof fn law_files_stand_in_their_directory(
    dir: Seq<char>,
    name: Seq<char>,
    other: Seq<char>,
)
    requires
        is_tidy(dir),
        is_part(name),
    ensures
        joined_path(dir, name) == dir + "/"@ + name,
        file_name_of(dir + "/"@ + name) == Some(name),
        parent_of(dir + "/"@ + name) == Some(dir),
        with_file_name(dir + "/"@ + name, other) == dir + "/"@ + other,
{
    reveal_strlit("/");
    let p = dir.push('/') + name;
    assert(p =~= dir + "/"@ + name);
    lemma_last_part(dir, name);
    assert(p.skip(dir.len() as int + 1) =~= name);
    assert(p.last() == name[name.len() - 1]);
    assert(name.contains(name[name.len() - 1]));
    if name.len() == 1 {
        assert(name =~= seq![name[0]]);
    } else {
        assert(p[p.len() - 2] == name[name.len() - 2]);
        assert(name.contains(name[name.len() - 2]));
    }
    assert(trimmed_dir(p) == p);
    assert(p.take(dir.len() as int + 1) =~= dir.push('/'));
    assert(dir.push('/').drop_last() =~= dir);
    assert(trimmed_dir(dir) == dir);
    assert(trimmed_dir(dir.push('/')) == trimmed_dir(dir));
    assert(p.len() > 1);
    assert(joined_path(dir, other) =~= dir + "/"@ + other);
}

/// A file's extension is what follows the last dot of its name.
pub proof fn law_extensions_follow_the_last_dot(
    dir: Seq<char>,
    stem: Seq<char>,
    ext: Seq<char>,
)
    requires
        is_tidy(dir),
        stem.len() > 0,
        !ext.contains('.'),
        is_part(stem + "."@ + ext),
    ensures
        extension_of(dir + "/"@ + (stem + "."@ + ext)) == Some(ext),
{
    reveal_strlit(".");
    let name = stem + "."@ + ext;
    law_files_stand_in_their_directory(dir, name, name);
    assert(name =~= stem.push('.') + ext);
    lemma_last_dot(stem, ext);
    assert(name.skip(stem.len() as int + 1) =~= ext);
}

proof fn lemma_last_dot(stem: Seq<char>, ext: Seq<char>)
    requires
        !ext.contains('.'),
    ensures
        last_dot(stem.push('.') + ext) == stem.len(),
    decreases ext.len(),
{
    let name = stem.push('.') + ext;
    if ext.len() > 0 {
        assert(name.last() == ext[ext.len() - 1]);
        assert(ext.contains(ext[ext.len() - 1]));
        assert(name.drop_last() =~= stem.push('.') + ext.drop_last());
        assert forall|c: char| ext.drop_last().contains(c) implies ext.contains(c) by {
            let k = choose|k: int| 0 <= k < ext.len() - 1 && ext.drop_last()[k] == c;
            assert(ext[k] == c);
        }
        lemma_last_dot(stem, ext.drop_last());
    } else {
        assert(name =~= stem.push('.'));
    }
}

} // verus!
