//! Paths as text, with `/` between their components.

use crate::text;
use vstd::prelude::*;

verus! {

/// A path without the separators, and the `.` components, that it ends in.
pub open spec fn bare(path: Seq<char>) -> Seq<char>
    decreases path.len(),
{
    if path.len() > 0 && path[path.len() - 1] == '/' {
        bare(path.take(path.len() - 1))
    } else if path.len() > 1 && path[path.len() - 1] == '.' && path[path.len() - 2] == '/' {
        bare(path.take(path.len() - 1))
    } else {
        path
    }
}

/// Where the last component of a path starts.
pub open spec fn name_start(path: Seq<char>) -> int
    decreases path.len(),
{
    if path.len() == 0 || path[path.len() - 1] == '/' {
        path.len() as int
    } else {
        name_start(path.take(path.len() - 1))
    }
}

/// Where the last dot of a name is, or -1.
pub open spec fn last_dot(name: Seq<char>) -> int
    decreases name.len(),
{
    if name.len() == 0 {
        -1
    } else if name[name.len() - 1] == '.' {
        name.len() - 1
    } else {
        last_dot(name.take(name.len() - 1))
    }
}

/// The last component of a path, unless it names no file.
pub open spec fn file_name(path: Seq<char>) -> Option<Seq<char>> {
    let whole = bare(path);
    let name = whole.skip(name_start(whole));
    if name.len() == 0 || name == seq!['.'] || name == seq!['.', '.'] {
        None
    } else {
        Some(name)
    }
}

/// A file name without its extension. A dot that starts the name starts no extension.
pub open spec fn stem(name: Seq<char>) -> Seq<char> {
    if last_dot(name) <= 0 {
        name
    } else {
        name.take(last_dot(name))
    }
}

/// What follows the last dot of a path's file name.
pub open spec fn extension(path: Seq<char>) -> Option<Seq<char>> {
    match file_name(path) {
        Some(name) => if last_dot(name) <= 0 {
            None
        } else {
            Some(name.skip(last_dot(name) + 1))
        },
        None => None,
    }
}

/// The folder a path sits in; none for a root or an empty path.
pub open spec fn parent(path: Seq<char>) -> Option<Seq<char>> {
    let whole = bare(path);
    let rest = whole.take(name_start(whole));
    if whole.len() == 0 {
        None
    } else if rest.len() > 0 && bare(rest).len() == 0 {
        Some(seq!['/'])
    } else {
        Some(bare(rest))
    }
}

/// A path looked up from a folder. One that starts at the root stays as it is.
pub open spec fn joined(dir: Seq<char>, name: Seq<char>) -> Seq<char> {
    if dir.len() == 0 || (name.len() > 0 && name[0] == '/') {
        name
    } else if dir[dir.len() - 1] == '/' {
        dir + name
    } else {
        dir.push('/') + name
    }
}

/// A path whose file name ends in `extension` in place of the extension it has.
pub open spec fn with_extension(path: Seq<char>, extension: Seq<char>) -> Seq<char> {
    let whole = bare(path);
    match file_name(path) {
        Some(name) => whole.take(name_start(whole)) + stem(name).push('.') + extension,
        None => path,
    }
}

proof fn lemma_bounds(path: Seq<char>)
    ensures
        bare(path).len() <= path.len(),
        0 <= name_start(path) <= path.len(),
        -1 <= last_dot(path) < path.len(),
        bare(path) == path.take(bare(path).len() as int),
    decreases path.len(),
{
    if path.len() > 0 {
        let shorter = path.take(path.len() - 1);
        lemma_bounds(shorter);
        if path[path.len() - 1] == '/' || (path.len() > 1 && path[path.len() - 1] == '.'
            && path[path.len() - 2] == '/') {
            assert(shorter.take(bare(shorter).len() as int) =~= path.take(
                bare(shorter).len() as int,
            ));
        } else {
            assert(path.take(path.len() as int) =~= path);
        }
    } else {
        assert(path.take(0) =~= path);
    }
}

fn bare_len(chars: &Vec<char>, end: usize) -> (len: usize)
    requires
        end <= chars@.len(),
    ensures
        len <= end,
        len == bare(chars@.take(end as int)).len(),
        bare(chars@.take(end as int)) == chars@.take(len as int),
{
    let ghost whole = bare(chars@.take(end as int));
    let mut len: usize = end;
    while len > 0 && (chars[len - 1] == '/' || (len > 1 && chars[len - 1] == '.' && chars[len - 2]
        == '/'))
        invariant
            len <= end <= chars@.len(),
            whole == bare(chars@.take(len as int)),
        decreases len,
    {
        assert(chars@.take(len as int).take(len - 1) =~= chars@.take(len - 1));
        len -= 1;
    }
    len
}

fn start_of_name(chars: &Vec<char>, end: usize) -> (start: usize)
    requires
        end <= chars@.len(),
    ensures
        start <= end,
        start == name_start(chars@.take(end as int)),
{
    let mut start: usize = end;
    while start > 0 && chars[start - 1] != '/'
        invariant
            start <= end <= chars@.len(),
            name_start(chars@.take(end as int)) == name_start(chars@.take(start as int)),
        decreases start,
    {
        assert(chars@.take(start as int).take(start - 1) =~= chars@.take(start - 1));
        start -= 1;
    }
    start
}

/// Where a path's file name lies, if it has one.
fn name_range(chars: &Vec<char>) -> (range: Option<(usize, usize)>)
    ensures
        match range {
            Some((start, end)) => {
                &&& start < end <= chars@.len()
                &&& bare(chars@) == chars@.take(end as int)
                &&& start == name_start(bare(chars@))
                &&& file_name(chars@) == Some(chars@.subrange(start as int, end as int))
            },
            None => file_name(chars@) is None,
        },
{
    assert(chars@.take(chars@.len() as int) =~= chars@);
    let end: usize = bare_len(chars, chars.len());
    let start: usize = start_of_name(chars, end);
    let ghost name = chars@.subrange(start as int, end as int);
    assert(chars@.take(end as int).skip(start as int) =~= name);
    if start == end {
        return None;
    }
    if end - start == 1 && chars[start] == '.' {
        assert(name =~= seq!['.']);
        return None;
    }
    if end - start == 2 && chars[start] == '.' && chars[start + 1] == '.' {
        assert(name =~= seq!['.', '.']);
        return None;
    }
    proof {
        if name == seq!['.'] {
            assert(name[0] == '.');
        }
        if name == seq!['.', '.'] {
            assert(name[0] == '.' && name[1] == '.');
        }
    }
    Some((start, end))
}

/// Where the extension of a file name starts, if it has one.
fn dot_in(chars: &Vec<char>, start: usize, end: usize) -> (dot: Option<usize>)
    requires
        start <= end <= chars@.len(),
    ensures
        match dot {
            Some(at) => {
                &&& start < at < end
                &&& last_dot(chars@.subrange(start as int, end as int)) == at - start
            },
            None => last_dot(chars@.subrange(start as int, end as int)) <= 0,
        },
{
    let ghost name = chars@.subrange(start as int, end as int);
    let mut at: usize = end;
    while start < at && chars[at - 1] != '.'
        invariant
            start <= at <= end <= chars@.len(),
            last_dot(name) == last_dot(chars@.subrange(start as int, at as int)),
        decreases at,
    {
        let ghost now = chars@.subrange(start as int, at as int);
        assert(now.take(now.len() - 1) =~= chars@.subrange(start as int, at - 1));
        at -= 1;
    }
    if at - start <= 1 {
        None
    } else {
        Some(at - 1)
    }
}

/// The last component of a path, unless it names no file.
pub fn file_name_of(path: &str) -> (name: Option<String>)
    ensures
        text::option_view(name) == file_name(path@),
{
    let chars: Vec<char> = text::chars_of(path);
    match name_range(&chars) {
        Some((start, end)) => Some(text::text_between(&chars, start, end)),
        None => None,
    }
}

/// What follows the last dot of a path's file name.
pub fn extension_of(path: &str) -> (out: Option<String>)
    ensures
        text::option_view(out) == extension(path@),
{
    let chars: Vec<char> = text::chars_of(path);
    match name_range(&chars) {
        Some((start, end)) => match dot_in(&chars, start, end) {
            Some(dot) => {
                let ghost name = chars@.subrange(start as int, end as int);
                assert(name.skip(dot - start + 1) =~= chars@.subrange(dot + 1, end as int));
                Some(text::text_between(&chars, dot + 1, end))
            },
            None => None,
        },
        None => None,
    }
}

/// Whether a path's extension is `wanted`, whatever its case.
pub fn has_extension(path: &str, wanted: &str) -> (yes: bool)
    ensures
        yes == (extension(path@) matches Some(found) && text::same_letters(found, wanted@)),
{
    match extension_of(path) {
        Some(found) => text::eq_ignore_ascii_case(found.as_str(), wanted),
        None => false,
    }
}

/// The folder a path sits in; none for a root or an empty path.
pub fn parent_of(path: &str) -> (out: Option<String>)
    ensures
        text::option_view(out) == parent(path@),
{
    let chars: Vec<char> = text::chars_of(path);
    assert(chars@.take(chars@.len() as int) =~= chars@);
    let end: usize = bare_len(&chars, chars.len());
    if end == 0 {
        return None;
    }
    let start: usize = start_of_name(&chars, end);
    assert(chars@.take(end as int).take(start as int) =~= chars@.take(start as int));
    let kept: usize = bare_len(&chars, start);
    if start > 0 && kept == 0 {
        let mut root: String = String::new();
        root.push('/');
        assert(root@ =~= seq!['/']);
        return Some(root);
    }
    assert(chars@.subrange(0, kept as int) =~= chars@.take(kept as int));
    Some(text::text_between(&chars, 0, kept))
}

/// A path looked up from a folder. One that starts at the root stays as it is.
pub fn join(dir: &str, name: &str) -> (out: String)
    ensures
        out@ == joined(dir@, name@),
{
    let folder: Vec<char> = text::chars_of(dir);
    let chars: Vec<char> = text::chars_of(name);
    if folder.len() == 0 || (chars.len() > 0 && chars[0] == '/') {
        return text::owned(name);
    }
    let mut out: String = text::owned(dir);
    if folder[folder.len() - 1] != '/' {
        out.push('/');
    }
    out.append(name);
    out
}

/// A path whose file name ends in `extension` in place of the extension it has.
pub fn replace_extension(path: &str, extension: &str) -> (out: String)
    ensures
        out@ == with_extension(path@, extension@),
{
    let chars: Vec<char> = text::chars_of(path);
    match name_range(&chars) {
        Some((start, end)) => {
            let kept: usize = match dot_in(&chars, start, end) {
                Some(dot) => dot,
                None => end,
            };
            let mut out: String = text::text_between(&chars, 0, kept);
            out.push('.');
            out.append(extension);
            proof {
                let name = chars@.subrange(start as int, end as int);
                let folder = bare(chars@).take(start as int);
                assert(out@ =~= folder + stem(name).push('.') + extension@);
            }
            out
        },
        None => text::owned(path),
    }
}

/// The folder a file sits in, `.` where its path names none.
pub open spec fn folder(path: Seq<char>) -> Seq<char> {
    match parent(path) {
        Some(dir) => if dir.len() > 0 {
            dir
        } else {
            seq!['.']
        },
        None => seq!['.'],
    }
}

/// The folder a file sits in, `.` where its path names none.
pub fn folder_of(path: &str) -> (out: String)
    ensures
        out@ == folder(path@),
{
    if let Some(dir) = parent_of(path) {
        if !dir.as_str().is_empty() {
            return dir;
        }
    }
    let mut here: String = String::new();
    here.push('.');
    assert(here@ =~= seq!['.']);
    here
}

/// A path that starts at the root.
pub open spec fn rooted(path: Seq<char>) -> bool {
    path.len() > 0 && path[0] == '/'
}

/// What stands between two separators names something, unless it is empty or a `.` that does
/// not start the path.
pub open spec fn is_name(name: Seq<char>, from: int) -> bool {
    name.len() > 0 && (from == 0 || name != seq!['.'])
}

/// The names that a path is made of, from `from` on.
pub open spec fn names_from(path: Seq<char>, from: int) -> Seq<Seq<char>>
    decreases path.len() + 1 - from,
    via names_from_decreases
{
    if from >= path.len() {
        Seq::empty()
    } else {
        let end = text::letter_at(path, '/', from);
        let name = path.subrange(from, end);
        let rest = names_from(path, end + 1);
        if is_name(name, from) {
            seq![name] + rest
        } else {
            rest
        }
    }
}

#[via_fn]
proof fn names_from_decreases(path: Seq<char>, from: int) {
    text::lemma_letter_at(path, '/', from);
}

/// Two paths that are made of the same names: how many separators stand between them, and
/// whether one ends the path, makes no difference.
pub open spec fn same(a: Seq<char>, b: Seq<char>) -> bool {
    rooted(a) == rooted(b) && names_from(a, 0) == names_from(b, 0)
}

fn names_of(chars: &Vec<char>) -> (names: Vec<String>)
    ensures
        text::views(names@) == names_from(chars@, 0),
{
    let ghost whole = names_from(chars@, 0);
    let mut names: Vec<String> = Vec::new();
    let mut from: usize = 0;
    assert(text::views(names@) + whole =~= whole);
    while from < chars.len()
        invariant
            from <= chars@.len(),
            whole == text::views(names@) + names_from(chars@, from as int),
        decreases chars@.len() - from,
    {
        let end: usize = text::find_letter(chars, '/', from);
        let ghost before = names@;
        let ghost name = chars@.subrange(from as int, end as int);
        let ghost rest = names_from(chars@, end + 1);
        let dot: bool = end - from == 1 && chars[from] == '.';
        proof {
            if dot {
                assert(name =~= seq!['.']);
            } else if name == seq!['.'] {
                assert(name.len() == 1 && name[0] == '.');
            }
        }
        if end > from && (from == 0 || !dot) {
            names.push(text::text_between(chars, from, end));
            assert(text::views(names@) =~= text::views(before).push(name));
        }
        assert(whole =~= text::views(names@) + rest);
        if end == chars.len() {
            assert(rest =~= Seq::empty());
            from = end;
        } else {
            from = end + 1;
        }
    }
    assert(text::views(names@) =~= whole);
    names
}

/// Whether two paths are made of the same names.
pub fn same_path(a: &str, b: &str) -> (yes: bool)
    ensures
        yes == same(a@, b@),
{
    let first: Vec<char> = text::chars_of(a);
    let second: Vec<char> = text::chars_of(b);
    let root: bool = first.len() > 0 && first[0] == '/';
    let other: bool = second.len() > 0 && second[0] == '/';
    let ours: Vec<String> = names_of(&first);
    let theirs: Vec<String> = names_of(&second);
    assert(text::views(ours@).len() == ours@.len() && text::views(theirs@).len() == theirs@.len());
    if root != other || ours.len() != theirs.len() {
        return false;
    }
    let mut i: usize = 0;
    while i < ours.len()
        invariant
            i <= ours@.len() == theirs@.len(),
            text::views(ours@) == names_from(a@, 0),
            text::views(theirs@) == names_from(b@, 0),
            forall|k: int| 0 <= k < i ==> (#[trigger] ours@[k])@ == theirs@[k]@,
        decreases ours@.len() - i,
    {
        if ours[i] != theirs[i] {
            assert(text::views(ours@)[i as int] != text::views(theirs@)[i as int]);
            return false;
        }
        i += 1;
    }
    assert(text::views(ours@) =~= text::views(theirs@));
    true
}

/// A name that a file or a folder can go by.
pub open spec fn can_be_named(name: Seq<char>) -> bool {
    &&& name.len() > 0
    &&& !name.contains('/')
    &&& name != seq!['.']
    &&& name != seq!['.', '.']
}

/// A path that ends in no separator and in no `.` of its own.
pub open spec fn is_bare(path: Seq<char>) -> bool {
    &&& path.len() > 0
    &&& path.last() != '/'
    &&& !(path.len() > 1 && path.last() == '.' && path[path.len() - 2] == '/')
}

proof fn lemma_name_start(head: Seq<char>, name: Seq<char>)
    requires
        !name.contains('/'),
        head.len() == 0 || head.last() == '/',
    ensures
        name_start(head + name) == head.len(),
    decreases name.len(),
{
    let path = head + name;
    if name.len() == 0 {
        assert(path =~= head);
    } else {
        assert(path[path.len() - 1] == name.last());
        assert(name.contains(name.last()));
        let shorter = name.drop_last();
        assert(path.take(path.len() - 1) =~= head + shorter);
        assert(!shorter.contains('/')) by {
            if shorter.contains('/') {
                assert(name[shorter.index_of('/')] == '/');
            }
        }
        lemma_name_start(head, shorter);
    }
}

proof fn lemma_bare_name(head: Seq<char>, name: Seq<char>)
    requires
        can_be_named(name),
    ensures
        bare(head + name) == head + name,
{
    let path = head + name;
    assert(path[path.len() - 1] == name.last());
    assert(name.contains(name.last()));
    if path.len() > 1 && path[path.len() - 1] == '.' && path[path.len() - 2] == '/' {
        if name.len() > 1 {
            assert(path[path.len() - 2] == name[name.len() - 2]);
            assert(name.contains(name[name.len() - 2]));
        } else {
            assert(name =~= seq!['.']);
        }
    }
}

/// What a folder and a name are joined to comes apart into that name and that folder again, under
/// a folder, at the root and where there is no folder at all.
pub proof fn joining_comes_apart(dir: Seq<char>, name: Seq<char>)
    requires
        can_be_named(name),
        is_bare(dir) || dir == seq!['/'] || dir.len() == 0,
    ensures
        file_name(joined(dir, name)) == Some(name),
        parent(joined(dir, name)) == Some(dir),
        dir.len() > 0 ==> folder(joined(dir, name)) == dir,
        dir.len() == 0 ==> folder(joined(dir, name)) == seq!['.'],
{
    assert(name.contains(name[0]));
    let head = if dir.len() == 0 || dir == seq!['/'] {
        dir
    } else {
        dir.push('/')
    };
    let path = joined(dir, name);
    assert(path =~= head + name);
    lemma_name_start(head, name);
    lemma_bare_name(head, name);
    assert(path.skip(head.len() as int) =~= name);
    assert(path.take(head.len() as int) =~= head);
    if dir.len() == 0 {
        assert(bare(head) =~= dir);
    } else if dir == seq!['/'] {
        assert(head.take(0) =~= Seq::empty());
        assert(bare(head) == bare(Seq::<char>::empty()));
    } else {
        assert(head.take(head.len() - 1) =~= dir);
        assert(bare(head) == bare(dir));
        assert(bare(dir) == dir);
    }
}

/// A path that is rooted is not moved by the folder it is looked up from.
pub proof fn a_rooted_path_stays(dir: Seq<char>, path: Seq<char>)
    requires
        rooted(path),
    ensures
        joined(dir, path) == path,
{
}

proof fn lemma_last_dot(front: Seq<char>, ending: Seq<char>)
    requires
        !ending.contains('.'),
    ensures
        last_dot(front.push('.') + ending) == front.len(),
    decreases ending.len(),
{
    let name = front.push('.') + ending;
    if ending.len() == 0 {
        assert(name =~= front.push('.'));
    } else {
        assert(name[name.len() - 1] == ending.last());
        assert(ending.contains(ending.last()));
        let shorter = ending.drop_last();
        assert(name.take(name.len() - 1) =~= front.push('.') + shorter);
        assert(!shorter.contains('.')) by {
            if shorter.contains('.') {
                assert(ending[shorter.index_of('.')] == '.');
            }
        }
        lemma_last_dot(front, shorter);
    }
}

/// A name is its stem, a dot and its extension, which is what follows its last dot; changing the
/// extension changes nothing else.
pub proof fn a_name_is_its_stem_and_its_extension(
    dir: Seq<char>,
    front: Seq<char>,
    ending: Seq<char>,
    other: Seq<char>,
)
    requires
        is_bare(dir) || dir == seq!['/'] || dir.len() == 0,
        front.len() > 0,
        !front.contains('/'),
        !ending.contains('/'),
        !ending.contains('.'),
        can_be_named(front.push('.') + ending),
    ensures
        ({
            let name = front.push('.') + ending;
            let path = joined(dir, name);
            &&& stem(name) == front
            &&& extension(path) == Some(ending)
            &&& with_extension(path, other) == joined(dir, front.push('.') + other)
        }),
{
    let name = front.push('.') + ending;
    let path = joined(dir, name);
    joining_comes_apart(dir, name);
    lemma_last_dot(front, ending);
    assert(name.take(front.len() as int) =~= front);
    assert(name.skip(front.len() as int + 1) =~= ending);
    let head = if dir.len() == 0 || dir == seq!['/'] {
        dir
    } else {
        dir.push('/')
    };
    assert(name.contains(name[0]));
    assert(path =~= head + name);
    lemma_name_start(head, name);
    lemma_bare_name(head, name);
    assert(path.take(head.len() as int) =~= head);
    let renamed = front.push('.') + other;
    assert(renamed[0] == front[0]);
    assert(front.contains(front[0]));
    assert(joined(dir, renamed) =~= head + renamed);
    assert(head + front.push('.') + other =~= head + renamed);
}

/// A name without a dot, or with one only at its start, has no extension.
pub proof fn a_dot_at_the_start_is_no_extension(dir: Seq<char>, rest: Seq<char>, dotted: bool)
    requires
        is_bare(dir) || dir == seq!['/'] || dir.len() == 0,
        !rest.contains('.'),
        can_be_named(
            if dotted {
                seq!['.'] + rest
            } else {
                rest
            },
        ),
    ensures
        extension(
            joined(
                dir,
                if dotted {
                    seq!['.'] + rest
                } else {
                    rest
                },
            ),
        ) is None,
{
    let name = if dotted {
        seq!['.'] + rest
    } else {
        rest
    };
    joining_comes_apart(dir, name);
    if dotted {
        assert(Seq::<char>::empty().push('.') + rest =~= name);
        lemma_last_dot(Seq::empty(), rest);
    } else {
        lemma_no_dot(rest);
    }
}

proof fn lemma_no_dot(name: Seq<char>)
    requires
        !name.contains('.'),
    ensures
        last_dot(name) == -1,
    decreases name.len(),
{
    if name.len() > 0 {
        assert(name.contains(name.last()));
        let shorter = name.take(name.len() - 1);
        assert(!shorter.contains('.')) by {
            if shorter.contains('.') {
                assert(name[shorter.index_of('.')] == '.');
            }
        }
        lemma_no_dot(shorter);
    }
}

/// Separators at the end of a path make no difference to what it names.
pub proof fn separators_at_the_end_make_no_difference(path: Seq<char>)
    ensures
        file_name(path.push('/')) == file_name(path),
        extension(path.push('/')) == extension(path),
        path.len() > 0 ==> same(path.push('/'), path),
{
    assert(path.push('/').take(path.len() as int) =~= path);
    if path.len() > 0 {
        lemma_names_end(path, 0);
    }
}

proof fn lemma_letter_in(path: Seq<char>, tail: Seq<char>, from: int)
    requires
        0 <= from <= path.len(),
        tail.len() > 0,
        tail[0] == '/',
    ensures
        text::letter_at(path + tail, '/', from) == text::letter_at(path, '/', from),
    decreases path.len() - from,
{
    if from < path.len() {
        assert((path + tail)[from] == path[from]);
        if path[from] != '/' {
            lemma_letter_in(path, tail, from + 1);
        }
    } else {
        assert((path + tail)[from] == tail[0]);
    }
}

proof fn lemma_names_end(path: Seq<char>, from: int)
    requires
        0 <= from,
    ensures
        names_from(path.push('/'), from) == names_from(path, from),
    decreases path.len() + 1 - from,
{
    let longer = path.push('/');
    assert(longer =~= path + seq!['/']);
    if from <= path.len() {
        lemma_letter_in(path, seq!['/'], from);
        text::lemma_letter_at(path, '/', from);
        let end = text::letter_at(path, '/', from);
        lemma_names_end(path, end + 1);
        assert(longer.subrange(from, end) =~= path.subrange(from, end));
        if from == path.len() {
            assert(longer.subrange(from, end).len() == 0);
        }
    }
}

proof fn lemma_names_on(dir: Seq<char>, name: Seq<char>, from: int)
    requires
        0 <= from <= dir.len(),
        dir.len() > 0,
        name.len() > 0,
        !name.contains('/'),
        name != seq!['.'],
    ensures
        names_from(dir.push('/') + name, from) == names_from(dir, from).push(name),
    decreases dir.len() + 1 - from,
{
    let path = dir.push('/') + name;
    let tail = seq!['/'] + name;
    assert(path =~= dir + tail);
    lemma_letter_in(dir, tail, from);
    text::lemma_letter_at(dir, '/', from);
    let end = text::letter_at(dir, '/', from);
    assert(path.subrange(from, end) =~= dir.subrange(from, end));
    if end < dir.len() {
        lemma_names_on(dir, name, end + 1);
        let rest = names_from(dir, end + 1);
        let here = dir.subrange(from, end);
        assert(seq![here] + rest.push(name) =~= (seq![here] + rest).push(name));
    } else {
        let at = dir.len() + 1;
        lemma_no_separator(path, at as int);
        assert(path.subrange(at as int, path.len() as int) =~= name);
        assert(names_from(path, path.len() as int + 1) =~= Seq::empty());
        assert(names_from(path, at as int) =~= seq![name]);
        assert(names_from(dir, end + 1) =~= Seq::empty());
        let here = dir.subrange(from, end);
        if from < dir.len() {
            assert(seq![here] + seq![name] =~= (seq![here] + Seq::<Seq<char>>::empty()).push(
                name,
            ));
            assert(Seq::<Seq<char>>::empty().push(name) =~= seq![name]);
        } else {
            assert(here.len() == 0);
            assert(names_from(dir, from) =~= Seq::empty());
            assert(Seq::<Seq<char>>::empty().push(name) =~= seq![name]);
        }
    }
}

proof fn lemma_no_separator(path: Seq<char>, from: int)
    requires
        0 <= from <= path.len(),
        !path.skip(from).contains('/'),
    ensures
        text::letter_at(path, '/', from) == path.len(),
    decreases path.len() - from,
{
    if from < path.len() {
        let rest = path.skip(from);
        assert(rest[0] == path[from]);
        assert(rest.contains(rest[0]));
        assert(!path.skip(from + 1).contains('/')) by {
            if path.skip(from + 1).contains('/') {
                let at = path.skip(from + 1).index_of('/');
                assert(rest[at + 1] == '/');
            }
        }
        lemma_no_separator(path, from + 1);
    }
}

/// The names of a path are those of its folder and its own, however many separators stand
/// between them. So two files are the same where their folders and their names are, and only
/// there.
pub proof fn the_names_of_a_path_are_its_folders_and_its_own(
    dir: Seq<char>,
    name: Seq<char>,
    other: Seq<char>,
    another: Seq<char>,
)
    requires
        dir.len() > 0,
        other.len() > 0,
        can_be_named(name),
        can_be_named(another),
    ensures
        names_from(dir.push('/') + name, 0) == names_from(dir, 0).push(name),
        same(dir.push('/').push('/') + name, dir.push('/') + name),
        same(dir.push('/') + name, other.push('/') + another) == (same(dir, other) && name
            == another),
{
    lemma_names_on(dir, name, 0);
    lemma_names_on(other, another, 0);
    lemma_names_on(dir.push('/'), name, 0);
    lemma_names_end(dir, 0);
    let one = names_from(dir, 0);
    let two = names_from(other, 0);
    assert((dir.push('/') + name)[0] == dir[0]);
    assert((other.push('/') + another)[0] == other[0]);
    assert((dir.push('/').push('/') + name)[0] == dir[0]);
    if one.push(name) == two.push(another) {
        assert(one.push(name).last() == name && two.push(another).last() == another);
        assert(one.push(name).drop_last() =~= one);
        assert(two.push(another).drop_last() =~= two);
    }
}

} // verus!
