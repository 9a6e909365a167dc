//! Paths as text: joining a directory and a name, and the extension of a
//! file's name. A path is read as on Unix, with `/` between its components.

use vstd::prelude::*;
use vstd::string::StringExecFns;
use crate::text::{chars_of, slice, string_of};

verus! {

/// The position of the last `c` in `s`, or -1 where there is none.
pub open spec fn last_index(s: Seq<char>, c: char) -> int
    decreases s.len(),
{
    if s.len() == 0 {
        -1
    } else if s.last() == c {
        s.len() - 1
    } else {
        last_index(s.drop_last(), c)
    }
}

/// A position that only other characters follow, and where a `c` stands
/// unless it is -1, is the `last_index`.
pub proof fn lemma_last_index_at(s: Seq<char>, c: char, k: int)
    requires
        -1 <= k < s.len(),
        forall|j: int| k < j < s.len() ==> s[j] != c,
        k >= 0 ==> s[k] == c,
    ensures
        last_index(s, c) == k,
    decreases s.len(),
{
    if s.len() == 0 || s.last() == c {
    } else {
        lemma_last_index_at(s.drop_last(), c, k);
    }
}

/// The path of the entry `name` of the directory `dir`. A name that starts
/// at the root stands for itself; a `/` is put between the two unless
/// `dir` is empty or ends with one.
pub open spec fn join_path(dir: Seq<char>, name: Seq<char>) -> Seq<char> {
    if name.len() > 0 && name[0] == '/' {
        name
    } else if dir.len() == 0 || dir.last() == '/' {
        dir + name
    } else {
        dir + seq!['/'] + name
    }
}

/// The last component of `path`: what follows its last `/`.
pub open spec fn base_name(path: Seq<char>) -> Seq<char> {
    path.skip(last_index(path, '/') + 1)
}

/// The extension of the file that `path` names: what follows the last `.`
/// of its last component. There is none, and the result is empty, where the
/// component holds no `.` or only the one that it starts with.
pub open spec fn extension(path: Seq<char>) -> Seq<char> {
    let name = base_name(path);
    let dot = last_index(name, '.');
    if dot <= 0 {
        Seq::empty()
    } else {
        name.skip(dot + 1)
    }
}

/// The path of the entry `name` of the directory `dir`.
pub fn join(dir: &str, name: &str) -> (path: String)
    ensures
        path@ == join_path(dir@, name@),
{
    let head = chars_of(dir);
    let tail = chars_of(name);
    if tail.len() > 0 && tail[0] == '/' {
        String::from_str(name)
    } else if head.len() == 0 || head[head.len() - 1] == '/' {
        let mut path = String::from_str(dir);
        path.append(name);
        path
    } else {
        let mut path = String::from_str(dir);
        path.push('/');
        path.append(name);
        path
    }
}

/// The extension of the file that `path` names, empty where it has none.
pub fn extension_of(path: &str) -> (ext: String)
    ensures
        ext@ == extension(path@),
{
    let text = chars_of(path);
    let n = text.len();
    let mut start: usize = n;
    while start > 0 && text[start - 1] != '/'
        invariant
            start <= n == text.len(),
            forall|j: int| start <= j < n ==> text@[j] != '/',
        decreases start,
    {
        start -= 1;
    }
    proof {
        lemma_last_index_at(text@, '/', start - 1);
    }
    let ghost name = text@.skip(start as int);
    let mut dot: usize = n;
    while dot > start && text[dot - 1] != '.'
        invariant
            start <= dot <= n == text.len(),
            forall|j: int| dot <= j < n ==> text@[j] != '.',
        decreases dot,
    {
        dot -= 1;
    }
    proof {
        assert forall|j: int| dot - start - 1 < j < name.len() implies name[j] != '.' by {
            assert(name[j] == text@[start + j]);
        }
        lemma_last_index_at(name, '.', dot - start - 1);
    }
    if dot > start && dot - start > 1 {
        proof {
            assert(name.skip(dot - start) == text@.subrange(dot as int, n as int));
        }
        string_of(&slice(&text, dot, n))
    } else {
        String::new()
    }
}

} // verus!
