//! Where the compressed copy of an input file goes: beside the input, named
//! `<stem>_compressed.<format>`. Paths use `/` as separator.
use vstd::prelude::*;

verus! {

/// Index of the last occurrence of `c` in `s`, or `-1` when there is none.
pub open spec fn last_index(s: Seq<char>, c: char) -> int
    decreases s.len(),
{
    if s.len() == 0 {
        -1
    } else if s.last() == c {
        s.len() - 1
    } else {
        last_index(s.drop_last(), c)
    }
}

/// The directory part of a path, with its trailing separator (empty for a bare file name).
pub open spec fn dir_part(s: Seq<char>) -> Seq<char> {
    s.take(last_index(s, '/') + 1)
}

/// What follows the last separator.
pub open spec fn file_name(s: Seq<char>) -> Seq<char> {
    s.skip(last_index(s, '/') + 1)
}

/// A file name without its extension. A name whose only point leads it
/// (`.profile`) has no extension.
pub open spec fn file_stem(name: Seq<char>) -> Seq<char> {
    let k = last_index(name, '.');
    if k <= 0 {
        name
    } else {
        name.take(k)
    }
}

/// The path names a file that has a stem: its name is not empty, `.` or `..`.
pub open spec fn has_stem(s: Seq<char>) -> bool {
    let name = file_name(s);
    name.len() > 0 && name != seq!['.'] && name != seq!['.', '.']
}

pub open spec fn compressed_suffix() -> Seq<char> {
    seq!['_', 'c', 'o', 'm', 'p', 'r', 'e', 's', 's', 'e', 'd', '.']
}

/// The output path for input `s` in format `f`.
pub open spec fn output_path(s: Seq<char>, f: Seq<char>) -> Seq<char> {
    dir_part(s) + file_stem(file_name(s)) + compressed_suffix() + f
}

pub open spec fn arrow() -> Seq<char> {
    seq![' ', '-', '>', ' ']
}

/// The label shown for one item: `<input> -> <output>`.
pub open spec fn task_name(s: Seq<char>, f: Seq<char>) -> Seq<char> {
    s + arrow() + output_path(s, f)
}

/// The input path has no file name to derive an output name from.
#[derive(Clone, Copy, Debug, PartialEq, Eq, Structural)]
pub enum PathError {
    InvalidPath,
}

/// `i - 1` is the last index of `c` when nothing from `i` on is `c` and `s[i - 1]` is.
proof fn lemma_last_index_at(s: Seq<char>, c: char, i: int)
    requires
        0 <= i <= s.len(),
        forall|j: int| i <= j < s.len() ==> s[j] != c,
        i == 0 || s[i - 1] == c,
    ensures
        last_index(s, c) == i - 1,
    decreases s.len(),
{
    if s.len() > i {
        let t = s.drop_last();
        assert forall|j: int| i <= j < t.len() implies t[j] != c by {
            assert(t[j] == s[j]);
        }
        lemma_last_index_at(t, c, i);
    }
}

proof fn lemma_last_index_props(s: Seq<char>, c: char)
    ensures
        -1 <= last_index(s, c) < s.len(),
        last_index(s, c) >= 0 ==> s[last_index(s, c)] == c,
        forall|j: int| last_index(s, c) < j < s.len() ==> s[j] != c,
    decreases s.len(),
{
    if s.len() > 0 && s.last() != c {
        lemma_last_index_props(s.drop_last(), c);
        assert forall|j: int| last_index(s, c) < j < s.len() implies s[j] != c by {
            if j < s.len() - 1 {
                assert(s.drop_last()[j] == s[j]);
            }
        }
    }
}

/// An output path can itself be resolved again: when the input names a file
/// with a stem and the format holds no separator, the output path also names a
/// file with a stem, lies in the same directory as the input, and its file name
/// is `<stem>_compressed.<format>`.
pub proof fn lemma_output_path_resolvable(s: Seq<char>, f: Seq<char>)
    requires
        has_stem(s),
        forall|i: int| 0 <= i < f.len() ==> f[i] != '/',
    ensures
        has_stem(output_path(s, f)),
        dir_part(output_path(s, f)) == dir_part(s),
        file_name(output_path(s, f)) == file_stem(file_name(s)) + compressed_suffix() + f,
{
    lemma_last_index_props(s, '/');
    let k = last_index(s, '/');
    let dir = dir_part(s);
    let name = file_name(s);
    let stem = file_stem(name);
    let rest = stem + compressed_suffix() + f;
    let o = output_path(s, f);
    assert(o =~= dir + rest);
    lemma_last_index_props(name, '.');
    assert forall|j: int| 0 <= j < stem.len() implies stem[j] != '/' by {
        assert(stem[j] == name[j]);
        assert(name[j] == s[k + 1 + j]);
    }
    assert forall|j: int| dir.len() <= j < o.len() implies o[j] != '/' by {
        let t = j - dir.len();
        assert(o[j] == rest[t]);
        if t < stem.len() {
            assert(rest[t] == stem[t]);
        } else if t < stem.len() + 12 {
            assert(rest[t] == compressed_suffix()[t - stem.len()]);
        } else {
            assert(rest[t] == f[t - stem.len() - 12]);
        }
    }
    if dir.len() > 0 {
        assert(o[dir.len() - 1] == s[k]);
    }
    lemma_last_index_at(o, '/', dir.len() as int);
    assert(o.take(dir.len() as int) =~= dir);
    assert(o.skip(dir.len() as int) =~= rest);
    assert(rest.len() >= 12);
    assert(rest != seq!['.']) by {
        if rest == seq!['.'] {
            assert(rest.len() == 1);
        }
    }
    assert(rest != seq!['.', '.']) by {
        if rest == seq!['.', '.'] {
            assert(rest.len() == 2);
        }
    }
}

/// Position just after the last `c` in `s`; 0 when `s` holds none.
fn after_last(s: &str, c: char) -> (r: usize)
    ensures
        r == last_index(s@, c) + 1,
{
    let n = s.unicode_len();
    let mut i: usize = n;
    while i > 0 && s.get_char(i - 1) != c
        invariant
            n == s@.len(),
            i <= n,
            forall|j: int| i <= j < n ==> s@[j] != c,
        decreases i,
    {
        i = i - 1;
    }
    proof {
        lemma_last_index_at(s@, c, i as int);
    }
    i
}

/// The output path for `filename` converted to `format`: same directory,
/// named `<stem>_compressed.<format>`.
pub fn get_output_filename(filename: &str, format: &str) -> (r: Result<String, PathError>)
    ensures
        match r {
            Ok(o) => has_stem(filename@) && o@ == output_path(filename@, format@),
            Err(e) => !has_stem(filename@) && e == PathError::InvalidPath,
        },
{
    let n = filename.unicode_len();
    let a = after_last(filename, '/');
    proof {
        lemma_last_index_props(filename@, '/');
    }
    let dir = filename.substring_char(0, a);
    let name = filename.substring_char(a, n);
    assert(name@ == file_name(filename@));
    let len = n - a;
    if len == 0 {
        return Err(PathError::InvalidPath);
    }
    if len == 1 && name.get_char(0) == '.' {
        assert(name@ =~= seq!['.']);
        return Err(PathError::InvalidPath);
    }
    if len == 2 && name.get_char(0) == '.' && name.get_char(1) == '.' {
        assert(name@ =~= seq!['.', '.']);
        return Err(PathError::InvalidPath);
    }
    assert(name@ != seq!['.']) by {
        if name@ == seq!['.'] {
            assert(name@[0] == '.');
        }
    }
    assert(name@ != seq!['.', '.']) by {
        if name@ == seq!['.', '.'] {
            assert(name@[0] == '.' && name@[1] == '.');
        }
    }
    let b = after_last(name, '.');
    proof {
        lemma_last_index_props(name@, '.');
    }
    let stem = if b <= 1 {
        name
    } else {
        name.substring_char(0, b - 1)
    };
    let mut out = String::from_str(dir);
    out.append(stem);
    let suffix = "_compressed.";
    proof {
        reveal_strlit("_compressed.");
        assert(suffix@ =~= compressed_suffix());
    }
    out.append(suffix);
    out.append(format);
    Ok(out)
}

/// The label shown while an item is worked on: its task name, or the input
/// path alone when no output path can be derived from it.
pub fn display_label(filename: &str, format: &str) -> (r: String)
    ensures
        has_stem(filename@) ==> r@ == task_name(filename@, format@),
        !has_stem(filename@) ==> r@ == filename@,
{
    match get_task_name(filename, format) {
        Ok(t) => t,
        Err(_) => String::from_str(filename),
    }
}

/// The label of one item, `<input> -> <output>`.
pub fn get_task_name(filename: &str, format: &str) -> (r: Result<String, PathError>)
    ensures
        match r {
            Ok(t) => has_stem(filename@) && t@ == task_name(filename@, format@),
            Err(e) => !has_stem(filename@) && e == PathError::InvalidPath,
        },
{
    let output = get_output_filename(filename, format)?;
    let mut label = String::from_str(filename);
    let sep = " -> ";
    proof {
        reveal_strlit(" -> ");
        assert(sep@ =~= arrow());
    }
    label.append(sep);
    label.append(output.as_str());
    Ok(label)
}

} // verus!
