//! Slash-separated paths: joining, and the relative paths that stay inside
//! the directory they are joined to.

use vstd::prelude::*;

use crate::text::{chars_of, push_char};

verus! {

/// A path that starts at the file-system root.
pub open spec fn is_absolute(p: Seq<char>) -> bool {
    p.len() > 0 && p[0] == '/'
}

/// `Path::join` on Unix: an absolute `name` replaces `base`; otherwise
/// `name` is appended, with a separator in between unless `base` is empty
/// or already ends with one.
pub open spec fn joined(base: Seq<char>, name: Seq<char>) -> Seq<char> {
    if is_absolute(name) {
        name
    } else if base.len() == 0 || base.last() == '/' {
        base + name
    } else {
        base + seq!['/'] + name
    }
}

/// Joins `name` onto `base` as `Path::join` does.
pub fn join_path(base: &str, name: &str) -> (r: String)
    ensures
        r@ == joined(base@, name@),
{
    let name_len = name.unicode_len();
    if name_len > 0 && name.get_char(0) == '/' {
        return String::from_str(name);
    }
    let base_len = base.unicode_len();
    let mut r = String::from_str(base);
    if base_len > 0 && base.get_char(base_len - 1) != '/' {
        push_char(&mut r, '/');
    }
    r.append(name);
    r
}

/// The directory that holds the installed drivers, inside the
/// application's configuration directory.
pub fn drivers_directory(config_dir: &str) -> (r: String)
    ensures
        r@ == joined(config_dir@, "gpu_drivers"@),
{
    join_path(config_dir, "gpu_drivers")
}

/// A `..` component that starts at index `i`.
pub open spec fn is_parent_segment_at(p: Seq<char>, i: int) -> bool {
    &&& 0 <= i
    &&& i + 2 <= p.len()
    &&& p[i] == '.'
    &&& p[i + 1] == '.'
    &&& (i == 0 || p[i - 1] == '/')
    &&& (i + 2 == p.len() || p[i + 2] == '/')
}

/// A path whose first component is `.`, which `Path::components` keeps
/// as the current directory (a `.` elsewhere is normalised away).
pub open spec fn starts_with_current_dir(p: Seq<char>) -> bool {
    p.len() > 0 && p[0] == '.' && (p.len() == 1 || p[1] == '/')
}

/// A non-empty path whose components, as `Path::components` splits them,
/// are all normal names: no root, no leading `.`, and no `..` anywhere.
/// Joined to a directory, such a path names something inside it.
pub open spec fn is_safe_relative_path(p: Seq<char>) -> bool {
    &&& p.len() > 0
    &&& !is_absolute(p)
    &&& !starts_with_current_dir(p)
    &&& forall|i: int| !#[trigger] is_parent_segment_at(p, i)
}

/// Gives the path back where it is a safe relative path, and `None`
/// otherwise.
pub fn safe_relative_path(path: &str) -> (r: Option<&str>)
    ensures
        r == (if is_safe_relative_path(path@) { Some(path) } else { None::<&str> }),
{
    let p = chars_of(path);
    let n = p.len();
    if n == 0 || p[0] == '/' {
        return None;
    }
    if p[0] == '.' && (n == 1 || p[1] == '/') {
        return None;
    }
    let mut i: usize = 0;
    while i < n
        invariant
            n == p@.len(),
            p@ == path@,
            i <= n,
            forall|j: int| 0 <= j < i ==> !#[trigger] is_parent_segment_at(p@, j),
        decreases n - i,
    {
        if i + 1 < n && p[i] == '.' && p[i + 1] == '.' && (i == 0 || p[i - 1] == '/') && (i + 2
            == n || p[i + 2] == '/') {
            assert(is_parent_segment_at(p@, i as int));
            return None;
        }
        i = i + 1;
    }
    assert forall|j: int| !#[trigger] is_parent_segment_at(p@, j) by {
        if 0 <= j < n {
        }
    }
    Some(path)
}


/// A plain file name (non-empty, no separator, neither `.` nor `..`) is a
/// safe relative path.
pub proof fn lemma_plain_name_is_safe(name: Seq<char>)
    requires
        name.len() > 0,
        forall|i: int| 0 <= i < name.len() ==> #[trigger] name[i] != '/',
        name != seq!['.'],
        name != seq!['.', '.'],
    ensures
        is_safe_relative_path(name),
{
    assert(name[0] != '/');
    if name[0] == '.' && (name.len() == 1 || name[1] == '/') {
        assert(name =~= seq!['.']);
    }
    assert forall|i: int| !#[trigger] is_parent_segment_at(name, i) by {
        if is_parent_segment_at(name, i) {
            if i > 0 {
                assert(name[i - 1] == '/');
            } else if i + 2 < name.len() {
                assert(name[i + 2] == '/');
            } else {
                assert(name =~= seq!['.', '.']);
            }
        }
    }
}

/// Paths that leave the directory are refused: absolute paths, paths that
/// start with the current directory `.`, and paths with a `..` component
/// at the start, at the end or in between.
pub proof fn lemma_escaping_paths_are_refused(a: Seq<char>, b: Seq<char>)
    ensures
        !is_safe_relative_path(seq!['/'] + b),
        !is_safe_relative_path(seq!['.']),
        !is_safe_relative_path(seq!['.', '/'] + b),
        !is_safe_relative_path(seq!['.', '.']),
        !is_safe_relative_path(seq!['.', '.', '/'] + b),
        !is_safe_relative_path(a + seq!['/', '.', '.']),
        !is_safe_relative_path(a + seq!['/', '.', '.', '/'] + b),
        !is_safe_relative_path(Seq::<char>::empty()),
{
    let p1 = seq!['.', '.'];
    assert(is_parent_segment_at(p1, 0));
    let p2 = seq!['.', '.', '/'] + b;
    assert(is_parent_segment_at(p2, 0));
    let p3 = a + seq!['/', '.', '.'];
    assert(is_parent_segment_at(p3, a.len() as int + 1));
    let p4 = a + seq!['/', '.', '.', '/'] + b;
    assert(is_parent_segment_at(p4, a.len() as int + 1));
    assert((seq!['/'] + b)[0] == '/');
    assert((seq!['.', '/'] + b)[0] == '.' && (seq!['.', '/'] + b)[1] == '/');
}

/// Two safe relative paths joined with a separator make a safe relative
/// path: a library in a sub-directory of a safe path is accepted.
pub proof fn lemma_safe_paths_compose(a: Seq<char>, b: Seq<char>)
    requires
        is_safe_relative_path(a),
        is_safe_relative_path(b),
    ensures
        is_safe_relative_path(a + seq!['/'] + b),
{
    let p = a + seq!['/'] + b;
    let n = a.len() as int;
    assert(p[0] == a[0]);
    if a.len() == 1 {
        assert(p[1] == '/');
    } else {
        assert(p[1] == a[1]);
    }
    assert forall|i: int| !#[trigger] is_parent_segment_at(p, i) by {
        if is_parent_segment_at(p, i) {
            if i + 2 <= n {
                assert(p[i] == a[i] && p[i + 1] == a[i + 1]);
                if i > 0 {
                    assert(p[i - 1] == a[i - 1]);
                }
                if i + 2 < n {
                    assert(p[i + 2] == a[i + 2]);
                }
                assert(is_parent_segment_at(a, i));
            } else if i == n - 1 {
                assert(p[i + 1] == '/');
            } else if i == n {
                assert(p[i] == '/');
            } else {
                let j = i - n - 1;
                assert(p[i] == b[j] && p[i + 1] == b[j + 1]);
                if j > 0 {
                    assert(p[i - 1] == b[j - 1]);
                }
                if i + 2 < p.len() {
                    assert(p[i + 2] == b[j + 2]);
                }
                assert(is_parent_segment_at(b, j));
            }
        }
    }
}

} // verus!
