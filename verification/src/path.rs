//! Paths of a mount: absolute, parted by `/` into the names of directories
//! and, last, of a file or a directory.

use vstd::prelude::*;
use vstd::string::StrSliceExecFns;

use crate::text::names_equal;

verus! {

/// The piece of a path between two separators, as a list: nothing where it
/// is empty or the one dot that stands for "here", else the piece.
pub open spec fn piece(x: Seq<char>) -> Seq<Seq<char>> {
    if x.len() == 0 || x == "."@ {
        Seq::empty()
    } else {
        seq![x]
    }
}

/// The names in `s` from `start` on, where no separator stands from `start`
/// up to `i`.
pub open spec fn split_from(s: Seq<char>, start: int, i: int) -> Seq<Seq<char>>
    decreases s.len() - i,
{
    if i >= s.len() {
        if start <= s.len() {
            piece(s.subrange(start, s.len() as int))
        } else {
            Seq::empty()
        }
    } else if s[i] == '/' {
        piece(s.subrange(start, i)) + split_from(s, i + 1, i + 1)
    } else {
        split_from(s, start, i + 1)
    }
}

/// Whether a path is absolute: it starts with the separator.
pub open spec fn is_absolute(path: Seq<char>) -> bool {
    path.len() > 0 && path[0] == '/'
}

/// The names of an absolute path, from the root down: what stands between
/// its separators, without empty pieces and without the dot for "here".
pub open spec fn path_names(path: Seq<char>) -> Seq<Seq<char>> {
    split_from(path, 1, 1)
}

/// The names that a list of strings holds.
pub open spec fn names_view(names: Seq<String>) -> Seq<Seq<char>> {
    Seq::new(names.len(), |i: int| names[i]@)
}

/// Whether a path starts with the separator.
pub fn path_is_absolute(path: &str) -> (r: bool)
    ensures
        r == is_absolute(path@),
{
    let n = path.unicode_len();
    n > 0 && path.get_char(0) == '/'
}

/// Parts an absolute path into its names, from the root down.
pub fn clean_path(path: &str) -> (r: Vec<String>)
    requires
        is_absolute(path@),
    ensures
        names_view(r@) == path_names(path@),
{
    let n = path.unicode_len();
    let mut out: Vec<String> = Vec::new();
    let mut start: usize = 1;
    let mut i: usize = 1;
    proof {
        assert(names_view(out@) =~= Seq::<Seq<char>>::empty());
    }
    while i < n
        invariant
            1 <= start <= i <= n,
            n == path@.len(),
            path_names(path@) == names_view(out@) + split_from(path@, start as int, i as int),
        decreases n - i,
    {
        let ghost entering = names_view(out@);
        let ghost rest = split_from(path@, i as int + 1, i as int + 1);
        let ghost p = piece(path@.subrange(start as int, i as int));
        if path.get_char(i) == '/' {
            if start < i {
                let segment = path.substring_char(start, i);
                if !names_equal(segment, ".") {
                    out.push(segment.to_string());
                }
            }
            proof {
                assert(names_view(out@) =~= entering + p);
                assert(entering + (p + rest) =~= (entering + p) + rest);
            }
            start = i + 1;
        }
        i = i + 1;
    }
    let ghost entering = names_view(out@);
    let ghost p = split_from(path@, start as int, i as int);
    if start < n {
        let segment = path.substring_char(start, n);
        if !names_equal(segment, ".") {
            out.push(segment.to_string());
        }
    }
    proof {
        assert(names_view(out@) =~= entering + p);
    }
    out
}

} // verus!
