//! The final component and the extension of a `/`-separated path, as
//! `std::path::Path::file_name` and `Path::extension` document them.
use vstd::prelude::*;
use crate::text::{ranges_ok, ranges_view, slice_eq, split_char, split_char_ranges};

verus! {

/// The last piece that is neither empty nor `.`: repeated and trailing
/// separators and `.` components do not count as components.
pub open spec fn last_component(segs: Seq<Seq<char>>) -> Option<Seq<char>>
    decreases segs.len(),
{
    if segs.len() == 0 {
        None
    } else if segs.last().len() == 0 || segs.last() == seq!['.'] {
        last_component(segs.drop_last())
    } else {
        Some(segs.last())
    }
}

/// `Path::file_name`: the final component, unless it is `..` or there is none.
pub open spec fn file_name(p: Seq<char>) -> Option<Seq<char>> {
    match last_component(split_char(p, '/')) {
        Some(x) => if x == seq!['.', '.'] {
            None
        } else {
            Some(x)
        },
        None => None,
    }
}

/// Index of the last `.` of `s`, or -1.
pub open spec fn last_dot(s: Seq<char>) -> int
    decreases s.len(),
{
    if s.len() == 0 {
        -1
    } else if s.last() == '.' {
        s.len() - 1
    } else {
        last_dot(s.drop_last())
    }
}

/// `Path::extension`: what follows the last `.` of the file name, when that
/// `.` is not its first character.
pub open spec fn extension(p: Seq<char>) -> Option<Seq<char>> {
    match file_name(p) {
        Some(name) => if last_dot(name) > 0 {
            Some(name.subrange(last_dot(name) + 1, name.len() as int))
        } else {
            None
        },
        None => None,
    }
}

pub proof fn lemma_last_dot(s: Seq<char>)
    ensures
        -1 <= last_dot(s) < s.len(),
        last_dot(s) >= 0 ==> s[last_dot(s)] == '.',
    decreases s.len(),
{
    if s.len() > 0 && s.last() != '.' {
        lemma_last_dot(s.drop_last());
    }
}

/// The file name of a path.
pub fn file_name_of<'a>(p: &'a [char]) -> (r: Option<&'a [char]>)
    ensures
        match r {
            Some(x) => file_name(p@) == Some(x@),
            None => file_name(p@) is None,
        },
{
    let ranges = split_char_ranges(p, '/');
    let ghost segs = ranges_view(p@, ranges@);
    let mut k = ranges.len();
    assert(segs.subrange(0, k as int) =~= segs);
    while k > 0
        invariant
            0 <= k <= ranges@.len(),
            segs == ranges_view(p@, ranges@),
            segs == split_char(p@, '/'),
            ranges_ok(p@, ranges@),
            last_component(segs) == last_component(segs.subrange(0, k as int)),
        decreases k,
    {
        let (a, b) = ranges[k - 1];
        let piece = vstd::slice::slice_subrange(p, a, b);
        assert(piece@ == segs[k - 1]);
        assert(segs.subrange(0, k as int).last() == segs[k - 1]);
        assert(segs.subrange(0, k as int).drop_last() =~= segs.subrange(0, k - 1));
        let dot: [char; 1] = ['.'];
        let dotdot: [char; 2] = ['.', '.'];
        assert(dot@ == seq!['.']);
        assert(dotdot@ == seq!['.', '.']);
        if piece.len() == 0 || slice_eq(piece, &dot) {
            k = k - 1;
        } else {
            assert(last_component(segs.subrange(0, k as int)) == Some(piece@));
            if slice_eq(piece, &dotdot) {
                return None;
            }
            return Some(piece);
        }
    }
    None
}

/// The extension of a path.
pub fn extension_of<'a>(p: &'a [char]) -> (r: Option<&'a [char]>)
    ensures
        match r {
            Some(x) => extension(p@) == Some(x@),
            None => extension(p@) is None,
        },
{
    match file_name_of(p) {
        None => None,
        Some(name) => {
            let mut j = name.len();
            assert(name@.subrange(0, j as int) =~= name@);
            while j > 0 && name[j - 1] != '.'
                invariant
                    0 <= j <= name@.len(),
                    last_dot(name@) == last_dot(name@.subrange(0, j as int)),
                decreases j,
            {
                assert(name@.subrange(0, j as int).drop_last() =~= name@.subrange(0, j - 1));
                j = j - 1;
            }
            // `j` is one past the last dot, or 0 when there is none.
            if j >= 2 {
                Some(vstd::slice::slice_subrange(name, j, name.len()))
            } else {
                None
            }
        },
    }
}

} // verus!
