//! Character-level text operations on the `Seq<char>` view of strings.
use vstd::prelude::*;

verus! {

broadcast use vstd::string::group_string_axioms;

/// Unicode `White_Space` property, as `char::is_whitespace` documents it.
pub open spec fn is_ws(c: char) -> bool {
    let u = c as u32;
    (0x09 <= u && u <= 0x0d) || u == 0x20 || u == 0x85 || u == 0xa0 || u == 0x1680
        || (0x2000 <= u && u <= 0x200a) || u == 0x2028 || u == 0x2029 || u == 0x202f
        || u == 0x205f || u == 0x3000
}

pub fn char_is_ws(c: char) -> (r: bool)
    ensures
        r == is_ws(c),
{
    let u = c as u32;
    (0x09 <= u && u <= 0x0d) || u == 0x20 || u == 0x85 || u == 0xa0 || u == 0x1680
        || (0x2000 <= u && u <= 0x200a) || u == 0x2028 || u == 0x2029 || u == 0x202f
        || u == 0x205f || u == 0x3000
}

/// Copies the characters of a string.
pub fn chars_of(s: &str) -> (r: Vec<char>)
    ensures
        r@ == s@,
{
    let mut r: Vec<char> = Vec::new();
    for c in it: s.chars()
        invariant
            it.seq() == s@,
            r@ == s@.take(it.index() as int),
    {
        r.push(c);
    }
    r
}

} // verus!

verus! {

/// Builds a `String` from characters with `String`'s `FromIterator<&char>`
/// (`collect`), which appends each character in order: the result holds exactly
/// the given characters.
#[verifier::external_body]
pub(crate) fn string_of(v: &[char]) -> (s: String)
    ensures
        s@ == v@,
{
    v.iter().collect()
}

// ---------------------------------------------------------------- trimming

pub open spec fn trim_start(s: Seq<char>) -> Seq<char>
    decreases s.len(),
{
    if s.len() > 0 && is_ws(s[0]) {
        trim_start(s.drop_first())
    } else {
        s
    }
}

pub open spec fn trim_end(s: Seq<char>) -> Seq<char>
    decreases s.len(),
{
    if s.len() > 0 && is_ws(s.last()) {
        trim_end(s.drop_last())
    } else {
        s
    }
}

/// `str::trim`: whitespace removed from both ends.
pub open spec fn trim(s: Seq<char>) -> Seq<char> {
    trim_end(trim_start(s))
}

pub fn trim_start_slice<'a>(s: &'a [char]) -> (r: &'a [char])
    ensures
        r@ == trim_start(s@),
{
    let mut i: usize = 0;
    assert(s@.subrange(0, s@.len() as int) =~= s@);
    while i < s.len() && char_is_ws(s[i])
        invariant
            0 <= i <= s@.len(),
            trim_start(s@) == trim_start(s@.subrange(i as int, s@.len() as int)),
        decreases s@.len() - i,
    {
        assert(s@.subrange(i as int, s@.len() as int).drop_first() =~= s@.subrange(
            i + 1,
            s@.len() as int,
        ));
        i = i + 1;
    }
    vstd::slice::slice_subrange(s, i, s.len())
}

pub fn trim_end_slice<'a>(s: &'a [char]) -> (r: &'a [char])
    ensures
        r@ == trim_end(s@),
{
    let mut j: usize = s.len();
    assert(s@.subrange(0, s@.len() as int) =~= s@);
    while j > 0 && char_is_ws(s[j - 1])
        invariant
            0 <= j <= s@.len(),
            trim_end(s@) == trim_end(s@.subrange(0, j as int)),
        decreases j,
    {
        assert(s@.subrange(0, j as int).drop_last() =~= s@.subrange(0, j - 1));
        j = j - 1;
    }
    vstd::slice::slice_subrange(s, 0, j)
}

pub fn trim_slice<'a>(s: &'a [char]) -> (r: &'a [char])
    ensures
        r@ == trim(s@),
{
    trim_end_slice(trim_start_slice(s))
}

// ---------------------------------------------------------------- prefixes and patterns

pub open spec fn starts_with(s: Seq<char>, p: Seq<char>) -> bool {
    p.len() <= s.len() && s.subrange(0, p.len() as int) == p
}

pub open spec fn ends_with(s: Seq<char>, p: Seq<char>) -> bool {
    p.len() <= s.len() && s.subrange(s.len() - p.len(), s.len() as int) == p
}

/// `p` occurs in `s` at position `i`.
pub open spec fn occurs_at(s: Seq<char>, p: Seq<char>, i: int) -> bool {
    0 <= i && i + p.len() <= s.len() && s.subrange(i, i + p.len()) == p
}

pub open spec fn contains(s: Seq<char>, p: Seq<char>) -> bool {
    exists|i: int| occurs_at(s, p, i)
}

/// Position of the leftmost occurrence of `p` in `s` at or after `i`, or -1.
pub open spec fn find_from(s: Seq<char>, p: Seq<char>, i: int) -> int
    decreases s.len() + 1 - i,
{
    if i < 0 || i + p.len() > s.len() {
        -1
    } else if occurs_at(s, p, i) {
        i
    } else {
        find_from(s, p, i + 1)
    }
}

/// Position of the leftmost occurrence of `p` in `s`, or -1.
pub open spec fn find(s: Seq<char>, p: Seq<char>) -> int {
    find_from(s, p, 0)
}

pub proof fn lemma_find_from(s: Seq<char>, p: Seq<char>, i: int)
    requires
        0 <= i,
    ensures
        find_from(s, p, i) == -1 || (i <= find_from(s, p, i) && occurs_at(s, p, find_from(s, p, i))),
        forall|j: int| i <= j && (find_from(s, p, i) == -1 || j < find_from(s, p, i)) ==> !occurs_at(s, p, j),
    decreases s.len() + 1 - i,
{
    if i + p.len() > s.len() {
    } else if occurs_at(s, p, i) {
    } else {
        lemma_find_from(s, p, i + 1);
        assert forall|j: int| i <= j && (find_from(s, p, i) == -1 || j < find_from(s, p, i)) implies !occurs_at(s, p, j) by {
            if j == i {
            } else {
            }
        }
    }
}

/// Facts about `find`: -1 exactly when `p` does not occur, else the leftmost occurrence.
pub proof fn lemma_find(s: Seq<char>, p: Seq<char>)
    ensures
        find(s, p) == -1 <==> !contains(s, p),
        find(s, p) != -1 ==> occurs_at(s, p, find(s, p)),
        forall|j: int| 0 <= j < find(s, p) ==> !occurs_at(s, p, j),
{
    lemma_find_from(s, p, 0);
    if find(s, p) != -1 {
        assert(occurs_at(s, p, find(s, p)));
    }
}

pub fn slice_eq(a: &[char], b: &[char]) -> (r: bool)
    ensures
        r == (a@ == b@),
{
    if a.len() != b.len() {
        return false;
    }
    let mut i: usize = 0;
    while i < a.len()
        invariant
            a@.len() == b@.len(),
            0 <= i <= a@.len(),
            forall|k: int| 0 <= k < i ==> a@[k] == b@[k],
        decreases a@.len() - i,
    {
        if a[i] != b[i] {
            return false;
        }
        i = i + 1;
    }
    assert(a@ =~= b@);
    true
}

/// Does `p` occur in `s` at position `i`?
pub fn occurs_at_exec(s: &[char], p: &[char], i: usize) -> (r: bool)
    ensures
        r == occurs_at(s@, p@, i as int),
{
    if i > s.len() || p.len() > s.len() - i {
        return false;
    }
    let mut k: usize = 0;
    let n = s.len();
    while k < p.len()
        invariant
            n == s@.len(),
            i + p@.len() <= s@.len(),
            0 <= k <= p@.len(),
            forall|m: int| 0 <= m < k ==> s@[i + m] == p@[m],
        decreases p@.len() - k,
    {
        if s[i + k] != p[k] {
            assert(s@.subrange(i as int, i + p@.len())[k as int] != p@[k as int]);
            return false;
        }
        k = k + 1;
    }
    assert(s@.subrange(i as int, i + p@.len()) =~= p@);
    true
}

pub fn starts_with_exec(s: &[char], p: &[char]) -> (r: bool)
    ensures
        r == starts_with(s@, p@),
{
    occurs_at_exec(s, p, 0)
}

pub fn ends_with_exec(s: &[char], p: &[char]) -> (r: bool)
    ensures
        r == ends_with(s@, p@),
{
    if p.len() > s.len() {
        return false;
    }
    occurs_at_exec(s, p, s.len() - p.len())
}

/// Leftmost occurrence of `p` in `s`.
pub fn find_exec(s: &[char], p: &[char]) -> (r: Option<usize>)
    ensures
        match r {
            Some(i) => i as int == find(s@, p@),
            None => find(s@, p@) == -1,
        },
{
    if p.len() > s.len() {
        return None;
    }
    if p.len() == 0 {
        assert(s@.subrange(0, 0) =~= p@);
        assert(occurs_at(s@, p@, 0));
        return Some(0);
    }
    let mut i: usize = 0;
    while i <= s.len() - p.len()
        invariant
            1 <= p@.len() <= s@.len(),
            0 <= i <= s@.len() - p@.len() + 1,
            find(s@, p@) == find_from(s@, p@, i as int),
        decreases s@.len() - p@.len() + 1 - i,
    {
        if occurs_at_exec(s, p, i) {
            return Some(i);
        }
        i = i + 1;
    }
    None
}

pub fn contains_exec(s: &[char], p: &[char]) -> (r: bool)
    ensures
        r == contains(s@, p@),
{
    proof {
        lemma_find(s@, p@);
    }
    match find_exec(s, p) {
        Some(_) => true,
        None => false,
    }
}

} // verus!

verus! {

// ---------------------------------------------------------------- single characters

/// Index of the first `c` in `s`, or `s.len()` when there is none.
pub open spec fn find_char(s: Seq<char>, c: char) -> int
    decreases s.len(),
{
    if s.len() == 0 {
        0
    } else if s[0] == c {
        0
    } else {
        1 + find_char(s.drop_first(), c)
    }
}

pub proof fn lemma_find_char(s: Seq<char>, c: char)
    ensures
        0 <= find_char(s, c) <= s.len(),
        forall|j: int| 0 <= j < find_char(s, c) ==> s[j] != c,
        find_char(s, c) < s.len() ==> s[find_char(s, c)] == c,
    decreases s.len(),
{
    if s.len() > 0 && s[0] != c {
        lemma_find_char(s.drop_first(), c);
        assert forall|j: int| 0 <= j < find_char(s, c) implies s[j] != c by {
            if j > 0 {
                assert(s[j] == s.drop_first()[j - 1]);
            }
        }
    }
}

/// `find_char` is pinned down by its two properties.
pub proof fn lemma_find_char_unique(s: Seq<char>, c: char, k: int)
    requires
        0 <= k <= s.len(),
        forall|j: int| 0 <= j < k ==> s[j] != c,
        k < s.len() ==> s[k] == c,
    ensures
        find_char(s, c) == k,
{
    lemma_find_char(s, c);
    let f = find_char(s, c);
    if f < k {
        assert(s[f] == c);
    } else if f > k {
        assert(s[k] != c);
    }
}

/// Scans `s` from `from` to the next `c`; returns its index or `s.len()`.
pub fn scan_to_char(s: &[char], from: usize, c: char) -> (j: usize)
    requires
        from <= s@.len(),
    ensures
        from <= j <= s@.len(),
        j - from == find_char(s@.subrange(from as int, s@.len() as int), c),
{
    let n = s.len();
    let mut j = from;
    while j < n && s[j] != c
        invariant
            n == s@.len(),
            from <= j <= n,
            forall|k: int| from <= k < j ==> s@[k] != c,
        decreases n - j,
    {
        j = j + 1;
    }
    proof {
        let t = s@.subrange(from as int, n as int);
        assert forall|k: int| 0 <= k < j - from implies t[k] != c by {
            assert(t[k] == s@[from + k]);
        }
        lemma_find_char_unique(t, c, j - from);
    }
    j
}

// ---------------------------------------------------------------- lines

/// `str::lines`: pieces split at `'\n'`, a `'\r'` before the `'\n'` dropped, no
/// final empty piece after a trailing newline.
pub open spec fn lines(s: Seq<char>) -> Seq<Seq<char>>
    decreases s.len(),
{
    if s.len() == 0 {
        seq![]
    } else {
        let i = find_char(s, '\n');
        if i >= s.len() || i < 0 {
            seq![s]
        } else {
            let l = s.subrange(0, i);
            let l2 = if l.len() > 0 && l.last() == '\r' {
                l.drop_last()
            } else {
                l
            };
            seq![l2] + lines(s.subrange(i + 1, s.len() as int))
        }
    }
}

pub open spec fn ranges_view(s: Seq<char>, r: Seq<(usize, usize)>) -> Seq<Seq<char>> {
    Seq::new(r.len(), |k: int| s.subrange(r[k].0 as int, r[k].1 as int))
}

pub open spec fn ranges_ok(s: Seq<char>, r: Seq<(usize, usize)>) -> bool {
    forall|k: int| 0 <= k < r.len() ==> #[trigger] r[k].0 <= r[k].1 && r[k].1 <= s.len()
}

/// Bounds of the lines of `s`.
pub fn line_ranges(s: &[char]) -> (r: Vec<(usize, usize)>)
    ensures
        ranges_ok(s@, r@),
        ranges_view(s@, r@) == lines(s@),
{
    let n = s.len();
    let mut out: Vec<(usize, usize)> = Vec::new();
    let mut pos: usize = 0;
    assert(s@.subrange(0, n as int) =~= s@);
    while pos < n
        invariant
            n == s@.len(),
            0 <= pos <= n,
            ranges_ok(s@, out@),
            lines(s@) == ranges_view(s@, out@) + lines(s@.subrange(pos as int, n as int)),
        decreases n - pos,
    {
        let ghost rest = s@.subrange(pos as int, n as int);
        let j = scan_to_char(s, pos, '\n');
        let ghost old_out = out@;
        if j == n {
            out.push((pos, n));
            proof {
                assert(lines(rest) == seq![rest]);
                assert(ranges_view(s@, out@) =~= ranges_view(s@, old_out) + seq![rest]);
                assert(s@.subrange(n as int, n as int) =~= Seq::<char>::empty());
            }
            pos = n;
        } else {
            let e = if j > pos && s[j - 1] == '\r' {
                j - 1
            } else {
                j
            };
            out.push((pos, e));
            proof {
                let i = j - pos;
                let l = rest.subrange(0, i);
                assert(l =~= s@.subrange(pos as int, j as int));
                assert(rest.subrange(i + 1, rest.len() as int) =~= s@.subrange(j + 1, n as int));
                if j > pos && s@[j - 1] == '\r' {
                    assert(l.drop_last() =~= s@.subrange(pos as int, e as int));
                }
                assert(ranges_view(s@, out@) =~= ranges_view(s@, old_out) + seq![
                    s@.subrange(pos as int, e as int),
                ]);
            }
            pos = j + 1;
        }
    }
    proof {
        assert(lines(s@.subrange(n as int, n as int)) =~= Seq::<Seq<char>>::empty());
    }
    out
}

// ---------------------------------------------------------------- splitting at a character

/// `str::split` at a character: every piece, empty ones included.
pub open spec fn split_char(s: Seq<char>, c: char) -> Seq<Seq<char>>
    decreases s.len(),
{
    let i = find_char(s, c);
    if i >= s.len() || i < 0 {
        seq![s]
    } else {
        seq![s.subrange(0, i)] + split_char(s.subrange(i + 1, s.len() as int), c)
    }
}

/// Bounds of the pieces of `s` split at `c`.
pub fn split_char_ranges(s: &[char], c: char) -> (r: Vec<(usize, usize)>)
    ensures
        ranges_ok(s@, r@),
        ranges_view(s@, r@) == split_char(s@, c),
{
    let n = s.len();
    let mut out: Vec<(usize, usize)> = Vec::new();
    let mut pos: usize = 0;
    assert(s@.subrange(0, n as int) =~= s@);
    loop
        invariant_except_break
            split_char(s@, c) == ranges_view(s@, out@) + split_char(
                s@.subrange(pos as int, n as int),
                c,
            ),
        invariant
            n == s@.len(),
            0 <= pos <= n,
            ranges_ok(s@, out@),
        ensures
            ranges_ok(s@, out@),
            split_char(s@, c) == ranges_view(s@, out@),
        decreases n - pos,
    {
        let ghost rest = s@.subrange(pos as int, n as int);
        let j = scan_to_char(s, pos, c);
        let ghost old_out = out@;
        out.push((pos, j));
        if j == n {
            proof {
                assert(split_char(rest, c) == seq![rest]);
                assert(ranges_view(s@, out@) =~= ranges_view(s@, old_out) + seq![rest]);
            }
            break;
        } else {
            proof {
                let i = j - pos;
                assert(rest.subrange(0, i) =~= s@.subrange(pos as int, j as int));
                assert(rest.subrange(i + 1, rest.len() as int) =~= s@.subrange(j + 1, n as int));
                assert(ranges_view(s@, out@) =~= ranges_view(s@, old_out) + seq![
                    s@.subrange(pos as int, j as int),
                ]);
            }
            pos = j + 1;
        }
    }
    out
}

} // verus!

verus! {

// ---------------------------------------------------------------- words

/// Index of the first whitespace character of `s`, or `s.len()`.
pub open spec fn find_ws(s: Seq<char>) -> int
    decreases s.len(),
{
    if s.len() == 0 {
        0
    } else if is_ws(s[0]) {
        0
    } else {
        1 + find_ws(s.drop_first())
    }
}

pub proof fn lemma_find_ws_unique(s: Seq<char>, k: int)
    requires
        0 <= k <= s.len(),
        forall|j: int| 0 <= j < k ==> !is_ws(s[j]),
        k < s.len() ==> is_ws(s[k]),
    ensures
        find_ws(s) == k,
    decreases s.len(),
{
    if s.len() > 0 && !is_ws(s[0]) {
        assert(k > 0);
        let t = s.drop_first();
        assert forall|j: int| 0 <= j < k - 1 implies !is_ws(t[j]) by {
            assert(t[j] == s[j + 1]);
        }
        lemma_find_ws_unique(t, k - 1);
    }
}

/// `str::split_whitespace`: the maximal runs of non-whitespace characters.
pub open spec fn words(s: Seq<char>) -> Seq<Seq<char>>
    decreases s.len(),
{
    if s.len() == 0 {
        seq![]
    } else if is_ws(s[0]) {
        words(s.drop_first())
    } else {
        let k = find_ws(s);
        if k <= 0 || k > s.len() {
            seq![s]
        } else {
            seq![s.subrange(0, k)] + words(s.subrange(k, s.len() as int))
        }
    }
}

/// Bounds of the words of `s`.
pub fn word_ranges(s: &[char]) -> (r: Vec<(usize, usize)>)
    ensures
        ranges_ok(s@, r@),
        ranges_view(s@, r@) == words(s@),
{
    let n = s.len();
    let mut out: Vec<(usize, usize)> = Vec::new();
    let mut pos: usize = 0;
    assert(s@.subrange(0, n as int) =~= s@);
    while pos < n
        invariant
            n == s@.len(),
            0 <= pos <= n,
            ranges_ok(s@, out@),
            words(s@) == ranges_view(s@, out@) + words(s@.subrange(pos as int, n as int)),
        decreases n - pos,
    {
        let ghost rest = s@.subrange(pos as int, n as int);
        if char_is_ws(s[pos]) {
            assert(rest.drop_first() =~= s@.subrange(pos + 1, n as int));
            pos = pos + 1;
        } else {
            let mut j = pos + 1;
            while j < n && !char_is_ws(s[j])
                invariant
                    n == s@.len(),
                    pos < j <= n,
                    forall|k: int| pos <= k < j ==> !is_ws(s@[k]),
                decreases n - j,
            {
                j = j + 1;
            }
            let ghost old_out = out@;
            out.push((pos, j));
            proof {
                assert forall|k: int| 0 <= k < j - pos implies !is_ws(rest[k]) by {
                    assert(rest[k] == s@[pos + k]);
                }
                lemma_find_ws_unique(rest, j - pos);
                assert(rest.subrange(0, j - pos) =~= s@.subrange(pos as int, j as int));
                assert(rest.subrange(j - pos, rest.len() as int) =~= s@.subrange(j as int, n as int));
                assert(ranges_view(s@, out@) =~= ranges_view(s@, old_out) + seq![
                    s@.subrange(pos as int, j as int),
                ]);
            }
            pos = j;
        }
    }
    proof {
        assert(words(s@.subrange(n as int, n as int)) =~= Seq::<Seq<char>>::empty());
    }
    out
}

// ---------------------------------------------------------------- stripping

/// `str::trim_start_matches` with a string pattern: every leading copy of `p` removed.
pub open spec fn strip_prefix_all(s: Seq<char>, p: Seq<char>) -> Seq<char>
    decreases s.len(),
{
    if p.len() > 0 && starts_with(s, p) {
        strip_prefix_all(s.subrange(p.len() as int, s.len() as int), p)
    } else {
        s
    }
}

/// `str::trim_start_matches` with a character.
pub open spec fn strip_start_char(s: Seq<char>, c: char) -> Seq<char>
    decreases s.len(),
{
    if s.len() > 0 && s[0] == c {
        strip_start_char(s.drop_first(), c)
    } else {
        s
    }
}

/// `str::trim_end_matches` with a character.
pub open spec fn strip_end_char(s: Seq<char>, c: char) -> Seq<char>
    decreases s.len(),
{
    if s.len() > 0 && s.last() == c {
        strip_end_char(s.drop_last(), c)
    } else {
        s
    }
}

/// `str::trim_matches` with a character.
pub open spec fn strip_char(s: Seq<char>, c: char) -> Seq<char> {
    strip_end_char(strip_start_char(s, c), c)
}

pub fn strip_prefix_all_slice<'a>(s: &'a [char], p: &[char]) -> (r: &'a [char])
    ensures
        r@ == strip_prefix_all(s@, p@),
{
    let n = s.len();
    let mut i: usize = 0;
    assert(s@.subrange(0, n as int) =~= s@);
    if p.len() == 0 {
        return s;
    }
    loop
        invariant
            n == s@.len(),
            p@.len() > 0,
            0 <= i <= n,
            strip_prefix_all(s@, p@) == strip_prefix_all(s@.subrange(i as int, n as int), p@),
        decreases n - i,
    {
        let rest = vstd::slice::slice_subrange(s, i, n);
        if starts_with_exec(rest, p) {
            assert(rest@.subrange(p@.len() as int, rest@.len() as int) =~= s@.subrange(
                i + p@.len(),
                n as int,
            ));
            i = i + p.len();
        } else {
            return rest;
        }
    }
}

pub fn strip_start_char_slice<'a>(s: &'a [char], c: char) -> (r: &'a [char])
    ensures
        r@ == strip_start_char(s@, c),
{
    let n = s.len();
    let mut i: usize = 0;
    assert(s@.subrange(0, n as int) =~= s@);
    while i < n && s[i] == c
        invariant
            n == s@.len(),
            0 <= i <= n,
            strip_start_char(s@, c) == strip_start_char(s@.subrange(i as int, n as int), c),
        decreases n - i,
    {
        assert(s@.subrange(i as int, n as int).drop_first() =~= s@.subrange(i + 1, n as int));
        i = i + 1;
    }
    vstd::slice::slice_subrange(s, i, n)
}

pub fn strip_end_char_slice<'a>(s: &'a [char], c: char) -> (r: &'a [char])
    ensures
        r@ == strip_end_char(s@, c),
{
    let mut j: usize = s.len();
    assert(s@.subrange(0, s@.len() as int) =~= s@);
    while j > 0 && s[j - 1] == c
        invariant
            0 <= j <= s@.len(),
            strip_end_char(s@, c) == strip_end_char(s@.subrange(0, j as int), c),
        decreases j,
    {
        assert(s@.subrange(0, j as int).drop_last() =~= s@.subrange(0, j - 1));
        j = j - 1;
    }
    vstd::slice::slice_subrange(s, 0, j)
}

pub fn strip_char_slice<'a>(s: &'a [char], c: char) -> (r: &'a [char])
    ensures
        r@ == strip_char(s@, c),
{
    strip_end_char_slice(strip_start_char_slice(s, c), c)
}

// ---------------------------------------------------------------- splitting at a pattern

/// First piece of `str::split(p)`: everything before the first `p`.
pub open spec fn before_first(s: Seq<char>, p: Seq<char>) -> Seq<char> {
    if find(s, p) == -1 {
        s
    } else {
        s.subrange(0, find(s, p))
    }
}

/// Everything after the first `p` (only meaningful when `p` occurs).
pub open spec fn after_first(s: Seq<char>, p: Seq<char>) -> Seq<char> {
    s.subrange(find(s, p) + p.len(), s.len() as int)
}

/// Second piece of `str::split(p)` for a non-empty `p`: between the first and the second `p`.
pub open spec fn second_piece(s: Seq<char>, p: Seq<char>) -> Option<Seq<char>> {
    if find(s, p) == -1 {
        None
    } else {
        Some(before_first(after_first(s, p), p))
    }
}

pub fn before_first_slice<'a>(s: &'a [char], p: &[char]) -> (r: &'a [char])
    ensures
        r@ == before_first(s@, p@),
{
    proof {
        lemma_find(s@, p@);
    }
    match find_exec(s, p) {
        Some(i) => vstd::slice::slice_subrange(s, 0, i),
        None => s,
    }
}

pub fn second_piece_slice<'a>(s: &'a [char], p: &[char]) -> (r: Option<&'a [char]>)
    ensures
        match r {
            Some(x) => second_piece(s@, p@) == Some(x@),
            None => second_piece(s@, p@) is None,
        },
{
    proof {
        lemma_find(s@, p@);
    }
    let n = s.len();
    match find_exec(s, p) {
        Some(i) => {
            assert(i + p@.len() <= n);
            let rest = vstd::slice::slice_subrange(s, i + p.len(), n);
            Some(before_first_slice(rest, p))
        },
        None => None,
    }
}

} // verus!

verus! {

// ---------------------------------------------------------------- ASCII case folding

/// Code point of `c` with ASCII upper-case letters folded to lower case.
pub open spec fn lower_code(c: char) -> u32 {
    let u = c as u32;
    if 65 <= u && u <= 90 {
        (u + 32) as u32
    } else {
        u
    }
}

pub fn lower_code_exec(c: char) -> (r: u32)
    ensures
        r == lower_code(c),
{
    let u = c as u32;
    if 65 <= u && u <= 90 {
        u + 32
    } else {
        u
    }
}

/// `p` occurs in `s` at `i` when upper-case ASCII letters of `s` are read as lower case.
pub open spec fn occurs_ci_at(s: Seq<char>, p: Seq<char>, i: int) -> bool {
    0 <= i && i + p.len() <= s.len() && forall|k: int|
        0 <= k < p.len() ==> lower_code(#[trigger] s[i + k]) == p[k] as u32
}

pub open spec fn contains_ci(s: Seq<char>, p: Seq<char>) -> bool {
    exists|i: int| occurs_ci_at(s, p, i)
}

/// `s` equals `p` when upper-case ASCII letters of `s` are read as lower case.
pub open spec fn eq_ci(s: Seq<char>, p: Seq<char>) -> bool {
    s.len() == p.len() && occurs_ci_at(s, p, 0)
}

pub fn occurs_ci_at_exec(s: &[char], p: &[char], i: usize) -> (r: bool)
    ensures
        r == occurs_ci_at(s@, p@, i as int),
{
    let n = s.len();
    if i > n || p.len() > n - i {
        return false;
    }
    let mut k: usize = 0;
    while k < p.len()
        invariant
            n == s@.len(),
            i + p@.len() <= n,
            0 <= k <= p@.len(),
            forall|m: int| 0 <= m < k ==> lower_code(#[trigger] s@[i + m]) == p@[m] as u32,
        decreases p@.len() - k,
    {
        if lower_code_exec(s[i + k]) != p[k] as u32 {
            return false;
        }
        k = k + 1;
    }
    true
}

pub fn eq_ci_exec(s: &[char], p: &[char]) -> (r: bool)
    ensures
        r == eq_ci(s@, p@),
{
    s.len() == p.len() && occurs_ci_at_exec(s, p, 0)
}

pub fn contains_ci_exec(s: &[char], p: &[char]) -> (r: bool)
    ensures
        r == contains_ci(s@, p@),
{
    let n = s.len();
    let mut i: usize = 0;
    while i < n
        invariant
            n == s@.len(),
            0 <= i <= n,
            forall|j: int| 0 <= j < i ==> !occurs_ci_at(s@, p@, j),
        decreases n - i,
    {
        if occurs_ci_at_exec(s, p, i) {
            return true;
        }
        i = i + 1;
    }
    if occurs_ci_at_exec(s, p, n) {
        return true;
    }
    assert forall|j: int| !occurs_ci_at(s@, p@, j) by {
        if 0 <= j && j < n {
        }
    }
    false
}

} // verus!
