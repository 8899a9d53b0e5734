//! Size and complexity measures of source text, and classification of files and imports.
use vstd::prelude::*;
use crate::text::{
    chars_of, contains, contains_ci, contains_ci_exec, contains_exec, ends_with, ends_with_exec,
    is_ws, char_is_ws, line_ranges, lines, ranges_ok, ranges_view, starts_with, starts_with_exec,
    trim, trim_slice, trim_start, trim_start_slice, words,
};

verus! {

// ---------------------------------------------------------------- lines as character vectors

pub open spec fn char_lines_view(v: Seq<Vec<char>>) -> Seq<Seq<char>> {
    v.map_values(|l: Vec<char>| l@)
}

pub open spec fn strs_view(v: Seq<&str>) -> Seq<Seq<char>> {
    v.map_values(|l: &str| l@)
}

/// The lines of a text, each as a vector of characters.
pub fn char_lines(content: &[char]) -> (r: Vec<Vec<char>>)
    ensures
        char_lines_view(r@) == lines(content@),
        forall|i: int| 0 <= i < r@.len() ==> (#[trigger] r@[i])@.len() <= content@.len(),
{
    let ranges = line_ranges(content);
    let mut out: Vec<Vec<char>> = Vec::new();
    let mut k: usize = 0;
    while k < ranges.len()
        invariant
            0 <= k <= ranges@.len(),
            ranges_ok(content@, ranges@),
            ranges_view(content@, ranges@) == lines(content@),
            out@.len() == k,
            forall|i: int| 0 <= i < out@.len() ==> (#[trigger] out@[i])@.len() <= content@.len(),
            char_lines_view(out@) == ranges_view(content@, ranges@).subrange(0, k as int),
        decreases ranges@.len() - k,
    {
        let (a, b) = ranges[k];
        let piece = vstd::slice::slice_to_vec(vstd::slice::slice_subrange(content, a, b));
        let ghost old_out = out@;
        out.push(piece);
        proof {
            assert(out@ == old_out.push(piece));
            assert forall|i: int| 0 <= i < k + 1 implies char_lines_view(out@)[i] == ranges_view(
                content@,
                ranges@,
            )[i] by {
                if i < k {
                    assert(out@[i] == old_out[i]);
                    assert(char_lines_view(old_out)[i] == ranges_view(content@, ranges@).subrange(0, k as int)[i]);
                }
            }
        }
        k = k + 1;
        assert(char_lines_view(out@) =~= ranges_view(content@, ranges@).subrange(0, k as int));
    }
    assert(ranges_view(content@, ranges@).subrange(0, k as int) =~= ranges_view(content@, ranges@));
    out
}

/// The given lines, each as a vector of characters.
pub fn char_lines_of(lines: &[&str]) -> (r: Vec<Vec<char>>)
    ensures
        char_lines_view(r@) == strs_view(lines@),
{
    let mut out: Vec<Vec<char>> = Vec::new();
    let mut k: usize = 0;
    while k < lines.len()
        invariant
            0 <= k <= lines@.len(),
            out@.len() == k,
            char_lines_view(out@) == strs_view(lines@).subrange(0, k as int),
        decreases lines@.len() - k,
    {
        let piece = chars_of(lines[k]);
        let ghost old_out = out@;
        out.push(piece);
        proof {
            assert(out@ == old_out.push(piece));
            assert forall|i: int| 0 <= i < k + 1 implies char_lines_view(out@)[i] == strs_view(
                lines@,
            )[i] by {
                if i < k {
                    assert(out@[i] == old_out[i]);
                    assert(char_lines_view(old_out)[i] == strs_view(lines@).subrange(0, k as int)[i]);
                }
            }
        }
        k = k + 1;
        assert(char_lines_view(out@) =~= strs_view(lines@).subrange(0, k as int));
    }
    assert(strs_view(lines@).subrange(0, k as int) =~= strs_view(lines@));
    out
}

// ---------------------------------------------------------------- code lines

/// A line counts as code when, trimmed, it is not empty and does not open
/// with a comment or docstring marker.
pub open spec fn is_code_line(line: Seq<char>) -> bool {
    let t = trim(line);
    &&& t.len() > 0
    &&& !starts_with(t, seq!['/', '/'])
    &&& !starts_with(t, seq!['#'])
    &&& !starts_with(t, seq!['/', '*'])
    &&& !starts_with(t, seq!['*'])
    &&& !starts_with(t, seq!['-', '-'])
    &&& !starts_with(t, seq!['\'', '\'', '\''])
    &&& !starts_with(t, seq!['"', '"', '"'])
}

pub open spec fn count_code(ls: Seq<Seq<char>>) -> nat
    decreases ls.len(),
{
    if ls.len() == 0 {
        0
    } else {
        count_code(ls.drop_last()) + if is_code_line(ls.last()) {
            1nat
        } else {
            0nat
        }
    }
}

pub fn is_code_line_exec(line: &[char]) -> (r: bool)
    ensures
        r == is_code_line(line@),
{
    let t = trim_slice(line);
    let a1: [char; 2] = ['/', '/'];
    let a2: [char; 1] = ['#'];
    let a3: [char; 2] = ['/', '*'];
    let a4: [char; 1] = ['*'];
    let a5: [char; 2] = ['-', '-'];
    let a6: [char; 3] = ['\'', '\'', '\''];
    let a7: [char; 3] = ['"', '"', '"'];
    assert(a1@ == seq!['/', '/'] && a2@ == seq!['#'] && a3@ == seq!['/', '*'] && a4@ == seq!['*']);
    assert(a5@ == seq!['-', '-'] && a6@ == seq!['\'', '\'', '\''] && a7@ == seq!['"', '"', '"']);
    t.len() > 0 && !starts_with_exec(t, &a1) && !starts_with_exec(t, &a2)
        && !starts_with_exec(t, &a3) && !starts_with_exec(t, &a4)
        && !starts_with_exec(t, &a5) && !starts_with_exec(t, &a6)
        && !starts_with_exec(t, &a7)
}

fn count_code_in(ls: &[Vec<char>]) -> (r: usize)
    ensures
        r == count_code(char_lines_view(ls@)),
{
    let mut n: usize = 0;
    let mut k: usize = 0;
    while k < ls.len()
        invariant
            0 <= k <= ls@.len(),
            n <= k,
            n == count_code(char_lines_view(ls@).subrange(0, k as int)),
        decreases ls@.len() - k,
    {
        let ghost before = char_lines_view(ls@).subrange(0, k as int);
        if is_code_line_exec(ls[k].as_slice()) {
            n = n + 1;
        }
        k = k + 1;
        assert(char_lines_view(ls@).subrange(0, k as int).drop_last() =~= before);
    }
    assert(char_lines_view(ls@).subrange(0, k as int) =~= char_lines_view(ls@));
    n
}

/// Number of code lines among `lines`.
pub fn count_code_lines(lines: &[&str]) -> (r: usize)
    ensures
        r == count_code(strs_view(lines@)),
{
    count_code_in(char_lines_of(lines).as_slice())
}

/// Total lines and code lines of a text.
pub fn count_lines(content: &str) -> (r: (usize, usize))
    ensures
        r.0 == lines(content@).len(),
        r.1 == count_code(lines(content@)),
{
    let c = chars_of(content);
    let ls = char_lines(c.as_slice());
    (ls.len(), count_code_in(ls.as_slice()))
}

} // verus!

verus! {

// ---------------------------------------------------------------- control flow

/// The words whose presence marks a line as control flow.
pub open spec fn control_keywords() -> Seq<Seq<char>> {
    seq![
        seq!['i', 'f', ' '],
        seq!['e', 'l', 's', 'e', ' '],
        seq!['f', 'o', 'r', ' '],
        seq!['w', 'h', 'i', 'l', 'e', ' '],
        seq!['m', 'a', 't', 'c', 'h', ' '],
        seq!['s', 'w', 'i', 't', 'c', 'h', ' '],
        seq!['r', 'e', 't', 'u', 'r', 'n', ' '],
        seq!['b', 'r', 'e', 'a', 'k', ' '],
        seq!['c', 'o', 'n', 't', 'i', 'n', 'u', 'e', ' '],
        seq!['t', 'r', 'y', ' '],
        seq!['c', 'a', 't', 'c', 'h', ' '],
        seq!['f', 'n', ' '],
        seq!['d', 'e', 'f', ' '],
        seq!['f', 'u', 'n', 'c', 't', 'i', 'o', 'n', ' '],
        seq!['c', 'l', 'a', 's', 's', ' '],
        seq!['i', 'm', 'p', 'l', ' '],
        seq!['m', 'a', 't', 'c', 'h'],
        seq!['w', 'h', 'e', 'r', 'e', ' '],
    ]
}

/// A keyword opens the trimmed line, or follows a space inside it.
pub open spec fn is_control_line(line: Seq<char>) -> bool {
    let t = trim(line);
    exists|k: int|
        0 <= k < control_keywords().len() && (starts_with(t, #[trigger] control_keywords()[k])
            || contains(t, seq![' '] + control_keywords()[k]))
}

pub open spec fn count_control(ls: Seq<Seq<char>>) -> nat
    decreases ls.len(),
{
    if ls.len() == 0 {
        0
    } else {
        count_control(ls.drop_last()) + if is_control_line(ls.last()) {
            1nat
        } else {
            0nat
        }
    }
}

fn control_keywords_exec() -> (r: Vec<Vec<char>>)
    ensures
        char_lines_view(r@) == control_keywords(),
{
    let r: Vec<Vec<char>> = vec![
        vec!['i', 'f', ' '],
        vec!['e', 'l', 's', 'e', ' '],
        vec!['f', 'o', 'r', ' '],
        vec!['w', 'h', 'i', 'l', 'e', ' '],
        vec!['m', 'a', 't', 'c', 'h', ' '],
        vec!['s', 'w', 'i', 't', 'c', 'h', ' '],
        vec!['r', 'e', 't', 'u', 'r', 'n', ' '],
        vec!['b', 'r', 'e', 'a', 'k', ' '],
        vec!['c', 'o', 'n', 't', 'i', 'n', 'u', 'e', ' '],
        vec!['t', 'r', 'y', ' '],
        vec!['c', 'a', 't', 'c', 'h', ' '],
        vec!['f', 'n', ' '],
        vec!['d', 'e', 'f', ' '],
        vec!['f', 'u', 'n', 'c', 't', 'i', 'o', 'n', ' '],
        vec!['c', 'l', 'a', 's', 's', ' '],
        vec!['i', 'm', 'p', 'l', ' '],
        vec!['m', 'a', 't', 'c', 'h'],
        vec!['w', 'h', 'e', 'r', 'e', ' '],
    ];
    assert(char_lines_view(r@) =~= control_keywords());
    r
}

fn space_then(kw: &[char]) -> (r: Vec<char>)
    ensures
        r@ == seq![' '] + kw@,
{
    let mut r: Vec<char> = vec![' '];
    let mut k: usize = 0;
    while k < kw.len()
        invariant
            0 <= k <= kw@.len(),
            r@ == seq![' '] + kw@.subrange(0, k as int),
        decreases kw@.len() - k,
    {
        r.push(kw[k]);
        k = k + 1;
        assert(r@ =~= seq![' '] + kw@.subrange(0, k as int));
    }
    assert(kw@.subrange(0, k as int) =~= kw@);
    r
}

pub fn is_control_line_exec(line: &[char]) -> (r: bool)
    ensures
        r == is_control_line(line@),
{
    let t = trim_slice(line);
    let kws = control_keywords_exec();
    let mut k: usize = 0;
    while k < kws.len()
        invariant
            0 <= k <= kws@.len(),
            char_lines_view(kws@) == control_keywords(),
            t@ == trim(line@),
            forall|j: int|
                0 <= j < k ==> !(starts_with(t@, #[trigger] control_keywords()[j]) || contains(
                    t@,
                    seq![' '] + control_keywords()[j],
                )),
        decreases kws@.len() - k,
    {
        let kw = kws[k].as_slice();
        assert(kw@ == control_keywords()[k as int]);
        if starts_with_exec(t, kw) || contains_exec(t, space_then(kw).as_slice()) {
            return true;
        }
        k = k + 1;
    }
    false
}

fn count_control_in(ls: &[Vec<char>]) -> (r: usize)
    ensures
        r == count_control(char_lines_view(ls@)),
{
    let mut n: usize = 0;
    let mut k: usize = 0;
    while k < ls.len()
        invariant
            0 <= k <= ls@.len(),
            n <= k,
            n == count_control(char_lines_view(ls@).subrange(0, k as int)),
        decreases ls@.len() - k,
    {
        let ghost before = char_lines_view(ls@).subrange(0, k as int);
        if is_control_line_exec(ls[k].as_slice()) {
            n = n + 1;
        }
        k = k + 1;
        assert(char_lines_view(ls@).subrange(0, k as int).drop_last() =~= before);
    }
    assert(char_lines_view(ls@).subrange(0, k as int) =~= char_lines_view(ls@));
    n
}

/// Number of control-flow lines among `lines`.
pub fn count_control_flow(lines: &[&str]) -> (r: usize)
    ensures
        r == count_control(strs_view(lines@)),
{
    count_control_in(char_lines_of(lines).as_slice())
}

} // verus!

verus! {

// ---------------------------------------------------------------- nesting

/// Bytes of `c` in UTF-8.
pub open spec fn char_len_utf8(c: char) -> int {
    let u = c as u32;
    if u < 0x80 {
        1
    } else if u < 0x800 {
        2
    } else if u < 0x10000 {
        3
    } else {
        4
    }
}

/// Bytes of the leading whitespace of `s` in UTF-8.
pub open spec fn leading_ws_bytes(s: Seq<char>) -> int
    decreases s.len(),
{
    if s.len() > 0 && is_ws(s[0]) {
        char_len_utf8(s[0]) + leading_ws_bytes(s.drop_first())
    } else {
        0
    }
}

pub open spec fn closes_block(t: Seq<char>) -> bool {
    starts_with(t, seq!['}']) || starts_with(t, seq![']']) || starts_with(t, seq![')']) || t
        == seq!['e', 'n', 'd']
}

pub open spec fn opens_block(t: Seq<char>) -> bool {
    ends_with(t, seq!['{']) || ends_with(t, seq!['d', 'o']) || (ends_with(t, seq![':'])
        && !starts_with(t, seq!['#']))
}

pub open spec fn max_int(a: int, b: int) -> int {
    if a >= b {
        a
    } else {
        b
    }
}

/// One line of the nesting estimate: the state is (current depth, deepest so far).
/// The indentation (leading whitespace bytes / 4) moves the current depth; at an
/// unchanged indentation a closing line steps out by one; an opening line steps in.
pub open spec fn nest_step(st: (int, int), line: Seq<char>) -> (int, int) {
    let t = trim_start(line);
    let depth = leading_ws_bytes(line) / 4;
    let mid = if depth > st.0 {
        (depth, max_int(st.1, depth))
    } else if depth < st.0 {
        (depth, st.1)
    } else if closes_block(t) {
        (if st.0 > 0 {
            st.0 - 1
        } else {
            0
        }, st.1)
    } else {
        st
    };
    if opens_block(t) {
        (mid.0 + 1, max_int(mid.1, mid.0 + 1))
    } else {
        mid
    }
}

pub open spec fn nest_fold(ls: Seq<Seq<char>>) -> (int, int)
    decreases ls.len(),
{
    if ls.len() == 0 {
        (0, 0)
    } else {
        nest_step(nest_fold(ls.drop_last()), ls.last())
    }
}

/// The deepest nesting reached over the lines.
pub open spec fn nesting(ls: Seq<Seq<char>>) -> int {
    nest_fold(ls).1
}

pub proof fn lemma_leading_ws_bytes(s: Seq<char>)
    ensures
        0 <= leading_ws_bytes(s) <= 4 * s.len(),
    decreases s.len(),
{
    if s.len() > 0 && is_ws(s[0]) {
        lemma_leading_ws_bytes(s.drop_first());
    }
}

fn leading_ws_bytes_exec(s: &[char]) -> (r: u128)
    ensures
        r == leading_ws_bytes(s@),
{
    let n = s.len();
    let mut i: usize = 0;
    let mut b: u128 = 0;
    assert(s@.subrange(0, n as int) =~= s@);
    while i < n && char_is_ws(s[i])
        invariant
            n == s@.len(),
            0 <= i <= n,
            b <= 4 * i,
            b + leading_ws_bytes(s@.subrange(i as int, n as int)) == leading_ws_bytes(s@),
        decreases n - i,
    {
        assert(s@.subrange(i as int, n as int).drop_first() =~= s@.subrange(i + 1, n as int));
        let u = s[i] as u32;
        let w: u128 = if u < 0x80 {
            1
        } else if u < 0x800 {
            2
        } else if u < 0x10000 {
            3
        } else {
            4
        };
        b = b + w;
        i = i + 1;
    }
    b
}

fn nest_step_exec(cur: u128, mx: u128, line: &[char]) -> (r: (u128, u128))
    requires
        cur <= mx,
        mx <= u128::MAX / 2,
    ensures
        (r.0 as int, r.1 as int) == nest_step((cur as int, mx as int), line@),
        r.0 <= r.1,
        r.1 <= max_int(mx as int, line@.len() as int) + 1,
{
    proof {
        lemma_leading_ws_bytes(line@);
    }
    let t = trim_start_slice(line);
    let depth = leading_ws_bytes_exec(line) / 4;
    let (mut c, mut m) = if depth > cur {
        (depth, if mx >= depth { mx } else { depth })
    } else if depth < cur {
        (depth, mx)
    } else if starts_with_exec(t, &['}']) || starts_with_exec(t, &[']']) || starts_with_exec(t, &[')'])
        || crate::text::slice_eq(t, &['e', 'n', 'd']) {
        (if cur > 0 { cur - 1 } else { 0 }, mx)
    } else {
        (cur, mx)
    };
    let a1: [char; 1] = ['}'];
    let a2: [char; 1] = [']'];
    let a3: [char; 1] = [')'];
    let a4: [char; 3] = ['e', 'n', 'd'];
    assert(a1@ == seq!['}'] && a2@ == seq![']'] && a3@ == seq![')'] && a4@ == seq!['e', 'n', 'd']);
    let b1: [char; 1] = ['{'];
    let b2: [char; 2] = ['d', 'o'];
    let b3: [char; 1] = [':'];
    let b4: [char; 1] = ['#'];
    assert(b1@ == seq!['{'] && b2@ == seq!['d', 'o'] && b3@ == seq![':'] && b4@ == seq!['#']);
    if ends_with_exec(t, &b1) || ends_with_exec(t, &b2) || (ends_with_exec(t, &b3) && !starts_with_exec(
        t,
        &b4,
    )) {
        c = c + 1;
        if c > m {
            m = c;
        }
    }
    (c, m)
}

fn nest_in(ls: &[Vec<char>], Ghost(bound): Ghost<int>) -> (r: u128)
    requires
        forall|i: int| 0 <= i < ls@.len() ==> (#[trigger] ls@[i])@.len() <= bound,
        0 <= bound <= usize::MAX,
    ensures
        r == nesting(char_lines_view(ls@)),
        r <= bound + ls@.len(),
{
    let mut cur: u128 = 0;
    let mut mx: u128 = 0;
    let mut k: usize = 0;
    while k < ls.len()
        invariant
            0 <= k <= ls@.len(),
            forall|i: int| 0 <= i < ls@.len() ==> (#[trigger] ls@[i])@.len() <= bound,
            0 <= bound <= usize::MAX,
            cur <= mx,
            mx <= bound + k,
            (cur as int, mx as int) == nest_fold(char_lines_view(ls@).subrange(0, k as int)),
        decreases ls@.len() - k,
    {
        let ghost before = char_lines_view(ls@).subrange(0, k as int);
        assert(ls@[k as int]@.len() <= bound);
        let (c, m) = nest_step_exec(cur, mx, ls[k].as_slice());
        cur = c;
        mx = m;
        k = k + 1;
        assert(char_lines_view(ls@).subrange(0, k as int).drop_last() =~= before);
    }
    assert(char_lines_view(ls@).subrange(0, k as int) =~= char_lines_view(ls@));
    mx
}

/// The deepest nesting over `lines`. The bounds are those of any slice of
/// string slices: a `str` holds at most `isize::MAX` bytes.
pub fn estimate_nesting(lines: &[&str]) -> (r: usize)
    requires
        lines@.len() <= usize::MAX / 2,
        forall|i: int| 0 <= i < lines@.len() ==> (#[trigger] lines@[i])@.len() <= usize::MAX / 2,
    ensures
        r == nesting(strs_view(lines@)),
{
    let ls = char_lines_of(lines);
    assert(char_lines_view(ls@).len() == strs_view(lines@).len());
    assert(ls@.len() == lines@.len());
    assert forall|i: int| 0 <= i < ls@.len() implies (#[trigger] ls@[i])@.len() <= usize::MAX / 2 by {
        assert(char_lines_view(ls@)[i] == strs_view(lines@)[i]);
        assert(strs_view(lines@)[i] == lines@[i]@);
        assert(lines@[i]@.len() <= usize::MAX / 2);
    }
    let m = nest_in(ls.as_slice(), Ghost((usize::MAX / 2) as int));
    m as usize
}

} // verus!

verus! {

// ---------------------------------------------------------------- token variety

pub open spec fn is_ascii_punct(c: char) -> bool {
    let u = c as u32;
    (33 <= u && u <= 47) || (58 <= u && u <= 64) || (91 <= u && u <= 96) || (123 <= u && u <= 126)
}

pub fn is_ascii_punct_exec(c: char) -> (r: bool)
    ensures
        r == is_ascii_punct(c),
{
    let u = c as u32;
    (33 <= u && u <= 47) || (58 <= u && u <= 64) || (91 <= u && u <= 96) || (123 <= u && u <= 126)
}

pub open spec fn strip_punct_start(s: Seq<char>) -> Seq<char>
    decreases s.len(),
{
    if s.len() > 0 && is_ascii_punct(s[0]) {
        strip_punct_start(s.drop_first())
    } else {
        s
    }
}

pub open spec fn strip_punct_end(s: Seq<char>) -> Seq<char>
    decreases s.len(),
{
    if s.len() > 0 && is_ascii_punct(s.last()) {
        strip_punct_end(s.drop_last())
    } else {
        s
    }
}

/// A word with ASCII punctuation removed from both ends.
pub open spec fn clean_token(w: Seq<char>) -> Seq<char> {
    strip_punct_end(strip_punct_start(w))
}

/// Bytes of `s` in UTF-8.
pub open spec fn utf8_len(s: Seq<char>) -> int
    decreases s.len(),
{
    if s.len() == 0 {
        0
    } else {
        utf8_len(s.drop_last()) + char_len_utf8(s.last())
    }
}

/// The distinct cleaned words longer than one byte.
pub open spec fn token_set(ws: Seq<Seq<char>>) -> Set<Seq<char>>
    decreases ws.len(),
{
    if ws.len() == 0 {
        Set::empty()
    } else {
        let t = clean_token(ws.last());
        if utf8_len(t) > 1 {
            token_set(ws.drop_last()).insert(t)
        } else {
            token_set(ws.drop_last())
        }
    }
}

/// Number of distinct tokens of a text, capped at 500.
pub open spec fn token_variety(s: Seq<char>) -> int {
    let n = token_set(words(s)).len() as int;
    if n < 500 {
        n
    } else {
        500
    }
}

pub proof fn lemma_utf8_len_long(s: Seq<char>)
    ensures
        utf8_len(s) >= s.len(),
        (utf8_len(s) > 1) == (s.len() > 1 || (s.len() == 1 && s[0] as u32 >= 0x80)),
    decreases s.len(),
{
    if s.len() > 0 {
        lemma_utf8_len_long(s.drop_last());
        if s.len() == 1 {
            assert(s.drop_last().len() == 0);
        }
    }
}

pub proof fn lemma_token_set_finite(ws: Seq<Seq<char>>)
    ensures
        token_set(ws).finite(),
    decreases ws.len(),
{
    if ws.len() > 0 {
        lemma_token_set_finite(ws.drop_last());
    }
}

pub proof fn lemma_token_set_grows(ws: Seq<Seq<char>>, k: int)
    requires
        0 <= k <= ws.len(),
    ensures
        token_set(ws.subrange(0, k)).subset_of(token_set(ws)),
    decreases ws.len() - k,
{
    if k < ws.len() {
        lemma_token_set_grows(ws, k + 1);
        assert(ws.subrange(0, k + 1).drop_last() =~= ws.subrange(0, k));
    } else {
        assert(ws.subrange(0, k) =~= ws);
    }
}

fn strip_punct_slice<'a>(s: &'a [char]) -> (r: &'a [char])
    ensures
        r@ == clean_token(s@),
{
    let n = s.len();
    let mut i: usize = 0;
    assert(s@.subrange(0, n as int) =~= s@);
    while i < n && is_ascii_punct_exec(s[i])
        invariant
            n == s@.len(),
            0 <= i <= n,
            strip_punct_start(s@) == strip_punct_start(s@.subrange(i as int, n as int)),
        decreases n - i,
    {
        assert(s@.subrange(i as int, n as int).drop_first() =~= s@.subrange(i + 1, n as int));
        i = i + 1;
    }
    let t = vstd::slice::slice_subrange(s, i, n);
    let mut j: usize = t.len();
    assert(t@.subrange(0, j as int) =~= t@);
    while j > 0 && is_ascii_punct_exec(t[j - 1])
        invariant
            0 <= j <= t@.len(),
            strip_punct_end(t@) == strip_punct_end(t@.subrange(0, j as int)),
        decreases j,
    {
        assert(t@.subrange(0, j as int).drop_last() =~= t@.subrange(0, j - 1));
        j = j - 1;
    }
    vstd::slice::slice_subrange(t, 0, j)
}

fn holds_token(seen: &Vec<Vec<char>>, t: &[char]) -> (r: bool)
    ensures
        r == char_lines_view(seen@).contains(t@),
{
    let mut k: usize = 0;
    while k < seen.len()
        invariant
            0 <= k <= seen@.len(),
            forall|j: int| 0 <= j < k ==> char_lines_view(seen@)[j] != t@,
        decreases seen@.len() - k,
    {
        if crate::text::slice_eq(seen[k].as_slice(), t) {
            assert(char_lines_view(seen@)[k as int] == t@);
            return true;
        }
        k = k + 1;
    }
    false
}

/// Number of distinct words (ASCII punctuation trimmed off both ends, more than
/// one byte long) of a text, capped at 500.
pub fn estimate_token_variety(content: &str) -> (r: usize)
    ensures
        r == token_variety(content@),
{
    let c = chars_of(content);
    let c = c.as_slice();
    let ranges = crate::text::word_ranges(c);
    let ghost ws = ranges_view(c@, ranges@);
    let mut seen: Vec<Vec<char>> = Vec::new();
    let mut k: usize = 0;
    proof {
        lemma_token_set_finite(ws);
        assert(ws.subrange(0, 0) =~= Seq::<Seq<char>>::empty());
        assert(char_lines_view(seen@).to_set() =~= Set::<Seq<char>>::empty());
    }
    while k < ranges.len()
        invariant
            0 <= k <= ranges@.len(),
            ws == ranges_view(c@, ranges@),
            ws == words(c@),
            c@ == content@,
            ranges_ok(c@, ranges@),
            token_set(ws).finite(),
            seen@.len() < 500,
            char_lines_view(seen@).no_duplicates(),
            char_lines_view(seen@).to_set() == token_set(ws.subrange(0, k as int)),
        decreases ranges@.len() - k,
    {
        let ghost before = ws.subrange(0, k as int);
        let (a, b) = ranges[k];
        let t = strip_punct_slice(vstd::slice::slice_subrange(c, a, b));
        proof {
            lemma_utf8_len_long(t@);
            assert(ws.subrange(0, k + 1).drop_last() =~= before);
            assert(ws.subrange(0, k + 1).last() == ws[k as int]);
        }
        let long = t.len() > 1 || (t.len() == 1 && t[0] as u32 >= 0x80);
        if long && !holds_token(&seen, t) {
            let ghost old_view = char_lines_view(seen@);
            seen.push(vstd::slice::slice_to_vec(t));
            proof {
                assert(char_lines_view(seen@) =~= old_view.push(t@));
                old_view.lemma_push_to_set_commute(t@);
                assert(char_lines_view(seen@).no_duplicates()) by {
                    assert forall|i: int, j: int|
                        0 <= i < char_lines_view(seen@).len() && 0 <= j < char_lines_view(seen@).len()
                            && i != j implies char_lines_view(seen@)[i] != char_lines_view(seen@)[j] by {
                        if i == old_view.len() as int {
                            assert(old_view.contains(old_view[j]));
                        } else if j == old_view.len() as int {
                            assert(old_view.contains(old_view[i]));
                        }
                    }
                }
                assert(char_lines_view(seen@).to_set() == token_set(ws.subrange(0, k + 1)));
            }
            if seen.len() == 500 {
                proof {
                    char_lines_view(seen@).unique_seq_to_set();
                    lemma_token_set_grows(ws, k + 1);
                    vstd::set_lib::lemma_len_subset(
                        token_set(ws.subrange(0, k + 1)),
                        token_set(ws),
                    );
                    assert(char_lines_view(seen@).len() == 500);
                    assert(token_set(ws).len() >= 500);
                }
                return 500;
            }
        } else if long {
            proof {
                assert(token_set(ws.subrange(0, k + 1)) =~= token_set(before));
            }
        }
        k = k + 1;
    }
    proof {
        assert(ws.subrange(0, k as int) =~= ws);
        char_lines_view(seen@).unique_seq_to_set();
    }
    seen.len()
}

} // verus!

verus! {

// ---------------------------------------------------------------- complexity

/// Complexity of a text in tenths: 0.3 per code line, 1.5 per control-flow line,
/// 2 per nesting level and 0.5 per distinct token.
pub open spec fn complexity_of(content: Seq<char>) -> int {
    let ls = lines(content);
    3 * count_code(ls) + 15 * count_control(ls) + 20 * nesting(ls) + 5 * token_variety(content)
}

/// Estimated complexity of a text, in tenths.
pub fn complexity_tenths(content: &str) -> (r: u128)
    ensures
        r == complexity_of(content@),
{
    let c = chars_of(content);
    let n = c.len();
    let ls = char_lines(c.as_slice());
    let nl = ls.len();
    let code = count_code_in(ls.as_slice());
    let control = count_control_in(ls.as_slice());
    let nest = nest_in(ls.as_slice(), Ghost(n as int));
    assert(nest <= n + nl);
    let variety = estimate_token_variety(content);
    assert(variety <= 500);
    3 * (code as u128) + 15 * (control as u128) + 20 * nest + 5 * (variety as u128)
}

// ---------------------------------------------------------------- classification

/// The path names a test: it holds `test` or `spec` in any ASCII case. Unicode
/// lower-casing sends no character outside ASCII to a letter of these words,
/// so ASCII folding decides the same.
pub open spec fn is_test_path(path: Seq<char>) -> bool {
    contains_ci(path, seq!['t', 'e', 's', 't']) || contains_ci(path, seq!['s', 'p', 'e', 'c'])
}

pub fn detect_test_file(path: &str) -> (r: bool)
    ensures
        r == is_test_path(path@),
{
    let p = chars_of(path);
    contains_ci_exec(p.as_slice(), &['t', 'e', 's', 't']) || contains_ci_exec(
        p.as_slice(),
        &['s', 'p', 'e', 'c'],
    )
}

/// Where an import points: inside the module tree, or to an outside package.
pub enum DependencyKind {
    ModuleLocal(String),
    External(String),
}

/// An import is local when it is relative (`.`) or starts from `crate::`,
/// `self::` or `super::`.
pub open spec fn is_local_import(s: Seq<char>) -> bool {
    starts_with(s, seq!['.']) || starts_with(s, seq!['c', 'r', 'a', 't', 'e', ':', ':'])
        || starts_with(s, seq!['s', 'e', 'l', 'f', ':', ':']) || starts_with(
        s,
        seq!['s', 'u', 'p', 'e', 'r', ':', ':'],
    )
}

pub fn classify_dependency(import: &str, _language: &crate::types::Language) -> (r: DependencyKind)
    ensures
        match r {
            DependencyKind::ModuleLocal(s) => is_local_import(import@) && s@ == import@,
            DependencyKind::External(s) => !is_local_import(import@) && s@ == import@,
        },
{
    let p = chars_of(import);
    let p = p.as_slice();
    let dot: [char; 1] = ['.'];
    let krate: [char; 7] = ['c', 'r', 'a', 't', 'e', ':', ':'];
    let slf: [char; 6] = ['s', 'e', 'l', 'f', ':', ':'];
    let sup: [char; 7] = ['s', 'u', 'p', 'e', 'r', ':', ':'];
    assert(dot@ == seq!['.'] && krate@ == seq!['c', 'r', 'a', 't', 'e', ':', ':']);
    assert(slf@ == seq!['s', 'e', 'l', 'f', ':', ':'] && sup@ == seq!['s', 'u', 'p', 'e', 'r', ':', ':']);
    let local = starts_with_exec(p, &dot) || starts_with_exec(p, &krate) || starts_with_exec(p, &slf)
        || starts_with_exec(p, &sup);
    if local {
        DependencyKind::ModuleLocal(import.to_owned())
    } else {
        DependencyKind::External(import.to_owned())
    }
}

} // verus!

verus! {

/// No text has more code lines than lines.
pub proof fn law_code_lines_within_lines(ls: Seq<Seq<char>>)
    ensures
        count_code(ls) <= ls.len(),
    decreases ls.len(),
{
    if ls.len() > 0 {
        law_code_lines_within_lines(ls.drop_last());
    }
}

/// No text has more control-flow lines than lines.
pub proof fn law_control_within_lines(ls: Seq<Seq<char>>)
    ensures
        count_control(ls) <= ls.len(),
    decreases ls.len(),
{
    if ls.len() > 0 {
        law_control_within_lines(ls.drop_last());
    }
}

/// The token variety of a text never exceeds 500.
pub proof fn law_token_variety_capped(s: Seq<char>)
    ensures
        0 <= token_variety(s) <= 500,
{
}

} // verus!

verus! {

/// A trimmed line that opens a comment or docstring: `//`, `#`, `/*`, a `*`
/// continuing a block comment, `--`, `'''` or `"""`.
pub open spec fn opens_comment(t: Seq<char>) -> bool {
    ||| t.len() >= 1 && (t[0] == '#' || t[0] == '*')
    ||| t.len() >= 2 && t[0] == '/' && (t[1] == '/' || t[1] == '*')
    ||| t.len() >= 2 && t[0] == '-' && t[1] == '-'
    ||| t.len() >= 3 && t[0] == '\'' && t[1] == '\'' && t[2] == '\''
    ||| t.len() >= 3 && t[0] == '"' && t[1] == '"' && t[2] == '"'
}

/// A blank line, or one whose trimmed text opens a comment or docstring (a `*`
/// line inside a block comment included), adds nothing to the count of code
/// lines; a line whose trimmed text starts with an ASCII letter, digit or `_`
/// adds one.
pub proof fn law_code_line_count(ls: Seq<Seq<char>>, l: Seq<char>)
    ensures
        trim(l).len() == 0 || opens_comment(trim(l)) ==> count_code(ls.push(l)) == count_code(ls),
        trim(l).len() > 0 && (('a' <= trim(l)[0] <= 'z') || ('A' <= trim(l)[0] <= 'Z') || ('0'
            <= trim(l)[0] <= '9') || trim(l)[0] == '_') ==> count_code(ls.push(l)) == count_code(ls) + 1,
{
    assert(ls.push(l).drop_last() =~= ls);
    let t = trim(l);
    if t.len() >= 1 {
        assert(starts_with(t, seq!['#']) == (t[0] == '#')) by {
            if t[0] == '#' {
                assert(t.subrange(0, 1) =~= seq!['#']);
            }
            if starts_with(t, seq!['#']) {
                assert(t.subrange(0, 1)[0] == '#');
            }
        }
        assert(starts_with(t, seq!['*']) == (t[0] == '*')) by {
            if t[0] == '*' {
                assert(t.subrange(0, 1) =~= seq!['*']);
            }
            if starts_with(t, seq!['*']) {
                assert(t.subrange(0, 1)[0] == '*');
            }
        }
    }
    if t.len() >= 2 {
        assert(starts_with(t, seq!['/', '/']) == (t[0] == '/' && t[1] == '/')) by {
            if t[0] == '/' && t[1] == '/' {
                assert(t.subrange(0, 2) =~= seq!['/', '/']);
            }
        }
        assert(starts_with(t, seq!['/', '*']) == (t[0] == '/' && t[1] == '*')) by {
            if t[0] == '/' && t[1] == '*' {
                assert(t.subrange(0, 2) =~= seq!['/', '*']);
            }
        }
        assert(starts_with(t, seq!['-', '-']) == (t[0] == '-' && t[1] == '-')) by {
            if t[0] == '-' && t[1] == '-' {
                assert(t.subrange(0, 2) =~= seq!['-', '-']);
            }
        }
    }
    if t.len() >= 3 {
        assert(starts_with(t, seq!['\'', '\'', '\'']) == (t[0] == '\'' && t[1] == '\'' && t[2] == '\'')) by {
            if t[0] == '\'' && t[1] == '\'' && t[2] == '\'' {
                assert(t.subrange(0, 3) =~= seq!['\'', '\'', '\'']);
            }
        }
        assert(starts_with(t, seq!['"', '"', '"']) == (t[0] == '"' && t[1] == '"' && t[2] == '"')) by {
            if t[0] == '"' && t[1] == '"' && t[2] == '"' {
                assert(t.subrange(0, 3) =~= seq!['"', '"', '"']);
            }
        }
    }
    if t.len() > 0 && !opens_comment(t) {
        assert(!starts_with(t, seq!['/', '/']) && !starts_with(t, seq!['#']) && !starts_with(t, seq!['/', '*'])
            && !starts_with(t, seq!['*']) && !starts_with(t, seq!['-', '-'])) by {
            if starts_with(t, seq!['/', '/']) {
                assert(t.subrange(0, 2)[0] == '/' && t.subrange(0, 2)[1] == '/');
            }
            if starts_with(t, seq!['/', '*']) {
                assert(t.subrange(0, 2)[0] == '/' && t.subrange(0, 2)[1] == '*');
            }
            if starts_with(t, seq!['#']) {
                assert(t.subrange(0, 1)[0] == '#');
            }
            if starts_with(t, seq!['*']) {
                assert(t.subrange(0, 1)[0] == '*');
            }
            if starts_with(t, seq!['-', '-']) {
                assert(t.subrange(0, 2)[0] == '-' && t.subrange(0, 2)[1] == '-');
            }
        }
        assert(!starts_with(t, seq!['\'', '\'', '\'']) && !starts_with(t, seq!['"', '"', '"'])) by {
            if starts_with(t, seq!['\'', '\'', '\'']) {
                assert(t.subrange(0, 3)[0] == '\'' && t.subrange(0, 3)[1] == '\'' && t.subrange(0, 3)[2] == '\'');
            }
            if starts_with(t, seq!['"', '"', '"']) {
                assert(t.subrange(0, 3)[0] == '"' && t.subrange(0, 3)[1] == '"' && t.subrange(0, 3)[2] == '"');
            }
        }
    }
}

} // verus!
