//! Import statements of Rust, Python, JavaScript/TypeScript and Go sources.
use vstd::prelude::*;
use crate::metrics::{char_lines, char_lines_view};
use crate::text::{
    before_first, before_first_slice, chars_of, contains, contains_exec, find, find_char, lemma_find,
    lines, occurs_at, trim_end, trim_start,
    scan_to_char, second_piece, second_piece_slice, slice_eq, split_char, split_char_ranges,
    ranges_ok, ranges_view, starts_with, starts_with_exec, string_of, strip_char, strip_char_slice,
    strip_end_char, strip_end_char_slice, strip_prefix_all, strip_prefix_all_slice, trim, trim_slice,
};
use crate::types::{strings_view, Language};

verus! {

pub open spec fn lit_use() -> Seq<char> {
    seq!['u', 's', 'e', ' ']
}

pub open spec fn lit_pub_use() -> Seq<char> {
    seq!['p', 'u', 'b', ' ', 'u', 's', 'e', ' ']
}

pub open spec fn lit_mod() -> Seq<char> {
    seq!['m', 'o', 'd', ' ']
}

pub open spec fn lit_as() -> Seq<char> {
    seq![' ', 'a', 's', ' ']
}

/// Appends the string form of `s` to `out`.
fn push_chars(out: &mut Vec<String>, s: &[char])
    ensures
        strings_view(final(out)@) == strings_view(old(out)@).push(s@),
{
    let ghost before = out@;
    out.push(string_of(s));
    assert(strings_view(out@) =~= strings_view(before).push(s@));
}

// ---------------------------------------------------------------- Rust

/// The path of a `use` line: the keyword prefix and trailing `;` removed, and
/// anything from ` as ` on dropped.
pub open spec fn rust_use_path(t: Seq<char>, prefix: Seq<char>) -> Seq<char> {
    trim(before_first(trim(strip_end_char(strip_prefix_all(t, prefix), ';')), lit_as()))
}

pub open spec fn rust_line_imports(line: Seq<char>) -> Seq<Seq<char>> {
    let t = trim(line);
    if starts_with(t, lit_use()) {
        seq![rust_use_path(t, lit_use())]
    } else if starts_with(t, lit_pub_use()) {
        seq![rust_use_path(t, lit_pub_use())]
    } else {
        seq![]
    }
}

pub open spec fn rust_imports(ls: Seq<Seq<char>>) -> Seq<Seq<char>>
    decreases ls.len(),
{
    if ls.len() == 0 {
        seq![]
    } else {
        rust_imports(ls.drop_last()) + rust_line_imports(ls.last())
    }
}

fn rust_use_path_exec<'a>(t: &'a [char], prefix: &[char]) -> (r: &'a [char])
    ensures
        r@ == rust_use_path(t@, prefix@),
{
    let a = strip_prefix_all_slice(t, prefix);
    let b = trim_slice(strip_end_char_slice(a, ';'));
    let c = before_first_slice(b, &[' ', 'a', 's', ' ']);
    trim_slice(c)
}

/// The paths named by `use` and `pub use` lines of Rust source.
pub fn extract_rust_imports(content: &str) -> (r: Vec<String>)
    ensures
        strings_view(r@) == rust_imports(lines(content@)),
{
    let c = chars_of(content);
    let ls = char_lines(c.as_slice());
    let mut out: Vec<String> = Vec::new();
    let mut k: usize = 0;
    let use_kw: [char; 4] = ['u', 's', 'e', ' '];
    let pub_use_kw: [char; 8] = ['p', 'u', 'b', ' ', 'u', 's', 'e', ' '];
    let mod_kw: [char; 4] = ['m', 'o', 'd', ' '];
    assert(use_kw@ == lit_use() && pub_use_kw@ == lit_pub_use() && mod_kw@ == lit_mod());
    while k < ls.len()
        invariant
            0 <= k <= ls@.len(),
            use_kw@ == lit_use() && pub_use_kw@ == lit_pub_use() && mod_kw@ == lit_mod(),
            strings_view(out@) == rust_imports(char_lines_view(ls@).subrange(0, k as int)),
        decreases ls@.len() - k,
    {
        let ghost before = char_lines_view(ls@).subrange(0, k as int);
        let ghost old_out = strings_view(out@);
        let t = trim_slice(ls[k].as_slice());
        proof {
            assert(char_lines_view(ls@).subrange(0, k + 1).drop_last() =~= before);
            assert(char_lines_view(ls@)[k as int] == ls@[k as int]@);
        }
        if starts_with_exec(t, &use_kw) {
            push_chars(&mut out, rust_use_path_exec(t, &use_kw));
        } else if starts_with_exec(t, &mod_kw) && !contains_exec(t, &[';']) {
            // a module declaration with a body names no import
            assert(!starts_with(t@, lit_pub_use())) by {
                assert(t@.subrange(0, 4)[0] == 'm');
                if t@.len() >= 8 {
                    assert(t@.subrange(0, 8)[0] == t@[0]);
                }
            }
        } else if starts_with_exec(t, &pub_use_kw) {
            push_chars(&mut out, rust_use_path_exec(t, &pub_use_kw));
        }
        proof {
            assert(strings_view(out@) =~= old_out + rust_line_imports(ls@[k as int]@));
        }
        k = k + 1;
    }
    assert(char_lines_view(ls@).subrange(0, k as int) =~= char_lines_view(ls@));
    out
}

} // verus!

verus! {

// ---------------------------------------------------------------- Python

pub open spec fn lit_import() -> Seq<char> {
    seq!['i', 'm', 'p', 'o', 'r', 't', ' ']
}

pub open spec fn lit_from() -> Seq<char> {
    seq!['f', 'r', 'o', 'm', ' ']
}

pub open spec fn lit_sp_import() -> Seq<char> {
    seq![' ', 'i', 'm', 'p', 'o', 'r', 't', ' ']
}

/// A module named in an `import a, b as c` list.
pub open spec fn python_module(part: Seq<char>) -> Seq<char> {
    trim(before_first(trim(part), lit_as()))
}

/// `import` lines name each listed module; `from m import x, ...` lines name
/// `m::x` (the first imported name) and then `m`.
pub open spec fn python_line_imports(line: Seq<char>) -> Seq<Seq<char>> {
    let t = trim(line);
    if starts_with(t, lit_import()) {
        split_char(strip_prefix_all(t, lit_import()), ',').map_values(
            |p: Seq<char>| python_module(p),
        )
    } else if starts_with(t, lit_from()) {
        let rest = strip_prefix_all(t, lit_from());
        if contains(rest, lit_sp_import()) {
            let m = trim(before_first(rest, lit_sp_import()));
            let first = trim(before_first(second_piece(rest, lit_sp_import())->0, seq![',']));
            seq![m + seq![':', ':'] + first, m]
        } else {
            seq![]
        }
    } else {
        seq![]
    }
}

pub open spec fn python_imports(ls: Seq<Seq<char>>) -> Seq<Seq<char>>
    decreases ls.len(),
{
    if ls.len() == 0 {
        seq![]
    } else {
        python_imports(ls.drop_last()) + python_line_imports(ls.last())
    }
}

fn python_line_exec(out: &mut Vec<String>, t: &[char])
    ensures
        strings_view(final(out)@) == strings_view(old(out)@) + python_line_imports(t@),
{
    let ghost old_out = strings_view(out@);
    let import_kw: [char; 7] = ['i', 'm', 'p', 'o', 'r', 't', ' '];
    let from_kw: [char; 5] = ['f', 'r', 'o', 'm', ' '];
    let sp_import: [char; 8] = [' ', 'i', 'm', 'p', 'o', 'r', 't', ' '];
    let as_kw: [char; 4] = [' ', 'a', 's', ' '];
    let comma: [char; 1] = [','];
    assert(import_kw@ == lit_import() && from_kw@ == lit_from() && sp_import@ == lit_sp_import());
    assert(as_kw@ == lit_as() && comma@ == seq![',']);
    proof {
        crate::text::lemma_find(t@, lit_import());
    }
    let tt = trim_slice(t);
    if starts_with_exec(tt, &import_kw) {
        let rest = strip_prefix_all_slice(tt, &import_kw);
        let parts = split_char_ranges(rest, ',');
        let ghost pieces = ranges_view(rest@, parts@);
        let ghost want = pieces.map_values(|p: Seq<char>| python_module(p));
        let mut k: usize = 0;
        while k < parts.len()
            invariant
                0 <= k <= parts@.len(),
                pieces == ranges_view(rest@, parts@),
                ranges_ok(rest@, parts@),
                want == pieces.map_values(|p: Seq<char>| python_module(p)),
                as_kw@ == lit_as(),
                strings_view(out@) == old_out + want.subrange(0, k as int),
            decreases parts@.len() - k,
        {
            let (a, b) = parts[k];
            let part = vstd::slice::slice_subrange(rest, a, b);
            let m = trim_slice(before_first_slice(trim_slice(part), &as_kw));
            push_chars(out, m);
            k = k + 1;
            assert(want.subrange(0, k as int) =~= want.subrange(0, k - 1).push(m@));
        }
        assert(want.subrange(0, k as int) =~= want);
    } else if starts_with_exec(tt, &from_kw) {
        let rest = strip_prefix_all_slice(tt, &from_kw);
        proof {
            crate::text::lemma_find(rest@, lit_sp_import());
        }
        if contains_exec(rest, &sp_import) {
            let m = trim_slice(before_first_slice(rest, &sp_import));
            match second_piece_slice(rest, &sp_import) {
                Some(after) => {
                    let first = trim_slice(before_first_slice(after, &comma));
                    let mut joined: Vec<char> = vstd::slice::slice_to_vec(m);
                    joined.push(':');
                    joined.push(':');
                    let mut i: usize = 0;
                    let ghost base = joined@;
                    while i < first.len()
                        invariant
                            0 <= i <= first@.len(),
                            joined@ == base + first@.subrange(0, i as int),
                        decreases first@.len() - i,
                    {
                        joined.push(first[i]);
                        i = i + 1;
                        assert(joined@ =~= base + first@.subrange(0, i as int));
                    }
                    assert(first@.subrange(0, i as int) =~= first@);
                    assert(base =~= m@ + seq![':', ':']);
                    push_chars(out, joined.as_slice());
                    push_chars(out, m);
                    assert(strings_view(out@) =~= old_out + seq![m@ + seq![':', ':'] + first@, m@]);
                },
                None => {},
            }
        }
    }
}

/// The modules named by `import` and `from ... import` lines of Python source.
pub fn extract_python_imports(content: &str) -> (r: Vec<String>)
    ensures
        strings_view(r@) == python_imports(lines(content@)),
{
    let c = chars_of(content);
    let ls = char_lines(c.as_slice());
    let mut out: Vec<String> = Vec::new();
    let mut k: usize = 0;
    while k < ls.len()
        invariant
            0 <= k <= ls@.len(),
            strings_view(out@) == python_imports(char_lines_view(ls@).subrange(0, k as int)),
        decreases ls@.len() - k,
    {
        proof {
            assert(char_lines_view(ls@).subrange(0, k + 1).drop_last() =~= char_lines_view(
                ls@,
            ).subrange(0, k as int));
            assert(char_lines_view(ls@)[k as int] == ls@[k as int]@);
        }
        python_line_exec(&mut out, ls[k].as_slice());
        k = k + 1;
    }
    assert(char_lines_view(ls@).subrange(0, k as int) =~= char_lines_view(ls@));
    out
}

} // verus!

verus! {

// ---------------------------------------------------------------- JavaScript / TypeScript

pub open spec fn lit_const() -> Seq<char> {
    seq!['c', 'o', 'n', 's', 't', ' ']
}

pub open spec fn lit_from_kw() -> Seq<char> {
    seq!['f', 'r', 'o', 'm', ' ']
}

pub open spec fn lit_require() -> Seq<char> {
    seq!['r', 'e', 'q', 'u', 'i', 'r', 'e', '(']
}

/// The text between a leading quote (`'` or `"`) and the next copy of it, after
/// trimming and dropping trailing `;`.
pub open spec fn quoted_path(s: Seq<char>) -> Option<Seq<char>> {
    let t = trim(strip_end_char(trim(s), ';'));
    if t.len() > 0 && (t[0] == '\'' || t[0] == '"') {
        let rest = t.drop_first();
        let i = find_char(rest, t[0]);
        if 0 <= i < rest.len() {
            Some(rest.subrange(0, i))
        } else {
            None
        }
    } else {
        None
    }
}

pub open spec fn opt_seq(o: Option<Seq<char>>) -> Seq<Seq<char>> {
    match o {
        Some(x) => seq![x],
        None => seq![],
    }
}

/// `import`/`const` lines: the quoted path after `from `; lines with `require(`
/// (not starting with `import `): the quoted path inside it.
pub open spec fn js_line_imports(line: Seq<char>) -> Seq<Seq<char>> {
    let t = trim(line);
    let esm = if starts_with(t, lit_import()) || starts_with(t, lit_const()) {
        match second_piece(t, lit_from_kw()) {
            Some(f) => opt_seq(quoted_path(f)),
            None => seq![],
        }
    } else {
        seq![]
    };
    let req = if contains(t, lit_require()) && !starts_with(t, lit_import()) {
        match second_piece(t, lit_require()) {
            Some(f) => opt_seq(quoted_path(f)),
            None => seq![],
        }
    } else {
        seq![]
    };
    esm + req
}

pub open spec fn js_imports(ls: Seq<Seq<char>>) -> Seq<Seq<char>>
    decreases ls.len(),
{
    if ls.len() == 0 {
        seq![]
    } else {
        js_imports(ls.drop_last()) + js_line_imports(ls.last())
    }
}

/// The quoted path at the start of `s`, if any.
pub fn extract_quoted_path(s: &str) -> (r: Option<String>)
    ensures
        match r {
            Some(p) => quoted_path(s@) == Some(p@),
            None => quoted_path(s@) is None,
        },
{
    let c = chars_of(s);
    match quoted_path_slice(c.as_slice()) {
        Some(p) => Some(string_of(p)),
        None => None,
    }
}

fn quoted_path_slice<'a>(s: &'a [char]) -> (r: Option<&'a [char]>)
    ensures
        match r {
            Some(p) => quoted_path(s@) == Some(p@),
            None => quoted_path(s@) is None,
        },
{
    let t = trim_slice(strip_end_char_slice(trim_slice(s), ';'));
    if t.len() > 0 && (t[0] == '\'' || t[0] == '"') {
        let q = t[0];
        let j = scan_to_char(t, 1, q);
        proof {
            assert(t@.subrange(1, t@.len() as int) =~= t@.drop_first());
        }
        if j < t.len() {
            let p = vstd::slice::slice_subrange(t, 1, j);
            assert(p@ =~= t@.drop_first().subrange(0, j - 1));
            Some(p)
        } else {
            None
        }
    } else {
        None
    }
}

fn push_quoted_after(out: &mut Vec<String>, t: &[char], kw: &[char])
    ensures
        strings_view(final(out)@) == strings_view(old(out)@) + match second_piece(t@, kw@) {
            Some(f) => opt_seq(quoted_path(f)),
            None => seq![],
        },
{
    let ghost old_out = strings_view(out@);
    match second_piece_slice(t, kw) {
        Some(f) => {
            match quoted_path_slice(f) {
                Some(p) => {
                    push_chars(out, p);
                    assert(strings_view(out@) =~= old_out + seq![p@]);
                },
                None => {
                    assert(strings_view(out@) =~= old_out + Seq::<Seq<char>>::empty());
                },
            }
        },
        None => {
            assert(strings_view(out@) =~= old_out + Seq::<Seq<char>>::empty());
        },
    }
}

/// The module paths of `import ... from '...'` and `require('...')` in JavaScript
/// or TypeScript source.
pub fn extract_js_imports(content: &str) -> (r: Vec<String>)
    ensures
        strings_view(r@) == js_imports(lines(content@)),
{
    let c = chars_of(content);
    let ls = char_lines(c.as_slice());
    let mut out: Vec<String> = Vec::new();
    let import_kw: [char; 7] = ['i', 'm', 'p', 'o', 'r', 't', ' '];
    let const_kw: [char; 6] = ['c', 'o', 'n', 's', 't', ' '];
    let from_kw: [char; 5] = ['f', 'r', 'o', 'm', ' '];
    let require_kw: [char; 8] = ['r', 'e', 'q', 'u', 'i', 'r', 'e', '('];
    assert(import_kw@ == lit_import() && const_kw@ == lit_const() && from_kw@ == lit_from_kw());
    assert(require_kw@ == lit_require());
    let mut k: usize = 0;
    while k < ls.len()
        invariant
            0 <= k <= ls@.len(),
            import_kw@ == lit_import() && const_kw@ == lit_const() && from_kw@ == lit_from_kw(),
            require_kw@ == lit_require(),
            strings_view(out@) == js_imports(char_lines_view(ls@).subrange(0, k as int)),
        decreases ls@.len() - k,
    {
        let ghost old_out = strings_view(out@);
        proof {
            assert(char_lines_view(ls@).subrange(0, k + 1).drop_last() =~= char_lines_view(
                ls@,
            ).subrange(0, k as int));
            assert(char_lines_view(ls@)[k as int] == ls@[k as int]@);
        }
        let t = trim_slice(ls[k].as_slice());
        let ghost mid = strings_view(out@);
        if starts_with_exec(t, &import_kw) || starts_with_exec(t, &const_kw) {
            push_quoted_after(&mut out, t, &from_kw);
        }
        let ghost after_esm = strings_view(out@);
        if contains_exec(t, &require_kw) && !starts_with_exec(t, &import_kw) {
            push_quoted_after(&mut out, t, &require_kw);
        }
        proof {
            let line = ls@[k as int]@;
            let esm = if starts_with(t@, lit_import()) || starts_with(t@, lit_const()) {
                match second_piece(t@, lit_from_kw()) {
                    Some(f) => opt_seq(quoted_path(f)),
                    None => seq![],
                }
            } else {
                seq![]
            };
            assert(after_esm =~= old_out + esm);
            assert(strings_view(out@) =~= old_out + js_line_imports(line));
        }
        k = k + 1;
    }
    assert(char_lines_view(ls@).subrange(0, k as int) =~= char_lines_view(ls@));
    out
}

} // verus!

verus! {

// ---------------------------------------------------------------- Go

pub open spec fn lit_import_block() -> Seq<char> {
    seq!['i', 'm', 'p', 'o', 'r', 't', ' ', '(']
}

/// One line of Go source: the state is (inside an `import (` block, imports so far).
pub open spec fn go_step(st: (bool, Seq<Seq<char>>), line: Seq<char>) -> (bool, Seq<Seq<char>>) {
    let t = trim(line);
    if starts_with(t, lit_import_block()) {
        (true, st.1)
    } else if st.0 {
        if t == seq![')'] {
            (false, st.1)
        } else {
            let m = strip_char(t, '"');
            if m.len() > 0 {
                (true, st.1.push(m))
            } else {
                st
            }
        }
    } else if starts_with(t, lit_import()) && !contains(t, seq!['(']) {
        (false, st.1.push(strip_char(strip_char(strip_prefix_all(t, lit_import()), '"'), ';')))
    } else {
        st
    }
}

pub open spec fn go_fold(ls: Seq<Seq<char>>) -> (bool, Seq<Seq<char>>)
    decreases ls.len(),
{
    if ls.len() == 0 {
        (false, seq![])
    } else {
        go_step(go_fold(ls.drop_last()), ls.last())
    }
}

pub open spec fn go_imports(ls: Seq<Seq<char>>) -> Seq<Seq<char>> {
    go_fold(ls).1
}

/// The packages of single `import "..."` lines and of `import ( ... )` blocks in Go source.
pub fn extract_go_imports(content: &str) -> (r: Vec<String>)
    ensures
        strings_view(r@) == go_imports(lines(content@)),
{
    let c = chars_of(content);
    let ls = char_lines(c.as_slice());
    let mut out: Vec<String> = Vec::new();
    let mut in_block = false;
    let block_kw: [char; 8] = ['i', 'm', 'p', 'o', 'r', 't', ' ', '('];
    let import_kw: [char; 7] = ['i', 'm', 'p', 'o', 'r', 't', ' '];
    let close: [char; 1] = [')'];
    let open: [char; 1] = ['('];
    assert(block_kw@ == lit_import_block() && import_kw@ == lit_import());
    assert(close@ == seq![')'] && open@ == seq!['(']);
    let mut k: usize = 0;
    while k < ls.len()
        invariant
            0 <= k <= ls@.len(),
            block_kw@ == lit_import_block() && import_kw@ == lit_import(),
            close@ == seq![')'] && open@ == seq!['('],
            (in_block, strings_view(out@)) == go_fold(char_lines_view(ls@).subrange(0, k as int)),
        decreases ls@.len() - k,
    {
        proof {
            assert(char_lines_view(ls@).subrange(0, k + 1).drop_last() =~= char_lines_view(
                ls@,
            ).subrange(0, k as int));
            assert(char_lines_view(ls@)[k as int] == ls@[k as int]@);
        }
        let t = trim_slice(ls[k].as_slice());
        if starts_with_exec(t, &block_kw) {
            in_block = true;
        } else if in_block {
            if slice_eq(t, &close) {
                in_block = false;
            } else {
                let m = strip_char_slice(t, '"');
                if m.len() > 0 {
                    push_chars(&mut out, m);
                }
            }
        } else if starts_with_exec(t, &import_kw) && !contains_exec(t, &open) {
            let m = strip_char_slice(
                strip_char_slice(strip_prefix_all_slice(t, &import_kw), '"'),
                ';',
            );
            push_chars(&mut out, m);
        }
        k = k + 1;
    }
    assert(char_lines_view(ls@).subrange(0, k as int) =~= char_lines_view(ls@));
    out
}

// ---------------------------------------------------------------- by language

/// The imports of a source file in the given language; none for other languages.
pub fn extract_imports(content: &str, language: &Language) -> (r: Vec<String>)
    ensures
        strings_view(r@) == match language {
            Language::Rust => rust_imports(lines(content@)),
            Language::Python => python_imports(lines(content@)),
            Language::JavaScript | Language::TypeScript => js_imports(lines(content@)),
            Language::Go => go_imports(lines(content@)),
            Language::Other(_) => Seq::<Seq<char>>::empty(),
        },
{
    match language {
        Language::Rust => extract_rust_imports(content),
        Language::Python => extract_python_imports(content),
        Language::JavaScript | Language::TypeScript => extract_js_imports(content),
        Language::Go => extract_go_imports(content),
        Language::Other(_) => {
            let r: Vec<String> = Vec::new();
            assert(strings_view(r@) =~= Seq::<Seq<char>>::empty());
            r
        },
    }
}

} // verus!

verus! {

proof fn lemma_trim_start_within(s: Seq<char>, c: char)
    ensures
        trim_start(s).contains(c) ==> s.contains(c),
    decreases s.len(),
{
    if s.len() > 0 && crate::text::is_ws(s[0]) {
        lemma_trim_start_within(s.drop_first(), c);
        if trim_start(s).contains(c) {
            let i = choose|i: int| 0 <= i < s.drop_first().len() && s.drop_first()[i] == c;
            assert(s[i + 1] == c);
        }
    }
}

proof fn lemma_trim_end_within(s: Seq<char>, c: char)
    ensures
        trim_end(s).contains(c) ==> s.contains(c),
    decreases s.len(),
{
    if s.len() > 0 && crate::text::is_ws(s.last()) {
        lemma_trim_end_within(s.drop_last(), c);
        if trim_end(s).contains(c) {
            let i = choose|i: int| 0 <= i < s.drop_last().len() && s.drop_last()[i] == c;
            assert(s[i] == c);
        }
    }
}

/// Trimming keeps only characters of the text.
proof fn lemma_trim_within(s: Seq<char>, c: char)
    ensures
        trim(s).contains(c) ==> s.contains(c),
{
    lemma_trim_end_within(trim_start(s), c);
    lemma_trim_start_within(s, c);
}

/// A `from m import a, b` line gives two imports, `m::a` then `m`: the name
/// after `m::` is the imported names' text up to the first comma (or all of
/// it), trimmed, so it holds no comma.
pub proof fn law_python_from_first_name(l: Seq<char>)
    requires
        starts_with(trim(l), lit_from()),
        contains(strip_prefix_all(trim(l), lit_from()), lit_sp_import()),
    ensures
        ({
            let out = python_line_imports(l);
            let names = second_piece(strip_prefix_all(trim(l), lit_from()), lit_sp_import())->0;
            &&& out.len() == 2
            &&& exists|j: int|
                0 <= j <= names.len() && (j == names.len() || names[j] == ',') && (forall|i: int|
                    0 <= i < j ==> names[i] != ',') && out[0] == out[1] + seq![':', ':'] + trim(
                    #[trigger] names.subrange(0, j),
                )
            &&& exists|f: Seq<char>| out[0] == out[1] + seq![':', ':'] + f && !(#[trigger] f.contains(','))
        }),
{
    let t = trim(l);
    assert(!starts_with(t, lit_import())) by {
        if starts_with(t, lit_import()) {
            assert(t.subrange(0, 5)[0] == 'f');
            assert(t.subrange(0, 7)[0] == 'i');
        }
    }
    let out = python_line_imports(l);
    let rest = strip_prefix_all(t, lit_from());
    let names = second_piece(rest, lit_sp_import())->0;
    let comma = seq![','];
    lemma_find(names, comma);
    let j = if find(names, comma) == -1 {
        names.len() as int
    } else {
        find(names, comma)
    };
    assert(before_first(names, comma) == names.subrange(0, j)) by {
        if find(names, comma) == -1 {
            assert(names.subrange(0, j) =~= names);
        }
    }
    assert forall|i: int| 0 <= i < j implies names[i] != ',' by {
        if names[i] == ',' {
            assert(names.subrange(i, i + 1) =~= comma);
            assert(occurs_at(names, comma, i));
        }
    }
    if j < names.len() {
        assert(occurs_at(names, comma, j));
        assert(names.subrange(j, j + 1)[0] == names[j]);
    }
    let f = trim(names.subrange(0, j));
    assert(out[0] == out[1] + seq![':', ':'] + f);
    assert(!f.contains(',')) by {
        lemma_trim_within(names.subrange(0, j), ',');
        if names.subrange(0, j).contains(',') {
            let i = choose|i: int| 0 <= i < j && names.subrange(0, j)[i] == ',';
            assert(names[i] == ',');
        }
    }
    assert(0 <= j <= names.len() && (j == names.len() || names[j] == ',') && (forall|i: int|
        0 <= i < j ==> names[i] != ',') && out[0] == out[1] + seq![':', ':'] + trim(names.subrange(0, j)));
    assert(out[0] == out[1] + seq![':', ':'] + f && !f.contains(','));
}

} // verus!
