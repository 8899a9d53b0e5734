//! Turning a relative import into the path of a file on disk.
use vstd::prelude::*;
use crate::text::{chars_of, starts_with, starts_with_exec};

verus! {

/// What `std::path::Path::parent` gives for a path, as text.
pub uninterp spec fn parent_of(p: Seq<char>) -> Option<Seq<char>>;

/// What `std::path::Path::join` gives for a base and a path, as text.
pub uninterp spec fn join_of(base: Seq<char>, rel: Seq<char>) -> Seq<char>;

/// What `std::path::Path::with_extension` gives for a path and an extension, as text.
pub uninterp spec fn with_extension_of(p: Seq<char>, ext: Seq<char>) -> Seq<char>;

/// `Path::parent`, as text. The result is whatever `parent` computes for the
/// argument (named `parent_of`); its rules on separators and `.` components
/// are left unstated. A path made from a `str` is valid UTF-8, so the lossy
/// conversion back loses nothing.
#[verifier::external_body]
fn path_parent(p: &str) -> (r: Option<String>)
    ensures
        match r {
            Some(s) => parent_of(p@) == Some(s@),
            None => parent_of(p@) is None,
        },
{
    std::path::Path::new(p).parent().map(|q| q.to_string_lossy().to_string())
}

/// `Path::join`, as text: whatever `join` computes for the two arguments (named
/// `join_of`).
#[verifier::external_body]
fn path_join(base: &str, rel: &str) -> (r: String)
    ensures
        r@ == join_of(base@, rel@),
{
    std::path::Path::new(base).join(rel).to_string_lossy().to_string()
}

/// `Path::with_extension`, as text: whatever `with_extension` computes for the
/// two arguments (named `with_extension_of`). It panics on an extension that
/// holds a path separator, so none is admitted.
#[verifier::external_body]
fn path_with_extension(p: &str, ext: &str) -> (r: String)
    requires
        !ext@.contains('/'),
    ensures
        r@ == with_extension_of(p@, ext@),
{
    std::path::Path::new(p).with_extension(ext).to_string_lossy().to_string()
}

/// `Path::exists`. The answer depends on the file system at the time of the
/// call; nothing is promised of it.
#[verifier::external_body]
fn path_exists(p: &str) -> (r: bool) {
    std::path::Path::new(p).exists()
}

/// `Path::is_dir`. The answer depends on the file system at the time of the
/// call; nothing is promised of it.
#[verifier::external_body]
fn path_is_dir(p: &str) -> (r: bool) {
    std::path::Path::new(p).is_dir()
}

/// The base an import resolves against: the importing file's directory joined
/// with the import, when the import is relative (starts with `.`).
pub open spec fn import_base(current: Seq<char>, import: Seq<char>) -> Option<Seq<char>> {
    match parent_of(current) {
        Some(dir) => if starts_with(import, seq!['.']) {
            Some(join_of(dir, import))
        } else {
            None
        },
        None => None,
    }
}

/// The files an import may name, in the order they are tried: the base with
/// each known extension, then (when the base is a directory) its module files.
pub open spec fn import_candidates(base: Seq<char>) -> Seq<Seq<char>> {
    seq![
        with_extension_of(base, "rs"@),
        with_extension_of(base, "py"@),
        with_extension_of(base, "js"@),
        with_extension_of(base, "ts"@),
        with_extension_of(base, "jsx"@),
        with_extension_of(base, "tsx"@),
        with_extension_of(base, "go"@),
        join_of(base, "mod.rs"@),
        join_of(base, "__init__.py"@),
        join_of(base, "index.js"@),
    ]
}

/// An optional string as text.
pub open spec fn opt_view(o: Option<String>) -> Option<Seq<char>> {
    match o {
        Some(s) => Some(s@),
        None => None,
    }
}

/// The `k`-th existence answer is yes; a missing answer is no.
pub open spec fn answered_yes(exists: Seq<bool>, k: int) -> bool {
    0 <= k < exists.len() && exists[k]
}

/// The first of `cands[from]`, ..., `cands[to - 1]` answered as existing.
pub open spec fn first_yes(cands: Seq<Seq<char>>, exists: Seq<bool>, from: int, to: int) -> Option<Seq<char>>
    decreases to - from,
{
    if from >= to {
        None
    } else if answered_yes(exists, from) {
        Some(cands[from])
    } else {
        first_yes(cands, exists, from + 1, to)
    }
}

/// The resolution of an import, given whether each of its candidates exists
/// (`exists[k]` for `import_candidates(..)[k]`) and whether its base is a
/// directory: the first existing candidate with an extension; failing that,
/// when the base is a directory, its first existing module file; else none.
pub open spec fn first_existing(cands: Seq<Seq<char>>, exists: Seq<bool>, base_is_dir: bool) -> Option<Seq<char>> {
    match first_yes(cands, exists, 0, 7) {
        Some(c) => Some(c),
        None => if base_is_dir {
            first_yes(cands, exists, 7, 10)
        } else {
            None
        },
    }
}

/// What resolving `import` from `current` can give: nothing for an import that
/// is not relative or a file with no directory; otherwise the choice of
/// `first_existing` for some answers of the disk.
pub open spec fn resolution_fits(current: Seq<char>, import: Seq<char>, r: Option<Seq<char>>) -> bool {
    match import_base(current, import) {
        None => r is None,
        Some(base) => exists|exists: Seq<bool>, base_is_dir: bool|
            exists.len() == 10 && r == first_existing(import_candidates(base), exists, base_is_dir),
    }
}

/// A resolution is one of the candidates.
pub proof fn lemma_first_existing_candidate(cands: Seq<Seq<char>>, exists: Seq<bool>, base_is_dir: bool)
    requires
        cands.len() == 10,
    ensures
        first_existing(cands, exists, base_is_dir) matches Some(c) ==> cands.contains(c),
{
    lemma_first_yes(cands, exists, 0, 7);
    lemma_first_yes(cands, exists, 7, 10);
}

proof fn lemma_first_yes(cands: Seq<Seq<char>>, exists: Seq<bool>, from: int, to: int)
    requires
        0 <= from,
        to <= cands.len(),
    ensures
        first_yes(cands, exists, from, to) matches Some(c) ==> cands.contains(c),
    decreases to - from,
{
    if from < to {
        if answered_yes(exists, from) {
            assert(cands[from] == cands[from]);
        } else {
            lemma_first_yes(cands, exists, from + 1, to);
        }
    }
}

/// The paths an import may name, from its base, as `import_candidates` lists them.
fn candidate_paths(base: &str) -> (r: Vec<String>)
    ensures
        r@.len() == 10,
        forall|k: int| 0 <= k < 10 ==> (#[trigger] r@[k])@ == import_candidates(base@)[k],
{
    proof {
        reveal_strlit("rs");
        reveal_strlit("py");
        reveal_strlit("js");
        reveal_strlit("ts");
        reveal_strlit("jsx");
        reveal_strlit("tsx");
        reveal_strlit("go");
    }
    let mut r: Vec<String> = Vec::new();
    r.push(path_with_extension(base, "rs"));
    r.push(path_with_extension(base, "py"));
    r.push(path_with_extension(base, "js"));
    r.push(path_with_extension(base, "ts"));
    r.push(path_with_extension(base, "jsx"));
    r.push(path_with_extension(base, "tsx"));
    r.push(path_with_extension(base, "go"));
    r.push(path_join(base, "mod.rs"));
    r.push(path_join(base, "__init__.py"));
    r.push(path_join(base, "index.js"));
    r
}

/// The resolution of an import with base `base`, given the disk's answers:
/// `exists[k]` whether the `k`-th candidate exists (a missing answer is no),
/// `base_is_dir` whether the base is a directory.
pub fn choose_resolution(base: &str, exists: &[bool], base_is_dir: bool) -> (r: Option<String>)
    ensures
        opt_view(r) == first_existing(import_candidates(base@), exists@, base_is_dir),
{
    let cands = candidate_paths(base);
    let ghost cv = import_candidates(base@);
    let mut k: usize = 0;
    while k < 7
        invariant
            0 <= k <= 7,
            cands@.len() == 10,
            cv == import_candidates(base@),
            forall|j: int| 0 <= j < 10 ==> (#[trigger] cands@[j])@ == cv[j],
            first_yes(cv, exists@, 0, 7) == first_yes(cv, exists@, k as int, 7),
        decreases 7 - k,
    {
        if k < exists.len() && exists[k] {
            return Some(cands[k].clone());
        }
        k = k + 1;
    }
    if !base_is_dir {
        return None;
    }
    let mut j: usize = 7;
    while j < 10
        invariant
            7 <= j <= 10,
            cands@.len() == 10,
            cv == import_candidates(base@),
            forall|i: int| 0 <= i < 10 ==> (#[trigger] cands@[i])@ == cv[i],
            first_yes(cv, exists@, 0, 7) is None,
            base_is_dir,
            first_yes(cv, exists@, 7, 10) == first_yes(cv, exists@, j as int, 10),
        decreases 10 - j,
    {
        if j < exists.len() && exists[j] {
            return Some(cands[j].clone());
        }
        j = j + 1;
    }
    None
}

/// The first candidate file of an import that exists on disk: nothing for an
/// import that is not relative or a file with no directory; otherwise the disk
/// is asked whether each candidate exists and whether the base is a directory,
/// and `choose_resolution` picks from its answers.
pub fn resolve_import(current_file: &str, import: &str) -> (r: Option<String>)
    ensures
        resolution_fits(current_file@, import@, opt_view(r)),
{
    let parent = match path_parent(current_file) {
        Some(p) => p,
        None => {
            return None;
        },
    };
    let imp = chars_of(import);
    let dot: [char; 1] = ['.'];
    assert(dot@ == seq!['.']);
    if !starts_with_exec(imp.as_slice(), &dot) {
        return None;
    }
    let base = path_join(parent.as_str(), import);
    assert(import_base(current_file@, import@) == Some(base@));
    let cands = candidate_paths(base.as_str());
    let mut exists: Vec<bool> = Vec::new();
    let mut k: usize = 0;
    while k < 7
        invariant
            0 <= k <= 7,
            exists@.len() == k,
            cands@.len() == 10,
        decreases 7 - k,
    {
        exists.push(path_exists(cands[k].as_str()));
        k = k + 1;
    }
    let base_is_dir = path_is_dir(base.as_str());
    while k < 10
        invariant
            7 <= k <= 10,
            exists@.len() == k,
            cands@.len() == 10,
        decreases 10 - k,
    {
        let found = if base_is_dir {
            path_exists(cands[k].as_str())
        } else {
            false
        };
        exists.push(found);
        k = k + 1;
    }
    let r = choose_resolution(base.as_str(), exists.as_slice(), base_is_dir);
    assert(exists@.len() == 10 && opt_view(r) == first_existing(import_candidates(base@), exists@, base_is_dir));
    r
}

} // verus!
