//! Building the dependency graph of a set of source files.
use vstd::prelude::*;
use crate::extract::{extract_imports, go_imports, js_imports, python_imports, rust_imports};
use crate::graph::DependencyGraph;
use crate::metrics::{complexity_of, complexity_tenths, count_code, count_lines, detect_test_file, is_test_path};
use crate::resolve::{
    first_existing, import_base, import_candidates, lemma_first_existing_candidate, opt_view,
    resolution_fits, resolve_import,
};
use crate::text::lines;
use crate::types::{language_of, strings_view, FileId, FileNode, Language, LanguageModel};

verus! {

/// A source file as read from disk.
pub struct SourceFile {
    pub path: String,
    pub content: String,
}

/// The imports of a text in a language, as `extract_imports` reads them.
pub open spec fn imports_of(content: Seq<char>, l: LanguageModel) -> Seq<Seq<char>> {
    match l {
        LanguageModel::Rust => rust_imports(lines(content)),
        LanguageModel::Python => python_imports(lines(content)),
        LanguageModel::JavaScript | LanguageModel::TypeScript => js_imports(lines(content)),
        LanguageModel::Go => go_imports(lines(content)),
        LanguageModel::Other(_) => Seq::empty(),
    }
}

/// The file node made from a source file with the given id.
pub open spec fn node_of(n: FileNode, id: FileId, src: SourceFile) -> bool {
    &&& n.id == id
    &&& n.path@ == src.path@
    &&& n.language@ == language_of(src.path@)
    &&& n.lines == lines(src.content@).len()
    &&& n.code_lines == count_code(lines(src.content@))
    &&& strings_view(n.imports@) == imports_of(src.content@, language_of(src.path@))
    &&& n.has_test_file == is_test_path(src.path@)
    &&& n.complexity_tenths == complexity_of(src.content@)
}

/// `i` is the last file with its path: the one a path stands for.
pub open spec fn last_with_path(srcs: Seq<SourceFile>, i: int) -> bool {
    0 <= i < srcs.len() && forall|j: int| i < j < srcs.len() ==> srcs[j].path@ != srcs[i].path@
}

/// The file a path stands for: the last file with that path, if any.
pub open spec fn owner_of(srcs: Seq<SourceFile>, p: Seq<char>) -> Option<int> {
    if exists|j: int| last_with_path(srcs, j) && #[trigger] srcs[j].path@ == p {
        Some(choose|j: int| last_with_path(srcs, j) && #[trigger] srcs[j].path@ == p)
    } else {
        None
    }
}

/// `res[a][m]` resolves import `m` of file `a`, for every file and import.
pub open spec fn resolutions_fit(srcs: Seq<SourceFile>, res: Seq<Seq<Option<Seq<char>>>>) -> bool {
    &&& res.len() == srcs.len()
    &&& forall|a: int|
        0 <= a < srcs.len() ==> {
            let imports = imports_of(srcs[a].content@, language_of(srcs[a].path@));
            &&& (#[trigger] res[a]).len() == imports.len()
            &&& forall|m: int|
                0 <= m < imports.len() ==> resolution_fits(srcs[a].path@, imports[m], #[trigger] res[a][m])
        }
}

pub open spec fn resolved_view(v: Seq<Vec<Option<String>>>) -> Seq<Seq<Option<Seq<char>>>> {
    v.map_values(
        |row: Vec<Option<String>>|
            row@.map_values(
                |o: Option<String>|
                    match o {
                        Some(s) => Some(s@),
                        None => None,
                    },
            ),
    )
}

/// The edge import `m` of file `a` gives: only the file a path stands for
/// links, and only to the file its resolution stands for.
pub open spec fn edge_for(srcs: Seq<SourceFile>, res: Seq<Seq<Option<Seq<char>>>>, a: int, m: int) -> Option<(FileId, FileId)> {
    if last_with_path(srcs, a) {
        match res[a][m] {
            Some(p) => match owner_of(srcs, p) {
                Some(b) => Some((a as FileId, b as FileId)),
                None => None,
            },
            None => None,
        }
    } else {
        None
    }
}

/// An edge added to a list, unless it is already there.
pub open spec fn add_edge(es: Seq<(FileId, FileId)>, e: Option<(FileId, FileId)>) -> Seq<(FileId, FileId)> {
    match e {
        Some(x) => if es.contains(x) {
            es
        } else {
            es.push(x)
        },
        None => es,
    }
}

/// The edges after the first `m` imports of file `a`, starting from `start`.
pub open spec fn file_links(
    srcs: Seq<SourceFile>,
    res: Seq<Seq<Option<Seq<char>>>>,
    a: int,
    m: int,
    start: Seq<(FileId, FileId)>,
) -> Seq<(FileId, FileId)>
    decreases m,
{
    if m <= 0 {
        start
    } else {
        add_edge(file_links(srcs, res, a, m - 1, start), edge_for(srcs, res, a, m - 1))
    }
}

/// The edges of the first `a` files, in order, each once.
pub open spec fn links(srcs: Seq<SourceFile>, res: Seq<Seq<Option<Seq<char>>>>, a: int) -> Seq<(FileId, FileId)>
    decreases a,
{
    if a <= 0 {
        seq![]
    } else {
        file_links(srcs, res, a - 1, res[a - 1].len() as int, links(srcs, res, a - 1))
    }
}

fn make_node(id: FileId, src: &SourceFile) -> (n: FileNode)
    ensures
        node_of(n, id, *src),
{
    let language = Language::from_extension(src.path.as_str());
    let (total, code) = count_lines(src.content.as_str());
    let complexity = complexity_tenths(src.content.as_str());
    let imports = extract_imports(src.content.as_str(), &language);
    let has_test = detect_test_file(src.path.as_str());
    FileNode {
        id,
        path: src.path.clone(),
        language,
        lines: total,
        code_lines: code,
        imports,
        has_test_file: has_test,
        complexity_tenths: complexity,
    }
}

/// Index of the last file with path `p`, if any: the file `p` stands for.
fn last_index_of(srcs: &Vec<SourceFile>, p: &String) -> (r: Option<usize>)
    ensures
        match r {
            Some(i) => owner_of(srcs@, p@) == Some(i as int),
            None => owner_of(srcs@, p@) is None,
        },
{
    let mut k = srcs.len();
    while k > 0
        invariant
            0 <= k <= srcs@.len(),
            forall|j: int| k <= j < srcs@.len() ==> srcs@[j].path@ != p@,
        decreases k,
    {
        if srcs[k - 1].path == *p {
            let i = k - 1;
            proof {
                assert(last_with_path(srcs@, i as int) && srcs@[i as int].path@ == p@);
                let c = choose|j: int| last_with_path(srcs@, j) && #[trigger] srcs@[j].path@ == p@;
                if c < i {
                    assert(srcs@[i as int].path@ == srcs@[c].path@);
                } else if c > i {
                    assert(srcs@[c].path@ == p@);
                }
            }
            return Some(i);
        }
        k = k - 1;
    }
    assert forall|j: int| last_with_path(srcs@, j) implies #[trigger] srcs@[j].path@ != p@ by {}
    None
}

/// The graph of the given files with their imports already resolved:
/// `resolved[a][m]` is where import `m` of file `a` leads, if anywhere. File
/// `i` gets id `i`; going through the files in order, each import of a file
/// that its path stands for, resolved to the path of a file, adds an edge to
/// the file that path stands for, unless the graph has it already.
pub fn graph_from_resolved(srcs: &Vec<SourceFile>, resolved: &Vec<Vec<Option<String>>>) -> (g: DependencyGraph)
    requires
        resolved@.len() == srcs@.len(),
    ensures
        g.wf(),
        g.nodes@.len() == srcs@.len(),
        forall|i: int| 0 <= i < srcs@.len() ==> node_of(#[trigger] g.nodes@[i], i as FileId, srcs@[i]),
        g.edges@ == links(srcs@, resolved_view(resolved@), srcs@.len() as int),
{
    let ghost res = resolved_view(resolved@);
    let mut g = DependencyGraph::new();
    let mut i: usize = 0;
    while i < srcs.len()
        invariant
            g.wf(),
            0 <= i <= srcs@.len(),
            g.nodes@.len() == i,
            g.edges@.len() == 0,
            forall|j: int| 0 <= j < i ==> node_of(#[trigger] g.nodes@[j], j as FileId, srcs@[j]),
        decreases srcs@.len() - i,
    {
        let n = make_node(i, &srcs[i]);
        proof {
            if g.has_node(i) {
                let j = choose|j: int| 0 <= j < g.nodes@.len() && #[trigger] g.nodes@[j].id == i;
                assert(g.nodes@[j].id == j);
            }
        }
        g.add_node(n);
        i = i + 1;
    }
    let ghost ns = g.nodes@;
    assert(g.edges@ =~= links(srcs@, res, 0));
    let mut a: usize = 0;
    while a < srcs.len()
        invariant
            g.wf(),
            g.nodes@ == ns,
            ns.len() == srcs@.len(),
            resolved@.len() == srcs@.len(),
            res == resolved_view(resolved@),
            forall|j: int| 0 <= j < srcs@.len() ==> node_of(#[trigger] ns[j], j as FileId, srcs@[j]),
            0 <= a <= srcs@.len(),
            g.edges@ == links(srcs@, res, a as int),
        decreases srcs@.len() - a,
    {
        let is_last = match last_index_of(srcs, &srcs[a].path) {
            Some(x) => x == a,
            None => false,
        };
        proof {
            if last_with_path(srcs@, a as int) {
                assert(owner_of(srcs@, srcs@[a as int].path@) == Some(a as int)) by {
                    let c = choose|j: int| last_with_path(srcs@, j) && #[trigger] srcs@[j].path@ == srcs@[a as int].path@;
                    if c < a {
                        assert(srcs@[a as int].path@ == srcs@[c].path@);
                    } else if c > a {
                        assert(srcs@[c].path@ == srcs@[a as int].path@);
                    }
                }
            }
            if is_last {
                assert(owner_of(srcs@, srcs@[a as int].path@) == Some(a as int));
            }
        }
        assert(is_last == last_with_path(srcs@, a as int));
        let row = &resolved[a];
        let ghost start = links(srcs@, res, a as int);
        assert(res[a as int] == row@.map_values(
            |o: Option<String>|
                match o {
                    Some(s) => Some(s@),
                    None => None,
                },
        ));
        let mut m: usize = 0;
        while m < row.len()
            invariant
                g.wf(),
                g.nodes@ == ns,
                0 <= a < srcs@.len(),
                resolved@.len() == srcs@.len(),
                res == resolved_view(resolved@),
                *row == resolved@[a as int],
                res[a as int].len() == row@.len(),
                forall|q: int| 0 <= q < row@.len() ==> res[a as int][q] == match #[trigger] row@[q] {
                    Some(s) => Some(s@),
                    None => None::<Seq<char>>,
                },
                is_last == last_with_path(srcs@, a as int),
                0 <= m <= row@.len(),
                start == links(srcs@, res, a as int),
                g.edges@ == file_links(srcs@, res, a as int, m as int, start),
            decreases row@.len() - m,
        {
            if is_last {
                match &row[m] {
                    Some(r) => {
                        match last_index_of(srcs, r) {
                            Some(b) => {
                                g.add_dependency(a, b);
                            },
                            None => {},
                        }
                    },
                    None => {},
                }
            }
            m = m + 1;
        }
        a = a + 1;
    }
    g
}

/// The graph of the given files: file `i` gets id `i`, and its imports are
/// resolved on disk (`resolve_import`); the edges are those of
/// `graph_from_resolved` for resolutions that `resolve_import` may give.
pub fn graph_from_sources(srcs: &Vec<SourceFile>) -> (g: DependencyGraph)
    ensures
        g.wf(),
        g.nodes@.len() == srcs@.len(),
        forall|i: int| 0 <= i < srcs@.len() ==> node_of(#[trigger] g.nodes@[i], i as FileId, srcs@[i]),
        exists|res: Seq<Seq<Option<Seq<char>>>>|
            resolutions_fit(srcs@, res) && g.edges@ == links(srcs@, res, srcs@.len() as int),
{
    let mut resolved: Vec<Vec<Option<String>>> = Vec::new();
    let mut a: usize = 0;
    while a < srcs.len()
        invariant
            0 <= a <= srcs@.len(),
            resolved@.len() == a,
            forall|j: int| 0 <= j < a ==> {
                let imports = imports_of(srcs@[j].content@, language_of(srcs@[j].path@));
                &&& (#[trigger] resolved_view(resolved@)[j]).len() == imports.len()
                &&& forall|m: int|
                    0 <= m < imports.len() ==> resolution_fits(srcs@[j].path@, imports[m], #[trigger] resolved_view(resolved@)[j][m])
            },
        decreases srcs@.len() - a,
    {
        let language = Language::from_extension(srcs[a].path.as_str());
        let imports = extract_imports(srcs[a].content.as_str(), &language);
        let ghost want = imports_of(srcs@[a as int].content@, language_of(srcs@[a as int].path@));
        assert(strings_view(imports@) == want);
        let mut row: Vec<Option<String>> = Vec::new();
        let mut m: usize = 0;
        while m < imports.len()
            invariant
                0 <= m <= imports@.len(),
                0 <= a < srcs@.len(),
                strings_view(imports@) == want,
                row@.len() == m,
                forall|q: int| 0 <= q < m ==> resolution_fits(srcs@[a as int].path@, want[q], opt_view(#[trigger] row@[q])),
            decreases imports@.len() - m,
        {
            let r = resolve_import(srcs[a].path.as_str(), imports[m].as_str());
            assert(imports@[m as int]@ == want[m as int]);
            row.push(r);
            m = m + 1;
        }
        let ghost before = resolved@;
        resolved.push(row);
        proof {
            assert forall|j: int| 0 <= j < a + 1 implies {
                let imports = imports_of(srcs@[j].content@, language_of(srcs@[j].path@));
                &&& (#[trigger] resolved_view(resolved@)[j]).len() == imports.len()
                &&& forall|m: int|
                    0 <= m < imports.len() ==> resolution_fits(srcs@[j].path@, imports[m], #[trigger] resolved_view(resolved@)[j][m])
            } by {
                if j < a {
                    assert(resolved@[j] == before[j]);
                    assert(resolved_view(resolved@)[j] == resolved_view(before)[j]);
                } else {
                    assert(resolved@[j] == row);
                }
            }
        }
        a = a + 1;
    }
    let g = graph_from_resolved(srcs, &resolved);
    assert(resolutions_fit(srcs@, resolved_view(resolved@)));
    g
}

} // verus!

verus! {

/// An edge `(a, b)` is owed to an import: `a` and `b` are the files their
/// paths stand for, and some import of `a` resolved to the path of `b`.
pub open spec fn edge_from_import(srcs: Seq<SourceFile>, res: Seq<Seq<Option<Seq<char>>>>, a: int, b: int) -> bool {
    &&& last_with_path(srcs, a)
    &&& last_with_path(srcs, b)
    &&& exists|m: int| 0 <= m < res[a].len() && #[trigger] res[a][m] == Some(srcs[b].path@)
}

proof fn lemma_file_links(
    srcs: Seq<SourceFile>,
    res: Seq<Seq<Option<Seq<char>>>>,
    a: int,
    m: int,
    start: Seq<(FileId, FileId)>,
)
    requires
        0 <= a < srcs.len(),
        srcs.len() <= usize::MAX,
        res.len() == srcs.len(),
        0 <= m <= res[a].len(),
        forall|i: int| 0 <= i < start.len() ==> edge_from_import(srcs, res, (#[trigger] start[i]).0 as int, start[i].1 as int),
    ensures
        forall|i: int|
            0 <= i < file_links(srcs, res, a, m, start).len() ==> edge_from_import(
                srcs,
                res,
                (#[trigger] file_links(srcs, res, a, m, start)[i]).0 as int,
                file_links(srcs, res, a, m, start)[i].1 as int,
            ),
    decreases m,
{
    if m > 0 {
        lemma_file_links(srcs, res, a, m - 1, start);
        let pre = file_links(srcs, res, a, m - 1, start);
        let now = file_links(srcs, res, a, m, start);
        match edge_for(srcs, res, a, m - 1) {
            Some(x) => {
                if !pre.contains(x) {
                    let p = res[a][m - 1]->0;
                    let b = owner_of(srcs, p)->0;
                    assert(last_with_path(srcs, b) && srcs[b].path@ == p);
                    assert(x == (a as FileId, b as FileId));
                    assert(edge_from_import(srcs, res, a, b));
                    assert forall|i: int| 0 <= i < now.len() implies edge_from_import(
                        srcs,
                        res,
                        (#[trigger] now[i]).0 as int,
                        now[i].1 as int,
                    ) by {
                        if i < pre.len() {
                            assert(now[i] == pre[i]);
                        } else {
                            assert(now[i] == x);
                        }
                    }
                }
            },
            None => {},
        }
    }
}

proof fn lemma_links(srcs: Seq<SourceFile>, res: Seq<Seq<Option<Seq<char>>>>, a: int)
    requires
        0 <= a <= srcs.len(),
        srcs.len() <= usize::MAX,
        res.len() == srcs.len(),
    ensures
        forall|i: int|
            0 <= i < links(srcs, res, a).len() ==> edge_from_import(
                srcs,
                res,
                (#[trigger] links(srcs, res, a)[i]).0 as int,
                links(srcs, res, a)[i].1 as int,
            ),
    decreases a,
{
    if a > 0 {
        lemma_links(srcs, res, a - 1);
        lemma_file_links(srcs, res, a - 1, res[a - 1].len() as int, links(srcs, res, a - 1));
    }
}

/// Every edge of the graph is owed to an import: its source is the file its
/// path stands for, and one of that file's imports resolved to the path of the
/// edge's target, which is one of that import's candidates.
pub proof fn law_edges_from_imports(srcs: Seq<SourceFile>, res: Seq<Seq<Option<Seq<char>>>>, i: int)
    requires
        resolutions_fit(srcs, res),
        srcs.len() <= usize::MAX,
        0 <= i < links(srcs, res, srcs.len() as int).len(),
    ensures
        ({
            let (a, b) = links(srcs, res, srcs.len() as int)[i];
            let imports = imports_of(srcs[a as int].content@, language_of(srcs[a as int].path@));
            &&& last_with_path(srcs, a as int)
            &&& last_with_path(srcs, b as int)
            &&& exists|m: int|
                0 <= m < imports.len() && #[trigger] res[a as int][m] == Some(srcs[b as int].path@)
                    && (import_base(srcs[a as int].path@, imports[m]) matches Some(base)
                    && import_candidates(base).contains(srcs[b as int].path@))
        }),
{
    lemma_links(srcs, res, srcs.len() as int);
    let (a, b) = links(srcs, res, srcs.len() as int)[i];
    assert(edge_from_import(srcs, res, a as int, b as int));
    let m = choose|m: int| 0 <= m < res[a as int].len() && #[trigger] res[a as int][m] == Some(srcs[b as int].path@);
    let imports = imports_of(srcs[a as int].content@, language_of(srcs[a as int].path@));
    assert(res[a as int].len() == imports.len());
    assert(resolution_fits(srcs[a as int].path@, imports[m], res[a as int][m]));
    match import_base(srcs[a as int].path@, imports[m]) {
        Some(base) => {
            let (ex, dir) = choose|ex: Seq<bool>, dir: bool|
                ex.len() == 10 && res[a as int][m] == first_existing(import_candidates(base), ex, dir);
            lemma_first_existing_candidate(import_candidates(base), ex, dir);
        },
        None => {},
    }
}

} // verus!
