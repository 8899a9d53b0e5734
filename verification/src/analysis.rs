//! Whole-graph figures: degrees ranked, totals, languages, and the impact of
//! changing a set of files.
use vstd::prelude::*;
use std::collections::HashSet;
use crate::graph::{closed_by, closing_edges_distinct, cycles_view, next_in, set_to_vec, sources_of, targets_of, DependencyGraph};
use crate::types::{FileId, FileNode, Language, LanguageModel};

verus! {

broadcast use vstd::std_specs::hash::group_hash_axioms;

// ---------------------------------------------------------------- ranking by count

/// Where `c` goes in a list ordered by decreasing count: after every entry
/// whose count is at least `c`.
pub open spec fn insert_point(s: Seq<(FileId, usize)>, c: usize) -> int
    decreases s.len(),
{
    if s.len() == 0 {
        0
    } else if s[0].1 < c {
        0
    } else {
        1 + insert_point(s.drop_first(), c)
    }
}

/// `s` ranked by decreasing count; entries with equal counts keep their order.
pub open spec fn rank_desc(s: Seq<(FileId, usize)>) -> Seq<(FileId, usize)>
    decreases s.len(),
{
    if s.len() == 0 {
        seq![]
    } else {
        let t = rank_desc(s.drop_last());
        t.insert(insert_point(t, s.last().1), s.last())
    }
}

pub open spec fn sorted_desc(s: Seq<(FileId, usize)>) -> bool {
    forall|i: int, j: int| 0 <= i < j < s.len() ==> s[i].1 >= s[j].1
}

pub proof fn lemma_insert_point(s: Seq<(FileId, usize)>, c: usize)
    requires
        sorted_desc(s),
    ensures
        0 <= insert_point(s, c) <= s.len(),
        forall|i: int| 0 <= i < insert_point(s, c) ==> s[i].1 >= c,
        forall|i: int| insert_point(s, c) <= i < s.len() ==> s[i].1 < c,
    decreases s.len(),
{
    if s.len() > 0 && s[0].1 >= c {
        let t = s.drop_first();
        assert(sorted_desc(t)) by {
            assert forall|i: int, j: int| 0 <= i < j < t.len() implies t[i].1 >= t[j].1 by {
                assert(t[i] == s[i + 1] && t[j] == s[j + 1]);
            }
        }
        lemma_insert_point(t, c);
        assert forall|i: int| 0 <= i < insert_point(s, c) implies s[i].1 >= c by {
            if i > 0 {
                assert(s[i] == t[i - 1]);
            }
        }
        assert forall|i: int| insert_point(s, c) <= i < s.len() implies s[i].1 < c by {
            assert(s[i] == t[i - 1]);
        }
    }
}

/// The ranking is ordered by decreasing count and holds exactly the entries of `s`.
pub proof fn lemma_rank_desc(s: Seq<(FileId, usize)>)
    ensures
        sorted_desc(rank_desc(s)),
        rank_desc(s).to_multiset() == s.to_multiset(),
        rank_desc(s).len() == s.len(),
    decreases s.len(),
{
    broadcast use vstd::seq_lib::group_to_multiset_ensures;

    if s.len() > 0 {
        let t = rank_desc(s.drop_last());
        lemma_rank_desc(s.drop_last());
        let x = s.last();
        let p = insert_point(t, x.1);
        lemma_insert_point(t, x.1);
        let r = t.insert(p, x);
        t.insert_ensures(p, x);
        assert forall|i: int, j: int| 0 <= i < j < r.len() implies r[i].1 >= r[j].1 by {
            if j < p {
            } else if j == p {
            } else if i < p {
                assert(r[j] == t[j - 1]);
            } else if i == p {
                assert(r[j] == t[j - 1]);
            } else {
                assert(r[i] == t[i - 1] && r[j] == t[j - 1]);
            }
        }
        assert(r =~= t.subrange(0, p).push(x) + t.subrange(p, t.len() as int));
        vstd::seq_lib::lemma_multiset_commutative(t.subrange(0, p).push(x), t.subrange(p, t.len() as int));
        vstd::seq_lib::lemma_multiset_commutative(t.subrange(0, p), t.subrange(p, t.len() as int));
        assert(t =~= t.subrange(0, p) + t.subrange(p, t.len() as int));
        assert(s =~= s.drop_last().push(x));
    }
}

/// `s` ranked by decreasing count, ties in their original order.
pub fn rank_by_count(s: &Vec<(FileId, usize)>) -> (r: Vec<(FileId, usize)>)
    ensures
        r@ == rank_desc(s@),
{
    let mut out: Vec<(FileId, usize)> = Vec::new();
    let mut k: usize = 0;
    while k < s.len()
        invariant
            0 <= k <= s@.len(),
            out@ == rank_desc(s@.subrange(0, k as int)),
        decreases s@.len() - k,
    {
        let x = s[k];
        proof {
            lemma_rank_desc(s@.subrange(0, k as int));
            lemma_insert_point(out@, x.1);
            assert(s@.subrange(0, k + 1).drop_last() =~= s@.subrange(0, k as int));
        }
        let mut j: usize = 0;
        while j < out.len() && out[j].1 >= x.1
            invariant
                0 <= j <= out@.len(),
                sorted_desc(out@),
                insert_point(out@, x.1) >= j,
                forall|i: int| 0 <= i < insert_point(out@, x.1) ==> out@[i].1 >= x.1,
                forall|i: int| insert_point(out@, x.1) <= i < out@.len() ==> out@[i].1 < x.1,
            decreases out@.len() - j,
        {
            j = j + 1;
        }
        assert(j == insert_point(out@, x.1));
        out.insert(j, x);
        k = k + 1;
    }
    assert(s@.subrange(0, k as int) =~= s@);
    out
}

} // verus!

verus! {

// ---------------------------------------------------------------- figures of a graph

impl DependencyGraph {
    /// Number of edges leaving `id`.
    pub open spec fn out_degree(&self, id: FileId) -> nat {
        targets_of(self.edges@, id).len()
    }

    /// Number of edges entering `id`.
    pub open spec fn in_degree(&self, id: FileId) -> nat {
        sources_of(self.edges@, id).len()
    }

    /// Each file with its number of outgoing (`forward`) or incoming edges, in file order.
    pub open spec fn degree_list(&self, forward: bool) -> Seq<(FileId, usize)> {
        Seq::new(
            self.nodes@.len(),
            |i: int|
                (
                    self.nodes@[i].id,
                    if forward {
                        self.out_degree(self.nodes@[i].id) as usize
                    } else {
                        self.in_degree(self.nodes@[i].id) as usize
                    },
                ),
        )
    }
}

/// At most the first ten entries.
pub open spec fn first_ten(s: Seq<(FileId, usize)>) -> Seq<(FileId, usize)> {
    if s.len() <= 10 {
        s
    } else {
        s.subrange(0, 10)
    }
}

pub open spec fn sum_lines(ns: Seq<FileNode>) -> int
    decreases ns.len(),
{
    if ns.len() == 0 {
        0
    } else {
        sum_lines(ns.drop_last()) + ns.last().lines
    }
}

pub open spec fn sum_code_lines(ns: Seq<FileNode>) -> int
    decreases ns.len(),
{
    if ns.len() == 0 {
        0
    } else {
        sum_code_lines(ns.drop_last()) + ns.last().code_lines
    }
}

pub open spec fn count_test_files(ns: Seq<FileNode>) -> int
    decreases ns.len(),
{
    if ns.len() == 0 {
        0
    } else {
        count_test_files(ns.drop_last()) + if ns.last().has_test_file {
            1int
        } else {
            0int
        }
    }
}

/// The languages of the files, each once, in order of first appearance.
pub open spec fn languages_of(ns: Seq<FileNode>) -> Seq<LanguageModel>
    decreases ns.len(),
{
    if ns.len() == 0 {
        seq![]
    } else if languages_of(ns.drop_last()).contains(ns.last().language@) {
        languages_of(ns.drop_last())
    } else {
        languages_of(ns.drop_last()).push(ns.last().language@)
    }
}

/// Number of files in language `l`.
pub open spec fn count_language(ns: Seq<FileNode>, l: LanguageModel) -> int
    decreases ns.len(),
{
    if ns.len() == 0 {
        0
    } else {
        count_language(ns.drop_last(), l) + if ns.last().language@ == l {
            1int
        } else {
            0int
        }
    }
}

/// The figures the reports print about a graph.
pub struct AnalysisResult {
    pub cycles: Vec<Vec<FileId>>,
    pub top_deps: Vec<(FileId, usize)>,
    pub top_dependents: Vec<(FileId, usize)>,
    pub total_files: usize,
    pub total_dependencies: usize,
    pub max_deps: usize,
    pub max_dependents: usize,
    pub isolated_count: usize,
    pub cycle_count: usize,
    pub total_lines: u128,
    pub total_code_lines: u128,
    pub test_file_count: usize,
    pub languages: Vec<(Language, usize)>,
}

pub fn same_language(a: &Language, b: &Language) -> (r: bool)
    ensures
        r == (a@ == b@),
{
    match a {
        Language::Rust => match b {
            Language::Rust => true,
            _ => false,
        },
        Language::Python => match b {
            Language::Python => true,
            _ => false,
        },
        Language::JavaScript => match b {
            Language::JavaScript => true,
            _ => false,
        },
        Language::TypeScript => match b {
            Language::TypeScript => true,
            _ => false,
        },
        Language::Go => match b {
            Language::Go => true,
            _ => false,
        },
        Language::Other(x) => match b {
            Language::Other(y) => *x == *y,
            _ => false,
        },
    }
}

pub fn copy_language(a: &Language) -> (r: Language)
    ensures
        r@ == a@,
{
    match a {
        Language::Rust => Language::Rust,
        Language::Python => Language::Python,
        Language::JavaScript => Language::JavaScript,
        Language::TypeScript => Language::TypeScript,
        Language::Go => Language::Go,
        Language::Other(x) => Language::Other(x.clone()),
    }
}

fn degree(g: &DependencyGraph, id: FileId, forward: bool) -> (r: usize)
    ensures
        forward ==> r == g.out_degree(id),
        !forward ==> r == g.in_degree(id),
{
    let mut n: usize = 0;
    let mut k: usize = 0;
    while k < g.edges.len()
        invariant
            0 <= k <= g.edges@.len(),
            n <= k,
            forward ==> n == targets_of(g.edges@.subrange(0, k as int), id).len(),
            !forward ==> n == sources_of(g.edges@.subrange(0, k as int), id).len(),
        decreases g.edges@.len() - k,
    {
        let (a, b) = g.edges[k];
        assert(g.edges@.subrange(0, k + 1).drop_last() =~= g.edges@.subrange(0, k as int));
        if (forward && a == id) || (!forward && b == id) {
            n = n + 1;
        }
        k = k + 1;
    }
    assert(g.edges@.subrange(0, k as int) =~= g.edges@);
    n
}

fn degree_list_exec(g: &DependencyGraph, forward: bool) -> (r: Vec<(FileId, usize)>)
    ensures
        r@ == g.degree_list(forward),
{
    let mut out: Vec<(FileId, usize)> = Vec::new();
    let mut k: usize = 0;
    while k < g.nodes.len()
        invariant
            0 <= k <= g.nodes@.len(),
            out@ == g.degree_list(forward).subrange(0, k as int),
        decreases g.nodes@.len() - k,
    {
        let id = g.nodes[k].id;
        let d = degree(g, id, forward);
        out.push((id, d));
        k = k + 1;
        assert(out@ =~= g.degree_list(forward).subrange(0, k as int));
    }
    assert(g.degree_list(forward).subrange(0, k as int) =~= g.degree_list(forward));
    out
}

fn first_ten_exec(s: Vec<(FileId, usize)>) -> (r: Vec<(FileId, usize)>)
    ensures
        r@ == first_ten(s@),
{
    let mut s = s;
    if s.len() > 10 {
        s.truncate(10);
    }
    s
}

} // verus!

verus! {

fn language_counts(ns: &Vec<FileNode>) -> (r: Vec<(Language, usize)>)
    ensures
        r@.len() == languages_of(ns@).len(),
        forall|i: int|
            0 <= i < r@.len() ==> (#[trigger] r@[i]).0@ == languages_of(ns@)[i] && r@[i].1
                == count_language(ns@, languages_of(ns@)[i]),
{
    let mut out: Vec<(Language, usize)> = Vec::new();
    let mut k: usize = 0;
    while k < ns.len()
        invariant
            0 <= k <= ns@.len(),
            out@.len() == languages_of(ns@.subrange(0, k as int)).len(),
            forall|i: int|
                0 <= i < out@.len() ==> (#[trigger] out@[i]).0@ == languages_of(
                    ns@.subrange(0, k as int),
                )[i] && out@[i].1 == count_language(
                    ns@.subrange(0, k as int),
                    languages_of(ns@.subrange(0, k as int))[i],
                ),
            forall|i: int| 0 <= i < out@.len() ==> out@[i].1 <= k,
        decreases ns@.len() - k,
    {
        let ghost pre = ns@.subrange(0, k as int);
        let ghost post = ns@.subrange(0, k + 1);
        assert(post.drop_last() =~= pre);
        assert(post.last() == ns@[k as int]);
        let lang = &ns[k].language;
        let mut j: usize = 0;
        while j < out.len() && !same_language(&out[j].0, lang)
            invariant
                0 <= j <= out@.len(),
                forall|i: int| 0 <= i < j ==> out@[i].0@ != lang@,
            decreases out@.len() - j,
        {
            j = j + 1;
        }
        let ghost old_out = out@;
        proof {
            assert forall|l: LanguageModel| #[trigger] count_language(post, l) == count_language(pre, l)
                + if lang@ == l { 1int } else { 0int } by {}
        }
        if j < out.len() {
            let (l, c) = out.remove(j);
            out.insert(j, (l, c + 1));
            proof {
                assert(languages_of(pre).contains(lang@)) by {
                    assert(languages_of(pre)[j as int] == lang@);
                }
                assert(languages_of(post) == languages_of(pre));
                assert forall|i: int| 0 <= i < out@.len() implies (#[trigger] out@[i]).0@ == languages_of(
                    post,
                )[i] && out@[i].1 == count_language(post, languages_of(post)[i]) by {
                    if i != j {
                        assert(out@[i] == old_out[i]);
                        lemma_languages_distinct(pre);
                        assert(languages_of(pre)[i] != languages_of(pre)[j as int]);
                    }
                }
            }
        } else {
            out.push((copy_language(lang), 1));
            proof {
                assert(!languages_of(pre).contains(lang@)) by {
                    if languages_of(pre).contains(lang@) {
                        let i = choose|i: int| 0 <= i < languages_of(pre).len() && languages_of(pre)[i] == lang@;
                        assert(old_out[i].0@ != lang@);
                    }
                }
                assert(languages_of(post) == languages_of(pre).push(lang@));
                assert(count_language(pre, lang@) == 0) by {
                    lemma_count_absent(pre, lang@);
                }
                assert forall|i: int| 0 <= i < out@.len() implies (#[trigger] out@[i]).0@ == languages_of(
                    post,
                )[i] && out@[i].1 == count_language(post, languages_of(post)[i]) by {
                    if i < old_out.len() {
                        assert(out@[i] == old_out[i]);
                        assert(old_out[i].0@ != lang@);
                        assert(old_out[i].0@ == languages_of(pre)[i]);
                        assert(languages_of(post)[i] == languages_of(pre)[i]);
                    }
                }
            }
        }
        k = k + 1;
    }
    assert(ns@.subrange(0, k as int) =~= ns@);
    out
}

pub proof fn lemma_languages_distinct(ns: Seq<FileNode>)
    ensures
        languages_of(ns).no_duplicates(),
    decreases ns.len(),
{
    if ns.len() > 0 {
        let pre = ns.drop_last();
        lemma_languages_distinct(pre);
        if !languages_of(pre).contains(ns.last().language@) {
            let s = languages_of(ns);
            assert forall|i: int, j: int| 0 <= i < s.len() && 0 <= j < s.len() && i != j implies s[i] != s[j] by {
                if i == languages_of(pre).len() as int {
                    assert(languages_of(pre).contains(s[j]));
                } else if j == languages_of(pre).len() as int {
                    assert(languages_of(pre).contains(s[i]));
                }
            }
        }
    }
}

pub proof fn lemma_count_absent(ns: Seq<FileNode>, l: LanguageModel)
    requires
        !languages_of(ns).contains(l),
    ensures
        count_language(ns, l) == 0,
    decreases ns.len(),
{
    if ns.len() > 0 {
        let pre = ns.drop_last();
        if languages_of(pre).contains(ns.last().language@) {
            assert(ns.last().language@ != l);
        } else {
            assert(languages_of(ns) == languages_of(pre).push(ns.last().language@));
            assert(languages_of(ns)[languages_of(pre).len() as int] == ns.last().language@);
            assert(ns.last().language@ != l);
            assert forall|i: int| 0 <= i < languages_of(pre).len() implies languages_of(pre)[i] != l by {
                assert(languages_of(ns)[i] == languages_of(pre)[i]);
            }
        }
        lemma_count_absent(pre, l);
    }
}

} // verus!

verus! {

/// The figures of a graph: its cycles (every cycle a file reaches has an edge
/// that closes one of them), files ranked by dependencies and by dependents
/// (ten each at most), totals, and files per language.
pub fn analyze(graph: &DependencyGraph) -> (s: AnalysisResult)
    requires
        graph.wf(),
    ensures
        forall|k: int| 0 <= k < s.cycles@.len() ==> graph.good_cycle(#[trigger] s.cycles@[k]@),
        closing_edges_distinct(cycles_view(s.cycles@)),
        forall|c: Seq<FileId>|
            #[trigger] graph.is_cycle(c) && graph.from_files(c[0]) ==> exists|i: int|
                0 <= i < c.len() && closed_by(cycles_view(s.cycles@), #[trigger] c[i], next_in(c, i)),
        s.cycles@.len() == 0 <==> !graph.has_reachable_cycle(),
        s.cycle_count == s.cycles@.len(),
        s.top_deps@ == first_ten(rank_desc(graph.degree_list(true))),
        s.top_dependents@ == first_ten(rank_desc(graph.degree_list(false))),
        s.max_deps == if graph.nodes@.len() == 0 {
            0
        } else {
            rank_desc(graph.degree_list(true))[0].1
        },
        s.max_dependents == if graph.nodes@.len() == 0 {
            0
        } else {
            rank_desc(graph.degree_list(false))[0].1
        },
        s.total_files == graph.nodes@.len(),
        s.total_dependencies == graph.edges@.len(),
        s.isolated_count == graph.isolated_ids(graph.nodes@).len(),
        s.total_lines == sum_lines(graph.nodes@),
        s.total_code_lines == sum_code_lines(graph.nodes@),
        s.test_file_count == count_test_files(graph.nodes@),
        s.languages@.len() == languages_of(graph.nodes@).len(),
        forall|i: int|
            0 <= i < s.languages@.len() ==> (#[trigger] s.languages@[i]).0@ == languages_of(
                graph.nodes@,
            )[i] && s.languages@[i].1 == count_language(graph.nodes@, languages_of(graph.nodes@)[i]),
{
    let cycles = if graph.nodes.len() > 0 {
        graph.find_cycles()
    } else {
        proof {
            assert forall|c: Seq<FileId>| #[trigger] graph.is_cycle(c) implies !graph.from_files(c[0]) by {}
        }
        Vec::new()
    };
    let deps = rank_by_count(&degree_list_exec(graph, true));
    let dependents = rank_by_count(&degree_list_exec(graph, false));
    proof {
        lemma_rank_desc(graph.degree_list(true));
        lemma_rank_desc(graph.degree_list(false));
    }
    let max_deps = if deps.len() > 0 {
        deps[0].1
    } else {
        0
    };
    let max_dependents = if dependents.len() > 0 {
        dependents[0].1
    } else {
        0
    };
    let mut total_lines: u128 = 0;
    let mut total_code_lines: u128 = 0;
    let mut tests: usize = 0;
    let mut k: usize = 0;
    while k < graph.nodes.len()
        invariant
            0 <= k <= graph.nodes@.len(),
            total_lines == sum_lines(graph.nodes@.subrange(0, k as int)),
            total_code_lines == sum_code_lines(graph.nodes@.subrange(0, k as int)),
            tests == count_test_files(graph.nodes@.subrange(0, k as int)),
            total_lines <= k * (usize::MAX as int),
            total_code_lines <= k * (usize::MAX as int),
            tests <= k,
        decreases graph.nodes@.len() - k,
    {
        let n = &graph.nodes[k];
        assert(graph.nodes@.subrange(0, k + 1).drop_last() =~= graph.nodes@.subrange(0, k as int));
        proof {
            assert(k * (usize::MAX as int) + usize::MAX == (k + 1) * (usize::MAX as int)) by (nonlinear_arith);
            assert((k + 1) * (usize::MAX as int) <= usize::MAX * (usize::MAX as int)) by (nonlinear_arith)
                requires
                    k + 1 <= usize::MAX,
            ;
        }
        total_lines = total_lines + n.lines as u128;
        total_code_lines = total_code_lines + n.code_lines as u128;
        if n.has_test_file {
            tests = tests + 1;
        }
        k = k + 1;
    }
    assert(graph.nodes@.subrange(0, k as int) =~= graph.nodes@);
    let isolated = graph.isolated_nodes();
    let languages = language_counts(&graph.nodes);
    let cycle_count = cycles.len();
    let total_files = graph.file_count();
    let total_dependencies = graph.edge_count();
    AnalysisResult {
        cycles,
        top_deps: first_ten_exec(deps),
        top_dependents: first_ten_exec(dependents),
        total_files,
        total_dependencies,
        max_deps,
        max_dependents,
        isolated_count: isolated.len(),
        cycle_count,
        total_lines,
        total_code_lines,
        test_file_count: tests,
        languages,
    }
}

} // verus!

verus! {

// ---------------------------------------------------------------- impact

/// What changing a set of files touches. The risk score, a floating-point
/// formula, is computed beside it.
pub struct ImpactReport {
    pub target_files: Vec<FileId>,
    pub directly_affected: HashSet<FileId>,
    pub transitively_affected: HashSet<FileId>,
    pub total_dependencies: HashSet<FileId>,
    pub total_files_touched: usize,
    pub risk_score: u8,
}

/// The sets of an impact analysis.
pub struct ImpactSets {
    pub directly_affected: HashSet<FileId>,
    pub transitively_affected: HashSet<FileId>,
    pub total_dependencies: HashSet<FileId>,
    pub total_files_touched: usize,
}

impl DependencyGraph {
    /// Everything that depends, directly or not, on one of `ts` (other than that target).
    pub open spec fn affected_by(&self, ts: Seq<FileId>) -> Set<FileId> {
        Set::new(|v: FileId| exists|i: int| 0 <= i < ts.len() && #[trigger] self.dependent_closure(ts[i]).contains(v))
    }

    /// Everything one of `ts` depends on, directly or not (other than that target).
    pub open spec fn needed_by(&self, ts: Seq<FileId>) -> Set<FileId> {
        Set::new(|v: FileId| exists|i: int| 0 <= i < ts.len() && #[trigger] self.dependency_closure(ts[i]).contains(v))
    }

    /// The affected files with an edge straight to one of `ts`.
    pub open spec fn directly_affected_by(&self, ts: Seq<FileId>) -> Set<FileId> {
        Set::new(|v: FileId| self.affected_by(ts).contains(v) && exists|i: int| 0 <= i < ts.len() && #[trigger] self.has_edge(v, ts[i]))
    }
}

pub open spec fn edge_starts(es: Seq<(FileId, FileId)>) -> Set<FileId> {
    es.map_values(|e: (FileId, FileId)| e.0).to_set()
}

pub open spec fn edge_ends(es: Seq<(FileId, FileId)>) -> Set<FileId> {
    es.map_values(|e: (FileId, FileId)| e.1).to_set()
}

fn has_edge_into(g: &DependencyGraph, v: FileId, ts: &[FileId]) -> (r: bool)
    ensures
        r == exists|i: int| 0 <= i < ts@.len() && #[trigger] g.has_edge(v, ts@[i]),
{
    let mut i: usize = 0;
    while i < ts.len()
        invariant
            0 <= i <= ts@.len(),
            forall|j: int| 0 <= j < i ==> !#[trigger] g.has_edge(v, ts@[j]),
        decreases ts@.len() - i,
    {
        let t = ts[i];
        let mut k: usize = 0;
        while k < g.edges.len()
            invariant
                0 <= k <= g.edges@.len(),
                0 <= i < ts@.len(),
                t == ts@[i as int],
                forall|j: int| 0 <= j < k ==> g.edges@[j] != (v, t),
            decreases g.edges@.len() - k,
        {
            let (a, b) = g.edges[k];
            if a == v && b == t {
                assert(g.edges@[k as int] == (v, t));
                assert(g.has_edge(v, ts@[i as int]));
                return true;
            }
            k = k + 1;
        }
        assert(!g.has_edge(v, t));
        i = i + 1;
    }
    false
}

/// Adds the elements of `v` to `s`.
fn insert_all(s: &mut HashSet<FileId>, v: &Vec<FileId>)
    ensures
        final(s)@ == old(s)@ + v@.to_set(),
{
    let mut k: usize = 0;
    while k < v.len()
        invariant
            0 <= k <= v@.len(),
            s@ == old(s)@ + v@.subrange(0, k as int).to_set(),
        decreases v@.len() - k,
    {
        s.insert(v[k]);
        proof {
            v@.subrange(0, k as int).lemma_push_to_set_commute(v@[k as int]);
            assert(v@.subrange(0, k + 1) =~= v@.subrange(0, k as int).push(v@[k as int]));
        }
        k = k + 1;
        assert(s@ =~= old(s)@ + v@.subrange(0, k as int).to_set());
    }
    assert(v@.subrange(0, k as int) =~= v@);
}

/// What depends on the targets, what they depend on, and how many files that
/// touches in all. The bounds hold of any graph that fits in memory.
pub fn impact_sets(graph: &DependencyGraph, target_files: &[FileId]) -> (r: ImpactSets)
    requires
        graph.wf(),
        graph.edges@.len() <= usize::MAX / 4,
        target_files@.len() <= usize::MAX / 2,
    ensures
        r.transitively_affected@ == graph.affected_by(target_files@),
        r.total_dependencies@ == graph.needed_by(target_files@),
        r.directly_affected@ == graph.directly_affected_by(target_files@),
        r.total_files_touched == r.transitively_affected@.len() + r.total_dependencies@.len()
            + target_files@.len(),
{
    let mut affected: HashSet<FileId> = HashSet::new();
    let mut needed: HashSet<FileId> = HashSet::new();
    let mut i: usize = 0;
    while i < target_files.len()
        invariant
            graph.wf(),
            0 <= i <= target_files@.len(),
            affected@ == graph.affected_by(target_files@.subrange(0, i as int)),
            needed@ == graph.needed_by(target_files@.subrange(0, i as int)),
        decreases target_files@.len() - i,
    {
        let t = target_files[i];
        let up = graph.transitive_dependents(t);
        let down = graph.transitive_dependencies(t);
        insert_all(&mut affected, &set_to_vec(&up));
        insert_all(&mut needed, &set_to_vec(&down));
        i = i + 1;
        proof {
            let pre = target_files@.subrange(0, i - 1);
            let ts = target_files@.subrange(0, i as int);
            assert forall|v: FileId| affected@.contains(v) <==> graph.affected_by(ts).contains(v) by {
                if graph.affected_by(ts).contains(v) {
                    let j = choose|j: int| 0 <= j < ts.len() && #[trigger] graph.dependent_closure(ts[j]).contains(v);
                    if j < i - 1 {
                        assert(pre[j] == ts[j]);
                        assert(graph.affected_by(pre).contains(v));
                    }
                }
                if graph.affected_by(pre).contains(v) {
                    let j = choose|j: int| 0 <= j < pre.len() && #[trigger] graph.dependent_closure(pre[j]).contains(v);
                    assert(pre[j] == ts[j]);
                }
                if up@.contains(v) {
                    assert(ts[i - 1] == t);
                }
            }
            assert forall|v: FileId| needed@.contains(v) <==> graph.needed_by(ts).contains(v) by {
                if graph.needed_by(ts).contains(v) {
                    let j = choose|j: int| 0 <= j < ts.len() && #[trigger] graph.dependency_closure(ts[j]).contains(v);
                    if j < i - 1 {
                        assert(pre[j] == ts[j]);
                        assert(graph.needed_by(pre).contains(v));
                    }
                }
                if graph.needed_by(pre).contains(v) {
                    let j = choose|j: int| 0 <= j < pre.len() && #[trigger] graph.dependency_closure(pre[j]).contains(v);
                    assert(pre[j] == ts[j]);
                }
                if down@.contains(v) {
                    assert(ts[i - 1] == t);
                }
            }
            assert(affected@ =~= graph.affected_by(ts));
            assert(needed@ =~= graph.needed_by(ts));
        }
    }
    assert(target_files@.subrange(0, i as int) =~= target_files@);
    let affected_list = set_to_vec(&affected);
    let mut direct: HashSet<FileId> = HashSet::new();
    let mut k: usize = 0;
    while k < affected_list.len()
        invariant
            0 <= k <= affected_list@.len(),
            affected_list@.to_set() == affected@,
            affected@ == graph.affected_by(target_files@),
            direct@ == Set::new(|v: FileId| affected_list@.subrange(0, k as int).contains(v) && exists|i: int| 0 <= i < target_files@.len() && #[trigger] graph.has_edge(v, target_files@[i])),
        decreases affected_list@.len() - k,
    {
        let v = affected_list[k];
        let ghost old_direct = direct@;
        let hit = has_edge_into(graph, v, target_files);
        if hit {
            direct.insert(v);
        }
        k = k + 1;
        proof {
            let pre = affected_list@.subrange(0, k - 1);
            let now = affected_list@.subrange(0, k as int);
            assert(now =~= pre.push(v));
            assert forall|w: FileId| direct@.contains(w) <==> (now.contains(w) && exists|i: int| 0 <= i < target_files@.len() && #[trigger] graph.has_edge(w, target_files@[i])) by {
                if now.contains(w) && w != v {
                    let j = choose|j: int| 0 <= j < now.len() && now[j] == w;
                    assert(j < pre.len());
                    assert(pre[j] == w);
                }
                if pre.contains(w) {
                    let j = choose|j: int| 0 <= j < pre.len() && pre[j] == w;
                    assert(now[j] == w);
                }
                if w == v {
                    assert(now[now.len() - 1] == v);
                }
            }
            assert(direct@ =~= Set::new(|w: FileId| affected_list@.subrange(0, k as int).contains(w) && exists|i: int| 0 <= i < target_files@.len() && #[trigger] graph.has_edge(w, target_files@[i])));
        }
    }
    proof {
        assert(affected_list@.subrange(0, k as int) =~= affected_list@);
        assert(direct@ =~= graph.directly_affected_by(target_files@)) by {
            assert forall|v: FileId| direct@.contains(v) <==> graph.directly_affected_by(target_files@).contains(v) by {
                if affected@.contains(v) {
                    assert(affected_list@.to_set().contains(v));
                }
            }
        }
        // sizes: every affected file starts an edge, every needed file ends one
        assert(affected@.subset_of(edge_starts(graph.edges@))) by {
            assert forall|v: FileId| affected@.contains(v) implies edge_starts(graph.edges@).contains(v) by {
                let j = choose|j: int| 0 <= j < target_files@.len() && #[trigger] graph.dependent_closure(target_files@[j]).contains(v);
                graph.lemma_reach_ends(v, target_files@[j]);
                let e = choose|e: int| 0 <= e < graph.edges@.len() && #[trigger] graph.edges@[e].0 == v;
                assert(graph.edges@.map_values(|e: (FileId, FileId)| e.0)[e] == v);
            }
        }
        assert(needed@.subset_of(edge_ends(graph.edges@))) by {
            assert forall|v: FileId| needed@.contains(v) implies edge_ends(graph.edges@).contains(v) by {
                let j = choose|j: int| 0 <= j < target_files@.len() && #[trigger] graph.dependency_closure(target_files@[j]).contains(v);
                graph.lemma_reach_ends(target_files@[j], v);
                let e = choose|e: int| 0 <= e < graph.edges@.len() && #[trigger] graph.edges@[e].1 == v;
                assert(graph.edges@.map_values(|e: (FileId, FileId)| e.1)[e] == v);
            }
        }
        graph.edges@.map_values(|e: (FileId, FileId)| e.0).lemma_cardinality_of_set();
        graph.edges@.map_values(|e: (FileId, FileId)| e.1).lemma_cardinality_of_set();
        vstd::seq_lib::seq_to_set_is_finite(graph.edges@.map_values(|e: (FileId, FileId)| e.0));
        vstd::seq_lib::seq_to_set_is_finite(graph.edges@.map_values(|e: (FileId, FileId)| e.1));
        vstd::set_lib::lemma_len_subset(affected@, edge_starts(graph.edges@));
        vstd::set_lib::lemma_len_subset(needed@, edge_ends(graph.edges@));
    }
    let total = affected.len() + needed.len() + target_files.len();
    ImpactSets {
        directly_affected: direct,
        transitively_affected: affected,
        total_dependencies: needed,
        total_files_touched: total,
    }
}

} // verus!

verus! {

/// The first entry of the ranking carries the largest count of the list.
pub proof fn law_rank_first_is_max(s: Seq<(FileId, usize)>)
    requires
        s.len() > 0,
    ensures
        forall|i: int| 0 <= i < s.len() ==> s[i].1 <= rank_desc(s)[0].1,
        exists|i: int| 0 <= i < s.len() && s[i] == rank_desc(s)[0],
{
    broadcast use vstd::seq_lib::group_to_multiset_ensures;

    lemma_rank_desc(s);
    let r = rank_desc(s);
    assert forall|i: int| 0 <= i < s.len() implies s[i].1 <= r[0].1 by {
        assert(s.to_multiset().count(s[i]) > 0);
        assert(r.contains(s[i]));
        let j = choose|j: int| 0 <= j < r.len() && r[j] == s[i];
        if j > 0 {
            assert(r[0].1 >= r[j].1);
        }
    }
    assert(r.contains(r[0]));
    assert(s.to_multiset().count(r[0]) > 0);
    assert(s.contains(r[0]));
}

impl DependencyGraph {
    /// The largest number of dependencies of a file is attained by some file and
    /// no file has more; likewise for dependents.
    pub proof fn law_max_degrees(&self, forward: bool)
        requires
            self.nodes@.len() > 0,
        ensures
            forall|i: int|
                0 <= i < self.nodes@.len() ==> self.degree_list(forward)[i].1 <= rank_desc(
                    self.degree_list(forward),
                )[0].1,
            exists|i: int|
                0 <= i < self.nodes@.len() && self.degree_list(forward)[i] == rank_desc(
                    self.degree_list(forward),
                )[0],
    {
        law_rank_first_is_max(self.degree_list(forward));
    }

    /// The directly affected files are among the transitively affected ones, and
    /// a file with an edge into a target other than itself is directly affected.
    pub proof fn law_direct_within_transitive(&self, ts: Seq<FileId>, v: FileId, i: int)
        requires
            0 <= i < ts.len(),
        ensures
            self.directly_affected_by(ts).subset_of(self.affected_by(ts)),
            self.has_edge(v, ts[i]) && v != ts[i] ==> self.directly_affected_by(ts).contains(v),
    {
        if self.has_edge(v, ts[i]) && v != ts[i] {
            self.law_edge_in_closures(v, ts[i]);
            assert(self.affected_by(ts).contains(v));
        }
    }
}

} // verus!

verus! {

/// The counts of the languages `ls` among the files, added up.
pub open spec fn sum_language_counts(ns: Seq<FileNode>, ls: Seq<LanguageModel>) -> int
    decreases ls.len(),
{
    if ls.len() == 0 {
        0
    } else {
        sum_language_counts(ns, ls.drop_last()) + count_language(ns, ls.last())
    }
}

/// How many times `l` occurs in `ls`.
pub open spec fn occurrences(ls: Seq<LanguageModel>, l: LanguageModel) -> int
    decreases ls.len(),
{
    if ls.len() == 0 {
        0
    } else {
        occurrences(ls.drop_last(), l) + if ls.last() == l {
            1int
        } else {
            0int
        }
    }
}

proof fn lemma_sum_push_file(pre: Seq<FileNode>, x: FileNode, ls: Seq<LanguageModel>)
    ensures
        sum_language_counts(pre.push(x), ls) == sum_language_counts(pre, ls) + occurrences(ls, x.language@),
    decreases ls.len(),
{
    assert(pre.push(x).drop_last() =~= pre);
    if ls.len() > 0 {
        lemma_sum_push_file(pre, x, ls.drop_last());
    }
}

proof fn lemma_occurrences(ls: Seq<LanguageModel>, l: LanguageModel)
    requires
        ls.no_duplicates(),
    ensures
        occurrences(ls, l) == if ls.contains(l) {
            1int
        } else {
            0int
        },
    decreases ls.len(),
{
    if ls.len() > 0 {
        let pre = ls.drop_last();
        assert(pre.no_duplicates());
        lemma_occurrences(pre, l);
        if ls.last() == l {
            assert(!pre.contains(l)) by {
                if pre.contains(l) {
                    let i = choose|i: int| 0 <= i < pre.len() && pre[i] == l;
                    assert(ls[i] == ls[ls.len() - 1]);
                }
            }
            assert(ls.contains(l)) by {
                assert(ls[ls.len() - 1] == l);
            }
        } else {
            assert(ls.contains(l) == pre.contains(l)) by {
                if ls.contains(l) {
                    let i = choose|i: int| 0 <= i < ls.len() && ls[i] == l;
                    assert(pre[i] == l);
                }
                if pre.contains(l) {
                    let i = choose|i: int| 0 <= i < pre.len() && pre[i] == l;
                    assert(ls[i] == l);
                }
            }
        }
    }
}

/// Every file is counted under exactly one language: the counts `analyze`
/// reports per language add up to the number of files.
pub proof fn law_language_counts_sum(ns: Seq<FileNode>)
    ensures
        sum_language_counts(ns, languages_of(ns)) == ns.len(),
    decreases ns.len(),
{
    if ns.len() > 0 {
        let pre = ns.drop_last();
        let x = ns.last();
        assert(pre.push(x) =~= ns);
        law_language_counts_sum(pre);
        lemma_languages_distinct(pre);
        lemma_languages_distinct(ns);
        lemma_sum_push_file(pre, x, languages_of(ns));
        lemma_occurrences(languages_of(ns), x.language@);
        if languages_of(pre).contains(x.language@) {
            assert(languages_of(ns) == languages_of(pre));
        } else {
            let lp = languages_of(pre);
            assert(languages_of(ns) == lp.push(x.language@));
            assert(languages_of(ns).drop_last() =~= lp);
            assert(languages_of(ns)[lp.len() as int] == x.language@);
            lemma_count_absent(pre, x.language@);
        }
    }
}

} // verus!

verus! {

/// The counts of a list of languages with counts, added up.
pub open spec fn sum_of_counts(v: Seq<(Language, usize)>) -> int
    decreases v.len(),
{
    if v.len() == 0 {
        0
    } else {
        sum_of_counts(v.drop_last()) + v.last().1
    }
}

proof fn lemma_sum_of_counts_prefix(v: Seq<(Language, usize)>, ns: Seq<FileNode>, n: int)
    requires
        0 <= n <= v.len(),
        v.len() == languages_of(ns).len(),
        forall|i: int|
            0 <= i < v.len() ==> (#[trigger] v[i]).1 == count_language(ns, languages_of(ns)[i]),
    ensures
        sum_of_counts(v.subrange(0, n)) == sum_language_counts(ns, languages_of(ns).subrange(0, n)),
    decreases n,
{
    if n > 0 {
        lemma_sum_of_counts_prefix(v, ns, n - 1);
        assert(v.subrange(0, n).drop_last() =~= v.subrange(0, n - 1));
        assert(languages_of(ns).subrange(0, n).drop_last() =~= languages_of(ns).subrange(0, n - 1));
        assert(v.subrange(0, n).last() == v[n - 1]);
    }
}

/// The files per language that `analyze` reports add up to the number of files.
pub proof fn law_analyze_language_counts(graph: DependencyGraph, s: AnalysisResult)
    requires
        s.languages@.len() == languages_of(graph.nodes@).len(),
        forall|i: int|
            0 <= i < s.languages@.len() ==> (#[trigger] s.languages@[i]).0@ == languages_of(
                graph.nodes@,
            )[i] && s.languages@[i].1 == count_language(graph.nodes@, languages_of(graph.nodes@)[i]),
    ensures
        sum_of_counts(s.languages@) == graph.nodes@.len(),
{
    let v = s.languages@;
    let ns = graph.nodes@;
    lemma_sum_of_counts_prefix(v, ns, v.len() as int);
    assert(v.subrange(0, v.len() as int) =~= v);
    assert(languages_of(ns).subrange(0, v.len() as int) =~= languages_of(ns));
    law_language_counts_sum(ns);
}

} // verus!
