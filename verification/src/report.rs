//! The texts printed for a graph: the Mermaid diagram and the analysis and impact reports.
use vstd::prelude::*;
use crate::graph::DependencyGraph;
use crate::path::{file_name, file_name_of};
use crate::text::{chars_of, string_of};
use crate::types::{FileId, FileNode, Language, LanguageModel};

verus! {

broadcast use vstd::string::group_string_axioms;

// ---------------------------------------------------------------- building text

/// Appends the characters of `s`.
pub fn push_str(out: &mut Vec<char>, s: &str)
    ensures
        final(out)@ == old(out)@ + s@,
{
    for c in it: s.chars()
        invariant
            it.seq() == s@,
            out@ == old(out)@ + s@.take(it.index() as int),
    {
        out.push(c);
        assert(out@ =~= old(out)@ + s@.take(it.index() + 1));
    }
}

/// Appends characters.
pub fn push_chars(out: &mut Vec<char>, s: &[char])
    ensures
        final(out)@ == old(out)@ + s@,
{
    let mut k: usize = 0;
    while k < s.len()
        invariant
            0 <= k <= s@.len(),
            out@ == old(out)@ + s@.subrange(0, k as int),
        decreases s@.len() - k,
    {
        out.push(s[k]);
        k = k + 1;
        assert(out@ =~= old(out)@ + s@.subrange(0, k as int));
    }
    assert(s@.subrange(0, k as int) =~= s@);
}

pub open spec fn digit_char(d: int) -> char {
    seq!['0', '1', '2', '3', '4', '5', '6', '7', '8', '9'][d]
}

/// The decimal numeral of `n`, as `Display` writes it.
pub open spec fn decimal(n: nat) -> Seq<char>
    decreases n,
{
    if n < 10 {
        seq![digit_char(n as int)]
    } else {
        decimal(n / 10) + seq![digit_char((n % 10) as int)]
    }
}

/// Appends the decimal numeral of `n`.
pub fn push_decimal(out: &mut Vec<char>, n: u128)
    ensures
        final(out)@ == old(out)@ + decimal(n as nat),
    decreases n,
{
    let digits: [char; 10] = ['0', '1', '2', '3', '4', '5', '6', '7', '8', '9'];
    assert(digits@ == seq!['0', '1', '2', '3', '4', '5', '6', '7', '8', '9']);
    if n >= 10 {
        push_decimal(out, n / 10);
    }
    out.push(digits[(n % 10) as usize]);
    assert(out@ =~= old(out)@ + decimal(n as nat));
}

pub open spec fn spaces(n: int) -> Seq<char> {
    Seq::new(if n > 0 { n as nat } else { 0 }, |i: int| ' ')
}

/// `{:w}` on a number: right-aligned in `w` columns.
pub open spec fn pad_number(n: nat, w: int) -> Seq<char> {
    spaces(w - decimal(n).len()) + decimal(n)
}

/// `{:w}` on a string: left-aligned in `w` columns.
pub open spec fn pad_text(s: Seq<char>, w: int) -> Seq<char> {
    s + spaces(w - s.len())
}

pub fn push_spaces(out: &mut Vec<char>, n: usize)
    ensures
        final(out)@ == old(out)@ + spaces(n as int),
{
    let mut k: usize = 0;
    while k < n
        invariant
            0 <= k <= n,
            out@ == old(out)@ + spaces(k as int),
        decreases n - k,
    {
        out.push(' ');
        k = k + 1;
        assert(out@ =~= old(out)@ + spaces(k as int));
    }
}

pub fn push_padded_number(out: &mut Vec<char>, n: u128, w: usize)
    ensures
        final(out)@ == old(out)@ + pad_number(n as nat, w as int),
{
    let mut d: Vec<char> = Vec::new();
    push_decimal(&mut d, n);
    assert(d@ =~= decimal(n as nat));
    if d.len() < w {
        push_spaces(out, w - d.len());
    } else {
        assert(spaces(w - decimal(n as nat).len()) =~= Seq::<char>::empty());
    }
    push_chars(out, d.as_slice());
    assert(out@ =~= old(out)@ + pad_number(n as nat, w as int));
}

pub fn push_padded_text(out: &mut Vec<char>, s: &[char], w: usize)
    ensures
        final(out)@ == old(out)@ + pad_text(s@, w as int),
{
    push_chars(out, s);
    if s.len() < w {
        push_spaces(out, w - s.len());
    } else {
        assert(spaces(w - s@.len()) =~= Seq::<char>::empty());
    }
    assert(out@ =~= old(out)@ + pad_text(s@, w as int));
}

// ---------------------------------------------------------------- Mermaid

/// A path made into a Mermaid node id: `n`, then the path with `\`, `/`, `.`,
/// `-`, `:` and spaces turned into `_`.
pub open spec fn safe_id_of(path: Seq<char>) -> Seq<char> {
    seq!['n'] + path.map_values(
        |c: char|
            if c == '\\' || c == '/' || c == '.' || c == '-' || c == ':' || c == ' ' {
                '_'
            } else {
                c
            },
    )
}

pub fn safe_id(path: &str) -> (r: String)
    ensures
        r@ == safe_id_of(path@),
{
    let p = chars_of(path);
    let mut out: Vec<char> = vec!['n'];
    let mut k: usize = 0;
    while k < p.len()
        invariant
            0 <= k <= p@.len(),
            out@ == safe_id_of(p@.subrange(0, k as int)),
        decreases p@.len() - k,
    {
        let c = p[k];
        let d = if c == '\\' || c == '/' || c == '.' || c == '-' || c == ':' || c == ' ' {
            '_'
        } else {
            c
        };
        out.push(d);
        k = k + 1;
        assert(out@ =~= safe_id_of(p@.subrange(0, k as int)));
    }
    assert(p@.subrange(0, k as int) =~= p@);
    string_of(out.as_slice())
}

/// A file's short name: its file name, or the whole path when it has none.
pub open spec fn label_of(path: Seq<char>) -> Seq<char> {
    match file_name(path) {
        Some(n) => n,
        None => path,
    }
}

pub fn push_label(out: &mut Vec<char>, path: &str)
    ensures
        final(out)@ == old(out)@ + label_of(path@),
{
    let p = chars_of(path);
    match file_name_of(p.as_slice()) {
        Some(n) => push_chars(out, n),
        None => push_chars(out, p.as_slice()),
    }
}

pub open spec fn language_mark(l: LanguageModel) -> Seq<char> {
    match l {
        LanguageModel::Rust => "🦀"@,
        LanguageModel::Python => "🐍"@,
        LanguageModel::JavaScript => "📜"@,
        LanguageModel::TypeScript => "📘"@,
        LanguageModel::Go => "🔵"@,
        LanguageModel::Other(_) => "📄"@,
    }
}

pub open spec fn mermaid_node_line(n: FileNode) -> Seq<char> {
    "  "@ + safe_id_of(n.path@) + "[\""@ + language_mark(n.language@) + label_of(n.path@) + "\"]\n"@
}

pub open spec fn mermaid_node_lines(ns: Seq<FileNode>) -> Seq<char>
    decreases ns.len(),
{
    if ns.len() == 0 {
        seq![]
    } else {
        mermaid_node_lines(ns.drop_last()) + mermaid_node_line(ns.last())
    }
}

pub open spec fn mermaid_edge_line(g: DependencyGraph, e: (FileId, FileId)) -> Seq<char> {
    if g.has_node(e.0) && g.has_node(e.1) {
        "  "@ + safe_id_of(g.nodes@[g.node_index(e.0)].path@) + " --> "@ + safe_id_of(
            g.nodes@[g.node_index(e.1)].path@,
        ) + "\n"@
    } else {
        seq![]
    }
}

pub open spec fn mermaid_edge_lines(g: DependencyGraph, es: Seq<(FileId, FileId)>) -> Seq<char>
    decreases es.len(),
{
    if es.len() == 0 {
        seq![]
    } else {
        mermaid_edge_lines(g, es.drop_last()) + mermaid_edge_line(g, es.last())
    }
}

/// The Mermaid flowchart of a graph: one labelled node per file, in file order,
/// then one arrow per edge between files, in edge order.
pub open spec fn mermaid_text(g: DependencyGraph) -> Seq<char> {
    "graph TD\n"@ + "  %% Auto-generated dependency graph by nexus\n\n"@ + mermaid_node_lines(g.nodes@)
        + "\n"@ + mermaid_edge_lines(g, g.edges@)
}

fn push_language_mark(out: &mut Vec<char>, l: &Language)
    ensures
        final(out)@ == old(out)@ + language_mark(l@),
{
    match l {
        Language::Rust => push_str(out, "🦀"),
        Language::Python => push_str(out, "🐍"),
        Language::JavaScript => push_str(out, "📜"),
        Language::TypeScript => push_str(out, "📘"),
        Language::Go => push_str(out, "🔵"),
        Language::Other(_) => push_str(out, "📄"),
    }
}

fn push_mermaid_node(out: &mut Vec<char>, n: &FileNode)
    ensures
        final(out)@ == old(out)@ + mermaid_node_line(*n),
{
    let id = safe_id(n.path.as_str());
    push_str(out, "  ");
    push_str(out, id.as_str());
    push_str(out, "[\"");
    push_language_mark(out, &n.language);
    push_label(out, n.path.as_str());
    push_str(out, "\"]\n");
    assert(out@ =~= old(out)@ + mermaid_node_line(*n));
}

pub fn format_mermaid(graph: &DependencyGraph) -> (r: String)
    requires
        graph.wf(),
    ensures
        r@ == mermaid_text(*graph),
{
    let mut out: Vec<char> = Vec::new();
    push_str(&mut out, "graph TD\n");
    push_str(&mut out, "  %% Auto-generated dependency graph by nexus\n\n");
    let ghost head = out@;
    let mut k: usize = 0;
    while k < graph.nodes.len()
        invariant
            0 <= k <= graph.nodes@.len(),
            out@ == head + mermaid_node_lines(graph.nodes@.subrange(0, k as int)),
        decreases graph.nodes@.len() - k,
    {
        push_mermaid_node(&mut out, &graph.nodes[k]);
        assert(graph.nodes@.subrange(0, k + 1).drop_last() =~= graph.nodes@.subrange(0, k as int));
        k = k + 1;
        assert(out@ =~= head + mermaid_node_lines(graph.nodes@.subrange(0, k as int)));
    }
    assert(graph.nodes@.subrange(0, k as int) =~= graph.nodes@);
    push_str(&mut out, "\n");
    let ghost mid = out@;
    let mut e: usize = 0;
    while e < graph.edges.len()
        invariant
            graph.wf(),
            0 <= e <= graph.edges@.len(),
            out@ == mid + mermaid_edge_lines(*graph, graph.edges@.subrange(0, e as int)),
        decreases graph.edges@.len() - e,
    {
        let (a, b) = graph.edges[e];
        assert(graph.edges@.subrange(0, e + 1).drop_last() =~= graph.edges@.subrange(0, e as int));
        match (graph.node(a), graph.node(b)) {
            (Some(na), Some(nb)) => {
                let sa = safe_id(na.path.as_str());
                let sb = safe_id(nb.path.as_str());
                push_str(&mut out, "  ");
                push_str(&mut out, sa.as_str());
                push_str(&mut out, " --> ");
                push_str(&mut out, sb.as_str());
                push_str(&mut out, "\n");
            },
            _ => {},
        }
        e = e + 1;
        assert(out@ =~= mid + mermaid_edge_lines(*graph, graph.edges@.subrange(0, e as int)));
    }
    assert(graph.edges@.subrange(0, e as int) =~= graph.edges@);
    string_of(out.as_slice())
}

} // verus!

verus! {

// ---------------------------------------------------------------- impact report

pub open spec fn strictly_increasing(s: Seq<FileId>) -> bool {
    forall|i: int, j: int| 0 <= i < j < s.len() ==> s[i] < s[j]
}

/// The distinct elements of `v` in increasing order.
pub fn sorted_distinct(v: &Vec<FileId>) -> (r: Vec<FileId>)
    ensures
        strictly_increasing(r@),
        r@.to_set() == v@.to_set(),
{
    let mut out: Vec<FileId> = Vec::new();
    let mut k: usize = 0;
    while k < v.len()
        invariant
            0 <= k <= v@.len(),
            strictly_increasing(out@),
            out@.to_set() == v@.subrange(0, k as int).to_set(),
        decreases v@.len() - k,
    {
        let x = v[k];
        let mut j: usize = 0;
        while j < out.len() && out[j] < x
            invariant
                0 <= j <= out@.len(),
                forall|i: int| 0 <= i < j ==> out@[i] < x,
            decreases out@.len() - j,
        {
            j = j + 1;
        }
        let ghost before = out@;
        proof {
            v@.subrange(0, k as int).lemma_push_to_set_commute(x);
            assert(v@.subrange(0, k + 1) =~= v@.subrange(0, k as int).push(x));
        }
        if j < out.len() && out[j] == x {
            assert(out@.to_set().contains(x)) by {
                assert(out@.contains(x));
            }
            assert(out@.to_set().insert(x) =~= out@.to_set());
        } else {
            out.insert(j, x);
            proof {
                before.insert_ensures(j as int, x);
                assert forall|a: int, b: int| 0 <= a < b < out@.len() implies out@[a] < out@[b] by {
                    if b < j {
                    } else if b == j {
                    } else if a < j {
                        assert(out@[b] == before[b - 1]);
                        if j < before.len() {
                            assert(before[j as int] > x);
                            assert(before[j as int] <= before[b - 1]);
                        }
                    } else if a == j {
                        assert(out@[b] == before[b - 1]);
                        assert(before[j as int] > x);
                    } else {
                        assert(out@[a] == before[a - 1] && out@[b] == before[b - 1]);
                    }
                }
                assert(out@ =~= before.subrange(0, j as int).push(x) + before.subrange(j as int, before.len() as int));
                assert forall|y: FileId| out@.to_set().contains(y) <==> before.to_set().insert(x).contains(y) by {
                    if out@.contains(y) {
                        let i = choose|i: int| 0 <= i < out@.len() && out@[i] == y;
                        if i < j {
                            assert(before[i] == y);
                        } else if i > j {
                            assert(before[i - 1] == y);
                        }
                    }
                    if before.contains(y) {
                        let i = choose|i: int| 0 <= i < before.len() && before[i] == y;
                        if i < j {
                            assert(out@[i] == y);
                        } else {
                            assert(out@[i + 1] == y);
                        }
                    }
                    if y == x {
                        assert(out@[j as int] == x);
                    }
                }
                assert(out@.to_set() =~= before.to_set().insert(x));
            }
        }
        k = k + 1;
    }
    assert(v@.subrange(0, k as int) =~= v@);
    out
}

/// A listed path: six spaces, the path, a newline.
pub open spec fn path_line(n: FileNode) -> Seq<char> {
    "      "@ + n.path@ + "\n"@
}

/// The listed paths of the ids that are files.
pub open spec fn path_lines(g: DependencyGraph, ids: Seq<FileId>) -> Seq<char>
    decreases ids.len(),
{
    if ids.len() == 0 {
        seq![]
    } else {
        path_lines(g, ids.drop_last()) + if g.has_node(ids.last()) {
            path_line(g.nodes@[g.node_index(ids.last())])
        } else {
            seq![]
        }
    }
}

fn push_path_lines(out: &mut Vec<char>, g: &DependencyGraph, ids: &Vec<FileId>)
    requires
        g.wf(),
    ensures
        final(out)@ == old(out)@ + path_lines(*g, ids@),
{
    let mut k: usize = 0;
    while k < ids.len()
        invariant
            g.wf(),
            0 <= k <= ids@.len(),
            out@ == old(out)@ + path_lines(*g, ids@.subrange(0, k as int)),
        decreases ids@.len() - k,
    {
        assert(ids@.subrange(0, k + 1).drop_last() =~= ids@.subrange(0, k as int));
        match g.node(ids[k]) {
            Some(n) => {
                push_str(out, "      ");
                push_str(out, n.path.as_str());
                push_str(out, "\n");
            },
            None => {},
        }
        k = k + 1;
        assert(out@ =~= old(out)@ + path_lines(*g, ids@.subrange(0, k as int)));
    }
    assert(ids@.subrange(0, k as int) =~= ids@);
}

pub open spec fn rule_line() -> Seq<char> {
    Seq::new(40, |i: int| '━')
}

/// The impact report, the directly affected files listed in increasing id order.
pub open spec fn impact_text(
    g: DependencyGraph,
    targets: Seq<FileId>,
    direct: Seq<FileId>,
    affected_count: nat,
    needed_count: nat,
    touched: nat,
    risk: nat,
) -> Seq<char> {
    let extra = if affected_count > direct.len() {
        affected_count - direct.len()
    } else {
        0
    };
    "\n  ═══  nexus — Impact Analysis\n"@ + "  "@ + rule_line() + "\n\n"@ + "  ⚠️ Risk Score: "@
        + decimal(risk) + "/10\n\n"@ + "  🎯 Target Files:\n"@ + path_lines(g, targets) + "\n"@
        + "  📌 Directly Affected: "@ + decimal(direct.len()) + " files\n"@ + path_lines(g, direct)
        + "\n"@ + "  🔀 Transitively Affected: "@ + decimal(affected_count) + " files\n"@ + (if extra
        > 0 {
        "      ("@ + decimal(extra as nat) + " beyond direct)\n"@
    } else {
        seq![]
    }) + "\n"@ + "  📦 Total Files Touched: "@ + decimal(touched) + "\n"@ + "  📥 Dependencies Needed: "@
        + decimal(needed_count) + "\n"@
}

fn push_rule(out: &mut Vec<char>)
    ensures
        final(out)@ == old(out)@ + rule_line(),
{
    let mut k: usize = 0;
    while k < 40
        invariant
            0 <= k <= 40,
            out@ == old(out)@ + Seq::new(k as nat, |i: int| '━'),
        decreases 40 - k,
    {
        out.push('━');
        k = k + 1;
        assert(out@ =~= old(out)@ + Seq::new(k as nat, |i: int| '━'));
    }
}

#[verifier::rlimit(40)]
pub fn format_impact(report: &crate::analysis::ImpactReport, graph: &DependencyGraph) -> (r: String)
    requires
        graph.wf(),
    ensures
        exists|direct: Seq<FileId>|
            strictly_increasing(direct) && direct.to_set() == report.directly_affected@ && r@
                == impact_text(
                *graph,
                report.target_files@,
                direct,
                report.transitively_affected@.len(),
                report.total_dependencies@.len(),
                report.total_files_touched as nat,
                report.risk_score as nat,
            ),
{
    let direct = sorted_distinct(&crate::graph::set_to_vec(&report.directly_affected));
    proof {
        direct@.unique_seq_to_set();
    }
    let mut out: Vec<char> = Vec::new();
    push_str(&mut out, "\n  ═══  nexus — Impact Analysis\n");
    push_str(&mut out, "  ");
    push_rule(&mut out);
    push_str(&mut out, "\n\n");
    push_str(&mut out, "  ⚠️ Risk Score: ");
    push_decimal(&mut out, report.risk_score as u128);
    push_str(&mut out, "/10\n\n");
    push_str(&mut out, "  🎯 Target Files:\n");
    push_path_lines(&mut out, graph, &report.target_files);
    push_str(&mut out, "\n");
    let ghost part1 = out@;
    push_str(&mut out, "  📌 Directly Affected: ");
    push_decimal(&mut out, direct.len() as u128);
    push_str(&mut out, " files\n");
    push_path_lines(&mut out, graph, &direct);
    push_str(&mut out, "\n");
    let ghost part2 = out@;
    let affected = report.transitively_affected.len();
    push_str(&mut out, "  🔀 Transitively Affected: ");
    push_decimal(&mut out, affected as u128);
    push_str(&mut out, " files\n");
    let extra = if affected > direct.len() {
        affected - direct.len()
    } else {
        0
    };
    if extra > 0 {
        push_str(&mut out, "      (");
        push_decimal(&mut out, extra as u128);
        push_str(&mut out, " beyond direct)\n");
    }
    push_str(&mut out, "\n");
    let ghost part3 = out@;
    push_str(&mut out, "  📦 Total Files Touched: ");
    push_decimal(&mut out, report.total_files_touched as u128);
    push_str(&mut out, "\n");
    push_str(&mut out, "  📥 Dependencies Needed: ");
    push_decimal(&mut out, report.total_dependencies.len() as u128);
    push_str(&mut out, "\n");
    proof {
        let t = impact_text(
            *graph,
            report.target_files@,
            direct@,
            report.transitively_affected@.len(),
            report.total_dependencies@.len(),
            report.total_files_touched as nat,
            report.risk_score as nat,
        );
        assert(out@ =~= t);
    }
    string_of(out.as_slice())
}

} // verus!

verus! {

// ---------------------------------------------------------------- analysis report

/// The label of the file with `id`, when there is one.
pub open spec fn file_label(g: DependencyGraph, id: FileId) -> Option<Seq<char>> {
    if g.has_node(id) {
        Some(label_of(g.nodes@[g.node_index(id)].path@))
    } else {
        None
    }
}

/// The labels of the ids that are files.
pub open spec fn labels(g: DependencyGraph, ids: Seq<FileId>) -> Seq<Seq<char>>
    decreases ids.len(),
{
    if ids.len() == 0 {
        seq![]
    } else {
        match file_label(g, ids.last()) {
            Some(l) => labels(g, ids.drop_last()).push(l),
            None => labels(g, ids.drop_last()),
        }
    }
}

/// A cycle as printed: its first and last file labels.
pub open spec fn cycle_line(g: DependencyGraph, c: Seq<FileId>) -> Seq<char> {
    let names = labels(g, c);
    let first = if names.len() > 0 {
        names[0]
    } else {
        seq![]
    };
    let last = if names.len() > 0 {
        names.last()
    } else {
        seq![]
    };
    "      "@ + first + " → ... → "@ + last + "\n"@
}

pub open spec fn cycle_lines(g: DependencyGraph, cs: Seq<Seq<FileId>>) -> Seq<char>
    decreases cs.len(),
{
    if cs.len() == 0 {
        seq![]
    } else {
        cycle_lines(g, cs.drop_last()) + cycle_line(g, cs.last())
    }
}

/// A ranked file as printed: the count in four columns, the unit, the label.
pub open spec fn ranked_line(g: DependencyGraph, e: (FileId, usize), unit: Seq<char>) -> Seq<char> {
    match file_label(g, e.0) {
        Some(l) => "      "@ + pad_number(e.1 as nat, 4) + unit + l + "\n"@,
        None => seq![],
    }
}

pub open spec fn ranked_lines(g: DependencyGraph, es: Seq<(FileId, usize)>, unit: Seq<char>) -> Seq<char>
    decreases es.len(),
{
    if es.len() == 0 {
        seq![]
    } else {
        ranked_lines(g, es.drop_last(), unit) + ranked_line(g, es.last(), unit)
    }
}

/// A language as printed: its name in twelve columns and its count.
pub open spec fn language_line(e: (Seq<char>, usize)) -> Seq<char> {
    "      "@ + pad_text(e.0, 12) + " "@ + decimal(e.1 as nat) + "\n"@
}

pub open spec fn language_lines(es: Seq<(Seq<char>, usize)>) -> Seq<char>
    decreases es.len(),
{
    if es.len() == 0 {
        seq![]
    } else {
        language_lines(es.drop_last()) + language_line(es.last())
    }
}

pub open spec fn names_view(v: Seq<(String, usize)>) -> Seq<(Seq<char>, usize)> {
    v.map_values(|e: (String, usize)| (e.0@, e.1))
}

/// Entries ordered by `order`, a ranking of their positions.
pub open spec fn reorder(v: Seq<(Seq<char>, usize)>, order: Seq<(FileId, usize)>) -> Seq<(Seq<char>, usize)> {
    order.map_values(|o: (FileId, usize)| v[o.0 as int])
}

/// The languages ranked by decreasing count, ties in the given order.
pub open spec fn ranked_languages(v: Seq<(Seq<char>, usize)>) -> Seq<(Seq<char>, usize)> {
    reorder(v, crate::analysis::rank_desc(Seq::new(v.len(), |i: int| (i as FileId, v[i].1))))
}

fn push_labels_first_last(out: &mut Vec<char>, g: &DependencyGraph, c: &Vec<FileId>)
    requires
        g.wf(),
    ensures
        final(out)@ == old(out)@ + cycle_line(*g, c@),
{
    let mut first: Option<&FileNode> = None;
    let mut last: Option<&FileNode> = None;
    let mut k: usize = 0;
    while k < c.len()
        invariant
            g.wf(),
            0 <= k <= c@.len(),
            labels(*g, c@.subrange(0, k as int)).len() == 0 <==> first is None,
            labels(*g, c@.subrange(0, k as int)).len() == 0 <==> last is None,
            first matches Some(n) ==> labels(*g, c@.subrange(0, k as int))[0] == label_of(n.path@),
            last matches Some(n) ==> labels(*g, c@.subrange(0, k as int)).last() == label_of(n.path@),
        decreases c@.len() - k,
    {
        let ghost pre = c@.subrange(0, k as int);
        assert(c@.subrange(0, k + 1).drop_last() =~= pre);
        match g.node(c[k]) {
            Some(n) => {
                if first.is_none() {
                    first = Some(n);
                }
                last = Some(n);
                proof {
                    let now = labels(*g, c@.subrange(0, k + 1));
                    assert(now == labels(*g, pre).push(label_of(n.path@)));
                    if labels(*g, pre).len() > 0 {
                        assert(now[0] == labels(*g, pre)[0]);
                    }
                }
            },
            None => {},
        }
        k = k + 1;
    }
    assert(c@.subrange(0, k as int) =~= c@);
    push_str(out, "      ");
    match first {
        Some(n) => push_label(out, n.path.as_str()),
        None => {},
    }
    push_str(out, " → ... → ");
    match last {
        Some(n) => push_label(out, n.path.as_str()),
        None => {},
    }
    push_str(out, "\n");
    assert(out@ =~= old(out)@ + cycle_line(*g, c@));
}

fn push_cycles_section(out: &mut Vec<char>, g: &DependencyGraph, count: usize, cycles: &Vec<Vec<FileId>>)
    requires
        g.wf(),
    ensures
        final(out)@ == old(out)@ + cycles_section(*g, count, crate::graph::cycles_view(cycles@)),
{
    if count == 0 {
        assert(out@ =~= old(out)@ + cycles_section(*g, count, crate::graph::cycles_view(cycles@)));
        return;
    }
    push_str(out, "  🔄 Circular Dependencies\n");
    push_str(out, "      Found ");
    push_decimal(out, count as u128);
    push_str(out, " cycle(s)\n");
    let ghost head = out@;
    let shown = if cycles.len() < 3 { cycles.len() } else { 3 };
    let ghost cv = crate::graph::cycles_view(cycles@);
    let mut k: usize = 0;
    while k < shown
        invariant
            g.wf(),
            0 <= k <= shown,
            shown <= cycles@.len(),
            cv == crate::graph::cycles_view(cycles@),
            out@ == head + cycle_lines(*g, cv.subrange(0, k as int)),
        decreases shown - k,
    {
        push_labels_first_last(out, g, &cycles[k]);
        assert(cv.subrange(0, k + 1).drop_last() =~= cv.subrange(0, k as int));
        assert(cv.subrange(0, k + 1).last() == cycles@[k as int]@);
        k = k + 1;
    }
    let ghost mid = out@;
    if cycles.len() > 3 {
        push_str(out, "      ... and ");
        push_decimal(out, (cycles.len() - 3) as u128);
        push_str(out, " more\n");
    }
    push_str(out, "\n");
    assert(out@ =~= old(out)@ + cycles_section(*g, count, cv));
}

fn push_ranked_lines(out: &mut Vec<char>, g: &DependencyGraph, es: &Vec<(FileId, usize)>, unit: &str)
    requires
        g.wf(),
    ensures
        final(out)@ == old(out)@ + ranked_lines(*g, es@, unit@),
{
    let mut k: usize = 0;
    while k < es.len()
        invariant
            g.wf(),
            0 <= k <= es@.len(),
            out@ == old(out)@ + ranked_lines(*g, es@.subrange(0, k as int), unit@),
        decreases es@.len() - k,
    {
        let (id, count) = es[k];
        assert(es@.subrange(0, k + 1).drop_last() =~= es@.subrange(0, k as int));
        match g.node(id) {
            Some(n) => {
                push_str(out, "      ");
                push_padded_number(out, count as u128, 4);
                push_str(out, unit);
                push_label(out, n.path.as_str());
                push_str(out, "\n");
            },
            None => {},
        }
        k = k + 1;
        assert(out@ =~= old(out)@ + ranked_lines(*g, es@.subrange(0, k as int), unit@));
    }
    assert(es@.subrange(0, k as int) =~= es@);
}

/// The positions of `names` ranked by decreasing count, ties in the given order.
pub(crate) fn language_order(names: &[(String, usize)]) -> (order: Vec<(FileId, usize)>)
    ensures
        order@ == crate::analysis::rank_desc(
            Seq::new(names_view(names@).len(), |j: int| (j as FileId, names_view(names@)[j].1)),
        ),
        forall|j: int| 0 <= j < order@.len() ==> (#[trigger] order@[j]).0 < names@.len(),
{
    let ghost v = names_view(names@);
    let mut keyed: Vec<(FileId, usize)> = Vec::new();
    let mut i: usize = 0;
    while i < names.len()
        invariant
            0 <= i <= names@.len(),
            v == names_view(names@),
            keyed@ == Seq::new(i as nat, |j: int| (j as FileId, v[j].1)),
        decreases names@.len() - i,
    {
        keyed.push((i, names[i].1));
        i = i + 1;
        assert(keyed@ =~= Seq::new(i as nat, |j: int| (j as FileId, v[j].1)));
    }
    assert(keyed@ =~= Seq::new(v.len(), |j: int| (j as FileId, v[j].1)));
    let order = crate::analysis::rank_by_count(&keyed);
    proof {
        crate::analysis::lemma_rank_desc(keyed@);
        assert forall|k: int| 0 <= k < order@.len() implies (#[trigger] order@[k]).0 < names@.len() by {
            broadcast use vstd::seq_lib::group_to_multiset_ensures;
            assert(order@.contains(order@[k]));
            assert(keyed@.to_multiset().count(order@[k]) > 0);
            assert(keyed@.contains(order@[k]));
        }
    }
    order
}

fn push_language_lines(out: &mut Vec<char>, names: &[(String, usize)])
    ensures
        final(out)@ == old(out)@ + language_lines(ranked_languages(names_view(names@))),
{
    let ghost v = names_view(names@);
    let order = language_order(names);
    let ghost want = ranked_languages(v);
    let mut k: usize = 0;
    while k < order.len()
        invariant
            0 <= k <= order@.len(),
            v == names_view(names@),
            order@ == crate::analysis::rank_desc(Seq::new(v.len(), |j: int| (j as FileId, v[j].1))),
            forall|j: int| 0 <= j < order@.len() ==> (#[trigger] order@[j]).0 < names@.len(),
            want == ranked_languages(v),
            out@ == old(out)@ + language_lines(want.subrange(0, k as int)),
        decreases order@.len() - k,
    {
        let idx = order[k].0;
        let (name, count) = (&names[idx].0, names[idx].1);
        let cs = chars_of(name.as_str());
        push_str(out, "      ");
        push_padded_text(out, cs.as_slice(), 12);
        push_str(out, " ");
        push_decimal(out, count as u128);
        push_str(out, "\n");
        proof {
            assert(want[k as int] == v[idx as int]);
            assert(want.subrange(0, k + 1).drop_last() =~= want.subrange(0, k as int));
        }
        k = k + 1;
        assert(out@ =~= old(out)@ + language_lines(want.subrange(0, k as int)));
    }
    assert(want.subrange(0, k as int) =~= want);
}

} // verus!

verus! {

pub open spec fn report_head(
    s: crate::analysis::AnalysisResult,
    avg_deps: Seq<char>,
    avg_complexity: Seq<char>,
) -> Seq<char> {
    "\n  ═══ nexus — Dependency Analysis\n"@ + "  "@ + rule_line() + "\n\n"@ + "  📊 Summary\n"@
        + "    Files:     "@ + decimal(s.total_files as nat) + "\n"@ + "    Deps:      "@ + decimal(
        s.total_dependencies as nat,
    ) + " (avg "@ + avg_deps + ")\n"@ + "    Lines:     "@ + decimal(s.total_lines as nat) + " ("@
        + decimal(s.total_code_lines as nat) + " code)\n"@ + "    Complexity: "@ + avg_complexity
        + " avg\n"@ + "    Tests:     "@ + decimal(s.test_file_count as nat) + "\n\n"@
}

pub open spec fn languages_section(names: Seq<(Seq<char>, usize)>) -> Seq<char> {
    if names.len() > 0 {
        "  🔤 Languages\n"@ + language_lines(ranked_languages(names)) + "\n"@
    } else {
        seq![]
    }
}

/// Shown when the count of cycles is not zero: that count, up to three of the
/// listed cycles, then how many more are listed.
pub open spec fn cycles_section(g: DependencyGraph, count: usize, cycles: Seq<Seq<FileId>>) -> Seq<char> {
    if count > 0 {
        "  🔄 Circular Dependencies\n"@ + "      Found "@ + decimal(count as nat) + " cycle(s)\n"@
            + cycle_lines(g, cycles.subrange(0, if cycles.len() < 3 { cycles.len() as int } else { 3 }))
            + (if cycles.len() > 3 {
            "      ... and "@ + decimal((cycles.len() - 3) as nat) + " more\n"@
        } else {
            seq![]
        }) + "\n"@
    } else {
        seq![]
    }
}

pub open spec fn ranked_section(
    g: DependencyGraph,
    es: Seq<(FileId, usize)>,
    title: Seq<char>,
    unit: Seq<char>,
) -> Seq<char> {
    if es.len() > 0 {
        title + ranked_lines(g, es, unit) + "\n"@
    } else {
        seq![]
    }
}

pub open spec fn isolated_section(n: usize) -> Seq<char> {
    if n > 0 {
        "  📭 Isolated Files (no deps, no dependents)\n"@ + "      "@ + decimal(n as nat) + " files\n"@
    } else {
        seq![]
    }
}

/// The analysis report. The averages come already written (they are
/// floating-point figures), as do the language names with their file counts.
pub open spec fn report_text(
    s: crate::analysis::AnalysisResult,
    g: DependencyGraph,
    avg_deps: Seq<char>,
    avg_complexity: Seq<char>,
    names: Seq<(Seq<char>, usize)>,
) -> Seq<char> {
    report_head(s, avg_deps, avg_complexity) + languages_section(names) + cycles_section(
        g,
        s.cycle_count,
        crate::graph::cycles_view(s.cycles@),
    ) + ranked_section(g, s.top_deps@, "  🔗 Top Dependers (files with most deps)\n"@, " deps  "@)
        + ranked_section(g, s.top_dependents@, "  🎯 Top Depended (most imported files)\n"@, " imports  "@)
        + isolated_section(s.isolated_count)
}

#[verifier::rlimit(40)]
fn push_report_head(
    out: &mut Vec<char>,
    s: &crate::analysis::AnalysisResult,
    avg_deps: &str,
    avg_complexity: &str,
)
    ensures
        final(out)@ == old(out)@ + report_head(*s, avg_deps@, avg_complexity@),
{
    push_str(out, "\n  ═══ nexus — Dependency Analysis\n");
    push_str(out, "  ");
    push_rule(out);
    push_str(out, "\n\n");
    push_str(out, "  📊 Summary\n");
    push_str(out, "    Files:     ");
    push_decimal(out, s.total_files as u128);
    push_str(out, "\n");
    push_str(out, "    Deps:      ");
    push_decimal(out, s.total_dependencies as u128);
    push_str(out, " (avg ");
    push_str(out, avg_deps);
    push_str(out, ")\n");
    push_str(out, "    Lines:     ");
    push_decimal(out, s.total_lines);
    push_str(out, " (");
    push_decimal(out, s.total_code_lines);
    push_str(out, " code)\n");
    push_str(out, "    Complexity: ");
    push_str(out, avg_complexity);
    push_str(out, " avg\n");
    push_str(out, "    Tests:     ");
    push_decimal(out, s.test_file_count as u128);
    push_str(out, "\n\n");
    assert(out@ =~= old(out)@ + report_head(*s, avg_deps@, avg_complexity@));
}

fn push_ranked_section(
    out: &mut Vec<char>,
    g: &DependencyGraph,
    es: &Vec<(FileId, usize)>,
    title: &str,
    unit: &str,
)
    requires
        g.wf(),
    ensures
        final(out)@ == old(out)@ + ranked_section(*g, es@, title@, unit@),
{
    if es.len() > 0 {
        push_str(out, title);
        push_ranked_lines(out, g, es, unit);
        push_str(out, "\n");
    }
    assert(out@ =~= old(out)@ + ranked_section(*g, es@, title@, unit@));
}

/// The analysis report of a graph.
#[verifier::rlimit(40)]
pub fn format_report(
    s: &crate::analysis::AnalysisResult,
    graph: &DependencyGraph,
    avg_deps: &str,
    avg_complexity: &str,
    names: &[(String, usize)],
) -> (r: String)
    requires
        graph.wf(),
    ensures
        r@ == report_text(*s, *graph, avg_deps@, avg_complexity@, names_view(names@)),
{
    let mut out: Vec<char> = Vec::new();
    push_report_head(&mut out, s, avg_deps, avg_complexity);
    let ghost p1 = out@;
    if names.len() > 0 {
        push_str(&mut out, "  🔤 Languages\n");
        push_language_lines(&mut out, names);
        push_str(&mut out, "\n");
    }
    assert(out@ =~= p1 + languages_section(names_view(names@)));
    let ghost p2 = out@;
    push_cycles_section(&mut out, graph, s.cycle_count, &s.cycles);
    let ghost p3 = out@;
    push_ranked_section(&mut out, graph, &s.top_deps, "  🔗 Top Dependers (files with most deps)\n", " deps  ");
    let ghost p4 = out@;
    push_ranked_section(&mut out, graph, &s.top_dependents, "  🎯 Top Depended (most imported files)\n", " imports  ");
    let ghost p5 = out@;
    if s.isolated_count > 0 {
        push_str(&mut out, "  📭 Isolated Files (no deps, no dependents)\n");
        push_str(&mut out, "      ");
        push_decimal(&mut out, s.isolated_count as u128);
        push_str(&mut out, " files\n");
    }
    assert(out@ =~= p5 + isolated_section(s.isolated_count));
    assert(out@ =~= report_text(*s, *graph, avg_deps@, avg_complexity@, names_view(names@)));
    string_of(out.as_slice())
}

} // verus!

verus! {

/// A Mermaid id is `n` and one character per path character, none of them a
/// `\`, `/`, `.`, `-`, `:` or space.
pub proof fn law_safe_id_clean(path: Seq<char>)
    ensures
        safe_id_of(path).len() == path.len() + 1,
        safe_id_of(path)[0] == 'n',
        forall|i: int|
            0 <= i < safe_id_of(path).len() ==> {
                let c = #[trigger] safe_id_of(path)[i];
                c != '\\' && c != '/' && c != '.' && c != '-' && c != ':' && c != ' '
            },
{
    assert forall|i: int| 0 <= i < safe_id_of(path).len() implies {
        let c = #[trigger] safe_id_of(path)[i];
        c != '\\' && c != '/' && c != '.' && c != '-' && c != ':' && c != ' '
    } by {
        if i > 0 {
            assert(safe_id_of(path)[i] == path.map_values(
                |c: char|
                    if c == '\\' || c == '/' || c == '.' || c == '-' || c == ':' || c == ' ' {
                        '_'
                    } else {
                        c
                    },
            )[i - 1]);
        }
    }
}

} // verus!

verus! {

/// How many times `c` occurs in `s`.
pub open spec fn count_char(s: Seq<char>, c: char) -> nat
    decreases s.len(),
{
    if s.len() == 0 {
        0
    } else {
        count_char(s.drop_last(), c) + if s.last() == c {
            1nat
        } else {
            0nat
        }
    }
}

/// The edges of `es` whose two ends are files of the graph, in order.
pub open spec fn edges_between_files(g: DependencyGraph, es: Seq<(FileId, FileId)>) -> Seq<(FileId, FileId)>
    decreases es.len(),
{
    if es.len() == 0 {
        seq![]
    } else if g.has_node(es.last().0) && g.has_node(es.last().1) {
        edges_between_files(g, es.drop_last()).push(es.last())
    } else {
        edges_between_files(g, es.drop_last())
    }
}

proof fn lemma_count_char_add(a: Seq<char>, b: Seq<char>, c: char)
    ensures
        count_char(a + b, c) == count_char(a, c) + count_char(b, c),
    decreases b.len(),
{
    if b.len() > 0 {
        assert((a + b).drop_last() =~= a + b.drop_last());
        lemma_count_char_add(a, b.drop_last(), c);
    } else {
        assert(a + b =~= a);
    }
}

proof fn lemma_count_char_absent(s: Seq<char>, c: char)
    requires
        !s.contains(c),
    ensures
        count_char(s, c) == 0,
    decreases s.len(),
{
    if s.len() > 0 {
        assert(s.last() != c) by {
            assert(s[s.len() - 1] == s.last());
        }
        assert forall|i: int| 0 <= i < s.drop_last().len() implies s.drop_last()[i] != c by {
            assert(s.drop_last()[i] == s[i]);
        }
        lemma_count_char_absent(s.drop_last(), c);
    }
}

proof fn lemma_safe_id_no_newline(p: Seq<char>)
    requires
        !p.contains('\n'),
    ensures
        count_char(safe_id_of(p), '\n') == 0,
{
    let s = safe_id_of(p);
    assert forall|i: int| 0 <= i < s.len() implies s[i] != '\n' by {
        if i > 0 {
            assert(s[i] == p.map_values(
                |c: char|
                    if c == '\\' || c == '/' || c == '.' || c == '-' || c == ':' || c == ' ' {
                        '_'
                    } else {
                        c
                    },
            )[i - 1]);
            assert(p[i - 1] != '\n');
        }
    }
    lemma_count_char_absent(s, '\n');
}

/// When no path of a file holds a newline, the arrows of the diagram take one
/// line per edge whose ends are both files: as many lines as such edges.
pub proof fn law_mermaid_one_line_per_edge(g: DependencyGraph, es: Seq<(FileId, FileId)>)
    requires
        forall|i: int| 0 <= i < g.nodes@.len() ==> !(#[trigger] g.nodes@[i]).path@.contains('\n'),
    ensures
        count_char(mermaid_edge_lines(g, es), '\n') == edges_between_files(g, es).len(),
    decreases es.len(),
{
    if es.len() > 0 {
        law_mermaid_one_line_per_edge(g, es.drop_last());
        let e = es.last();
        lemma_count_char_add(mermaid_edge_lines(g, es.drop_last()), mermaid_edge_line(g, e), '\n');
        if g.has_node(e.0) && g.has_node(e.1) {
            let p1 = g.nodes@[g.node_index(e.0)].path@;
            let p2 = g.nodes@[g.node_index(e.1)].path@;
            lemma_safe_id_no_newline(p1);
            lemma_safe_id_no_newline(p2);
            reveal_strlit("  ");
            reveal_strlit(" --> ");
            reveal_strlit("\n");
            let a = "  "@;
            let b = safe_id_of(p1);
            let c = " --> "@;
            let d = safe_id_of(p2);
            let f = "\n"@;
            reveal_with_fuel(count_char, 6);
            lemma_count_char_add(a, b, '\n');
            lemma_count_char_add(a + b, c, '\n');
            lemma_count_char_add(a + b + c, d, '\n');
            lemma_count_char_add(a + b + c + d, f, '\n');
            assert(count_char(a, '\n') == 0);
            assert(count_char(c, '\n') == 0);
            assert(count_char(f, '\n') == 1);
        } else {
            assert(count_char(seq![], '\n') == 0);
        }
    }
}

/// One arrow line per edge of `es`, in order.
pub open spec fn arrow_lines(g: DependencyGraph, es: Seq<(FileId, FileId)>) -> Seq<char>
    decreases es.len(),
{
    if es.len() == 0 {
        seq![]
    } else {
        arrow_lines(g, es.drop_last()) + "  "@ + safe_id_of(g.nodes@[g.node_index(es.last().0)].path@)
            + " --> "@ + safe_id_of(g.nodes@[g.node_index(es.last().1)].path@) + "\n"@
    }
}

/// The diagram ends with exactly one arrow line `  a --> b` for each edge whose
/// two ends are files, in edge order, and nothing for the other edges.
pub proof fn law_mermaid_arrows(g: DependencyGraph)
    ensures
        mermaid_text(g) == "graph TD\n"@ + "  %% Auto-generated dependency graph by nexus\n\n"@
            + mermaid_node_lines(g.nodes@) + "\n"@ + arrow_lines(g, edges_between_files(g, g.edges@)),
        forall|i: int|
            0 <= i < edges_between_files(g, g.edges@).len() ==> g.has_edge(
                (#[trigger] edges_between_files(g, g.edges@)[i]).0,
                edges_between_files(g, g.edges@)[i].1,
            ) && g.has_node(edges_between_files(g, g.edges@)[i].0) && g.has_node(
                edges_between_files(g, g.edges@)[i].1,
            ),
{
    lemma_edge_lines_are_arrows(g, g.edges@);
}

proof fn lemma_edge_lines_are_arrows(g: DependencyGraph, es: Seq<(FileId, FileId)>)
    ensures
        mermaid_edge_lines(g, es) == arrow_lines(g, edges_between_files(g, es)),
        forall|i: int|
            0 <= i < edges_between_files(g, es).len() ==> es.contains(#[trigger] edges_between_files(g, es)[i])
                && g.has_node(edges_between_files(g, es)[i].0) && g.has_node(edges_between_files(g, es)[i].1),
    decreases es.len(),
{
    if es.len() > 0 {
        let pre = es.drop_last();
        lemma_edge_lines_are_arrows(g, pre);
        let f = edges_between_files(g, es);
        let fp = edges_between_files(g, pre);
        if g.has_node(es.last().0) && g.has_node(es.last().1) {
            assert(f.drop_last() =~= fp);
            assert(f.last() == es.last());
            assert forall|i: int| 0 <= i < f.len() implies es.contains(#[trigger] f[i]) && g.has_node(f[i].0)
                && g.has_node(f[i].1) by {
                if i < fp.len() {
                    assert(f[i] == fp[i]);
                    let j = choose|j: int| 0 <= j < pre.len() && pre[j] == fp[i];
                    assert(es[j] == pre[j]);
                } else {
                    assert(es[es.len() - 1] == es.last());
                }
            }
        } else {
            assert(mermaid_edge_line(g, es.last()) == Seq::<char>::empty());
            assert(mermaid_edge_lines(g, es) =~= mermaid_edge_lines(g, pre));
            assert forall|i: int| 0 <= i < f.len() implies es.contains(#[trigger] f[i]) && g.has_node(f[i].0)
                && g.has_node(f[i].1) by {
                let j = choose|j: int| 0 <= j < pre.len() && pre[j] == fp[i];
                assert(es[j] == pre[j]);
            }
        }
    }
}

} // verus!

verus! {

proof fn lemma_digit_char(d: int)
    requires
        0 <= d < 10,
    ensures
        crate::config::is_digit(digit_char(d)),
        digit_char(d) as u32 - '0' as u32 == d,
{
    let s = seq!['0', '1', '2', '3', '4', '5', '6', '7', '8', '9'];
    assert(digit_char(d) == s[d]);
    if d == 0 { assert(s[d] == '0'); }
    else if d == 1 { assert(s[d] == '1'); }
    else if d == 2 { assert(s[d] == '2'); }
    else if d == 3 { assert(s[d] == '3'); }
    else if d == 4 { assert(s[d] == '4'); }
    else if d == 5 { assert(s[d] == '5'); }
    else if d == 6 { assert(s[d] == '6'); }
    else if d == 7 { assert(s[d] == '7'); }
    else if d == 8 { assert(s[d] == '8'); }
    else { assert(s[d] == '9'); }
}

/// The numeral of `n` is one or more decimal digits that read back as `n`,
/// with no leading zero unless `n` is zero.
pub proof fn law_decimal_reads_back(n: nat)
    ensures
        decimal(n).len() >= 1,
        crate::config::all_digits(decimal(n)),
        crate::config::digits_value(decimal(n)) == n,
        decimal(n)[0] == '0' ==> n == 0,
    decreases n,
{
    if n < 10 {
        lemma_digit_char(n as int);
        assert(decimal(n).drop_last() =~= Seq::<char>::empty());
        assert(decimal(n).last() == digit_char(n as int));
        assert(crate::config::digits_value(Seq::<char>::empty()) == 0);
        if n != 0 {
            assert(digit_char(n as int) as u32 - '0' as u32 == n);
        }
    } else {
        law_decimal_reads_back(n / 10);
        lemma_digit_char((n % 10) as int);
        let d = decimal(n);
        let h = decimal(n / 10);
        assert(d == h + seq![digit_char((n % 10) as int)]);
        assert(d.drop_last() =~= h);
        assert(d[0] == h[0]);
        assert(crate::config::all_digits(d)) by {
            assert forall|i: int| 0 <= i < d.len() implies crate::config::is_digit(#[trigger] d[i]) by {
                if i < h.len() {
                    assert(d[i] == h[i]);
                }
            }
        }
        assert(n / 10 > 0);
        assert(d.last() == digit_char((n % 10) as int));
        assert((n / 10) * 10 + n % 10 == n) by (nonlinear_arith);
    }
}

} // verus!
