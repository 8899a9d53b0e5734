//! The analysis written as JSON.
use vstd::prelude::*;
use crate::analysis::{AnalysisResult, ImpactReport};
use crate::graph::{cycles_view, deref_nodes, targets_of, DependencyGraph};
use crate::report::{
    decimal, digit_char, language_order, names_view, push_decimal, push_str,
    ranked_languages,
};
use crate::text::{chars_of, string_of};
use crate::types::{strings_view, FileId, FileNode};

verus! {

broadcast use vstd::string::group_string_axioms;

/// The pieces joined with `sep` between them.
pub open spec fn join(parts: Seq<Seq<char>>, sep: Seq<char>) -> Seq<char>
    decreases parts.len(),
{
    if parts.len() == 0 {
        seq![]
    } else if parts.len() == 1 {
        parts[0]
    } else {
        join(parts.drop_last(), sep) + sep + parts.last()
    }
}

/// A character escaped for a JSON string: `\` and `"` get a backslash.
pub open spec fn escape_char(c: char) -> Seq<char> {
    if c == '\\' {
        seq!['\\', '\\']
    } else if c == '"' {
        seq!['\\', '"']
    } else {
        seq![c]
    }
}

pub open spec fn escape(s: Seq<char>) -> Seq<char>
    decreases s.len(),
{
    if s.len() == 0 {
        seq![]
    } else {
        escape(s.drop_last()) + escape_char(s.last())
    }
}

pub open spec fn quoted(s: Seq<char>) -> Seq<char> {
    seq!['"'] + escape(s) + seq!['"']
}

pub fn push_escaped(out: &mut Vec<char>, s: &str)
    ensures
        final(out)@ == old(out)@ + escape(s@),
{
    let c = chars_of(s);
    let mut k: usize = 0;
    while k < c.len()
        invariant
            0 <= k <= c@.len(),
            c@ == s@,
            out@ == old(out)@ + escape(c@.subrange(0, k as int)),
        decreases c@.len() - k,
    {
        let x = c[k];
        if x == '\\' {
            out.push('\\');
            out.push('\\');
        } else if x == '"' {
            out.push('\\');
            out.push('"');
        } else {
            out.push(x);
        }
        assert(c@.subrange(0, k + 1).drop_last() =~= c@.subrange(0, k as int));
        k = k + 1;
        assert(out@ =~= old(out)@ + escape(c@.subrange(0, k as int)));
    }
    assert(c@.subrange(0, k as int) =~= c@);
}

// ---------------------------------------------------------------- ordering files by path

/// `a` sorts before or with `b`: `String`'s order, character by character.
pub open spec fn lex_le(a: Seq<char>, b: Seq<char>) -> bool
    decreases a.len(),
{
    if a.len() == 0 {
        true
    } else if b.len() == 0 {
        false
    } else if a[0] != b[0] {
        (a[0] as u32) < (b[0] as u32)
    } else {
        lex_le(a.drop_first(), b.drop_first())
    }
}

pub fn lex_le_exec(a: &[char], b: &[char]) -> (r: bool)
    ensures
        r == lex_le(a@, b@),
{
    let mut k: usize = 0;
    assert(a@.subrange(0, a@.len() as int) =~= a@);
    assert(b@.subrange(0, b@.len() as int) =~= b@);
    while k < a.len() && k < b.len() && a[k] == b[k]
        invariant
            0 <= k <= a@.len(),
            0 <= k <= b@.len(),
            lex_le(a@, b@) == lex_le(a@.subrange(k as int, a@.len() as int), b@.subrange(k as int, b@.len() as int)),
        decreases a@.len() - k,
    {
        assert(a@.subrange(k as int, a@.len() as int).drop_first() =~= a@.subrange(k + 1, a@.len() as int));
        assert(b@.subrange(k as int, b@.len() as int).drop_first() =~= b@.subrange(k + 1, b@.len() as int));
        k = k + 1;
    }
    if k == a.len() {
        true
    } else if k == b.len() {
        false
    } else {
        (a[k] as u32) < (b[k] as u32)
    }
}

/// Where a file with path `p` goes among `order` (positions into `ns`): after
/// every file whose path sorts before or with `p`.
pub open spec fn path_insert_point(ns: Seq<FileNode>, order: Seq<int>, p: Seq<char>) -> int
    decreases order.len(),
{
    if order.len() == 0 {
        0
    } else if !lex_le(ns[order[0]].path@, p) {
        0
    } else {
        1 + path_insert_point(ns, order.drop_first(), p)
    }
}

/// The positions of `ns` ordered by path; equal paths keep their order.
pub open spec fn path_order(ns: Seq<FileNode>, n: int) -> Seq<int>
    decreases n,
{
    if n <= 0 {
        seq![]
    } else {
        let t = path_order(ns, n - 1);
        t.insert(path_insert_point(ns, t, ns[n - 1].path@), n - 1)
    }
}

pub proof fn lemma_path_insert_point(ns: Seq<FileNode>, order: Seq<int>, p: Seq<char>)
    ensures
        0 <= path_insert_point(ns, order, p) <= order.len(),
        forall|i: int| 0 <= i < path_insert_point(ns, order, p) ==> lex_le(ns[order[i]].path@, p),
        path_insert_point(ns, order, p) < order.len() ==> !lex_le(
            ns[order[path_insert_point(ns, order, p)]].path@,
            p,
        ),
    decreases order.len(),
{
    if order.len() > 0 && lex_le(ns[order[0]].path@, p) {
        lemma_path_insert_point(ns, order.drop_first(), p);
        assert forall|i: int| 0 <= i < path_insert_point(ns, order, p) implies lex_le(ns[order[i]].path@, p) by {
            if i > 0 {
                assert(order[i] == order.drop_first()[i - 1]);
            }
        }
    }
}

pub proof fn lemma_path_order(ns: Seq<FileNode>, n: int)
    requires
        0 <= n,
    ensures
        path_order(ns, n).len() == n,
        forall|i: int| 0 <= i < n ==> 0 <= #[trigger] path_order(ns, n)[i] < n,
    decreases n,
{
    if n > 0 {
        lemma_path_order(ns, n - 1);
        let t = path_order(ns, n - 1);
        lemma_path_insert_point(ns, t, ns[n - 1].path@);
        t.insert_ensures(path_insert_point(ns, t, ns[n - 1].path@), n - 1);
        let q = path_insert_point(ns, t, ns[n - 1].path@);
        assert forall|i: int| 0 <= i < n implies 0 <= #[trigger] path_order(ns, n)[i] < n by {
            if i < q {
                assert(path_order(ns, n)[i] == t[i]);
            } else if i > q {
                assert(path_order(ns, n)[i] == t[i - 1]);
            }
        }
    }
}

fn path_order_exec(ns: &Vec<FileNode>) -> (r: Vec<usize>)
    ensures
        r@.len() == ns@.len(),
        forall|i: int| 0 <= i < r@.len() ==> r@[i] as int == path_order(ns@, ns@.len() as int)[i],
        forall|i: int| 0 <= i < r@.len() ==> (#[trigger] r@[i]) < ns@.len(),
{
    let mut out: Vec<usize> = Vec::new();
    let mut k: usize = 0;
    while k < ns.len()
        invariant
            0 <= k <= ns@.len(),
            out@.len() == k,
            forall|i: int| 0 <= i < k ==> out@[i] as int == path_order(ns@, k as int)[i],
            forall|i: int| 0 <= i < k ==> (#[trigger] out@[i]) < k,
        decreases ns@.len() - k,
    {
        let ghost t = path_order(ns@, k as int);
        let p = chars_of(ns[k].path.as_str());
        proof {
            lemma_path_order(ns@, k as int);
            lemma_path_insert_point(ns@, t, ns@[k as int].path@);
        }
        let mut j: usize = 0;
        while j < out.len() && lex_le_exec(chars_of(ns[out[j]].path.as_str()).as_slice(), p.as_slice())
            invariant
                0 <= j <= out@.len(),
                out@.len() == k,
                k < ns@.len(),
                p@ == ns@[k as int].path@,
                forall|i: int| 0 <= i < k ==> out@[i] as int == t[i],
                forall|i: int| 0 <= i < k ==> (#[trigger] out@[i]) < k,
                t == path_order(ns@, k as int),
                t.len() == k,
                j <= path_insert_point(ns@, t, p@),
                path_insert_point(ns@, t, p@) <= t.len(),
                forall|i: int| 0 <= i < path_insert_point(ns@, t, p@) ==> lex_le(ns@[t[i]].path@, p@),
                path_insert_point(ns@, t, p@) < t.len() ==> !lex_le(ns@[t[path_insert_point(ns@, t, p@)]].path@, p@),
            decreases out@.len() - j,
        {
            proof {
                if j == path_insert_point(ns@, t, p@) {
                    assert(out@[j as int] as int == t[j as int]);
                }
            }
            j = j + 1;
        }
        proof {
            if j < path_insert_point(ns@, t, p@) {
                assert(out@[j as int] as int == t[j as int]);
            }
        }
        assert(j == path_insert_point(ns@, t, p@));
        let ghost before = out@;
        out.insert(j, k);
        proof {
            t.insert_ensures(j as int, k as int);
            before.insert_ensures(j as int, k);
            assert forall|i: int| 0 <= i < k + 1 implies out@[i] as int == path_order(ns@, k + 1)[i] by {
                if i < j {
                    assert(out@[i] == before[i]);
                } else if i > j {
                    assert(out@[i] == before[i - 1]);
                }
            }
            assert forall|i: int| 0 <= i < k + 1 implies (#[trigger] out@[i]) < k + 1 by {
                if i < j {
                    assert(out@[i] == before[i]);
                } else if i > j {
                    assert(out@[i] == before[i - 1]);
                }
            }
        }
        k = k + 1;
    }
    out
}


// ---------------------------------------------------------------- joining

pub proof fn lemma_join_push(parts: Seq<Seq<char>>, x: Seq<char>, sep: Seq<char>)
    ensures
        join(parts.push(x), sep) == if parts.len() == 0 {
            x
        } else {
            join(parts, sep) + sep + x
        },
{
    assert(parts.push(x).drop_last() =~= parts);
}

} // verus!

verus! {

// ---------------------------------------------------------------- the analysis as JSON

pub open spec fn bool_text(b: bool) -> Seq<char> {
    if b {
        "true"@
    } else {
        "false"@
    }
}

/// A count of tenths written with one decimal: 125 is `12.5`.
pub open spec fn tenths_text(k: nat) -> Seq<char> {
    decimal(k / 10) + seq!['.', digit_char((k % 10) as int)]
}

/// Quoted, escaped paths of files, separated by `, `.
pub open spec fn quoted_paths(ns: Seq<FileNode>) -> Seq<char> {
    join(ns.map_values(|n: FileNode| quoted(n.path@)), ", "@)
}

/// The start of a file's JSON object: path, language, sizes and complexity.
pub open spec fn file_entry_head(n: FileNode, lang: Seq<char>) -> Seq<char> {
    "{ \"path\": "@ + quoted(n.path@) + ", \"language\": \""@ + lang + "\", \"lines\": "@ + decimal(
        n.lines as nat,
    ) + ", \"code_lines\": "@ + decimal(n.code_lines as nat) + ", \"complexity\": "@ + tenths_text(
        n.complexity_tenths as nat,
    )
}

/// The rest of a file's JSON object: imports, test flag and dependencies.
pub open spec fn file_entry_tail(g: DependencyGraph, n: FileNode) -> Seq<char> {
    ", \"imports\": "@ + decimal(n.imports@.len()) + ", \"has_test\": "@ + bool_text(n.has_test_file)
        + ", \"dependencies\": ["@ + quoted_paths(g.known(targets_of(g.edges@, n.id))) + "] }"@
}

/// One file as a JSON object; `lang` is the name of its language.
pub open spec fn file_entry(g: DependencyGraph, n: FileNode, lang: Seq<char>) -> Seq<char> {
    file_entry_head(n, lang) + file_entry_tail(g, n)
}

/// The files, ordered by path; `langs[i]` names the language of `g.nodes[i]`.
pub open spec fn file_entries(g: DependencyGraph, langs: Seq<Seq<char>>) -> Seq<Seq<char>> {
    path_order(g.nodes@, g.nodes@.len() as int).map_values(
        |i: int| file_entry(g, g.nodes@[i], langs[i]),
    )
}

pub open spec fn cycle_entries(g: DependencyGraph, cycles: Seq<Seq<FileId>>) -> Seq<Seq<char>> {
    cycles.map_values(|c: Seq<FileId>| "["@ + quoted_paths(g.known(c)) + "]"@)
}

pub open spec fn language_entries(names: Seq<(Seq<char>, usize)>) -> Seq<Seq<char>> {
    ranked_languages(names).map_values(
        |e: (Seq<char>, usize)| "\""@ + e.0 + "\": "@ + decimal(e.1 as nat),
    )
}

/// The summary object, up to the total of lines.
pub open spec fn summary_head(s: AnalysisResult, avg_deps: Seq<char>) -> Seq<char> {
    "\"summary\": {\n"@ + "\"total_files\": "@ + decimal(s.total_files as nat) + ",\n"@
        + "\"total_dependencies\": "@ + decimal(s.total_dependencies as nat) + ",\n"@
        + "\"average_deps\": "@ + avg_deps + ",\n"@ + "\"total_lines\": "@ + decimal(
        s.total_lines as nat,
    ) + ",\n"@
}

/// The rest of the summary object.
pub open spec fn summary_tail(s: AnalysisResult, avg_complexity: Seq<char>) -> Seq<char> {
    "\"total_code_lines\": "@ + decimal(s.total_code_lines as nat) + ",\n"@
        + "\"average_complexity\": "@ + avg_complexity + ",\n"@ + "\"cycle_count\": "@ + decimal(
        s.cycle_count as nat,
    ) + ",\n"@ + "\"isolated_files\": "@ + decimal(s.isolated_count as nat) + ",\n"@
        + "\"test_files\": "@ + decimal(s.test_file_count as nat) + "\n"@ + "},"@
}

pub open spec fn summary_block(s: AnalysisResult, avg_deps: Seq<char>, avg_complexity: Seq<char>) -> Seq<
    char,
> {
    summary_head(s, avg_deps) + summary_tail(s, avg_complexity)
}

/// The analysis as a JSON document. The averages come already written, as do
/// the language names with their counts and the language name of each file.
pub open spec fn json_text(
    s: AnalysisResult,
    g: DependencyGraph,
    avg_deps: Seq<char>,
    avg_complexity: Seq<char>,
    names: Seq<(Seq<char>, usize)>,
    langs: Seq<Seq<char>>,
) -> Seq<char> {
    let cycles = cycles_view(s.cycles@);
    "{\n"@ + summary_block(s, avg_deps, avg_complexity) + (if names.len() > 0 {
        "\n\"languages\": {\n"@ + join(language_entries(names), ",\n"@) + "\n},"@
    } else {
        seq![]
    }) + "\n\"files\": [\n"@ + join(file_entries(g, langs), ",\n"@) + "\n]"@ + (if cycles.len()
        > 0 {
        ",\n\"cycles\": [\n"@ + join(cycle_entries(g, cycles), ",\n"@) + "\n]"@
    } else {
        seq![]
    }) + "\n}"@
}

fn push_quoted_nodes(out: &mut Vec<char>, v: &Vec<&FileNode>)
    ensures
        final(out)@ == old(out)@ + quoted_paths(deref_nodes(v@)),
{
    let ghost ns = deref_nodes(v@);
    let ghost parts = ns.map_values(|n: FileNode| quoted(n.path@));
    let mut k: usize = 0;
    while k < v.len()
        invariant
            0 <= k <= v@.len(),
            ns == deref_nodes(v@),
            parts == ns.map_values(|n: FileNode| quoted(n.path@)),
            out@ == old(out)@ + join(parts.subrange(0, k as int), ", "@),
        decreases v@.len() - k,
    {
        let ghost before = out@;
        if k > 0 {
            push_str(out, ", ");
        }
        out.push('"');
        push_escaped(out, v[k].path.as_str());
        out.push('"');
        proof {
            lemma_join_push(parts.subrange(0, k as int), parts[k as int], ", "@);
            assert(parts.subrange(0, k + 1) =~= parts.subrange(0, k as int).push(parts[k as int]));
            assert(parts[k as int] == quoted(v@[k as int].path@));
        }
        k = k + 1;
        assert(out@ =~= old(out)@ + join(parts.subrange(0, k as int), ", "@));
    }
    assert(parts.subrange(0, k as int) =~= parts);
}


fn push_quoted_known(out: &mut Vec<char>, g: &DependencyGraph, ids: &Vec<FileId>)
    requires
        g.wf(),
    ensures
        final(out)@ == old(out)@ + quoted_paths(g.known(ids@)),
{
    let mut k: usize = 0;
    let mut first = true;
    while k < ids.len()
        invariant
            g.wf(),
            0 <= k <= ids@.len(),
            first == (g.known(ids@.subrange(0, k as int)).len() == 0),
            out@ == old(out)@ + quoted_paths(g.known(ids@.subrange(0, k as int))),
        decreases ids@.len() - k,
    {
        let ghost pre = g.known(ids@.subrange(0, k as int));
        assert(ids@.subrange(0, k + 1).drop_last() =~= ids@.subrange(0, k as int));
        match g.node(ids[k]) {
            Some(n) => {
                if !first {
                    push_str(out, ", ");
                }
                out.push('"');
                push_escaped(out, n.path.as_str());
                out.push('"');
                first = false;
                proof {
                    let f = |m: FileNode| quoted(m.path@);
                    assert(g.known(ids@.subrange(0, k + 1)) == pre.push(*n));
                    assert(pre.push(*n).map_values(f) =~= pre.map_values(f).push(f(*n)));
                    lemma_join_push(pre.map_values(f), f(*n), ", "@);
                }
            },
            None => {},
        }
        k = k + 1;
        assert(out@ =~= old(out)@ + quoted_paths(g.known(ids@.subrange(0, k as int))));
    }
    assert(ids@.subrange(0, k as int) =~= ids@);
}

fn push_tenths(out: &mut Vec<char>, k: u128)
    ensures
        final(out)@ == old(out)@ + tenths_text(k as nat),
{
    let digits: [char; 10] = ['0', '1', '2', '3', '4', '5', '6', '7', '8', '9'];
    assert(digits@ == seq!['0', '1', '2', '3', '4', '5', '6', '7', '8', '9']);
    push_decimal(out, k / 10);
    out.push('.');
    out.push(digits[(k % 10) as usize]);
    assert(out@ =~= old(out)@ + tenths_text(k as nat));
}

#[verifier::rlimit(40)]
fn push_file_entry_head(out: &mut Vec<char>, n: &FileNode, lang: &str)
    ensures
        final(out)@ == old(out)@ + file_entry_head(*n, lang@),
{
    push_str(out, "{ \"path\": ");
    out.push('"');
    push_escaped(out, n.path.as_str());
    out.push('"');
    push_str(out, ", \"language\": \"");
    push_str(out, lang);
    push_str(out, "\", \"lines\": ");
    push_decimal(out, n.lines as u128);
    push_str(out, ", \"code_lines\": ");
    push_decimal(out, n.code_lines as u128);
    push_str(out, ", \"complexity\": ");
    push_tenths(out, n.complexity_tenths);
    assert(out@ =~= old(out)@ + file_entry_head(*n, lang@));
}

#[verifier::rlimit(40)]
fn push_file_entry(out: &mut Vec<char>, g: &DependencyGraph, n: &FileNode, lang: &str)
    requires
        g.wf(),
    ensures
        final(out)@ == old(out)@ + file_entry(*g, *n, lang@),
{
    push_file_entry_head(out, n, lang);
    let ghost mid = out@;
    push_str(out, ", \"imports\": ");
    push_decimal(out, n.imports.len() as u128);
    push_str(out, ", \"has_test\": ");
    if n.has_test_file {
        push_str(out, "true");
    } else {
        push_str(out, "false");
    }
    push_str(out, ", \"dependencies\": [");
    let deps = g.dependencies(n.id);
    push_quoted_nodes(out, &deps);
    push_str(out, "] }");
    assert(out@ =~= mid + file_entry_tail(*g, *n));
    assert(out@ =~= old(out)@ + file_entry(*g, *n, lang@));
}

#[verifier::rlimit(40)]
fn push_summary_head(out: &mut Vec<char>, s: &AnalysisResult, avg_deps: &str)
    ensures
        final(out)@ == old(out)@ + summary_head(*s, avg_deps@),
{
    push_str(out, "\"summary\": {\n");
    push_str(out, "\"total_files\": ");
    push_decimal(out, s.total_files as u128);
    push_str(out, ",\n");
    push_str(out, "\"total_dependencies\": ");
    push_decimal(out, s.total_dependencies as u128);
    push_str(out, ",\n");
    push_str(out, "\"average_deps\": ");
    push_str(out, avg_deps);
    push_str(out, ",\n");
    push_str(out, "\"total_lines\": ");
    push_decimal(out, s.total_lines);
    push_str(out, ",\n");
    assert(out@ =~= old(out)@ + summary_head(*s, avg_deps@));
}

#[verifier::rlimit(40)]
fn push_summary_tail(out: &mut Vec<char>, s: &AnalysisResult, avg_complexity: &str)
    ensures
        final(out)@ == old(out)@ + summary_tail(*s, avg_complexity@),
{
    push_str(out, "\"total_code_lines\": ");
    push_decimal(out, s.total_code_lines);
    push_str(out, ",\n");
    push_str(out, "\"average_complexity\": ");
    push_str(out, avg_complexity);
    push_str(out, ",\n");
    push_str(out, "\"cycle_count\": ");
    push_decimal(out, s.cycle_count as u128);
    push_str(out, ",\n");
    push_str(out, "\"isolated_files\": ");
    push_decimal(out, s.isolated_count as u128);
    push_str(out, ",\n");
    push_str(out, "\"test_files\": ");
    push_decimal(out, s.test_file_count as u128);
    push_str(out, "\n");
    push_str(out, "},");
    assert(out@ =~= old(out)@ + summary_tail(*s, avg_complexity@));
}

fn push_language_entries(out: &mut Vec<char>, names: &[(String, usize)])
    ensures
        final(out)@ == old(out)@ + join(language_entries(names_view(names@)), ",\n"@),
{
    let ghost v = names_view(names@);
    let order = language_order(names);
    let ghost want = language_entries(v);
    let mut k: usize = 0;
    while k < order.len()
        invariant
            0 <= k <= order@.len(),
            v == names_view(names@),
            order@ == crate::analysis::rank_desc(Seq::new(v.len(), |j: int| (j as FileId, v[j].1))),
            forall|j: int| 0 <= j < order@.len() ==> (#[trigger] order@[j]).0 < names@.len(),
            want == language_entries(v),
            out@ == old(out)@ + join(want.subrange(0, k as int), ",\n"@),
        decreases order@.len() - k,
    {
        let idx = order[k].0;
        if k > 0 {
            push_str(out, ",\n");
        }
        push_str(out, "\"");
        push_str(out, names[idx].0.as_str());
        push_str(out, "\": ");
        push_decimal(out, names[idx].1 as u128);
        proof {
            assert(ranked_languages(v)[k as int] == v[idx as int]);
            lemma_join_push(want.subrange(0, k as int), want[k as int], ",\n"@);
            assert(want.subrange(0, k + 1) =~= want.subrange(0, k as int).push(want[k as int]));
        }
        k = k + 1;
        assert(out@ =~= old(out)@ + join(want.subrange(0, k as int), ",\n"@));
    }
    assert(want.subrange(0, k as int) =~= want);
}

fn push_file_entries(out: &mut Vec<char>, g: &DependencyGraph, langs: &[String])
    requires
        g.wf(),
        langs@.len() == g.nodes@.len(),
    ensures
        final(out)@ == old(out)@ + join(file_entries(*g, strings_view(langs@)), ",\n"@),
{
    let order = path_order_exec(&g.nodes);
    let ghost want = file_entries(*g, strings_view(langs@));
    proof {
        lemma_path_order(g.nodes@, g.nodes@.len() as int);
    }
    let mut k: usize = 0;
    while k < order.len()
        invariant
            g.wf(),
            langs@.len() == g.nodes@.len(),
            0 <= k <= order@.len(),
            order@.len() == g.nodes@.len(),
            path_order(g.nodes@, g.nodes@.len() as int).len() == g.nodes@.len(),
            forall|i: int| 0 <= i < order@.len() ==> order@[i] as int == path_order(g.nodes@, g.nodes@.len() as int)[i],
            forall|i: int| 0 <= i < order@.len() ==> (#[trigger] order@[i]) < g.nodes@.len(),
            want == file_entries(*g, strings_view(langs@)),
            out@ == old(out)@ + join(want.subrange(0, k as int), ",\n"@),
        decreases order@.len() - k,
    {
        let idx = order[k];
        if k > 0 {
            push_str(out, ",\n");
        }
        push_file_entry(out, g, &g.nodes[idx], langs[idx].as_str());
        proof {
            assert(want[k as int] == file_entry(*g, g.nodes@[idx as int], langs@[idx as int]@));
            lemma_join_push(want.subrange(0, k as int), want[k as int], ",\n"@);
            assert(want.subrange(0, k + 1) =~= want.subrange(0, k as int).push(want[k as int]));
        }
        k = k + 1;
        assert(out@ =~= old(out)@ + join(want.subrange(0, k as int), ",\n"@));
    }
    assert(want.subrange(0, k as int) =~= want);
}

fn push_cycle_entries(out: &mut Vec<char>, g: &DependencyGraph, cycles: &Vec<Vec<FileId>>)
    requires
        g.wf(),
    ensures
        final(out)@ == old(out)@ + join(cycle_entries(*g, cycles_view(cycles@)), ",\n"@),
{
    let ghost want = cycle_entries(*g, cycles_view(cycles@));
    let mut k: usize = 0;
    while k < cycles.len()
        invariant
            g.wf(),
            0 <= k <= cycles@.len(),
            want == cycle_entries(*g, cycles_view(cycles@)),
            out@ == old(out)@ + join(want.subrange(0, k as int), ",\n"@),
        decreases cycles@.len() - k,
    {
        if k > 0 {
            push_str(out, ",\n");
        }
        push_str(out, "[");
        push_quoted_known(out, g, &cycles[k]);
        push_str(out, "]");
        proof {
            assert(want[k as int] == "["@ + quoted_paths(g.known(cycles@[k as int]@)) + "]"@);
            lemma_join_push(want.subrange(0, k as int), want[k as int], ",\n"@);
            assert(want.subrange(0, k + 1) =~= want.subrange(0, k as int).push(want[k as int]));
        }
        k = k + 1;
        assert(out@ =~= old(out)@ + join(want.subrange(0, k as int), ",\n"@));
    }
    assert(want.subrange(0, k as int) =~= want);
}

/// The analysis as a JSON document: the summary figures, the languages ranked
/// by file count, every file ordered by path with its dependencies, and the
/// cycles. `langs[i]` is the name of the language of `graph.nodes[i]`.
#[verifier::rlimit(40)]
pub fn format_json(
    s: &AnalysisResult,
    graph: &DependencyGraph,
    avg_deps: &str,
    avg_complexity: &str,
    names: &[(String, usize)],
    langs: &[String],
) -> (r: String)
    requires
        graph.wf(),
        langs@.len() == graph.nodes@.len(),
    ensures
        r@ == json_text(*s, *graph, avg_deps@, avg_complexity@, names_view(names@), strings_view(langs@)),
{
    let mut out: Vec<char> = Vec::new();
    push_str(&mut out, "{\n");
    push_summary_head(&mut out, s, avg_deps);
    push_summary_tail(&mut out, s, avg_complexity);
    let ghost p1 = out@;
    if names.len() > 0 {
        push_str(&mut out, "\n\"languages\": {\n");
        push_language_entries(&mut out, names);
        push_str(&mut out, "\n},");
    }
    let ghost p2 = out@;
    push_str(&mut out, "\n\"files\": [\n");
    push_file_entries(&mut out, graph, langs);
    push_str(&mut out, "\n]");
    let ghost p3 = out@;
    if s.cycles.len() > 0 {
        push_str(&mut out, ",\n\"cycles\": [\n");
        push_cycle_entries(&mut out, graph, &s.cycles);
        push_str(&mut out, "\n]");
    }
    let ghost p4 = out@;
    push_str(&mut out, "\n}");
    proof {
        let nv = names_view(names@);
        assert(p2 =~= p1 + (if nv.len() > 0 {
            "\n\"languages\": {\n"@ + join(language_entries(nv), ",\n"@) + "\n},"@
        } else {
            seq![]
        }));
        assert(out@ =~= json_text(*s, *graph, avg_deps@, avg_complexity@, nv, strings_view(langs@)));
    }
    string_of(out.as_slice())
}

} // verus!

verus! {

// ---------------------------------------------------------------- an impact report as JSON

/// Paths in quotes as they are, separated by `, `.
pub open spec fn raw_quoted_paths(ns: Seq<FileNode>) -> Seq<char> {
    join(ns.map_values(|n: FileNode| seq!['"'] + n.path@ + seq!['"']), ", "@)
}

/// An impact report as a JSON document; the target paths are written as they are.
pub open spec fn impact_json_text(g: DependencyGraph, r: ImpactReport) -> Seq<char> {
    "{\n"@ + "\"risk_score\": "@ + decimal(r.risk_score as nat) + ","@ + "\n"@
        + "\"total_files_touched\": "@ + decimal(r.total_files_touched as nat) + ","@ + "\n"@
        + "\"target_files\": ["@ + "\n"@ + raw_quoted_paths(g.known(r.target_files@)) + "\n"@
        + "],"@ + "\n"@ + "\"directly_affected\": "@ + decimal(r.directly_affected@.len()) + " ,"@
        + "\n"@ + "\"transitively_affected\": "@ + decimal(r.transitively_affected@.len()) + ","@
        + "\n"@ + "\"dependencies_needed\": "@ + decimal(r.total_dependencies@.len()) + "\n}"@
}

fn push_raw_quoted_known(out: &mut Vec<char>, g: &DependencyGraph, ids: &Vec<FileId>)
    requires
        g.wf(),
    ensures
        final(out)@ == old(out)@ + raw_quoted_paths(g.known(ids@)),
{
    let mut k: usize = 0;
    let mut first = true;
    while k < ids.len()
        invariant
            g.wf(),
            0 <= k <= ids@.len(),
            first == (g.known(ids@.subrange(0, k as int)).len() == 0),
            out@ == old(out)@ + raw_quoted_paths(g.known(ids@.subrange(0, k as int))),
        decreases ids@.len() - k,
    {
        let ghost pre = g.known(ids@.subrange(0, k as int));
        assert(ids@.subrange(0, k + 1).drop_last() =~= ids@.subrange(0, k as int));
        match g.node(ids[k]) {
            Some(n) => {
                if !first {
                    push_str(out, ", ");
                }
                out.push('"');
                push_str(out, n.path.as_str());
                out.push('"');
                first = false;
                proof {
                    let f = |m: FileNode| seq!['"'] + m.path@ + seq!['"'];
                    assert(g.known(ids@.subrange(0, k + 1)) == pre.push(*n));
                    assert(pre.push(*n).map_values(f) =~= pre.map_values(f).push(f(*n)));
                    lemma_join_push(pre.map_values(f), f(*n), ", "@);
                }
            },
            None => {},
        }
        k = k + 1;
        assert(out@ =~= old(out)@ + raw_quoted_paths(g.known(ids@.subrange(0, k as int))));
    }
    assert(ids@.subrange(0, k as int) =~= ids@);
}

/// An impact report as JSON: the risk score, the files touched, the target
/// files that are in the graph, and the sizes of the affected and needed sets.
#[verifier::rlimit(40)]
pub fn format_impact_json(report: &ImpactReport, graph: &DependencyGraph) -> (r: String)
    requires
        graph.wf(),
    ensures
        r@ == impact_json_text(*graph, *report),
{
    let mut out: Vec<char> = Vec::new();
    push_str(&mut out, "{\n");
    push_str(&mut out, "\"risk_score\": ");
    push_decimal(&mut out, report.risk_score as u128);
    push_str(&mut out, ",");
    push_str(&mut out, "\n");
    push_str(&mut out, "\"total_files_touched\": ");
    push_decimal(&mut out, report.total_files_touched as u128);
    push_str(&mut out, ",");
    push_str(&mut out, "\n");
    push_str(&mut out, "\"target_files\": [");
    push_str(&mut out, "\n");
    push_raw_quoted_known(&mut out, graph, &report.target_files);
    push_str(&mut out, "\n");
    push_str(&mut out, "],");
    push_str(&mut out, "\n");
    let ghost mid = out@;
    push_str(&mut out, "\"directly_affected\": ");
    push_decimal(&mut out, report.directly_affected.len() as u128);
    push_str(&mut out, " ,");
    push_str(&mut out, "\n");
    push_str(&mut out, "\"transitively_affected\": ");
    push_decimal(&mut out, report.transitively_affected.len() as u128);
    push_str(&mut out, ",");
    push_str(&mut out, "\n");
    push_str(&mut out, "\"dependencies_needed\": ");
    push_decimal(&mut out, report.total_dependencies.len() as u128);
    push_str(&mut out, "\n}");
    assert(out@ =~= impact_json_text(*graph, *report));
    string_of(out.as_slice())
}

} // verus!

verus! {

/// The written complexity reads back as the number of tenths: the digits before
/// the point are `k / 10` in full, the one digit after it is `k % 10`.
pub proof fn law_tenths_text_reads_back(k: nat)
    ensures
        ({
            let t = tenths_text(k);
            let whole = t.subrange(0, t.len() - 2);
            &&& t.len() >= 3
            &&& t[t.len() - 2] == '.'
            &&& crate::config::all_digits(whole)
            &&& crate::config::is_digit(t.last())
            &&& crate::config::digits_value(whole) * 10 + (t.last() as u32 - '0' as u32) == k
        }),
{
    crate::report::law_decimal_reads_back(k / 10);
    let t = tenths_text(k);
    let h = decimal(k / 10);
    assert(t == h + seq!['.', digit_char((k % 10) as int)]);
    assert(t.subrange(0, t.len() - 2) =~= h);
    assert(t.last() == digit_char((k % 10) as int));
    assert(t[t.len() - 2] == '.');
    let s = seq!['0', '1', '2', '3', '4', '5', '6', '7', '8', '9'];
    let d = (k % 10) as int;
    assert(digit_char(d) == s[d]);
    assert(crate::config::is_digit(digit_char(d)) && digit_char(d) as u32 - '0' as u32 == d) by {
        if d == 0 { assert(s[d] == '0'); }
        else if d == 1 { assert(s[d] == '1'); }
        else if d == 2 { assert(s[d] == '2'); }
        else if d == 3 { assert(s[d] == '3'); }
        else if d == 4 { assert(s[d] == '4'); }
        else if d == 5 { assert(s[d] == '5'); }
        else if d == 6 { assert(s[d] == '6'); }
        else if d == 7 { assert(s[d] == '7'); }
        else if d == 8 { assert(s[d] == '8'); }
        else { assert(s[d] == '9'); }
    }
}

} // verus!
