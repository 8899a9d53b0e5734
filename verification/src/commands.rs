//! The command-line front: which command a word names, which files a walk
//! keeps, which files an impact names, and the texts the commands print.
use vstd::prelude::*;
use crate::analysis::AnalysisResult;
use crate::graph::{cycles_view, DependencyGraph};
use crate::report::{decimal, format_report, names_view, push_decimal, push_str, report_text};
use crate::types::{strings_view, FileId, FileNode};
use crate::text::{string_of, chars_of, contains, contains_exec, slice_eq, starts_with, starts_with_exec};

verus! {

broadcast use vstd::string::group_string_axioms;

// ---------------------------------------------------------------- walking a tree

/// A directory at `depth` below a starting path is read when the depth is at
/// most `max_depth`.
pub fn within_depth(depth: usize, max_depth: usize) -> (r: bool)
    ensures
        r == (depth <= max_depth),
{
    depth <= max_depth
}

/// An entry is skipped when its name or its path contains one of the patterns.
pub open spec fn excluded(name: Seq<char>, path: Seq<char>, patterns: Seq<Seq<char>>) -> bool {
    exists|i: int|
        0 <= i < patterns.len() && (contains(name, #[trigger] patterns[i]) || contains(path, patterns[i]))
}

pub fn is_excluded(name: &str, path: &str, patterns: &[String]) -> (r: bool)
    ensures
        r == excluded(name@, path@, crate::types::strings_view(patterns@)),
{
    let ghost pv = crate::types::strings_view(patterns@);
    let n = chars_of(name);
    let p = chars_of(path);
    let mut i: usize = 0;
    while i < patterns.len()
        invariant
            0 <= i <= patterns@.len(),
            pv == crate::types::strings_view(patterns@),
            n@ == name@,
            p@ == path@,
            forall|j: int| 0 <= j < i ==> !(contains(name@, #[trigger] pv[j]) || contains(path@, pv[j])),
        decreases patterns@.len() - i,
    {
        let pat = chars_of(patterns[i].as_str());
        assert(pat@ == pv[i as int]);
        if contains_exec(n.as_slice(), pat.as_slice()) || contains_exec(p.as_slice(), pat.as_slice()) {
            assert(contains(name@, pv[i as int]) || contains(path@, pv[i as int]));
            return true;
        }
        i = i + 1;
    }
    false
}

/// A file is kept when no extensions are listed or its extension is listed.
pub open spec fn extension_wanted(ext: Seq<char>, exts: Seq<Seq<char>>) -> bool {
    exts.len() == 0 || exists|i: int| 0 <= i < exts.len() && #[trigger] exts[i] == ext
}

pub fn extension_included(ext: &str, exts: &[String]) -> (r: bool)
    ensures
        r == extension_wanted(ext@, crate::types::strings_view(exts@)),
{
    let ghost ev = crate::types::strings_view(exts@);
    if exts.len() == 0 {
        return true;
    }
    let e = chars_of(ext);
    let mut i: usize = 0;
    while i < exts.len()
        invariant
            0 <= i <= exts@.len(),
            ev == crate::types::strings_view(exts@),
            e@ == ext@,
            forall|j: int| 0 <= j < i ==> #[trigger] ev[j] != ext@,
        decreases exts@.len() - i,
    {
        let x = chars_of(exts[i].as_str());
        assert(x@ == ev[i as int]);
        if slice_eq(x.as_slice(), e.as_slice()) {
            return true;
        }
        i = i + 1;
    }
    false
}


// ---------------------------------------------------------------- commands

/// What the first argument asks for.
#[derive(Debug, Clone, Copy, PartialEq, Eq, Structural)]
pub enum Command {
    Analyze,
    Impact,
    Cycles,
    Stats,
    Isolated,
    Mermaid,
    Json,
    Help,
    Version,
    Unknown,
}

/// The command a word names; each has a long name and most a short one.
pub open spec fn command_named(s: Seq<char>) -> Command {
    if s == "analyze"@ || s == "a"@ {
        Command::Analyze
    } else if s == "impact"@ || s == "i"@ {
        Command::Impact
    } else if s == "cycles"@ || s == "c"@ {
        Command::Cycles
    } else if s == "stats"@ || s == "s"@ {
        Command::Stats
    } else if s == "isolated"@ {
        Command::Isolated
    } else if s == "mermaid"@ || s == "mmd"@ {
        Command::Mermaid
    } else if s == "json"@ || s == "j"@ {
        Command::Json
    } else if s == "help"@ || s == "-h"@ || s == "--help"@ {
        Command::Help
    } else if s == "version"@ || s == "-V"@ || s == "--version"@ {
        Command::Version
    } else {
        Command::Unknown
    }
}

fn is_word(a: &[char], w: &str) -> (r: bool)
    ensures
        r == (a@ == w@),
{
    let c = chars_of(w);
    slice_eq(a, c.as_slice())
}

impl Command {
    /// The command named by `s`.
    pub fn parse(s: &str) -> (r: Command)
        ensures
            r == command_named(s@),
    {
        let c = chars_of(s);
        let a = c.as_slice();
        if is_word(a, "analyze") || is_word(a, "a") {
            Command::Analyze
        } else if is_word(a, "impact") || is_word(a, "i") {
            Command::Impact
        } else if is_word(a, "cycles") || is_word(a, "c") {
            Command::Cycles
        } else if is_word(a, "stats") || is_word(a, "s") {
            Command::Stats
        } else if is_word(a, "isolated") {
            Command::Isolated
        } else if is_word(a, "mermaid") || is_word(a, "mmd") {
            Command::Mermaid
        } else if is_word(a, "json") || is_word(a, "j") {
            Command::Json
        } else if is_word(a, "help") || is_word(a, "-h") || is_word(a, "--help") {
            Command::Help
        } else if is_word(a, "version") || is_word(a, "-V") || is_word(a, "--version") {
            Command::Version
        } else {
            Command::Unknown
        }
    }
}

// ---------------------------------------------------------------- impact targets

/// The file names given to `impact`: the arguments up to the first option.
/// None given, or an option first, is a usage error.
pub open spec fn target_names_of(args: Seq<Seq<char>>) -> Result<Seq<Seq<char>>, Seq<char>> {
    if args.len() == 0 || starts_with(args[0], seq!['-']) {
        Err("Usage: nexus impact <file1> [file2 ...]"@)
    } else {
        Ok(args.take(leading_names(args)))
    }
}

/// How many arguments come before the first one starting with `-`.
pub open spec fn leading_names(args: Seq<Seq<char>>) -> int
    decreases args.len(),
{
    if args.len() == 0 || starts_with(args[0], seq!['-']) {
        0
    } else {
        1 + leading_names(args.drop_first())
    }
}

pub proof fn lemma_leading_names(args: Seq<Seq<char>>, k: int)
    requires
        0 <= k <= args.len(),
        forall|j: int| 0 <= j < k ==> !starts_with(#[trigger] args[j], seq!['-']),
    ensures
        leading_names(args) == k + leading_names(args.subrange(k, args.len() as int)),
    decreases k,
{
    if k > 0 {
        assert(!starts_with(args[0], seq!['-']));
        assert(args.drop_first().subrange(k - 1, args.drop_first().len() as int) =~= args.subrange(k, args.len() as int));
        lemma_leading_names(args.drop_first(), k - 1);
    } else {
        assert(args.subrange(0, args.len() as int) =~= args);
    }
}

pub fn impact_target_names(args: &[String]) -> (r: Result<Vec<String>, String>)
    ensures
        match r {
            Ok(v) => target_names_of(crate::types::strings_view(args@)) == Ok::<Seq<Seq<char>>, Seq<char>>(
                crate::types::strings_view(v@),
            ),
            Err(e) => target_names_of(crate::types::strings_view(args@)) == Err::<Seq<Seq<char>>, Seq<char>>(e@),
        },
{
    let ghost av = crate::types::strings_view(args@);
    let dash: [char; 1] = ['-'];
    assert(dash@ == seq!['-']);
    let mut out: Vec<String> = Vec::new();
    let mut k: usize = 0;
    while k < args.len()
        invariant
            0 <= k <= args@.len(),
            av == crate::types::strings_view(args@),
            dash@ == seq!['-'],
            forall|j: int| 0 <= j < k ==> !starts_with(#[trigger] av[j], seq!['-']),
            crate::types::strings_view(out@) == av.take(k as int),
        ensures
            0 <= k <= args@.len(),
            forall|j: int| 0 <= j < k ==> !starts_with(#[trigger] av[j], seq!['-']),
            crate::types::strings_view(out@) == av.take(k as int),
            k < args@.len() ==> starts_with(av[k as int], seq!['-']),
        decreases args@.len() - k,
    {
        let a = chars_of(args[k].as_str());
        assert(a@ == av[k as int]);
        if starts_with_exec(a.as_slice(), &dash) {
            break;
        }
        let ghost before = crate::types::strings_view(out@);
        out.push(args[k].clone());
        assert(crate::types::strings_view(out@) =~= before.push(av[k as int]));
        assert(av.take(k + 1) =~= av.take(k as int).push(av[k as int]));
        k = k + 1;
    }
    proof {
        lemma_leading_names(av, k as int);
        if k < args.len() {
            assert(av.subrange(k as int, av.len() as int)[0] == av[k as int]);
        } else {
            assert(av.subrange(k as int, av.len() as int).len() == 0);
        }
    }
    if k == 0 {
        return Err("Usage: nexus impact <file1> [file2 ...]".to_owned());
    }
    Ok(out)
}


/// The ids of the files whose path contains `name` (or is `name`), in file order.
pub open spec fn matching_ids(ns: Seq<FileNode>, name: Seq<char>) -> Seq<FileId>
    decreases ns.len(),
{
    if ns.len() == 0 {
        seq![]
    } else if contains(ns.last().path@, name) || ns.last().path@ == name {
        matching_ids(ns.drop_last(), name).push(ns.last().id)
    } else {
        matching_ids(ns.drop_last(), name)
    }
}

/// The files each name matches, name after name; the first name that matches
/// no file is reported.
pub open spec fn targets_matching(ns: Seq<FileNode>, names: Seq<Seq<char>>) -> Result<Seq<FileId>, Seq<char>>
    decreases names.len(),
{
    if names.len() == 0 {
        Ok(seq![])
    } else {
        match targets_matching(ns, names.drop_last()) {
            Err(e) => Err(e),
            Ok(ids) => if matching_ids(ns, names.last()).len() == 0 {
                Err("No file found matching: "@ + names.last())
            } else {
                Ok(ids + matching_ids(ns, names.last()))
            },
        }
    }
}

fn push_matching(out: &mut Vec<FileId>, ns: &Vec<FileNode>, name: &str)
    ensures
        final(out)@ == old(out)@ + matching_ids(ns@, name@),
{
    let n = chars_of(name);
    let mut k: usize = 0;
    while k < ns.len()
        invariant
            0 <= k <= ns@.len(),
            n@ == name@,
            out@ == old(out)@ + matching_ids(ns@.subrange(0, k as int), name@),
        decreases ns@.len() - k,
    {
        let p = chars_of(ns[k].path.as_str());
        assert(ns@.subrange(0, k + 1).drop_last() =~= ns@.subrange(0, k as int));
        if contains_exec(p.as_slice(), n.as_slice()) || slice_eq(p.as_slice(), n.as_slice()) {
            out.push(ns[k].id);
        }
        k = k + 1;
        assert(out@ =~= old(out)@ + matching_ids(ns@.subrange(0, k as int), name@));
    }
    assert(ns@.subrange(0, k as int) =~= ns@);
}

/// The ids of the files the names given to `impact` stand for.
pub fn match_targets(graph: &DependencyGraph, names: &[String]) -> (r: Result<Vec<FileId>, String>)
    ensures
        match r {
            Ok(v) => targets_matching(graph.nodes@, strings_view(names@)) == Ok::<Seq<FileId>, Seq<char>>(v@),
            Err(e) => targets_matching(graph.nodes@, strings_view(names@)) == Err::<Seq<FileId>, Seq<char>>(e@),
        },
{
    let ghost nv = strings_view(names@);
    let mut ids: Vec<FileId> = Vec::new();
    let mut k: usize = 0;
    while k < names.len()
        invariant
            0 <= k <= names@.len(),
            nv == strings_view(names@),
            targets_matching(graph.nodes@, nv.subrange(0, k as int)) == Ok::<Seq<FileId>, Seq<char>>(ids@),
        decreases names@.len() - k,
    {
        let before = ids.len();
        push_matching(&mut ids, &graph.nodes, names[k].as_str());
        assert(nv.subrange(0, k + 1).drop_last() =~= nv.subrange(0, k as int));
        assert(nv.subrange(0, k + 1).last() == names@[k as int]@);
        if ids.len() == before {
            proof {
                if k + 1 < names@.len() {
                    lemma_targets_error_stays(graph.nodes@, nv, k + 1);
                }
            }
            let mut e = "No file found matching: ".to_owned();
            e.append(names[k].as_str());
            proof {
                if k + 1 == names@.len() {
                    assert(nv.subrange(0, k + 1) =~= nv);
                }
            }
            return Err(e);
        }
        k = k + 1;
    }
    assert(nv.subrange(0, k as int) =~= nv);
    Ok(ids)
}

/// Once a prefix of the names fails, every longer prefix fails the same way.
proof fn lemma_targets_error_stays(ns: Seq<FileNode>, names: Seq<Seq<char>>, k: int)
    requires
        0 <= k <= names.len(),
        targets_matching(ns, names.subrange(0, k)) is Err,
    ensures
        targets_matching(ns, names) == targets_matching(ns, names.subrange(0, k)),
    decreases names.len() - k,
{
    if k < names.len() {
        assert(names.subrange(0, k + 1).drop_last() =~= names.subrange(0, k));
        lemma_targets_error_stays(ns, names, k + 1);
    } else {
        assert(names.subrange(0, k) =~= names);
    }
}

} // verus!

verus! {

// ---------------------------------------------------------------- what the commands print

/// Each file's path after `prefix`, one per line.
pub open spec fn prefixed_paths(ns: Seq<FileNode>, prefix: Seq<char>) -> Seq<char>
    decreases ns.len(),
{
    if ns.len() == 0 {
        seq![]
    } else {
        prefixed_paths(ns.drop_last(), prefix) + prefix + ns.last().path@ + "\n"@
    }
}

fn push_prefixed_known(out: &mut Vec<char>, g: &DependencyGraph, ids: &Vec<FileId>, prefix: &str)
    requires
        g.wf(),
    ensures
        final(out)@ == old(out)@ + prefixed_paths(g.known(ids@), prefix@),
{
    let mut k: usize = 0;
    while k < ids.len()
        invariant
            g.wf(),
            0 <= k <= ids@.len(),
            out@ == old(out)@ + prefixed_paths(g.known(ids@.subrange(0, k as int)), prefix@),
        decreases ids@.len() - k,
    {
        let ghost pre = g.known(ids@.subrange(0, k as int));
        assert(ids@.subrange(0, k + 1).drop_last() =~= ids@.subrange(0, k as int));
        match g.node(ids[k]) {
            Some(n) => {
                push_str(out, prefix);
                push_str(out, n.path.as_str());
                push_str(out, "\n");
                assert(g.known(ids@.subrange(0, k + 1)) == pre.push(*n));
                assert(pre.push(*n).drop_last() =~= pre);
            },
            None => {},
        }
        k = k + 1;
        assert(out@ =~= old(out)@ + prefixed_paths(g.known(ids@.subrange(0, k as int)), prefix@));
    }
    assert(ids@.subrange(0, k as int) =~= ids@);
}

/// The cycle numbered `i + 1` with the paths of its files.
pub open spec fn cycle_block(g: DependencyGraph, i: int, c: Seq<FileId>) -> Seq<char> {
    "  Cycle #"@ + decimal((i + 1) as nat) + ":\n"@ + prefixed_paths(g.known(c), "    → "@) + "\n"@
}

pub open spec fn cycle_blocks(g: DependencyGraph, cs: Seq<Seq<FileId>>) -> Seq<char>
    decreases cs.len(),
{
    if cs.len() == 0 {
        seq![]
    } else {
        cycle_blocks(g, cs.drop_last()) + cycle_block(g, cs.len() - 1, cs.last())
    }
}

/// What `cycles` prints.
pub open spec fn cycles_text(g: DependencyGraph, cs: Seq<Seq<FileId>>) -> Seq<char> {
    if cs.len() == 0 {
        "  No circular dependencies found."@
    } else {
        "  Found "@ + decimal(cs.len()) + " circular dependenc(ies):\n\n"@ + cycle_blocks(g, cs)
    }
}

pub fn cycles_output(graph: &DependencyGraph, cycles: &Vec<Vec<FileId>>) -> (r: String)
    requires
        graph.wf(),
    ensures
        r@ == cycles_text(*graph, cycles_view(cycles@)),
{
    if cycles.len() == 0 {
        return "  No circular dependencies found.".to_owned();
    }
    let ghost cv = cycles_view(cycles@);
    let mut out: Vec<char> = Vec::new();
    push_str(&mut out, "  Found ");
    push_decimal(&mut out, cycles.len() as u128);
    push_str(&mut out, " circular dependenc(ies):\n\n");
    let ghost head = out@;
    let mut k: usize = 0;
    while k < cycles.len()
        invariant
            graph.wf(),
            0 <= k <= cycles@.len(),
            cv == cycles_view(cycles@),
            out@ == head + cycle_blocks(*graph, cv.subrange(0, k as int)),
        decreases cycles@.len() - k,
    {
        push_str(&mut out, "  Cycle #");
        push_decimal(&mut out, (k + 1) as u128);
        push_str(&mut out, ":\n");
        push_prefixed_known(&mut out, graph, &cycles[k], "    → ");
        push_str(&mut out, "\n");
        assert(cv.subrange(0, k + 1).drop_last() =~= cv.subrange(0, k as int));
        assert(cv.subrange(0, k + 1).last() == cycles@[k as int]@);
        k = k + 1;
        assert(out@ =~= head + cycle_blocks(*graph, cv.subrange(0, k as int)));
    }
    assert(cv.subrange(0, k as int) =~= cv);
    assert(out@ =~= cycles_text(*graph, cv));
    string_of(out.as_slice())
}

/// What `isolated` prints, given the isolated files.
pub open spec fn isolated_text(g: DependencyGraph, ids: Seq<FileId>) -> Seq<char> {
    if ids.len() == 0 {
        "  No isolated files found."@
    } else {
        "  "@ + decimal(ids.len()) + " isolated file(s):\n\n"@ + prefixed_paths(g.known(ids), "    📄 "@)
    }
}

pub fn isolated_output(graph: &DependencyGraph, ids: &Vec<FileId>) -> (r: String)
    requires
        graph.wf(),
    ensures
        r@ == isolated_text(*graph, ids@),
{
    if ids.len() == 0 {
        return "  No isolated files found.".to_owned();
    }
    let mut out: Vec<char> = Vec::new();
    push_str(&mut out, "  ");
    push_decimal(&mut out, ids.len() as u128);
    push_str(&mut out, " isolated file(s):\n\n");
    push_prefixed_known(&mut out, graph, ids, "    📄 ");
    assert(out@ =~= isolated_text(*graph, ids@));
    string_of(out.as_slice())
}

/// What `stats` prints. The averages come already written.
pub open spec fn stats_text(s: AnalysisResult, avg_deps: Seq<char>, avg_complexity: Seq<char>) -> Seq<char> {
    if s.total_files == 0 {
        "  No source files found."@
    } else {
        "  Total files:    "@ + decimal(s.total_files as nat) + "\n"@ + "  Total deps:     "@ + decimal(
            s.total_dependencies as nat,
        ) + "\n"@ + "  Avg deps/file:  "@ + avg_deps + "\n"@ + "  Total lines:    "@ + decimal(
            s.total_lines as nat,
        ) + " ("@ + decimal(s.total_code_lines as nat) + " code)\n"@ + "  Avg complexity: "@
            + avg_complexity + "\n"@ + "  Cycles:         "@ + decimal(s.cycle_count as nat) + "\n"@
            + "  Isolated files:  "@ + decimal(s.isolated_count as nat) + "\n"@ + "  Test files:     "@
            + decimal(s.test_file_count as nat)
    }
}

#[verifier::rlimit(40)]
pub fn stats_output(s: &AnalysisResult, avg_deps: &str, avg_complexity: &str) -> (r: String)
    ensures
        r@ == stats_text(*s, avg_deps@, avg_complexity@),
{
    if s.total_files == 0 {
        return "  No source files found.".to_owned();
    }
    let mut out: Vec<char> = Vec::new();
    push_str(&mut out, "  Total files:    ");
    push_decimal(&mut out, s.total_files as u128);
    push_str(&mut out, "\n");
    push_str(&mut out, "  Total deps:     ");
    push_decimal(&mut out, s.total_dependencies as u128);
    push_str(&mut out, "\n");
    push_str(&mut out, "  Avg deps/file:  ");
    push_str(&mut out, avg_deps);
    push_str(&mut out, "\n");
    push_str(&mut out, "  Total lines:    ");
    push_decimal(&mut out, s.total_lines);
    push_str(&mut out, " (");
    push_decimal(&mut out, s.total_code_lines);
    push_str(&mut out, " code)\n");
    let ghost mid = out@;
    push_str(&mut out, "  Avg complexity: ");
    push_str(&mut out, avg_complexity);
    push_str(&mut out, "\n");
    push_str(&mut out, "  Cycles:         ");
    push_decimal(&mut out, s.cycle_count as u128);
    push_str(&mut out, "\n");
    push_str(&mut out, "  Isolated files:  ");
    push_decimal(&mut out, s.isolated_count as u128);
    push_str(&mut out, "\n");
    push_str(&mut out, "  Test files:     ");
    push_decimal(&mut out, s.test_file_count as u128);
    assert(out@ =~= stats_text(*s, avg_deps@, avg_complexity@));
    string_of(out.as_slice())
}

/// What `analyze` prints: the report, or a note when there are no files.
pub open spec fn analysis_text(
    s: AnalysisResult,
    g: DependencyGraph,
    avg_deps: Seq<char>,
    avg_complexity: Seq<char>,
    names: Seq<(Seq<char>, usize)>,
) -> Seq<char> {
    if g.nodes@.len() == 0 {
        "  No source files found to analyze."@
    } else {
        report_text(s, g, avg_deps, avg_complexity, names)
    }
}

pub fn analysis_output(
    s: &AnalysisResult,
    graph: &DependencyGraph,
    avg_deps: &str,
    avg_complexity: &str,
    names: &[(String, usize)],
) -> (r: String)
    requires
        graph.wf(),
    ensures
        r@ == analysis_text(*s, *graph, avg_deps@, avg_complexity@, names_view(names@)),
{
    if graph.nodes.len() == 0 {
        "  No source files found to analyze.".to_owned()
    } else {
        format_report(s, graph, avg_deps, avg_complexity, names)
    }
}


/// The first half of the usage text: what the tool is, how it is called and its commands.
pub open spec fn help_head(program: Seq<char>) -> Seq<char> {
    "nexus — Codebase Dependency Analyzer\n"@
        + "\n"@
        + "USAGE:\n"@
        + "  "@ + program + " <command> [options] [path]\n"@
        + "\n"@
        + "COMMANDS:\n"@
        + "  analyze, a     Analyze dependencies (default format)\n"@
        + "  impact, i      Analyze impact of changing specific files\n"@
        + "  cycles, c      Find circular dependencies\n"@
        + "  stats, s       Show summary statistics only\n"@
        + "  isolated       Find files with no deps or dependents\n"@
        + "  mermaid, mmd   Output dependency graph as Mermaid diagram\n"@
        + "  json, j        Output complete analysis as JSON\n"@
        + "  help           Show this help\n"@
        + "  version        Show version\n"@
        + "\n"@
}

/// The second half of the usage text: the options and examples.
pub open spec fn help_tail(program: Seq<char>) -> Seq<char> {
    "OPTIONS:\n"@
        + "  --exclude PAT   Exclude paths containing PAT (repeatable)\n"@
        + "  --depth N       Max directory depth\n"@
        + "  --ext EXT       File extension to include (repeatable)\n"@
        + "\n"@
        + "EXAMPLES:\n"@
        + "  "@ + program + " analyze\n"@
        + "  "@ + program + " analyze src/\n"@
        + "  "@ + program + " impact src/main.rs\n"@
        + "  "@ + program + " cycles --exclude node_modules\n"@
        + "  "@ + program + " mermaid src/ > graph.mmd\n"@
        + "  "@ + program + " json src/ > analysis.json\n"@
}

/// The usage text, with the name the program was called by.
pub open spec fn help_text(program: Seq<char>) -> Seq<char> {
    help_head(program) + help_tail(program)
}

#[verifier::rlimit(40)]
fn push_help_head(out: &mut Vec<char>, program: &str)
    ensures
        final(out)@ == old(out)@ + help_head(program@),
{
    let ghost start = out@;
    push_str(out, "nexus — Codebase Dependency Analyzer\n");
    push_str(out, "\n");
    push_str(out, "USAGE:\n");
    push_str(out, "  ");
    push_str(out, program);
    push_str(out, " <command> [options] [path]\n");
    push_str(out, "\n");
    push_str(out, "COMMANDS:\n");
    push_str(out, "  analyze, a     Analyze dependencies (default format)\n");
    push_str(out, "  impact, i      Analyze impact of changing specific files\n");
    push_str(out, "  cycles, c      Find circular dependencies\n");
    push_str(out, "  stats, s       Show summary statistics only\n");
    push_str(out, "  isolated       Find files with no deps or dependents\n");
    push_str(out, "  mermaid, mmd   Output dependency graph as Mermaid diagram\n");
    push_str(out, "  json, j        Output complete analysis as JSON\n");
    push_str(out, "  help           Show this help\n");
    push_str(out, "  version        Show version\n");
    push_str(out, "\n");
    assert(out@ =~= start + help_head(program@));
}

#[verifier::rlimit(40)]
fn push_help_tail(out: &mut Vec<char>, program: &str)
    ensures
        final(out)@ == old(out)@ + help_tail(program@),
{
    let ghost start = out@;
    push_str(out, "OPTIONS:\n");
    push_str(out, "  --exclude PAT   Exclude paths containing PAT (repeatable)\n");
    push_str(out, "  --depth N       Max directory depth\n");
    push_str(out, "  --ext EXT       File extension to include (repeatable)\n");
    push_str(out, "\n");
    push_str(out, "EXAMPLES:\n");
    push_str(out, "  ");
    push_str(out, program);
    push_str(out, " analyze\n");
    push_str(out, "  ");
    push_str(out, program);
    push_str(out, " analyze src/\n");
    push_str(out, "  ");
    push_str(out, program);
    push_str(out, " impact src/main.rs\n");
    push_str(out, "  ");
    push_str(out, program);
    push_str(out, " cycles --exclude node_modules\n");
    push_str(out, "  ");
    push_str(out, program);
    push_str(out, " mermaid src/ > graph.mmd\n");
    push_str(out, "  ");
    push_str(out, program);
    push_str(out, " json src/ > analysis.json\n");
    assert(out@ =~= start + help_tail(program@));
}

pub fn help_message(program: &str) -> (r: String)
    ensures
        r@ == help_text(program@),
{
    let mut out: Vec<char> = Vec::new();
    push_help_head(&mut out, program);
    push_help_tail(&mut out, program);
    string_of(out.as_slice())
}

} // verus!
