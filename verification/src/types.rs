//! The data the analysis works on: languages, files, configuration, output formats.
use vstd::prelude::*;
use crate::path::{extension, extension_of};
use crate::text::{chars_of, ends_with, ends_with_exec, eq_ci, eq_ci_exec, string_of};

verus! {

pub type FileId = usize;

/// The language of a source file, told by its extension.
#[derive(Debug, Clone, PartialEq, Eq, Hash)]
pub enum Language {
    Rust,
    Python,
    JavaScript,
    TypeScript,
    Go,
    Other(String),
}

/// What a `Language` stands for, with the text of `Other` as characters.
pub enum LanguageModel {
    Rust,
    Python,
    JavaScript,
    TypeScript,
    Go,
    Other(Seq<char>),
}

impl View for Language {
    type V = LanguageModel;

    open spec fn view(&self) -> LanguageModel {
        match self {
            Language::Rust => LanguageModel::Rust,
            Language::Python => LanguageModel::Python,
            Language::JavaScript => LanguageModel::JavaScript,
            Language::TypeScript => LanguageModel::TypeScript,
            Language::Go => LanguageModel::Go,
            Language::Other(s) => LanguageModel::Other(s@),
        }
    }
}

/// The language of `path`: the known suffixes in order, else the path's extension
/// (empty when it has none).
pub open spec fn language_of(path: Seq<char>) -> LanguageModel {
    if ends_with(path, seq!['.', 'r', 's']) {
        LanguageModel::Rust
    } else if ends_with(path, seq!['.', 'p', 'y']) {
        LanguageModel::Python
    } else if ends_with(path, seq!['.', 'j', 's']) || ends_with(path, seq!['.', 'j', 's', 'x']) {
        LanguageModel::JavaScript
    } else if ends_with(path, seq!['.', 't', 's']) || ends_with(path, seq!['.', 't', 's', 'x']) {
        LanguageModel::TypeScript
    } else if ends_with(path, seq!['.', 'g', 'o']) {
        LanguageModel::Go
    } else {
        LanguageModel::Other(
            match extension(path) {
                Some(e) => e,
                None => Seq::empty(),
            },
        )
    }
}

impl Language {
    pub fn from_extension(path: &str) -> (r: Language)
        ensures
            r@ == language_of(path@),
    {
        let p = chars_of(path);
        let p = p.as_slice();
        if ends_with_exec(p, &['.', 'r', 's']) {
            Language::Rust
        } else if ends_with_exec(p, &['.', 'p', 'y']) {
            Language::Python
        } else if ends_with_exec(p, &['.', 'j', 's']) || ends_with_exec(p, &['.', 'j', 's', 'x']) {
            Language::JavaScript
        } else if ends_with_exec(p, &['.', 't', 's']) || ends_with_exec(p, &['.', 't', 's', 'x']) {
            Language::TypeScript
        } else if ends_with_exec(p, &['.', 'g', 'o']) {
            Language::Go
        } else {
            match extension_of(p) {
                Some(e) => Language::Other(string_of(e)),
                None => Language::Other(String::new()),
            }
        }
    }
}

} // verus!

verus! {

/// One source file of the analysed tree.
#[derive(Debug, Clone, PartialEq)]
pub struct FileNode {
    pub id: FileId,
    pub path: String,
    pub language: Language,
    pub lines: usize,
    pub code_lines: usize,
    pub imports: Vec<String>,
    pub has_test_file: bool,
    /// Estimated complexity in tenths (a complexity of 12.5 is stored as 125).
    pub complexity_tenths: u128,
}

/// How the result is printed.
#[derive(Debug, Clone, PartialEq, Eq, Structural)]
pub enum OutputFormat {
    Terminal,
    Json,
    Mermaid,
}

/// The format a name stands for, ASCII letters compared without case.
pub open spec fn format_named(s: Seq<char>) -> Option<OutputFormat> {
    if eq_ci(s, seq!['t', 'e', 'r', 'm', 'i', 'n', 'a', 'l']) || eq_ci(s, seq!['t', 'e', 'r', 'm'])
        || eq_ci(s, seq!['t', 't', 'y']) {
        Some(OutputFormat::Terminal)
    } else if eq_ci(s, seq!['j', 's', 'o', 'n']) {
        Some(OutputFormat::Json)
    } else if eq_ci(s, seq!['m', 'e', 'r', 'm', 'a', 'i', 'd']) || eq_ci(s, seq!['m', 'm', 'd']) {
        Some(OutputFormat::Mermaid)
    } else {
        None
    }
}

impl OutputFormat {
    /// Reads a format name. Unicode lower-casing sends no character outside
    /// ASCII to a letter of these names, so ASCII folding decides the same.
    pub fn parse(s: &str) -> (r: Result<OutputFormat, String>)
        ensures
            match r {
                Ok(f) => format_named(s@) == Some(f),
                Err(e) => format_named(s@) is None && e@ == "Unknown format: "@ + s@
                    + ". Use: terminal, json, or mermaid"@,
            },
    {
        let c = chars_of(s);
        let c = c.as_slice();
        if eq_ci_exec(c, &['t', 'e', 'r', 'm', 'i', 'n', 'a', 'l']) || eq_ci_exec(c, &['t', 'e', 'r', 'm'])
            || eq_ci_exec(c, &['t', 't', 'y']) {
            Ok(OutputFormat::Terminal)
        } else if eq_ci_exec(c, &['j', 's', 'o', 'n']) {
            Ok(OutputFormat::Json)
        } else if eq_ci_exec(c, &['m', 'e', 'r', 'm', 'a', 'i', 'd']) || eq_ci_exec(c, &['m', 'm', 'd']) {
            Ok(OutputFormat::Mermaid)
        } else {
            let mut e = "Unknown format: ".to_owned();
            e.append(s);
            e.append(". Use: terminal, json, or mermaid");
            Err(e)
        }
    }
}

impl std::str::FromStr for OutputFormat {
    type Err = String;

    fn from_str(s: &str) -> (r: Result<Self, Self::Err>)
        ensures
            match r {
                Ok(f) => format_named(s@) == Some(f),
                Err(e) => format_named(s@) is None && e@ == "Unknown format: "@ + s@
                    + ". Use: terminal, json, or mermaid"@,
            },
    {
        OutputFormat::parse(s)
    }
}

/// What to analyse and how.
#[derive(Debug, Clone)]
pub struct NexusConfig {
    pub paths: Vec<String>,
    pub exclude_patterns: Vec<String>,
    pub include_extensions: Vec<String>,
    pub max_depth: usize,
    pub detect_tests: bool,
    pub detect_circular: bool,
    pub format: OutputFormat,
}

pub open spec fn strings_view(v: Seq<String>) -> Seq<Seq<char>> {
    v.map_values(|s: String| s@)
}

impl Default for NexusConfig {
    fn default() -> (r: NexusConfig)
        ensures
            strings_view(r.paths@) == seq!["."@],
            strings_view(r.exclude_patterns@) == seq![
                "node_modules"@,
                "target"@,
                ".git"@,
                "__pycache__"@,
                ".venv"@,
                "vendor"@,
                "dist"@,
                "build"@,
            ],
            strings_view(r.include_extensions@) == seq![
                "rs"@,
                "py"@,
                "js"@,
                "jsx"@,
                "ts"@,
                "tsx"@,
                "go"@,
            ],
            r.max_depth == usize::MAX,
            r.detect_tests,
            r.detect_circular,
            r.format == OutputFormat::Terminal,
    {
        let paths = vec![".".to_owned()];
        let exclude_patterns = vec![
            "node_modules".to_owned(),
            "target".to_owned(),
            ".git".to_owned(),
            "__pycache__".to_owned(),
            ".venv".to_owned(),
            "vendor".to_owned(),
            "dist".to_owned(),
            "build".to_owned(),
        ];
        let include_extensions = vec![
            "rs".to_owned(),
            "py".to_owned(),
            "js".to_owned(),
            "jsx".to_owned(),
            "ts".to_owned(),
            "tsx".to_owned(),
            "go".to_owned(),
        ];
        let r = NexusConfig {
            paths,
            exclude_patterns,
            include_extensions,
            max_depth: usize::MAX,
            detect_tests: true,
            detect_circular: true,
            format: OutputFormat::Terminal,
        };
        assert(strings_view(r.paths@) =~= seq!["."@]);
        assert(strings_view(r.exclude_patterns@) =~= seq![
            "node_modules"@,
            "target"@,
            ".git"@,
            "__pycache__"@,
            ".venv"@,
            "vendor"@,
            "dist"@,
            "build"@,
        ]);
        assert(strings_view(r.include_extensions@) =~= seq![
            "rs"@,
            "py"@,
            "js"@,
            "jsx"@,
            "ts"@,
            "tsx"@,
            "go"@,
        ]);
        r
    }
}

} // verus!
