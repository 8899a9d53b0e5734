use nexus::config::parse_config;
use nexus::types::{Language, NexusConfig, OutputFormat};

fn strings(v: &[&str]) -> Vec<String> {
    v.iter().map(|s| s.to_string()).collect()
}

#[test]
fn default_config() {
    let c = NexusConfig::default();
    assert_eq!(c.paths, strings(&["."]));
    assert_eq!(c.exclude_patterns.len(), 8);
    assert!(c.exclude_patterns.contains(&"node_modules".to_string()));
    assert_eq!(c.include_extensions, strings(&["rs", "py", "js", "jsx", "ts", "tsx", "go"]));
    assert_eq!(c.max_depth, usize::MAX);
    assert!(c.detect_tests && c.detect_circular);
    assert_eq!(c.format, OutputFormat::Terminal);
}

#[test]
fn options_are_applied() {
    let c = parse_config(&strings(&["src", "--exclude", "gen", "--depth", "3", "--ext", "md", "lib"])).unwrap();
    assert_eq!(c.paths, strings(&["src", "lib"]));
    assert_eq!(c.exclude_patterns.last(), Some(&"gen".to_string()));
    assert_eq!(c.exclude_patterns.len(), 9);
    assert_eq!(c.include_extensions.last(), Some(&"md".to_string()));
    assert_eq!(c.max_depth, 3);
}

#[test]
fn no_arguments_keep_the_defaults() {
    let c = parse_config(&[]).unwrap();
    assert_eq!(c.paths, strings(&["."]));
    assert_eq!(c.max_depth, usize::MAX);
}

#[test]
fn a_bad_depth_is_refused() {
    let e = parse_config(&strings(&["--depth", "deep"])).unwrap_err();
    assert_eq!(e, "Invalid depth: deep");
    let e = parse_config(&strings(&["--depth", "-1"])).unwrap_err();
    assert_eq!(e, "Invalid depth: -1");
    assert_eq!(parse_config(&strings(&["--depth", "+7"])).unwrap().max_depth, 7);
}

#[test]
fn an_unknown_option_is_refused() {
    let e = parse_config(&strings(&["--verbose"])).unwrap_err();
    assert_eq!(e, "Unknown option: --verbose");
    // an option missing its value is an unknown option too
    let e = parse_config(&strings(&["src", "--exclude"])).unwrap_err();
    assert_eq!(e, "Unknown option: --exclude");
}

#[test]
fn output_formats() {
    assert_eq!(OutputFormat::parse("terminal"), Ok(OutputFormat::Terminal));
    assert_eq!(OutputFormat::parse("TTY"), Ok(OutputFormat::Terminal));
    assert_eq!(OutputFormat::parse("Json"), Ok(OutputFormat::Json));
    assert_eq!(OutputFormat::parse("mmd"), Ok(OutputFormat::Mermaid));
    assert_eq!(
        OutputFormat::parse("xml"),
        Err("Unknown format: xml. Use: terminal, json, or mermaid".to_string())
    );
    assert_eq!("mermaid".parse::<OutputFormat>(), Ok(OutputFormat::Mermaid));
}

#[test]
fn languages_by_extension() {
    assert_eq!(Language::from_extension("a/b.rs"), Language::Rust);
    assert_eq!(Language::from_extension("x.py"), Language::Python);
    assert_eq!(Language::from_extension("x.jsx"), Language::JavaScript);
    assert_eq!(Language::from_extension("x.tsx"), Language::TypeScript);
    assert_eq!(Language::from_extension("x.go"), Language::Go);
    assert_eq!(Language::from_extension("README.md"), Language::Other("md".to_string()));
    assert_eq!(Language::from_extension("Makefile"), Language::Other(String::new()));
    assert_eq!(Language::from_extension(".bashrc"), Language::Other(String::new()));
}
