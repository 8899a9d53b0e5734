use nexus::extract::{
    extract_go_imports, extract_js_imports, extract_python_imports, extract_rust_imports,
};

#[test]
fn test_extract_rust_imports_simple() {
    let content = "use std::collections::HashMap;\nuse serde::Serialize;\n";
    let imports = extract_rust_imports(content);
    assert!(imports.contains(&"std::collections::HashMap".to_string()));
    assert!(imports.contains(&"serde::Serialize".to_string()));
}

#[test]
fn test_extract_rust_imports_pub_use() {
    let content = "pub use crate::types::FileNode;\npub use self::graph::analyze;\n";
    let imports = extract_rust_imports(content);
    assert!(imports.contains(&"crate::types::FileNode".to_string()));
    assert!(imports.contains(&"self::graph::analyze".to_string()));
}

#[test]
fn test_extract_rust_imports_nested() {
    let content = "use std::collections::HashMap;\nuse crate::foo;\n";
    let imports = extract_rust_imports(content);
    assert!(imports.contains(&"std::collections::HashMap".to_string()));
    assert!(imports.contains(&"crate::foo".to_string()));
}

#[test]
fn test_extract_python_imports_simple() {
    let content = "import os\nimport sys\n";
    let imports = extract_python_imports(content);
    assert!(imports.contains(&"os".to_string()));
    assert!(imports.contains(&"sys".to_string()));
}

#[test]
fn test_extract_python_from_import() {
    let content = "from collections import defaultdict\nfrom pathlib import Path\n";
    let imports = extract_python_imports(content);
    assert!(imports.contains(&"collections".to_string()));
}

#[test]
fn test_extract_js_imports_esm() {
    let content = "import fs from 'fs';\nimport { parse } from './parser';\n";
    let imports = extract_js_imports(content);
    assert!(imports.contains(&"fs".to_string()));
    assert!(imports.contains(&"./parser".to_string()));
}

#[test]
fn test_extract_js_imports_require() {
    let content = "const fs = require('fs');\n";
    let imports = extract_js_imports(content);
    assert!(imports.contains(&"fs".to_string()));
}

#[test]
fn test_extract_go_imports_simple() {
    let content = "import \"fmt\"\nimport \"os\"\n";
    let imports = extract_go_imports(content);
    assert!(imports.contains(&"fmt".to_string()));
    assert!(imports.contains(&"os".to_string()));
}

#[test]
fn test_extract_go_imports_grouped() {
    let content = "import (\n    \"fmt\"\n    \"os\"\n    \"strings\"\n)\n";
    let imports = extract_go_imports(content);
    assert!(imports.contains(&"fmt".to_string()));
    assert!(imports.contains(&"os".to_string()));
    assert!(imports.contains(&"strings".to_string()));
}

#[test]
fn test_extract_rust_with_as() {
    let content = "use std::collections::HashMap as Map;\n";
    let imports = extract_rust_imports(content);
    assert!(imports.contains(&"std::collections::HashMap".to_string()));
}

#[test]
fn test_extract_python_import_as() {
    let content = "import numpy as np\n";
    let imports = extract_python_imports(content);
    assert!(imports.contains(&"numpy".to_string()));
}

#[test]
fn test_extract_js_imports_no_imports() {
    let content = "const x = 1;\nfunction foo() {}\n";
    let imports = extract_js_imports(content);
    assert!(imports.is_empty());
}

#[test]
fn test_extract_go_no_imports() {
    let content = "package main\nfunc main() {}\n";
    let imports = extract_go_imports(content);
    assert!(imports.is_empty());
}
