use fgoi::{Import, ImportMatcher};

fn named(name: &str, url: &str) -> Import {
    Import { name: Some(name.to_string()), url: url.to_string() }
}

fn bare(url: &str) -> Import {
    Import { name: None, url: url.to_string() }
}

#[test]
fn single_import_without_name() {
    let m = ImportMatcher::new();
    assert_eq!(m.match_single("import \"fmt\""), Some(bare("fmt")));
    assert_eq!(m.match_single("  import \"a/b\"  "), Some(bare("a/b")));
}

#[test]
fn single_import_with_name() {
    let m = ImportMatcher::new();
    assert_eq!(
        m.match_single("import alias \"github.com/x/y\""),
        Some(named("alias", "github.com/x/y"))
    );
    assert_eq!(m.match_single("\timport m_1 \"z\""), Some(named("m_1", "z")));
}

#[test]
fn single_import_rejects_other_shapes() {
    let m = ImportMatcher::new();
    assert_eq!(m.match_single("import \"\""), None);
    assert_eq!(m.match_single("import\"fmt\""), None);
    assert_eq!(m.match_single("importx \"fmt\""), None);
    assert_eq!(m.match_single("import ("), None);
    assert_eq!(m.match_single("x := \"fmt\""), None);
    assert_eq!(m.match_single(""), None);
    assert_eq!(m.match_single("import two words \"fmt\""), None);
}

#[test]
fn block_entry_shapes() {
    let m = ImportMatcher::new();
    assert_eq!(m.match_in_block("\t\"fmt\""), Some(bare("fmt")));
    assert_eq!(m.match_in_block("\talias \"x.y/z\""), Some(named("alias", "x.y/z")));
    assert_eq!(m.match_in_block("  \"a\"  "), Some(bare("a")));
    assert_eq!(m.match_in_block(")"), None);
    assert_eq!(m.match_in_block("this is not an import"), None);
    assert_eq!(m.match_in_block(""), None);
}

#[test]
fn empty_captured_name_means_absent_name() {
    let m = ImportMatcher::new();
    let i = m.match_single("import  \"fmt\"").unwrap();
    assert_eq!(i.name, None);
}

#[test]
fn block_delimiters() {
    let m = ImportMatcher::new();
    assert!(m.match_import_begin("import ("));
    assert!(m.match_import_begin("  import   (  "));
    assert!(!m.match_import_begin("import (x"));
    assert!(!m.match_import_begin("import()"));
    assert!(m.match_import_end(")"));
    assert!(m.match_import_end("  )  "));
    assert!(!m.match_import_end(") }"));
    assert!(!m.match_import_end("}"));
}

#[test]
fn unicode_whitespace_is_tolerated() {
    let m = ImportMatcher::new();
    assert_eq!(m.match_single("import\u{a0}\"fmt\""), Some(bare("fmt")));
    assert_eq!(m.match_single("\u{3000}import \"os\"\u{2003}"), Some(bare("os")));
    assert_eq!(m.match_in_block("\u{a0}x \"a.b/c\""), Some(named("x", "a.b/c")));
    assert!(m.match_import_end("\u{2003})\u{2003}"));
    assert!(m.match_import_begin("import\u{a0}("));
}

#[test]
fn greedy_path_capture_keeps_inner_quotes() {
    let m = ImportMatcher::new();
    assert_eq!(m.match_single("import \"a\" \"b\""), Some(bare("a\" \"b")));
}
