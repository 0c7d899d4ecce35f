use fgoi::{GoFile, ImportMatcher, ImportSorter};
use fgoi::file::ReadError;

fn lines(text: &[&str]) -> Vec<String> {
    text.iter().map(|l| l.to_string()).collect()
}

fn run_once(prefixes: &[&str], input: &Vec<String>) -> Result<Vec<String>, ReadError> {
    let is = ImportSorter::new(prefixes.iter().map(|p| p.to_string()).collect());
    let m = ImportMatcher::new();
    let mut gf = GoFile::read(is, &m, "main.go", input)?;
    gf.sort();
    Ok(gf.write_to())
}

#[test]
fn single_import_file_keeps_single_line_form() {
    let input = lines(&["package main", "", "import \"fmt\"", "", "func main() {}"]);
    let out = run_once(&[], &input).unwrap();
    assert_eq!(out, lines(&["package main", "", "import \"fmt\"", "", "func main() {}"]));
}

#[test]
fn block_collapses_to_single_line_for_one_import() {
    let input = lines(&["package main", "", "import (", "\t\"fmt\"", ")", "", "func main() {}"]);
    let out = run_once(&[], &input).unwrap();
    assert_eq!(out, lines(&["package main", "", "import \"fmt\"", "", "func main() {}"]));
}

#[test]
fn no_imports_leaves_file_verbatim() {
    let input = lines(&["package main", "", "func main() {", "", "}", ""]);
    let out = run_once(&[], &input).unwrap();
    assert_eq!(out, input);
}

#[test]
fn buckets_are_grouped_and_sorted() {
    let input = lines(&[
        "package main",
        "",
        "import (",
        "\tx \"github.com/a/b\"",
        "\t\"os\"",
        "\t\"fmt\"",
        "\t\"gitlab.com/z/q\"",
        ")",
        "",
        "func main() {}",
    ]);
    let out = run_once(&["github.com/a"], &input).unwrap();
    assert_eq!(
        out,
        lines(&[
            "package main",
            "",
            "import (",
            "\t\"fmt\"",
            "\t\"os\"",
            "",
            "\t\"gitlab.com/z/q\"",
            "",
            "\tx \"github.com/a/b\"",
            ")",
            "",
            "func main() {}",
        ])
    );
}

#[test]
fn separators_stand_only_between_nonempty_buckets() {
    let input = lines(&[
        "package main",
        "",
        "import (",
        "\t\"x.y/a\"",
        "\t\"x.y/b\"",
        ")",
        "",
        "func f() {}",
    ]);
    let out = run_once(&[], &input).unwrap();
    assert_eq!(
        out,
        lines(&[
            "package main",
            "",
            "import (",
            "\t\"x.y/a\"",
            "\t\"x.y/b\"",
            ")",
            "",
            "func f() {}",
        ])
    );
}

#[test]
fn scattered_single_imports_are_gathered() {
    let input = lines(&[
        "package main",
        "",
        "import \"os\"",
        "import \"fmt\"",
        "",
        "func main() {}",
    ]);
    let out = run_once(&[], &input).unwrap();
    assert_eq!(
        out,
        lines(&[
            "package main",
            "",
            "import (",
            "\t\"fmt\"",
            "\t\"os\"",
            ")",
            "",
            "func main() {}",
        ])
    );
}

#[test]
fn blank_run_after_import_section_collapses() {
    let input = lines(&[
        "package main",
        "",
        "import \"fmt\"",
        "",
        "",
        "",
        "func main() {}",
    ]);
    let out = run_once(&[], &input).unwrap();
    assert_eq!(out, lines(&["package main", "", "import \"fmt\"", "", "func main() {}"]));
}

#[test]
fn malformed_block_content_fails_the_read() {
    let input = lines(&[
        "package main",
        "",
        "import (",
        "this is not an import",
        ")",
    ]);
    let is = ImportSorter::new(vec![]);
    let m = ImportMatcher::new();
    let r = GoFile::read(is, &m, "main.go", &input);
    assert!(matches!(r, Err(ReadError::MalformedImport)));
}

#[test]
fn blank_lines_inside_block_are_tolerated() {
    let input = lines(&[
        "package main",
        "",
        "import (",
        "\t\"os\"",
        "",
        "\t\"fmt\"",
        ")",
        "",
        "func main() {}",
    ]);
    let out = run_once(&[], &input).unwrap();
    assert_eq!(
        out,
        lines(&[
            "package main",
            "",
            "import (",
            "\t\"fmt\"",
            "\t\"os\"",
            ")",
            "",
            "func main() {}",
        ])
    );
}

#[test]
fn unicode_blank_line_inside_block_is_tolerated() {
    let input = lines(&[
        "package main",
        "",
        "import (",
        "\t\"os\"",
        "\u{a0}",
        ")",
        "",
        "func f() {}",
    ]);
    let out = run_once(&[], &input).unwrap();
    assert_eq!(out, lines(&["package main", "", "import \"os\"", "", "func f() {}"]));
}

#[test]
fn rewriting_twice_is_identical() {
    let cases: Vec<(Vec<&str>, Vec<&str>)> = vec![
        (
            vec!["github.com/a"],
            vec![
                "package main",
                "",
                "import (",
                "\tx \"github.com/a/b\"",
                "\t\"os\"",
                "\t\"fmt\"",
                ")",
                "",
                "func main() {}",
            ],
        ),
        (vec![], vec!["package main", "", "import \"fmt\"", "", "func main() {}"]),
        (vec![], vec!["package main", "", "func main() {}"]),
    ];
    for (prefixes, text) in cases {
        let input = lines(&text);
        let once = run_once(&prefixes, &input).unwrap();
        let twice = run_once(&prefixes, &once).unwrap();
        assert_eq!(twice, once);
    }
}

#[test]
fn named_single_import_keeps_its_name() {
    let input = lines(&["package main", "", "import x \"a.b/c\"", "", "func main() {}"]);
    let out = run_once(&[], &input).unwrap();
    assert_eq!(out, lines(&["package main", "", "import x \"a.b/c\"", "", "func main() {}"]));
}

#[test]
fn unterminated_block_is_accepted() {
    let input = lines(&["package main", "", "import (", "\t\"fmt\""]);
    let out = run_once(&[], &input).unwrap();
    assert_eq!(out, lines(&["package main", "", "import \"fmt\"", ""]));
}

#[test]
fn file_too_short_for_the_slot_gains_imports_at_the_end() {
    let input = lines(&["package x", "import \"a\""]);
    let once = run_once(&[], &input).unwrap();
    assert_eq!(once, lines(&["package x", "import \"a\"", ""]));
    let twice = run_once(&[], &once).unwrap();
    assert_eq!(twice, lines(&["package x", "", "import \"a\"", ""]));
    let thrice = run_once(&[], &twice).unwrap();
    assert_eq!(thrice, twice);
}

#[test]
fn content_outside_imports_is_preserved() {
    let input = lines(&[
        "// Copyright header",
        "package main",
        "",
        "import (",
        "\t\"os\"",
        ")",
        "",
        "func main() {",
        "\tos.Exit(0)  ",
        "}",
        "",
    ]);
    let out = run_once(&[], &input).unwrap();
    assert_eq!(
        out,
        lines(&[
            "// Copyright header",
            "package main",
            "",
            "import \"os\"",
            "",
            "func main() {",
            "\tos.Exit(0)  ",
            "}",
            "",
        ])
    );
}

#[test]
fn retained_lines_are_visible() {
    let input = lines(&["package main", "", "import \"fmt\"", "", "func main() {}"]);
    let is = ImportSorter::new(vec![]);
    let m = ImportMatcher::new();
    let gf = GoFile::read(is, &m, "main.go", &input).unwrap();
    assert_eq!(gf.lines(), &lines(&["package main", "", "", "func main() {}"]));
}
