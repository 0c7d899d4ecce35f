use fgoi::{Import, ImportSorter};

fn named(name: &str, url: &str) -> Import {
    Import { name: Some(name.to_string()), url: url.to_string() }
}

fn bare(url: &str) -> Import {
    Import { name: None, url: url.to_string() }
}

#[test]
fn test_is_custom() {
    let ps = vec!["github.com/ae".to_string(), "github.com/S1".to_string()];
    let mut is = ImportSorter::new(ps);

    is.insert(named("hurpcoerc", "github.com/S1/prchu"));
    is.insert(bare("github.com/S1/hrechu"));
    is.insert(named("alices", "github.com/alice/very_project"));

    is.sort();

    let s1_imports = is.custom_bucket("github.com/S1").unwrap();
    assert_eq!(
        s1_imports,
        &vec![bare("github.com/S1/hrechu"), named("hurpcoerc", "github.com/S1/prchu")]
    );
    assert_eq!(is.imports_count(), 3);
    assert_eq!(is.third_party_bucket().len(), 1);
    assert_eq!(
        is.get_single_count(),
        Some(&named("alices", "github.com/alice/very_project"))
    );
}

#[test]
fn core_bucket_takes_paths_without_domain_shape() {
    let mut is = ImportSorter::new(vec![]);
    is.insert(bare("fmt"));
    is.insert(bare("net/http"));
    is.insert(bare("strings.builder"));
    assert_eq!(is.core_bucket().len(), 3);
    assert_eq!(is.third_party_bucket().len(), 0);
    assert_eq!(is.imports_count(), 3);
}

#[test]
fn third_party_takes_unmatched_domain_paths() {
    let mut is = ImportSorter::new(vec!["github.com/org".to_string()]);
    is.insert(bare("gitlab.com/other/pkg"));
    assert_eq!(is.third_party_bucket().len(), 1);
    assert_eq!(is.custom_bucket("github.com/org").unwrap().len(), 0);
}

#[test]
fn longest_matching_prefix_wins() {
    let mut is = ImportSorter::new(vec![
        "github.com/org".to_string(),
        "github.com/org/special".to_string(),
    ]);
    is.insert(bare("github.com/org/special/thing"));
    is.insert(bare("github.com/org/common"));
    assert_eq!(is.custom_bucket("github.com/org").unwrap().len(), 1);
    assert_eq!(is.custom_bucket("github.com/org/special").unwrap().len(), 1);
    assert_eq!(
        is.custom_bucket("github.com/org/special").unwrap()[0],
        bare("github.com/org/special/thing")
    );
}

#[test]
fn duplicate_prefixes_collapse_to_one_bucket() {
    let mut is = ImportSorter::new(vec![
        "a.b/c".to_string(),
        "x.y/z".to_string(),
        "a.b/c".to_string(),
    ]);
    is.insert(bare("a.b/c/p"));
    assert_eq!(is.iter().len(), 4);
    assert_eq!(is.custom_bucket("a.b/c").unwrap(), &vec![bare("a.b/c/p")]);
    assert_eq!(is.custom_bucket("x.y/z").unwrap().len(), 0);
    assert_eq!(is.imports_count(), 1);
    assert_eq!(is.get_single_count(), Some(&bare("a.b/c/p")));
}

#[test]
fn sort_orders_each_bucket_by_url() {
    let mut is = ImportSorter::new(vec![]);
    is.insert(bare("os"));
    is.insert(bare("fmt"));
    is.insert(bare("errors"));
    is.sort();
    let core = is.core_bucket();
    assert_eq!(core[0], bare("errors"));
    assert_eq!(core[1], bare("fmt"));
    assert_eq!(core[2], bare("os"));
}

#[test]
fn sort_keeps_encounter_order_of_equal_urls() {
    let mut is = ImportSorter::new(vec![]);
    is.insert(named("x", "dup"));
    is.insert(named("y", "dup"));
    is.sort();
    let core = is.core_bucket();
    assert_eq!(core[0], named("x", "dup"));
    assert_eq!(core[1], named("y", "dup"));
}

#[test]
fn sorting_twice_changes_nothing() {
    let mut is = ImportSorter::new(vec!["example.org/a".to_string()]);
    is.insert(bare("os"));
    is.insert(bare("fmt"));
    is.insert(bare("example.org/a/z"));
    is.insert(bare("example.org/a/b"));
    is.sort();
    let once_core = is.core_bucket().clone();
    let once_custom = is.custom_bucket("example.org/a").unwrap().clone();
    is.sort();
    assert_eq!(is.core_bucket(), &once_core);
    assert_eq!(is.custom_bucket("example.org/a").unwrap(), &once_custom);
}

#[test]
fn iter_yields_buckets_in_fixed_order() {
    let mut is = ImportSorter::new(vec!["a.b/c".to_string(), "d.e/f".to_string()]);
    is.insert(bare("fmt"));
    is.insert(bare("x.y/z"));
    is.insert(bare("a.b/c/p"));
    is.insert(bare("d.e/f/q"));
    let buckets = is.iter();
    assert_eq!(buckets.len(), 4);
    assert_eq!(buckets[0], &vec![bare("fmt")]);
    assert_eq!(buckets[1], &vec![bare("x.y/z")]);
    assert_eq!(buckets[2], &vec![bare("a.b/c/p")]);
    assert_eq!(buckets[3], &vec![bare("d.e/f/q")]);
}

#[test]
fn get_single_count_finds_first_lone_bucket() {
    let mut is = ImportSorter::new(vec![]);
    assert_eq!(is.get_single_count(), None);
    is.insert(bare("fmt"));
    assert_eq!(is.get_single_count(), Some(&bare("fmt")));
    is.insert(bare("os"));
    assert_eq!(is.get_single_count(), None);
}
