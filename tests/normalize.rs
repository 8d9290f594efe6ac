use realpath::normalize::{make_absolute, render_path, strip_rel};
use realpath::output::{print_results, print_results_real, NEWLINE, NUL};

fn norm(p: &str) -> String {
    String::from_utf8(strip_rel(p.as_bytes())).unwrap()
}

fn abs(p: &str, cwd: &str) -> String {
    String::from_utf8(make_absolute(p.as_bytes(), cwd.as_bytes())).unwrap()
}

#[test]
fn cur_dir_segments_are_dropped() {
    assert_eq!(norm("/a/./b"), "/a/b");
    assert_eq!(norm("/./a/./././b/."), "/a/b");
    assert_eq!(norm("/c/./b/./a"), "/c/b/a");
}

#[test]
fn parent_dir_at_root_stays_at_root() {
    assert_eq!(norm("/../../etc"), "/etc");
    assert_eq!(norm("/.."), "/");
    assert_eq!(norm("/a/../../.."), "/");
}

#[test]
fn parent_dir_removes_previous_segment() {
    assert_eq!(norm("/a/b/../c"), "/a/c");
    assert_eq!(norm("/a/b/c/../../d"), "/a/d");
}

#[test]
fn empty_segments_and_trailing_separator() {
    assert_eq!(norm("//a//b/"), "/a/b");
    assert_eq!(norm("/"), "/");
}

#[test]
fn relative_paths_stay_relative() {
    assert_eq!(norm("a/../b"), "b");
    assert_eq!(norm("../a"), "a");
    assert_eq!(norm("./a/b"), "a/b");
    assert_eq!(norm(""), "");
    assert_eq!(norm("a/.."), "");
}

#[test]
fn names_that_look_like_markers_are_kept() {
    assert_eq!(norm("/.a/..b/.../c."), "/.a/..b/.../c.");
}

#[test]
fn normal_form_is_unchanged() {
    for p in ["/", "/a", "/a/b/c", "/.x/y..", "/usr/local/bin"] {
        assert_eq!(norm(p), p);
    }
}

#[test]
fn normalizing_twice_equals_once() {
    for p in ["/a/./b/../c//", "x/../../y/./z", "/../..", "", ".", "a//b/.."] {
        let once = norm(p);
        assert_eq!(norm(&once), once);
    }
}

#[test]
fn relative_inputs_are_anchored_at_working_directory() {
    assert_eq!(abs("./foo", "/home/u"), "/home/u/foo");
    // `..` takes away the segment before it, so `bar` goes.
    assert_eq!(abs("/bar/../baz", "/home/u"), "/baz");
}

#[test]
fn anchoring_handles_parents_and_trailing_separators() {
    assert_eq!(abs("../v/w", "/home/u/"), "/home/v/w");
    assert_eq!(abs("", "/home/u"), "/home/u");
    assert_eq!(abs("../../../..", "/home/u"), "/");
}

#[test]
fn strip_output_is_the_normal_form_even_for_link_names() {
    // No filesystem is consulted: a component named like a link stays put.
    assert_eq!(abs("link/../link/./target", "/tmp/work"), "/tmp/work/link/target");
}

#[test]
fn render_root_and_relative_empty() {
    let none: Vec<Vec<u8>> = Vec::new();
    assert_eq!(render_path(true, &none), b"/".to_vec());
    assert_eq!(render_path(false, &none), Vec::<u8>::new());
    let segs = vec![b"a".to_vec(), b"b".to_vec()];
    assert_eq!(render_path(true, &segs), b"/a/b".to_vec());
    assert_eq!(render_path(false, &segs), b"a/b".to_vec());
}

#[test]
fn newline_separated_records() {
    let paths = vec![b"/a".to_vec(), b"/b/c".to_vec()];
    assert_eq!(print_results(&paths, false), b"/a\n/b/c\n".to_vec());
}

#[test]
fn zero_separated_records() {
    let paths = vec![b"/a".to_vec(), b"/b/c".to_vec()];
    let out = print_results(&paths, true);
    assert_eq!(out, b"/a\0/b/c\0".to_vec());
    assert!(!out.contains(&b'\n'));
}

#[test]
fn no_paths_no_output() {
    let paths: Vec<Vec<u8>> = Vec::new();
    assert!(print_results(&paths, true).is_empty());
    assert!(print_results(&paths, false).is_empty());
}

#[test]
fn records_with_explicit_terminator() {
    let paths = vec![b"/".to_vec()];
    assert_eq!(print_results_real(&paths, NUL), vec![b'/', 0]);
    assert_eq!(print_results_real(&paths, NEWLINE), vec![b'/', b'\n']);
    assert_eq!(print_results_real(&paths, b';'), b"/;".to_vec());
}
