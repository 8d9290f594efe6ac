use realpath::resolve::{Action, Probe, ResolveError, Resolver, MAX_DEPTH};
use std::collections::HashMap;

enum Entry {
    Plain,
    Link(&'static str),
    Unreadable,
}

struct Outcome {
    result: Result<String, ResolveError>,
    inspected: Vec<String>,
}

fn run(fs: &HashMap<&str, Entry>, path: &str, max_depth: usize) -> Outcome {
    let mut r = Resolver::new(path.as_bytes(), max_depth);
    let mut inspected = Vec::new();
    loop {
        match r.next_action() {
            Action::Finished(p) => {
                return Outcome { result: Ok(String::from_utf8(p).unwrap()), inspected };
            }
            Action::Failed(e) => return Outcome { result: Err(e), inspected },
            Action::Inspect(p) => {
                let p = String::from_utf8(p).unwrap();
                let probe = match fs.get(p.as_str()) {
                    None => Probe::MetadataFailed,
                    Some(Entry::Plain) => Probe::NotLink,
                    Some(Entry::Link(t)) => Probe::Link(t.as_bytes().to_vec()),
                    Some(Entry::Unreadable) => Probe::ReadLinkFailed,
                };
                inspected.push(p);
                r.feed(probe);
            }
        }
    }
}

fn tree(entries: Vec<(&'static str, Entry)>) -> HashMap<&'static str, Entry> {
    entries.into_iter().collect()
}

#[test]
fn chain_of_links_reaches_the_real_file() {
    let fs = tree(vec![
        ("/d", Entry::Plain),
        ("/d/a", Entry::Link("b")),
        ("/d/b", Entry::Link("c")),
        ("/d/c", Entry::Link("realfile")),
        ("/d/realfile", Entry::Plain),
    ]);
    let out = run(&fs, "/d/a", MAX_DEPTH);
    assert_eq!(out.result, Ok("/d/realfile".to_string()));
    assert_eq!(out.inspected, vec!["/d", "/d/a", "/d/b", "/d/c", "/d/realfile"]);
}

#[test]
fn cycle_of_links_exceeds_depth() {
    let fs = tree(vec![
        ("/d", Entry::Plain),
        ("/d/a", Entry::Link("b")),
        ("/d/b", Entry::Link("a")),
    ]);
    let out = run(&fs, "/d/a", 5);
    assert_eq!(out.result, Err(ResolveError::DepthExceeded));
    // One question for `/d`, then one per allowed dereference of `a`.
    assert_eq!(out.inspected.len(), 6);
}

#[test]
fn self_link_exceeds_default_depth() {
    let fs = tree(vec![("/loop", Entry::Link("/loop"))]);
    let out = run(&fs, "/loop", MAX_DEPTH);
    assert_eq!(out.result, Err(ResolveError::DepthExceeded));
    assert_eq!(out.inspected.len(), MAX_DEPTH);
}

#[test]
fn zero_depth_allows_no_question() {
    let fs = tree(vec![("/a", Entry::Plain)]);
    let out = run(&fs, "/a", 0);
    assert_eq!(out.result, Err(ResolveError::DepthExceeded));
    assert!(out.inspected.is_empty());
}

#[test]
fn relative_target_is_taken_from_the_links_directory() {
    let fs = tree(vec![
        ("/x", Entry::Plain),
        ("/x/l", Entry::Link("../y/./f")),
        ("/y", Entry::Plain),
        ("/y/f", Entry::Plain),
    ]);
    let out = run(&fs, "/x/l", MAX_DEPTH);
    assert_eq!(out.result, Ok("/y/f".to_string()));
    assert_eq!(out.inspected[2], "/y/f");
}

#[test]
fn absolute_target_discards_the_prefix() {
    let fs = tree(vec![
        ("/p", Entry::Plain),
        ("/p/q", Entry::Plain),
        ("/p/q/l", Entry::Link("/t/../u")),
        ("/u", Entry::Plain),
        ("/u/rest", Entry::Plain),
    ]);
    let out = run(&fs, "/p/q/l/rest", MAX_DEPTH);
    assert_eq!(out.result, Ok("/u/rest".to_string()));
}

#[test]
fn link_in_the_middle_of_a_path() {
    let fs = tree(vec![
        ("/usr", Entry::Plain),
        ("/usr/lib", Entry::Link("lib64")),
        ("/usr/lib64", Entry::Plain),
        ("/usr/lib64/x.so", Entry::Plain),
    ]);
    let out = run(&fs, "/usr/lib/x.so", MAX_DEPTH);
    assert_eq!(out.result, Ok("/usr/lib64/x.so".to_string()));
}

#[test]
fn missing_component_fails_on_metadata() {
    let fs = tree(vec![("/a", Entry::Plain)]);
    let out = run(&fs, "/a/missing/b", MAX_DEPTH);
    assert_eq!(out.result, Err(ResolveError::Metadata));
    assert_eq!(out.inspected, vec!["/a", "/a/missing"]);
}

#[test]
fn unreadable_link_fails_on_read_link() {
    let fs = tree(vec![("/a", Entry::Unreadable)]);
    let out = run(&fs, "/a", MAX_DEPTH);
    assert_eq!(out.result, Err(ResolveError::ReadLink));
}

#[test]
fn root_resolves_without_questions() {
    let fs = tree(vec![]);
    let out = run(&fs, "/", MAX_DEPTH);
    assert_eq!(out.result, Ok("/".to_string()));
    assert!(out.inspected.is_empty());
}

#[test]
fn input_is_normalized_before_resolution() {
    let fs = tree(vec![("/a", Entry::Plain), ("/a/b", Entry::Plain)]);
    let out = run(&fs, "/x/../a/./b/", MAX_DEPTH);
    assert_eq!(out.result, Ok("/a/b".to_string()));
    assert_eq!(out.inspected, vec!["/a", "/a/b"]);
}
