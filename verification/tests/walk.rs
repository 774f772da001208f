use ox_system::files::File;
use ox_system::files::RawEntry;
use ox_system::walker::Walker;
use ox_system::walker::run_with_feed;

fn raw(name: &str, path: &str, is_dir: bool, size: u64) -> RawEntry {
    RawEntry { name: name.to_string(), path: path.to_string(), is_dir, size }
}

fn dir_entry(name: &str, path: &str) -> File {
    File::from_raw(&raw(name, path, true, 0))
}

/// Drives a walk against a simulated filesystem: a list of `(path,
/// listing)` pairs. A path that is not in the list reads as empty, the way
/// an unreadable directory does. Returns the finished forest and the paths
/// that were requested, in order.
fn drive(mut w: Walker, fs: &[(&str, Vec<(&str, &str, bool, u64)>)]) -> (Vec<File>, Vec<String>) {
    let mut requests: Vec<String> = Vec::new();
    while let Some(path) = w.next_request() {
        requests.push(path.clone());
        let listing = fs
            .iter()
            .find(|(p, _)| *p == path)
            .map(|(_, l)| l.iter().map(|(n, p, d, s)| raw(n, p, *d, *s)).collect())
            .unwrap_or_default();
        w.supply(listing);
    }
    (w.into_results(), requests)
}

fn chain_fs() -> Vec<(&'static str, Vec<(&'static str, &'static str, bool, u64)>)> {
    vec![
        ("/r", vec![("a", "/r/a", true, 0)]),
        ("/r/a", vec![("b", "/r/a/b", true, 0)]),
        ("/r/a/b", vec![("c", "/r/a/b/c", true, 0)]),
        ("/r/a/b/c", vec![]),
    ]
}

#[test]
fn expand_depth_one() {
    let w = Walker::new(vec![dir_entry("r", "/r")], 1);
    let (results, requests) = drive(w, &chain_fs());
    assert_eq!(requests, vec!["/r".to_string(), "/r/a".to_string()]);
    assert_eq!(results.len(), 1);
    let root = &results[0];
    let kids = root.children.as_ref().unwrap();
    assert_eq!(kids.len(), 1);
    assert_eq!(kids[0].name, "a");
    let a_kids = kids[0].children.as_ref().unwrap();
    assert_eq!(a_kids.len(), 1);
    assert_eq!(a_kids[0].name, "b");
    assert!(a_kids[0].children.is_none());
}

#[test]
fn expand_depth_two() {
    let w = Walker::new(vec![dir_entry("r", "/r")], 2);
    let (results, requests) = drive(w, &chain_fs());
    assert_eq!(
        requests,
        vec!["/r".to_string(), "/r/a".to_string(), "/r/a/b".to_string()]
    );
    let root = &results[0];
    let a = &root.children.as_ref().unwrap()[0];
    let b = &a.children.as_ref().unwrap()[0];
    assert_eq!(b.name, "b");
    let b_kids = b.children.as_ref().unwrap();
    assert_eq!(b_kids.len(), 1);
    assert_eq!(b_kids[0].name, "c");
    assert!(b_kids[0].children.is_none());
}

#[test]
fn expand_depth_zero_lists_once() {
    let fs = vec![(
        "/r",
        vec![("x", "/r/x", true, 0), ("y.rs", "/r/y.rs", false, 4)],
    )];
    let w = Walker::new(vec![dir_entry("r", "/r")], 0);
    let (results, requests) = drive(w, &fs);
    assert_eq!(requests, vec!["/r".to_string()]);
    let kids = results[0].children.as_ref().unwrap();
    assert_eq!(kids.len(), 2);
    assert_eq!(kids[0].name, "x");
    assert_eq!(kids[1].name, "y.rs");
    assert!(kids[0].children.is_none());
    assert!(kids[1].children.is_none());
}

#[test]
fn expand_non_directory_is_untouched() {
    let plain = File::from_raw(&raw("note.txt", "/note.txt", false, 9));
    let w = Walker::new(vec![plain], 3);
    let (results, requests) = drive(w, &[]);
    assert!(requests.is_empty());
    assert_eq!(results.len(), 1);
    assert_eq!(results[0].name, "note.txt");
    assert_eq!(results[0].size, 9);
    assert!(results[0].children.is_none());
}

#[test]
fn expand_unreadable_directory_gets_empty_children() {
    let w = Walker::new(vec![dir_entry("ghost", "/ghost")], 2);
    let (results, requests) = drive(w, &[]);
    assert_eq!(requests, vec!["/ghost".to_string()]);
    let kids = results[0].children.as_ref().unwrap();
    assert!(kids.is_empty());
}

#[test]
fn with_children_drives_single_entry() {
    let w = dir_entry("r", "/r").with_children(1);
    let (results, _) = drive(w, &chain_fs());
    assert_eq!(results.len(), 1);
    let a = &results[0].children.as_ref().unwrap()[0];
    assert_eq!(a.name, "a");
    assert!(a.children.is_some());
}

fn same_tree(a: &File, b: &File) -> bool {
    if a.name != b.name
        || a.path != b.path
        || a.file_type != b.file_type
        || a.is_dir != b.is_dir
        || a.size != b.size
    {
        return false;
    }
    match (&a.children, &b.children) {
        (None, None) => true,
        (Some(x), Some(y)) => {
            x.len() == y.len() && x.iter().zip(y.iter()).all(|(c, d)| same_tree(c, d))
        }
        _ => false,
    }
}

fn chain_feed() -> Vec<Vec<RawEntry>> {
    vec![
        vec![raw("a", "/r/a", true, 0)],
        vec![raw("b", "/r/a/b", true, 0)],
    ]
}

#[test]
fn rerunning_same_walk_reproduces_it() {
    let r1 = run_with_feed(vec![dir_entry("r", "/r")], 1, chain_feed());
    let r2 = run_with_feed(vec![dir_entry("r", "/r")], 1, chain_feed());
    assert_eq!(r1.len(), 1);
    assert!(same_tree(&r1[0], &r2[0]));
    assert_eq!(r1[0].render(), r2[0].render());
}

#[test]
fn exhausted_feed_reads_as_empty() {
    let results = run_with_feed(vec![dir_entry("r", "/r")], 5, vec![vec![raw("a", "/r/a", true, 0)]]);
    let a = &results[0].children.as_ref().unwrap()[0];
    assert_eq!(a.name, "a");
    let a_kids = a.children.as_ref().unwrap();
    assert!(a_kids.is_empty());
}

#[test]
fn expansion_preserves_meta_and_order() {
    let fs = vec![(
        "/r",
        vec![
            ("z.py", "/r/z.py", false, 3000),
            ("a", "/r/a", true, 0),
            (".gitignore", "/r/.gitignore", false, 12),
        ],
    )];
    let w = Walker::new(
        vec![dir_entry("r", "/r"), File::from_raw(&raw("solo", "/solo", false, 1))],
        1,
    );
    let (results, _) = drive(w, &fs);
    assert_eq!(results.len(), 2);
    assert_eq!(results[0].name, "r");
    assert!(results[0].is_dir);
    assert_eq!(results[1].name, "solo");
    let kids = results[0].children.as_ref().unwrap();
    assert_eq!(kids.len(), 3);
    assert_eq!(kids[0].name, "z.py");
    assert_eq!(kids[0].size, 3000);
    assert_eq!(kids[0].file_type, "py");
    assert_eq!(kids[1].name, "a");
    assert!(kids[1].children.is_some());
    assert_eq!(kids[2].name, ".gitignore");
    assert_eq!(kids[2].file_type, "");
}
