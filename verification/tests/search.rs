use accio::parallel::search_files_parallel;
use accio::sequential::search_files_sequential;
use accio::tree::Node;

fn file(name: &str, path: &str) -> Node {
    Node::File { name: name.to_string(), path: path.to_string() }
}

fn dir(path: &str, children: Vec<Node>) -> Node {
    Node::Dir { path: path.to_string(), listing: Some(children) }
}

fn locked(path: &str) -> Node {
    Node::Dir { path: path.to_string(), listing: None }
}

fn strings(paths: &[&str]) -> Vec<String> {
    paths.iter().map(|p| p.to_string()).collect()
}

fn sorted(mut paths: Vec<String>) -> Vec<String> {
    paths.sort();
    paths
}

fn sample_tree() -> Node {
    dir(
        "root",
        vec![
            file("a.txt", "root/a.txt"),
            dir(
                "root/sub",
                vec![
                    file("A.TXT", "root/sub/A.TXT"),
                    dir("root/sub/sub2", vec![file("b.txt", "root/sub/sub2/b.txt")]),
                ],
            ),
        ],
    )
}

fn wide_tree() -> Node {
    dir(
        "top",
        vec![
            dir("top/one", vec![file("x", "top/one/x"), file("note", "top/one/note")]),
            file("NOTE", "top/NOTE"),
            dir(
                "top/two",
                vec![
                    dir("top/two/deep", vec![file("Note", "top/two/deep/Note")]),
                    file("note", "top/two/note"),
                ],
            ),
            file("note.txt", "top/note.txt"),
            dir("top/three", vec![]),
            file("nOtE", "top/nOtE"),
        ],
    )
}

#[test]
fn sequential_finds_both_spellings_in_preorder() {
    let report = search_files_sequential(&sample_tree(), "a.txt");
    assert_eq!(report.paths, strings(&["root/a.txt", "root/sub/A.TXT"]));
    assert_eq!(report.visited, 3);
}

#[test]
fn parallel_finds_both_spellings_in_any_order() {
    let report = search_files_parallel(&sample_tree(), "a.txt");
    assert_eq!(sorted(report.paths), strings(&["root/a.txt", "root/sub/A.TXT"]));
    assert_eq!(report.visited, 3);
}

#[test]
fn deep_file_is_found_by_both() {
    let sequential = search_files_sequential(&sample_tree(), "b.txt");
    assert_eq!(sequential.paths, strings(&["root/sub/sub2/b.txt"]));
    let parallel = search_files_parallel(&sample_tree(), "b.txt");
    assert_eq!(parallel.paths, strings(&["root/sub/sub2/b.txt"]));
}

#[test]
fn empty_root_counts_one_directory() {
    let root = dir("root", vec![]);
    let sequential = search_files_sequential(&root, "anything");
    assert!(sequential.paths.is_empty());
    assert_eq!(sequential.visited, 1);
    let parallel = search_files_parallel(&root, "anything");
    assert!(parallel.paths.is_empty());
    assert_eq!(parallel.visited, 1);
}

#[test]
fn files_come_before_subdirectories_at_each_level() {
    let report = search_files_sequential(&wide_tree(), "note");
    assert_eq!(
        report.paths,
        strings(&["top/NOTE", "top/nOtE", "top/one/note", "top/two/note", "top/two/deep/Note"])
    );
    assert_eq!(report.visited, 5);
}

#[test]
fn strategies_report_the_same_set() {
    for target in ["note", "x", "note.txt", "missing", ""] {
        let sequential = search_files_sequential(&wide_tree(), target);
        let parallel = search_files_parallel(&wide_tree(), target);
        assert_eq!(sorted(sequential.paths), sorted(parallel.paths));
        assert_eq!(sequential.visited, parallel.visited);
    }
}

#[test]
fn sequential_search_repeats_itself() {
    let tree = wide_tree();
    let first = search_files_sequential(&tree, "note");
    let second = search_files_sequential(&tree, "note");
    assert_eq!(first.paths, second.paths);
    assert_eq!(first.visited, second.visited);
}

#[test]
fn nothing_named_gives_empty_result() {
    let sequential = search_files_sequential(&wide_tree(), "absent.bin");
    assert!(sequential.paths.is_empty());
    assert_eq!(sequential.visited, 5);
    let parallel = search_files_parallel(&wide_tree(), "absent.bin");
    assert!(parallel.paths.is_empty());
    assert_eq!(parallel.visited, 5);
}

#[test]
fn directory_names_never_match() {
    let root = dir("r", vec![dir("r/note", vec![file("other", "r/note/other")])]);
    assert!(search_files_sequential(&root, "note").paths.is_empty());
    assert!(search_files_parallel(&root, "note").paths.is_empty());
}

#[test]
fn unreadable_subdirectory_hides_only_itself() {
    let root = dir(
        "r",
        vec![
            dir("r/a", vec![file("k", "r/a/k")]),
            locked("r/b"),
            file("K", "r/K"),
            dir("r/c", vec![locked("r/c/d"), file("k", "r/c/k")]),
        ],
    );
    let sequential = search_files_sequential(&root, "k");
    assert_eq!(sequential.paths, strings(&["r/K", "r/a/k", "r/c/k"]));
    assert_eq!(sequential.visited, 5);
    let parallel = search_files_parallel(&root, "k");
    assert_eq!(sorted(parallel.paths), strings(&["r/K", "r/a/k", "r/c/k"]));
    assert_eq!(parallel.visited, 5);
}

#[test]
fn unreadable_root_gives_nothing() {
    let root = locked("r");
    let sequential = search_files_sequential(&root, "k");
    assert!(sequential.paths.is_empty());
    assert_eq!(sequential.visited, 1);
    let parallel = search_files_parallel(&root, "k");
    assert!(parallel.paths.is_empty());
    assert_eq!(parallel.visited, 1);
}

#[test]
fn root_that_is_a_file_gives_nothing() {
    let root = file("k", "k");
    let sequential = search_files_sequential(&root, "k");
    assert!(sequential.paths.is_empty());
    assert_eq!(sequential.visited, 0);
    let parallel = search_files_parallel(&root, "k");
    assert!(parallel.paths.is_empty());
    assert_eq!(parallel.visited, 0);
}

#[test]
fn file_present_once_is_reported_once() {
    let sequential = search_files_sequential(&wide_tree(), "x");
    assert_eq!(sequential.paths, strings(&["top/one/x"]));
    let parallel = search_files_parallel(&wide_tree(), "x");
    assert_eq!(parallel.paths, strings(&["top/one/x"]));
}

#[test]
fn every_listed_copy_is_reported() {
    let root = dir("r", vec![file("k", "r/k"), file("K", "r/k"), dir("r/s", vec![file("k", "r/k")])]);
    let sequential = search_files_sequential(&root, "k");
    assert_eq!(sequential.paths, strings(&["r/k", "r/k", "r/k"]));
    let parallel = search_files_parallel(&root, "k");
    assert_eq!(parallel.paths, strings(&["r/k", "r/k", "r/k"]));
}

#[test]
fn parallel_search_handles_many_subdirectories() {
    let mut children = Vec::new();
    let mut expected = Vec::new();
    for i in 0..200 {
        let sub = format!("big/d{:03}", i);
        let hit = format!("{}/Goal", sub);
        let mut inner = vec![file("noise", &format!("{}/noise", sub))];
        if i % 3 == 0 {
            inner.push(file("Goal", &hit));
            expected.push(hit);
        }
        children.push(dir(&sub, inner));
    }
    let root = dir("big", children);
    let sequential = search_files_sequential(&root, "goal");
    assert_eq!(sequential.paths, expected);
    assert_eq!(sequential.visited, 201);
    let parallel = search_files_parallel(&root, "GOAL");
    assert_eq!(sorted(parallel.paths), expected);
    assert_eq!(parallel.visited, 201);
}
