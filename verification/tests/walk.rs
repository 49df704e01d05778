use accio::listing::Entry;
use accio::sequential::{search_files_sequential, SearchReport};
use accio::tracking::read_listing;
use accio::tree::Node;
use accio::walk::Walk;

fn file(name: &str, path: &str) -> Node {
    Node::File { name: name.to_string(), path: path.to_string() }
}

fn dir(path: &str, children: Vec<Node>) -> Node {
    Node::Dir { path: path.to_string(), listing: Some(children) }
}

fn locked(path: &str) -> Node {
    Node::Dir { path: path.to_string(), listing: None }
}

fn sample_tree() -> Node {
    dir(
        "root",
        vec![
            file("a.txt", "root/a.txt"),
            dir(
                "root/sub",
                vec![
                    file("A.TXT", "root/sub/A.TXT"),
                    dir("root/sub/sub2", vec![file("b.txt", "root/sub/sub2/b.txt")]),
                ],
            ),
            dir("root/tail", vec![file("a.txt", "root/tail/a.txt"), locked("root/tail/no")]),
        ],
    )
}

fn walk_over(root: &Node, root_path: &str, target: &str) -> (SearchReport, Vec<String>) {
    let mut walk = Walk::new(root_path.to_string(), target.to_string());
    let mut todo: Vec<&Node> = vec![root];
    let mut order = Vec::new();
    while let Some(next) = walk.next_directory() {
        order.push(next.clone());
        let node = todo.pop().unwrap();
        if let Node::Dir { listing: Some(children), .. } = node {
            for child in children.iter().rev() {
                if let Node::Dir { .. } = child {
                    todo.push(child);
                }
            }
        }
        walk.absorb(read_listing(node));
    }
    (walk.finish(), order)
}

#[test]
fn walk_finds_what_the_recursive_search_finds() {
    let tree = sample_tree();
    for target in ["a.txt", "b.txt", "none", "A.TXT"] {
        let (walked, _) = walk_over(&tree, "root", target);
        let searched = search_files_sequential(&tree, target);
        assert_eq!(walked.paths, searched.paths);
        assert_eq!(walked.visited, searched.visited);
    }
}

#[test]
fn walk_reports_in_preorder() {
    let (report, order) = walk_over(&sample_tree(), "root", "a.txt");
    assert_eq!(
        report.paths,
        vec!["root/a.txt".to_string(), "root/sub/A.TXT".to_string(), "root/tail/a.txt".to_string()]
    );
    assert_eq!(report.visited, 5);
    assert_eq!(
        order,
        vec![
            "root".to_string(),
            "root/sub".to_string(),
            "root/sub/sub2".to_string(),
            "root/tail".to_string(),
            "root/tail/no".to_string(),
        ]
    );
}

#[test]
fn walk_of_empty_root_visits_one_directory() {
    let mut walk = Walk::new("root".to_string(), "x".to_string());
    assert_eq!(walk.next_directory(), Some(&"root".to_string()));
    walk.absorb(Some(Vec::new()));
    assert_eq!(walk.next_directory(), None);
    let report = walk.finish();
    assert!(report.paths.is_empty());
    assert_eq!(report.visited, 1);
}

#[test]
fn walk_survives_unreadable_root() {
    let mut walk = Walk::new("gone".to_string(), "x".to_string());
    walk.absorb(None);
    assert_eq!(walk.next_directory(), None);
    let report = walk.finish();
    assert!(report.paths.is_empty());
    assert_eq!(report.visited, 1);
}

#[test]
fn walk_ignores_listings_when_nothing_is_pending() {
    let mut walk = Walk::new("r".to_string(), "x".to_string());
    walk.absorb(Some(vec![Entry::File { name: "X".to_string(), path: "r/X".to_string() }]));
    assert_eq!(walk.next_directory(), None);
    walk.absorb(Some(vec![
        Entry::File { name: "x".to_string(), path: "late/x".to_string() },
        Entry::Dir { path: "late/d".to_string() },
    ]));
    walk.absorb(None);
    assert_eq!(walk.next_directory(), None);
    let report = walk.finish();
    assert_eq!(report.paths, vec!["r/X".to_string()]);
    assert_eq!(report.visited, 1);
}

#[test]
fn walk_takes_first_subdirectory_first() {
    let mut walk = Walk::new("r".to_string(), "x".to_string());
    walk.absorb(Some(vec![
        Entry::Dir { path: "r/1".to_string() },
        Entry::File { name: "x".to_string(), path: "r/x".to_string() },
        Entry::Dir { path: "r/2".to_string() },
    ]));
    assert_eq!(walk.next_directory(), Some(&"r/1".to_string()));
    walk.absorb(Some(vec![Entry::Dir { path: "r/1/in".to_string() }]));
    assert_eq!(walk.next_directory(), Some(&"r/1/in".to_string()));
    walk.absorb(None);
    assert_eq!(walk.next_directory(), Some(&"r/2".to_string()));
    walk.absorb(Some(vec![Entry::File { name: "X".to_string(), path: "r/2/X".to_string() }]));
    assert_eq!(walk.next_directory(), None);
    let report = walk.finish();
    assert_eq!(report.paths, vec!["r/x".to_string(), "r/2/X".to_string()]);
    assert_eq!(report.visited, 4);
}

#[test]
fn read_listing_shows_children_in_order() {
    let tree = sample_tree();
    let listing = read_listing(&tree).unwrap();
    assert_eq!(listing.len(), 3);
    assert!(matches!(&listing[0], Entry::File { name, path } if name == "a.txt" && path == "root/a.txt"));
    assert!(matches!(&listing[1], Entry::Dir { path } if path == "root/sub"));
    assert!(matches!(&listing[2], Entry::Dir { path } if path == "root/tail"));
    assert!(read_listing(&locked("no")).is_none());
    assert!(read_listing(&file("f", "f")).is_none());
}
