//! Depth-first search of a tree on one thread.

use crate::listing::file_hits;
use crate::tree::{
    collect_file_hits, entries_of, found, found_below, models_of, visits, visits_below, Node, Tree,
};
use vstd::prelude::*;

verus! {

/// What a finished search hands back.
pub struct SearchReport {
    /// The full paths of the matching files.
    pub paths: Vec<String>,
    /// The number of directories visited; the count stops at `u64::MAX`.
    pub visited: u64,
}

/// A directory count as a `u64` counter holds it.
pub open spec fn capped(count: int) -> int {
    if count <= u64::MAX {
        count
    } else {
        u64::MAX as int
    }
}

/// What the sequential search of `tree` reports: the paths in depth-first
/// order, and the directory count.
pub open spec fn reports_in_order(report: SearchReport, tree: Tree, target: Seq<char>) -> bool {
    &&& report.paths.deep_view() == found(tree, target)
    &&& report.visited == capped(visits(tree) as int)
}

/// Counts one more visited directory.
pub fn count_visit(visited: &mut u64)
    ensures
        *final(visited) == capped(*old(visited) + 1),
{
    if *visited < u64::MAX {
        *visited = *visited + 1;
    }
}

/// Searches the tree under `node` depth first and appends what it finds to
/// `results`: at each readable directory first its own matching files, then
/// what its subdirectories hold, all in listing order. `visited` goes up by one
/// for every directory met. A directory that could not be read adds no path.
pub fn visit_sequential(node: &Node, target: &str, results: &mut Vec<String>, visited: &mut u64)
    ensures
        final(results).deep_view() == old(results).deep_view() + found(node@, target@),
        *final(visited) == capped(*old(visited) + visits(node@)),
    decreases node,
{
    let ghost results_before = results.deep_view();
    let ghost visited_before = *visited;
    match node {
        Node::File { .. } => {
            assert(results.deep_view() == results_before + found(node@, target@));
        },
        Node::Dir { listing: None, .. } => {
            count_visit(visited);
            assert(results.deep_view() == results_before + found(node@, target@));
        },
        Node::Dir { listing: Some(children), .. } => {
            let ghost kids = node@->listing.unwrap();
            let ghost shown = entries_of(kids);
            proof {
                node.lemma_view_of_listing();
            }
            count_visit(visited);
            collect_file_hits(children, target, results);
            assert(models_of(children@) == kids);
            let ghost own = results_before + file_hits(shown, target@);
            let mut j: usize = 0;
            while j < children.len()
                invariant
                    0 <= j <= children.len(),
                    kids.len() == children.len(),
                    forall|k: int| 0 <= k < children.len() ==> kids[k] == #[trigger] children[k]@,
                    forall|k: int|
                        0 <= k < children.len() ==> decreases_to!(node => #[trigger] children[k]),
                    results.deep_view() == own + found_below(kids.take(j as int), target@),
                    *visited == capped(visited_before + 1 + visits_below(kids.take(j as int))),
                decreases children.len() - j,
            {
                proof {
                    assert(kids.take(j + 1).drop_last() == kids.take(j as int));
                    assert(kids.take(j + 1).last() == children[j as int]@);
                }
                let ghost so_far = found_below(kids.take(j as int), target@);
                let ghost below = found(children[j as int]@, target@);
                match &children[j] {
                    Node::File { .. } => {},
                    Node::Dir { .. } => {
                        visit_sequential(&children[j], target, results, visited);
                    },
                }
                assert(results.deep_view() == own + (so_far + below));
                assert(visits_below(kids.take(j + 1)) == visits_below(kids.take(j as int)) + visits(
                    children[j as int]@,
                ));
                j = j + 1;
            }
            assert(kids.take(j as int) == kids);
        },
    }
}

/// Searches the tree under `root` for files named `target`, ASCII letter case
/// aside, and reports their paths in depth-first order with the number of
/// directories visited.
pub fn search_files_sequential(root: &Node, target: &str) -> (report: SearchReport)
    ensures
        reports_in_order(report, root@, target@),
{
    let mut paths: Vec<String> = Vec::new();
    let mut visited: u64 = 0;
    visit_sequential(root, target, &mut paths, &mut visited);
    SearchReport { paths, visited }
}

} // verus!
