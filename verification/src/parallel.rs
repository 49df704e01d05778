//! Search of a tree with the subdirectories of each directory handed to a
//! fork-join thread pool.

use crate::listing::file_hits;
use crate::sequential::{capped, count_visit, SearchReport};
use crate::tree::{
    collect_file_hits, dirs_among, entries_of, found, found_below, lemma_only_dirs_count, visits,
    visits_below, Node, Tree,
};
use rayon::iter::{IntoParallelRefIterator, ParallelIterator};
use vstd::prelude::*;

verus! {

/// Applies `op` to every item on rayon's thread pool and returns the results
/// once all of them are there: `par_iter`, `map` and `collect` of rayon.
///
/// Trusted: that `op` is run on each item of the vector, and that `collect`
/// puts the result for the item at index `i` at index `i` of the new vector.
#[verifier::external_body]
fn par_map<T: Sync, R: Send, F: Fn(&T) -> R + Sync + Send>(items: &Vec<T>, op: F) -> (out: Vec<R>)
    requires
        forall|i: int| 0 <= i < items.len() ==> call_requires(op, (#[trigger] &items[i],)),
    ensures
        out.len() == items.len(),
        forall|i: int| 0 <= i < items.len() ==> call_ensures(op, (&items[i],), #[trigger] out[i]),
{
    items.par_iter().map(op).collect()
}

/// What a search from `tree` may report: the paths of the depth-first search
/// in any order, and its directory count.
pub open spec fn reports_in_any_order(report: SearchReport, tree: Tree, target: Seq<char>) -> bool {
    &&& report.paths.deep_view().to_multiset() == found(tree, target).to_multiset()
    &&& report.visited == capped(visits(tree) as int)
}

/// Searches the tree under `root` for files named `target`, ASCII letter case
/// aside, with one task for each subdirectory of each directory. It
/// returns when every subtree has been searched. The report holds the paths
/// that the sequential search finds, each as often, in no promised order.
pub fn search_files_parallel(root: &Node, target: &str) -> (report: SearchReport)
    ensures
        reports_in_any_order(report, root@, target@),
    decreases root,
{
    let mut paths: Vec<String> = Vec::new();
    let mut visited: u64 = 0;
    match root {
        Node::File { .. } => {
            assert(paths.deep_view() == found(root@, target@));
        },
        Node::Dir { listing: None, .. } => {
            count_visit(&mut visited);
            assert(paths.deep_view() == found(root@, target@));
        },
        Node::Dir { listing: Some(children), .. } => {
            let ghost kids = root@->listing.unwrap();
            proof {
                root.lemma_view_of_listing();
            }
            count_visit(&mut visited);
            collect_file_hits(children, target, &mut paths);
            let mut subdirs: Vec<&Node> = Vec::new();
            let mut i: usize = 0;
            while i < children.len()
                invariant
                    0 <= i <= children.len(),
                    kids.len() == children.len(),
                    forall|k: int| 0 <= k < children.len() ==> kids[k] == #[trigger] children[k]@,
                    forall|k: int|
                        0 <= k < children.len() ==> decreases_to!(root => #[trigger] children[k]),
                    subdirs.len() == dirs_among(kids.take(i as int)).len(),
                    forall|k: int|
                        0 <= k < subdirs.len() ==> (#[trigger] subdirs[k])@ == dirs_among(
                            kids.take(i as int),
                        )[k],
                    forall|k: int|
                        0 <= k < subdirs.len() ==> decreases_to!(root => *#[trigger] subdirs[k]),
                decreases children.len() - i,
            {
                proof {
                    assert(kids.take(i + 1).drop_last() == kids.take(i as int));
                    assert(kids.take(i + 1).last() == children[i as int]@);
                }
                match &children[i] {
                    Node::File { .. } => {},
                    Node::Dir { .. } => {
                        subdirs.push(&children[i]);
                    },
                }
                i = i + 1;
            }
            let ghost dirs = dirs_among(kids);
            assert(kids.take(i as int) == kids);
            let search_child = |child: &&Node| -> (part: SearchReport)
                requires
                    decreases_to!(root => **child),
                ensures
                    reports_in_any_order(part, child@, target@),
                { search_files_parallel(*child, target) };
            let parts = par_map(&subdirs, search_child);
            let ghost own = paths.deep_view();
            let ghost all_parts = parts@;
            assert(forall|k: int|
                0 <= k < dirs.len() ==> reports_in_any_order(
                    #[trigger] all_parts[k],
                    dirs[k],
                    target@,
                ));
            proof {
                let nothing = found_below(dirs.take(0), target@);
                assert(own + nothing == own);
                vstd::seq_lib::lemma_multiset_commutative(own, nothing);
            }
            for part in it: parts
                invariant
                    it.seq() == all_parts,
                    all_parts.len() == dirs.len(),
                    forall|k: int|
                        0 <= k < dirs.len() ==> reports_in_any_order(
                            #[trigger] all_parts[k],
                            dirs[k],
                            target@,
                        ),
                    paths.deep_view().to_multiset() == own.to_multiset().add(
                        found_below(dirs.take(it.index() as int), target@).to_multiset(),
                    ),
                    visited == capped(1 + visits_below(dirs.take(it.index() as int)) as int),
            {
                let ghost k = it.index() as int;
                let ghost merged = paths.deep_view();
                let ghost so_far = found_below(dirs.take(k), target@);
                let mut part = part;
                proof {
                    assert(dirs.take(k + 1).drop_last() == dirs.take(k));
                    assert(dirs.take(k + 1).last() == dirs[k]);
                    assert(reports_in_any_order(all_parts[k], dirs[k], target@));
                }
                let ghost added = part.paths.deep_view();
                paths.append(&mut part.paths);
                if part.visited <= u64::MAX - visited {
                    visited = visited + part.visited;
                } else {
                    visited = u64::MAX;
                }
                proof {
                    assert(paths.deep_view() == merged + added);
                    vstd::seq_lib::lemma_multiset_commutative(merged, added);
                    vstd::seq_lib::lemma_multiset_commutative(so_far, found(dirs[k], target@));
                    assert(paths.deep_view().to_multiset() =~= own.to_multiset().add(
                        found_below(dirs.take(k + 1), target@).to_multiset(),
                    ));
                }
            }
            proof {
                assert(dirs.take(dirs.len() as int) == dirs);
                lemma_only_dirs_count(kids, target@);
                assert(own == file_hits(entries_of(kids), target@));
                vstd::seq_lib::lemma_multiset_commutative(
                    file_hits(entries_of(kids), target@),
                    found_below(kids, target@),
                );
            }
        },
    }
    SearchReport { paths, visited }
}

} // verus!
