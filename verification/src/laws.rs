//! What holds of every search, whatever the tree and the target.

use crate::listing::{file_hits, is_hit, EntryView};
use crate::parallel::reports_in_any_order;
use crate::sequential::{reports_in_order, SearchReport};
use crate::tree::{entries_of, found, found_below, lemma_found_below_concat, Tree};
use vstd::prelude::*;

verus! {

/// The two strategies agree: for one tree and one target they report the same
/// set of paths, each path as often, and the same directory count.
pub proof fn lemma_strategies_agree(
    tree: Tree,
    target: Seq<char>,
    sequential: SearchReport,
    parallel: SearchReport,
)
    requires
        reports_in_order(sequential, tree, target),
        reports_in_any_order(parallel, tree, target),
    ensures
        sequential.paths.deep_view().to_set() == parallel.paths.deep_view().to_set(),
        sequential.paths.deep_view().to_multiset() == parallel.paths.deep_view().to_multiset(),
        sequential.paths.len() == parallel.paths.len(),
        sequential.visited == parallel.visited,
{
    broadcast use vstd::seq_lib::to_multiset_contains, vstd::seq_lib::to_multiset_len;

    let a = sequential.paths.deep_view();
    let b = parallel.paths.deep_view();
    assert forall|p: Seq<char>| a.to_set().contains(p) <==> b.to_set().contains(p) by {
        assert(a.contains(p) <==> a.to_multiset().count(p) > 0);
        assert(b.contains(p) <==> b.to_multiset().count(p) > 0);
    }
    assert(a.to_set() =~= b.to_set());
    assert(a.to_multiset().len() == a.len());
    assert(b.to_multiset().len() == b.len());
    assert(a.len() == sequential.paths.len());
    assert(b.len() == parallel.paths.len());
}

/// The sequential search is deterministic: two searches of one tree for one
/// target report the same paths in the same order, and the same count.
pub proof fn lemma_sequential_is_deterministic(
    tree: Tree,
    target: Seq<char>,
    first: SearchReport,
    second: SearchReport,
)
    requires
        reports_in_order(first, tree, target),
        reports_in_order(second, tree, target),
    ensures
        first.paths.deep_view() == second.paths.deep_view(),
        first.visited == second.visited,
{
}

/// Some file listed by a readable directory of the tree is named `target`,
/// ASCII letter case aside.
pub open spec fn holds_file_named(tree: Tree, target: Seq<char>) -> bool
    decreases tree,
{
    match tree {
        Tree::Dir { listing: Some(children), .. } => exists|i: int|
            0 <= i < children.len() && (is_hit(#[trigger] children[i].entry(), target)
                || holds_file_named(children[i], target)),
        _ => false,
    }
}

/// A listing without a hit yields no path.
pub proof fn lemma_no_hit_no_path(listing: Seq<EntryView>, target: Seq<char>)
    requires
        forall|i: int| 0 <= i < listing.len() ==> !is_hit(#[trigger] listing[i], target),
    ensures
        file_hits(listing, target) == Seq::<Seq<char>>::empty(),
    decreases listing.len(),
{
    if listing.len() > 0 {
        let front = listing.drop_last();
        assert forall|i: int| 0 <= i < front.len() implies !is_hit(#[trigger] front[i], target) by {
            assert(front[i] == listing[i]);
        }
        lemma_no_hit_no_path(front, target);
        assert(!is_hit(listing[listing.len() - 1], target));
    }
}

/// A tree that holds no file named `target` yields the empty sequence.
pub proof fn lemma_nothing_named_nothing_found(tree: Tree, target: Seq<char>)
    requires
        !holds_file_named(tree, target),
    ensures
        found(tree, target) == Seq::<Seq<char>>::empty(),
    decreases tree,
{
    match tree {
        Tree::Dir { listing: Some(children), .. } => {
            let shown = entries_of(children);
            assert forall|i: int| 0 <= i < shown.len() implies !is_hit(#[trigger] shown[i], target) by {
                assert(shown[i] == children[i].entry());
            }
            lemma_no_hit_no_path(shown, target);
            assert forall|i: int| 0 <= i < children.len() implies !holds_file_named(
                #[trigger] children[i],
                target,
            ) by {
                assert(!is_hit(children[i].entry(), target));
            }
            lemma_nothing_named_nothing_below(children, children.len() as int, target);
            assert(children.take(children.len() as int) == children);
            assert(found(tree, target) == file_hits(shown, target) + found_below(children, target));
        },
        _ => {},
    }
}

/// Where none of the first `n` subtrees holds a file named `target`, nothing
/// lies below them.
pub proof fn lemma_nothing_named_nothing_below(children: Seq<Tree>, n: int, target: Seq<char>)
    requires
        0 <= n <= children.len(),
        forall|i: int| 0 <= i < n ==> !holds_file_named(#[trigger] children[i], target),
    ensures
        found_below(children.take(n), target) == Seq::<Seq<char>>::empty(),
    decreases children, n,
{
    if n > 0 {
        let upto = children.take(n);
        assert(upto.drop_last() == children.take(n - 1));
        assert(upto.last() == children[n - 1]);
        lemma_nothing_named_nothing_below(children, n - 1, target);
        lemma_nothing_named_nothing_found(children[n - 1], target);
        assert(found_below(upto, target) == found_below(upto.drop_last(), target) + found(
            upto.last(),
            target,
        ));
    } else {
        assert(children.take(0).len() == 0);
    }
}

/// Searching a tree that holds no file named `target` reports no path, with
/// either strategy.
pub proof fn lemma_empty_result(
    tree: Tree,
    target: Seq<char>,
    sequential: SearchReport,
    parallel: SearchReport,
)
    requires
        !holds_file_named(tree, target),
        reports_in_order(sequential, tree, target),
        reports_in_any_order(parallel, tree, target),
    ensures
        sequential.paths.len() == 0,
        parallel.paths.len() == 0,
{
    lemma_nothing_named_nothing_found(tree, target);
    lemma_strategies_agree(tree, target, sequential, parallel);
    assert(sequential.paths.deep_view().len() == sequential.paths.len());
}

/// A subdirectory that cannot be read hides what lies below it and nothing
/// else: the search of its parent still reports the parent's own files and
/// all that lies below the other entries, with either strategy.
pub proof fn lemma_partial_failure_tolerance(
    path: Seq<char>,
    children: Seq<Tree>,
    k: int,
    target: Seq<char>,
    sequential: SearchReport,
    parallel: SearchReport,
)
    requires
        0 <= k < children.len(),
        children[k] is Dir,
        children[k]->listing is None,
        reports_in_order(sequential, Tree::Dir { path, listing: Some(children) }, target),
        reports_in_any_order(parallel, Tree::Dir { path, listing: Some(children) }, target),
    ensures
        sequential.paths.deep_view() == file_hits(entries_of(children), target) + found_below(
            children.take(k),
            target,
        ) + found_below(children.skip(k + 1), target),
        parallel.paths.deep_view().to_multiset() == sequential.paths.deep_view().to_multiset(),
{
    let before = children.take(k);
    let after = children.skip(k + 1);
    let unread = seq![children[k]];
    assert(children == before + unread + after);
    lemma_found_below_concat(before + unread, after, target);
    lemma_found_below_concat(before, unread, target);
    assert(unread.drop_last().len() == 0);
    assert(unread.last() == children[k]);
    assert(found_below(unread.drop_last(), target) == Seq::<Seq<char>>::empty());
    assert(found(children[k], target) == Seq::<Seq<char>>::empty());
    assert(found_below(unread, target) == Seq::<Seq<char>>::empty());
    assert(found_below(before, target) + found_below(unread, target) == found_below(
        before,
        target,
    ));
    assert(found(Tree::Dir { path, listing: Some(children) }, target) == file_hits(
        entries_of(children),
        target,
    ) + (found_below(before, target) + found_below(after, target)));
}

/// The number of hits of a listing that carry the path `path`.
pub open spec fn own_copies(listing: Seq<EntryView>, path: Seq<char>, target: Seq<char>) -> nat
    decreases listing.len(),
{
    if listing.len() == 0 {
        0
    } else {
        let before = own_copies(listing.drop_last(), path, target);
        if is_hit(listing.last(), target) && listing.last().path() == path {
            before + 1
        } else {
            before
        }
    }
}

/// The number of files named `target` that the readable directories of the
/// tree list under the path `path`.
pub open spec fn copies(tree: Tree, path: Seq<char>, target: Seq<char>) -> nat
    decreases tree,
{
    match tree {
        Tree::Dir { listing: Some(children), .. } => own_copies(entries_of(children), path, target)
            + copies_below(children, path, target),
        _ => 0,
    }
}

/// The number of such files in the subtrees of `children`.
pub open spec fn copies_below(children: Seq<Tree>, path: Seq<char>, target: Seq<char>) -> nat
    decreases children,
{
    if children.len() == 0 {
        0
    } else {
        copies_below(children.drop_last(), path, target) + copies(children.last(), path, target)
    }
}

/// A path occurs in a concatenation as often as in its two parts together.
pub proof fn lemma_count_concat(front: Seq<Seq<char>>, back: Seq<Seq<char>>, path: Seq<char>)
    ensures
        (front + back).to_multiset().count(path) == front.to_multiset().count(path)
            + back.to_multiset().count(path),
{
    vstd::seq_lib::lemma_multiset_commutative(front, back);
}

/// The hits of a listing hold a path as often as the listing shows a
/// matching file under it.
pub proof fn lemma_count_own(listing: Seq<EntryView>, path: Seq<char>, target: Seq<char>)
    ensures
        file_hits(listing, target).to_multiset().count(path) == own_copies(listing, path, target),
    decreases listing.len(),
{
    broadcast use vstd::seq_lib::to_multiset_build, vstd::seq_lib::to_multiset_len;

    if listing.len() == 0 {
        assert(file_hits(listing, target).to_multiset().len() == 0);
    } else {
        lemma_count_own(listing.drop_last(), path, target);
    }
}

/// What a search from `tree` finds holds a path as often as the tree holds a
/// matching file under it.
pub proof fn lemma_count_found(tree: Tree, path: Seq<char>, target: Seq<char>)
    ensures
        found(tree, target).to_multiset().count(path) == copies(tree, path, target),
    decreases tree,
{
    broadcast use vstd::seq_lib::to_multiset_len;

    match tree {
        Tree::Dir { listing: Some(children), .. } => {
            lemma_count_own(entries_of(children), path, target);
            lemma_count_below(children, path, target);
            lemma_count_concat(
                file_hits(entries_of(children), target),
                found_below(children, target),
                path,
            );
        },
        _ => {
            assert(found(tree, target).to_multiset().len() == 0);
        },
    }
}

/// What lies below `children` holds a path as often as their subtrees hold a
/// matching file under it.
pub proof fn lemma_count_below(children: Seq<Tree>, path: Seq<char>, target: Seq<char>)
    ensures
        found_below(children, target).to_multiset().count(path) == copies_below(
            children,
            path,
            target,
        ),
    decreases children,
{
    broadcast use vstd::seq_lib::to_multiset_len;

    if children.len() == 0 {
        assert(found_below(children, target).to_multiset().len() == 0);
    } else {
        lemma_count_below(children.drop_last(), path, target);
        lemma_count_found(children.last(), path, target);
        lemma_count_concat(
            found_below(children.drop_last(), target),
            found(children.last(), target),
            path,
        );
    }
}

/// Nothing is counted twice and nothing is dropped: each strategy reports a
/// path exactly as often as the tree holds a matching file under it, so a
/// file that is there once is reported once.
pub proof fn lemma_no_double_count(
    tree: Tree,
    target: Seq<char>,
    path: Seq<char>,
    sequential: SearchReport,
    parallel: SearchReport,
)
    requires
        reports_in_order(sequential, tree, target),
        reports_in_any_order(parallel, tree, target),
    ensures
        sequential.paths.deep_view().to_multiset().count(path) == copies(tree, path, target),
        parallel.paths.deep_view().to_multiset().count(path) == copies(tree, path, target),
{
    lemma_count_found(tree, path, target);
}

} // verus!
