//! The walk against the tree: fed the listings of a tree, the walk finds what
//! the depth-first search of that tree finds, in the same order.

use crate::listing::{file_hits, subdirs, Entry, EntryView};
use crate::sequential::capped;
use crate::tree::{
    dirs_among, entries_of, found, found_below, lemma_found_below_concat, lemma_models_of,
    lemma_only_dirs_count, lemma_visits_below_concat, models_of, visits, visits_below, Node, Tree,
};
use crate::walk::{start, step, WalkView};
use vstd::prelude::*;

verus! {

/// What reading the directory at the root of `tree` yields: its entries, or
/// nothing where it cannot be read.
pub open spec fn listing_of(tree: Tree) -> Option<Seq<EntryView>> {
    match tree {
        Tree::Dir { listing: Some(children), .. } => Some(entries_of(children)),
        _ => None,
    }
}

/// Reads the directory `node` as a traversal of the tree would: its entries
/// in listing order, or `None` where `node` is no readable directory.
pub fn read_listing(node: &Node) -> (listing: Option<Vec<Entry>>)
    ensures
        listing.deep_view() == listing_of(node@),
{
    match node {
        Node::Dir { listing: Some(children), .. } => {
            let ghost shown = entries_of(models_of(children@));
            proof {
                lemma_models_of(children@);
            }
            let mut entries: Vec<Entry> = Vec::new();
            let mut i: usize = 0;
            while i < children.len()
                invariant
                    0 <= i <= children.len(),
                    shown.len() == children.len(),
                    forall|k: int|
                        0 <= k < children.len() ==> shown[k] == (#[trigger] children[k])@.entry(),
                    entries.deep_view() == shown.take(i as int),
                decreases children.len() - i,
            {
                let ghost so_far = entries.deep_view();
                let entry = match &children[i] {
                    Node::File { name, path } => Entry::File {
                        name: name.clone(),
                        path: path.clone(),
                    },
                    Node::Dir { path, .. } => Entry::Dir { path: path.clone() },
                };
                assert(entry@ == shown[i as int]);
                entries.push(entry);
                assert(entries.deep_view() == so_far.push(shown[i as int]));
                i = i + 1;
            }
            assert(shown.take(i as int) == shown);
            Some(entries)
        },
        _ => None,
    }
}

/// The paths of the given trees, in order.
pub open spec fn paths_of(trees: Seq<Tree>) -> Seq<Seq<char>> {
    trees.map_values(|tree: Tree| tree.path())
}

/// What is still to be found in the pending subtrees, in the order in which
/// the walk comes to them: the last one first.
pub open spec fn found_ahead(todo: Seq<Tree>, target: Seq<char>) -> Seq<Seq<char>>
    decreases todo.len(),
{
    if todo.len() == 0 {
        Seq::empty()
    } else {
        found(todo.last(), target) + found_ahead(todo.drop_last(), target)
    }
}

/// The number of directories still to be visited in the pending subtrees.
pub open spec fn visits_ahead(todo: Seq<Tree>) -> nat
    decreases todo.len(),
{
    if todo.len() == 0 {
        0
    } else {
        visits(todo.last()) + visits_ahead(todo.drop_last())
    }
}

/// The pending subtrees once the last of them has been visited: its
/// subdirectories take its place, the first of them uppermost.
pub open spec fn after_visit(todo: Seq<Tree>) -> Seq<Tree> {
    match todo.last() {
        Tree::Dir { listing: Some(children), .. } => todo.drop_last() + dirs_among(
            children,
        ).reverse(),
        _ => todo.drop_last(),
    }
}

/// The walk `walk` is under way in the tree `root` with the subtrees `todo`
/// still before it: its pending directories are their roots, and what it has
/// found and counted so far, with what they still hold, makes up the whole
/// search of `root`.
pub open spec fn tracks(walk: WalkView, todo: Seq<Tree>, root: Tree) -> bool {
    &&& walk.pending == paths_of(todo)
    &&& forall|i: int| 0 <= i < todo.len() ==> (#[trigger] todo[i]) is Dir
    &&& walk.found + found_ahead(todo, walk.target) == found(root, walk.target)
    &&& capped(walk.visited + visits_ahead(todo)) == capped(visits(root) as int)
}

/// The subdirectories that a listing shows are the directories among the
/// children that it lists.
pub proof fn lemma_subdirs_are_dirs_among(children: Seq<Tree>)
    ensures
        subdirs(entries_of(children)) == paths_of(dirs_among(children)),
        forall|i: int| 0 <= i < dirs_among(children).len() ==> (#[trigger] dirs_among(children)[i]) is Dir,
    decreases children.len(),
{
    if children.len() == 0 {
        assert(subdirs(entries_of(children)) == paths_of(dirs_among(children)));
    } else {
        let front = children.drop_last();
        lemma_subdirs_are_dirs_among(front);
        assert(entries_of(children).drop_last() == entries_of(front));
        assert(entries_of(children).last() == children.last().entry());
        if children.last() is Dir {
            assert(paths_of(dirs_among(front).push(children.last())) == paths_of(
                dirs_among(front),
            ).push(children.last().path()));
        }
    }
}

/// Subtrees that are put on the stack in reverse are come to in listing order.
pub proof fn lemma_reversed_stack(trees: Seq<Tree>, target: Seq<char>)
    ensures
        found_ahead(trees.reverse(), target) == found_below(trees, target),
        visits_ahead(trees.reverse()) == visits_below(trees),
    decreases trees.len(),
{
    if trees.len() > 0 {
        let stack = trees.reverse();
        let first = seq![trees[0]];
        let others = trees.skip(1);
        assert(stack.last() == trees[0]);
        assert(stack.drop_last() == others.reverse());
        lemma_reversed_stack(others, target);
        assert(trees == first + others);
        lemma_found_below_concat(first, others, target);
        lemma_visits_below_concat(first, others);
        assert(first.drop_last().len() == 0);
        assert(first.last() == trees[0]);
        assert(found_below(first.drop_last(), target) == Seq::<Seq<char>>::empty());
        assert(found_below(first, target) == found(trees[0], target));
        assert(visits_below(first.drop_last()) == 0);
        assert(visits_below(first) == visits(trees[0]));
    }
}

/// What lies ahead of a stack is what lies ahead of its upper part, then what
/// lies ahead of its lower part.
pub proof fn lemma_ahead_concat(lower: Seq<Tree>, upper: Seq<Tree>, target: Seq<char>)
    ensures
        found_ahead(lower + upper, target) == found_ahead(upper, target) + found_ahead(
            lower,
            target,
        ),
        visits_ahead(lower + upper) == visits_ahead(upper) + visits_ahead(lower),
    decreases upper.len(),
{
    if upper.len() == 0 {
        assert(lower + upper == lower);
        assert(found_ahead(upper, target) + found_ahead(lower, target) == found_ahead(
            lower,
            target,
        ));
    } else {
        let all = lower + upper;
        assert(all.drop_last() == lower + upper.drop_last());
        assert(all.last() == upper.last());
        lemma_ahead_concat(lower, upper.drop_last(), target);
        assert(found_ahead(all, target) == (found(upper.last(), target) + found_ahead(
            upper.drop_last(),
            target,
        )) + found_ahead(lower, target));
    }
}

/// A walk that starts at a directory tracks it, with the whole tree before it.
pub proof fn lemma_walk_starts(root: Tree, target: Seq<char>)
    requires
        root is Dir,
    ensures
        tracks(start(root.path(), target), seq![root], root),
{
    let todo = seq![root];
    let walk = start(root.path(), target);
    assert(walk.pending == paths_of(todo));
    assert(todo.drop_last().len() == 0);
    assert(todo.last() == root);
    assert(found_ahead(todo.drop_last(), target) == Seq::<Seq<char>>::empty());
    assert(found_ahead(todo, target) == found(root, target));
    assert(walk.found + found_ahead(todo, target) == found(root, target));
    assert(visits_ahead(todo.drop_last()) == 0);
    assert(visits_ahead(todo) == visits(root));
}

/// One step keeps the walk on track: when the walk takes in the listing of
/// the subtree that is next, it tracks the tree with that subtree replaced by
/// its subdirectories, and one directory fewer is left to visit.
pub proof fn lemma_walk_step(walk: WalkView, todo: Seq<Tree>, root: Tree)
    requires
        tracks(walk, todo, root),
        todo.len() > 0,
    ensures
        tracks(step(walk, listing_of(todo.last())), after_visit(todo), root),
        visits_ahead(after_visit(todo)) + 1 == visits_ahead(todo),
{
    let top = todo.last();
    let rest = todo.drop_last();
    let next = step(walk, listing_of(top));
    let target = walk.target;
    assert(top is Dir);
    assert(walk.pending.drop_last() == paths_of(rest));
    match top {
        Tree::Dir { listing: Some(children), .. } => {
            let dirs = dirs_among(children);
            lemma_subdirs_are_dirs_among(children);
            lemma_only_dirs_count(children, target);
            lemma_reversed_stack(dirs, target);
            lemma_ahead_concat(rest, dirs.reverse(), target);
            let after = rest + dirs.reverse();
            assert(after == after_visit(todo));
            assert(paths_of(dirs.reverse()) == paths_of(dirs).reverse());
            assert(paths_of(after) == paths_of(rest) + paths_of(dirs.reverse()));
            assert(next.pending == paths_of(after));
            assert forall|i: int| 0 <= i < after.len() implies (#[trigger] after[i]) is Dir by {
                if i < rest.len() {
                    assert(after[i] == todo[i]);
                } else {
                    let j = i - rest.len();
                    assert(after[i] == dirs.reverse()[j]);
                    assert(dirs.reverse()[j] == dirs[dirs.len() - 1 - j]);
                }
            }
            let own = file_hits(entries_of(children), target);
            let below = found_below(children, target);
            assert(found(top, target) == own + below);
            assert(next.found + found_ahead(after, target) == walk.found + ((own + below)
                + found_ahead(rest, target)));
            assert(walk.found + found_ahead(todo, target) == walk.found + ((own + below)
                + found_ahead(rest, target)));
        },
        _ => {
            assert(rest == after_visit(todo));
            assert(found(top, target) == Seq::<Seq<char>>::empty());
            assert(found_ahead(todo, target) == found_ahead(rest, target));
            assert forall|i: int| 0 <= i < rest.len() implies (#[trigger] rest[i]) is Dir by {
                assert(rest[i] == todo[i]);
            }
        },
    }
}

/// A walk with nothing before it has found what the depth-first search of
/// the tree finds, in the same order, and has counted its directories.
pub proof fn lemma_walk_ends(walk: WalkView, root: Tree)
    requires
        tracks(walk, Seq::empty(), root),
    ensures
        walk.pending.len() == 0,
        walk.found == found(root, walk.target),
        walk.visited == capped(visits(root) as int),
{
    let todo = Seq::<Tree>::empty();
    assert(found_ahead(todo, walk.target) == Seq::<Seq<char>>::empty());
    assert(walk.found + found_ahead(todo, walk.target) == walk.found);
}

} // verus!
