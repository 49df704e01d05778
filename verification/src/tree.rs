//! A directory tree as one search sees it, and what a search of it finds.

use crate::listing::{file_hits, EntryView};
use vstd::prelude::*;

verus! {

/// The mathematical model of a directory tree: every directory carries the
/// one listing that a traversal takes of it, or none where it cannot be read.
pub enum Tree {
    File { name: Seq<char>, path: Seq<char> },
    Dir { path: Seq<char>, listing: Option<Seq<Tree>> },
}

/// A directory tree held in memory.
pub enum Node {
    /// A file, with its base name and its full path.
    File { name: String, path: String },
    /// A directory with its full path and its entries in listing order;
    /// `listing` is `None` for a directory that could not be read.
    Dir { path: String, listing: Option<Vec<Node>> },
}

impl View for Node {
    type V = Tree;

    open spec fn view(&self) -> Tree {
        model_of(*self)
    }
}

/// The model of a node held in memory.
pub open spec fn model_of(node: Node) -> Tree
    decreases node,
{
    match node {
        Node::File { name, path } => Tree::File { name: name@, path: path@ },
        Node::Dir { path, listing: None } => Tree::Dir { path: path@, listing: None },
        Node::Dir { path, listing: Some(children) } => Tree::Dir {
            path: path@,
            listing: Some(models_of(children@)),
        },
    }
}

/// The models of the given nodes, in order.
pub open spec fn models_of(nodes: Seq<Node>) -> Seq<Tree>
    decreases nodes,
{
    if nodes.len() == 0 {
        Seq::empty()
    } else {
        models_of(nodes.drop_last()).push(model_of(nodes.last()))
    }
}

/// `models_of` keeps the length and models node by node.
pub proof fn lemma_models_of(nodes: Seq<Node>)
    ensures
        models_of(nodes).len() == nodes.len(),
        forall|i: int| 0 <= i < nodes.len() ==> models_of(nodes)[i] == model_of(#[trigger] nodes[i]),
    decreases nodes.len(),
{
    if nodes.len() > 0 {
        let front = nodes.drop_last();
        lemma_models_of(front);
        assert forall|i: int| 0 <= i < nodes.len() implies models_of(nodes)[i] == model_of(
            #[trigger] nodes[i],
        ) by {
            if i < front.len() {
                assert(front[i] == nodes[i]);
            }
        }
    }
}

impl Node {
    /// A readable directory's model lists the models of its children, in order.
    pub proof fn lemma_view_of_listing(&self)
        requires
            self is Dir,
            self->listing is Some,
        ensures
            self@ is Dir,
            self@->listing is Some,
            self@->listing.unwrap().len() == self->listing.unwrap()@.len(),
            forall|i: int|
                0 <= i < self->listing.unwrap()@.len() ==> self@->listing.unwrap()[i]
                    == #[trigger] self->listing.unwrap()@[i]@,
    {
        lemma_models_of(self->listing.unwrap()@);
    }
}

impl Tree {
    /// The full path of the node.
    pub open spec fn path(self) -> Seq<char> {
        match self {
            Tree::File { path, .. } => path,
            Tree::Dir { path, .. } => path,
        }
    }

    /// The node as its parent's listing shows it.
    pub open spec fn entry(self) -> EntryView {
        match self {
            Tree::File { name, path } => EntryView::File { name, path },
            Tree::Dir { path, .. } => EntryView::Dir { path },
        }
    }
}

/// The listing that shows the given children, in order.
pub open spec fn entries_of(children: Seq<Tree>) -> Seq<EntryView> {
    children.map_values(|child: Tree| child.entry())
}

/// The paths that a depth-first search from `tree` reports for `target`: at
/// each readable directory its own matching files in listing order, then what
/// each entry's subtree holds, again in listing order. A node that is no
/// readable directory holds nothing below it.
pub open spec fn found(tree: Tree, target: Seq<char>) -> Seq<Seq<char>>
    decreases tree,
{
    match tree {
        Tree::Dir { listing: Some(children), .. } => file_hits(entries_of(children), target)
            + found_below(children, target),
        _ => Seq::empty(),
    }
}

/// What the subtrees of `children` hold, one after the other.
pub open spec fn found_below(children: Seq<Tree>, target: Seq<char>) -> Seq<Seq<char>>
    decreases children,
{
    if children.len() == 0 {
        Seq::empty()
    } else {
        found_below(children.drop_last(), target) + found(children.last(), target)
    }
}

/// The number of directories that a search from `tree` visits: every
/// directory of the tree, readable or not.
pub open spec fn visits(tree: Tree) -> nat
    decreases tree,
{
    match tree {
        Tree::File { .. } => 0,
        Tree::Dir { listing: None, .. } => 1,
        Tree::Dir { listing: Some(children), .. } => 1 + visits_below(children),
    }
}

/// The number of directories in the subtrees of `children`.
pub open spec fn visits_below(children: Seq<Tree>) -> nat
    decreases children,
{
    if children.len() == 0 {
        0
    } else {
        visits_below(children.drop_last()) + visits(children.last())
    }
}

/// The directories among `children`, in listing order.
pub open spec fn dirs_among(children: Seq<Tree>) -> Seq<Tree>
    decreases children.len(),
{
    if children.len() == 0 {
        Seq::empty()
    } else {
        let before = dirs_among(children.drop_last());
        if children.last() is Dir {
            before.push(children.last())
        } else {
            before
        }
    }
}

/// What lies below a run of entries is what lies below its front part, then
/// what lies below its back part.
pub proof fn lemma_found_below_concat(front: Seq<Tree>, back: Seq<Tree>, target: Seq<char>)
    ensures
        found_below(front + back, target) == found_below(front, target) + found_below(
            back,
            target,
        ),
    decreases back.len(),
{
    if back.len() == 0 {
        assert(front + back == front);
        assert(found_below(front, target) + found_below(back, target) == found_below(
            front,
            target,
        ));
    } else {
        let all = front + back;
        assert(all.drop_last() == front + back.drop_last());
        assert(all.last() == back.last());
        lemma_found_below_concat(front, back.drop_last(), target);
        assert(found_below(all, target) == found_below(front, target) + (found_below(
            back.drop_last(),
            target,
        ) + found(back.last(), target)));
    }
}

/// The directory counts of a run of entries add up over its two parts.
pub proof fn lemma_visits_below_concat(front: Seq<Tree>, back: Seq<Tree>)
    ensures
        visits_below(front + back) == visits_below(front) + visits_below(back),
    decreases back.len(),
{
    if back.len() == 0 {
        assert(front + back == front);
    } else {
        let all = front + back;
        assert(all.drop_last() == front + back.drop_last());
        assert(all.last() == back.last());
        lemma_visits_below_concat(front, back.drop_last());
    }
}

/// Files hold nothing below them: what lies below a run of entries lies
/// below the directories among them.
pub proof fn lemma_only_dirs_count(children: Seq<Tree>, target: Seq<char>)
    ensures
        found_below(children, target) == found_below(dirs_among(children), target),
        visits_below(children) == visits_below(dirs_among(children)),
    decreases children.len(),
{
    if children.len() > 0 {
        let front = children.drop_last();
        lemma_only_dirs_count(front, target);
        if children.last() is Dir {
            let kept = dirs_among(front).push(children.last());
            assert(kept.drop_last() == dirs_among(front));
            assert(kept.last() == children.last());
            assert(visits_below(kept) == visits_below(dirs_among(front)) + visits(
                children.last(),
            ));
        } else {
            assert(found(children.last(), target) == Seq::<Seq<char>>::empty());
            assert(found_below(children, target) == found_below(front, target));
            assert(visits(children.last()) == 0);
            assert(visits_below(children) == visits_below(front));
        }
    }
}

/// Appends to `results` the paths of the files among `children` that match
/// `target`, in listing order: what a visit takes from the directory itself.
pub fn collect_file_hits(children: &Vec<Node>, target: &str, results: &mut Vec<String>)
    ensures
        final(results).deep_view() == old(results).deep_view() + file_hits(
            entries_of(models_of(children@)),
            target@,
        ),
{
    let ghost before = results.deep_view();
    let ghost shown = entries_of(models_of(children@));
    proof {
        lemma_models_of(children@);
    }
    let mut i: usize = 0;
    while i < children.len()
        invariant
            0 <= i <= children.len(),
            shown == entries_of(models_of(children@)),
            shown.len() == children.len(),
            forall|k: int| 0 <= k < children.len() ==> shown[k] == (#[trigger] children[k])@.entry(),
            results.deep_view() == before + file_hits(shown.take(i as int), target@),
        decreases children.len() - i,
    {
        proof {
            assert(shown.take(i + 1).drop_last() == shown.take(i as int));
            assert(shown.take(i + 1).last() == children[i as int]@.entry());
        }
        let ghost so_far = results.deep_view();
        match &children[i] {
            Node::File { name, path } => {
                if crate::matcher::matches(name.as_str(), target) {
                    results.push(path.clone());
                    assert(results.deep_view() == so_far.push(path@));
                }
            },
            Node::Dir { .. } => {},
        }
        i = i + 1;
    }
    assert(shown.take(i as int) == shown);
}

} // verus!
