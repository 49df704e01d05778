//! A depth-first search of a live directory tree, one directory at a time.
//!
//! The walk owns every decision of the search: which directory is listed
//! next, which entries are kept, in what order the subdirectories follow. The
//! caller reads the directory that the walk names and hands the listing back.

use crate::listing::{file_hits, scan_listing, subdirs, Entry, EntryView};
use crate::sequential::{capped, SearchReport};
use vstd::prelude::*;

verus! {

/// The state of a search in progress.
pub struct Walk {
    target: String,
    pending: Vec<String>,
    found: Vec<String>,
    visited: u64,
}

/// The mathematical value of a `Walk`.
pub struct WalkView {
    /// The name searched for.
    pub target: Seq<char>,
    /// The directories still to be listed; the last one is listed next.
    pub pending: Seq<Seq<char>>,
    /// The paths found so far.
    pub found: Seq<Seq<char>>,
    /// The number of directories visited so far.
    pub visited: u64,
}

/// The walk before its first step: only the root is pending.
pub open spec fn start(root: Seq<char>, target: Seq<char>) -> WalkView {
    WalkView { target, pending: seq![root], found: Seq::empty(), visited: 0 }
}

/// The walk after the listing of its next directory has come in. The
/// directory leaves the pending ones and counts as visited. A listing adds
/// its matching files to what was found, in listing order, and puts its
/// subdirectories on top of the pending ones, the first of them uppermost.
/// A directory that could not be read (`None`) adds nothing. With nothing
/// pending, nothing changes.
pub open spec fn step(walk: WalkView, listing: Option<Seq<EntryView>>) -> WalkView {
    if walk.pending.len() == 0 {
        walk
    } else {
        let visited = capped(walk.visited + 1) as u64;
        match listing {
            None => WalkView { pending: walk.pending.drop_last(), visited, ..walk },
            Some(entries) => WalkView {
                target: walk.target,
                pending: walk.pending.drop_last() + subdirs(entries).reverse(),
                found: walk.found + file_hits(entries, walk.target),
                visited,
            },
        }
    }
}

impl View for Walk {
    type V = WalkView;

    closed spec fn view(&self) -> WalkView {
        WalkView {
            target: self.target@,
            pending: self.pending.deep_view(),
            found: self.found.deep_view(),
            visited: self.visited,
        }
    }
}

impl Walk {
    /// Begins a search for `target` at the directory `root`.
    pub fn new(root: String, target: String) -> (walk: Walk)
        ensures
            walk@ == start(root@, target@),
    {
        let mut pending: Vec<String> = Vec::new();
        pending.push(root);
        let walk = Walk { target, pending, found: Vec::new(), visited: 0 };
        assert(walk.pending.deep_view() == seq![root@]);
        assert(walk.found.deep_view() == Seq::<Seq<char>>::empty());
        walk
    }

    /// The directory to list next, or `None` when the search is over.
    pub fn next_directory(&self) -> (next: Option<&String>)
        ensures
            next is None <==> self@.pending.len() == 0,
            next is Some ==> next.unwrap()@ == self@.pending.last(),
    {
        let n = self.pending.len();
        if n == 0 {
            None
        } else {
            Some(&self.pending[n - 1])
        }
    }

    /// Takes in the listing of the directory that `next_directory` named:
    /// `None` where the directory could not be read.
    pub fn absorb(&mut self, listing: Option<Vec<Entry>>)
        ensures
            final(self)@ == step(old(self)@, listing.deep_view()),
    {
        if self.pending.len() == 0 {
            return ;
        }
        let ghost before = self@;
        let _ = self.pending.pop();
        if self.visited < u64::MAX {
            self.visited = self.visited + 1;
        }
        assert(self.pending.deep_view() == before.pending.drop_last());
        match listing {
            None => {},
            Some(entries) => {
                let scan = scan_listing(&entries, self.target.as_str());
                let mut matched = scan.matched;
                let mut rest = scan.subdirs;
                let ghost base = self.pending.deep_view();
                let ghost dirs = rest.deep_view();
                let ghost hits = matched.deep_view();
                self.found.append(&mut matched);
                assert(self.found.deep_view() == before.found + hits);
                assert(dirs.skip(dirs.len() as int).reverse() == Seq::<Seq<char>>::empty());
                while rest.len() > 0
                    invariant
                        rest.deep_view() == dirs.take(rest.len() as int),
                        rest.len() <= dirs.len(),
                        self.pending.deep_view() == base + dirs.skip(rest.len() as int).reverse(),
                        self.target@ == before.target,
                        self.found.deep_view() == before.found + hits,
                        self.visited == capped(before.visited + 1),
                    decreases rest.len(),
                {
                    let ghost m = rest.len() as int;
                    let ghost stacked = self.pending.deep_view();
                    assert(rest.deep_view()[m - 1] == rest@[m - 1]@);
                    assert(dirs.take(m)[m - 1] == dirs[m - 1]);
                    let dir = rest.pop().unwrap();
                    assert(dir@ == dirs[m - 1]);
                    self.pending.push(dir);
                    assert(self.pending.deep_view() == stacked.push(dirs[m - 1]));
                    assert(dirs.skip(m - 1).reverse() == dirs.skip(m).reverse().push(dirs[m - 1]));
                    assert(rest.deep_view() == dirs.take(rest.len() as int));
                }
                assert(dirs.skip(0) == dirs);
            },
        }
    }

    /// Ends the search and hands out what was found.
    pub fn finish(self) -> (report: SearchReport)
        ensures
            report.paths.deep_view() == self@.found,
            report.visited == self@.visited,
    {
        SearchReport { paths: self.found, visited: self.visited }
    }
}

} // verus!
