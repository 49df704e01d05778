//! One directory listing: its entries, and what a single visit takes from it.

use crate::matcher::names_match;
use vstd::prelude::*;

verus! {

/// An entry of a directory listing, classified when the directory is read.
pub enum Entry {
    /// A file, with its base name and its full path.
    File { name: String, path: String },
    /// A subdirectory, with its full path.
    Dir { path: String },
}

/// The mathematical value of an `Entry`.
pub enum EntryView {
    File { name: Seq<char>, path: Seq<char> },
    Dir { path: Seq<char> },
}

impl EntryView {
    /// The full path of the entry, whichever kind it is.
    pub open spec fn path(self) -> Seq<char> {
        match self {
            EntryView::File { path, .. } => path,
            EntryView::Dir { path } => path,
        }
    }
}

impl View for Entry {
    type V = EntryView;

    open spec fn view(&self) -> EntryView {
        match self {
            Entry::File { name, path } => EntryView::File { name: name@, path: path@ },
            Entry::Dir { path } => EntryView::Dir { path: path@ },
        }
    }
}

impl DeepView for Entry {
    type V = EntryView;

    open spec fn deep_view(&self) -> EntryView {
        self@
    }
}

/// An entry is a hit when it is a file whose name matches the target.
pub open spec fn is_hit(entry: EntryView, target: Seq<char>) -> bool {
    match entry {
        EntryView::File { name, .. } => names_match(name, target),
        EntryView::Dir { .. } => false,
    }
}

/// The paths of the files of a listing that match the target, in listing order.
pub open spec fn file_hits(listing: Seq<EntryView>, target: Seq<char>) -> Seq<Seq<char>>
    decreases listing.len(),
{
    if listing.len() == 0 {
        Seq::empty()
    } else {
        let before = file_hits(listing.drop_last(), target);
        if is_hit(listing.last(), target) {
            before.push(listing.last().path())
        } else {
            before
        }
    }
}

/// The paths of the subdirectories of a listing, in listing order.
pub open spec fn subdirs(listing: Seq<EntryView>) -> Seq<Seq<char>>
    decreases listing.len(),
{
    if listing.len() == 0 {
        Seq::empty()
    } else {
        let before = subdirs(listing.drop_last());
        if listing.last() is Dir {
            before.push(listing.last().path())
        } else {
            before
        }
    }
}

/// What one visit takes from a listing: the matching files and the
/// subdirectories still to be visited.
pub struct Scan {
    pub matched: Vec<String>,
    pub subdirs: Vec<String>,
}

/// Splits a listing into the paths of its matching files and the paths of its
/// subdirectories, each in listing order.
pub fn scan_listing(entries: &Vec<Entry>, target: &str) -> (scan: Scan)
    ensures
        scan.matched.deep_view() == file_hits(entries.deep_view(), target@),
        scan.subdirs.deep_view() == subdirs(entries.deep_view()),
{
    let mut matched: Vec<String> = Vec::new();
    let mut dirs: Vec<String> = Vec::new();
    let ghost listing = entries.deep_view();
    let mut i: usize = 0;
    while i < entries.len()
        invariant
            0 <= i <= entries.len(),
            listing == entries.deep_view(),
            matched.deep_view() == file_hits(listing.take(i as int), target@),
            dirs.deep_view() == subdirs(listing.take(i as int)),
        decreases entries.len() - i,
    {
        proof {
            assert(listing.take(i + 1).drop_last() == listing.take(i as int));
            assert(listing.take(i + 1).last() == entries[i as int]@);
        }
        let ghost old_matched = matched.deep_view();
        let ghost old_dirs = dirs.deep_view();
        match &entries[i] {
            Entry::File { name, path } => {
                if crate::matcher::matches(name.as_str(), target) {
                    matched.push(path.clone());
                    assert(matched.deep_view() == old_matched.push(path@));
                }
            },
            Entry::Dir { path } => {
                dirs.push(path.clone());
                assert(dirs.deep_view() == old_dirs.push(path@));
            },
        }
        i = i + 1;
    }
    assert(listing.take(i as int) == listing);
    Scan { matched, subdirs: dirs }
}

} // verus!
