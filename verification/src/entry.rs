//! A directory tree as it was read: every entry with what the metadata
//! queries said of it and, for a directory, its listing.

use vstd::prelude::*;
use vstd::string::*;
use crate::classify::EntryFacts;

verus! {

/// Why a tree could not be shown.
#[derive(Clone, Copy, Debug, PartialEq, Eq, Structural)]
pub enum TreeError {
    /// The path to show does not exist.
    PathNotFound,
    /// A directory that had to be listed could not be read.
    DirectoryUnreadable,
}

/// What reading a directory gave. An entry that is no directory holds an
/// empty listing.
#[derive(Debug)]
pub enum Listing {
    /// The directory could not be read.
    Unreadable,
    /// The entries, in the order in which they were read.
    Entries(Vec<FsEntry>),
}

/// One entry of the tree.
#[derive(Debug)]
pub struct FsEntry {
    /// The file name, the last component of the path.
    pub name: String,
    /// What the metadata queries said.
    pub facts: EntryFacts,
    /// Where a link points, as far as that could be read.
    pub link_target: Option<String>,
    /// What is in it, where it is a directory.
    pub listing: Listing,
}

/// An entry as a mathematical tree.
pub struct EntryModel {
    pub name: Seq<char>,
    pub facts: EntryFacts,
    pub link_target: Option<Seq<char>>,
    /// `None` for a directory that could not be read.
    pub listing: Option<Seq<EntryModel>>,
}

impl FsEntry {
    /// The tree that this entry stands for.
    pub open spec fn model(self) -> EntryModel
        decreases self,
    {
        EntryModel {
            name: self.name@,
            facts: self.facts,
            link_target: match self.link_target {
                Some(t) => Some(t@),
                None => None,
            },
            listing: match self.listing {
                Listing::Unreadable => None,
                Listing::Entries(v) => Some(
                    Seq::new(
                        v@.len(),
                        |i: int|
                            if 0 <= i < v@.len() {
                                v@[i].model()
                            } else {
                                arbitrary()
                            },
                    ),
                ),
            },
        }
    }
}

impl View for FsEntry {
    type V = EntryModel;

    open spec fn view(&self) -> EntryModel {
        self.model()
    }
}

/// The trees that a listing's entries stand for.
pub open spec fn entry_models(v: Seq<FsEntry>) -> Seq<EntryModel> {
    Seq::new(v.len(), |i: int| v[i]@)
}

/// The names of a listing, entry by entry.
pub open spec fn names_of(entries: Seq<EntryModel>) -> Seq<Seq<char>> {
    Seq::new(entries.len(), |i: int| entries[i].name)
}

/// The model of an entry holds the models of its listing.
pub proof fn lemma_listing_model(e: FsEntry)
    ensures
        e@.name == e.name@,
        e@.facts == e.facts,
        match e.listing {
            Listing::Unreadable => e@.listing is None,
            Listing::Entries(v) => e@.listing == Some(entry_models(v@)),
        },
{
}

impl EntryModel {
    /// Whether the path, links followed, is a directory.
    pub open spec fn is_dir(self) -> bool {
        self.facts.metadata matches Some(meta) && meta.is_dir
    }

    /// Whether the path exists, links followed.
    pub open spec fn is_found(self) -> bool {
        self.facts.metadata is Some
    }

    /// Whether the entry is a link whose target cannot be resolved: where
    /// it points could not be read, or nothing is to be found there.
    pub open spec fn is_broken_link(self) -> bool {
        self.facts.is_symlink && (self.link_target is None || self.facts.metadata is None)
    }

    /// The name under which the entry is listed: a link with an arrow and
    /// its target, or with a marker where the link is broken; a directory,
    /// or a link to one, with a slash behind its name; any other entry by
    /// its bare name.
    pub open spec fn label(self) -> Seq<char> {
        if self.facts.is_symlink {
            if self.is_broken_link() {
                self.name + " -> [broken link]"@
            } else if self.is_dir() {
                self.name + "/ -> "@ + self.link_target->0
            } else {
                self.name + " -> "@ + self.link_target->0
            }
        } else if self.is_dir() {
            self.name + "/"@
        } else {
            self.name
        }
    }
}

impl FsEntry {
    /// Whether the path, links followed, is a directory.
    pub fn is_dir(&self) -> (r: bool)
        ensures
            r == self@.is_dir(),
    {
        match self.facts.metadata {
            Some(meta) => meta.is_dir,
            None => false,
        }
    }

    /// Fails with `PathNotFound` where the path to show does not exist.
    pub fn check_exists(&self) -> (r: Result<(), TreeError>)
        ensures
            self@.is_found() ==> r is Ok,
            !self@.is_found() ==> r == Err::<(), TreeError>(TreeError::PathNotFound),
    {
        if self.facts.metadata.is_some() {
            Ok(())
        } else {
            Err(TreeError::PathNotFound)
        }
    }

    /// The name under which the entry is listed.
    pub fn label(&self) -> (r: String)
        ensures
            r@ == self@.label(),
    {
        let mut text = String::from_str(self.name.as_str());
        if self.facts.is_symlink {
            match &self.link_target {
                Some(target) => {
                    if self.facts.metadata.is_none() {
                        text.append(" -> [broken link]");
                    } else {
                        if self.is_dir() {
                            text.append("/ -> ");
                        } else {
                            text.append(" -> ");
                        }
                        text.append(target.as_str());
                    }
                },
                None => {
                    text.append(" -> [broken link]");
                },
            }
        } else if self.is_dir() {
            text.append("/");
        }
        text
    }
}

} // verus!
