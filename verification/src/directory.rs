//! A directory as the library sees it: the names that listing it gave and,
//! for each file, what reading it gave.

use crate::text::str_eq;
use vstd::prelude::*;

verus! {

/// What reading a file gave.
#[derive(Debug, Clone, PartialEq, Eq)]
pub enum Source {
    /// No text was obtained: the file could not be opened, or was not read.
    Unavailable,
    /// The file was opened, but what it holds is not text.
    Garbled,
    /// The text of the file.
    Text(String),
}

/// One file of a directory.
#[derive(Debug, Clone, PartialEq, Eq)]
pub struct DirEntry {
    pub name: String,
    pub source: Source,
}

/// A directory at one moment.
#[derive(Debug, Clone, PartialEq, Eq)]
pub struct Directory {
    /// The path by which the directory was reached.
    pub path: String,
    /// The files that listing the directory gave, in the order in which it
    /// gave them; `None` if the directory could not be listed.
    pub entries: Option<Vec<DirEntry>>,
}

/// The position of the first entry named `name`, or the number of entries if
/// there is none.
pub open spec fn entry_position(entries: Seq<DirEntry>, name: Seq<char>) -> int
    decreases entries.len(),
{
    if entries.len() == 0 {
        0
    } else if entries[0].name@ == name {
        0
    } else {
        1 + entry_position(entries.drop_first(), name)
    }
}

impl Directory {
    /// A listing names no file twice.
    pub open spec fn wf(&self) -> bool {
        self.names().no_duplicates()
    }

    /// Whether the directory could be listed.
    pub open spec fn listed(&self) -> bool {
        self.entries is Some
    }

    /// The names of the files, in the order of the listing.
    pub open spec fn names(&self) -> Seq<Seq<char>> {
        match self.entries {
            Some(entries) => entries@.map_values(|e: DirEntry| e.name@),
            None => Seq::empty(),
        }
    }

    /// What reading the file `name` gave: the source of the first entry of
    /// that name, and `Unavailable` where no entry has it.
    pub open spec fn source_of(&self, name: Seq<char>) -> Source {
        match self.entries {
            Some(entries) => {
                let i = entry_position(entries@, name);
                if i < entries@.len() {
                    entries@[i].source
                } else {
                    Source::Unavailable
                }
            },
            None => Source::Unavailable,
        }
    }

    /// A directory that could not be listed.
    pub fn unlisted(path: String) -> (r: Directory)
        ensures
            r.path == path,
            r.entries is None,
    {
        Directory { path, entries: None }
    }

    /// A directory with the files that listing it gave.
    pub fn listing(path: String, entries: Vec<DirEntry>) -> (r: Directory)
        ensures
            r.path == path,
            r.entries == Some(entries),
    {
        Directory { path, entries: Some(entries) }
    }

    /// What reading the file `name` gave.
    pub fn find(&self, name: &str) -> (r: Source)
        ensures
            r == self.source_of(name@),
    {
        match &self.entries {
            None => Source::Unavailable,
            Some(entries) => {
                let mut i: usize = 0;
                assert(entries@.skip(0) =~= entries@);
                while i < entries.len()
                    invariant
                        i <= entries.len(),
                        self.entries == Some(*entries),
                        entry_position(entries@, name@) == i + entry_position(
                            entries@.skip(i as int),
                            name@,
                        ),
                    decreases entries.len() - i,
                {
                    assert(entries@.skip(i as int).drop_first() =~= entries@.skip(i + 1));
                    assert(entries@.skip(i as int)[0] == entries@[i as int]);
                    if str_eq(entries[i].name.as_str(), name) {
                        return copy_source(&entries[i].source);
                    }
                    i += 1;
                }
                Source::Unavailable
            },
        }
    }
}

/// A copy of `source`.
pub fn copy_source(source: &Source) -> (r: Source)
    ensures
        r == *source,
{
    match source {
        Source::Unavailable => Source::Unavailable,
        Source::Garbled => Source::Garbled,
        Source::Text(t) => Source::Text(t.clone()),
    }
}

} // verus!
