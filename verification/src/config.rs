//! The table that maps an alias to the root folder that it names on this
//! machine.

use vstd::prelude::*;
use crate::text::bytes;
use crate::text::same_text;

verus! {

/// The root folder of one alias.
#[derive(Debug, Clone)]
pub struct AliasRoot {
    /// The name under which peers know the folder.
    pub alias: String,
    /// The canonical absolute path of the folder: symbolic links followed
    /// and relative parts removed. `None` where the configured path could
    /// not be made canonical, as when the folder does not exist.
    pub root: Option<String>,
}

/// The aliases that are configured on this machine.
#[derive(Debug, Clone)]
pub struct Config {
    /// One entry for each alias. Where an alias stands twice the first
    /// entry counts.
    pub paths: Vec<AliasRoot>,
}

/// The bytes of the root of an entry, if it has one.
pub open spec fn root_bytes(entry: AliasRoot) -> Option<Seq<u8>> {
    match entry.root {
        Some(root) => Some(bytes(root@)),
        None => None,
    }
}

impl Config {
    /// No alias stands twice: the table is the map from alias to root
    /// folder that it is meant to be, and every entry counts.
    pub open spec fn distinct_aliases(self) -> bool {
        forall|i: int, j: int|
            0 <= i < j < self.paths@.len() ==> (#[trigger] self.paths@[i]).alias@ != (
            #[trigger] self.paths@[j]).alias@
    }

    /// In a table without an alias that stands twice every entry is the
    /// one that is found for its alias.
    pub proof fn lemma_every_entry_counts(self, at: int)
        requires
            self.distinct_aliases(),
            0 <= at < self.paths@.len(),
        ensures
            self.root_of(self.paths@[at].alias@) == root_bytes(self.paths@[at]),
    {
        self.lemma_found_from(at, 0);
    }

    proof fn lemma_found_from(self, at: int, from: int)
        requires
            self.distinct_aliases(),
            0 <= from <= at < self.paths@.len(),
        ensures
            self.find_from(self.paths@[at].alias@, from) == Some(self.paths@[at]),
        decreases at - from,
    {
        if from < at {
            assert(self.paths@[from].alias@ != self.paths@[at].alias@);
            self.lemma_found_from(at, from + 1);
        }
    }

    /// The first entry for `alias` at index `i` or behind it.
    pub open spec fn find_from(self, alias: Seq<char>, i: int) -> Option<AliasRoot>
        decreases self.paths@.len() - i,
    {
        if i < 0 || i >= self.paths@.len() {
            None
        } else if self.paths@[i].alias@ == alias {
            Some(self.paths@[i])
        } else {
            self.find_from(alias, i + 1)
        }
    }

    /// The root folder of `alias` as bytes, if the alias is configured and
    /// its folder could be made canonical.
    pub open spec fn root_of(self, alias: Seq<char>) -> Option<Seq<u8>> {
        match self.find_from(alias, 0) {
            Some(entry) => root_bytes(entry),
            None => None,
        }
    }

    /// Looks up the root folder of `alias`.
    pub fn root(&self, alias: &str) -> (found: Option<&String>)
        ensures
            match found {
                Some(root) => self.root_of(alias@) == Some(bytes(root@)),
                None => self.root_of(alias@) is None,
            },
            self.distinct_aliases() ==> forall|i: int|
                0 <= i < self.paths@.len() && (#[trigger] self.paths@[i]).alias@ == alias@
                    ==> self.root_of(alias@) == root_bytes(self.paths@[i]),
    {
        proof {
            if self.distinct_aliases() {
                assert forall|i: int|
                    0 <= i < self.paths@.len() && (#[trigger] self.paths@[i]).alias@
                        == alias@ implies self.root_of(alias@) == root_bytes(self.paths@[i]) by {
                    self.lemma_every_entry_counts(i);
                }
            }
        }
        let mut i: usize = 0;
        while i < self.paths.len()
            invariant
                i <= self.paths@.len(),
                self.find_from(alias@, 0) == self.find_from(alias@, i as int),
            decreases self.paths@.len() - i,
        {
            if same_text(self.paths[i].alias.as_str(), alias) {
                return match &self.paths[i].root {
                    Some(root) => Some(root),
                    None => None,
                };
            }
            i += 1;
        }
        None
    }
}

} // verus!
