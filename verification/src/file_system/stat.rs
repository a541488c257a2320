//! What the file system reports of one entry.

use crate::file_system::node::stats::Stats;
use crate::file_system::tree::{Key, Node, Tree};
use vstd::prelude::*;

verus! {

#[derive(Debug, Clone, Copy, PartialEq, Eq, Structural)]
pub enum StatType {
    File,
    Dir,
}

/// The kind of an entry, its size, and its times of creation and of last
/// modification in whole seconds since the epoch. The size of a file is its
/// length in bytes; the size of a directory is the number of its entries.
#[derive(Debug, Clone, Copy, PartialEq, Eq, Structural)]
pub struct Stat {
    pub ty: StatType,
    pub size: u64,
    pub create_time: u64,
    pub update_time: u64,
}

impl Stat {
    /// The stat that raw metadata and a number of entries give.
    pub open spec fn from_stats(stats: Stats, entries: nat) -> Stat {
        Stat {
            ty: if stats.is_file {
                StatType::File
            } else {
                StatType::Dir
            },
            size: if stats.is_file {
                stats.size
            } else {
                entries as u64
            },
            create_time: stats.c_time_ms / 1000,
            update_time: stats.m_time_ms / 1000,
        }
    }

    /// The stat of a node that has `entries` entries if it is a directory.
    pub open spec fn of(node: Node, entries: nat) -> Stat {
        Stat {
            ty: if node.is_file {
                StatType::File
            } else {
                StatType::Dir
            },
            size: if node.is_file {
                node.data.len() as u64
            } else {
                entries as u64
            },
            create_time: node.created_ms / 1000,
            update_time: node.modified_ms / 1000,
        }
    }

    /// The stat of the entry at `k`, if there is one.
    pub open spec fn at(tree: Tree, k: Key) -> Option<Stat> {
        if tree.contains(k) {
            Some(Stat::of(tree.nodes[k], tree.child_names(k).len()))
        } else {
            None
        }
    }

    /// Derives the stat of an entry from its raw metadata and, for a
    /// directory, the number of its entries.
    pub fn derive(stats: &Stats, entries: usize) -> (r: Stat)
        ensures
            r == Stat::from_stats(*stats, entries as nat),
    {
        Stat {
            ty: if stats.is_file {
                StatType::File
            } else {
                StatType::Dir
            },
            size: if stats.is_file {
                stats.size
            } else {
                entries as u64
            },
            create_time: stats.c_time_ms / 1000,
            update_time: stats.m_time_ms / 1000,
        }
    }

    pub open spec fn spec_is_file(&self) -> bool {
        self.ty == StatType::File
    }

    #[verifier::when_used_as_spec(spec_is_file)]
    pub fn is_file(&self) -> (r: bool)
        ensures
            r == self.spec_is_file(),
    {
        match self.ty {
            StatType::File => true,
            StatType::Dir => false,
        }
    }

    pub open spec fn spec_is_dir(&self) -> bool {
        self.ty == StatType::Dir
    }

    #[verifier::when_used_as_spec(spec_is_dir)]
    pub fn is_dir(&self) -> (r: bool)
        ensures
            r == self.spec_is_dir(),
    {
        match self.ty {
            StatType::File => false,
            StatType::Dir => true,
        }
    }
}

} // verus!
