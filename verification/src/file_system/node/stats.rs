//! The metadata a host reports of one entry.

use crate::file_system::tree::Node;
use vstd::prelude::*;

verus! {

/// Raw metadata: the kind of the entry, its length in bytes, and its times of
/// creation and of last modification in milliseconds since the epoch.
#[derive(Debug, Clone, Copy, PartialEq, Eq, Structural)]
pub struct Stats {
    pub is_file: bool,
    pub size: u64,
    pub c_time_ms: u64,
    pub m_time_ms: u64,
}

impl Stats {
    /// These are the metadata of `node`. The length of a directory is left to
    /// the host.
    pub open spec fn describes(&self, node: Node) -> bool {
        &&& self.is_file == node.is_file
        &&& node.is_file ==> self.size == node.data.len()
        &&& self.c_time_ms == node.created_ms
        &&& self.m_time_ms == node.modified_ms
    }
}

} // verus!
