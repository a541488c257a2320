//! The synchronous calls of a host file system, and what each must do.

use crate::file_system::node::error::Error;
use crate::file_system::node::stats::Stats;
use crate::file_system::tree::Tree;
use vstd::prelude::*;

verus! {

/// A host file system. Every call takes a path, whose segments are the key of
/// an entry in the host's tree, and reports a failure as an [`Error`]. A call
/// that fails changes nothing. Every segment is a name: `.` and `..` stand
/// for entries of that name like any other.
///
/// The stores are proved against these contracts: what is proved of a store
/// holds on a host that keeps them.
pub trait Host {
    /// The entries that the host holds.
    spec fn tree(&self) -> Tree;

    /// The time that the host gives to what it makes or modifies next, in
    /// milliseconds since the epoch. No call moves it.
    spec fn now_ms(&self) -> u64;

    /// A reliable host fails a call only where its tree does not allow it.
    spec fn reliable(&self) -> bool;

    /// What holds of the host between calls.
    spec fn inv(&self) -> bool;

    /// Between calls the tree of a host is well formed.
    proof fn lemma_inv(&self)
        requires
            self.inv(),
        ensures
            self.tree().wf(),
    ;

    /// Whether there is an entry at `path`.
    fn exists_sync(&self, path: &str) -> (r: Result<bool, Error>)
        requires
            self.inv(),
        ensures
            r matches Ok(b) ==> b == self.tree().contains(crate::path::segments(path@)),
            self.reliable() ==> r is Ok,
    ;

    /// The metadata of the entry at `path`.
    fn lstat_sync(&self, path: &str) -> (r: Result<Stats, Error>)
        requires
            self.inv(),
        ensures
            r matches Ok(s) ==> {
                &&& self.tree().contains(crate::path::segments(path@))
                &&& s.describes(self.tree().nodes[crate::path::segments(path@)])
            },
            self.reliable() ==> (r is Ok <==> self.tree().contains(
                crate::path::segments(path@),
            )),
    ;

    /// Makes a directory at `path` and at every missing key above it. Where
    /// the directory is there already, nothing changes.
    fn mkdir_sync(&mut self, path: &str) -> (r: Result<(), Error>)
        requires
            old(self).inv(),
        ensures
            final(self).inv(),
            final(self).reliable() == old(self).reliable(),
            final(self).now_ms() == old(self).now_ms(),
            r is Ok ==> {
                &&& old(self).tree().can_make_dirs(crate::path::segments(path@))
                &&& final(self).tree() == old(self).tree().make_dirs(
                    crate::path::segments(path@),
                    old(self).now_ms(),
                )
            },
            r matches Err(e) ==> {
                &&& final(self).tree() == old(self).tree()
                &&& e.already_exists() ==> old(self).tree().contains(
                    crate::path::segments(path@),
                )
            },
            old(self).reliable() ==> (r is Ok <==> old(self).tree().can_make_dirs(
                crate::path::segments(path@),
            )),
    ;

    /// Writes `data` as the whole content of the file at `path`.
    fn write_file_sync(&mut self, path: &str, data: &[u8]) -> (r: Result<(), Error>)
        requires
            old(self).inv(),
        ensures
            final(self).inv(),
            final(self).reliable() == old(self).reliable(),
            final(self).now_ms() == old(self).now_ms(),
            r is Ok ==> {
                &&& old(self).tree().can_write(crate::path::segments(path@))
                &&& final(self).tree() == old(self).tree().write(
                    crate::path::segments(path@),
                    data@,
                    old(self).now_ms(),
                )
            },
            r is Err ==> final(self).tree() == old(self).tree(),
            old(self).reliable() ==> (r is Ok <==> old(self).tree().can_write(
                crate::path::segments(path@),
            )),
    ;

    /// The whole content of the file at `path`.
    fn read_file_sync(&self, path: &str) -> (r: Result<Vec<u8>, Error>)
        requires
            self.inv(),
        ensures
            r matches Ok(data) ==> {
                &&& self.tree().is_file(crate::path::segments(path@))
                &&& data@ == self.tree().nodes[crate::path::segments(path@)].data
            },
            self.reliable() ==> (r is Ok <==> self.tree().is_file(
                crate::path::segments(path@),
            )),
    ;

    /// The names of the entries directly inside the directory at `path`, each
    /// once, in no particular order.
    fn read_dir_sync(&self, path: &str) -> (r: Result<Vec<String>, Error>)
        requires
            self.inv(),
        ensures
            r matches Ok(names) ==> {
                &&& self.tree().is_dir(crate::path::segments(path@))
                &&& crate::path::views(names@).no_duplicates()
                &&& forall|n: Seq<char>|
                    crate::path::views(names@).contains(n) <==> self.tree().contains(
                        #[trigger] crate::path::segments(path@).push(n),
                    )
            },
            self.reliable() ==> (r is Ok <==> self.tree().is_dir(
                crate::path::segments(path@),
            )),
    ;

    /// Removes the entry at `path` with everything below it. Where there is
    /// no such entry, nothing changes. The root cannot be removed.
    fn rm_sync(&mut self, path: &str) -> (r: Result<(), Error>)
        requires
            old(self).inv(),
        ensures
            final(self).inv(),
            final(self).reliable() == old(self).reliable(),
            final(self).now_ms() == old(self).now_ms(),
            r is Ok ==> {
                &&& crate::path::segments(path@).len() > 0
                &&& final(self).tree() == old(self).tree().remove_all(
                    crate::path::segments(path@),
                )
            },
            r is Err ==> final(self).tree() == old(self).tree(),
            old(self).reliable() ==> (r is Ok <==> crate::path::segments(path@).len() > 0),
    ;

    /// Removes the empty directory at `path`.
    fn rm_dir_sync(&mut self, path: &str) -> (r: Result<(), Error>)
        requires
            old(self).inv(),
        ensures
            final(self).inv(),
            final(self).reliable() == old(self).reliable(),
            final(self).now_ms() == old(self).now_ms(),
            r is Ok ==> {
                &&& crate::path::segments(path@).len() > 0
                &&& old(self).tree().is_empty_dir(crate::path::segments(path@))
                &&& final(self).tree() == old(self).tree().remove_all(
                    crate::path::segments(path@),
                )
            },
            r is Err ==> final(self).tree() == old(self).tree(),
            old(self).reliable() ==> (r is Ok <==> (crate::path::segments(path@).len() > 0
                && old(self).tree().is_empty_dir(crate::path::segments(path@)))),
    ;
}

} // verus!
