//! The persistent store: a directory of a host file system.

use crate::error::IoFailure;
use crate::file_system::host::Host;
use crate::file_system::node::fs::{
    exists_sync, files_in, lstat_sync, mkdir_outcome, read_dir_sync, rm_recursive,
};
use crate::file_system::stat::Stat;
use crate::file_system::tree::{Key, Tree};
use vstd::prelude::*;

pub mod error;
pub mod fs;
pub mod stats;

verus! {

/// A store that keeps its entries below the directory `workspace_folder` of
/// a host.
pub struct NodeFileSystem<H: Host> {
    pub workspace_folder: String,
    pub host: H,
}

impl<H: Host> NodeFileSystem<H> {
    pub fn new(workspace_folder: String, host: H) -> (r: Self)
        ensures
            r.workspace_folder == workspace_folder,
            r.host == host,
    {
        Self { workspace_folder, host }
    }

    /// The folder of the store of a user whose home directory is `home_dir`:
    /// the directory `meltos` in it.
    pub fn default_folder(home_dir: &str) -> (r: String)
        ensures
            r@ == home_dir@ + "/meltos"@,
    {
        let mut dir = home_dir.to_owned();
        dir.append("/meltos");
        dir
    }

    /// A store rooted at `workspace_folder`, which is made with the
    /// directories above it if the host holds nothing there.
    pub fn open(workspace_folder: String, host: H) -> (r: Result<Self, IoFailure>)
        requires
            host.inv(),
        ensures
            r matches Ok(fs) ==> {
                &&& fs.inv()
                &&& fs.workspace_folder == workspace_folder
                &&& fs.host.reliable() == host.reliable()
                &&& fs.host.now_ms() == host.now_ms()
                &&& host.tree().contains(crate::path::segments(workspace_folder@))
                    || host.tree().can_make_dirs(crate::path::segments(workspace_folder@))
                &&& fs.tree() == host.tree().create_dir(
                    crate::path::segments(workspace_folder@),
                    host.now_ms(),
                )
            },
            r matches Err(f) ==> IoFailure::in_making(f.message@),
            host.reliable() ==> (r is Ok <==> (host.tree().contains(
                crate::path::segments(workspace_folder@),
            ) || host.tree().can_make_dirs(crate::path::segments(workspace_folder@)))),
    {
        let dir = workspace_folder.clone();
        let mut fs = Self { workspace_folder, host };
        match fs.create_dir_at(dir.as_str()) {
            Ok(()) => Ok(fs),
            Err(e) => Err(e),
        }
    }

    /// What holds of the store between calls.
    pub open spec fn inv(&self) -> bool {
        self.host.inv()
    }

    /// The entries of the host.
    pub open spec fn tree(&self) -> Tree {
        self.host.tree()
    }

    /// The physical path that `path` stands for in this store.
    pub open spec fn spec_path(&self, path: Seq<char>) -> Seq<char> {
        crate::path::resolve(self.workspace_folder@, path)
    }

    /// The key of the entry that `path` stands for in this store.
    pub open spec fn key(&self, path: Seq<char>) -> Key {
        crate::path::segments(self.spec_path(path))
    }

    /// The path under which this store reports the entry that `path` stands
    /// for: its physical path without the root of the store.
    pub open spec fn label(&self, path: Seq<char>) -> Seq<char> {
        crate::path::relative(self.workspace_folder@, self.spec_path(path))
    }

    /// The physical path that `path` stands for in this store.
    pub fn path(&self, path: &str) -> (r: String)
        ensures
            r@ == self.spec_path(path@),
    {
        crate::path::resolve_in(self.workspace_folder.as_str(), path)
    }

    /// Makes the directory at the physical path `dir` and those above it,
    /// unless the host holds an entry there already. A host's complaint that
    /// the directory is there counts as success.
    fn create_dir_at(&mut self, dir: &str) -> (r: Result<(), IoFailure>)
        requires
            old(self).inv(),
        ensures
            final(self).inv(),
            final(self).workspace_folder == old(self).workspace_folder,
            final(self).host.reliable() == old(self).host.reliable(),
            final(self).host.now_ms() == old(self).host.now_ms(),
            r is Ok ==> {
                &&& old(self).tree().contains(crate::path::segments(dir@)) || old(
                    self,
                ).tree().can_make_dirs(crate::path::segments(dir@))
                &&& final(self).tree() == old(self).tree().create_dir(
                    crate::path::segments(dir@),
                    old(self).host.now_ms(),
                )
            },
            r matches Err(f) ==> {
                &&& final(self).tree() == old(self).tree()
                &&& IoFailure::in_making(f.message@)
            },
            old(self).host.reliable() ==> (r is Ok <==> (old(self).tree().contains(
                crate::path::segments(dir@),
            ) || old(self).tree().can_make_dirs(crate::path::segments(dir@)))),
    {
        match exists_sync(&self.host, dir) {
            Ok(true) => {
                return Ok(());
            },
            Ok(false) => {},
            Err(e) => {
                return Err(e);
            },
        }
        let made = self.host.mkdir_sync(dir);
        mkdir_outcome(made)
    }

    /// Writes `buf` as the whole content of the file at `path`, after making
    /// the directories above it that are missing.
    pub fn write_sync(&mut self, path: &str, buf: &[u8]) -> (r: Result<(), IoFailure>)
        requires
            old(self).inv(),
        ensures
            final(self).inv(),
            final(self).workspace_folder == old(self).workspace_folder,
            final(self).host.reliable() == old(self).host.reliable(),
            final(self).host.now_ms() == old(self).host.now_ms(),
            r is Ok ==> final(self).tree() == old(self).tree().put(
                old(self).key(path@),
                buf@,
                old(self).host.now_ms(),
            ),
            r matches Err(f) ==> {
                &&& final(self).tree() == old(self).tree() || final(self).tree() == old(
                    self,
                ).tree().make_dirs(old(self).key(path@).drop_last(), old(self).host.now_ms())
                &&& IoFailure::in_writing(f.message@)
            },
            old(self).host.reliable() ==> (r is Ok <==> old(self).tree().can_put(
                old(self).key(path@),
            )),
    {
        let path = self.path(path);
        let ghost k = crate::path::segments(path@);
        let ghost before = self.tree();
        let ghost now = self.host.now_ms();
        proof {
            self.host.lemma_inv();
            crate::path::lemma_segments_parent(path@);
            crate::path::lemma_segments_are_names(path@);
        }
        if let Some(dir) = crate::path::parent(path.as_str()) {
            match self.create_dir_at(dir.as_str()) {
                Ok(()) => {},
                Err(e) => {
                    proof {
                        if before.contains(k.drop_last()) && !before.is_dir(k.drop_last()) {
                            assert(k.drop_last().take(k.len() - 1) =~= k.drop_last());
                        }
                    }
                    return Err(e);
                },
            }
            proof {
                let p = k.drop_last();
                if before.contains(p) {
                    if before.is_dir(p) {
                        before.lemma_make_dirs_present(p, now);
                    } else {
                        assert(p.take(p.len() as int) =~= p);
                        assert(!before.can_make_dirs(p));
                        before.lemma_leaf(p);
                        assert(!self.tree().can_write(k));
                    }
                } else {
                    assert(crate::path::all_names(p)) by {
                        assert forall|i: int| 0 <= i < p.len() implies crate::path::is_name(
                            #[trigger] p[i],
                        ) by {
                            assert(p[i] == k[i]);
                        }
                    }
                    before.lemma_make_dirs(p, now);
                    assert(!k.is_prefix_of(p));
                }
            }
        }
        match self.host.write_file_sync(path.as_str(), buf) {
            Ok(()) => Ok(()),
            Err(e) => Err(IoFailure::new("failed write file: ", &e)),
        }
    }

    /// Makes the directory at `path` and those above it. Where the host
    /// holds an entry at `path` already, nothing changes.
    pub fn create_dir_sync(&mut self, path: &str) -> (r: Result<(), IoFailure>)
        requires
            old(self).inv(),
        ensures
            final(self).inv(),
            final(self).workspace_folder == old(self).workspace_folder,
            final(self).host.reliable() == old(self).host.reliable(),
            final(self).host.now_ms() == old(self).host.now_ms(),
            r is Ok ==> {
                &&& old(self).tree().contains(old(self).key(path@)) || old(
                    self,
                ).tree().can_make_dirs(old(self).key(path@))
                &&& final(self).tree() == old(self).tree().create_dir(
                    old(self).key(path@),
                    old(self).host.now_ms(),
                )
            },
            r matches Err(f) ==> {
                &&& final(self).tree() == old(self).tree()
                &&& IoFailure::in_making(f.message@)
            },
            old(self).host.reliable() ==> (r is Ok <==> (old(self).tree().contains(
                old(self).key(path@),
            ) || old(self).tree().can_make_dirs(old(self).key(path@)))),
    {
        let path = self.path(path);
        self.create_dir_at(path.as_str())
    }

    /// The names of the entries directly inside the directory at `path`,
    /// each once, in no particular order; `None` where there is no entry at
    /// `path`.
    pub fn read_dir_sync(&self, path: &str) -> (r: Result<Option<Vec<String>>, IoFailure>)
        requires
            self.inv(),
        ensures
            r matches Ok(None) ==> !self.tree().contains(self.key(path@)),
            r matches Ok(Some(names)) ==> {
                &&& self.tree().is_dir(self.key(path@))
                &&& crate::path::views(names@).no_duplicates()
                &&& forall|n: Seq<char>|
                    crate::path::views(names@).contains(n) <==> self.tree().contains(
                        #[trigger] self.key(path@).push(n),
                    )
            },
            r matches Err(f) ==> IoFailure::in_exists(f.message@) || IoFailure::in_read_dir(
                f.message@,
            ),
            self.host.reliable() ==> (r is Ok <==> !self.tree().is_file(self.key(path@))),
    {
        let path = self.path(path);
        read_dir_sync(&self.host, path.as_str())
    }

    /// The stat of the entry at `path`; `None` where there is none.
    pub fn stat(&self, path: &str) -> (r: Result<Option<Stat>, IoFailure>)
        requires
            self.inv(),
        ensures
            r matches Ok(s) ==> s == Stat::at(self.tree(), self.key(path@)),
            r matches Err(f) ==> IoFailure::in_lookup(f.message@),
            self.host.reliable() ==> r is Ok,
    {
        let path = self.path(path);
        let ghost k = crate::path::segments(path@);
        match exists_sync(&self.host, path.as_str()) {
            Ok(true) => {},
            Ok(false) => {
                return Ok(None);
            },
            Err(e) => {
                return Err(e);
            },
        }
        let stats = match lstat_sync(&self.host, path.as_str()) {
            Ok(stats) => stats,
            Err(e) => {
                return Err(e);
            },
        };
        let entries: usize = if stats.is_file {
            0
        } else {
            match read_dir_sync(&self.host, path.as_str()) {
                Ok(Some(names)) => {
                    proof {
                        self.tree().lemma_child_names(k, crate::path::views(names@));
                    }
                    names.len()
                },
                Ok(None) => 0,
                Err(e) => {
                    return Err(e);
                },
            }
        };
        Ok(Some(Stat::derive(&stats, entries)))
    }

    /// Writes `buf` as the whole content of the file at `path`.
    pub fn write_file(&mut self, path: &str, buf: &[u8]) -> (r: Result<(), IoFailure>)
        requires
            old(self).inv(),
        ensures
            final(self).inv(),
            final(self).workspace_folder == old(self).workspace_folder,
            final(self).host.reliable() == old(self).host.reliable(),
            final(self).host.now_ms() == old(self).host.now_ms(),
            r is Ok ==> final(self).tree() == old(self).tree().put(
                old(self).key(path@),
                buf@,
                old(self).host.now_ms(),
            ),
            r matches Err(f) ==> {
                &&& final(self).tree() == old(self).tree() || final(self).tree() == old(
                    self,
                ).tree().make_dirs(old(self).key(path@).drop_last(), old(self).host.now_ms())
                &&& IoFailure::in_writing(f.message@)
            },
            old(self).host.reliable() ==> (r is Ok <==> old(self).tree().can_put(
                old(self).key(path@),
            )),
    {
        self.write_sync(path, buf)
    }

    /// Makes the directory at `path` and those above it.
    pub fn create_dir(&mut self, path: &str) -> (r: Result<(), IoFailure>)
        requires
            old(self).inv(),
        ensures
            final(self).inv(),
            final(self).workspace_folder == old(self).workspace_folder,
            final(self).host.reliable() == old(self).host.reliable(),
            final(self).host.now_ms() == old(self).host.now_ms(),
            r is Ok ==> {
                &&& old(self).tree().contains(old(self).key(path@)) || old(
                    self,
                ).tree().can_make_dirs(old(self).key(path@))
                &&& final(self).tree() == old(self).tree().create_dir(
                    old(self).key(path@),
                    old(self).host.now_ms(),
                )
            },
            r matches Err(f) ==> {
                &&& final(self).tree() == old(self).tree()
                &&& IoFailure::in_making(f.message@)
            },
            old(self).host.reliable() ==> (r is Ok <==> (old(self).tree().contains(
                old(self).key(path@),
            ) || old(self).tree().can_make_dirs(old(self).key(path@)))),
    {
        self.create_dir_sync(path)
    }

    /// What the file at `path` holds; `None` where there is no entry at
    /// `path`.
    pub fn read_file(&self, path: &str) -> (r: Result<Option<Vec<u8>>, IoFailure>)
        requires
            self.inv(),
        ensures
            r matches Ok(None) ==> !self.tree().contains(self.key(path@)),
            r matches Ok(Some(data)) ==> self.tree().read(self.key(path@)) == Some(data@),
            r matches Err(f) ==> IoFailure::in_exists(f.message@) || IoFailure::in_read_file(
                f.message@,
            ),
            self.host.reliable() ==> (r is Ok <==> !self.tree().is_dir(self.key(path@))),
    {
        let path = self.path(path);
        match exists_sync(&self.host, path.as_str()) {
            Ok(true) => {},
            Ok(false) => {
                return Ok(None);
            },
            Err(e) => {
                return Err(e);
            },
        }
        match self.host.read_file_sync(path.as_str()) {
            Ok(data) => Ok(Some(data)),
            Err(e) => Err(IoFailure::new("failed read file: ", &e)),
        }
    }

    /// The names of the entries directly inside the directory at `path`.
    pub fn read_dir(&self, path: &str) -> (r: Result<Option<Vec<String>>, IoFailure>)
        requires
            self.inv(),
        ensures
            r matches Ok(None) ==> !self.tree().contains(self.key(path@)),
            r matches Ok(Some(names)) ==> {
                &&& self.tree().is_dir(self.key(path@))
                &&& crate::path::views(names@).no_duplicates()
                &&& forall|n: Seq<char>|
                    crate::path::views(names@).contains(n) <==> self.tree().contains(
                        #[trigger] self.key(path@).push(n),
                    )
            },
            r matches Err(f) ==> IoFailure::in_exists(f.message@) || IoFailure::in_read_dir(
                f.message@,
            ),
            self.host.reliable() ==> (r is Ok <==> !self.tree().is_file(self.key(path@))),
    {
        self.read_dir_sync(path)
    }

    /// Removes the entry at `path` with everything below it. Where there is
    /// no entry at `path`, nothing changes. A removal that fails leaves the
    /// entry at `path` and every entry that is not below it.
    pub fn delete(&mut self, path: &str) -> (r: Result<(), IoFailure>)
        requires
            old(self).inv(),
        ensures
            final(self).inv(),
            final(self).workspace_folder == old(self).workspace_folder,
            final(self).host.reliable() == old(self).host.reliable(),
            final(self).host.now_ms() == old(self).host.now_ms(),
            r is Ok ==> final(self).tree() == old(self).tree().remove_all(old(self).key(path@)),
            final(self).tree().left_of(old(self).tree(), old(self).key(path@)),
            !old(self).tree().contains(old(self).key(path@)) ==> final(self).tree() == old(
                self,
            ).tree(),
            r matches Err(f) ==> {
                &&& old(self).tree().contains(old(self).key(path@)) ==> final(self).tree().contains(
                    old(self).key(path@),
                )
                &&& IoFailure::in_removing(f.message@)
            },
            old(self).host.reliable() ==> (r is Ok <==> old(self).key(path@).len() > 0),
    {
        let entry_path = self.path(path);
        rm_recursive(&mut self.host, entry_path)
    }

    /// The paths of the files at or below `path`, each once, in no
    /// particular order and without the root of the store. A directory is
    /// never among them; where there is no entry at `path`, there is none.
    pub fn all_files_in(&self, path: &str) -> (r: Result<Vec<String>, IoFailure>)
        requires
            self.inv(),
        ensures
            r matches Ok(files) ==> self.tree().lists_files(
                self.key(path@),
                self.label(path@),
                crate::path::views(files@),
            ),
            r matches Err(f) ==> IoFailure::in_lookup(f.message@),
            self.host.reliable() ==> r is Ok,
    {
        let physical = self.path(path);
        let logical = crate::path::relative_to(self.workspace_folder.as_str(), physical.as_str());
        files_in(&self.host, physical.as_str(), logical.as_str())
    }
}

} // verus!
