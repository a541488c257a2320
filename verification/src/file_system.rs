//! The file system facade and the stores behind it.

use crate::error::{IntoJsResult, IoFailure};
use crate::file_system::host::Host;
use crate::file_system::node::NodeFileSystem;
use crate::file_system::stat::Stat;
use crate::file_system::tree::{Key, Tree};
use crate::js_vec::{JsVecString, JsVecU8};
use crate::vscode::{ChangeKind, FileChangeEventEmitter};
use vstd::prelude::*;

pub mod host;
pub mod laws;
pub mod memory;
pub mod node;
pub mod stat;
pub mod tree;

verus! {

/// One of the two stores.
#[derive(Debug, Clone, Copy, PartialEq, Eq, Structural)]
pub enum Store {
    Repository,
    Workspace,
}

/// One file system over two stores. A path that begins with `workspace` or
/// `/workspace` is kept in the workspace store, every other path in the
/// repository store. The path `.` stands for the roots of both stores where
/// a directory is read, an entry removed, or the files listed.
///
/// A call that writes a file, makes a directory or removes an entry adds,
/// when it succeeds, one change to those that wait in `vscode`, if there is
/// an observer. A call that fails adds none, and neither does a removal that
/// found nothing to remove.
pub struct WasmFileSystem<R: Host, W: Host> {
    pub repository: NodeFileSystem<R>,
    pub workspace: NodeFileSystem<W>,
    pub vscode: Option<FileChangeEventEmitter>,
}

impl<R: Host, W: Host> WasmFileSystem<R, W> {
    pub fn new(
        repository: NodeFileSystem<R>,
        workspace: NodeFileSystem<W>,
        vscode: Option<FileChangeEventEmitter>,
    ) -> (r: Self)
        ensures
            r.repository == repository,
            r.workspace == workspace,
            r.vscode == vscode,
    {
        Self { repository, workspace, vscode }
    }

    /// What holds of the file system between calls.
    pub open spec fn inv(&self) -> bool {
        self.repository.inv() && self.workspace.inv()
    }

    /// Whether `path` is kept in the workspace store.
    pub open spec fn in_workspace(path: Seq<char>) -> bool {
        "workspace"@.is_prefix_of(path) || "/workspace"@.is_prefix_of(path)
    }

    /// Whether `path` stands for the roots of both stores.
    pub open spec fn is_both(path: Seq<char>) -> bool {
        path == seq!['.']
    }

    /// The entries of the store that keeps `path`.
    pub open spec fn tree_for(&self, path: Seq<char>) -> Tree {
        if Self::in_workspace(path) {
            self.workspace.tree()
        } else {
            self.repository.tree()
        }
    }

    /// The entries of the store that does not keep `path`.
    pub open spec fn other_tree(&self, path: Seq<char>) -> Tree {
        if Self::in_workspace(path) {
            self.repository.tree()
        } else {
            self.workspace.tree()
        }
    }

    /// The key of `path` in the store that keeps it.
    pub open spec fn key_for(&self, path: Seq<char>) -> Key {
        if Self::in_workspace(path) {
            self.workspace.key(path)
        } else {
            self.repository.key(path)
        }
    }

    /// The path under which the store that keeps `path` reports it.
    pub open spec fn label_for(&self, path: Seq<char>) -> Seq<char> {
        if Self::in_workspace(path) {
            self.workspace.label(path)
        } else {
            self.repository.label(path)
        }
    }

    /// Whether the host of the store that keeps `path` is reliable.
    pub open spec fn reliable_for(&self, path: Seq<char>) -> bool {
        if Self::in_workspace(path) {
            self.workspace.host.reliable()
        } else {
            self.repository.host.reliable()
        }
    }

    /// The time of the host of the store that keeps `path`.
    pub open spec fn now_for(&self, path: Seq<char>) -> u64 {
        if Self::in_workspace(path) {
            self.workspace.host.now_ms()
        } else {
            self.repository.host.now_ms()
        }
    }

    /// The changes that wait for the observer; none without an observer.
    pub open spec fn events(&self) -> Seq<(Seq<char>, ChangeKind)> {
        match self.vscode {
            Some(emitter) => emitter@,
            None => Seq::empty(),
        }
    }

    /// The waiting changes after one more is reported.
    pub open spec fn events_after(&self, uri: Seq<char>, kind: ChangeKind) -> Seq<
        (Seq<char>, ChangeKind),
    > {
        if self.vscode is Some {
            self.events().push((uri, kind))
        } else {
            self.events()
        }
    }

    /// What no call changes: the roots of the stores, what is known of their
    /// hosts, and whether there is an observer.
    pub open spec fn same_setup(&self, other: &Self) -> bool {
        &&& self.repository.workspace_folder == other.repository.workspace_folder
        &&& self.workspace.workspace_folder == other.workspace.workspace_folder
        &&& self.repository.host.reliable() == other.repository.host.reliable()
        &&& self.workspace.host.reliable() == other.workspace.host.reliable()
        &&& self.repository.host.now_ms() == other.repository.host.now_ms()
        &&& self.workspace.host.now_ms() == other.workspace.host.now_ms()
        &&& self.vscode is Some == other.vscode is Some
    }

    /// `names` lists the directory at `k`, or is empty where `tree` holds
    /// nothing at `k`.
    pub open spec fn lists_dir(tree: Tree, k: Key, names: Seq<Seq<char>>) -> bool {
        if tree.contains(k) {
            &&& tree.is_dir(k)
            &&& names.no_duplicates()
            &&& forall|n: Seq<char>| names.contains(n) <==> tree.contains(#[trigger] k.push(n))
        } else {
            names.len() == 0
        }
    }

    /// `names` lists the root of the repository store and then the root of
    /// the workspace store.
    pub open spec fn lists_roots(&self, names: Seq<Seq<char>>) -> bool {
        exists|n: int|
            #![trigger names.take(n)]
            0 <= n <= names.len() && Self::lists_dir(
                self.repository.tree(),
                self.repository.key(seq!['.']),
                names.take(n),
            ) && Self::lists_dir(
                self.workspace.tree(),
                self.workspace.key(seq!['.']),
                names.skip(n),
            )
    }

    /// `files` lists the files of the repository store and then those of the
    /// workspace store.
    pub open spec fn lists_all_files(&self, files: Seq<Seq<char>>) -> bool {
        exists|n: int|
            #![trigger files.take(n)]
            0 <= n <= files.len() && self.repository.tree().lists_files(
                self.repository.key(seq!['.']),
                self.repository.label(seq!['.']),
                files.take(n),
            ) && self.workspace.tree().lists_files(
                self.workspace.key(seq!['.']),
                self.workspace.label(seq!['.']),
                files.skip(n),
            )
    }

    /// What a removal at `path` leaves of `before` and what it reports, when
    /// it succeeded (`ok`) and when it failed.
    ///
    /// No store gains or changes an entry, and an entry that is not at or
    /// below the removed one is kept. Where nothing was there, nothing
    /// changes and nothing is reported. A removal that succeeded has removed
    /// the entry with everything below it and reports `Delete` once if there
    /// was an entry. One that failed reports nothing and has stopped at once:
    /// the entry it failed on is still there.
    pub open spec fn after_delete(&self, before: &Self, path: Seq<char>, ok: bool) -> bool {
        if Self::is_both(path) {
            let rk = before.repository.key(path);
            let wk = before.workspace.key(path);
            let rt = before.repository.tree();
            let wt = before.workspace.tree();
            &&& self.repository.tree().left_of(rt, rk)
            &&& self.workspace.tree().left_of(wt, wk)
            &&& !rt.contains(rk) ==> self.repository.tree() == rt
            &&& !wt.contains(wk) ==> self.workspace.tree() == wt
            &&& ok ==> {
                &&& self.repository.tree() == rt.remove_all(rk)
                &&& self.workspace.tree() == wt.remove_all(wk)
                &&& self.events() == if rt.contains(rk) || wt.contains(wk) {
                    before.events_after(path, ChangeKind::Delete)
                } else {
                    before.events()
                }
            }
            &&& !ok ==> {
                &&& self.events() == before.events()
                &&& {
                    ||| {
                        &&& rt.contains(rk) ==> self.repository.tree().contains(rk)
                        &&& self.workspace.tree() == wt
                    }
                    ||| {
                        &&& self.repository.tree() == rt.remove_all(rk)
                        &&& wt.contains(wk) ==> self.workspace.tree().contains(wk)
                    }
                }
            }
        } else {
            let k = before.key_for(path);
            let t = before.tree_for(path);
            &&& self.other_tree(path) == before.other_tree(path)
            &&& self.tree_for(path).left_of(t, k)
            &&& !t.contains(k) ==> self.tree_for(path) == t
            &&& ok ==> {
                &&& self.tree_for(path) == t.remove_all(k)
                &&& self.events() == if t.contains(k) {
                    before.events_after(path, ChangeKind::Delete)
                } else {
                    before.events()
                }
            }
            &&& !ok ==> {
                &&& self.events() == before.events()
                &&& t.contains(k) ==> self.tree_for(path).contains(k)
            }
        }
    }

    /// A removal at `path` succeeds on reliable hosts: the root of a host is
    /// the one entry that cannot be removed.
    pub open spec fn can_delete(&self, path: Seq<char>) -> bool {
        if Self::is_both(path) {
            self.repository.key(path).len() > 0 && self.workspace.key(path).len() > 0
        } else {
            self.key_for(path).len() > 0
        }
    }

    /// Whether the hosts that a call on `path` turns to are reliable.
    pub open spec fn reliable_on(&self, path: Seq<char>) -> bool {
        if Self::is_both(path) {
            self.repository.host.reliable() && self.workspace.host.reliable()
        } else {
            self.reliable_for(path)
        }
    }

    /// The store that keeps `path`.
    pub fn fs(&self, path: &str) -> (r: Store)
        ensures
            r == (if Self::in_workspace(path@) {
                Store::Workspace
            } else {
                Store::Repository
            }),
    {
        if crate::path::starts_with(path, "workspace") || crate::path::starts_with(
            path,
            "/workspace",
        ) {
            Store::Workspace
        } else {
            Store::Repository
        }
    }

    /// Reports one change, if there is an observer.
    pub fn notify(&mut self, uri: &str, change_type: ChangeKind)
        ensures
            final(self).repository == old(self).repository,
            final(self).workspace == old(self).workspace,
            final(self).vscode is Some == old(self).vscode is Some,
            final(self).events() == old(self).events_after(uri@, change_type),
    {
        match &mut self.vscode {
            Some(vscode) => {
                vscode.notify(uri, change_type);
            },
            None => {},
        }
    }

    /// The stat of the entry at `path`; `None` where there is none.
    pub fn stat(&self, path: &str) -> (r: Result<Option<Stat>, IoFailure>)
        requires
            self.inv(),
        ensures
            r matches Ok(s) ==> s == Stat::at(self.tree_for(path@), self.key_for(path@)),
            r matches Err(f) ==> IoFailure::in_lookup(f.message@),
            self.reliable_for(path@) ==> r is Ok,
    {
        match self.fs(path) {
            Store::Repository => self.repository.stat(path),
            Store::Workspace => self.workspace.stat(path),
        }
    }

    /// Whether there is an entry at `uri`.
    pub fn exists_at(&self, uri: &str) -> (r: Result<bool, IoFailure>)
        requires
            self.inv(),
        ensures
            r matches Ok(b) ==> b == self.tree_for(uri@).contains(self.key_for(uri@)),
            r matches Err(f) ==> IoFailure::in_lookup(f.message@),
            self.reliable_for(uri@) ==> r is Ok,
    {
        match self.stat(uri) {
            Ok(stat) => Ok(stat.is_some()),
            Err(e) => Err(e),
        }
    }

    /// Writes `buf` as the whole content of the file at `path`, after making
    /// the directories above it that are missing. Reports `Change` where
    /// there was an entry at `path`, else `Create`.
    pub fn write_file(&mut self, path: &str, buf: &[u8]) -> (r: Result<(), IoFailure>)
        requires
            old(self).inv(),
        ensures
            final(self).inv(),
            final(self).same_setup(old(self)),
            final(self).other_tree(path@) == old(self).other_tree(path@),
            r is Ok ==> {
                &&& final(self).tree_for(path@) == old(self).tree_for(path@).put(
                    old(self).key_for(path@),
                    buf@,
                    old(self).now_for(path@),
                )
                &&& final(self).events() == old(self).events_after(
                    path@,
                    if old(self).tree_for(path@).contains(old(self).key_for(path@)) {
                        ChangeKind::Change
                    } else {
                        ChangeKind::Create
                    },
                )
            },
            r is Err ==> {
                &&& final(self).tree_for(path@) == old(self).tree_for(path@)
                    || final(self).tree_for(path@) == old(self).tree_for(path@).make_dirs(
                    old(self).key_for(path@).drop_last(),
                    old(self).now_for(path@),
                )
                &&& final(self).events() == old(self).events()
            },
            r matches Err(f) ==> IoFailure::in_lookup(f.message@) || IoFailure::in_writing(
                f.message@,
            ),
            old(self).reliable_for(path@) ==> (r is Ok <==> old(self).tree_for(path@).can_put(
                old(self).key_for(path@),
            )),
    {
        let existed = match self.exists_at(path) {
            Ok(existed) => existed,
            Err(e) => {
                return Err(e);
            },
        };
        let written = match self.fs(path) {
            Store::Repository => self.repository.write_file(path, buf),
            Store::Workspace => self.workspace.write_file(path, buf),
        };
        match written {
            Ok(()) => {},
            Err(e) => {
                return Err(e);
            },
        }
        self.notify(
            path,
            if existed {
                ChangeKind::Change
            } else {
                ChangeKind::Create
            },
        );
        Ok(())
    }

    /// Makes the directory at `path` and those above it; where there is an
    /// entry at `path` already, nothing changes in the store. Reports
    /// `Change` where there was an entry at `path`, else `Create`.
    pub fn create_dir(&mut self, path: &str) -> (r: Result<(), IoFailure>)
        requires
            old(self).inv(),
        ensures
            final(self).inv(),
            final(self).same_setup(old(self)),
            final(self).other_tree(path@) == old(self).other_tree(path@),
            r is Ok ==> {
                &&& final(self).tree_for(path@) == old(self).tree_for(path@).create_dir(
                    old(self).key_for(path@),
                    old(self).now_for(path@),
                )
                &&& final(self).events() == old(self).events_after(
                    path@,
                    if old(self).tree_for(path@).contains(old(self).key_for(path@)) {
                        ChangeKind::Change
                    } else {
                        ChangeKind::Create
                    },
                )
            },
            r is Err ==> {
                &&& final(self).tree_for(path@) == old(self).tree_for(path@)
                &&& final(self).events() == old(self).events()
            },
            r matches Err(f) ==> IoFailure::in_lookup(f.message@) || IoFailure::in_making(
                f.message@,
            ),
            old(self).reliable_for(path@) ==> (r is Ok <==> (old(self).tree_for(path@).contains(
                old(self).key_for(path@),
            ) || old(self).tree_for(path@).can_make_dirs(old(self).key_for(path@)))),
    {
        let existed = match self.exists_at(path) {
            Ok(existed) => existed,
            Err(e) => {
                return Err(e);
            },
        };
        let made = match self.fs(path) {
            Store::Repository => self.repository.create_dir(path),
            Store::Workspace => self.workspace.create_dir(path),
        };
        match made {
            Ok(()) => {},
            Err(e) => {
                return Err(e);
            },
        }
        self.notify(
            path,
            if existed {
                ChangeKind::Change
            } else {
                ChangeKind::Create
            },
        );
        Ok(())
    }

    /// What the file at `path` holds; `None` where there is no entry at
    /// `path`.
    pub fn read_file(&self, path: &str) -> (r: Result<Option<Vec<u8>>, IoFailure>)
        requires
            self.inv(),
        ensures
            r matches Ok(None) ==> !self.tree_for(path@).contains(self.key_for(path@)),
            r matches Ok(Some(data)) ==> self.tree_for(path@).read(self.key_for(path@)) == Some(
                data@,
            ),
            r matches Err(f) ==> IoFailure::in_exists(f.message@) || IoFailure::in_read_file(
                f.message@,
            ),
            self.reliable_for(path@) ==> (r is Ok <==> !self.tree_for(path@).is_dir(
                self.key_for(path@),
            )),
    {
        match self.fs(path) {
            Store::Repository => self.repository.read_file(path),
            Store::Workspace => self.workspace.read_file(path),
        }
    }

    /// The names of the entries directly inside the directory at `path`, each
    /// once; `None` where there is no entry at `path`. For `.` the names in
    /// the root of the repository store and then those in the root of the
    /// workspace store; `None` where neither root is there.
    pub fn read_dir(&self, path: &str) -> (r: Result<Option<Vec<String>>, IoFailure>)
        requires
            self.inv(),
        ensures
            !Self::is_both(path@) ==> {
                &&& r matches Ok(None) ==> !self.tree_for(path@).contains(self.key_for(path@))
                &&& r matches Ok(Some(names)) ==> self.tree_for(path@).contains(
                    self.key_for(path@),
                ) && Self::lists_dir(
                    self.tree_for(path@),
                    self.key_for(path@),
                    crate::path::views(names@),
                )
                &&& self.reliable_for(path@) ==> (r is Ok <==> !self.tree_for(path@).is_file(
                    self.key_for(path@),
                ))
            },
            r matches Ok(None) ==> (Self::is_both(path@) ==> !self.repository.tree().contains(
                self.repository.key(path@),
            ) && !self.workspace.tree().contains(self.workspace.key(path@))),
            r matches Ok(Some(names)) ==> (Self::is_both(path@) ==> {
                &&& self.repository.tree().contains(self.repository.key(path@))
                    || self.workspace.tree().contains(self.workspace.key(path@))
                &&& self.lists_roots(crate::path::views(names@))
            }),
            r matches Err(f) ==> IoFailure::in_exists(f.message@) || IoFailure::in_read_dir(
                f.message@,
            ),
            Self::is_both(path@) && self.repository.host.reliable()
                && self.workspace.host.reliable() ==> (r is Ok <==> !self.repository.tree().is_file(
                self.repository.key(path@),
            ) && !self.workspace.tree().is_file(self.workspace.key(path@))),
    {
        proof {
            reveal_strlit(".");
            assert("."@ =~= seq!['.']);
        }
        if crate::path::str_eq(path, ".") {
            let first = match self.repository.read_dir(".") {
                Ok(first) => first,
                Err(e) => {
                    return Err(e);
                },
            };
            let second = match self.workspace.read_dir(".") {
                Ok(second) => second,
                Err(e) => {
                    return Err(e);
                },
            };
            if first.is_none() && second.is_none() {
                return Ok(None);
            }
            let mut names = match first {
                Some(names) => names,
                None => Vec::new(),
            };
            let mut rest = match second {
                Some(names) => names,
                None => Vec::new(),
            };
            let ghost a = crate::path::views(names@);
            let ghost b = crate::path::views(rest@);
            proof {
                assert(Self::lists_dir(self.repository.tree(), self.repository.key(path@), a));
                assert(Self::lists_dir(self.workspace.tree(), self.workspace.key(path@), b));
            }
            names.append(&mut rest);
            proof {
                let all = crate::path::views(names@);
                let n = a.len() as int;
                assert(all.take(n) =~= a);
                assert(all.skip(n) =~= b);
                assert(Self::lists_dir(
                    self.repository.tree(),
                    self.repository.key(seq!['.']),
                    all.take(n),
                ));
                assert(Self::lists_dir(
                    self.workspace.tree(),
                    self.workspace.key(seq!['.']),
                    all.skip(n),
                ));
                assert(self.lists_roots(all));
            }
            Ok(Some(names))
        } else {
            match self.fs(path) {
                Store::Repository => self.repository.read_dir(path),
                Store::Workspace => self.workspace.read_dir(path),
            }
        }
    }

    /// Removes the entry at `path` with everything below it; for `.` the
    /// roots of both stores, the repository store first. Where there is no
    /// such entry, nothing changes and nothing is reported; else `Delete` is
    /// reported once the removal has succeeded.
    pub fn delete(&mut self, path: &str) -> (r: Result<(), IoFailure>)
        requires
            old(self).inv(),
        ensures
            final(self).inv(),
            final(self).same_setup(old(self)),
            final(self).after_delete(old(self), path@, r is Ok),
            r matches Err(f) ==> IoFailure::in_removing(f.message@),
            old(self).reliable_on(path@) ==> (r is Ok <==> old(self).can_delete(path@)),
    {
        proof {
            reveal_strlit(".");
            assert("."@ =~= seq!['.']);
        }
        if crate::path::str_eq(path, ".") {
            let first = match self.repository.stat(".") {
                Ok(stat) => stat.is_some(),
                Err(e) => {
                    return Err(e);
                },
            };
            let second = match self.workspace.stat(".") {
                Ok(stat) => stat.is_some(),
                Err(e) => {
                    return Err(e);
                },
            };
            match self.repository.delete(".") {
                Ok(()) => {},
                Err(e) => {
                    return Err(e);
                },
            }
            match self.workspace.delete(".") {
                Ok(()) => {},
                Err(e) => {
                    return Err(e);
                },
            }
            if first || second {
                self.notify(path, ChangeKind::Delete);
            }
        } else {
            let existed = match self.exists_at(path) {
                Ok(existed) => existed,
                Err(e) => {
                    return Err(e);
                },
            };
            let removed = match self.fs(path) {
                Store::Repository => self.repository.delete(path),
                Store::Workspace => self.workspace.delete(path),
            };
            match removed {
                Ok(()) => {},
                Err(e) => {
                    return Err(e);
                },
            }
            if existed {
                self.notify(path, ChangeKind::Delete);
            }
        }
        Ok(())
    }

    /// The paths of the files at or below `path`, each once and without the
    /// root of its store; for `.` those of the repository store and then
    /// those of the workspace store.
    pub fn all_files_in(&self, path: &str) -> (r: Result<Vec<String>, IoFailure>)
        requires
            self.inv(),
        ensures
            !Self::is_both(path@) ==> {
                &&& r matches Ok(files) ==> self.tree_for(path@).lists_files(
                    self.key_for(path@),
                    self.label_for(path@),
                    crate::path::views(files@),
                )
                &&& self.reliable_for(path@) ==> r is Ok
            },
            r matches Ok(files) ==> (Self::is_both(path@) ==> self.lists_all_files(
                crate::path::views(files@),
            )),
            r matches Err(f) ==> IoFailure::in_lookup(f.message@),
            Self::is_both(path@) && self.repository.host.reliable()
                && self.workspace.host.reliable() ==> r is Ok,
    {
        proof {
            reveal_strlit(".");
            assert("."@ =~= seq!['.']);
        }
        if crate::path::str_eq(path, ".") {
            let mut files = match self.repository.all_files_in(".") {
                Ok(files) => files,
                Err(e) => {
                    return Err(e);
                },
            };
            let mut rest = match self.workspace.all_files_in(".") {
                Ok(files) => files,
                Err(e) => {
                    return Err(e);
                },
            };
            let ghost a = crate::path::views(files@);
            let ghost b = crate::path::views(rest@);
            proof {
                assert(self.repository.tree().lists_files(
                    self.repository.key(path@),
                    self.repository.label(path@),
                    a,
                ));
                assert(self.workspace.tree().lists_files(
                    self.workspace.key(path@),
                    self.workspace.label(path@),
                    b,
                ));
            }
            files.append(&mut rest);
            proof {
                let all = crate::path::views(files@);
                let n = a.len() as int;
                assert(all.take(n) =~= a);
                assert(all.skip(n) =~= b);
                assert(self.repository.tree().lists_files(
                    self.repository.key(seq!['.']),
                    self.repository.label(seq!['.']),
                    all.take(n),
                ));
                assert(self.workspace.tree().lists_files(
                    self.workspace.key(seq!['.']),
                    self.workspace.label(seq!['.']),
                    all.skip(n),
                ));
                assert(self.lists_all_files(all));
            }
            Ok(files)
        } else {
            match self.fs(path) {
                Store::Repository => self.repository.all_files_in(path),
                Store::Workspace => self.workspace.all_files_in(path),
            }
        }
    }
}

/// The calls as a script makes them: a failure is its message, and a list is
/// wrapped for the script.
impl<R: Host, W: Host> WasmFileSystem<R, W> {
    pub fn stat_api(&self, path: &str) -> (r: Result<Option<Stat>, String>)
        requires
            self.inv(),
        ensures
            r matches Ok(s) ==> s == Stat::at(self.tree_for(path@), self.key_for(path@)),
            r matches Err(m) ==> IoFailure::in_lookup(m@),
            self.reliable_for(path@) ==> r is Ok,
    {
        self.stat(path).into_js_result()
    }

    pub fn write_file_api(&mut self, path: &str, buf: &[u8]) -> (r: Result<(), String>)
        requires
            old(self).inv(),
        ensures
            final(self).inv(),
            final(self).same_setup(old(self)),
            final(self).other_tree(path@) == old(self).other_tree(path@),
            r is Ok ==> {
                &&& final(self).tree_for(path@) == old(self).tree_for(path@).put(
                    old(self).key_for(path@),
                    buf@,
                    old(self).now_for(path@),
                )
                &&& final(self).events() == old(self).events_after(
                    path@,
                    if old(self).tree_for(path@).contains(old(self).key_for(path@)) {
                        ChangeKind::Change
                    } else {
                        ChangeKind::Create
                    },
                )
            },
            r is Err ==> {
                &&& final(self).tree_for(path@) == old(self).tree_for(path@)
                    || final(self).tree_for(path@) == old(self).tree_for(path@).make_dirs(
                    old(self).key_for(path@).drop_last(),
                    old(self).now_for(path@),
                )
                &&& final(self).events() == old(self).events()
            },
            r matches Err(m) ==> IoFailure::in_lookup(m@) || IoFailure::in_writing(m@),
            old(self).reliable_for(path@) ==> (r is Ok <==> old(self).tree_for(path@).can_put(
                old(self).key_for(path@),
            )),
    {
        self.write_file(path, buf).into_js_result()
    }

    pub fn read_file_api(&self, path: &str) -> (r: Result<Option<JsVecU8>, String>)
        requires
            self.inv(),
        ensures
            r matches Ok(None) ==> !self.tree_for(path@).contains(self.key_for(path@)),
            r matches Ok(Some(data)) ==> self.tree_for(path@).read(self.key_for(path@)) == Some(
                data.0@,
            ),
            r matches Err(m) ==> IoFailure::in_exists(m@) || IoFailure::in_read_file(m@),
            self.reliable_for(path@) ==> (r is Ok <==> !self.tree_for(path@).is_dir(
                self.key_for(path@),
            )),
    {
        match self.read_file(path).into_js_result() {
            Ok(Some(data)) => Ok(Some(JsVecU8(data))),
            Ok(None) => Ok(None),
            Err(e) => Err(e),
        }
    }

    pub fn create_dir_api(&mut self, path: &str) -> (r: Result<(), String>)
        requires
            old(self).inv(),
        ensures
            final(self).inv(),
            final(self).same_setup(old(self)),
            final(self).other_tree(path@) == old(self).other_tree(path@),
            r is Ok ==> {
                &&& final(self).tree_for(path@) == old(self).tree_for(path@).create_dir(
                    old(self).key_for(path@),
                    old(self).now_for(path@),
                )
                &&& final(self).events() == old(self).events_after(
                    path@,
                    if old(self).tree_for(path@).contains(old(self).key_for(path@)) {
                        ChangeKind::Change
                    } else {
                        ChangeKind::Create
                    },
                )
            },
            r is Err ==> {
                &&& final(self).tree_for(path@) == old(self).tree_for(path@)
                &&& final(self).events() == old(self).events()
            },
            r matches Err(m) ==> IoFailure::in_lookup(m@) || IoFailure::in_making(m@),
            old(self).reliable_for(path@) ==> (r is Ok <==> (old(self).tree_for(path@).contains(
                old(self).key_for(path@),
            ) || old(self).tree_for(path@).can_make_dirs(old(self).key_for(path@)))),
    {
        self.create_dir(path).into_js_result()
    }

    pub fn read_dir_api(&self, path: &str) -> (r: Result<Option<JsVecString>, String>)
        requires
            self.inv(),
        ensures
            !Self::is_both(path@) ==> {
                &&& r matches Ok(None) ==> !self.tree_for(path@).contains(self.key_for(path@))
                &&& r matches Ok(Some(names)) ==> self.tree_for(path@).contains(
                    self.key_for(path@),
                ) && Self::lists_dir(
                    self.tree_for(path@),
                    self.key_for(path@),
                    crate::path::views(names.0@),
                )
                &&& self.reliable_for(path@) ==> (r is Ok <==> !self.tree_for(path@).is_file(
                    self.key_for(path@),
                ))
            },
            r matches Ok(None) ==> (Self::is_both(path@) ==> !self.repository.tree().contains(
                self.repository.key(path@),
            ) && !self.workspace.tree().contains(self.workspace.key(path@))),
            r matches Ok(Some(names)) ==> (Self::is_both(path@) ==> {
                &&& self.repository.tree().contains(self.repository.key(path@))
                    || self.workspace.tree().contains(self.workspace.key(path@))
                &&& self.lists_roots(crate::path::views(names.0@))
            }),
            r matches Err(m) ==> IoFailure::in_exists(m@) || IoFailure::in_read_dir(m@),
            Self::is_both(path@) && self.repository.host.reliable()
                && self.workspace.host.reliable() ==> (r is Ok <==> !self.repository.tree().is_file(
                self.repository.key(path@),
            ) && !self.workspace.tree().is_file(self.workspace.key(path@))),
    {
        match self.read_dir(path).into_js_result() {
            Ok(Some(names)) => Ok(Some(JsVecString(names))),
            Ok(None) => Ok(None),
            Err(e) => Err(e),
        }
    }

    pub fn delete_api(&mut self, path: &str) -> (r: Result<(), String>)
        requires
            old(self).inv(),
        ensures
            final(self).inv(),
            final(self).same_setup(old(self)),
            final(self).after_delete(old(self), path@, r is Ok),
            r matches Err(m) ==> IoFailure::in_removing(m@),
            old(self).reliable_on(path@) ==> (r is Ok <==> old(self).can_delete(path@)),
    {
        self.delete(path).into_js_result()
    }

    pub fn exists_api(&self, path: &str) -> (r: Result<bool, String>)
        requires
            self.inv(),
        ensures
            r matches Ok(b) ==> b == self.tree_for(path@).contains(self.key_for(path@)),
            r matches Err(m) ==> IoFailure::in_lookup(m@),
            self.reliable_for(path@) ==> r is Ok,
    {
        match self.stat_api(path) {
            Ok(stat) => Ok(stat.is_some()),
            Err(e) => Err(e),
        }
    }

    pub fn all_files_in_api(&self, path: &str) -> (r: Result<JsVecString, String>)
        requires
            self.inv(),
        ensures
            !Self::is_both(path@) ==> {
                &&& r matches Ok(files) ==> self.tree_for(path@).lists_files(
                    self.key_for(path@),
                    self.label_for(path@),
                    crate::path::views(files.0@),
                )
                &&& self.reliable_for(path@) ==> r is Ok
            },
            r matches Ok(files) ==> (Self::is_both(path@) ==> self.lists_all_files(
                crate::path::views(files.0@),
            )),
            r matches Err(m) ==> IoFailure::in_lookup(m@),
            Self::is_both(path@) && self.repository.host.reliable()
                && self.workspace.host.reliable() ==> r is Ok,
    {
        match self.all_files_in(path).into_js_result() {
            Ok(files) => Ok(JsVecString(files)),
            Err(e) => Err(e),
        }
    }
}

} // verus!
