//! A host file system that is kept in memory.

use crate::file_system::host::Host;
use crate::file_system::node::error::Error;
use crate::file_system::node::stats::Stats;
use crate::file_system::tree::{Key, Node, Tree};
use vstd::prelude::*;
use vstd::slice::slice_to_vec;

verus! {

/// One entry of a [`MemoryHost`].
struct MemoryEntry {
    key: Vec<String>,
    is_file: bool,
    data: Vec<u8>,
    created_ms: u64,
    modified_ms: u64,
}

impl MemoryEntry {
    spec fn key(&self) -> Key {
        crate::path::views(self.key@)
    }

    spec fn node(&self) -> Node {
        Node {
            is_file: self.is_file,
            data: self.data@,
            created_ms: self.created_ms,
            modified_ms: self.modified_ms,
        }
    }
}

/// The map that a list of entries stands for. A later entry would take the
/// place of an earlier one with the same key; a host holds each key once.
spec fn tree_of(es: Seq<MemoryEntry>) -> Map<Key, Node>
    decreases es.len(),
{
    if es.len() == 0 {
        Map::empty()
    } else {
        tree_of(es.drop_last()).insert(es.last().key(), es.last().node())
    }
}

/// No two entries have the same key.
spec fn unique(es: Seq<MemoryEntry>) -> bool {
    forall|i: int, j: int|
        0 <= i < es.len() && 0 <= j < es.len() && i != j ==> (#[trigger] es[i]).key() != (
        #[trigger] es[j]).key()
}

proof fn lemma_absent(es: Seq<MemoryEntry>, k: Key)
    requires
        forall|i: int| 0 <= i < es.len() ==> (#[trigger] es[i]).key() != k,
    ensures
        !tree_of(es).contains_key(k),
    decreases es.len(),
{
    if es.len() > 0 {
        let rest = es.drop_last();
        assert forall|i: int| 0 <= i < rest.len() implies (#[trigger] rest[i]).key() != k by {
            assert(rest[i] == es[i]);
        }
        lemma_absent(rest, k);
        assert(es.last() == es[es.len() - 1]);
    }
}

proof fn lemma_present(es: Seq<MemoryEntry>, k: Key) -> (i: int)
    requires
        tree_of(es).contains_key(k),
    ensures
        0 <= i < es.len(),
        es[i].key() == k,
    decreases es.len(),
{
    if es.last().key() == k {
        es.len() - 1
    } else {
        lemma_present(es.drop_last(), k)
    }
}

proof fn lemma_unique_rest(es: Seq<MemoryEntry>)
    requires
        unique(es),
        es.len() > 0,
    ensures
        unique(es.drop_last()),
        forall|i: int| 0 <= i < es.len() - 1 ==> (#[trigger] es.drop_last()[i]).key() != es.last().key(),
{
    let rest = es.drop_last();
    assert forall|i: int, j: int| 0 <= i < rest.len() && 0 <= j < rest.len() && i != j implies (
    #[trigger] rest[i]).key() != (#[trigger] rest[j]).key() by {
        assert(rest[i] == es[i]);
        assert(rest[j] == es[j]);
    }
    assert forall|i: int| 0 <= i < es.len() - 1 implies (#[trigger] rest[i]).key()
        != es.last().key() by {
        assert(rest[i] == es[i]);
        assert(es.last() == es[es.len() - 1]);
    }
}

proof fn lemma_lookup(es: Seq<MemoryEntry>, i: int)
    requires
        unique(es),
        0 <= i < es.len(),
    ensures
        tree_of(es).contains_key(es[i].key()),
        tree_of(es)[es[i].key()] == es[i].node(),
    decreases es.len(),
{
    if i < es.len() - 1 {
        let rest = es.drop_last();
        lemma_unique_rest(es);
        lemma_lookup(rest, i);
        assert(rest[i] == es[i]);
    }
}

proof fn lemma_push(es: Seq<MemoryEntry>, e: MemoryEntry)
    requires
        unique(es),
        !tree_of(es).contains_key(e.key()),
    ensures
        unique(es.push(e)),
        tree_of(es.push(e)) == tree_of(es).insert(e.key(), e.node()),
{
    let r = es.push(e);
    assert(r.drop_last() =~= es);
    assert forall|i: int, j: int| 0 <= i < r.len() && 0 <= j < r.len() && i != j implies (
    #[trigger] r[i]).key() != (#[trigger] r[j]).key() by {
        if i < es.len() {
            assert(r[i] == es[i]);
            lemma_lookup(es, i);
        }
        if j < es.len() {
            assert(r[j] == es[j]);
            lemma_lookup(es, j);
        }
    }
}

proof fn lemma_set(es: Seq<MemoryEntry>, i: int, e: MemoryEntry)
    requires
        unique(es),
        0 <= i < es.len(),
        e.key() == es[i].key(),
    ensures
        unique(es.update(i, e)),
        tree_of(es.update(i, e)) == tree_of(es).insert(e.key(), e.node()),
    decreases es.len(),
{
    let r = es.update(i, e);
    assert forall|a: int, b: int| 0 <= a < r.len() && 0 <= b < r.len() && a != b implies (
    #[trigger] r[a]).key() != (#[trigger] r[b]).key() by {
        assert(r[a].key() == es[a].key());
        assert(r[b].key() == es[b].key());
    }
    let rest = es.drop_last();
    lemma_unique_rest(es);
    if i == es.len() - 1 {
        assert(r.drop_last() =~= rest);
        assert(tree_of(r) =~= tree_of(es).insert(e.key(), e.node()));
    } else {
        assert(r.drop_last() =~= rest.update(i, e));
        assert(rest[i] == es[i]);
        lemma_set(rest, i, e);
        assert(r.last() == es.last());
        assert(tree_of(r) =~= tree_of(es).insert(e.key(), e.node()));
    }
}

proof fn lemma_drop(es: Seq<MemoryEntry>, i: int)
    requires
        unique(es),
        0 <= i < es.len(),
    ensures
        unique(es.remove(i)),
        tree_of(es.remove(i)) == tree_of(es).remove(es[i].key()),
    decreases es.len(),
{
    let r = es.remove(i);
    assert forall|a: int, b: int| 0 <= a < r.len() && 0 <= b < r.len() && a != b implies (
    #[trigger] r[a]).key() != (#[trigger] r[b]).key() by {
        assert(r[a] == es[if a < i { a } else { a + 1 }]);
        assert(r[b] == es[if b < i { b } else { b + 1 }]);
    }
    let rest = es.drop_last();
    lemma_unique_rest(es);
    if i == es.len() - 1 {
        assert(r =~= rest);
        lemma_absent(rest, es[i].key());
        assert(tree_of(r) =~= tree_of(es).remove(es[i].key()));
    } else {
        assert(r.drop_last() =~= rest.remove(i));
        assert(rest[i] == es[i]);
        lemma_drop(rest, i);
        assert(r.last() == es.last());
        assert(es.last() == es[es.len() - 1]);
        assert(tree_of(r) =~= tree_of(es).remove(es[i].key()));
    }
}

/// A host file system in memory. Its clock stands still until it is set.
pub struct MemoryHost {
    entries: Vec<MemoryEntry>,
    clock_ms: u64,
}

impl MemoryHost {
    /// A host that holds only its root directory, made at `clock_ms`.
    pub fn new(clock_ms: u64) -> (r: MemoryHost)
        ensures
            r.inv(),
            r.tree() == Tree::fresh(clock_ms),
            r.now_ms() == clock_ms,
    {
        let mut entries: Vec<MemoryEntry> = Vec::new();
        let root = MemoryEntry {
            key: Vec::new(),
            is_file: false,
            data: Vec::new(),
            created_ms: clock_ms,
            modified_ms: clock_ms,
        };
        proof {
            assert(root.key() =~= Seq::<Seq<char>>::empty());
            assert(root.node() == Node::dir(clock_ms));
            lemma_push(entries@, root);
        }
        entries.push(root);
        let r = MemoryHost { entries, clock_ms };
        proof {
            assert(r.tree().nodes =~= Tree::fresh(clock_ms).nodes);
            assert(Tree::fresh(clock_ms).wf()) by {
                let t = Tree::fresh(clock_ms);
                assert forall|k: Key| #[trigger] t.contains(k) implies crate::path::all_names(
                    k,
                ) by {
                    assert(k =~= Seq::<Seq<char>>::empty());
                }
            }
        }
        r
    }

    /// Sets the clock of the host.
    pub fn set_time(&mut self, clock_ms: u64)
        ensures
            final(self).inv() == old(self).inv(),
            final(self).tree() == old(self).tree(),
            final(self).now_ms() == clock_ms,
    {
        self.clock_ms = clock_ms;
    }

    /// The index of the entry with the given key.
    fn find(&self, key: &Vec<String>) -> (r: Option<usize>)
        requires
            unique(self.entries@),
        ensures
            r matches Some(i) ==> {
                &&& i < self.entries.len()
                &&& self.entries[i as int].key() == crate::path::views(key@)
                &&& self.tree().contains(crate::path::views(key@))
                &&& self.tree().nodes[crate::path::views(key@)] == self.entries[i as int].node()
            },
            r is None ==> !self.tree().contains(crate::path::views(key@)),
    {
        let mut i: usize = 0;
        while i < self.entries.len()
            invariant
                unique(self.entries@),
                i <= self.entries.len(),
                forall|j: int|
                    0 <= j < i ==> (#[trigger] self.entries@[j]).key() != crate::path::views(
                        key@,
                    ),
            decreases self.entries.len() - i,
        {
            if crate::path::same_names(&self.entries[i].key, key) {
                proof {
                    lemma_lookup(self.entries@, i as int);
                }
                return Some(i);
            }
            i += 1;
        }
        proof {
            lemma_absent(self.entries@, crate::path::views(key@));
        }
        None
    }
}

impl Host for MemoryHost {
    closed spec fn tree(&self) -> Tree {
        Tree { nodes: tree_of(self.entries@) }
    }

    closed spec fn now_ms(&self) -> u64 {
        self.clock_ms
    }

    open spec fn reliable(&self) -> bool {
        true
    }

    closed spec fn inv(&self) -> bool {
        unique(self.entries@) && self.tree().wf()
    }

    proof fn lemma_inv(&self) {
    }

    fn exists_sync(&self, path: &str) -> (r: Result<bool, Error>) {
        let key = crate::path::split_segments(path);
        Ok(self.find(&key).is_some())
    }

    fn lstat_sync(&self, path: &str) -> (r: Result<Stats, Error>) {
        let key = crate::path::split_segments(path);
        match self.find(&key) {
            Some(i) => {
                let e = &self.entries[i];
                Ok(
                    Stats {
                        is_file: e.is_file,
                        size: e.data.len() as u64,
                        c_time_ms: e.created_ms,
                        m_time_ms: e.modified_ms,
                    },
                )
            },
            None => Err(Error::new("ENOENT")),
        }
    }

    fn mkdir_sync(&mut self, path: &str) -> (r: Result<(), Error>) {
        let key = crate::path::split_segments(path);
        let n = key.len();
        let ghost k = crate::path::segments(path@);
        let ghost before = self.tree();
        let ghost now = self.clock_ms;
        proof {
            crate::path::lemma_segments_are_names(path@);
            assert(k.take(0) =~= Seq::<Seq<char>>::empty());
        }
        let mut j: usize = 0;
        while j < n
            invariant
                *self == *old(self),
                self.inv(),
                before == self.tree(),
                k == crate::path::segments(path@),
                k == crate::path::views(key@),
                n == key.len(),
                j <= n,
                forall|m: int| 0 <= m <= j ==> !before.is_file(#[trigger] k.take(m)),
            decreases n - j,
        {
            let prefix = crate::path::first_names(&key, j + 1);
            match self.find(&prefix) {
                Some(i) => {
                    if self.entries[i].is_file {
                        assert(before.is_file(k.take(j + 1)));
                        if j + 1 == n {
                            proof {
                                assert(k.take(n as int) =~= k);
                            }
                            return Err(Error::new("EEXIST"));
                        } else {
                            let e = Error::new("ENOTDIR");
                            proof {
                                reveal_strlit("ENOTDIR");
                                reveal_strlit("EEXIST");
                                assert(e.code@.len() == 7);
                                assert("EEXIST"@.len() == 6);
                            }
                            return Err(e);
                        }
                    }
                },
                None => {},
            }
            j += 1;
        }
        assert(before.can_make_dirs(k));
        let mut j: usize = 0;
        while j < n
            invariant
                self.clock_ms == now,
                unique(self.entries@),
                k == crate::path::views(key@),
                n == key.len(),
                j <= n,
                self.tree() == before.make_dirs(k.take(j as int), now),
            decreases n - j,
        {
            let prefix = crate::path::first_names(&key, j + 1);
            proof {
                assert(k.take(j + 1).drop_last() =~= k.take(j as int));
            }
            if self.find(&prefix).is_none() {
                let e = MemoryEntry {
                    key: prefix,
                    is_file: false,
                    data: Vec::new(),
                    created_ms: self.clock_ms,
                    modified_ms: self.clock_ms,
                };
                proof {
                    assert(e.node() == Node::dir(now));
                    lemma_push(self.entries@, e);
                }
                self.entries.push(e);
            }
            j += 1;
        }
        proof {
            assert(k.take(n as int) =~= k);
            before.lemma_make_dirs(k, now);
        }
        Ok(())
    }

    fn write_file_sync(&mut self, path: &str, data: &[u8]) -> (r: Result<(), Error>) {
        let key = crate::path::split_segments(path);
        let n = key.len();
        let ghost k = crate::path::segments(path@);
        proof {
            crate::path::lemma_segments_are_names(path@);
        }
        if n == 0 {
            return Err(Error::new("EISDIR"));
        }
        let above = crate::path::first_names(&key, n - 1);
        proof {
            assert(k.take(n - 1) =~= k.drop_last());
        }
        match self.find(&above) {
            Some(i) => {
                if self.entries[i].is_file {
                    return Err(Error::new("ENOTDIR"));
                }
            },
            None => {
                return Err(Error::new("ENOENT"));
            },
        }
        match self.find(&key) {
            Some(i) => {
                if !self.entries[i].is_file {
                    return Err(Error::new("EISDIR"));
                }
                let e = MemoryEntry {
                    key,
                    is_file: true,
                    data: slice_to_vec(data),
                    created_ms: self.entries[i].created_ms,
                    modified_ms: self.clock_ms,
                };
                proof {
                    lemma_set(self.entries@, i as int, e);
                    self.tree().lemma_write_wf(k, data@, self.clock_ms);
                }
                self.entries.set(i, e);
            },
            None => {
                let e = MemoryEntry {
                    key,
                    is_file: true,
                    data: slice_to_vec(data),
                    created_ms: self.clock_ms,
                    modified_ms: self.clock_ms,
                };
                proof {
                    lemma_push(self.entries@, e);
                    self.tree().lemma_write_wf(k, data@, self.clock_ms);
                }
                self.entries.push(e);
            },
        }
        Ok(())
    }

    fn read_file_sync(&self, path: &str) -> (r: Result<Vec<u8>, Error>) {
        let key = crate::path::split_segments(path);
        match self.find(&key) {
            Some(i) => {
                if self.entries[i].is_file {
                    Ok(self.entries[i].data.clone())
                } else {
                    Err(Error::new("EISDIR"))
                }
            },
            None => Err(Error::new("ENOENT")),
        }
    }

    fn read_dir_sync(&self, path: &str) -> (r: Result<Vec<String>, Error>) {
        let key = crate::path::split_segments(path);
        let ghost k = crate::path::segments(path@);
        match self.find(&key) {
            Some(i) => {
                if self.entries[i].is_file {
                    return Err(Error::new("ENOTDIR"));
                }
            },
            None => {
                return Err(Error::new("ENOENT"));
            },
        }
        let names = self.names_in(&key);
        Ok(names)
    }

    fn rm_sync(&mut self, path: &str) -> (r: Result<(), Error>) {
        let key = crate::path::split_segments(path);
        let ghost k = crate::path::segments(path@);
        let ghost before = self.tree();
        if key.len() == 0 {
            return Err(Error::new("EBUSY"));
        }
        let mut i: usize = 0;
        while i < self.entries.len()
            invariant
                self.clock_ms == old(self).clock_ms,
                unique(self.entries@),
                k == crate::path::views(key@),
                i <= self.entries.len(),
                forall|j: int| 0 <= j < i ==> !k.is_prefix_of((#[trigger] self.entries@[j]).key()),
                forall|d: Key|
                    #[trigger] self.tree().contains(d) ==> before.contains(d) && self.tree().nodes[d]
                        == before.nodes[d],
                forall|d: Key|
                    before.contains(d) && !k.is_prefix_of(d) ==> #[trigger] self.tree().contains(d),
            decreases self.entries.len() - i,
        {
            let ghost cur = self.tree();
            if crate::path::names_start_with(&self.entries[i].key, &key) {
                let ghost gone = self.entries@[i as int].key();
                proof {
                    lemma_drop(self.entries@, i as int);
                    lemma_lookup(self.entries@, i as int);
                }
                self.entries.remove(i);
                proof {
                    assert(self.tree().nodes == cur.nodes.remove(gone));
                    assert forall|d: Key| #[trigger] self.tree().contains(d) implies before.contains(
                        d,
                    ) && self.tree().nodes[d] == before.nodes[d] by {
                        assert(cur.contains(d));
                    }
                    assert forall|d: Key| before.contains(d) && !k.is_prefix_of(d) implies #[trigger] self.tree().contains(
                        d,
                    ) by {
                        assert(cur.contains(d));
                    }
                }
            } else {
                i += 1;
            }
        }
        proof {
            let after = self.tree();
            assert forall|d: Key| after.nodes.dom().contains(d) <==> (before.contains(d)
                && !k.is_prefix_of(d)) by {
                if after.contains(d) {
                    let j = lemma_present(self.entries@, d);
                    assert(!k.is_prefix_of(self.entries@[j].key()));
                }
                if before.contains(d) && !k.is_prefix_of(d) {
                    assert(after.contains(d));
                }
            }
            assert forall|d: Key| after.nodes.dom().contains(d) implies after.nodes[d]
                == before.nodes[d] by {
                assert(after.contains(d));
            }
            assert(after.nodes =~= before.remove_all(k).nodes);
            before.lemma_remove_all_wf(k);
        }
        Ok(())
    }

    fn rm_dir_sync(&mut self, path: &str) -> (r: Result<(), Error>) {
        let key = crate::path::split_segments(path);
        let ghost k = crate::path::segments(path@);
        let ghost before = self.tree();
        if key.len() == 0 {
            return Err(Error::new("EBUSY"));
        }
        let at = match self.find(&key) {
            Some(i) => {
                if self.entries[i].is_file {
                    return Err(Error::new("ENOTDIR"));
                }
                i
            },
            None => {
                return Err(Error::new("ENOENT"));
            },
        };
        let names = self.names_in(&key);
        if names.len() > 0 {
            proof {
                assert(crate::path::views(names@)[0] == names@[0]@);
                assert(crate::path::views(names@).contains(names@[0]@));
                assert(before.contains(k.push(names@[0]@)));
            }
            return Err(Error::new("ENOTEMPTY"));
        }
        proof {
            assert forall|n: Seq<char>| !before.contains(#[trigger] k.push(n)) by {
                if before.contains(k.push(n)) {
                    assert(crate::path::views(names@).contains(n));
                }
            }
            lemma_drop(self.entries@, at as int);
            assert forall|d: Key| before.contains(d) && k.is_prefix_of(d) implies d == k by {
                if d.len() > k.len() {
                    before.lemma_below_child(k, d);
                } else {
                    assert(d =~= k);
                }
            }
            assert(before.nodes.remove(k) =~= before.remove_all(k).nodes);
            before.lemma_remove_all_wf(k);
        }
        self.entries.remove(at);
        Ok(())
    }
}

impl MemoryHost {
    /// The names of the entries directly inside `key`, each once.
    fn names_in(&self, key: &Vec<String>) -> (names: Vec<String>)
        requires
            unique(self.entries@),
        ensures
            crate::path::views(names@).no_duplicates(),
            forall|n: Seq<char>|
                crate::path::views(names@).contains(n) <==> self.tree().contains(
                    #[trigger] crate::path::views(key@).push(n),
                ),
    {
        let ghost k = crate::path::views(key@);
        let mut names: Vec<String> = Vec::new();
        let mut j: usize = 0;
        while j < self.entries.len()
            invariant
                unique(self.entries@),
                k == crate::path::views(key@),
                j <= self.entries.len(),
                crate::path::views(names@).no_duplicates(),
                forall|n: Seq<char>|
                    crate::path::views(names@).contains(n) ==> exists|i: int|
                        0 <= i < j && (#[trigger] self.entries@[i]).key() == k.push(n),
                forall|i: int, n: Seq<char>|
                    0 <= i < j && (#[trigger] self.entries@[i]).key() == #[trigger] k.push(n)
                        ==> crate::path::views(names@).contains(n),
            decreases self.entries.len() - j,
        {
            let e = &self.entries[j];
            let ghost old_names = crate::path::views(names@);
            if e.key.len() > 0 && e.key.len() - 1 == key.len() && crate::path::names_start_with(
                &e.key,
                key,
            ) {
                let name = e.key[key.len()].clone();
                let ghost n0 = name@;
                proof {
                    assert(e.key() =~= k.push(n0)) by {
                        assert(k =~= e.key().subrange(0, k.len() as int));
                        assert(e.key()[k.len() as int] == n0);
                    }
                    if old_names.contains(n0) {
                        let i = choose|i: int|
                            0 <= i < j && (#[trigger] self.entries@[i]).key() == k.push(n0);
                        assert(self.entries@[i].key() == self.entries@[j as int].key());
                    }
                }
                names.push(name);
                proof {
                    let new_names = crate::path::views(names@);
                    assert(new_names =~= old_names.push(n0));
                    assert forall|n: Seq<char>| new_names.contains(n) implies exists|i: int|
                        0 <= i < j + 1 && (#[trigger] self.entries@[i]).key() == k.push(n) by {
                        let x = choose|x: int| 0 <= x < new_names.len() && new_names[x] == n;
                        if x < old_names.len() {
                            assert(old_names[x] == n);
                            assert(old_names.contains(n));
                        } else {
                            assert(n == n0);
                            assert(self.entries@[j as int].key() == k.push(n));
                        }
                    }
                    assert forall|i: int, n: Seq<char>|
                        0 <= i < j + 1 && (#[trigger] self.entries@[i]).key() == #[trigger] k.push(
                            n,
                        ) implies new_names.contains(n) by {
                        if i < j {
                            assert(old_names.contains(n));
                            let x = choose|x: int| 0 <= x < old_names.len() && old_names[x] == n;
                            assert(new_names[x] == n);
                        } else {
                            assert(k.push(n).last() == n);
                            assert(k.push(n0).last() == n0);
                            assert(new_names[old_names.len() as int] == n);
                        }
                    }
                }
            } else {
                proof {
                    assert forall|i: int, n: Seq<char>|
                        0 <= i < j + 1 && (#[trigger] self.entries@[i]).key() == #[trigger] k.push(
                            n,
                        ) implies old_names.contains(n) by {
                        if i == j {
                            assert(e.key().len() == k.len() + 1);
                            assert(k =~= k.push(n).subrange(0, k.len() as int));
                            assert(k.is_prefix_of(e.key()));
                        }
                    }
                }
            }
            j += 1;
        }
        proof {
            let all = crate::path::views(names@);
            assert forall|n: Seq<char>| all.contains(n) <==> self.tree().contains(
                #[trigger] k.push(n),
            ) by {
                if all.contains(n) {
                    let i = choose|i: int|
                        0 <= i < j && (#[trigger] self.entries@[i]).key() == k.push(n);
                    lemma_lookup(self.entries@, i);
                }
                if self.tree().contains(k.push(n)) {
                    let i = lemma_present(self.entries@, k.push(n));
                    assert(self.entries@[i].key() == k.push(n));
                }
            }
        }
        names
    }
}

} // verus!
