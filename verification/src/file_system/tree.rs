//! The state of a host file system: a finite tree of entries keyed by the
//! segments of their paths.

use vstd::prelude::*;

verus! {

/// The segments that lead from the root of a host to an entry.
pub type Key = Seq<Seq<char>>;

/// What a host holds at one key.
#[verifier::ext_equal]
pub struct Node {
    pub is_file: bool,
    pub data: Seq<u8>,
    pub created_ms: u64,
    pub modified_ms: u64,
}

impl Node {
    /// A directory made at `now`.
    pub open spec fn dir(now: u64) -> Node {
        Node { is_file: false, data: Seq::empty(), created_ms: now, modified_ms: now }
    }
}

/// The entries of a host.
#[verifier::ext_equal]
pub struct Tree {
    pub nodes: Map<Key, Node>,
}

impl Tree {
    /// A host that holds its root directory and nothing else.
    pub open spec fn fresh(now: u64) -> Tree {
        Tree { nodes: Map::empty().insert(Seq::empty(), Node::dir(now)) }
    }

    /// There is an entry at `k`.
    pub open spec fn contains(self, k: Key) -> bool {
        self.nodes.dom().contains(k)
    }

    /// There is a file at `k`.
    pub open spec fn is_file(self, k: Key) -> bool {
        self.contains(k) && self.nodes[k].is_file
    }

    /// There is a directory at `k`.
    pub open spec fn is_dir(self, k: Key) -> bool {
        self.contains(k) && !self.nodes[k].is_file
    }

    /// A tree is well formed when it is finite, its root is a directory, every
    /// key is made of names, and every entry lies in a directory.
    pub open spec fn wf(self) -> bool {
        &&& self.nodes.dom().finite()
        &&& self.is_dir(Seq::empty())
        &&& forall|k: Key| #[trigger] self.contains(k) ==> crate::path::all_names(k)
        &&& forall|k: Key| #[trigger] self.contains(k) && k.len() > 0 ==> self.is_dir(k.drop_last())
    }

    /// The names of the entries directly inside `k`.
    pub open spec fn child_names(self, k: Key) -> Set<Seq<char>> {
        Set::new(|n: Seq<char>| self.contains(k.push(n)))
    }

    /// `k` is a directory without entries.
    pub open spec fn is_empty_dir(self, k: Key) -> bool {
        self.is_dir(k) && forall|n: Seq<char>| !self.contains(#[trigger] k.push(n))
    }

    /// The keys of `k` and of everything below it.
    pub open spec fn within(self, k: Key) -> Set<Key> {
        Set::new(|d: Key| self.contains(d) && k.is_prefix_of(d))
    }

    /// `s` is the path, as led down from `base`, of a file at or below `k`.
    pub open spec fn names_file(self, k: Key, base: Seq<char>, s: Seq<char>) -> bool {
        exists|d: Key|
            #![trigger self.is_file(d)]
            self.is_file(d) && k.is_prefix_of(d) && s == crate::path::extend(
                base,
                d.skip(k.len() as int),
            )
    }

    /// The same, with the file found from the segments of `s`.
    pub open spec fn names_file_at(self, k: Key, base: Seq<char>, s: Seq<char>) -> bool {
        let rel = crate::path::rel_of(base, s);
        self.is_file(k + rel) && s == crate::path::extend(base, rel)
    }

    /// `files` holds the path of each file at or below `k` once, and nothing
    /// else.
    pub open spec fn lists_files(self, k: Key, base: Seq<char>, files: Seq<Seq<char>>) -> bool {
        &&& files.no_duplicates()
        &&& forall|s: Seq<char>| #[trigger] files.contains(s) <==> self.names_file(k, base, s)
    }

    /// The tree without `k` and everything below it.
    pub open spec fn remove_all(self, k: Key) -> Tree {
        Tree {
            nodes: Map::new(
                |d: Key| self.contains(d) && !k.is_prefix_of(d),
                |d: Key| self.nodes[d],
            ),
        }
    }

    /// The tree is what a removal at `k` can leave of `before`, also one
    /// that stopped on the way: no entry is made or changed, and every entry
    /// that is not at or below `k` is kept.
    pub open spec fn left_of(self, before: Tree, k: Key) -> bool {
        &&& self.nodes.submap_of(before.nodes)
        &&& forall|d: Key|
            before.contains(d) && !k.is_prefix_of(d) ==> #[trigger] self.contains(d)
    }

    /// `d` lies at or below the child of `k` that one of `names` names.
    pub open spec fn below_any(k: Key, names: Seq<Seq<char>>, d: Key) -> bool {
        exists|j: int| 0 <= j < names.len() && (#[trigger] k.push(names[j])).is_prefix_of(d)
    }

    /// The tree without the children of `k` that `names` names, and without
    /// everything below them.
    pub open spec fn remove_children(self, k: Key, names: Seq<Seq<char>>) -> Tree {
        Tree {
            nodes: Map::new(
                |d: Key| self.contains(d) && !Self::below_any(k, names, d),
                |d: Key| self.nodes[d],
            ),
        }
    }

    /// No entry at `k` or above it is a file.
    pub open spec fn can_make_dirs(self, k: Key) -> bool {
        forall|j: int| 0 <= j <= k.len() ==> !self.is_file(#[trigger] k.take(j))
    }

    /// The tree with a directory at `k` and at every key above it; those that
    /// are missing are made at `now`.
    pub open spec fn make_dirs(self, k: Key, now: u64) -> Tree
        decreases k.len(),
    {
        if k.len() == 0 {
            self
        } else {
            let t = self.make_dirs(k.drop_last(), now);
            if t.contains(k) {
                t
            } else {
                Tree { nodes: t.nodes.insert(k, Node::dir(now)) }
            }
        }
    }

    /// The tree after a directory was asked for at `k`: unchanged where `k`
    /// is there already.
    pub open spec fn create_dir(self, k: Key, now: u64) -> Tree {
        if self.contains(k) {
            self
        } else {
            self.make_dirs(k, now)
        }
    }

    /// A file can be put at `k`: `k` is below the root, no file lies above
    /// it, and it is no directory.
    pub open spec fn can_put(self, k: Key) -> bool {
        k.len() > 0 && self.can_make_dirs(k.drop_last()) && !self.is_dir(k)
    }

    /// The tree with the directories above `k` and a file at `k` that holds
    /// `data`.
    pub open spec fn put(self, k: Key, data: Seq<u8>, now: u64) -> Tree {
        self.make_dirs(k.drop_last(), now).write(k, data, now)
    }

    /// What the file at `k` holds, if there is one.
    pub open spec fn read(self, k: Key) -> Option<Seq<u8>> {
        if self.is_file(k) {
            Some(self.nodes[k].data)
        } else {
            None
        }
    }

    /// `k` lies in a directory and is not one itself.
    pub open spec fn can_write(self, k: Key) -> bool {
        k.len() > 0 && self.is_dir(k.drop_last()) && !self.is_dir(k)
    }

    /// The tree with a file at `k` that holds `data` and was modified at `now`.
    /// A file that was there keeps its time of creation.
    pub open spec fn write(self, k: Key, data: Seq<u8>, now: u64) -> Tree {
        Tree {
            nodes: self.nodes.insert(
                k,
                Node {
                    is_file: true,
                    data,
                    created_ms: if self.is_file(k) {
                        self.nodes[k].created_ms
                    } else {
                        now
                    },
                    modified_ms: now,
                },
            ),
        }
    }

    /// Every key above an entry is a directory.
    pub proof fn lemma_above_are_dirs(self, k: Key, j: int)
        requires
            self.wf(),
            self.contains(k),
            0 <= j < k.len(),
        ensures
            self.is_dir(k.take(j)),
        decreases k.len(),
    {
        let p = k.drop_last();
        assert(self.is_dir(p));
        if j == k.len() - 1 {
            assert(k.take(j) =~= p);
        } else {
            self.lemma_above_are_dirs(p, j);
            assert(p.take(j) =~= k.take(j));
        }
    }

    /// An entry below `k` lies at or below one of the children of `k`.
    pub proof fn lemma_below_child(self, k: Key, d: Key)
        requires
            self.wf(),
            self.contains(d),
            k.is_prefix_of(d),
            d.len() > k.len(),
        ensures
            self.contains(k.push(d[k.len() as int])),
            k.push(d[k.len() as int]).is_prefix_of(d),
            self.is_dir(k),
    {
        let n = k.len() as int;
        let c = k.push(d[n]);
        assert(c =~= d.take(n + 1));
        assert(k =~= d.take(n));
        self.lemma_above_are_dirs(d, n);
        if d.len() == n + 1 {
            assert(d.take(n + 1) =~= d);
        } else {
            self.lemma_above_are_dirs(d, n + 1);
        }
    }

    /// Only a directory has entries below it.
    pub proof fn lemma_leaf(self, k: Key)
        requires
            self.wf(),
            !self.is_dir(k),
        ensures
            forall|d: Key| self.contains(d) && k.is_prefix_of(d) ==> d == k,
    {
        assert forall|d: Key| self.contains(d) && k.is_prefix_of(d) implies d == k by {
            if d.len() > k.len() {
                self.lemma_below_child(k, d);
            } else {
                assert(d =~= k);
            }
        }
    }

    /// Removing an entry that lies below the root keeps the tree well formed.
    pub proof fn lemma_remove_all_wf(self, k: Key)
        requires
            self.wf(),
            k.len() > 0,
        ensures
            self.remove_all(k).wf(),
            forall|d: Key| k.is_prefix_of(d) ==> !self.remove_all(k).contains(d),
    {
        let r = self.remove_all(k);
        assert(r.nodes.dom().subset_of(self.nodes.dom()));
        vstd::set_lib::lemma_len_subset(r.nodes.dom(), self.nodes.dom());
        assert forall|d: Key| #[trigger] r.contains(d) && d.len() > 0 implies r.is_dir(
            d.drop_last(),
        ) by {
            assert(self.contains(d));
            let p = d.drop_last();
            assert(self.is_dir(p));
            if k.is_prefix_of(p) {
                assert(k =~= d.subrange(0, k.len() as int));
            }
        }
        assert forall|d: Key| #[trigger] r.contains(d) implies crate::path::all_names(d) by {
            assert(self.contains(d));
        }
    }

    /// A path names a file at or below `k` exactly if its own segments lead
    /// to one.
    pub proof fn lemma_names_file(self, k: Key, base: Seq<char>, s: Seq<char>)
        requires
            self.wf(),
        ensures
            self.names_file(k, base, s) <==> self.names_file_at(k, base, s),
    {
        if self.names_file(k, base, s) {
            let d = choose|d: Key|
                #![trigger self.is_file(d)]
                self.is_file(d) && k.is_prefix_of(d) && s == crate::path::extend(
                    base,
                    d.skip(k.len() as int),
                );
            let rel = d.skip(k.len() as int);
            assert(crate::path::all_names(d));
            assert(crate::path::all_names(rel)) by {
                assert forall|i: int| 0 <= i < rel.len() implies crate::path::is_name(
                    #[trigger] rel[i],
                ) by {
                    assert(rel[i] == d[i + k.len()]);
                }
            }
            crate::path::lemma_extend_segments(base, rel);
            assert(k + rel =~= d);
        }
        if self.names_file_at(k, base, s) {
            let rel = crate::path::rel_of(base, s);
            let d = k + rel;
            assert(k.is_prefix_of(d)) by {
                assert(k =~= d.subrange(0, k.len() as int));
            }
            assert(d.skip(k.len() as int) =~= rel);
            assert(self.is_file(d));
        }
    }

    /// Removing no child changes nothing.
    pub proof fn lemma_remove_children_none(self, k: Key)
        ensures
            self.remove_children(k, Seq::empty()) == self,
    {
        assert(self.remove_children(k, Seq::empty()).nodes =~= self.nodes);
    }

    /// Removing one child more.
    pub proof fn lemma_remove_children_step(self, k: Key, names: Seq<Seq<char>>, i: int)
        requires
            0 <= i < names.len(),
        ensures
            self.remove_children(k, names.take(i)).remove_all(k.push(names[i]))
                == self.remove_children(k, names.take(i + 1)),
    {
        let a = names.take(i);
        let b = names.take(i + 1);
        let c = k.push(names[i]);
        let l = self.remove_children(k, a).remove_all(c);
        let r = self.remove_children(k, b);
        assert forall|d: Key| Self::below_any(k, b, d) <==> (Self::below_any(k, a, d)
            || c.is_prefix_of(d)) by {
            if Self::below_any(k, b, d) {
                let j = choose|j: int|
                    0 <= j < b.len() && (#[trigger] k.push(b[j])).is_prefix_of(d);
                if j < i {
                    assert(k.push(a[j]).is_prefix_of(d));
                }
            }
            if Self::below_any(k, a, d) {
                let j = choose|j: int|
                    0 <= j < a.len() && (#[trigger] k.push(a[j])).is_prefix_of(d);
                assert(k.push(b[j]).is_prefix_of(d));
            }
            if c.is_prefix_of(d) {
                assert(k.push(b[i]).is_prefix_of(d));
            }
        }
        assert(l.nodes =~= r.nodes);
    }

    /// Once every child of a directory is removed, the directory is empty,
    /// and removing it leaves what removing it at once would have left.
    pub proof fn lemma_remove_children_all(self, k: Key, names: Seq<Seq<char>>)
        requires
            self.wf(),
            self.is_dir(k),
            forall|n: Seq<char>| names.contains(n) <==> self.contains(#[trigger] k.push(n)),
        ensures
            self.remove_children(k, names).is_empty_dir(k),
            self.remove_children(k, names).remove_all(k) == self.remove_all(k),
    {
        let r = self.remove_children(k, names);
        assert(!Self::below_any(k, names, k)) by {
            if Self::below_any(k, names, k) {
                let j = choose|j: int|
                    0 <= j < names.len() && (#[trigger] k.push(names[j])).is_prefix_of(k);
                assert(false);
            }
        }
        assert forall|n: Seq<char>| !r.contains(#[trigger] k.push(n)) by {
            if self.contains(k.push(n)) {
                assert(names.contains(n));
                let j = choose|j: int| 0 <= j < names.len() && names[j] == n;
                assert(k.push(names[j]).is_prefix_of(k.push(n))) by {
                    assert(k.push(n) =~= k.push(n).subrange(0, k.len() as int + 1));
                }
            }
        }
        assert(r.remove_all(k).nodes =~= self.remove_all(k).nodes) by {
            assert forall|d: Key| self.contains(d) && !k.is_prefix_of(d) implies !Self::below_any(
                k,
                names,
                d,
            ) by {
                if Self::below_any(k, names, d) {
                    let j = choose|j: int|
                        0 <= j < names.len() && (#[trigger] k.push(names[j])).is_prefix_of(d);
                    assert(k =~= d.subrange(0, k.len() as int));
                }
            }
        }
    }

    /// What lies at or below an entry under `k` is less than what lies at or
    /// below `k`, also in a tree that has lost entries since.
    pub proof fn lemma_within_smaller(self, cur: Tree, k: Key, c: Key)
        requires
            self.wf(),
            self.contains(k),
            k.is_prefix_of(c),
            c.len() > k.len(),
            forall|d: Key| cur.contains(d) ==> self.contains(d),
        ensures
            cur.within(c).len() < self.within(k).len(),
    {
        let big = self.within(k);
        assert(big.subset_of(self.nodes.dom()));
        vstd::set_lib::lemma_len_subset(big, self.nodes.dom());
        assert(big.contains(k)) by {
            assert(k =~= k.subrange(0, k.len() as int));
        }
        let rest = big.remove(k);
        assert forall|d: Key| cur.within(c).contains(d) implies rest.contains(d) by {
            assert(self.contains(d));
            assert(k =~= d.subrange(0, k.len() as int));
        }
        vstd::set_lib::lemma_len_subset(cur.within(c), rest);
    }

    /// Removing what is not there changes nothing.
    pub proof fn lemma_remove_all_absent(self, k: Key)
        requires
            self.wf(),
            !self.contains(k),
        ensures
            self.remove_all(k) == self,
    {
        self.lemma_leaf(k);
        assert(self.remove_all(k).nodes =~= self.nodes);
    }

    /// What `make_dirs` holds: the old entries unchanged, and a directory at
    /// each key above or at `k` that was missing.
    pub proof fn lemma_make_dirs(self, k: Key, now: u64)
        requires
            self.wf(),
            crate::path::all_names(k),
            self.can_make_dirs(k),
        ensures
            self.make_dirs(k, now).wf(),
            self.make_dirs(k, now).is_dir(k),
            forall|d: Key|
                #[trigger] self.make_dirs(k, now).contains(d) <==> (self.contains(d)
                    || d.is_prefix_of(k)),
            forall|d: Key|
                self.contains(d) ==> #[trigger] self.make_dirs(k, now).nodes[d] == self.nodes[d],
            forall|d: Key|
                !self.contains(d) && d.is_prefix_of(k) ==> #[trigger] self.make_dirs(
                    k,
                    now,
                ).nodes[d] == Node::dir(now),
        decreases k.len(),
    {
        let r = self.make_dirs(k, now);
        if k.len() == 0 {
            assert(k.take(0) =~= k);
            assert forall|d: Key| #[trigger] r.contains(d) <==> (self.contains(d)
                || d.is_prefix_of(k)) by {
                if d.is_prefix_of(k) {
                    assert(d =~= Seq::<Seq<char>>::empty());
                }
            }
        } else {
            let p = k.drop_last();
            let t = self.make_dirs(p, now);
            assert(crate::path::all_names(p)) by {
                assert forall|i: int| 0 <= i < p.len() implies crate::path::is_name(
                    #[trigger] p[i],
                ) by {
                    assert(p[i] == k[i]);
                }
            }
            assert(self.can_make_dirs(p)) by {
                assert forall|j: int| 0 <= j <= p.len() implies !self.is_file(
                    #[trigger] p.take(j),
                ) by {
                    assert(p.take(j) =~= k.take(j));
                }
            }
            self.lemma_make_dirs(p, now);
            assert(k.take(k.len() as int) =~= k);
            assert(!self.is_file(k));
            assert(!k.is_prefix_of(p));
            assert(k.is_prefix_of(k)) by {
                assert(k =~= k.subrange(0, k.len() as int));
            }
            assert forall|d: Key| #[trigger] r.contains(d) <==> (self.contains(d)
                || d.is_prefix_of(k)) by {
                assert(t.contains(d) <==> (self.contains(d) || d.is_prefix_of(p)));
                if d.is_prefix_of(k) && d != k {
                    if d.len() == k.len() {
                        assert(d =~= k);
                    }
                    assert(d =~= p.subrange(0, d.len() as int));
                }
                if d.is_prefix_of(p) {
                    assert(d =~= k.subrange(0, d.len() as int));
                }
            }
            if !t.contains(k) {
                assert(r.nodes.dom() =~= t.nodes.dom().insert(k));
            }
            assert(t.contains(k) ==> self.contains(k));
            assert(r.is_dir(k));
            assert forall|d: Key| self.contains(d) implies #[trigger] r.nodes[d]
                == self.nodes[d] by {
                assert(t.contains(d));
                assert(t.nodes[d] == self.nodes[d]);
            }
            assert forall|d: Key| !self.contains(d) && d.is_prefix_of(k) implies #[trigger] r.nodes[d]
                == Node::dir(now) by {
                if d != k {
                    if d.len() == k.len() {
                        assert(d =~= k);
                    }
                    assert(d =~= p.subrange(0, d.len() as int));
                    assert(t.nodes[d] == Node::dir(now));
                }
            }
            assert forall|d: Key| #[trigger] r.contains(d) && d.len() > 0 implies r.is_dir(
                d.drop_last(),
            ) by {
                if d == k {
                    assert(t.is_dir(p));
                } else {
                    assert(t.contains(d));
                    assert(t.is_dir(d.drop_last()));
                }
            }
            assert forall|d: Key| #[trigger] r.contains(d) implies crate::path::all_names(d) by {
                if d != k {
                    assert(t.contains(d));
                }
            }
        }
    }

    /// Making a directory that is there changes nothing.
    pub proof fn lemma_make_dirs_present(self, k: Key, now: u64)
        requires
            self.wf(),
            self.is_dir(k),
        ensures
            self.make_dirs(k, now) == self,
            self.can_make_dirs(k),
        decreases k.len(),
    {
        assert forall|j: int| 0 <= j <= k.len() implies !self.is_file(#[trigger] k.take(j)) by {
            if j < k.len() {
                self.lemma_above_are_dirs(k, j);
            } else {
                assert(k.take(j) =~= k);
            }
        }
        if k.len() > 0 {
            self.lemma_make_dirs_present(k.drop_last(), now);
        }
    }

    /// Writing a file where one can be written keeps the tree well formed.
    pub proof fn lemma_write_wf(self, k: Key, data: Seq<u8>, now: u64)
        requires
            self.wf(),
            crate::path::all_names(k),
            self.can_write(k),
        ensures
            self.write(k, data, now).wf(),
    {
        let r = self.write(k, data, now);
        assert(r.nodes.dom() =~= self.nodes.dom().insert(k));
        self.lemma_leaf(k);
        assert forall|d: Key| #[trigger] r.contains(d) && d.len() > 0 implies r.is_dir(
            d.drop_last(),
        ) by {
            let p = d.drop_last();
            if d == k {
                assert(p != k);
            } else {
                assert(self.contains(d));
                assert(self.is_dir(p));
                if p == k {
                    assert(k.is_prefix_of(d)) by {
                        assert(k =~= d.subrange(0, k.len() as int));
                    }
                }
            }
        }
        assert forall|d: Key| #[trigger] r.contains(d) implies crate::path::all_names(d) by {
            if d != k {
                assert(self.contains(d));
            }
        }
    }

    /// A list of names without repetition that holds exactly the entries of a
    /// directory has as many elements as the directory has entries.
    pub proof fn lemma_child_names(self, k: Key, names: Seq<Seq<char>>)
        requires
            names.no_duplicates(),
            forall|n: Seq<char>| names.contains(n) <==> self.contains(#[trigger] k.push(n)),
        ensures
            self.child_names(k) == names.to_set(),
            self.child_names(k).finite(),
            self.child_names(k).len() == names.len(),
    {
        assert(self.child_names(k) =~= names.to_set());
        vstd::seq_lib::seq_to_set_is_finite(names);
        names.unique_seq_to_set();
    }
}

} // verus!
