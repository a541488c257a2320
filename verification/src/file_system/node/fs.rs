//! The host's calls with their failures made [`IoFailure`]s, and the removal
//! of a whole subtree.

use crate::error::IoFailure;
use crate::file_system::host::Host;
use crate::file_system::node::error::Error;
use crate::file_system::node::stats::Stats;
use crate::file_system::tree::{Key, Tree};
use vstd::prelude::*;

verus! {

/// Whether the host holds an entry at `path`.
pub fn exists_sync<H: Host>(host: &H, path: &str) -> (r: Result<bool, IoFailure>)
    requires
        host.inv(),
    ensures
        r matches Ok(b) ==> b == host.tree().contains(crate::path::segments(path@)),
        r matches Err(f) ==> "failed fs.existsSync: "@.is_prefix_of(f.message@),
        host.reliable() ==> r is Ok,
{
    match host.exists_sync(path) {
        Ok(found) => Ok(found),
        Err(e) => Err(IoFailure::new("failed fs.existsSync: ", &e)),
    }
}

/// The names of the entries directly inside the directory at `path`, each
/// once; `None` where the host holds nothing at `path`.
pub fn read_dir_sync<H: Host>(host: &H, path: &str) -> (r: Result<Option<Vec<String>>, IoFailure>)
    requires
        host.inv(),
    ensures
        r matches Ok(None) ==> !host.tree().contains(crate::path::segments(path@)),
        r matches Ok(Some(names)) ==> {
            &&& host.tree().is_dir(crate::path::segments(path@))
            &&& crate::path::views(names@).no_duplicates()
            &&& forall|n: Seq<char>|
                crate::path::views(names@).contains(n) <==> host.tree().contains(
                    #[trigger] crate::path::segments(path@).push(n),
                )
        },
        r matches Err(f) ==> "failed fs.existsSync: "@.is_prefix_of(f.message@)
            || "failed read dir: "@.is_prefix_of(f.message@),
        host.reliable() ==> (r is Ok <==> !host.tree().is_file(crate::path::segments(path@))),
{
    match exists_sync(host, path) {
        Ok(true) => {},
        Ok(false) => {
            return Ok(None);
        },
        Err(e) => {
            return Err(e);
        },
    }
    match host.read_dir_sync(path) {
        Ok(entries) => Ok(Some(entries)),
        Err(e) => Err(IoFailure::new("failed read dir: ", &e)),
    }
}

/// Removes the entry at `path` and everything below it.
pub fn rm_sync<H: Host>(host: &mut H, path: &str) -> (r: Result<(), IoFailure>)
    requires
        old(host).inv(),
    ensures
        final(host).inv(),
        final(host).reliable() == old(host).reliable(),
        final(host).now_ms() == old(host).now_ms(),
        r is Ok ==> {
            &&& crate::path::segments(path@).len() > 0
            &&& final(host).tree() == old(host).tree().remove_all(crate::path::segments(path@))
        },
        r matches Err(f) ==> {
            &&& final(host).tree() == old(host).tree()
            &&& "failed fs.rmSync : "@.is_prefix_of(f.message@)
        },
        old(host).reliable() ==> (r is Ok <==> crate::path::segments(path@).len() > 0),
{
    match host.rm_sync(path) {
        Ok(()) => Ok(()),
        Err(e) => Err(IoFailure::new("failed fs.rmSync : ", &e)),
    }
}

/// Removes the empty directory at `path`.
pub fn rm_dir_sync<H: Host>(host: &mut H, path: &str) -> (r: Result<(), IoFailure>)
    requires
        old(host).inv(),
    ensures
        final(host).inv(),
        final(host).reliable() == old(host).reliable(),
        final(host).now_ms() == old(host).now_ms(),
        r is Ok ==> {
            &&& crate::path::segments(path@).len() > 0
            &&& old(host).tree().is_empty_dir(crate::path::segments(path@))
            &&& final(host).tree() == old(host).tree().remove_all(crate::path::segments(path@))
        },
        r matches Err(f) ==> {
            &&& final(host).tree() == old(host).tree()
            &&& "failed fs.rmdirSync : "@.is_prefix_of(f.message@)
        },
        old(host).reliable() ==> (r is Ok <==> (crate::path::segments(path@).len() > 0
            && old(host).tree().is_empty_dir(crate::path::segments(path@)))),
{
    match host.rm_dir_sync(path) {
        Ok(()) => Ok(()),
        Err(e) => Err(IoFailure::new("failed fs.rmdirSync : ", &e)),
    }
}

/// The metadata of the entry at `path`.
pub fn lstat_sync<H: Host>(host: &H, path: &str) -> (r: Result<Stats, IoFailure>)
    requires
        host.inv(),
    ensures
        r matches Ok(s) ==> {
            &&& host.tree().contains(crate::path::segments(path@))
            &&& s.describes(host.tree().nodes[crate::path::segments(path@)])
        },
        r matches Err(f) ==> "failed lstat_sync : "@.is_prefix_of(f.message@),
        host.reliable() ==> (r is Ok <==> host.tree().contains(crate::path::segments(path@))),
{
    match host.lstat_sync(path) {
        Ok(stats) => Ok(stats),
        Err(e) => Err(IoFailure::new("failed lstat_sync : ", &e)),
    }
}

/// Whether the entry at `path` is a file.
pub fn is_file<H: Host>(host: &H, path: &str) -> (r: Result<bool, IoFailure>)
    requires
        host.inv(),
    ensures
        r matches Ok(b) ==> {
            &&& host.tree().contains(crate::path::segments(path@))
            &&& b == host.tree().is_file(crate::path::segments(path@))
        },
        r matches Err(f) ==> "failed lstat_sync : "@.is_prefix_of(f.message@),
        host.reliable() ==> (r is Ok <==> host.tree().contains(crate::path::segments(path@))),
{
    match lstat_sync(host, path) {
        Ok(stats) => Ok(stats.is_file),
        Err(e) => Err(e),
    }
}

/// What the making of a directory comes to, given what the host answered:
/// the host's complaint that the entry is there already counts as success,
/// any other as a failure to make the directory.
pub fn mkdir_outcome(made: Result<(), Error>) -> (r: Result<(), IoFailure>)
    ensures
        made is Ok ==> r is Ok,
        made matches Err(e) ==> {
            &&& e.already_exists() ==> r is Ok
            &&& !e.already_exists() ==> r is Err && r->Err_0.message@ == "failed to create dir "@
                + e.code@
        },
{
    match made {
        Ok(()) => Ok(()),
        Err(e) => {
            if e.already_exists() {
                Ok(())
            } else {
                Err(IoFailure::new("failed to create dir ", &e))
            }
        },
    }
}

/// Removes the entry at `path` with everything below it: a file at once, a
/// directory after each of its entries. Where the host holds nothing at
/// `path`, nothing changes. The root of the host cannot be removed. A removal
/// that fails stops at once: the entry at `path` is still there, every entry
/// that is not below it is kept, and none is made or changed.
pub fn rm_recursive<H: Host>(host: &mut H, path: String) -> (r: Result<(), IoFailure>)
    requires
        old(host).inv(),
    ensures
        final(host).inv(),
        final(host).reliable() == old(host).reliable(),
        final(host).now_ms() == old(host).now_ms(),
        r is Ok ==> final(host).tree() == old(host).tree().remove_all(
            crate::path::segments(path@),
        ),
        final(host).tree().left_of(old(host).tree(), crate::path::segments(path@)),
        !old(host).tree().contains(crate::path::segments(path@)) ==> final(host).tree() == old(
            host,
        ).tree(),
        r matches Err(f) ==> {
            &&& old(host).tree().contains(crate::path::segments(path@))
                ==> final(host).tree().contains(crate::path::segments(path@))
            &&& IoFailure::in_removing(f.message@)
        },
        old(host).reliable() ==> (r is Ok <==> crate::path::segments(path@).len() > 0),
    decreases old(host).tree().within(crate::path::segments(path@)).len(),
{
    let ghost k: Key = crate::path::segments(path@);
    let ghost before = host.tree();
    proof {
        host.lemma_inv();
    }
    match exists_sync(host, path.as_str()) {
        Ok(true) => {},
        Ok(false) => {
            proof {
                before.lemma_remove_all_absent(k);
            }
            return Ok(());
        },
        Err(e) => {
            return Err(e);
        },
    }
    let file = match is_file(host, path.as_str()) {
        Ok(b) => b,
        Err(e) => {
            return Err(e);
        },
    };
    if file {
        return rm_sync(host, path.as_str());
    }
    let names = match read_dir_sync(host, path.as_str()) {
        Ok(Some(names)) => names,
        Ok(None) => Vec::new(),
        Err(e) => {
            return Err(e);
        },
    };
    let ghost all = crate::path::views(names@);
    proof {
        before.lemma_remove_children_none(k);
        assert(all.take(0) =~= Seq::<Seq<char>>::empty());
    }
    let mut i: usize = 0;
    while i < names.len()
        invariant
            host.inv(),
            host.reliable() == old(host).reliable(),
            host.now_ms() == old(host).now_ms(),
            before == old(host).tree(),
            before.wf(),
            before.is_dir(k),
            k == crate::path::segments(path@),
            all == crate::path::views(names@),
            forall|n: Seq<char>| all.contains(n) <==> before.contains(#[trigger] k.push(n)),
            i <= names.len(),
            host.tree() == before.remove_children(k, all.take(i as int)),
        decreases names.len() - i,
    {
        let child = crate::path::join(path.as_str(), names[i].as_str());
        let ghost c = k.push(all[i as int]);
        let ghost cur = host.tree();
        proof {
            assert(all.contains(all[i as int]));
            assert(before.contains(c));
            assert(crate::path::is_name(all[i as int])) by {
                assert(crate::path::all_names(c));
                assert(c[k.len() as int] == all[i as int]);
            }
            crate::path::lemma_segments_join(path@, names@[i as int]@);
            crate::path::lemma_segments_of_name(all[i as int]);
            assert(crate::path::segments(child@) =~= c);
            assert(k.is_prefix_of(c)) by {
                assert(k =~= c.subrange(0, k.len() as int));
            }
            before.lemma_within_smaller(cur, k, c);
        }
        match rm_recursive(host, child) {
            Ok(()) => {},
            Err(e) => {
                proof {
                    let after = host.tree();
                    assert(!Tree::below_any(k, all.take(i as int), k)) by {
                        if Tree::below_any(k, all.take(i as int), k) {
                            let j = choose|j: int|
                                0 <= j < all.take(i as int).len() && (#[trigger] k.push(
                                    all.take(i as int)[j],
                                )).is_prefix_of(k);
                            assert(false);
                        }
                    }
                    assert(cur.contains(k));
                    assert(after.contains(k));
                    assert forall|d: Key| #[trigger]
                        after.nodes.dom().contains(d) implies before.nodes.dom().contains(d)
                        && after.nodes[d] == before.nodes[d] by {
                        assert(cur.nodes.dom().contains(d));
                    }
                    assert(after.nodes.submap_of(before.nodes));
                    assert forall|d: Key|
                        before.contains(d) && !k.is_prefix_of(d) implies #[trigger] after.contains(
                        d,
                    ) by {
                        assert(!Tree::below_any(k, all.take(i as int), d)) by {
                            if Tree::below_any(k, all.take(i as int), d) {
                                let j = choose|j: int|
                                    0 <= j < all.take(i as int).len() && (#[trigger] k.push(
                                        all.take(i as int)[j],
                                    )).is_prefix_of(d);
                                assert(k =~= d.subrange(0, k.len() as int));
                            }
                        }
                        assert(cur.contains(d));
                        if c.is_prefix_of(d) {
                            assert(k =~= d.subrange(0, k.len() as int));
                        }
                    }
                }
                return Err(e);
            },
        }
        proof {
            before.lemma_remove_children_step(k, all, i as int);
        }
        i += 1;
    }
    proof {
        assert(all.take(names.len() as int) =~= all);
        before.lemma_remove_children_all(k, all);
    }
    rm_dir_sync(host, path.as_str())
}

/// The paths of the files at or below the entry at `physical`, each once, in
/// no particular order. The path of a file is `logical` led down through
/// the names from that entry to the file.
pub fn files_in<H: Host>(host: &H, physical: &str, logical: &str) -> (r: Result<
    Vec<String>,
    IoFailure,
>)
    requires
        host.inv(),
    ensures
        r matches Ok(files) ==> host.tree().lists_files(
            crate::path::segments(physical@),
            logical@,
            crate::path::views(files@),
        ),
        r matches Err(f) ==> IoFailure::in_lookup(f.message@),
        host.reliable() ==> r is Ok,
    decreases host.tree().within(crate::path::segments(physical@)).len(),
{
    let ghost k: Key = crate::path::segments(physical@);
    let ghost t = host.tree();
    let ghost base = logical@;
    proof {
        host.lemma_inv();
    }
    match exists_sync(host, physical) {
        Ok(true) => {},
        Ok(false) => {
            let out: Vec<String> = Vec::new();
            proof {
                t.lemma_leaf(k);
                assert forall|s: Seq<char>| !t.names_file(k, base, s) by {}
                assert(crate::path::views(out@) =~= Seq::<Seq<char>>::empty());
            }
            return Ok(out);
        },
        Err(e) => {
            return Err(e);
        },
    }
    let file = match is_file(host, physical) {
        Ok(b) => b,
        Err(e) => {
            return Err(e);
        },
    };
    if file {
        let mut out: Vec<String> = Vec::new();
        out.push(logical.to_owned());
        proof {
            let files = crate::path::views(out@);
            assert(files =~= seq![base]);
            t.lemma_leaf(k);
            assert forall|s: Seq<char>| #[trigger] files.contains(s) <==> t.names_file(
                k,
                base,
                s,
            ) by {
                t.lemma_names_file(k, base, s);
                let none = Seq::<Seq<char>>::empty();
                if files.contains(s) {
                    assert(s == base);
                    assert(crate::path::rel_of(base, base) =~= none);
                    assert(k + none =~= k);
                }
                if t.names_file_at(k, base, s) {
                    let rel = crate::path::rel_of(base, s);
                    assert(k.is_prefix_of(k + rel)) by {
                        assert(k =~= (k + rel).subrange(0, k.len() as int));
                    }
                    assert(k + rel == k);
                    assert(rel =~= none);
                    assert(files[0] == s);
                }
            }
        }
        return Ok(out);
    }
    let names = match read_dir_sync(host, physical) {
        Ok(Some(names)) => names,
        Ok(None) => Vec::new(),
        Err(e) => {
            return Err(e);
        },
    };
    let ghost all = crate::path::views(names@);
    let mut out: Vec<String> = Vec::new();
    let mut i: usize = 0;
    proof {
        assert(crate::path::views(out@) =~= Seq::<Seq<char>>::empty());
    }
    while i < names.len()
        invariant
            host.inv(),
            t == host.tree(),
            t.wf(),
            t.is_dir(k),
            k == crate::path::segments(physical@),
            base == logical@,
            all == crate::path::views(names@),
            all.no_duplicates(),
            forall|n: Seq<char>| all.contains(n) <==> t.contains(#[trigger] k.push(n)),
            i <= names.len(),
            crate::path::views(out@).no_duplicates(),
            forall|s: Seq<char>| #[trigger]
                crate::path::views(out@).contains(s) <==> (t.names_file_at(k, base, s)
                    && crate::path::rel_of(base, s).len() > 0 && all.take(i as int).contains(
                    crate::path::rel_of(base, s)[0],
                )),
        decreases names.len() - i,
    {
        let child = crate::path::join(physical, names[i].as_str());
        let label = crate::path::child_of(logical, names[i].as_str());
        let ghost n = all[i as int];
        let ghost c = k.push(n);
        proof {
            assert(all.contains(n));
            assert(t.contains(c));
            assert(crate::path::is_name(n)) by {
                assert(crate::path::all_names(c));
                assert(c[k.len() as int] == n);
            }
            crate::path::lemma_segments_join(physical@, n);
            crate::path::lemma_segments_of_name(n);
            assert(crate::path::segments(child@) =~= c);
            assert(k.is_prefix_of(c)) by {
                assert(k =~= c.subrange(0, k.len() as int));
            }
            t.lemma_within_smaller(t, k, c);
            crate::path::lemma_child_path_segments(base, n);
        }
        let mut sub = match files_in(host, child.as_str(), label.as_str()) {
            Ok(sub) => sub,
            Err(e) => {
                return Err(e);
            },
        };
        let ghost had = crate::path::views(out@);
        let ghost got = crate::path::views(sub@);
        proof {
            let lk = crate::path::segments(base);
            assert forall|s: Seq<char>| #[trigger] got.contains(s) <==> (t.names_file_at(
                k,
                base,
                s,
            ) && crate::path::rel_of(base, s).len() > 0 && crate::path::rel_of(base, s)[0]
                == n) by {
                t.lemma_names_file(c, label@, s);
                let rel = crate::path::rel_of(base, s);
                let sub_rel = crate::path::rel_of(label@, s);
                if got.contains(s) {
                    assert(t.names_file_at(c, label@, s));
                    assert(crate::path::all_names(c + sub_rel));
                    assert(crate::path::all_names(sub_rel)) by {
                        assert forall|j: int| 0 <= j < sub_rel.len() implies crate::path::is_name(
                            #[trigger] sub_rel[j],
                        ) by {
                            assert(sub_rel[j] == (c + sub_rel)[j + c.len()]);
                        }
                    }
                    crate::path::lemma_extend_segments(label@, sub_rel);
                    assert(crate::path::segments(s) == lk.push(n) + sub_rel);
                    assert(rel =~= seq![n] + sub_rel);
                    assert(rel.drop_first() =~= sub_rel);
                    assert(k + rel =~= c + sub_rel);
                }
                if t.names_file_at(k, base, s) && rel.len() > 0 && rel[0] == n {
                    assert(crate::path::all_names(k + rel));
                    assert(crate::path::all_names(rel)) by {
                        assert forall|j: int| 0 <= j < rel.len() implies crate::path::is_name(
                            #[trigger] rel[j],
                        ) by {
                            assert(rel[j] == (k + rel)[j + k.len()]);
                        }
                    }
                    crate::path::lemma_extend_segments(base, rel);
                    assert(crate::path::segments(s) == lk + rel);
                    assert(sub_rel =~= rel.drop_first());
                    assert(k + rel =~= c + sub_rel);
                    assert(t.names_file_at(c, label@, s));
                }
            }
            assert forall|a: int, b: int| 0 <= a < had.len() && 0 <= b < got.len() implies had[a]
                != got[b] by {
                if had[a] == got[b] {
                    let s = had[a];
                    assert(had.contains(s));
                    assert(got.contains(s));
                    let first = crate::path::rel_of(base, s)[0];
                    let seen = all.take(i as int);
                    let j = choose|j: int| 0 <= j < seen.len() && seen[j] == first;
                    assert(all[j] == all[i as int]);
                }
            }
            vstd::seq_lib::lemma_no_dup_in_concat(had, got);
        }
        out.append(&mut sub);
        proof {
            let now = crate::path::views(out@);
            let seen = all.take(i as int);
            let next = all.take(i + 1);
            assert(now =~= had + got);
            assert forall|s: Seq<char>| #[trigger] now.contains(s) <==> (t.names_file_at(
                k,
                base,
                s,
            ) && crate::path::rel_of(base, s).len() > 0 && next.contains(
                crate::path::rel_of(base, s)[0],
            )) by {
                let first = crate::path::rel_of(base, s)[0];
                if now.contains(s) {
                    let x = choose|x: int| 0 <= x < now.len() && now[x] == s;
                    if x < had.len() {
                        assert(had[x] == s);
                        assert(had.contains(s));
                        let j = choose|j: int| 0 <= j < seen.len() && seen[j] == first;
                        assert(next[j] == first);
                    } else {
                        assert(got[x - had.len()] == s);
                        assert(got.contains(s));
                        assert(next[i as int] == first);
                    }
                }
                if t.names_file_at(k, base, s) && crate::path::rel_of(base, s).len() > 0
                    && next.contains(first) {
                    let j = choose|j: int| 0 <= j < next.len() && next[j] == first;
                    if j < i {
                        assert(seen[j] == first);
                        assert(seen.contains(first));
                        assert(had.contains(s));
                        let x = choose|x: int| 0 <= x < had.len() && had[x] == s;
                        assert(now[x] == s);
                    } else {
                        assert(got.contains(s));
                        let x = choose|x: int| 0 <= x < got.len() && got[x] == s;
                        assert(now[had.len() + x] == s);
                    }
                }
            }
        }
        i += 1;
    }
    proof {
        let files = crate::path::views(out@);
        assert(all.take(names.len() as int) =~= all);
        assert forall|s: Seq<char>| #[trigger] files.contains(s) <==> t.names_file(k, base, s) by {
            t.lemma_names_file(k, base, s);
            if t.names_file_at(k, base, s) {
                let rel = crate::path::rel_of(base, s);
                let d = k + rel;
                assert(k.is_prefix_of(d)) by {
                    assert(k =~= d.subrange(0, k.len() as int));
                }
                if rel.len() == 0 {
                    assert(d =~= k);
                }
                t.lemma_below_child(k, d);
                assert(d[k.len() as int] == rel[0]);
                assert(all.contains(rel[0]));
            }
        }
    }
    Ok(out)
}

} // verus!
