//! What holds of every store, stated over the trees and paths that the
//! contracts of the stores speak of.

use crate::file_system::stat::Stat;
use crate::file_system::tree::{Key, Tree};
use vstd::prelude::*;

verus! {

/// Asking for a directory a second time, at whatever time, changes nothing.
pub proof fn lemma_create_dir_twice(t: Tree, k: Key, now: u64, later: u64)
    requires
        t.wf(),
        crate::path::all_names(k),
        t.contains(k) || t.can_make_dirs(k),
    ensures
        t.create_dir(k, now).wf(),
        t.create_dir(k, now).contains(k),
        t.create_dir(k, now).create_dir(k, later) == t.create_dir(k, now),
{
    if !t.contains(k) {
        t.lemma_make_dirs(k, now);
    }
}

/// Removing an entry a second time changes nothing, and neither does
/// removing what was never there.
pub proof fn lemma_delete_twice(t: Tree, k: Key)
    requires
        t.wf(),
        k.len() > 0,
    ensures
        t.remove_all(k).wf(),
        t.remove_all(k).remove_all(k) == t.remove_all(k),
        !t.contains(k) ==> t.remove_all(k) == t,
{
    t.lemma_remove_all_wf(k);
    assert(t.remove_all(k).remove_all(k).nodes =~= t.remove_all(k).nodes);
    if !t.contains(k) {
        t.lemma_remove_all_absent(k);
    }
}

/// What was written is what is read, the empty content too.
pub proof fn lemma_write_then_read(t: Tree, k: Key, data: Seq<u8>, now: u64)
    requires
        t.wf(),
        crate::path::all_names(k),
        t.can_put(k),
    ensures
        t.put(k, data, now).wf(),
        t.put(k, data, now).read(k) == Some(data),
{
    let p = k.drop_last();
    assert(crate::path::all_names(p)) by {
        assert forall|i: int| 0 <= i < p.len() implies crate::path::is_name(#[trigger] p[i]) by {
            assert(p[i] == k[i]);
        }
    }
    t.lemma_make_dirs(p, now);
    assert(!k.is_prefix_of(p));
    t.make_dirs(p, now).lemma_write_wf(k, data, now);
}

/// Two separators in a row split a path as one does.
pub proof fn lemma_redundant_separator(a: Seq<char>, b: Seq<char>)
    ensures
        crate::path::segments(a + seq!['/', '/'] + b) == crate::path::segments(
            a + seq!['/'] + b,
        ),
{
    let slash_b = seq!['/'] + b;
    let none = Seq::<char>::empty();
    crate::path::lemma_segments_join(a, slash_b);
    crate::path::lemma_segments_join(a, b);
    crate::path::lemma_segments_join(none, b);
    assert(none + seq!['/'] + b =~= slash_b);
    assert(a + seq!['/'] + slash_b =~= a + seq!['/', '/'] + b);
    assert(crate::path::segments(none) =~= Seq::<Seq<char>>::empty());
    assert(crate::path::segments(none) + crate::path::segments(b) =~= crate::path::segments(b));
}

/// The key of a path that neither begins with the root of its store nor with
/// `./`, and is not `.`: the segments of the root and then its own.
pub proof fn lemma_key_of_plain_path(root: Seq<char>, path: Seq<char>)
    requires
        path != seq!['.'],
        !root.is_prefix_of(path),
        !(path.len() >= 2 && path[0] == '.' && path[1] == '/'),
    ensures
        crate::path::segments(crate::path::resolve(root, path)) == crate::path::segments(root)
            + crate::path::segments(path),
{
    assert(path != seq!['.', '/']) by {
        if path == seq!['.', '/'] {
            assert(path[0] == '.' && path[1] == '/');
        }
    }
    crate::path::lemma_segments_join(root, path);
}

/// In a store, a path with two separators in a row stands for the same
/// entry as the path with one. This is said of paths that do not begin with
/// `.` and that the root of the store is no prefix of.
pub proof fn lemma_same_entry(root: Seq<char>, a: Seq<char>, b: Seq<char>)
    requires
        a.len() > 0,
        a[0] != '.',
        !root.is_prefix_of(a + seq!['/', '/'] + b),
        !root.is_prefix_of(a + seq!['/'] + b),
    ensures
        crate::path::segments(crate::path::resolve(root, a + seq!['/', '/'] + b))
            == crate::path::segments(crate::path::resolve(root, a + seq!['/'] + b)),
{
    let twice = a + seq!['/', '/'] + b;
    let once = a + seq!['/'] + b;
    assert(twice[0] == a[0]);
    assert(once[0] == a[0]);
    lemma_key_of_plain_path(root, twice);
    lemma_key_of_plain_path(root, once);
    lemma_redundant_separator(a, b);
}

/// In a store, a path that leads on from another stands for an entry at or
/// below the entry of the other. This is said of paths that do not begin
/// with `.` and that the root of the store is no prefix of.
pub proof fn lemma_entry_below(root: Seq<char>, a: Seq<char>, b: Seq<char>)
    requires
        a.len() > 0,
        a[0] != '.',
        !root.is_prefix_of(a),
        !root.is_prefix_of(a + seq!['/'] + b),
    ensures
        crate::path::segments(crate::path::resolve(root, a)).is_prefix_of(
            crate::path::segments(crate::path::resolve(root, a + seq!['/'] + b)),
        ),
{
    let on = a + seq!['/'] + b;
    assert(on[0] == a[0]);
    lemma_key_of_plain_path(root, a);
    lemma_key_of_plain_path(root, on);
    crate::path::lemma_segments_join(a, b);
    let kr = crate::path::segments(root);
    let ka = crate::path::segments(a);
    let kb = crate::path::segments(b);
    assert(kr + ka =~= (kr + (ka + kb)).subrange(0, (kr + ka).len() as int));
}

/// A path that was resolved resolves to itself. The root `.` is left out:
/// there the empty path resolves to `./` and that to `.`.
pub proof fn lemma_resolve_twice(root: Seq<char>, path: Seq<char>)
    requires
        root != seq!['.'],
    ensures
        crate::path::resolve(root, crate::path::resolve(root, path)) == crate::path::resolve(
            root,
            path,
        ),
{
    let once = crate::path::resolve(root, path);
    assert(root.is_prefix_of(root)) by {
        assert(root =~= root.subrange(0, root.len() as int));
    }
    if path == seq!['.'] || path == seq!['.', '/'] {
    } else if root.is_prefix_of(path) {
    } else {
        let rest = crate::path::strip_cur_dir(path);
        assert(once == root + seq!['/'] + rest);
        assert(root.is_prefix_of(once)) by {
            assert(root =~= once.subrange(0, root.len() as int));
        }
        assert(once != seq!['.']) by {
            if once == seq!['.'] {
                assert(once[0] == '/');
            }
        }
        assert(once != seq!['.', '/']) by {
            if once == seq!['.', '/'] {
                assert(once.len() == 2);
                assert(root.len() == 1);
                assert(root[0] == once[0]);
                assert(root =~= seq!['.']);
            }
        }
    }
}

/// The size in the stat of a directory is the length of a listing of it.
pub proof fn lemma_directory_size(t: Tree, k: Key, names: Seq<Seq<char>>)
    requires
        t.is_dir(k),
        names.no_duplicates(),
        forall|n: Seq<char>| names.contains(n) <==> t.contains(#[trigger] k.push(n)),
        names.len() <= u64::MAX,
    ensures
        Stat::at(t, k) is Some,
        Stat::at(t, k)->Some_0.is_dir(),
        Stat::at(t, k)->Some_0.size == names.len(),
{
    t.lemma_child_names(k, names);
}

/// The names in a listing of a directory are names: none is empty and none
/// holds a separator.
pub proof fn lemma_listed_names(t: Tree, k: Key, names: Seq<Seq<char>>)
    requires
        t.wf(),
        forall|n: Seq<char>| names.contains(n) <==> t.contains(#[trigger] k.push(n)),
    ensures
        crate::path::all_names(names),
{
    assert forall|i: int| 0 <= i < names.len() implies crate::path::is_name(
        #[trigger] names[i],
    ) by {
        assert(names.contains(names[i]));
        let c = k.push(names[i]);
        assert(t.contains(c));
        assert(crate::path::all_names(c));
        assert(c[k.len() as int] == names[i]);
    }
}

/// After an entry is removed there is no stat at its key nor at any key
/// below it.
pub proof fn lemma_delete_closure(t: Tree, k: Key, q: Key)
    requires
        k.is_prefix_of(q),
    ensures
        Stat::at(t.remove_all(k), q) is None,
{
}

/// A path that leads on from another lies at or below it.
pub proof fn lemma_below(a: Seq<char>, b: Seq<char>)
    ensures
        crate::path::segments(a).is_prefix_of(crate::path::segments(a + seq!['/'] + b)),
{
    crate::path::lemma_segments_join(a, b);
    let ka = crate::path::segments(a);
    let kb = crate::path::segments(b);
    assert(ka =~= (ka + kb).subrange(0, ka.len() as int));
}

/// A listing of the files at or below `k` names no directory and nothing
/// that is not there, and misses no file.
pub proof fn lemma_listed_files(t: Tree, k: Key, base: Seq<char>, files: Seq<Seq<char>>)
    requires
        t.wf(),
        t.lists_files(k, base, files),
    ensures
        forall|i: int|
            0 <= i < files.len() ==> t.is_file(k + crate::path::rel_of(base, #[trigger] files[i])),
        forall|d: Key|
            #[trigger] t.is_file(d) && k.is_prefix_of(d) ==> files.contains(
                crate::path::extend(base, d.skip(k.len() as int)),
            ),
{
    assert forall|i: int| 0 <= i < files.len() implies t.is_file(
        k + crate::path::rel_of(base, #[trigger] files[i]),
    ) by {
        assert(files.contains(files[i]));
        t.lemma_names_file(k, base, files[i]);
    }
    assert forall|d: Key| #[trigger] t.is_file(d) && k.is_prefix_of(d) implies files.contains(
        crate::path::extend(base, d.skip(k.len() as int)),
    ) by {
        assert(t.names_file(k, base, crate::path::extend(base, d.skip(k.len() as int))));
    }
}

/// A path stays the beginning of every path that leads on from it.
pub proof fn lemma_extend_prefix(base: Seq<char>, rel: Seq<Seq<char>>)
    ensures
        base.is_prefix_of(crate::path::extend(base, rel)),
    decreases rel.len(),
{
    let s = crate::path::extend(base, rel);
    if rel.len() == 0 {
        assert(base =~= s.subrange(0, base.len() as int));
    } else {
        let c = crate::path::child_path(base, rel[0]);
        lemma_extend_prefix(c, rel.drop_first());
        assert(base =~= c.subrange(0, base.len() as int));
        assert(base =~= s.subrange(0, base.len() as int));
    }
}

/// A path that a store lists leads back, in that store, to the entry it was
/// listed for: the entry that the names of `rel` lead to from the entry of
/// `path`. This is said of listed paths that do not begin with `.` and, where
/// the store took its root off the path, do not begin with that root.
pub proof fn lemma_listed_path_resolves(root: Seq<char>, path: Seq<char>, rel: Seq<Seq<char>>)
    requires
        crate::path::all_names(rel),
        ({
            let physical = crate::path::resolve(root, path);
            let label = crate::path::relative(root, physical);
            let s = crate::path::extend(label, rel);
            &&& s.len() > 0 ==> s[0] != '.'
            &&& label != physical ==> !root.is_prefix_of(s)
        }),
    ensures
        ({
            let physical = crate::path::resolve(root, path);
            let label = crate::path::relative(root, physical);
            let s = crate::path::extend(label, rel);
            crate::path::segments(crate::path::resolve(root, s)) == crate::path::segments(physical)
                + rel
        }),
{
    let physical = crate::path::resolve(root, path);
    let label = crate::path::relative(root, physical);
    let s = crate::path::extend(label, rel);
    let kr = crate::path::segments(root);
    let kl = crate::path::segments(label);
    crate::path::lemma_extend_segments(label, rel);
    assert(s != seq!['.']) by {
        if s == seq!['.'] {
            assert(s[0] == '.');
        }
    }
    assert(s != seq!['.', '/']) by {
        if s == seq!['.', '/'] {
            assert(s[0] == '.');
        }
    }
    if label != physical {
        assert(crate::path::segments(physical) == kr + kl) by {
            if physical == root {
                assert(kl =~= Seq::<Seq<char>>::empty());
                assert(kr + kl =~= kr);
            } else {
                assert(physical =~= root + seq!['/'] + label);
                crate::path::lemma_segments_join(root, label);
            }
        }
        lemma_key_of_plain_path(root, s);
        assert(kr + (kl + rel) =~= (kr + kl) + rel);
    } else {
        assert(root.is_prefix_of(physical)) by {
            if path == seq!['.'] || path == seq!['.', '/'] {
                assert(root =~= root.subrange(0, root.len() as int));
            } else if root.is_prefix_of(path) {
            } else {
                assert(root =~= physical.subrange(0, root.len() as int));
            }
        }
        lemma_extend_prefix(label, rel);
        assert(root.is_prefix_of(s)) by {
            assert(root =~= s.subrange(0, root.len() as int));
        }
    }
}

/// The stat of a listed path is that of a file. This is said of the listed
/// paths of which `lemma_listed_path_resolves` speaks.
pub proof fn lemma_listed_path_is_file(t: Tree, root: Seq<char>, path: Seq<char>, s: Seq<char>)
    requires
        t.wf(),
        t.names_file(
            crate::path::segments(crate::path::resolve(root, path)),
            crate::path::relative(root, crate::path::resolve(root, path)),
            s,
        ),
        s.len() > 0 ==> s[0] != '.',
        crate::path::relative(root, crate::path::resolve(root, path)) != crate::path::resolve(
            root,
            path,
        ) ==> !root.is_prefix_of(s),
    ensures
        t.is_file(crate::path::segments(crate::path::resolve(root, s))),
        Stat::at(t, crate::path::segments(crate::path::resolve(root, s))) is Some,
        Stat::at(t, crate::path::segments(crate::path::resolve(root, s)))->Some_0.is_file(),
{
    let physical = crate::path::resolve(root, path);
    let label = crate::path::relative(root, physical);
    let k = crate::path::segments(physical);
    let d = choose|d: Key|
        #![trigger t.is_file(d)]
        t.is_file(d) && k.is_prefix_of(d) && s == crate::path::extend(
            label,
            d.skip(k.len() as int),
        );
    let rel = d.skip(k.len() as int);
    assert(crate::path::all_names(d));
    assert(crate::path::all_names(rel)) by {
        assert forall|i: int| 0 <= i < rel.len() implies crate::path::is_name(#[trigger] rel[i]) by {
            assert(rel[i] == d[i + k.len()]);
        }
    }
    lemma_listed_path_resolves(root, path, rel);
    assert(k + rel =~= d);
}

/// Writing a file anew keeps its time of creation and gives it the time of
/// the write as its time of modification: a later one if the clock has moved
/// on by a second or more.
pub proof fn lemma_rewrite_times(t: Tree, k: Key, data: Seq<u8>, now: u64)
    requires
        t.wf(),
        t.is_file(k),
    ensures
        Stat::at(t.put(k, data, now), k) is Some,
        Stat::at(t.put(k, data, now), k)->Some_0.create_time == Stat::at(
            t,
            k,
        )->Some_0.create_time,
        Stat::at(t.put(k, data, now), k)->Some_0.update_time == now / 1000,
        now / 1000 > t.nodes[k].modified_ms / 1000 ==> Stat::at(
            t.put(k, data, now),
            k,
        )->Some_0.update_time > Stat::at(t, k)->Some_0.update_time,
{
    assert(k.len() > 0) by {
        if k.len() == 0 {
            assert(k =~= Seq::<Seq<char>>::empty());
        }
    }
    let p = k.drop_last();
    assert(t.is_dir(p));
    t.lemma_make_dirs_present(p, now);
}

} // verus!
