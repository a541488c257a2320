//! Path syntax: separators, segments, and the string helpers the resolver needs.

use vstd::prelude::*;

verus! {

/// The separator of path segments.
pub open spec fn is_sep(c: char) -> bool {
    c == '/'
}

/// The position of the first separator in `s`, or `s.len()` when there is none.
pub open spec fn first_sep(s: Seq<char>) -> nat
    decreases s.len(),
{
    if s.len() == 0 || is_sep(s[0]) {
        0
    } else {
        1 + first_sep(s.drop_first())
    }
}

/// The non-empty segments of `s` between separators, in order.
pub open spec fn segments(s: Seq<char>) -> Seq<Seq<char>>
    decreases s.len(),
{
    if s.len() == 0 {
        Seq::empty()
    } else {
        let i = first_sep(s) as int;
        if i == 0 {
            segments(s.drop_first())
        } else if i >= s.len() {
            seq![s]
        } else {
            seq![s.take(i)] + segments(s.skip(i + 1))
        }
    }
}

/// A name is a non-empty run of characters without a separator.
pub open spec fn is_name(n: Seq<char>) -> bool {
    n.len() > 0 && forall|i: int| 0 <= i < n.len() ==> !is_sep(#[trigger] n[i])
}

/// Every element of `k` is a name.
pub open spec fn all_names(k: Seq<Seq<char>>) -> bool {
    forall|i: int| 0 <= i < k.len() ==> is_name(#[trigger] k[i])
}

/// `first_sep(s)` lies within `s`, at a separator if it is not the end, and
/// no separator comes before it.
pub proof fn lemma_first_sep_bounds(s: Seq<char>)
    ensures
        0 <= first_sep(s) <= s.len(),
        first_sep(s) < s.len() ==> is_sep(s[first_sep(s) as int]),
        forall|j: int| 0 <= j < first_sep(s) ==> !is_sep(#[trigger] s[j]),
    decreases s.len(),
{
    if s.len() == 0 || is_sep(s[0]) {
    } else {
        let t = s.drop_first();
        lemma_first_sep_bounds(t);
        assert forall|j: int| 0 <= j < first_sep(s) implies !is_sep(#[trigger] s[j]) by {
            if j > 0 {
                assert(s[j] == t[j - 1]);
            }
        }
    }
}

/// `first_sep(s)` is `m` when the first `m` characters hold no separator and
/// either `s` ends there or a separator follows.
pub proof fn lemma_first_sep_is(s: Seq<char>, m: int)
    requires
        0 <= m <= s.len(),
        forall|j: int| 0 <= j < m ==> !is_sep(#[trigger] s[j]),
        m < s.len() ==> is_sep(s[m]),
    ensures
        first_sep(s) == m,
{
    lemma_first_sep_bounds(s);
    let f = first_sep(s) as int;
    if f < m {
        assert(is_sep(s[f]));
    } else if f > m {
        assert(!is_sep(s[m]));
    }
}

/// Joining two paths with one separator concatenates their segments.
pub proof fn lemma_segments_join(a: Seq<char>, b: Seq<char>)
    ensures
        segments(a + seq!['/'] + b) == segments(a) + segments(b),
    decreases a.len(),
{
    let w = a + seq!['/'] + b;
    if a.len() == 0 {
        assert(w.drop_first() =~= b);
        assert(segments(a) =~= Seq::<Seq<char>>::empty());
        assert(segments(w) =~= segments(a) + segments(b));
    } else {
        lemma_first_sep_bounds(a);
        let i = first_sep(a) as int;
        assert forall|j: int| 0 <= j < i implies !is_sep(#[trigger] w[j]) by {
            assert(w[j] == a[j]);
        }
        if i < a.len() {
            assert(w[i] == a[i]);
        } else {
            assert(w[i] == '/');
        }
        lemma_first_sep_is(w, i);
        if i == 0 {
            assert(w.drop_first() =~= a.drop_first() + seq!['/'] + b);
            lemma_segments_join(a.drop_first(), b);
        } else if i >= a.len() {
            assert(w.take(i) =~= a);
            assert(w.skip(i + 1) =~= b);
        } else {
            assert(w.take(i) =~= a.take(i));
            assert(w.skip(i + 1) =~= a.skip(i + 1) + seq!['/'] + b);
            lemma_segments_join(a.skip(i + 1), b);
            assert(segments(w) =~= segments(a) + segments(b));
        }
    }
}

/// Every segment of a path is a name.
pub proof fn lemma_segments_are_names(s: Seq<char>)
    ensures
        all_names(segments(s)),
    decreases s.len(),
{
    if s.len() > 0 {
        lemma_first_sep_bounds(s);
        let i = first_sep(s) as int;
        if i == 0 {
            lemma_segments_are_names(s.drop_first());
        } else if i >= s.len() {
            assert(is_name(s));
        } else {
            lemma_segments_are_names(s.skip(i + 1));
            assert(is_name(s.take(i)));
        }
    }
}

/// A name is its own single segment.
pub proof fn lemma_segments_of_name(n: Seq<char>)
    requires
        is_name(n),
    ensures
        segments(n) == seq![n],
{
    lemma_first_sep_is(n, n.len() as int);
}

/// The path without its trailing separators.
pub open spec fn trim_end_seps(s: Seq<char>) -> Seq<char>
    decreases s.len(),
{
    if s.len() > 0 && is_sep(s.last()) {
        trim_end_seps(s.drop_last())
    } else {
        s
    }
}

/// The path without the characters that follow its last separator.
pub open spec fn trim_end_name(s: Seq<char>) -> Seq<char>
    decreases s.len(),
{
    if s.len() > 0 && !is_sep(s.last()) {
        trim_end_name(s.drop_last())
    } else {
        s
    }
}

/// The path of the directory that holds `s`: `s` without its last segment and
/// without anything after it. A path without segments has no parent.
pub open spec fn spec_parent(s: Seq<char>) -> Option<Seq<char>> {
    let t = trim_end_seps(s);
    if t.len() == 0 {
        None
    } else {
        Some(trim_end_name(t))
    }
}

/// The path without any leading `./`.
pub open spec fn strip_cur_dir(s: Seq<char>) -> Seq<char>
    decreases s.len(),
{
    if s.len() >= 2 && s[0] == '.' && is_sep(s[1]) {
        strip_cur_dir(s.skip(2))
    } else {
        s
    }
}

/// The physical path of `path` in the store rooted at `root`: the root for
/// `.` and `./`, `path` itself where it begins with the root, else the root
/// joined with `path` without its leading `./`.
pub open spec fn resolve(root: Seq<char>, path: Seq<char>) -> Seq<char> {
    if path == seq!['.'] || path == seq!['.', '/'] {
        root
    } else if root.is_prefix_of(path) {
        path
    } else {
        spec_join(root, strip_cur_dir(path))
    }
}

/// Two paths joined by one separator.
pub open spec fn spec_join(a: Seq<char>, b: Seq<char>) -> Seq<char> {
    a + seq!['/'] + b
}

/// The path of the entry `name` in the directory `base`. In the directory
/// with the empty path it is the name alone.
pub open spec fn child_path(base: Seq<char>, name: Seq<char>) -> Seq<char> {
    if base.len() == 0 {
        name
    } else {
        spec_join(base, name)
    }
}

/// The path that leads from `base` down through the names of `rel`.
pub open spec fn extend(base: Seq<char>, rel: Seq<Seq<char>>) -> Seq<char>
    decreases rel.len(),
{
    if rel.len() == 0 {
        base
    } else {
        extend(child_path(base, rel[0]), rel.drop_first())
    }
}

/// The segments of `s` that follow those of `base`.
pub open spec fn rel_of(base: Seq<char>, s: Seq<char>) -> Seq<Seq<char>> {
    segments(s).skip(segments(base).len() as int)
}

/// A physical path as the store rooted at `root` reports it: without the
/// root and the separator after it. A path outside the root stays as it is.
pub open spec fn relative(root: Seq<char>, physical: Seq<char>) -> Seq<char> {
    if physical == root {
        Seq::empty()
    } else if (root + seq!['/']).is_prefix_of(physical) {
        physical.skip(root.len() as int + 1)
    } else {
        physical
    }
}

/// The views of a sequence of strings.
pub open spec fn views(v: Seq<String>) -> Seq<Seq<char>> {
    Seq::new(v.len(), |i: int| v[i]@)
}

/// A trailing separator adds no segment.
pub proof fn lemma_segments_trailing_sep(s: Seq<char>)
    ensures
        segments(s.push('/')) == segments(s),
{
    lemma_segments_join(s, Seq::empty());
    assert(s + seq!['/'] + Seq::<char>::empty() =~= s.push('/'));
    assert(segments(Seq::<char>::empty()) =~= Seq::<Seq<char>>::empty());
    assert(segments(s) + Seq::<Seq<char>>::empty() =~= segments(s));
}

/// Trailing separators add no segment.
pub proof fn lemma_segments_trim_end_seps(s: Seq<char>)
    ensures
        segments(trim_end_seps(s)) == segments(s),
        trim_end_seps(s).len() > 0 ==> !is_sep(trim_end_seps(s).last()),
        trim_end_seps(s).len() <= s.len(),
    decreases s.len(),
{
    if s.len() > 0 && is_sep(s.last()) {
        lemma_segments_trim_end_seps(s.drop_last());
        lemma_segments_trailing_sep(s.drop_last());
        assert(s.drop_last().push('/') =~= s);
    }
}

/// A path that ends in a name splits into what precedes the name and the name.
pub proof fn lemma_segments_trim_end_name(s: Seq<char>)
    requires
        s.len() > 0,
        !is_sep(s.last()),
    ensures
        trim_end_name(s).len() < s.len(),
        trim_end_name(s) == s.take(trim_end_name(s).len() as int),
        trim_end_name(s).len() > 0 ==> is_sep(s[trim_end_name(s).len() - 1]),
        is_name(s.skip(trim_end_name(s).len() as int)),
        segments(s) == segments(trim_end_name(s)).push(s.skip(trim_end_name(s).len() as int)),
    decreases s.len(),
{
    let t = s.drop_last();
    let p = trim_end_name(s);
    assert(p == trim_end_name(t));
    if t.len() > 0 && !is_sep(t.last()) {
        lemma_segments_trim_end_name(t);
        let k = p.len() as int;
        let name = s.skip(k);
        assert(p =~= s.take(k));
        assert forall|i: int| 0 <= i < name.len() implies !is_sep(#[trigger] name[i]) by {
            if i < name.len() - 1 {
                assert(name[i] == t.skip(k)[i]);
            }
        }
        if k > 0 {
            assert(s[k - 1] == t[k - 1]);
        }
        lemma_name_after_prefix(s, k);
    } else {
        assert(p == t);
        let k = t.len() as int;
        if k > 0 {
            assert(s[k - 1] == t.last());
        }
        assert(s.skip(k) =~= seq![s.last()]);
        assert(is_name(s.skip(k)));
        lemma_name_after_prefix(s, k);
    }
}

/// When `s` is a prefix that is empty or ends in a separator, followed by a
/// name, its segments are those of the prefix and then the name.
pub proof fn lemma_name_after_prefix(s: Seq<char>, k: int)
    requires
        0 <= k < s.len(),
        k > 0 ==> is_sep(s[k - 1]),
        is_name(s.skip(k)),
    ensures
        segments(s) == segments(s.take(k)).push(s.skip(k)),
{
    let name = s.skip(k);
    lemma_segments_of_name(name);
    if k == 0 {
        assert(s.skip(0) =~= s);
        assert(s.take(0) =~= Seq::<char>::empty());
        assert(segments(s.take(0)) =~= Seq::<Seq<char>>::empty());
        assert(Seq::<Seq<char>>::empty().push(name) =~= seq![name]);
    } else {
        let u = s.take(k - 1);
        assert(s =~= u + seq!['/'] + name);
        lemma_segments_join(u, name);
        lemma_segments_trailing_sep(u);
        assert(u.push('/') =~= s.take(k));
        assert(segments(u) + seq![name] =~= segments(u).push(name));
    }
}

/// The path of a child has the segments of the directory and then the name.
pub proof fn lemma_child_path_segments(base: Seq<char>, name: Seq<char>)
    requires
        is_name(name),
    ensures
        segments(child_path(base, name)) == segments(base).push(name),
{
    lemma_segments_of_name(name);
    if base.len() == 0 {
        assert(segments(base) =~= Seq::<Seq<char>>::empty());
        assert(segments(base).push(name) =~= seq![name]);
    } else {
        lemma_segments_join(base, name);
        assert(segments(base) + seq![name] =~= segments(base).push(name));
    }
}

/// Extending a path by names appends them to its segments.
pub proof fn lemma_extend_segments(base: Seq<char>, rel: Seq<Seq<char>>)
    requires
        all_names(rel),
    ensures
        segments(extend(base, rel)) == segments(base) + rel,
        rel_of(base, extend(base, rel)) == rel,
    decreases rel.len(),
{
    if rel.len() == 0 {
        assert(segments(base) + rel =~= segments(base));
    } else {
        let c = child_path(base, rel[0]);
        let rest = rel.drop_first();
        assert(all_names(rest)) by {
            assert forall|i: int| 0 <= i < rest.len() implies is_name(#[trigger] rest[i]) by {
                assert(rest[i] == rel[i + 1]);
            }
        }
        lemma_child_path_segments(base, rel[0]);
        lemma_extend_segments(c, rest);
        assert(segments(base).push(rel[0]) + rest =~= segments(base) + rel);
    }
    assert((segments(base) + rel).skip(segments(base).len() as int) =~= rel);
}

/// The parent of a path holds all its segments but the last.
pub proof fn lemma_segments_parent(s: Seq<char>)
    ensures
        spec_parent(s) is None <==> segments(s).len() == 0,
        spec_parent(s) matches Some(p) ==> segments(p) == segments(s).drop_last(),
{
    let t = trim_end_seps(s);
    lemma_segments_trim_end_seps(s);
    if t.len() == 0 {
        assert(segments(t) =~= Seq::<Seq<char>>::empty());
    } else {
        lemma_segments_trim_end_name(t);
        let p = trim_end_name(t);
        let name = t.skip(p.len() as int);
        assert(segments(p).push(name).drop_last() =~= segments(p));
    }
}

/// The characters of `s`, in order.
pub fn chars_of(s: &str) -> (r: Vec<char>)
    ensures
        r@ == s@,
{
    let mut out: Vec<char> = Vec::new();
    for c in it: s.chars()
        invariant
            it.seq() == s@,
            out@ == s@.take(it.index() as int),
    {
        out.push(c);
    }
    out
}

/// Whether two strings hold the same characters.
pub fn str_eq(a: &str, b: &str) -> (r: bool)
    ensures
        r == (a@ == b@),
{
    let x = chars_of(a);
    let y = chars_of(b);
    if x.len() != y.len() {
        return false;
    }
    let mut i: usize = 0;
    while i < x.len()
        invariant
            x@ == a@,
            y@ == b@,
            x.len() == y.len(),
            i <= x.len(),
            forall|j: int| 0 <= j < i ==> x@[j] == y@[j],
        decreases x.len() - i,
    {
        if x[i] != y[i] {
            return false;
        }
        i += 1;
    }
    assert(x@ =~= y@);
    true
}

/// Whether `s` begins with `prefix`.
pub fn starts_with(s: &str, prefix: &str) -> (r: bool)
    ensures
        r == prefix@.is_prefix_of(s@),
{
    let x = chars_of(s);
    let y = chars_of(prefix);
    if y.len() > x.len() {
        return false;
    }
    let mut i: usize = 0;
    while i < y.len()
        invariant
            x@ == s@,
            y@ == prefix@,
            y.len() <= x.len(),
            i <= y.len(),
            forall|j: int| 0 <= j < i ==> x@[j] == y@[j],
        decreases y.len() - i,
    {
        if x[i] != y[i] {
            assert(x@.subrange(0, y@.len() as int)[i as int] == x@[i as int]);
            return false;
        }
        i += 1;
    }
    assert(y@ =~= x@.subrange(0, y@.len() as int));
    true
}

/// The two paths joined by one separator.
pub fn join(a: &str, b: &str) -> (r: String)
    ensures
        r@ == spec_join(a@, b@),
{
    proof {
        reveal_strlit("/");
    }
    let mut out = a.to_owned();
    out.append("/");
    out.append(b);
    assert("/"@ =~= seq!['/']);
    out
}

/// The names between the separators of `path`.
pub fn split_segments(path: &str) -> (r: Vec<String>)
    ensures
        views(r@) == segments(path@),
{
    let cs = chars_of(path);
    let n = cs.len();
    let mut out: Vec<String> = Vec::new();
    let mut start: usize = 0;
    let mut i: usize = 0;
    assert(path@.skip(0) =~= path@);
    assert(views(out@) + segments(path@) =~= segments(path@));
    while i < n
        invariant
            cs@ == path@,
            n == cs.len(),
            start <= i <= n,
            forall|j: int| start <= j < i ==> !is_sep(#[trigger] cs@[j]),
            segments(path@) == views(out@) + segments(path@.skip(start as int)),
        decreases n - i,
    {
        if cs[i] == '/' {
            let ghost t = path@.skip(start as int);
            let ghost m = i - start;
            proof {
                assert forall|j: int| 0 <= j < m implies !is_sep(#[trigger] t[j]) by {
                    assert(t[j] == cs@[start + j]);
                }
                assert(t[m] == cs@[i as int]);
                lemma_first_sep_is(t, m);
            }
            if start < i {
                let seg = path.substring_char(start, i).to_owned();
                let ghost before = out@;
                out.push(seg);
                proof {
                    assert(t.take(m) =~= path@.subrange(start as int, i as int));
                    assert(t.skip(m + 1) =~= path@.skip(i + 1));
                    assert(views(out@) =~= views(before) + seq![seg@]);
                    assert(segments(t) == seq![t.take(m)] + segments(t.skip(m + 1)));
                    assert(segments(path@) =~= views(out@) + segments(path@.skip(i + 1)));
                }
            } else {
                proof {
                    assert(t.drop_first() =~= path@.skip(i + 1));
                }
            }
            start = i + 1;
        }
        i += 1;
    }
    let ghost t = path@.skip(start as int);
    proof {
        assert forall|j: int| 0 <= j < t.len() implies !is_sep(#[trigger] t[j]) by {
            assert(t[j] == cs@[start + j]);
        }
        lemma_first_sep_is(t, t.len() as int);
    }
    if start < n {
        let seg = path.substring_char(start, n).to_owned();
        let ghost before = out@;
        out.push(seg);
        proof {
            assert(t =~= path@.subrange(start as int, n as int));
            assert(views(out@) =~= views(before) + seq![seg@]);
            assert(segments(t) == seq![t]);
        }
    } else {
        proof {
            assert(segments(t) =~= Seq::<Seq<char>>::empty());
            assert(views(out@) + Seq::<Seq<char>>::empty() =~= views(out@));
        }
    }
    out
}

/// The path without any leading `./`.
pub fn without_cur_dir(path: &str) -> (r: &str)
    ensures
        r@ == strip_cur_dir(path@),
{
    let cs = chars_of(path);
    let n = cs.len();
    let mut i: usize = 0;
    assert(path@.skip(0) =~= path@);
    while n - i >= 2 && cs[i] == '.' && cs[i + 1] == '/'
        invariant
            cs@ == path@,
            n == cs.len(),
            i <= n,
            strip_cur_dir(path@) == strip_cur_dir(path@.skip(i as int)),
        decreases n - i,
    {
        proof {
            assert(path@.skip(i as int).skip(2) =~= path@.skip(i + 2));
        }
        i += 2;
    }
    assert(path@.skip(i as int) =~= path@.subrange(i as int, n as int));
    path.substring_char(i, n)
}

/// The physical path of `path` in the store rooted at `root`.
pub fn resolve_in(root: &str, path: &str) -> (r: String)
    ensures
        r@ == resolve(root@, path@),
{
    proof {
        reveal_strlit(".");
        reveal_strlit("./");
        assert("."@ =~= seq!['.']);
        assert("./"@ =~= seq!['.', '/']);
    }
    if str_eq(path, "./") || str_eq(path, ".") {
        root.to_owned()
    } else if starts_with(path, root) {
        path.to_owned()
    } else {
        join(root, without_cur_dir(path))
    }
}

/// The path of the entry `name` in the directory `base`.
pub fn child_of(base: &str, name: &str) -> (r: String)
    ensures
        r@ == child_path(base@, name@),
{
    if base.is_empty() {
        name.to_owned()
    } else {
        join(base, name)
    }
}

/// A physical path as the store rooted at `root` reports it.
pub fn relative_to(root: &str, physical: &str) -> (r: String)
    ensures
        r@ == relative(root@, physical@),
{
    if str_eq(physical, root) {
        return String::new();
    }
    proof {
        reveal_strlit("/");
        assert("/"@ =~= seq!['/']);
    }
    let mut prefix = root.to_owned();
    prefix.append("/");
    if starts_with(physical, prefix.as_str()) {
        let from = prefix.as_str().unicode_len();
        let to = physical.unicode_len();
        assert(physical@.skip(from as int) =~= physical@.subrange(from as int, to as int));
        physical.substring_char(from, to).to_owned()
    } else {
        physical.to_owned()
    }
}

/// Whether two lists hold the same names.
pub fn same_names(a: &Vec<String>, b: &Vec<String>) -> (r: bool)
    ensures
        r == (views(a@) == views(b@)),
{
    if a.len() != b.len() {
        assert(views(a@).len() != views(b@).len());
        return false;
    }
    let mut i: usize = 0;
    while i < a.len()
        invariant
            a.len() == b.len(),
            i <= a.len(),
            forall|j: int| 0 <= j < i ==> a@[j]@ == b@[j]@,
        decreases a.len() - i,
    {
        if !str_eq(a[i].as_str(), b[i].as_str()) {
            assert(views(a@)[i as int] != views(b@)[i as int]);
            return false;
        }
        i += 1;
    }
    assert(views(a@) =~= views(b@));
    true
}

/// Whether the list `d` begins with the names of `k`.
pub fn names_start_with(d: &Vec<String>, k: &Vec<String>) -> (r: bool)
    ensures
        r == views(k@).is_prefix_of(views(d@)),
{
    if k.len() > d.len() {
        return false;
    }
    let mut i: usize = 0;
    while i < k.len()
        invariant
            k.len() <= d.len(),
            i <= k.len(),
            forall|j: int| 0 <= j < i ==> d@[j]@ == k@[j]@,
        decreases k.len() - i,
    {
        if !str_eq(d[i].as_str(), k[i].as_str()) {
            assert(views(d@).subrange(0, k@.len() as int)[i as int] == views(d@)[i as int]);
            assert(views(k@)[i as int] != views(d@)[i as int]);
            return false;
        }
        i += 1;
    }
    assert(views(k@) =~= views(d@).subrange(0, k@.len() as int));
    true
}

/// The first `n` names of `k`, or all of them if there are fewer.
pub fn first_names(k: &Vec<String>, n: usize) -> (r: Vec<String>)
    ensures
        views(r@) == views(k@).take(if n <= k.len() {
            n as int
        } else {
            k.len() as int
        }),
{
    let n = if n <= k.len() {
        n
    } else {
        k.len()
    };
    let mut out: Vec<String> = Vec::new();
    let mut i: usize = 0;
    while i < n
        invariant
            n <= k.len(),
            i <= n,
            out.len() == i,
            forall|j: int| 0 <= j < i ==> out@[j]@ == k@[j]@,
        decreases n - i,
    {
        out.push(k[i].clone());
        i += 1;
    }
    assert(views(out@) =~= views(k@).take(n as int));
    out
}

/// The path of the directory that holds `path`, when `path` has a segment.
pub fn parent(path: &str) -> (r: Option<String>)
    ensures
        r is Some <==> spec_parent(path@) is Some,
        r matches Some(p) ==> Some(p@) == spec_parent(path@),
{
    let cs = chars_of(path);
    let mut end: usize = cs.len();
    assert(path@.take(end as int) =~= path@);
    while end > 0 && cs[end - 1] == '/'
        invariant
            cs@ == path@,
            end <= cs.len(),
            trim_end_seps(path@) == trim_end_seps(path@.take(end as int)),
        decreases end,
    {
        proof {
            assert(path@.take(end as int).drop_last() =~= path@.take(end - 1));
        }
        end -= 1;
    }
    let ghost t = path@.take(end as int);
    assert(trim_end_seps(path@) == t) by {
        if end > 0 {
            assert(t.last() == cs@[end - 1]);
        }
    }
    if end == 0 {
        return None;
    }
    let mut cut: usize = end;
    while cut > 0 && cs[cut - 1] != '/'
        invariant
            cs@ == path@,
            cut <= end <= cs.len(),
            t == path@.take(end as int),
            trim_end_name(t) == trim_end_name(path@.take(cut as int)),
        decreases cut,
    {
        proof {
            assert(path@.take(cut as int).last() == cs@[cut - 1]);
            assert(path@.take(cut as int).drop_last() =~= path@.take(cut - 1));
        }
        cut -= 1;
    }
    let ghost p = path@.take(cut as int);
    assert(trim_end_name(t) == p) by {
        if cut > 0 {
            assert(p.last() == cs@[cut - 1]);
        }
    }
    let out = path.substring_char(0, cut).to_owned();
    assert(out@ =~= p);
    Some(out)
}

} // verus!
