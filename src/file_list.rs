use vstd::prelude::*;
use crate::file_monitor::{find_entry, find_path, lemma_find_path};
use crate::entry::{
    lemma_insert_sorted, paths_sorted,
    EntryView, FileEntry, copy_bytes, copy_entries, copy_path, entries_sorted, entries_view,
    lemma_path_lt_irreflexive, lemma_path_lt_total, path_less, path_lt,
    path_view, unique_paths,
};

verus! {

broadcast use vstd::seq_lib::group_to_multiset_ensures;

/// One item of a directory listing, as read from the file system.
#[derive(Debug)]
pub struct DirChild {
    pub name: Vec<u8>,
    pub last_mod: i128,
    pub is_dir: bool,
}

/// The entry that a listed child of directory `dir` becomes.
pub open spec fn child_entry(dir: Seq<Seq<u8>>, c: DirChild) -> EntryView {
    EntryView { path: dir.push(c.name@), last_mod: c.last_mod, is_dir: c.is_dir }
}

/// The entries that a listing of directory `dir` adds, in listing order.
pub open spec fn listing_entries(dir: Seq<Seq<u8>>, children: Seq<DirChild>) -> Seq<EntryView> {
    children.map_values(|c: DirChild| child_entry(dir, c))
}

/// The subdirectories that a listing of directory `dir` names, in listing
/// order.
pub open spec fn listing_dirs(dir: Seq<Seq<u8>>, children: Seq<DirChild>) -> Seq<Seq<Seq<u8>>>
    decreases children.len(),
{
    if children.len() == 0 {
        seq![]
    } else {
        let rest = listing_dirs(dir, children.drop_last());
        if children.last().is_dir {
            rest.push(dir.push(children.last().name@))
        } else {
            rest
        }
    }
}

/// The views of a sequence of paths.
pub open spec fn paths_view(s: Seq<Vec<Vec<u8>>>) -> Seq<Seq<Seq<u8>>> {
    s.map_values(|p: Vec<Vec<u8>>| path_view(p@))
}

/// Puts entries in path order, keeping every entry.
pub fn sort_entries(v: Vec<FileEntry>) -> (r: Vec<FileEntry>)
    ensures
        entries_view(r@).to_multiset() == entries_view(v@).to_multiset(),
        entries_sorted(entries_view(r@)),
{
    let ghost all = entries_view(v@).to_multiset();
    let mut v = v;
    let mut r: Vec<FileEntry> = Vec::new();
    while v.len() > 0
        invariant
            entries_view(r@).to_multiset().add(entries_view(v@).to_multiset()) == all,
            entries_sorted(entries_view(r@)),
        decreases v.len(),
    {
        let ghost vb = v@;
        let x = v.pop().unwrap();
        proof {
            assert(entries_view(vb) =~= entries_view(v@).push(x@));
        }
        let mut j: usize = 0;
        while j < r.len() && !path_less(&x.path, &r[j].path)
            invariant
                j <= r.len(),
                forall|k: int| 0 <= k < j ==> !path_lt(x@.path, #[trigger] r@[k]@.path),
            decreases r.len() - j,
        {
            j += 1;
        }
        let ghost old_r = entries_view(r@);
        let ghost xv = x@;
        proof {
            let ks = old_r.map_values(|e: EntryView| e.path);
            assert(paths_sorted(ks)) by {
                assert forall|a: int, b: int| 0 <= a < b < ks.len() implies !path_lt(
                    #[trigger] ks[b],
                    #[trigger] ks[a],
                ) by {
                    assert(!path_lt(old_r[b].path, old_r[a].path));
                }
            }
            assert forall|k: int| 0 <= k < j implies !path_lt(xv.path, #[trigger] ks[k]) by {
                assert(ks[k] == r@[k]@.path);
            }
            if j < r.len() {
                assert(ks[j as int] == r@[j as int]@.path);
            }
            lemma_insert_sorted(ks, j as int, xv.path);
        }
        r.insert(j, x);
        proof {
            let nr = entries_view(r@);
            let ks = old_r.map_values(|e: EntryView| e.path);
            assert(nr =~= old_r.insert(j as int, xv));
            assert(nr.map_values(|e: EntryView| e.path) =~= ks.insert(j as int, xv.path));
            assert forall|a: int, b: int| 0 <= a < b < nr.len() implies !path_lt(
                #[trigger] nr[b].path,
                #[trigger] nr[a].path,
            ) by {
                let nk = nr.map_values(|e: EntryView| e.path);
                assert(!path_lt(nk[b], nk[a]));
            }
        }
    }
    r
}

/// The order in which a tree is walked does not change the sorted snapshot:
/// two snapshots in path order that hold the same entries, with unique paths,
/// are the same sequence.
pub proof fn lemma_sorted_snapshot_unique(a: Seq<EntryView>, b: Seq<EntryView>)
    requires
        a.to_multiset() == b.to_multiset(),
        entries_sorted(a),
        entries_sorted(b),
        unique_paths(a),
    ensures
        a == b,
    decreases a.len(),
{
    vstd::seq_lib::to_multiset_len(a);
    vstd::seq_lib::to_multiset_len(b);
    if a.len() == 0 {
        assert(a =~= b);
    } else {
        let a0 = a[0];
        let b0 = b[0];
        assert(b.contains(a0)) by {
            assert(a.to_multiset().count(a0) > 0);
        }
        assert(a.contains(b0)) by {
            assert(b.to_multiset().count(b0) > 0);
        }
        let j = choose|j: int| 0 <= j < b.len() && b[j] == a0;
        let i = choose|i: int| 0 <= i < a.len() && a[i] == b0;
        if j > 0 {
            assert(!path_lt(b[j].path, b[0].path));
        }
        if i > 0 {
            assert(!path_lt(a[i].path, a[0].path));
        }
        lemma_path_lt_total(a0.path, b0.path);
        lemma_path_lt_irreflexive(a0.path);
        assert(a0.path == b0.path);
        assert(i == 0);
        vstd::seq_lib::to_multiset_remove(a, 0);
        vstd::seq_lib::to_multiset_remove(b, 0);
        assert(a.remove(0) =~= a.drop_first());
        assert(b.remove(0) =~= b.drop_first());
        let ar = a.drop_first();
        let br = b.drop_first();
        assert(entries_sorted(ar)) by {
            assert forall|x: int, y: int| 0 <= x < y < ar.len() implies !path_lt(
                #[trigger] ar[y].path,
                #[trigger] ar[x].path,
            ) by {
                assert(!path_lt(a[y + 1].path, a[x + 1].path));
            }
        }
        assert(entries_sorted(br)) by {
            assert forall|x: int, y: int| 0 <= x < y < br.len() implies !path_lt(
                #[trigger] br[y].path,
                #[trigger] br[x].path,
            ) by {
                assert(!path_lt(b[y + 1].path, b[x + 1].path));
            }
        }
        assert(unique_paths(ar)) by {
            assert forall|x: int, y: int| 0 <= x < y < ar.len() implies #[trigger] ar[x].path
                != #[trigger] ar[y].path by {
                assert(a[x + 1].path != a[y + 1].path);
            }
        }
        lemma_sorted_snapshot_unique(ar, br);
        assert(a =~= b) by {
            assert forall|k: int| 0 <= k < a.len() implies a[k] == b[k] by {
                if k > 0 {
                    assert(a[k] == ar[k - 1]);
                }
            }
        }
    }
}

/// `a` is a prefix of `b`, or equal to it.
pub open spec fn is_prefix(a: Seq<Seq<u8>>, b: Seq<Seq<u8>>) -> bool {
    a.len() <= b.len() && b.take(a.len() as int) == a
}

/// One of the two paths lies on the other's way from the root.
pub open spec fn related(a: Seq<Seq<u8>>, b: Seq<Seq<u8>>) -> bool {
    is_prefix(a, b) || is_prefix(b, a)
}

/// No entry lies inside directory `d` yet.
pub open spec fn unopened(d: Seq<Seq<u8>>, es: Seq<EntryView>) -> bool {
    forall|i: int|
        0 <= i < es.len() ==> !(d.len() < es[i].path.len() && is_prefix(d, #[trigger] es[i].path))
}

/// The state of a walk is consistent: the entries have unique paths, no
/// directory still to be read has entries inside it yet, and no such
/// directory lies inside another.
pub open spec fn walk_wf(es: Seq<EntryView>, open: Seq<Seq<Seq<u8>>>) -> bool {
    &&& unique_paths(es)
    &&& forall|k: int| 0 <= k < open.len() ==> unopened(#[trigger] open[k], es)
    &&& forall|k: int, l: int|
        0 <= k < open.len() && 0 <= l < open.len() && k != l ==> !related(
            #[trigger] open[k],
            #[trigger] open[l],
        )
}

/// No two children of a listing share a name.
pub open spec fn distinct_names(children: Seq<DirChild>) -> bool {
    forall|a: int, b: int|
        0 <= a < b < children.len() ==> #[trigger] children[a].name@ != #[trigger] children[b].name@
}

/// `x` is a direct child of `d` whose name is among `names`.
spec fn child_of(d: Seq<Seq<u8>>, x: Seq<Seq<u8>>, names: Seq<Seq<u8>>) -> bool {
    x.len() == d.len() + 1 && is_prefix(d, x) && names.contains(x.last())
}

/// The state of a walk while directory `d` is being listed, with the
/// children named `names` recorded so far.
spec fn listing_wf(
    es: Seq<EntryView>,
    pend: Seq<Seq<Seq<u8>>>,
    pend0_len: int,
    d: Seq<Seq<u8>>,
    names: Seq<Seq<u8>>,
) -> bool {
    &&& 0 <= pend0_len <= pend.len()
    &&& unique_paths(es)
    &&& forall|k: int| 0 <= k < pend.len() ==> unopened(#[trigger] pend[k], es)
    &&& forall|k: int, l: int|
        0 <= k < pend.len() && 0 <= l < pend.len() && k != l ==> !related(
            #[trigger] pend[k],
            #[trigger] pend[l],
        )
    &&& forall|k: int| 0 <= k < pend0_len ==> !related(d, #[trigger] pend[k])
    &&& forall|k: int| pend0_len <= k < pend.len() ==> child_of(d, #[trigger] pend[k], names)
    &&& forall|i: int|
        0 <= i < es.len() ==> (d.len() < es[i].path.len() && is_prefix(d, #[trigger] es[i].path))
            ==> child_of(d, es[i].path, names)
}

proof fn lemma_prefix_transitive(a: Seq<Seq<u8>>, b: Seq<Seq<u8>>, c: Seq<Seq<u8>>)
    requires
        is_prefix(a, b),
        is_prefix(b, c),
    ensures
        is_prefix(a, c),
{
    assert(c.take(a.len() as int) =~= c.take(b.len() as int).take(a.len() as int));
}

proof fn lemma_prefix_same_len(a: Seq<Seq<u8>>, b: Seq<Seq<u8>>)
    requires
        is_prefix(a, b),
        a.len() == b.len(),
    ensures
        a == b,
{
    assert(b.take(b.len() as int) =~= b);
}

/// A path no longer than `d` is a prefix of a child of `d` exactly when it is
/// a prefix of `d`.
proof fn lemma_prefix_of_child(d: Seq<Seq<u8>>, n: Seq<u8>, q: Seq<Seq<u8>>)
    requires
        q.len() <= d.len(),
    ensures
        is_prefix(q, d.push(n)) == is_prefix(q, d),
{
    assert(d.push(n).take(q.len() as int) =~= d.take(q.len() as int));
}

proof fn lemma_listing_start(es: Seq<EntryView>, pend: Seq<Seq<Seq<u8>>>, d: Seq<Seq<u8>>)
    requires
        walk_wf(es, pend.push(d)),
    ensures
        listing_wf(es, pend, pend.len() as int, d, seq![]),
{
    let open = pend.push(d);
    assert forall|k: int| 0 <= k < pend.len() implies unopened(#[trigger] pend[k], es) by {
        assert(open[k] == pend[k]);
    }
    assert forall|k: int, l: int|
        0 <= k < pend.len() && 0 <= l < pend.len() && k != l implies !related(
        #[trigger] pend[k],
        #[trigger] pend[l],
    ) by {
        assert(open[k] == pend[k] && open[l] == pend[l]);
    }
    assert forall|k: int| 0 <= k < pend.len() implies !related(d, #[trigger] pend[k]) by {
        assert(open[k] == pend[k] && open[pend.len() as int] == d);
    }
    assert(unopened(open[pend.len() as int], es));
}

proof fn lemma_listing_step(
    es: Seq<EntryView>,
    pend: Seq<Seq<Seq<u8>>>,
    pend0_len: int,
    d: Seq<Seq<u8>>,
    names: Seq<Seq<u8>>,
    c: DirChild,
)
    requires
        listing_wf(es, pend, pend0_len, d, names),
        !names.contains(c.name@),
    ensures
        listing_wf(
            es.push(child_entry(d, c)),
            if c.is_dir {
                pend.push(d.push(c.name@))
            } else {
                pend
            },
            pend0_len,
            d,
            names.push(c.name@),
        ),
{
    let n = c.name@;
    let x = d.push(n);
    let e = child_entry(d, c);
    let es2 = es.push(e);
    let pend2 = if c.is_dir {
        pend.push(x)
    } else {
        pend
    };
    let names2 = names.push(n);
    assert(x.take(d.len() as int) =~= d);
    assert(x.last() == n);
    assert(names2.contains(n)) by {
        assert(names2[names.len() as int] == n);
    }
    assert forall|m: Seq<u8>| names.contains(m) implies names2.contains(m) by {
        let j = choose|j: int| 0 <= j < names.len() && names[j] == m;
        assert(names2[j] == m);
    }
    // The new path is not yet taken.
    assert forall|i: int, j: int| 0 <= i < j < es2.len() implies #[trigger] es2[i].path
        != #[trigger] es2[j].path by {
        if j == es.len() {
            if es[i].path == x {
                assert(child_of(d, es[i].path, names));
            }
        } else {
            assert(es2[i] == es[i] && es2[j] == es[j]);
        }
    }
    // Directories still to be read have no entries inside them.
    assert forall|k: int| 0 <= k < pend2.len() implies unopened(#[trigger] pend2[k], es2) by {
        let q = pend2[k];
        assert forall|i: int| 0 <= i < es2.len() implies !(q.len() < es2[i].path.len()
            && is_prefix(q, #[trigger] es2[i].path)) by {
            if k < pend.len() {
                assert(q == pend[k]);
                if i == es.len() {
                    if q.len() < x.len() && is_prefix(q, x) {
                        lemma_prefix_of_child(d, n, q);
                        if k < pend0_len {
                            assert(!related(d, pend[k]));
                        } else {
                            assert(child_of(d, pend[k], names));
                        }
                    }
                } else {
                    assert(es2[i] == es[i]);
                    assert(unopened(pend[k], es));
                }
            } else {
                assert(q == x);
                if i < es.len() {
                    assert(es2[i] == es[i]);
                    if q.len() < es[i].path.len() && is_prefix(q, es[i].path) {
                        lemma_prefix_transitive(d, x, es[i].path);
                        assert(child_of(d, es[i].path, names));
                    }
                }
            }
        }
    }
    // No directory still to be read lies inside another.
    assert forall|k: int, l: int|
        0 <= k < pend2.len() && 0 <= l < pend2.len() && k != l implies !related(
        #[trigger] pend2[k],
        #[trigger] pend2[l],
    ) by {
        if k < pend.len() && l < pend.len() {
            assert(pend2[k] == pend[k] && pend2[l] == pend[l]);
        } else {
            let q = if k < pend.len() {
                pend[k]
            } else {
                pend[l]
            };
            assert(pend2[k] == q || pend2[l] == q);
            assert(pend2[k] == x || pend2[l] == x);
            let kq = if k < pend.len() {
                k
            } else {
                l
            };
            assert(q == pend[kq]);
            if kq < pend0_len {
                assert(!related(d, q));
                if is_prefix(q, x) {
                    if q.len() <= d.len() {
                        lemma_prefix_of_child(d, n, q);
                    } else {
                        lemma_prefix_same_len(q, x);
                        assert(q.take(d.len() as int) =~= d);
                    }
                }
                if is_prefix(x, q) {
                    lemma_prefix_transitive(d, x, q);
                }
            } else {
                assert(child_of(d, q, names));
                if related(q, x) {
                    if is_prefix(q, x) {
                        lemma_prefix_same_len(q, x);
                    } else {
                        lemma_prefix_same_len(x, q);
                    }
                }
            }
        }
    }
    assert forall|k: int| 0 <= k < pend0_len implies !related(d, #[trigger] pend2[k]) by {
        assert(pend2[k] == pend[k]);
    }
    assert forall|k: int| pend0_len <= k < pend2.len() implies child_of(d, #[trigger] pend2[k], names2) by {
        if k < pend.len() {
            assert(pend2[k] == pend[k]);
            assert(child_of(d, pend[k], names));
        }
    }
    assert forall|i: int|
        0 <= i < es2.len() && d.len() < es2[i].path.len() && is_prefix(
            d,
            #[trigger] es2[i].path,
        ) implies child_of(d, es2[i].path, names2) by {
        if i < es.len() {
            assert(es2[i] == es[i]);
            assert(child_of(d, es[i].path, names));
        }
    }
}

/// Two sequences with the same entries, one of them with unique paths: the
/// other has unique paths too.
pub proof fn lemma_unique_paths_permutation(a: Seq<EntryView>, b: Seq<EntryView>)
    requires
        a.to_multiset() == b.to_multiset(),
        unique_paths(a),
    ensures
        unique_paths(b),
{
    assert forall|i: int, j: int| 0 <= i < j < b.len() implies #[trigger] b[i].path
        != #[trigger] b[j].path by {
        if b[i].path == b[j].path {
            assert(b.to_multiset().count(b[i]) > 0);
            let ia = choose|k: int| 0 <= k < a.len() && a[k] == b[i];
            if b[i] == b[j] {
                vstd::seq_lib::to_multiset_remove(b, i);
                vstd::seq_lib::to_multiset_remove(a, ia);
                assert(b.remove(i)[j - 1] == b[j]);
                assert(b.remove(i).to_multiset().count(b[j]) > 0);
                assert(a.remove(ia).to_multiset().count(b[j]) > 0);
                let k = choose|k: int| 0 <= k < a.remove(ia).len() && a.remove(ia)[k] == b[j];
                if k < ia {
                    assert(a[k] == a[ia]);
                } else {
                    assert(a[k + 1] == a[ia]);
                }
            } else {
                assert(b.to_multiset().count(b[j]) > 0);
                let ja = choose|k: int| 0 <= k < a.len() && a[k] == b[j];
                assert(ia != ja);
                if ia < ja {
                    assert(a[ia].path != a[ja].path);
                } else {
                    assert(a[ja].path != a[ia].path);
                }
            }
        }
    }
}

/// Where the listing of directory `d` goes among the entries `es`: right
/// after the directory's own entry, or first when it has none (the root).
pub open spec fn insert_point(es: Seq<EntryView>, d: Seq<Seq<u8>>) -> int {
    match find_path(es, d) {
        Some(i) => i + 1,
        None => 0,
    }
}

/// `s` with `t` put in at index `k`.
pub open spec fn splice(s: Seq<EntryView>, k: int, t: Seq<EntryView>) -> Seq<EntryView> {
    s.take(k) + t + s.skip(k)
}

proof fn lemma_splice_permutation(s: Seq<EntryView>, k: int, t: Seq<EntryView>)
    requires
        0 <= k <= s.len(),
    ensures
        splice(s, k, t).to_multiset() == (s + t).to_multiset(),
{
    broadcast use vstd::multiset::group_multiset_axioms;

    let a = s.take(k);
    let b = s.skip(k);
    assert(s =~= a + b);
    vstd::seq_lib::lemma_multiset_commutative(a + t, b);
    vstd::seq_lib::lemma_multiset_commutative(a, t);
    vstd::seq_lib::lemma_multiset_commutative(a, b);
    vstd::seq_lib::lemma_multiset_commutative(s, t);
    assert(splice(s, k, t).to_multiset() =~= (s + t).to_multiset());
}

proof fn lemma_walk_wf_permutation(a: Seq<EntryView>, b: Seq<EntryView>, open: Seq<Seq<Seq<u8>>>)
    requires
        walk_wf(a, open),
        a.to_multiset() == b.to_multiset(),
    ensures
        walk_wf(b, open),
{
    lemma_unique_paths_permutation(a, b);
    assert forall|k: int| 0 <= k < open.len() implies unopened(#[trigger] open[k], b) by {
        assert forall|i: int| 0 <= i < b.len() implies !(open[k].len() < b[i].path.len()
            && is_prefix(open[k], #[trigger] b[i].path)) by {
            assert(b.to_multiset().count(b[i]) > 0);
            let j = choose|j: int| 0 <= j < a.len() && a[j] == b[i];
            assert(unopened(open[k], a));
            assert(a[j].path == b[i].path);
        }
    }
}

/// The recursive listing of a directory tree, built one directory at a time.
///
/// `entries` holds what has been listed so far, with paths relative to the
/// root; `pending` holds the directories, relative to the root, that are
/// still to be read, and `current` the one whose listing is awaited. The
/// root itself is the empty path.
pub struct FileList {
    root: String,
    entries: Vec<FileEntry>,
    pending: Vec<Vec<Vec<u8>>>,
    current: Option<Vec<Vec<u8>>>,
}

impl FileList {
    /// The root directory.
    pub closed spec fn root_view(&self) -> Seq<char> {
        self.root@
    }

    /// The entries listed so far.
    pub closed spec fn entries_view(&self) -> Seq<EntryView> {
        entries_view(self.entries@)
    }

    /// The directories still to be read, not counting the current one.
    pub closed spec fn pending_view(&self) -> Seq<Seq<Seq<u8>>> {
        paths_view(self.pending@)
    }

    /// The directory whose listing is awaited, if any.
    pub closed spec fn current_view(&self) -> Option<Seq<Seq<u8>>> {
        match self.current {
            Some(d) => Some(path_view(d@)),
            None => None,
        }
    }

    /// All directories still to be read.
    pub open spec fn open_dirs(&self) -> Seq<Seq<Seq<u8>>> {
        match self.current_view() {
            Some(d) => self.pending_view().push(d),
            None => self.pending_view(),
        }
    }

    /// The walk is consistent; in particular the entries have unique paths.
    pub open spec fn wf(&self) -> bool {
        walk_wf(self.entries_view(), self.open_dirs())
    }

    /// A listing of the tree under `root`, with nothing listed yet and the
    /// root as the one directory to read.
    pub fn new(root: &str) -> (r: FileList)
        ensures
            r.wf(),
            r.root_view() == root@,
            r.entries_view() == Seq::<EntryView>::empty(),
            r.pending_view() == seq![Seq::<Seq<u8>>::empty()],
            r.current_view() is None,
    {
        let mut pending: Vec<Vec<Vec<u8>>> = Vec::new();
        pending.push(Vec::new());
        let r = FileList { root: root.to_owned(), entries: Vec::new(), pending, current: None };
        assert(r.entries_view() =~= Seq::<EntryView>::empty());
        assert(path_view(r.pending@[0]@) =~= Seq::<Seq<u8>>::empty());
        assert(r.pending_view() =~= seq![Seq::<Seq<u8>>::empty()]);
        r
    }

    /// Forgets what was listed, so that the next walk starts again at the
    /// root.
    pub fn reset(&mut self)
        ensures
            final(self).wf(),
            final(self).root_view() == old(self).root_view(),
            final(self).entries_view() == Seq::<EntryView>::empty(),
            final(self).pending_view() == seq![Seq::<Seq<u8>>::empty()],
            final(self).current_view() is None,
    {
        self.entries.clear();
        self.pending.clear();
        self.pending.push(Vec::new());
        self.current = None;
        assert(self.entries_view() =~= Seq::<EntryView>::empty());
        assert(path_view(self.pending@[0]@) =~= Seq::<Seq<u8>>::empty());
        assert(self.pending_view() =~= seq![Seq::<Seq<u8>>::empty()]);
    }

    /// The root directory.
    pub fn root(&self) -> (r: &str)
        ensures
            r@ == self.root_view(),
    {
        self.root.as_str()
    }

    /// The next directory to read, relative to the root. While a listing is
    /// awaited it is that directory; else the directory added last is taken
    /// from those still to be read. `None` once the walk is complete. The
    /// order of reading does not change the order of the entries, since each
    /// listing is placed right after its directory.
    pub fn next_dir(&mut self) -> (r: Option<Vec<Vec<u8>>>)
        requires
            old(self).wf(),
        ensures
            final(self).wf(),
            final(self).root_view() == old(self).root_view(),
            final(self).entries_view() == old(self).entries_view(),
            old(self).current_view() is Some ==> {
                &&& r is Some
                &&& path_view(r->0@) == old(self).current_view()->0
                &&& final(self).pending_view() == old(self).pending_view()
                &&& final(self).current_view() == old(self).current_view()
            },
            old(self).current_view() is None && old(self).pending_view().len() == 0 ==> {
                &&& r is None
                &&& final(self).pending_view() == old(self).pending_view()
                &&& final(self).current_view() is None
            },
            old(self).current_view() is None && old(self).pending_view().len() > 0 ==> {
                &&& r is Some
                &&& path_view(r->0@) == old(self).pending_view().last()
                &&& final(self).pending_view() == old(self).pending_view().drop_last()
                &&& final(self).current_view() == Some(old(self).pending_view().last())
            },
    {
        if let Some(d) = &self.current {
            return Some(copy_path(d));
        }
        let ghost before = self.pending@;
        match self.pending.pop() {
            Some(d) => {
                proof {
                    assert(paths_view(before) =~= paths_view(self.pending@).push(path_view(d@)));
                    assert(paths_view(self.pending@) =~= paths_view(before).drop_last());
                }
                let r = copy_path(&d);
                self.current = Some(d);
                Some(r)
            },
            None => None,
        }
    }

    /// Records the listing of the directory whose listing is awaited: each
    /// child becomes an entry whose path is that directory followed by the
    /// child's name, and each child that is a directory is added to the
    /// directories still to be read. The new entries keep the listing's order
    /// and stand right after the directory's own entry (first, for the root),
    /// so that each directory is followed by everything below it before its
    /// later siblings. Without an awaited directory nothing changes.
    pub fn add_listing(&mut self, children: &Vec<DirChild>)
        requires
            old(self).wf(),
            distinct_names(children@),
        ensures
            final(self).wf(),
            final(self).root_view() == old(self).root_view(),
            final(self).current_view() is None,
            old(self).current_view() is Some ==> final(self).entries_view() == splice(
                old(self).entries_view(),
                insert_point(old(self).entries_view(), old(self).current_view()->0),
                listing_entries(old(self).current_view()->0, children@),
            ),
            old(self).current_view() is Some ==> final(self).pending_view()
                == old(self).pending_view() + listing_dirs(
                old(self).current_view()->0,
                children@,
            ),
            old(self).current_view() is None ==> final(self).entries_view()
                == old(self).entries_view(),
            old(self).current_view() is None ==> final(self).pending_view()
                == old(self).pending_view(),
    {
        let dir = match self.current.take() {
            Some(d) => d,
            None => {
                return;
            },
        };
        let ghost d = path_view(dir@);
        let ghost e0 = self.entries_view();
        let ghost pend0 = self.pending_view();
        proof {
            lemma_listing_start(e0, pend0, d);
            assert(e0 + entries_view(Seq::<FileEntry>::empty()) =~= e0);
        }
        let mut added: Vec<FileEntry> = Vec::new();
        let mut i: usize = 0;
        while i < children.len()
            invariant
                i <= children.len(),
                d == path_view(dir@),
                distinct_names(children@),
                self.current_view() is None,
                self.root_view() == old(self).root_view(),
                self.entries_view() == e0,
                entries_view(added@) == listing_entries(d, children@.take(i as int)),
                self.pending_view() == pend0 + listing_dirs(d, children@.take(i as int)),
                listing_wf(
                    e0 + entries_view(added@),
                    self.pending_view(),
                    pend0.len() as int,
                    d,
                    children@.take(i as int).map_values(|c: DirChild| c.name@),
                ),
            decreases children.len() - i,
        {
            let c = &children[i];
            let ghost names = children@.take(i as int).map_values(|c: DirChild| c.name@);
            proof {
                assert(!names.contains(c.name@)) by {
                    if names.contains(c.name@) {
                        let j = choose|j: int| 0 <= j < names.len() && names[j] == c.name@;
                        assert(children@[j].name@ == children@[i as int].name@);
                    }
                }
                lemma_listing_step(e0 + entries_view(added@), self.pending_view(), pend0.len() as int, d, names, *c);
                assert(children@.take(i + 1).map_values(|c: DirChild| c.name@) =~= names.push(c.name@));
            }
            let mut path = copy_path(&dir);
            let ghost pb = path@;
            path.push(copy_bytes(&c.name));
            assert(path_view(path@) =~= d.push(c.name@)) by {
                assert(path@ == pb.push(path@.last()));
            }
            let ghost ab = added@;
            let ghost qb = self.pending@;
            if c.is_dir {
                let sub = copy_path(&path);
                self.pending.push(sub);
                assert(paths_view(self.pending@) =~= paths_view(qb).push(d.push(c.name@)));
            }
            added.push(FileEntry { path, last_mod: c.last_mod, is_dir: c.is_dir });
            proof {
                assert(entries_view(added@) =~= entries_view(ab).push(child_entry(d, *c)));
                assert(e0 + entries_view(added@) =~= (e0 + entries_view(ab)).push(child_entry(d, *c)));
                assert(children@.take(i + 1).drop_last() =~= children@.take(i as int));
                assert(listing_entries(d, children@.take(i + 1)) =~= listing_entries(
                    d,
                    children@.take(i as int),
                ).push(child_entry(d, *c)));
            }
            i += 1;
        }
        assert(children@.take(i as int) =~= children@);
        let ghost lst = listing_entries(d, children@);
        assert(walk_wf(e0 + lst, self.pending_view()));
        proof {
            lemma_find_path(e0, d);
        }
        assert(e0.len() == self.entries@.len());
        let k: usize = match find_entry(&self.entries, &dir) {
            Some(j) => {
                assert(j < self.entries.len());
                j + 1
            },
            None => 0,
        };
        assert(k as int == insert_point(e0, d));
        assert(e0.take(k as int) + lst.skip(added.len() as int) + e0.skip(k as int) =~= e0);
        while added.len() > 0
            invariant
                k <= self.entries.len(),
                0 <= k <= e0.len(),
                added.len() <= lst.len(),
                entries_view(added@) == lst.take(added.len() as int),
                self.entries_view() == e0.take(k as int) + lst.skip(added.len() as int) + e0.skip(
                    k as int,
                ),
                self.entries@.len() == e0.len() + lst.len() - added.len(),
                self.current_view() is None,
                self.root_view() == old(self).root_view(),
                walk_wf(e0 + lst, self.pending_view()),
                self.pending_view() == pend0 + listing_dirs(d, children@),
            decreases added.len(),
        {
            let ghost ab = added@;
            let ghost eb = self.entries@;
            let x = added.pop().unwrap();
            let m = added.len();
            proof {
                assert(entries_view(ab) =~= entries_view(added@).push(x@));
                assert(entries_view(ab)[m as int] == x@);
                assert(entries_view(ab) == lst.take(m + 1));
                assert(x@ == lst[m as int]);
                assert(entries_view(added@) =~= lst.take(m as int));
            }
            self.entries.insert(k, x);
            proof {
                assert(entries_view(self.entries@) =~= entries_view(eb).insert(k as int, x@));
                assert(lst.skip(m as int) =~= seq![x@] + lst.skip(m + 1));
                assert(entries_view(self.entries@) =~= e0.take(k as int) + lst.skip(m as int)
                    + e0.skip(k as int));
            }
        }
        proof {
            assert(lst.skip(0) =~= lst);
            lemma_splice_permutation(e0, k as int, lst);
            lemma_walk_wf_permutation(e0 + lst, self.entries_view(), self.pending_view());
        }
    }

    /// The snapshot listed so far: the entries in walk order, where each
    /// directory is followed by everything below it and siblings keep their
    /// listing order, or in path order when `sort` is set. Its paths are
    /// unique.
    pub fn snapshot(&self, sort: bool) -> (r: Vec<FileEntry>)
        requires
            self.wf(),
        ensures
            unique_paths(entries_view(r@)),
            !sort ==> entries_view(r@) == self.entries_view(),
            sort ==> entries_view(r@).to_multiset() == self.entries_view().to_multiset(),
            sort ==> entries_sorted(entries_view(r@)),
    {
        let v = copy_entries(&self.entries);
        if sort {
            let r = sort_entries(v);
            proof {
                lemma_unique_paths_permutation(self.entries_view(), entries_view(r@));
            }
            r
        } else {
            v
        }
    }
}

} // verus!
