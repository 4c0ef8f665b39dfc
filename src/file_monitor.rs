use vstd::prelude::*;
use crate::file_list::lemma_unique_paths_permutation;
use crate::entry::{
    lemma_insert_sorted, paths_sorted,
    EntryView, FileEntry, copy_entries, entries_view, lemma_path_lt_irreflexive,
    lemma_path_lt_total, path_less, path_lt, path_view, unique_paths,
};

verus! {

broadcast use vstd::seq_lib::group_to_multiset_ensures;

/// The kind of a change between two snapshots.
#[derive(PartialEq, Eq, Structural, Clone, Copy, Debug)]
pub enum FileEvent {
    New,
    Mod,
    Del,
}

/// The view of one change event.
pub struct EventView {
    pub event: FileEvent,
    pub entry: EntryView,
}

/// One change event: its kind and the entry it concerns.
#[derive(Debug)]
pub struct EventEntry {
    pub event: FileEvent,
    pub entry: FileEntry,
}

impl View for EventEntry {
    type V = EventView;

    open spec fn view(&self) -> EventView {
        EventView { event: self.event, entry: self.entry@ }
    }
}

/// The views of a sequence of events.
pub open spec fn events_view(s: Seq<EventEntry>) -> Seq<EventView> {
    s.map_values(|e: EventEntry| e@)
}

/// The index of the first entry of `s` whose path is `path`, if any.
pub open spec fn find_path(s: Seq<EntryView>, path: Seq<Seq<u8>>) -> Option<int>
    decreases s.len(),
{
    if s.len() == 0 {
        None
    } else {
        match find_path(s.drop_last(), path) {
            Some(i) => Some(i),
            None => if s.last().path == path {
                Some(s.len() - 1)
            } else {
                None
            },
        }
    }
}

/// The event that an entry of the previous snapshot gives: `Del` when its
/// path is gone, `Mod` when the entry with its path has another modification
/// time, none for a directory or an unchanged file.
pub open spec fn change_of(p: EntryView, cur: Seq<EntryView>) -> Option<EventView> {
    if p.is_dir {
        None
    } else {
        match find_path(cur, p.path) {
            None => Some(EventView { event: FileEvent::Del, entry: p }),
            Some(i) => if cur[i].last_mod != p.last_mod {
                Some(EventView { event: FileEvent::Mod, entry: p })
            } else {
                None
            },
        }
    }
}

/// The `Del` and `Mod` events, in the order of the previous snapshot.
pub open spec fn removed_or_modified(prev: Seq<EntryView>, cur: Seq<EntryView>) -> Seq<EventView>
    decreases prev.len(),
{
    if prev.len() == 0 {
        seq![]
    } else {
        let rest = removed_or_modified(prev.drop_last(), cur);
        match change_of(prev.last(), cur) {
            Some(e) => rest.push(e),
            None => rest,
        }
    }
}

/// The `New` events: files of the current snapshot whose path the previous
/// one lacks, in the order of the current snapshot.
pub open spec fn added(prev: Seq<EntryView>, cur: Seq<EntryView>) -> Seq<EventView>
    decreases cur.len(),
{
    if cur.len() == 0 {
        seq![]
    } else {
        let rest = added(prev, cur.drop_last());
        let c = cur.last();
        if !c.is_dir && find_path(prev, c.path) is None {
            rest.push(EventView { event: FileEvent::New, entry: c })
        } else {
            rest
        }
    }
}

/// All events between two snapshots, before they are put in path order.
pub open spec fn change_events(prev: Seq<EntryView>, cur: Seq<EntryView>) -> Seq<EventView> {
    removed_or_modified(prev, cur) + added(prev, cur)
}

/// The events come in path order.
pub open spec fn sorted_by_path(s: Seq<EventView>) -> bool {
    forall|i: int, j: int|
        0 <= i < j < s.len() ==> !path_lt(#[trigger] s[j].entry.path, #[trigger] s[i].entry.path)
}

/// What `find_path` returns: the first index with the path, or none.
pub proof fn lemma_find_path(s: Seq<EntryView>, path: Seq<Seq<u8>>)
    ensures
        match find_path(s, path) {
            Some(i) => 0 <= i < s.len() && s[i].path == path && forall|j: int|
                0 <= j < i ==> s[j].path != path,
            None => forall|j: int| 0 <= j < s.len() ==> s[j].path != path,
        },
    decreases s.len(),
{
    if s.len() > 0 {
        lemma_find_path(s.drop_last(), path);
        assert forall|j: int| 0 <= j < s.len() - 1 implies s[j] == s.drop_last()[j] by {}
    }
}

/// A path found in a prefix is found at the same index in the whole.
proof fn lemma_find_path_prefix(s: Seq<EntryView>, k: int, path: Seq<Seq<u8>>)
    requires
        0 <= k <= s.len(),
        find_path(s.take(k), path) is Some,
    ensures
        find_path(s, path) == find_path(s.take(k), path),
    decreases s.len(),
{
    if k == s.len() {
        assert(s.take(k) =~= s);
    } else {
        assert(s.drop_last().take(k) =~= s.take(k));
        lemma_find_path_prefix(s.drop_last(), k, path);
    }
}

impl FileEvent {
    /// The tag under which the event is printed.
    pub fn tag(&self) -> (r: &'static str)
        ensures
            *self == FileEvent::New ==> r@ == "NEW"@,
            *self == FileEvent::Mod ==> r@ == "MOD"@,
            *self == FileEvent::Del ==> r@ == "DEL"@,
    {
        match self {
            FileEvent::New => "NEW",
            FileEvent::Del => "DEL",
            FileEvent::Mod => "MOD",
        }
    }
}

/// True when the two paths are equal.
pub fn same_path(a: &Vec<Vec<u8>>, b: &Vec<Vec<u8>>) -> (r: bool)
    ensures
        r == (path_view(a@) == path_view(b@)),
{
    let ab = path_less(a, b);
    let ba = path_less(b, a);
    proof {
        lemma_path_lt_total(path_view(a@), path_view(b@));
        lemma_path_lt_irreflexive(path_view(a@));
    }
    !ab && !ba
}

/// The index of the first entry of `s` whose path is `path`, if any.
pub fn find_entry(s: &Vec<FileEntry>, path: &Vec<Vec<u8>>) -> (r: Option<usize>)
    ensures
        match r {
            Some(i) => find_path(entries_view(s@), path_view(path@)) == Some(i as int),
            None => find_path(entries_view(s@), path_view(path@)) is None,
        },
{
    let ghost sv = entries_view(s@);
    let ghost p = path_view(path@);
    let mut j: usize = 0;
    while j < s.len()
        invariant
            j <= s.len(),
            sv == entries_view(s@),
            p == path_view(path@),
            find_path(sv.take(j as int), p) is None,
        decreases s.len() - j,
    {
        assert(sv.take(j + 1).drop_last() =~= sv.take(j as int));
        if same_path(&s[j].path, path) {
            proof {
                lemma_find_path_prefix(sv, j + 1, p);
            }
            return Some(j);
        }
        j += 1;
    }
    assert(sv.take(j as int) =~= sv);
    None
}


/// What the classification of the `Del` and `Mod` events holds.
pub proof fn lemma_removed_or_modified_contains(prev: Seq<EntryView>, cur: Seq<EntryView>, e: EventView)
    ensures
        removed_or_modified(prev, cur).contains(e) <==> exists|i: int|
            0 <= i < prev.len() && change_of(#[trigger] prev[i], cur) == Some(e),
    decreases prev.len(),
{
    if prev.len() > 0 {
        let d = prev.drop_last();
        lemma_removed_or_modified_contains(d, cur, e);
        let rest = removed_or_modified(d, cur);
        if let Some(x) = change_of(prev.last(), cur) {
            if rest.push(x).contains(e) {
                let k = choose|k: int| 0 <= k < rest.push(x).len() && rest.push(x)[k] == e;
                if k < rest.len() {
                    assert(rest.contains(e));
                }
            }
            if rest.contains(e) {
                let k = choose|k: int| 0 <= k < rest.len() && rest[k] == e;
                assert(rest.push(x)[k] == e);
            }
            if x == e {
                assert(rest.push(x)[rest.len() as int] == e);
            }
        }
        if exists|i: int| 0 <= i < prev.len() && change_of(#[trigger] prev[i], cur) == Some(e) {
            let i = choose|i: int| 0 <= i < prev.len() && change_of(#[trigger] prev[i], cur) == Some(e);
            if i < d.len() {
                assert(d[i] == prev[i]);
            }
        }
        if exists|i: int| 0 <= i < d.len() && change_of(#[trigger] d[i], cur) == Some(e) {
            let i = choose|i: int| 0 <= i < d.len() && change_of(#[trigger] d[i], cur) == Some(e);
            assert(d[i] == prev[i]);
        }
    }
}

/// What the classification of the `New` events holds.
pub proof fn lemma_added_contains(prev: Seq<EntryView>, cur: Seq<EntryView>, e: EventView)
    ensures
        added(prev, cur).contains(e) <==> (e.event == FileEvent::New && cur.contains(e.entry)
            && !e.entry.is_dir && find_path(prev, e.entry.path) is None),
    decreases cur.len(),
{
    if cur.len() > 0 {
        let d = cur.drop_last();
        lemma_added_contains(prev, d, e);
        let rest = added(prev, d);
        let c = cur.last();
        let x = EventView { event: FileEvent::New, entry: c };
        if !c.is_dir && find_path(prev, c.path) is None {
            if rest.push(x).contains(e) {
                let k = choose|k: int| 0 <= k < rest.push(x).len() && rest.push(x)[k] == e;
                if k < rest.len() {
                    assert(rest.contains(e));
                }
            }
            if rest.contains(e) {
                let k = choose|k: int| 0 <= k < rest.len() && rest[k] == e;
                assert(rest.push(x)[k] == e);
            }
            if x == e {
                assert(rest.push(x)[rest.len() as int] == e);
            }
        }
        if cur.contains(e.entry) {
            let i = choose|i: int| 0 <= i < cur.len() && cur[i] == e.entry;
            if i < d.len() {
                assert(d[i] == cur[i]);
            }
        }
        if d.contains(e.entry) {
            let i = choose|i: int| 0 <= i < d.len() && d[i] == e.entry;
            assert(d[i] == cur[i]);
        }
    }
}

/// The classification of changes is exact: an event stands among the changes
/// between `prev` and `cur` exactly when it is `Del` of a file of `prev` whose
/// path `cur` lacks, `Mod` of a file of `prev` whose path `cur` holds with
/// another modification time, or `New` of a file of `cur` whose path `prev`
/// lacks.
pub proof fn lemma_classification(prev: Seq<EntryView>, cur: Seq<EntryView>, e: EventView)
    ensures
        change_events(prev, cur).contains(e) <==> {
            ||| (e.event == FileEvent::Del && prev.contains(e.entry) && !e.entry.is_dir
                && find_path(cur, e.entry.path) is None)
            ||| (e.event == FileEvent::Mod && prev.contains(e.entry) && !e.entry.is_dir
                && match find_path(cur, e.entry.path) {
                Some(i) => cur[i].last_mod != e.entry.last_mod,
                None => false,
            })
            ||| (e.event == FileEvent::New && cur.contains(e.entry) && !e.entry.is_dir
                && find_path(prev, e.entry.path) is None)
        },
{
    let a = removed_or_modified(prev, cur);
    let b = added(prev, cur);
    lemma_removed_or_modified_contains(prev, cur, e);
    lemma_added_contains(prev, cur, e);
    if (a + b).contains(e) {
        let k = choose|k: int| 0 <= k < (a + b).len() && (a + b)[k] == e;
        if k < a.len() {
            assert(a[k] == e);
        } else {
            assert(b[k - a.len()] == e);
        }
    }
    if a.contains(e) {
        let k = choose|k: int| 0 <= k < a.len() && a[k] == e;
        assert((a + b)[k] == e);
    }
    if b.contains(e) {
        let k = choose|k: int| 0 <= k < b.len() && b[k] == e;
        assert((a + b)[k + a.len()] == e);
    }
    if exists|i: int| 0 <= i < prev.len() && change_of(#[trigger] prev[i], cur) == Some(e) {
        let i = choose|i: int| 0 <= i < prev.len() && change_of(#[trigger] prev[i], cur) == Some(e);
        assert(prev[i] == e.entry);
    }
    if prev.contains(e.entry) && !e.entry.is_dir && e.event != FileEvent::New {
        let i = choose|i: int| 0 <= i < prev.len() && prev[i] == e.entry;
        assert(prev[i] == e.entry);
    }
}

/// Directories never give change events.
pub proof fn lemma_no_directory_events(prev: Seq<EntryView>, cur: Seq<EntryView>)
    ensures
        forall|i: int|
            0 <= i < change_events(prev, cur).len() ==> !(#[trigger] change_events(
                prev,
                cur,
            )[i]).entry.is_dir,
{
    assert forall|i: int| 0 <= i < change_events(prev, cur).len() implies !(
    #[trigger] change_events(prev, cur)[i]).entry.is_dir by {
        lemma_classification(prev, cur, change_events(prev, cur)[i]);
    }
}

/// A snapshot compared with itself gives no change event, when its paths are
/// unique.
pub proof fn lemma_diff_unchanged(s: Seq<EntryView>)
    requires
        unique_paths(s),
    ensures
        change_events(s, s) == Seq::<EventView>::empty(),
{
    assert forall|i: int| 0 <= i < s.len() implies find_path(s, #[trigger] s[i].path) == Some(i) by {
        lemma_find_path(s, s[i].path);
    }
    if change_events(s, s).len() > 0 {
        let e = change_events(s, s)[0];
        lemma_classification(s, s, e);
        assert(change_events(s, s).contains(e));
        if e.event == FileEvent::New {
            let k = choose|k: int| 0 <= k < s.len() && s[k] == e.entry;
            assert(find_path(s, s[k].path) == Some(k));
        } else {
            let k = choose|k: int| 0 <= k < s.len() && s[k] == e.entry;
            assert(find_path(s, s[k].path) == Some(k));
        }
    }
    assert(change_events(s, s) =~= Seq::<EventView>::empty());
}

proof fn lemma_removed_or_modified_concat(a: Seq<EntryView>, b: Seq<EntryView>, cur: Seq<EntryView>)
    ensures
        removed_or_modified(a + b, cur) == removed_or_modified(a, cur) + removed_or_modified(b, cur),
    decreases b.len(),
{
    if b.len() == 0 {
        assert(a + b =~= a);
        assert(removed_or_modified(a, cur) + removed_or_modified(b, cur) =~= removed_or_modified(a, cur));
    } else {
        assert((a + b).drop_last() =~= a + b.drop_last());
        assert((a + b).last() == b.last());
        lemma_removed_or_modified_concat(a, b.drop_last(), cur);
        if let Some(e) = change_of(b.last(), cur) {
            assert(removed_or_modified(a + b, cur) =~= removed_or_modified(a, cur)
                + removed_or_modified(b, cur));
        }
    }
}

proof fn lemma_added_concat(prev: Seq<EntryView>, a: Seq<EntryView>, b: Seq<EntryView>)
    ensures
        added(prev, a + b) == added(prev, a) + added(prev, b),
    decreases b.len(),
{
    if b.len() == 0 {
        assert(a + b =~= a);
        assert(added(prev, a) + added(prev, b) =~= added(prev, a));
    } else {
        assert((a + b).drop_last() =~= a + b.drop_last());
        assert((a + b).last() == b.last());
        lemma_added_concat(prev, a, b.drop_last());
        assert(added(prev, a + b) =~= added(prev, a) + added(prev, b));
    }
}

/// Splits `s` around its element at `k`: the part before, and the part after.
proof fn lemma_split_at(s: Seq<EntryView>, k: int)
    requires
        0 <= k < s.len(),
    ensures
        s == s.take(k) + seq![s[k]] + s.skip(k + 1),
        s.remove(k) == s.take(k) + s.skip(k + 1),
{
    assert(s =~= s.take(k) + seq![s[k]] + s.skip(k + 1));
    assert(s.remove(k) =~= s.take(k) + s.skip(k + 1));
}

proof fn lemma_removed_or_modified_permutation(prev_a: Seq<EntryView>, prev_b: Seq<EntryView>, cur: Seq<EntryView>)
    requires
        prev_a.to_multiset() == prev_b.to_multiset(),
    ensures
        removed_or_modified(prev_a, cur).to_multiset() == removed_or_modified(prev_b, cur).to_multiset(),
    decreases prev_a.len(),
{
    broadcast use vstd::multiset::group_multiset_axioms;

    vstd::seq_lib::to_multiset_len(prev_a);
    vstd::seq_lib::to_multiset_len(prev_b);
    if prev_a.len() == 0 {
        assert(prev_b.len() == 0);
        assert(prev_a =~= prev_b);
    } else {
        let x = prev_a.last();
        let d = prev_a.drop_last();
        assert(prev_a =~= d + seq![x]);
        assert(prev_a.to_multiset() == d.to_multiset().insert(x)) by {
            assert(prev_a =~= d.push(x));
        }
        assert(prev_b.to_multiset().count(x) > 0);
        let k = choose|k: int| 0 <= k < prev_b.len() && prev_b[k] == x;
        vstd::seq_lib::to_multiset_remove(prev_b, k);
        assert(d.to_multiset() =~= prev_b.remove(k).to_multiset());
        lemma_removed_or_modified_permutation(d, prev_b.remove(k), cur);
        lemma_split_at(prev_b, k);
        let a = prev_b.take(k);
        let b = prev_b.skip(k + 1);
        let one = seq![x];
        lemma_removed_or_modified_concat(a + one, b, cur);
        lemma_removed_or_modified_concat(a, one, cur);
        lemma_removed_or_modified_concat(a, b, cur);
        lemma_removed_or_modified_concat(d, one, cur);
        let ra = removed_or_modified(a, cur);
        let rb = removed_or_modified(b, cur);
        let rx = removed_or_modified(one, cur);
        let rd = removed_or_modified(d, cur);
        vstd::seq_lib::lemma_multiset_commutative(ra + rx, rb);
        vstd::seq_lib::lemma_multiset_commutative(ra, rx);
        vstd::seq_lib::lemma_multiset_commutative(ra, rb);
        vstd::seq_lib::lemma_multiset_commutative(rd, rx);
        assert(removed_or_modified(prev_b, cur).to_multiset() =~= removed_or_modified(prev_a, cur).to_multiset());
    }
}

proof fn lemma_added_permutation(prev: Seq<EntryView>, cur_a: Seq<EntryView>, cur_b: Seq<EntryView>)
    requires
        cur_a.to_multiset() == cur_b.to_multiset(),
    ensures
        added(prev, cur_a).to_multiset() == added(prev, cur_b).to_multiset(),
    decreases cur_a.len(),
{
    broadcast use vstd::multiset::group_multiset_axioms;

    vstd::seq_lib::to_multiset_len(cur_a);
    vstd::seq_lib::to_multiset_len(cur_b);
    if cur_a.len() == 0 {
        assert(cur_b.len() == 0);
        assert(cur_a =~= cur_b);
    } else {
        let x = cur_a.last();
        let d = cur_a.drop_last();
        assert(cur_a =~= d + seq![x]);
        assert(cur_a.to_multiset() == d.to_multiset().insert(x)) by {
            assert(cur_a =~= d.push(x));
        }
        assert(cur_b.to_multiset().count(x) > 0);
        let k = choose|k: int| 0 <= k < cur_b.len() && cur_b[k] == x;
        vstd::seq_lib::to_multiset_remove(cur_b, k);
        assert(d.to_multiset() =~= cur_b.remove(k).to_multiset());
        lemma_added_permutation(prev, d, cur_b.remove(k));
        lemma_split_at(cur_b, k);
        let a = cur_b.take(k);
        let b = cur_b.skip(k + 1);
        let one = seq![x];
        lemma_added_concat(prev, a + one, b);
        lemma_added_concat(prev, a, one);
        lemma_added_concat(prev, a, b);
        lemma_added_concat(prev, d, one);
        let ra = added(prev, a);
        let rb = added(prev, b);
        let rx = added(prev, one);
        let rd = added(prev, d);
        vstd::seq_lib::lemma_multiset_commutative(ra + rx, rb);
        vstd::seq_lib::lemma_multiset_commutative(ra, rx);
        vstd::seq_lib::lemma_multiset_commutative(ra, rb);
        vstd::seq_lib::lemma_multiset_commutative(rd, rx);
        assert(added(prev, cur_b).to_multiset() =~= added(prev, cur_a).to_multiset());
    }
}

/// In two snapshots with the same entries and unique paths, a path is found
/// in both or in neither, and at the same entry.
proof fn lemma_find_path_permutation(s1: Seq<EntryView>, s2: Seq<EntryView>, path: Seq<Seq<u8>>)
    requires
        s1.to_multiset() == s2.to_multiset(),
        unique_paths(s1),
    ensures
        find_path(s1, path) is None <==> find_path(s2, path) is None,
        find_path(s1, path) is Some ==> s1[find_path(s1, path)->0] == s2[find_path(s2, path)->0],
{
    lemma_unique_paths_permutation(s1, s2);
    lemma_find_path(s1, path);
    lemma_find_path(s2, path);
    if let Some(i) = find_path(s1, path) {
        assert(s1.to_multiset().count(s1[i]) > 0);
        let j = choose|j: int| 0 <= j < s2.len() && s2[j] == s1[i];
        let f = find_path(s2, path)->0;
        if f != j {
            if f < j {
                assert(s2[f].path != s2[j].path);
            } else {
                assert(s2[j].path != s2[f].path);
            }
        }
    }
    if let Some(j) = find_path(s2, path) {
        assert(s2.to_multiset().count(s2[j]) > 0);
        assert(s1.contains(s2[j]));
    }
}

proof fn lemma_removed_or_modified_cur(prev: Seq<EntryView>, cur_a: Seq<EntryView>, cur_b: Seq<EntryView>)
    requires
        cur_a.to_multiset() == cur_b.to_multiset(),
        unique_paths(cur_a),
    ensures
        removed_or_modified(prev, cur_a) == removed_or_modified(prev, cur_b),
    decreases prev.len(),
{
    if prev.len() > 0 {
        lemma_removed_or_modified_cur(prev.drop_last(), cur_a, cur_b);
        lemma_find_path_permutation(cur_a, cur_b, prev.last().path);
    }
}

proof fn lemma_added_prev(prev_a: Seq<EntryView>, prev_b: Seq<EntryView>, cur: Seq<EntryView>)
    requires
        prev_a.to_multiset() == prev_b.to_multiset(),
        unique_paths(prev_a),
    ensures
        added(prev_a, cur) == added(prev_b, cur),
    decreases cur.len(),
{
    if cur.len() > 0 {
        lemma_added_prev(prev_a, prev_b, cur.drop_last());
        lemma_find_path_permutation(prev_a, prev_b, cur.last().path);
    }
}

/// The change events do not depend on the order of the entries within the
/// two snapshots: snapshots with the same entries and unique paths give the
/// same events.
pub proof fn lemma_diff_input_order(
    prev_a: Seq<EntryView>,
    prev_b: Seq<EntryView>,
    cur_a: Seq<EntryView>,
    cur_b: Seq<EntryView>,
)
    requires
        prev_a.to_multiset() == prev_b.to_multiset(),
        cur_a.to_multiset() == cur_b.to_multiset(),
        unique_paths(prev_a),
        unique_paths(cur_a),
    ensures
        change_events(prev_a, cur_a).to_multiset() == change_events(prev_b, cur_b).to_multiset(),
{
    lemma_removed_or_modified_permutation(prev_a, prev_b, cur_a);
    lemma_removed_or_modified_cur(prev_b, cur_a, cur_b);
    lemma_added_prev(prev_a, prev_b, cur_a);
    lemma_added_permutation(prev_b, cur_a, cur_b);
    vstd::seq_lib::lemma_multiset_commutative(removed_or_modified(prev_a, cur_a), added(prev_a, cur_a));
    vstd::seq_lib::lemma_multiset_commutative(removed_or_modified(prev_b, cur_b), added(prev_b, cur_b));
}

/// No two events concern the same path.
pub open spec fn event_paths_unique(s: Seq<EventView>) -> bool {
    forall|i: int, j: int|
        0 <= i < j < s.len() ==> #[trigger] s[i].entry.path != #[trigger] s[j].entry.path
}

proof fn lemma_removed_or_modified_paths(prev: Seq<EntryView>, cur: Seq<EntryView>)
    requires
        unique_paths(prev),
    ensures
        event_paths_unique(removed_or_modified(prev, cur)),
        forall|i: int|
            0 <= i < removed_or_modified(prev, cur).len() ==> find_path(
                prev,
                (#[trigger] removed_or_modified(prev, cur)[i]).entry.path,
            ) is Some,
    decreases prev.len(),
{
    if prev.len() > 0 {
        let d = prev.drop_last();
        assert(unique_paths(d)) by {
            assert forall|i: int, j: int| 0 <= i < j < d.len() implies #[trigger] d[i].path
                != #[trigger] d[j].path by {
                assert(d[i] == prev[i] && d[j] == prev[j]);
            }
        }
        lemma_removed_or_modified_paths(d, cur);
        let rest = removed_or_modified(d, cur);
        let r = removed_or_modified(prev, cur);
        let x = prev.last();
        assert forall|i: int| 0 <= i < rest.len() implies find_path(prev, #[trigger] rest[i].entry.path)
            is Some && rest[i].entry.path != x.path by {
            lemma_find_path(d, rest[i].entry.path);
            let k = find_path(d, rest[i].entry.path)->0;
            assert(prev[k] == d[k]);
            assert(prev[k].path != prev[prev.len() - 1].path);
            lemma_find_path(prev, rest[i].entry.path);
        }
        lemma_find_path(prev, x.path);
        assert(prev[prev.len() - 1] == x);
        if let Some(e) = change_of(x, cur) {
            assert(r == rest.push(e));
            assert forall|i: int| 0 <= i < r.len() implies find_path(prev, (#[trigger] r[i]).entry.path)
                is Some by {
                if i < rest.len() {
                    assert(r[i] == rest[i]);
                }
            }
            assert forall|i: int, j: int| 0 <= i < j < r.len() implies #[trigger] r[i].entry.path
                != #[trigger] r[j].entry.path by {
                assert(r[i] == rest[i]);
                if j < rest.len() {
                    assert(r[j] == rest[j]);
                }
            }
        }
    }
}

proof fn lemma_added_paths(prev: Seq<EntryView>, cur: Seq<EntryView>)
    requires
        unique_paths(cur),
    ensures
        event_paths_unique(added(prev, cur)),
        forall|i: int|
            0 <= i < added(prev, cur).len() ==> find_path(
                prev,
                (#[trigger] added(prev, cur)[i]).entry.path,
            ) is None && find_path(cur, added(prev, cur)[i].entry.path) is Some,
    decreases cur.len(),
{
    if cur.len() > 0 {
        let d = cur.drop_last();
        assert(unique_paths(d)) by {
            assert forall|i: int, j: int| 0 <= i < j < d.len() implies #[trigger] d[i].path
                != #[trigger] d[j].path by {
                assert(d[i] == cur[i] && d[j] == cur[j]);
            }
        }
        lemma_added_paths(prev, d);
        let rest = added(prev, d);
        let r = added(prev, cur);
        let x = cur.last();
        assert forall|i: int| 0 <= i < rest.len() implies find_path(cur, #[trigger] rest[i].entry.path)
            is Some && rest[i].entry.path != x.path by {
            lemma_find_path(d, rest[i].entry.path);
            let k = find_path(d, rest[i].entry.path)->0;
            assert(cur[k] == d[k]);
            assert(cur[k].path != cur[cur.len() - 1].path);
            lemma_find_path(cur, rest[i].entry.path);
        }
        lemma_find_path(cur, x.path);
        assert(cur[cur.len() - 1] == x);
        if !x.is_dir && find_path(prev, x.path) is None {
            let e = EventView { event: FileEvent::New, entry: x };
            assert(r == rest.push(e));
            assert forall|i: int| 0 <= i < r.len() implies find_path(prev, (#[trigger] r[i]).entry.path)
                is None && find_path(cur, r[i].entry.path) is Some by {
                if i < rest.len() {
                    assert(r[i] == rest[i]);
                }
            }
            assert forall|i: int, j: int| 0 <= i < j < r.len() implies #[trigger] r[i].entry.path
                != #[trigger] r[j].entry.path by {
                assert(r[i] == rest[i]);
                if j < rest.len() {
                    assert(r[j] == rest[j]);
                }
            }
        }
    }
}

/// Between two snapshots with unique paths, no two events concern the same
/// path.
pub proof fn lemma_change_event_paths_unique(prev: Seq<EntryView>, cur: Seq<EntryView>)
    requires
        unique_paths(prev),
        unique_paths(cur),
    ensures
        event_paths_unique(change_events(prev, cur)),
{
    lemma_removed_or_modified_paths(prev, cur);
    lemma_added_paths(prev, cur);
    let a = removed_or_modified(prev, cur);
    let b = added(prev, cur);
    let s = change_events(prev, cur);
    assert forall|i: int, j: int| 0 <= i < j < s.len() implies #[trigger] s[i].entry.path
        != #[trigger] s[j].entry.path by {
        if j < a.len() {
            assert(s[i] == a[i] && s[j] == a[j]);
        } else if i >= a.len() {
            assert(s[i] == b[i - a.len()] && s[j] == b[j - a.len()]);
        } else {
            assert(s[i] == a[i] && s[j] == b[j - a.len()]);
        }
    }
}

/// Two event sequences in path order that hold the same events, with unique
/// paths, are the same sequence.
pub proof fn lemma_sorted_events_unique(a: Seq<EventView>, b: Seq<EventView>)
    requires
        a.to_multiset() == b.to_multiset(),
        sorted_by_path(a),
        sorted_by_path(b),
        event_paths_unique(a),
    ensures
        a == b,
    decreases a.len(),
{
    vstd::seq_lib::to_multiset_len(a);
    vstd::seq_lib::to_multiset_len(b);
    if a.len() == 0 {
        assert(a =~= b);
    } else {
        let a0 = a[0];
        let b0 = b[0];
        assert(a.to_multiset().count(a0) > 0);
        assert(b.to_multiset().count(b0) > 0);
        let j = choose|j: int| 0 <= j < b.len() && b[j] == a0;
        let i = choose|i: int| 0 <= i < a.len() && a[i] == b0;
        if j > 0 {
            assert(!path_lt(b[j].entry.path, b[0].entry.path));
        }
        if i > 0 {
            assert(!path_lt(a[i].entry.path, a[0].entry.path));
        }
        lemma_path_lt_total(a0.entry.path, b0.entry.path);
        lemma_path_lt_irreflexive(a0.entry.path);
        assert(i == 0);
        vstd::seq_lib::to_multiset_remove(a, 0);
        vstd::seq_lib::to_multiset_remove(b, 0);
        assert(a.remove(0) =~= a.drop_first());
        assert(b.remove(0) =~= b.drop_first());
        let ar = a.drop_first();
        let br = b.drop_first();
        assert(sorted_by_path(ar)) by {
            assert forall|x: int, y: int| 0 <= x < y < ar.len() implies !path_lt(
                #[trigger] ar[y].entry.path,
                #[trigger] ar[x].entry.path,
            ) by {
                assert(!path_lt(a[y + 1].entry.path, a[x + 1].entry.path));
            }
        }
        assert(sorted_by_path(br)) by {
            assert forall|x: int, y: int| 0 <= x < y < br.len() implies !path_lt(
                #[trigger] br[y].entry.path,
                #[trigger] br[x].entry.path,
            ) by {
                assert(!path_lt(b[y + 1].entry.path, b[x + 1].entry.path));
            }
        }
        assert(event_paths_unique(ar)) by {
            assert forall|x: int, y: int| 0 <= x < y < ar.len() implies #[trigger] ar[x].entry.path
                != #[trigger] ar[y].entry.path by {
                assert(a[x + 1].entry.path != a[y + 1].entry.path);
            }
        }
        lemma_sorted_events_unique(ar, br);
        assert(a =~= b) by {
            assert forall|k: int| 0 <= k < a.len() implies a[k] == b[k] by {
                if k > 0 {
                    assert(a[k] == ar[k - 1]);
                }
            }
        }
    }
}

/// The output of a diff does not depend on the order of the entries within
/// its two snapshots: given two outputs in path order, each holding the
/// change events of its pair of snapshots, where the pairs hold the same
/// entries with unique paths, the two outputs are the same sequence.
pub proof fn lemma_diff_output_order_independent(
    prev_a: Seq<EntryView>,
    prev_b: Seq<EntryView>,
    cur_a: Seq<EntryView>,
    cur_b: Seq<EntryView>,
    out_a: Seq<EventView>,
    out_b: Seq<EventView>,
)
    requires
        prev_a.to_multiset() == prev_b.to_multiset(),
        cur_a.to_multiset() == cur_b.to_multiset(),
        unique_paths(prev_a),
        unique_paths(cur_a),
        out_a.to_multiset() == change_events(prev_a, cur_a).to_multiset(),
        out_b.to_multiset() == change_events(prev_b, cur_b).to_multiset(),
        sorted_by_path(out_a),
        sorted_by_path(out_b),
    ensures
        out_a == out_b,
{
    lemma_diff_input_order(prev_a, prev_b, cur_a, cur_b);
    lemma_change_event_paths_unique(prev_a, cur_a);
    let s = change_events(prev_a, cur_a);
    assert(event_paths_unique(out_a)) by {
        assert forall|i: int, j: int| 0 <= i < j < out_a.len() implies #[trigger] out_a[i].entry.path
            != #[trigger] out_a[j].entry.path by {
            if out_a[i].entry.path == out_a[j].entry.path {
                assert(out_a.to_multiset().count(out_a[i]) > 0);
                assert(out_a.to_multiset().count(out_a[j]) > 0);
                let x = choose|x: int| 0 <= x < s.len() && s[x] == out_a[i];
                let y = choose|y: int| 0 <= y < s.len() && s[y] == out_a[j];
                if x == y {
                    vstd::seq_lib::to_multiset_remove(out_a, i);
                    assert(out_a.remove(i)[j - 1] == out_a[j]);
                    assert(out_a.remove(i).to_multiset().count(out_a[i]) > 0);
                    vstd::seq_lib::to_multiset_remove(s, x);
                    assert(s.remove(x).to_multiset().count(out_a[i]) > 0);
                    let z = choose|z: int| 0 <= z < s.remove(x).len() && s.remove(x)[z] == out_a[i];
                    if z < x {
                        assert(s[z] == s[x]);
                    } else {
                        assert(s[z + 1] == s[x]);
                    }
                } else if x < y {
                    assert(s[x].entry.path != s[y].entry.path);
                } else {
                    assert(s[y].entry.path != s[x].entry.path);
                }
            }
        }
    }
    lemma_sorted_events_unique(out_a, out_b);
}

/// Puts events in path order, keeping every event.
pub fn sort_events(v: Vec<EventEntry>) -> (r: Vec<EventEntry>)
    ensures
        events_view(r@).to_multiset() == events_view(v@).to_multiset(),
        sorted_by_path(events_view(r@)),
{
    let ghost all = events_view(v@).to_multiset();
    let mut v = v;
    let mut r: Vec<EventEntry> = Vec::new();
    while v.len() > 0
        invariant
            events_view(r@).to_multiset().add(events_view(v@).to_multiset()) == all,
            sorted_by_path(events_view(r@)),
        decreases v.len(),
    {
        let ghost vb = v@;
        let x = v.pop().unwrap();
        proof {
            assert(events_view(vb) =~= events_view(v@).push(x@));
        }
        let mut j: usize = 0;
        while j < r.len() && !path_less(&x.entry.path, &r[j].entry.path)
            invariant
                j <= r.len(),
                forall|k: int| 0 <= k < j ==> !path_lt(x.entry@.path, #[trigger] r@[k].entry@.path),
            decreases r.len() - j,
        {
            j += 1;
        }
        let ghost old_r = events_view(r@);
        let ghost xv = x@;
        proof {
            let ks = old_r.map_values(|e: EventView| e.entry.path);
            assert(paths_sorted(ks)) by {
                assert forall|a: int, b: int| 0 <= a < b < ks.len() implies !path_lt(
                    #[trigger] ks[b],
                    #[trigger] ks[a],
                ) by {
                    assert(!path_lt(old_r[b].entry.path, old_r[a].entry.path));
                }
            }
            assert forall|k: int| 0 <= k < j implies !path_lt(xv.entry.path, #[trigger] ks[k]) by {
                assert(ks[k] == r@[k]@.entry.path);
            }
            if j < r.len() {
                assert(ks[j as int] == r@[j as int]@.entry.path);
            }
            lemma_insert_sorted(ks, j as int, xv.entry.path);
        }
        r.insert(j, x);
        proof {
            let nr = events_view(r@);
            let ks = old_r.map_values(|e: EventView| e.entry.path);
            assert(nr =~= old_r.insert(j as int, xv));
            assert(nr.map_values(|e: EventView| e.entry.path) =~= ks.insert(j as int, xv.entry.path));
            assert forall|a: int, b: int| 0 <= a < b < nr.len() implies !path_lt(
                #[trigger] nr[b].entry.path,
                #[trigger] nr[a].entry.path,
            ) by {
                let nk = nr.map_values(|e: EventView| e.entry.path);
                assert(!path_lt(nk[b], nk[a]));
            }
        }
    }
    r
}

/// The change events between two snapshots, in path order.
///
/// Each file of `previous` whose path `current` lacks gives a `Del` event, and
/// one whose path `current` holds with another modification time gives a
/// `Mod` event, both with the entry of `previous`. Each file of `current`
/// whose path `previous` lacks gives a `New` event. Directories give none.
pub fn diff(previous: &Vec<FileEntry>, current: &Vec<FileEntry>) -> (r: Vec<EventEntry>)
    ensures
        events_view(r@).to_multiset() == change_events(
            entries_view(previous@),
            entries_view(current@),
        ).to_multiset(),
        sorted_by_path(events_view(r@)),
        forall|i: int| 0 <= i < r.len() ==> !(#[trigger] r@[i]).entry.is_dir,
{
    let ghost pv = entries_view(previous@);
    let ghost cv = entries_view(current@);
    let mut raw: Vec<EventEntry> = Vec::new();
    let mut i: usize = 0;
    while i < previous.len()
        invariant
            i <= previous.len(),
            pv == entries_view(previous@),
            cv == entries_view(current@),
            events_view(raw@) == removed_or_modified(pv.take(i as int), cv),
        decreases previous.len() - i,
    {
        let p = &previous[i];
        assert(pv.take(i + 1).drop_last() =~= pv.take(i as int));
        assert(pv.take(i + 1).last() == p@);
        let ghost before = events_view(raw@);
        proof {
            lemma_find_path(cv, p@.path);
        }
        if !p.is_dir {
            match find_entry(current, &p.path) {
                None => {
                    raw.push(EventEntry { event: FileEvent::Del, entry: p.copy() });
                    assert(events_view(raw@) =~= before.push(raw@.last()@));
                },
                Some(k) => {
                    assert(cv[k as int] == current@[k as int]@);
                    if current[k].last_mod != p.last_mod {
                        raw.push(EventEntry { event: FileEvent::Mod, entry: p.copy() });
                        assert(events_view(raw@) =~= before.push(raw@.last()@));
                    }
                },
            }
        }
        i += 1;
    }
    assert(pv.take(i as int) =~= pv);
    let mut k: usize = 0;
    assert(cv.take(0) =~= Seq::<EntryView>::empty());
    assert(events_view(raw@) =~= removed_or_modified(pv, cv) + added(pv, cv.take(0)));
    while k < current.len()
        invariant
            k <= current.len(),
            pv == entries_view(previous@),
            cv == entries_view(current@),
            events_view(raw@) == removed_or_modified(pv, cv) + added(pv, cv.take(k as int)),
        decreases current.len() - k,
    {
        let c = &current[k];
        assert(cv.take(k + 1).drop_last() =~= cv.take(k as int));
        assert(cv.take(k + 1).last() == c@);
        let ghost before = events_view(raw@);
        if !c.is_dir {
            if find_entry(previous, &c.path).is_none() {
                raw.push(EventEntry { event: FileEvent::New, entry: c.copy() });
                assert(events_view(raw@) =~= before.push(raw@.last()@));
            }
        }
        k += 1;
    }
    assert(cv.take(k as int) =~= cv);
    let r = sort_events(raw);
    proof {
        assert forall|i: int| 0 <= i < r.len() implies !(#[trigger] r@[i]).entry.is_dir by {
            let ev = events_view(r@)[i];
            assert(ev == r@[i]@);
            assert(events_view(r@).contains(ev));
            assert(events_view(r@).to_multiset().count(ev) > 0);
            assert(change_events(pv, cv).to_multiset().count(ev) > 0);
            assert(change_events(pv, cv).contains(ev));
            lemma_classification(pv, cv, ev);
        }
    }
    r
}


/// The entries that a listing shows: all of them when `ls_dirs` is set,
/// else the files alone, in the order given.
pub open spec fn listed(s: Seq<EntryView>, ls_dirs: bool) -> Seq<EntryView>
    decreases s.len(),
{
    if s.len() == 0 {
        seq![]
    } else if ls_dirs || !s.last().is_dir {
        listed(s.drop_last(), ls_dirs).push(s.last())
    } else {
        listed(s.drop_last(), ls_dirs)
    }
}

/// The entries that a listing shows, with directories only when `ls_dirs`
/// is set.
pub fn listed_entries(entries: &Vec<FileEntry>, ls_dirs: bool) -> (r: Vec<FileEntry>)
    ensures
        entries_view(r@) == listed(entries_view(entries@), ls_dirs),
{
    let ghost ev = entries_view(entries@);
    let mut r: Vec<FileEntry> = Vec::new();
    let mut i: usize = 0;
    while i < entries.len()
        invariant
            i <= entries.len(),
            ev == entries_view(entries@),
            entries_view(r@) == listed(ev.take(i as int), ls_dirs),
        decreases entries.len() - i,
    {
        assert(ev.take(i + 1).drop_last() =~= ev.take(i as int));
        assert(ev.take(i + 1).last() == entries@[i as int]@);
        if ls_dirs || !entries[i].is_dir {
            let ghost rb = r@;
            r.push(entries[i].copy());
            assert(entries_view(r@) =~= entries_view(rb).push(entries@[i as int]@));
        }
        i += 1;
    }
    assert(ev.take(i as int) =~= ev);
    r
}

/// The phases of the poll loop.
#[derive(PartialEq, Eq, Structural, Clone, Copy, Debug)]
pub enum Phase {
    Initializing,
    Running,
    ShuttingDown,
    Stopped,
}

/// The decisions of the poll loop, which keeps the previous snapshot from one
/// tick to the next. The caller builds the snapshots, waits between ticks and
/// reads the cancellation flag; this type decides what follows.
pub struct Monitor {
    phase: Phase,
    previous: Vec<FileEntry>,
}

impl Monitor {
    /// The current phase.
    pub closed spec fn phase_view(&self) -> Phase {
        self.phase
    }

    /// The snapshot of the last tick.
    pub closed spec fn previous_view(&self) -> Seq<EntryView> {
        entries_view(self.previous@)
    }

    /// A poll loop waiting for its first snapshot.
    pub fn new() -> (r: Monitor)
        ensures
            r.phase_view() == Phase::Initializing,
            r.previous_view() == Seq::<EntryView>::empty(),
    {
        let r = Monitor { phase: Phase::Initializing, previous: Vec::new() };
        assert(r.previous_view() =~= Seq::<EntryView>::empty());
        r
    }

    /// The current phase.
    pub fn phase(&self) -> (r: Phase)
        ensures
            r == self.phase_view(),
    {
        self.phase
    }

    /// Seeds the loop with its first snapshot, which gives no events; the
    /// loop then runs. In any other phase nothing changes.
    pub fn start(&mut self, first: Vec<FileEntry>)
        ensures
            old(self).phase_view() == Phase::Initializing ==> final(self).phase_view()
                == Phase::Running && final(self).previous_view() == entries_view(first@),
            old(self).phase_view() != Phase::Initializing ==> final(self).phase_view() == old(
                self,
            ).phase_view() && final(self).previous_view() == old(self).previous_view(),
    {
        if self.phase == Phase::Initializing {
            self.previous = first;
            self.phase = Phase::Running;
        }
    }

    /// Decides at a tick boundary whether another tick runs. A running loop
    /// goes on unless `cancelled` is set, and then shuts down; a loop that is
    /// shutting down stops.
    pub fn keep_running(&mut self, cancelled: bool) -> (r: bool)
        ensures
            r == (old(self).phase_view() == Phase::Running && !cancelled),
            final(self).previous_view() == old(self).previous_view(),
            final(self).phase_view() == (match old(self).phase_view() {
                Phase::Running => if cancelled {
                    Phase::ShuttingDown
                } else {
                    Phase::Running
                },
                Phase::ShuttingDown => Phase::Stopped,
                p => p,
            }),
    {
        match self.phase {
            Phase::Running => {
                if cancelled {
                    self.phase = Phase::ShuttingDown;
                    false
                } else {
                    true
                }
            },
            Phase::ShuttingDown => {
                self.phase = Phase::Stopped;
                false
            },
            _ => false,
        }
    }

    /// One tick of a running loop: the events between the previous snapshot
    /// and `current`, in path order; `current` becomes the previous snapshot.
    /// In any other phase there are no events and nothing changes.
    pub fn tick(&mut self, current: Vec<FileEntry>) -> (r: Vec<EventEntry>)
        ensures
            final(self).phase_view() == old(self).phase_view(),
            old(self).phase_view() == Phase::Running ==> events_view(r@).to_multiset()
                == change_events(old(self).previous_view(), entries_view(current@)).to_multiset()
                && sorted_by_path(events_view(r@)) && final(self).previous_view()
                == entries_view(current@),
            old(self).phase_view() != Phase::Running ==> r@.len() == 0
                && final(self).previous_view() == old(self).previous_view(),
    {
        if self.phase == Phase::Running {
            let events = diff(&self.previous, &current);
            self.previous = current;
            events
        } else {
            Vec::new()
        }
    }

    /// Ends the loop: it stops, and hands back the last snapshot.
    pub fn finish(&mut self) -> (r: Vec<FileEntry>)
        ensures
            final(self).phase_view() == Phase::Stopped,
            final(self).previous_view() == old(self).previous_view(),
            entries_view(r@) == old(self).previous_view(),
    {
        self.phase = Phase::Stopped;
        copy_entries(&self.previous)
    }
}

} // verus!
