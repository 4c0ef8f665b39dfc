use vstd::prelude::*;

verus! {

/// The byte that separates path components in a label.
pub const SEPARATOR: u8 = 47;

/// Strict lexicographic order on byte strings.
pub open spec fn bytes_lt(a: Seq<u8>, b: Seq<u8>) -> bool
    decreases a.len(),
{
    if a.len() == 0 {
        b.len() > 0
    } else if b.len() == 0 {
        false
    } else if a[0] != b[0] {
        a[0] < b[0]
    } else {
        bytes_lt(a.drop_first(), b.drop_first())
    }
}

/// Strict lexicographic order on paths, compared component by component.
pub open spec fn path_lt(a: Seq<Seq<u8>>, b: Seq<Seq<u8>>) -> bool
    decreases a.len(),
{
    if a.len() == 0 {
        b.len() > 0
    } else if b.len() == 0 {
        false
    } else if a[0] != b[0] {
        bytes_lt(a[0], b[0])
    } else {
        path_lt(a.drop_first(), b.drop_first())
    }
}

pub proof fn lemma_bytes_lt_irreflexive(a: Seq<u8>)
    ensures
        !bytes_lt(a, a),
    decreases a.len(),
{
    if a.len() > 0 {
        lemma_bytes_lt_irreflexive(a.drop_first());
    }
}

pub proof fn lemma_bytes_lt_total(a: Seq<u8>, b: Seq<u8>)
    ensures
        bytes_lt(a, b) || bytes_lt(b, a) || a == b,
    decreases a.len(),
{
    if a.len() > 0 && b.len() > 0 && a[0] == b[0] {
        lemma_bytes_lt_total(a.drop_first(), b.drop_first());
        if a.drop_first() == b.drop_first() {
            assert(a =~= seq![a[0]] + a.drop_first());
            assert(b =~= seq![b[0]] + b.drop_first());
        }
    } else if a.len() == 0 && b.len() == 0 {
        assert(a =~= b);
    }
}

pub proof fn lemma_bytes_lt_asymmetric(a: Seq<u8>, b: Seq<u8>)
    ensures
        !(bytes_lt(a, b) && bytes_lt(b, a)),
    decreases a.len(),
{
    if a.len() > 0 && b.len() > 0 && a[0] == b[0] {
        lemma_bytes_lt_asymmetric(a.drop_first(), b.drop_first());
    }
}

pub proof fn lemma_bytes_lt_transitive(a: Seq<u8>, b: Seq<u8>, c: Seq<u8>)
    requires
        bytes_lt(a, b),
        bytes_lt(b, c),
    ensures
        bytes_lt(a, c),
    decreases a.len(),
{
    if a.len() > 0 && b.len() > 0 && c.len() > 0 && a[0] == b[0] && b[0] == c[0] {
        lemma_bytes_lt_transitive(a.drop_first(), b.drop_first(), c.drop_first());
    }
}

/// The path order is total: of two different paths one comes first.
pub proof fn lemma_path_lt_total(a: Seq<Seq<u8>>, b: Seq<Seq<u8>>)
    ensures
        path_lt(a, b) || path_lt(b, a) || a == b,
    decreases a.len(),
{
    if a.len() > 0 && b.len() > 0 {
        if a[0] == b[0] {
            lemma_path_lt_total(a.drop_first(), b.drop_first());
            if a.drop_first() == b.drop_first() {
                assert(a =~= seq![a[0]] + a.drop_first());
                assert(b =~= seq![b[0]] + b.drop_first());
            }
        } else {
            lemma_bytes_lt_total(a[0], b[0]);
        }
    } else if a.len() == 0 && b.len() == 0 {
        assert(a =~= b);
    }
}

/// No path comes before itself.
pub proof fn lemma_path_lt_irreflexive(a: Seq<Seq<u8>>)
    ensures
        !path_lt(a, a),
    decreases a.len(),
{
    if a.len() > 0 {
        lemma_path_lt_irreflexive(a.drop_first());
    }
}

/// Two paths never each come before the other.
pub proof fn lemma_path_lt_asymmetric(a: Seq<Seq<u8>>, b: Seq<Seq<u8>>)
    ensures
        !(path_lt(a, b) && path_lt(b, a)),
    decreases a.len(),
{
    if a.len() > 0 && b.len() > 0 {
        if a[0] == b[0] {
            lemma_path_lt_asymmetric(a.drop_first(), b.drop_first());
        } else {
            lemma_bytes_lt_asymmetric(a[0], b[0]);
        }
    }
}

/// The path order is transitive.
pub proof fn lemma_path_lt_transitive(a: Seq<Seq<u8>>, b: Seq<Seq<u8>>, c: Seq<Seq<u8>>)
    requires
        path_lt(a, b),
        path_lt(b, c),
    ensures
        path_lt(a, c),
    decreases a.len(),
{
    if a.len() > 0 && b.len() > 0 && c.len() > 0 {
        if a[0] == b[0] && b[0] == c[0] {
            lemma_path_lt_transitive(a.drop_first(), b.drop_first(), c.drop_first());
        } else if a[0] == b[0] {
            assert(bytes_lt(b[0], c[0]));
        } else if b[0] == c[0] {
            assert(bytes_lt(a[0], b[0]));
        } else {
            lemma_bytes_lt_transitive(a[0], b[0], c[0]);
            if a[0] == c[0] {
                lemma_bytes_lt_asymmetric(a[0], b[0]);
            }
        }
    }
}


/// The mathematical view of a path: its components as byte strings.
pub open spec fn path_view(p: Seq<Vec<u8>>) -> Seq<Seq<u8>> {
    p.map_values(|c: Vec<u8>| c@)
}

/// The view of one entry.
pub struct EntryView {
    pub path: Seq<Seq<u8>>,
    pub last_mod: i128,
    pub is_dir: bool,
}

/// One file or directory under the watched root.
///
/// `path` holds the components of the path relative to the root, and
/// `last_mod` the modification time in nanoseconds since the Unix epoch.
#[derive(Debug)]
pub struct FileEntry {
    pub path: Vec<Vec<u8>>,
    pub last_mod: i128,
    pub is_dir: bool,
}

impl View for FileEntry {
    type V = EntryView;

    open spec fn view(&self) -> EntryView {
        EntryView { path: path_view(self.path@), last_mod: self.last_mod, is_dir: self.is_dir }
    }
}

/// The views of a sequence of entries.
pub open spec fn entries_view(s: Seq<FileEntry>) -> Seq<EntryView> {
    s.map_values(|e: FileEntry| e@)
}

/// Within one snapshot no two entries share a path.
pub open spec fn unique_paths(s: Seq<EntryView>) -> bool {
    forall|i: int, j: int| 0 <= i < j < s.len() ==> #[trigger] s[i].path != #[trigger] s[j].path
}

/// The entries come in path order.
pub open spec fn entries_sorted(s: Seq<EntryView>) -> bool {
    forall|i: int, j: int| 0 <= i < j < s.len() ==> !path_lt(#[trigger] s[j].path, #[trigger] s[i].path)
}

/// The paths come in order.
pub open spec fn paths_sorted(s: Seq<Seq<Seq<u8>>>) -> bool {
    forall|i: int, j: int| 0 <= i < j < s.len() ==> !path_lt(#[trigger] s[j], #[trigger] s[i])
}

/// Putting a path into a sorted sequence just before the first path that
/// comes after it keeps the sequence sorted.
pub proof fn lemma_insert_sorted(s: Seq<Seq<Seq<u8>>>, j: int, x: Seq<Seq<u8>>)
    requires
        paths_sorted(s),
        0 <= j <= s.len(),
        forall|k: int| 0 <= k < j ==> !path_lt(x, #[trigger] s[k]),
        j < s.len() ==> path_lt(x, s[j]),
    ensures
        paths_sorted(s.insert(j, x)),
{
    let n = s.insert(j, x);
    assert forall|a: int, b: int| 0 <= a < b < n.len() implies !path_lt(
        #[trigger] n[b],
        #[trigger] n[a],
    ) by {
        if b == j {
            assert(!path_lt(x, s[a]));
        } else if a == j {
            lemma_path_lt_asymmetric(x, s[b - 1]);
            if path_lt(s[b - 1], x) {
                lemma_path_lt_transitive(s[b - 1], x, s[j]);
                if b - 1 == j {
                    lemma_path_lt_irreflexive(s[j]);
                } else {
                    assert(!path_lt(s[b - 1], s[j]));
                }
            }
        } else if a < j && b > j {
            assert(!path_lt(s[b - 1], s[a]));
        } else if a > j {
            assert(!path_lt(s[b - 1], s[a - 1]));
        } else {
            assert(!path_lt(s[b], s[a]));
        }
    }
}

/// The text of a path: its components joined by `/`.
pub open spec fn joined(p: Seq<Seq<u8>>) -> Seq<u8>
    decreases p.len(),
{
    if p.len() == 0 {
        seq![]
    } else if p.len() == 1 {
        p[0]
    } else {
        joined(p.drop_last()) + seq![SEPARATOR] + p.last()
    }
}

/// How an entry is listed: its path, with a trailing `/` for a directory.
pub open spec fn label_of(e: EntryView) -> Seq<u8> {
    if e.is_dir {
        joined(e.path) + seq![SEPARATOR]
    } else {
        joined(e.path)
    }
}

/// Nanoseconds in a second.
pub const NANOS_PER_SEC: i128 = 1_000_000_000;

/// The text `YYYY-MM-DD HH:MM:SS UTC` of the instant `secs` seconds and
/// `nanos` nanoseconds after the Unix epoch.
pub uninterp spec fn utc_text_of(secs: int, nanos: int) -> Seq<char>;

/// Relies on chrono's `DateTime::<Utc>::from_timestamp` and its `%F %T %Z`
/// format: the text depends on the two numbers alone, and there is none when
/// chrono cannot represent the instant. Every second count within years
/// -262143..262142 is represented when `nanos` is below one second.
#[verifier::external_body]
fn utc_text(secs: i64, nanos: u32) -> (r: Option<String>)
    ensures
        r matches Some(t) ==> t@ == utc_text_of(secs as int, nanos as int),
        nanos < 1_000_000_000 && -8_000_000_000_000 <= secs <= 8_000_000_000_000 ==> r is Some,
{
    chrono::DateTime::<chrono::Utc>::from_timestamp(secs, nanos).map(
        |t| t.format("%F %T %Z").to_string(),
    )
}

/// Copies a byte string.
pub fn copy_bytes(b: &Vec<u8>) -> (r: Vec<u8>)
    ensures
        r@ == b@,
{
    let mut r: Vec<u8> = Vec::new();
    let mut i: usize = 0;
    while i < b.len()
        invariant
            i <= b.len(),
            r@ == b@.take(i as int),
        decreases b.len() - i,
    {
        r.push(b[i]);
        i += 1;
        assert(r@ =~= b@.take(i as int));
    }
    assert(b@.take(i as int) =~= b@);
    r
}

/// Copies a path.
pub fn copy_path(p: &Vec<Vec<u8>>) -> (r: Vec<Vec<u8>>)
    ensures
        path_view(r@) == path_view(p@),
{
    let mut r: Vec<Vec<u8>> = Vec::new();
    let mut i: usize = 0;
    while i < p.len()
        invariant
            i <= p.len(),
            path_view(r@) == path_view(p@).take(i as int),
        decreases p.len() - i,
    {
        let c = copy_bytes(&p[i]);
        let ghost before = r@;
        r.push(c);
        assert(r@ == before.push(c));
        assert(path_view(r@) =~= path_view(before).push(c@));
        i += 1;
        assert(path_view(r@) =~= path_view(p@).take(i as int));
    }
    assert(path_view(p@).take(i as int) =~= path_view(p@));
    r
}

/// Compares two byte strings: true when `a` comes strictly before `b`.
pub fn bytes_less(a: &Vec<u8>, b: &Vec<u8>) -> (r: bool)
    ensures
        r == bytes_lt(a@, b@),
{
    let mut i: usize = 0;
    assert(a@.skip(0) =~= a@);
    assert(b@.skip(0) =~= b@);
    while i < a.len() && i < b.len() && a[i] == b[i]
        invariant
            i <= a.len(),
            i <= b.len(),
            a@.take(i as int) == b@.take(i as int),
            bytes_lt(a@, b@) == bytes_lt(a@.skip(i as int), b@.skip(i as int)),
        decreases a.len() - i,
    {
        assert(a@.skip(i as int).drop_first() =~= a@.skip(i + 1));
        assert(b@.skip(i as int).drop_first() =~= b@.skip(i + 1));
        assert(a@.take(i + 1) =~= a@.take(i as int).push(a@[i as int]));
        assert(b@.take(i + 1) =~= b@.take(i as int).push(b@[i as int]));
        i += 1;
    }
    if i == a.len() {
        i < b.len()
    } else if i == b.len() {
        false
    } else {
        a[i] < b[i]
    }
}

/// Compares two paths component by component: true when `a` comes strictly
/// before `b`.
pub fn path_less(a: &Vec<Vec<u8>>, b: &Vec<Vec<u8>>) -> (r: bool)
    ensures
        r == path_lt(path_view(a@), path_view(b@)),
{
    let ghost pa = path_view(a@);
    let ghost pb = path_view(b@);
    let mut i: usize = 0;
    assert(pa.skip(0) =~= pa);
    assert(pb.skip(0) =~= pb);
    while i < a.len() && i < b.len()
        invariant
            i <= a.len(),
            i <= b.len(),
            pa == path_view(a@),
            pb == path_view(b@),
            path_lt(pa, pb) == path_lt(pa.skip(i as int), pb.skip(i as int)),
        decreases a.len() - i,
    {
        let lt = bytes_less(&a[i], &b[i]);
        assert(pa.skip(i as int)[0] == a@[i as int]@);
        assert(pb.skip(i as int)[0] == b@[i as int]@);
        if lt {
            proof {
                lemma_bytes_lt_irreflexive(a@[i as int]@);
            }
            return true;
        }
        let gt = bytes_less(&b[i], &a[i]);
        if gt {
            proof {
                lemma_bytes_lt_irreflexive(a@[i as int]@);
                lemma_bytes_lt_asymmetric(a@[i as int]@, b@[i as int]@);
            }
            return false;
        }
        proof {
            lemma_bytes_lt_total(a@[i as int]@, b@[i as int]@);
            assert(pa.skip(i as int).drop_first() =~= pa.skip(i + 1));
            assert(pb.skip(i as int).drop_first() =~= pb.skip(i + 1));
        }
        i += 1;
    }
    i < b.len()
}

/// Copies a sequence of entries.
pub fn copy_entries(v: &Vec<FileEntry>) -> (r: Vec<FileEntry>)
    ensures
        entries_view(r@) == entries_view(v@),
{
    let mut r: Vec<FileEntry> = Vec::new();
    let mut i: usize = 0;
    while i < v.len()
        invariant
            i <= v.len(),
            entries_view(r@) == entries_view(v@).take(i as int),
        decreases v.len() - i,
    {
        let ghost rb = r@;
        r.push(v[i].copy());
        assert(entries_view(r@) =~= entries_view(rb).push(v@[i as int]@));
        i += 1;
        assert(entries_view(r@) =~= entries_view(v@).take(i as int));
    }
    assert(entries_view(v@).take(i as int) =~= entries_view(v@));
    r
}

impl FileEntry {
    /// A copy of this entry.
    pub fn copy(&self) -> (r: FileEntry)
        ensures
            r@ == self@,
    {
        FileEntry { path: copy_path(&self.path), last_mod: self.last_mod, is_dir: self.is_dir }
    }

    /// The modification time as UTC text, `YYYY-MM-DD HH:MM:SS UTC`; none
    /// when the instant lies beyond what can be written as a date. Every
    /// instant within 8 * 10^21 nanoseconds of the epoch has a text.
    pub fn modified_utc(&self) -> (r: Option<String>)
        ensures
            -8_000_000_000_000_000_000_000 <= self.last_mod <= 8_000_000_000_000_000_000_000
                ==> r is Some,
            r matches Some(t) ==> t@ == utc_text_of(
                self.last_mod as int / NANOS_PER_SEC as int,
                self.last_mod as int % NANOS_PER_SEC as int,
            ),
    {
        let t = self.last_mod;
        let q: i128;
        let rem: i128;
        if t >= 0 {
            q = t / NANOS_PER_SEC;
            rem = t % NANOS_PER_SEC;
            proof {
                vstd::arithmetic::div_mod::lemma_fundamental_div_mod(t as int, NANOS_PER_SEC as int);
                vstd::arithmetic::div_mod::lemma_fundamental_div_mod_converse(
                    t as int,
                    NANOS_PER_SEC as int,
                    q as int,
                    rem as int,
                );
            }
        } else {
            let u: i128 = -(t + 1);
            let a: i128 = u / NANOS_PER_SEC;
            let b: i128 = u % NANOS_PER_SEC;
            proof {
                vstd::arithmetic::div_mod::lemma_fundamental_div_mod(u as int, NANOS_PER_SEC as int);
            }
            q = -a - 1;
            rem = NANOS_PER_SEC - 1 - b;
            proof {
                assert(t as int == q as int * NANOS_PER_SEC as int + rem as int) by (nonlinear_arith)
                    requires
                        u == -(t + 1),
                        u as int == NANOS_PER_SEC as int * a as int + b as int,
                        q == -a - 1,
                        rem == NANOS_PER_SEC - 1 - b,
                ;
                vstd::arithmetic::div_mod::lemma_fundamental_div_mod_converse(
                    t as int,
                    NANOS_PER_SEC as int,
                    q as int,
                    rem as int,
                );
            }
        }
        if q < i64::MIN as i128 || q > i64::MAX as i128 {
            return None;
        }
        utc_text(q as i64, rem as u32)
    }

    /// How this entry is listed: the path components joined by `/`, followed
    /// by `/` for a directory.
    pub fn label(&self) -> (r: Vec<u8>)
        ensures
            r@ == label_of(self@),
    {
        let mut r: Vec<u8> = Vec::new();
        let mut i: usize = 0;
        while i < self.path.len()
            invariant
                i <= self.path.len(),
                r@ == joined(path_view(self.path@).take(i as int)),
            decreases self.path.len() - i,
        {
            let ghost before = r@;
            if i > 0 {
                r.push(SEPARATOR);
            }
            let mut k: usize = 0;
            while k < self.path[i].len()
                invariant
                    i < self.path.len(),
                    k <= self.path[i as int].len(),
                    r@ == (if i > 0 { before + seq![SEPARATOR] } else { before }) + self.path[i as int]@.take(k as int),
                decreases self.path[i as int].len() - k,
            {
                r.push(self.path[i][k]);
                k += 1;
                assert(r@ =~= (if i > 0 { before + seq![SEPARATOR] } else { before }) + self.path[i as int]@.take(k as int));
            }
            proof {
                let pv = path_view(self.path@);
                assert(self.path[i as int]@.take(k as int) =~= pv[i as int]);
                assert(pv.take(i + 1).drop_last() =~= pv.take(i as int));
                if i == 0 {
                    assert(r@ =~= joined(pv.take(1)));
                }
            }
            i += 1;
        }
        assert(path_view(self.path@).take(i as int) =~= path_view(self.path@));
        if self.is_dir {
            r.push(SEPARATOR);
        }
        r
    }
}

} // verus!
