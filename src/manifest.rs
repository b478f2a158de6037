//! The manifest format (`<path>:<digest>`, one entry per line) and the
//! reconciliation of one manifest against another.

use vstd::prelude::*;
use vstd::string::*;

verus! {

/// The digest recorded for `k`, searching from the latest entry.
pub open spec fn lookup(s: Seq<(Seq<char>, Seq<char>)>, k: Seq<char>) -> Option<Seq<char>>
    decreases s.len(),
{
    if s.len() == 0 {
        None
    } else if s.last().0 == k {
        Some(s.last().1)
    } else {
        lookup(s.drop_last(), k)
    }
}

/// Whether no two entries share a path.
pub open spec fn unique_keys(s: Seq<(Seq<char>, Seq<char>)>) -> bool {
    forall|i: int, j: int| 0 <= i < s.len() && 0 <= j < s.len() && i != j ==> #[trigger] s[i].0 != #[trigger] s[j].0
}

/// The path-to-digest map that a list of entries stands for.
pub open spec fn map_of(s: Seq<(Seq<char>, Seq<char>)>) -> Map<Seq<char>, Seq<char>> {
    Map::new(|k: Seq<char>| lookup(s, k) is Some, |k: Seq<char>| lookup(s, k)->0)
}

pub proof fn lemma_lookup(s: Seq<(Seq<char>, Seq<char>)>, k: Seq<char>)
    ensures
        lookup(s, k) is None <==> forall|j: int| 0 <= j < s.len() ==> #[trigger] s[j].0 != k,
        unique_keys(s) ==> forall|j: int|
            0 <= j < s.len() && #[trigger] s[j].0 == k ==> lookup(s, k) == Some(s[j].1),
    decreases s.len(),
{
    if s.len() > 0 {
        let d = s.drop_last();
        lemma_lookup(d, k);
        assert forall|j: int| 0 <= j < d.len() implies #[trigger] d[j] == s[j] by {}
        assert(s[s.len() - 1] == s.last());
        if s.last().0 == k {
            assert(s[s.len() - 1].0 == k);
        } else if lookup(d, k) is None {
            assert forall|j: int| 0 <= j < s.len() implies #[trigger] s[j].0 != k by {
                if j < d.len() {
                    assert(d[j].0 != k);
                }
            }
        } else {
            let j = choose|j: int| 0 <= j < d.len() && #[trigger] d[j].0 == k;
            assert(s[j].0 == k);
        }
        if s.last().0 != k {
            assert forall|j: int| 0 <= j < s.len() && #[trigger] s[j].0 == k implies j < d.len() by {
                if j == s.len() - 1 {
                    assert(s[j] == s.last());
                }
            }
        }
        if unique_keys(s) {
            assert(unique_keys(d)) by {
                assert forall|i: int, j: int|
                    0 <= i < d.len() && 0 <= j < d.len() && i != j implies #[trigger] d[i].0
                    != #[trigger] d[j].0 by {
                    assert(d[i] == s[i] && d[j] == s[j]);
                }
            }
            assert forall|j: int| 0 <= j < s.len() && #[trigger] s[j].0 == k implies lookup(s, k)
                == Some(s[j].1) by {
                if j < s.len() - 1 {
                    assert(s[j].0 != s[s.len() - 1].0);
                    assert(d[j] == s[j]);
                }
            }
        }
    }
}

/// A manifest: a map from paths to digest text, held as a list of entries
/// with distinct paths.
pub struct Manifest {
    entries: Vec<(String, String)>,
}

impl Manifest {
    /// The entries, as text.
    pub closed spec fn entries_view(&self) -> Seq<(Seq<char>, Seq<char>)> {
        self.entries@.map_values(|e: (String, String)| (e.0@, e.1@))
    }

    pub closed spec fn wf(&self) -> bool {
        unique_keys(self.entries_view())
    }

    pub open spec fn view(&self) -> Map<Seq<char>, Seq<char>> {
        map_of(self.entries_view())
    }

    /// An empty manifest.
    pub fn new() -> (r: Manifest)
        ensures
            r.wf(),
            r@ == Map::<Seq<char>, Seq<char>>::empty(),
            r.entries_view().len() == 0,
    {
        let r = Manifest { entries: Vec::new() };
        assert(r.entries_view() =~= Seq::<(Seq<char>, Seq<char>)>::empty());
        assert(r@ =~= Map::<Seq<char>, Seq<char>>::empty());
        r
    }

    /// The number of entries, one per distinct path.
    pub fn len(&self) -> (r: usize)
        ensures
            r == self.entries_view().len(),
    {
        self.entries.len()
    }

    /// The path and digest of entry `i`.
    pub fn entry(&self, i: usize) -> (r: (String, String))
        requires
            i < self.entries_view().len(),
        ensures
            (r.0@, r.1@) == self.entries_view()[i as int],
    {
        let e = &self.entries[i];
        (e.0.clone(), e.1.clone())
    }

    /// Records `digest` for `path`; a later digest for the same path
    /// replaces the earlier one.
    pub fn insert(&mut self, path: String, digest: String)
        requires
            old(self).wf(),
        ensures
            final(self).wf(),
            final(self)@ == old(self)@.insert(path@, digest@),
    {
        let ghost s0 = self.entries_view();
        let n = self.entries.len();
        let mut i: usize = 0;
        while i < n
            invariant
                n == self.entries@.len(),
                s0 == self.entries_view(),
                s0 == old(self).entries_view(),
                unique_keys(s0),
                i <= n,
                forall|j: int| 0 <= j < i ==> #[trigger] s0[j].0 != path@,
            decreases n - i,
        {
            assert(s0[i as int] == (self.entries@[i as int].0@, self.entries@[i as int].1@));
            if self.entries[i].0 == path {
                let ghost k = path@;
                let ghost v = digest@;
                assert(s0[i as int].0 == k);
                assert(old(self)@ == map_of(s0));
                self.entries.set(i, (path, digest));
                let ghost s1 = self.entries_view();
                assert(s1 =~= s0.update(i as int, (k, v)));
                assert(unique_keys(s1)) by {
                    assert forall|a: int, b: int|
                        0 <= a < s1.len() && 0 <= b < s1.len() && a != b implies #[trigger] s1[a].0
                        != #[trigger] s1[b].0 by {
                        if a != i && b != i {
                            assert(s1[a] == s0[a] && s1[b] == s0[b]);
                        } else if a == i {
                            assert(s1[b] == s0[b]);
                            assert(s0[b].0 != s0[i as int].0);
                        } else {
                            assert(s1[a] == s0[a]);
                            assert(s0[a].0 != s0[i as int].0);
                        }
                    }
                }
                assert forall|q: Seq<char>|
                    (#[trigger] lookup(s1, q) is Some <==> old(self)@.insert(k, v).contains_key(q))
                    && (lookup(s1, q) is Some ==> lookup(s1, q)->0 == old(self)@.insert(k, v)[q]) by {
                    lemma_lookup(s0, q);
                    lemma_lookup(s1, q);
                    if q == k {
                        assert(s1[i as int] == (k, v));
                        assert(s1[i as int].0 == q);
                        assert(lookup(s1, q) == Some(v));
                    } else if lookup(s0, q) is Some {
                        let j = choose|j: int| 0 <= j < s0.len() && #[trigger] s0[j].0 == q;
                        assert(j != i);
                        assert(s1[j] == s0[j]);
                        assert(lookup(s1, q) == lookup(s0, q));
                    } else {
                        assert forall|j: int| 0 <= j < s1.len() implies #[trigger] s1[j].0 != q by {
                            if j != i {
                                assert(s1[j] == s0[j]);
                            }
                        }
                    }
                }
                assert(self@ =~= old(self)@.insert(k, v));
                return;
            }
            i = i + 1;
        }
        let ghost k = path@;
        let ghost v = digest@;
        self.entries.push((path, digest));
        let ghost s1 = self.entries_view();
        assert(s1 =~= s0.push((k, v)));
        assert(s1.drop_last() =~= s0);
        assert(unique_keys(s1)) by {
            assert forall|a: int, b: int|
                0 <= a < s1.len() && 0 <= b < s1.len() && a != b implies #[trigger] s1[a].0
                != #[trigger] s1[b].0 by {
                if a < n && b < n {
                    assert(s1[a] == s0[a] && s1[b] == s0[b]);
                } else if a < n {
                    assert(s1[a] == s0[a]);
                } else {
                    assert(s1[b] == s0[b]);
                }
            }
        }
        assert forall|q: Seq<char>|
                    (#[trigger] lookup(s1, q) is Some <==> old(self)@.insert(k, v).contains_key(q))
                    && (lookup(s1, q) is Some ==> lookup(s1, q)->0 == old(self)@.insert(k, v)[q]) by {
            lemma_lookup(s0, q);
        }
        assert(self@ =~= old(self)@.insert(k, v));
    }

    /// The digest recorded for `path`, if any.
    pub fn get(&self, path: &String) -> (r: Option<String>)
        requires
            self.wf(),
        ensures
            r is Some <==> self@.contains_key(path@),
            r is Some ==> r->0@ == self@[path@],
    {
        let ghost s = self.entries_view();
        proof {
            lemma_lookup(s, path@);
        }
        let n = self.entries.len();
        let mut i: usize = 0;
        while i < n
            invariant
                n == self.entries@.len(),
                s == self.entries_view(),
                unique_keys(s),
                lookup(s, path@) is None <==> forall|j: int| 0 <= j < s.len() ==> #[trigger] s[j].0 != path@,
                forall|j: int| 0 <= j < s.len() && #[trigger] s[j].0 == path@ ==> lookup(s, path@) == Some(s[j].1),
                i <= n,
                forall|j: int| 0 <= j < i ==> #[trigger] s[j].0 != path@,
            decreases n - i,
        {
            assert(s[i as int] == (self.entries@[i as int].0@, self.entries@[i as int].1@));
            if self.entries[i].0 == *path {
                let d = self.entries[i].1.clone();
                assert(s[i as int].0 == path@);
                assert(lookup(s, path@) == Some(d@));
                assert(self@.contains_key(path@));
                return Some(d);
            }
            i = i + 1;
        }
        assert(lookup(s, path@) is None);
        assert(!self@.contains_key(path@));
        None
    }
}

/// Whether the first `:` of `s` stands at `i`.
pub open spec fn first_colon_at(s: Seq<char>, i: int) -> bool {
    &&& 0 <= i < s.len()
    &&& s[i] == ':'
    &&& forall|j: int| 0 <= j < i ==> s[j] != ':'
}

/// A manifest line split at its first `:` into path and digest.
pub open spec fn split_manifest_line(s: Seq<char>) -> Option<(Seq<char>, Seq<char>)> {
    if exists|i: int| first_colon_at(s, i) {
        let i = choose|i: int| first_colon_at(s, i);
        Some((s.subrange(0, i), s.subrange(i + 1, s.len() as int)))
    } else {
        None
    }
}

/// The manifest that a list of lines describes, later lines winning.
pub open spec fn manifest_of_lines(lines: Seq<Seq<char>>) -> Map<Seq<char>, Seq<char>>
    decreases lines.len(),
{
    if lines.len() == 0 {
        Map::empty()
    } else {
        let (p, h) = split_manifest_line(lines.last())->0;
        manifest_of_lines(lines.drop_last()).insert(p, h)
    }
}

/// The text of each line.
pub open spec fn lines_view(lines: Seq<String>) -> Seq<Seq<char>> {
    lines.map_values(|l: String| l@)
}

/// Splits a manifest line at its first `:`; a line without one has no
/// entry.
pub fn parse_manifest_line(line: &str) -> (r: Option<(String, String)>)
    ensures
        r is None <==> split_manifest_line(line@) is None,
        r matches Some(p) ==> split_manifest_line(line@) == Some((p.0@, p.1@)),
{
    let n = line.unicode_len();
    let mut i: usize = 0;
    while i < n
        invariant
            n == line@.len(),
            i <= n,
            forall|j: int| 0 <= j < i ==> line@[j] != ':',
        decreases n - i,
    {
        if line.get_char(i) == ':' {
            assert(first_colon_at(line@, i as int));
            assert forall|k: int| first_colon_at(line@, k) implies k == i by {
                if k < i {
                    assert(line@[k] != ':');
                } else if k > i {
                    assert(line@[i as int] != ':');
                }
            }
            let path = String::from_str(line.substring_char(0, i));
            let digest = String::from_str(line.substring_char(i + 1, n));
            return Some((path, digest));
        }
        i = i + 1;
    }
    assert(!exists|k: int| first_colon_at(line@, k));
    None
}

/// Writes one manifest line, without its newline.
pub fn manifest_line(path: &str, digest: &str) -> (r: String)
    ensures
        r@ == path@ + seq![':'] + digest@,
{
    proof {
        reveal_strlit(":");
    }
    let mut out = String::from_str(path);
    out.append(":");
    out.append(digest);
    assert(out@ =~= path@ + seq![':'] + digest@);
    out
}

impl Manifest {
    /// Reads a manifest from its lines; a line without `:` makes the whole
    /// manifest unreadable.
    pub fn from_lines(lines: &Vec<String>) -> (r: Option<Manifest>)
        ensures
            r is Some <==> forall|i: int|
                0 <= i < lines@.len() ==> #[trigger] split_manifest_line(lines@[i]@) is Some,
            r matches Some(m) ==> m.wf() && m@ == manifest_of_lines(lines_view(lines@)),
    {
        let mut m = Manifest::new();
        let n = lines.len();
        let mut i: usize = 0;
        proof {
            assert(lines_view(lines@).subrange(0, 0) =~= Seq::<Seq<char>>::empty());
        }
        while i < n
            invariant
                n == lines@.len(),
                i <= n,
                m.wf(),
                m@ == manifest_of_lines(lines_view(lines@).subrange(0, i as int)),
                forall|k: int| 0 <= k < i ==> #[trigger] split_manifest_line(lines@[k]@) is Some,
            decreases n - i,
        {
            match parse_manifest_line(lines[i].as_str()) {
                Some((p, h)) => {
                    let ghost pre = lines_view(lines@).subrange(0, i as int);
                    let ghost post = lines_view(lines@).subrange(0, i + 1);
                    assert(post.drop_last() =~= pre);
                    assert(post.last() == lines@[i as int]@);
                    m.insert(p, h);
                },
                None => {
                    return None;
                },
            }
            i = i + 1;
        }
        assert(lines_view(lines@).subrange(0, n as int) =~= lines_view(lines@));
        Some(m)
    }
}

/// The manifest that the readable lines of a list describe, later lines
/// winning; lines without `:` are left out.
pub open spec fn manifest_of_valid_lines(lines: Seq<Seq<char>>) -> Map<Seq<char>, Seq<char>>
    decreases lines.len(),
{
    if lines.len() == 0 {
        Map::empty()
    } else {
        let m = manifest_of_valid_lines(lines.drop_last());
        match split_manifest_line(lines.last()) {
            Some((p, h)) => m.insert(p, h),
            None => m,
        }
    }
}

impl Manifest {
    /// Reads a manifest from its lines, keeping every readable line and
    /// returning, in order, the indices of the lines without `:`.
    pub fn from_lines_reporting(lines: &Vec<String>) -> (r: (Manifest, Vec<usize>))
        ensures
            r.0.wf(),
            r.0@ == manifest_of_valid_lines(lines_view(lines@)),
            forall|j: int|
                0 <= j < r.1@.len() ==> (#[trigger] r.1@[j]) < lines@.len()
                    && split_manifest_line(lines@[r.1@[j] as int]@) is None,
            forall|k: int|
                0 <= k < lines@.len() && split_manifest_line(#[trigger] lines@[k]@) is None
                    ==> exists|j: int| 0 <= j < r.1@.len() && r.1@[j] == k,
            forall|a: int, b: int| 0 <= a < b < r.1@.len() ==> (#[trigger] r.1@[a]) < (#[trigger] r.1@[b]),
    {
        let mut m = Manifest::new();
        let mut bad: Vec<usize> = Vec::new();
        let n = lines.len();
        let mut i: usize = 0;
        proof {
            assert(lines_view(lines@).subrange(0, 0) =~= Seq::<Seq<char>>::empty());
        }
        while i < n
            invariant
                n == lines@.len(),
                i <= n,
                m.wf(),
                m@ == manifest_of_valid_lines(lines_view(lines@).subrange(0, i as int)),
                forall|j: int|
                    0 <= j < bad@.len() ==> (#[trigger] bad@[j]) < i
                        && split_manifest_line(lines@[bad@[j] as int]@) is None,
                forall|k: int|
                    0 <= k < i && split_manifest_line(#[trigger] lines@[k]@) is None
                        ==> exists|j: int| 0 <= j < bad@.len() && bad@[j] == k,
                forall|a: int, b: int| 0 <= a < b < bad@.len() ==> (#[trigger] bad@[a]) < (#[trigger] bad@[b]),
            decreases n - i,
        {
            let ghost pre = lines_view(lines@).subrange(0, i as int);
            let ghost post = lines_view(lines@).subrange(0, i + 1);
            assert(post.drop_last() =~= pre);
            assert(post.last() == lines@[i as int]@);
            match parse_manifest_line(lines[i].as_str()) {
                Some((p, h)) => {
                    m.insert(p, h);
                },
                None => {
                    let ghost old_bad = bad@;
                    bad.push(i);
                    assert forall|k: int|
                        0 <= k < i + 1 && split_manifest_line(#[trigger] lines@[k]@) is None
                            implies exists|j: int| 0 <= j < bad@.len() && bad@[j] == k by {
                        if k < i {
                            let j = choose|j: int| 0 <= j < old_bad.len() && old_bad[j] == k;
                            assert(bad@[j] == k);
                        } else {
                            assert(bad@[old_bad.len() as int] == k);
                        }
                    }
                },
            }
            i = i + 1;
        }
        assert(lines_view(lines@).subrange(0, n as int) =~= lines_view(lines@));
        (m, bad)
    }
}

/// How one entry of the manifest under check stands against the reference
/// manifest.
pub enum Reconciliation {
    Consistent,
    Mismatched { expected: String, found: String },
    MissingFromA,
}

/// Whether `r` is the right classification of `path` with `digest` against
/// the reference map `a`.
pub open spec fn reconciles(
    a: Map<Seq<char>, Seq<char>>,
    path: Seq<char>,
    digest: Seq<char>,
    r: Reconciliation,
) -> bool {
    match r {
        Reconciliation::MissingFromA => !a.contains_key(path),
        Reconciliation::Mismatched { expected, found } => {
            &&& a.contains_key(path)
            &&& a[path] != digest
            &&& expected@ == a[path]
            &&& found@ == digest
        },
        Reconciliation::Consistent => a.contains_key(path) && a[path] == digest,
    }
}

/// Classifies one entry against the reference manifest `a`.
pub fn reconcile_entry(a: &Manifest, path: &String, digest: &String) -> (r: Reconciliation)
    requires
        a.wf(),
    ensures
        reconciles(a@, path@, digest@, r),
{
    match a.get(path) {
        None => Reconciliation::MissingFromA,
        Some(expected) => {
            if expected == *digest {
                Reconciliation::Consistent
            } else {
                Reconciliation::Mismatched { expected, found: digest.clone() }
            }
        },
    }
}

/// Classifies every entry of `b` against `a`, in the order of `b`'s entries.
/// Entries of `a` that `b` lacks are not reported.
pub fn reconcile(a: &Manifest, b: &Manifest) -> (r: Vec<(String, Reconciliation)>)
    requires
        a.wf(),
        b.wf(),
    ensures
        r@.len() == b.entries_view().len(),
        forall|i: int|
            0 <= i < r@.len() ==> {
                &&& (#[trigger] r@[i]).0@ == b.entries_view()[i].0
                &&& reconciles(a@, b.entries_view()[i].0, b.entries_view()[i].1, r@[i].1)
            },
        forall|i: int|
            0 <= i < r@.len() ==> b@.contains_key((#[trigger] r@[i]).0@) && reconciles(
                a@,
                r@[i].0@,
                b@[r@[i].0@],
                r@[i].1,
            ),
        forall|k: Seq<char>| #[trigger] b@.contains_key(k) ==> exists|i: int| 0 <= i < r@.len() && (#[trigger] r@[i]).0@ == k,
        forall|i: int, j: int| 0 <= i < j < r@.len() ==> (#[trigger] r@[i]).0@ != (#[trigger] r@[j]).0@,
{
    proof {
        let s = b.entries_view();
        assert forall|k: Seq<char>| true implies (lookup(s, k) is None <==> forall|j: int| 0 <= j < s.len() ==> #[trigger] s[j].0 != k)
            && (forall|j: int| 0 <= j < s.len() && #[trigger] s[j].0 == k ==> lookup(s, k) == Some(s[j].1)) by {
            lemma_lookup(s, k);
        }
    }
    let mut out: Vec<(String, Reconciliation)> = Vec::new();
    let n = b.len();
    let mut i: usize = 0;
    while i < n
        invariant
            a.wf(),
            n == b.entries_view().len(),
            i <= n,
            out@.len() == i,
            forall|k: int|
                0 <= k < i ==> {
                    &&& (#[trigger] out@[k]).0@ == b.entries_view()[k].0
                    &&& reconciles(a@, b.entries_view()[k].0, b.entries_view()[k].1, out@[k].1)
                },
        decreases n - i,
    {
        let (path, digest) = b.entry(i);
        let c = reconcile_entry(a, &path, &digest);
        out.push((path, c));
        i = i + 1;
    }
    proof {
        let s = b.entries_view();
        assert forall|k: Seq<char>| #[trigger] b@.contains_key(k) implies exists|i: int|
            0 <= i < out@.len() && (#[trigger] out@[i]).0@ == k by {
            lemma_lookup(s, k);
            let j = choose|j: int| 0 <= j < s.len() && #[trigger] s[j].0 == k;
            assert(out@[j].0@ == k);
        }
    }
    out
}

/// The line reported for an entry: `<path>: MISMATCH` or `<path>: NO EXIST`;
/// a consistent entry is not reported.
pub fn report_line(path: &str, r: &Reconciliation) -> (o: Option<String>)
    ensures
        match r {
            Reconciliation::Consistent => o is None,
            Reconciliation::Mismatched { .. } => o matches Some(t) && t@ == path@ + ": MISMATCH"@,
            Reconciliation::MissingFromA => o matches Some(t) && t@ == path@ + ": NO EXIST"@,
        },
{
    match r {
        Reconciliation::Consistent => None,
        Reconciliation::Mismatched { .. } => {
            let mut t = String::from_str(path);
            t.append(": MISMATCH");
            Some(t)
        },
        Reconciliation::MissingFromA => {
            let mut t = String::from_str(path);
            t.append(": NO EXIST");
            Some(t)
        },
    }
}

} // verus!
