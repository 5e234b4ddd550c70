//! The shared data types of the crate.
//!
//! [`PackageVersions`] maps each package name to the set of version strings
//! observed for it across all lockfile entries; a name is present exactly
//! when at least one entry resolved to it, and version sets hold no
//! duplicates. [`ChangeSet`] is a set of package names, the result of a
//! diff. Both are modelled as mathematical maps and sets over character
//! sequences.

use crate::strutil::{distinct_views, lemma_str_views_len, str_eq, str_views, vec_contains_str};
use vstd::prelude::*;

verus! {

/// Some entry of `s` is named `p`.
pub open spec fn has_name(s: Seq<(String, Vec<String>)>, p: Seq<char>) -> bool {
    exists|i: int| 0 <= i < s.len() && s[i].0@ == p
}

/// The versions that entries of `s` named `p` hold.
pub open spec fn versions_of(s: Seq<(String, Vec<String>)>, p: Seq<char>) -> Set<Seq<char>> {
    Set::new(
        |v: Seq<char>|
            exists|i: int, j: int|
                0 <= i < s.len() && s[i].0@ == p && 0 <= j < s[i].1@.len() && s[i].1@[j]@ == v,
    )
}

/// The map that the entry list `s` denotes.
pub open spec fn pv_map(s: Seq<(String, Vec<String>)>) -> Map<Seq<char>, Set<Seq<char>>> {
    Map::new(|p: Seq<char>| has_name(s, p), |p: Seq<char>| versions_of(s, p))
}

/// Entry names are pairwise distinct and each version list holds no
/// duplicates.
pub open spec fn entries_wf(s: Seq<(String, Vec<String>)>) -> bool {
    &&& forall|i: int, j: int| 0 <= i < j < s.len() ==> s[i].0@ != s[j].0@
    &&& forall|i: int| 0 <= i < s.len() ==> distinct_views(#[trigger] s[i].1@)
}

/// The version set of `p` in `m`, or the empty set when `p` is absent.
pub open spec fn versions_or_empty(m: Map<Seq<char>, Set<Seq<char>>>, p: Seq<char>) -> Set<
    Seq<char>,
> {
    if m.contains_key(p) {
        m[p]
    } else {
        Set::empty()
    }
}

/// A mapping from package name to the set of version strings resolved for
/// it. Immutable once built by the extractor; built incrementally through
/// [`PackageVersions::insert_version`].
#[derive(Debug)]
pub struct PackageVersions {
    entries: Vec<(String, Vec<String>)>,
}

impl View for PackageVersions {
    type V = Map<Seq<char>, Set<Seq<char>>>;

    closed spec fn view(&self) -> Map<Seq<char>, Set<Seq<char>>> {
        pv_map(self.entries@)
    }
}

/// With distinct entry names, the versions of the name at `i` are exactly
/// the views of its version list.
proof fn lemma_versions_of_at(s: Seq<(String, Vec<String>)>, i: int)
    requires
        forall|k: int, l: int| 0 <= k < l < s.len() ==> s[k].0@ != s[l].0@,
        0 <= i < s.len(),
    ensures
        versions_of(s, s[i].0@) =~= str_views(s[i].1@),
{
    let p = s[i].0@;
    assert forall|v: Seq<char>| versions_of(s, p).contains(v) implies str_views(
        s[i].1@,
    ).contains(v) by {
        let (k, j) = choose|k: int, j: int|
            0 <= k < s.len() && s[k].0@ == p && 0 <= j < s[k].1@.len() && s[k].1@[j]@ == v;
        assert(k == i);
    }
    assert forall|v: Seq<char>| str_views(s[i].1@).contains(v) implies versions_of(s, p).contains(
        v,
    ) by {
        let j = choose|j: int| 0 <= j < s[i].1@.len() && s[i].1@[j]@ == v;
        assert(0 <= i < s.len() && s[i].0@ == p && 0 <= j < s[i].1@.len() && s[i].1@[j]@ == v);
    }
}

impl PackageVersions {
    /// The structural invariant of the representation.
    pub closed spec fn wf(&self) -> bool {
        entries_wf(self.entries@)
    }

    /// An empty map.
    pub fn new() -> (r: PackageVersions)
        ensures
            r.wf(),
            r@ == Map::<Seq<char>, Set<Seq<char>>>::empty(),
    {
        let r = PackageVersions { entries: Vec::new() };
        proof {
            assert(r@ =~~= Map::<Seq<char>, Set<Seq<char>>>::empty());
        }
        r
    }

    /// The index of the entry named `package`, if any.
    fn find_entry(&self, package: &str) -> (r: Option<usize>)
        ensures
            match r {
                Some(i) => i < self.entries@.len() && self.entries@[i as int].0@ == package@,
                None => !has_name(self.entries@, package@),
            },
    {
        let n: usize = self.entries.len();
        let mut i: usize = 0;
        while i < n
            invariant
                n == self.entries@.len(),
                0 <= i <= n,
                forall|j: int| 0 <= j < i ==> self.entries@[j].0@ != package@,
            decreases n - i,
        {
            if str_eq(self.entries[i].0.as_str(), package) {
                return Some(i);
            }
            i += 1;
        }
        None
    }

    /// Whether `package` is present in the map.
    pub fn contains_package(&self, package: &str) -> (b: bool)
        ensures
            b == self@.contains_key(package@),
    {
        self.find_entry(package).is_some()
    }

    /// How many packages the map holds.
    pub fn package_count(&self) -> (n: usize)
        requires
            self.wf(),
        ensures
            n == self@.dom().len(),
    {
        proof {
            let s = self.entries@;
            let names = s.map_values(|e: (String, Vec<String>)| e.0);
            assert(distinct_views(names));
            lemma_str_views_len(names);
            assert forall|q: Seq<char>| self@.dom().contains(q) == str_views(names).contains(
                q,
            ) by {
                if has_name(s, q) {
                    let i = choose|i: int| 0 <= i < s.len() && s[i].0@ == q;
                    assert(names[i]@ == q);
                }
                if str_views(names).contains(q) {
                    let i = choose|i: int| 0 <= i < names.len() && names[i]@ == q;
                    assert(s[i].0@ == q);
                }
            }
            assert(self@.dom() =~= str_views(names));
        }
        self.entries.len()
    }

    /// The versions recorded for `package`: `Some` of a duplicate-free list
    /// denoting exactly the version set, or `None` when the package is
    /// absent.
    pub fn versions(&self, package: &str) -> (r: Option<&Vec<String>>)
        requires
            self.wf(),
        ensures
            match r {
                Some(v) => {
                    &&& self@.contains_key(package@)
                    &&& distinct_views(v@)
                    &&& str_views(v@) == self@[package@]
                },
                None => !self@.contains_key(package@),
            },
    {
        match self.find_entry(package) {
            Some(i) => {
                proof {
                    lemma_versions_of_at(self.entries@, i as int);
                }
                Some(&self.entries[i].1)
            },
            None => None,
        }
    }

    /// How many versions are recorded for `package`; zero when it is
    /// absent.
    pub fn version_count(&self, package: &str) -> (n: usize)
        requires
            self.wf(),
        ensures
            self@.contains_key(package@) ==> n == self@[package@].len(),
            !self@.contains_key(package@) ==> n == 0,
    {
        match self.versions(package) {
            Some(v) => {
                proof {
                    lemma_str_views_len(v@);
                }
                v.len()
            },
            None => 0,
        }
    }

    /// Whether `version` is recorded for `package`.
    pub fn has_version(&self, package: &str, version: &str) -> (b: bool)
        requires
            self.wf(),
        ensures
            b == (self@.contains_key(package@) && self@[package@].contains(version@)),
    {
        match self.versions(package) {
            Some(v) => vec_contains_str(v, version),
            None => false,
        }
    }

    /// The package names, each exactly once.
    pub fn package_names(&self) -> (r: Vec<String>)
        requires
            self.wf(),
        ensures
            distinct_views(r@),
            str_views(r@) == self@.dom(),
    {
        let n: usize = self.entries.len();
        let mut r: Vec<String> = Vec::new();
        let mut i: usize = 0;
        while i < n
            invariant
                n == self.entries@.len(),
                0 <= i <= n,
                r@.len() == i,
                forall|j: int| 0 <= j < i ==> r@[j]@ == self.entries@[j].0@,
            decreases n - i,
        {
            r.push(self.entries[i].0.clone());
            i += 1;
        }
        proof {
            let s = self.entries@;
            assert forall|q: Seq<char>| str_views(r@).contains(q) == self@.dom().contains(q) by {
                if str_views(r@).contains(q) {
                    let j = choose|j: int| 0 <= j < r@.len() && r@[j]@ == q;
                    assert(s[j].0@ == q);
                }
                if has_name(s, q) {
                    let j = choose|j: int| 0 <= j < s.len() && s[j].0@ == q;
                    assert(r@[j]@ == q);
                }
            }
            assert(str_views(r@) =~= self@.dom());
        }
        r
    }

    /// Record `version` for `package`, creating the package's set if it is
    /// absent; recording a version twice leaves the set unchanged.
    pub fn insert_version(&mut self, package: &str, version: &str)
        requires
            old(self).wf(),
        ensures
            final(self).wf(),
            final(self)@ == old(self)@.insert(
                package@,
                versions_or_empty(old(self)@, package@).insert(version@),
            ),
    {
        let ghost s0 = self.entries@;
        match self.find_entry(package) {
            Some(i) => {
                let ghost iv = i as int;
                if !vec_contains_str(&self.entries[i].1, version) {
                    let entry = &mut self.entries[i];
                    entry.1.push(version.to_owned());
                    proof {
                        let s1 = self.entries@;
                        assert(s1 =~= s0.update(iv, (s0[iv].0, s1[iv].1)));
                        assert(s1[iv].1@ =~= s0[iv].1@.push(s1[iv].1@.last()));
                        lemma_insert_existing(s0, s1, iv, package@, version@);
                    }
                } else {
                    proof {
                        lemma_versions_of_at(s0, iv);
                        assert(versions_of(s0, package@).contains(version@));
                        assert(self@ =~~= old(self)@.insert(
                            package@,
                            versions_or_empty(old(self)@, package@).insert(version@),
                        ));
                    }
                }
            },
            None => {
                let mut vs: Vec<String> = Vec::new();
                vs.push(version.to_owned());
                self.entries.push((package.to_owned(), vs));
                proof {
                    lemma_insert_fresh(s0, self.entries@, package@, version@);
                }
            },
        }
    }
}

/// Appending a fresh version to the entry named `p` at `i` adds that
/// version to the set of `p` and changes nothing else.
proof fn lemma_insert_existing(
    s0: Seq<(String, Vec<String>)>,
    s1: Seq<(String, Vec<String>)>,
    i: int,
    p: Seq<char>,
    v: Seq<char>,
)
    requires
        entries_wf(s0),
        0 <= i < s0.len(),
        s0[i].0@ == p,
        !str_views(s0[i].1@).contains(v),
        s1.len() == s0.len(),
        forall|k: int| 0 <= k < s0.len() && k != i ==> s1[k] == s0[k],
        s1[i].0 == s0[i].0,
        s1[i].1@.len() == s0[i].1@.len() + 1,
        forall|j: int| 0 <= j < s0[i].1@.len() ==> s1[i].1@[j] == s0[i].1@[j],
        s1[i].1@.last()@ == v,
    ensures
        entries_wf(s1),
        pv_map(s1) =~~= pv_map(s0).insert(p, versions_or_empty(pv_map(s0), p).insert(v)),
{
    assert(forall|k: int| 0 <= k < s1.len() ==> s1[k].0@ == s0[k].0@);
    assert forall|k: int| 0 <= k < s1.len() implies distinct_views(#[trigger] s1[k].1@) by {
        if k != i {
            assert(s1[k].1@ == s0[k].1@);
        } else {
            assert forall|a: int, b: int| 0 <= a < b < s1[i].1@.len() implies s1[i].1@[a]@
                != s1[i].1@[b]@ by {
                if b < s0[i].1@.len() {
                    assert(distinct_views(s0[i].1@));
                } else {
                    assert(s1[i].1@[b]@ == v);
                    assert(s1[i].1@[a] == s0[i].1@[a]);
                    assert(str_views(s0[i].1@).contains(s0[i].1@[a]@));
                }
            }
        }
    }
    assert(has_name(s0, p));
    let rhs = pv_map(s0).insert(p, versions_or_empty(pv_map(s0), p).insert(v));
    assert forall|q: Seq<char>| pv_map(s1).contains_key(q) == rhs.contains_key(q) by {
        assert(has_name(s1, q) == has_name(s0, q)) by {
            if has_name(s1, q) {
                let k = choose|k: int| 0 <= k < s1.len() && s1[k].0@ == q;
                assert(s0[k].0@ == q);
            }
            if has_name(s0, q) {
                let k = choose|k: int| 0 <= k < s0.len() && s0[k].0@ == q;
                assert(s1[k].0@ == q);
            }
        }
    }
    assert forall|q: Seq<char>| pv_map(s1).contains_key(q) implies pv_map(s1)[q] =~= rhs[q] by {
        if q != p {
            assert forall|w: Seq<char>| versions_of(s1, q).contains(w) implies versions_of(
                s0,
                q,
            ).contains(w) by {
                let (k, j) = choose|k: int, j: int|
                    0 <= k < s1.len() && s1[k].0@ == q && 0 <= j < s1[k].1@.len() && s1[k].1@[j]@
                        == w;
                assert(k != i);
                assert(s0[k] == s1[k]);
            }
            assert forall|w: Seq<char>| versions_of(s0, q).contains(w) implies versions_of(
                s1,
                q,
            ).contains(w) by {
                let (k, j) = choose|k: int, j: int|
                    0 <= k < s0.len() && s0[k].0@ == q && 0 <= j < s0[k].1@.len() && s0[k].1@[j]@
                        == w;
                assert(k != i);
                assert(s1[k] == s0[k]);
            }
        } else {
            assert forall|w: Seq<char>| versions_of(s1, p).contains(w) implies versions_of(
                s0,
                p,
            ).insert(v).contains(w) by {
                let (k, j) = choose|k: int, j: int|
                    0 <= k < s1.len() && s1[k].0@ == p && 0 <= j < s1[k].1@.len() && s1[k].1@[j]@
                        == w;
                if k != i {
                    assert(s0[k] == s1[k]);
                    assert(versions_of(s0, p).contains(w));
                } else if j < s0[i].1@.len() {
                    assert(s0[i].1@[j] == s1[i].1@[j]);
                    assert(versions_of(s0, p).contains(w));
                } else {
                    assert(w == v);
                }
            }
            assert forall|w: Seq<char>| versions_of(s0, p).insert(v).contains(w) implies versions_of(
                s1,
                p,
            ).contains(w) by {
                if versions_of(s0, p).contains(w) {
                    let (k, j) = choose|k: int, j: int|
                        0 <= k < s0.len() && s0[k].0@ == p && 0 <= j < s0[k].1@.len()
                            && s0[k].1@[j]@ == w;
                    if k != i {
                        assert(s1[k] == s0[k]);
                        assert(s1[k].0@ == p && s1[k].1@[j]@ == w);
                    } else {
                        assert(s1[i].1@[j] == s0[i].1@[j]);
                    }
                } else {
                    assert(w == v);
                    let j = s1[i].1@.len() - 1;
                    assert(s1[i].0@ == p && s1[i].1@[j]@ == v);
                }
            }
        }
    }
    assert(pv_map(s1) =~~= rhs);
}

/// Pushing a new entry for an absent name `p` with the single version `v`
/// adds the binding `p -> {v}` and changes nothing else.
proof fn lemma_insert_fresh(
    s0: Seq<(String, Vec<String>)>,
    s1: Seq<(String, Vec<String>)>,
    p: Seq<char>,
    v: Seq<char>,
)
    requires
        entries_wf(s0),
        !has_name(s0, p),
        s1.len() == s0.len() + 1,
        forall|k: int| 0 <= k < s0.len() ==> s1[k] == s0[k],
        s1.last().0@ == p,
        s1.last().1@.len() == 1,
        s1.last().1@[0]@ == v,
    ensures
        entries_wf(s1),
        pv_map(s1) =~~= pv_map(s0).insert(p, Set::<Seq<char>>::empty().insert(v)),
{
    let n = s0.len() as int;
    assert(forall|k: int| 0 <= k < s0.len() ==> s0[k].0@ != p);
    assert forall|a: int, b: int| 0 <= a < b < s1.len() implies s1[a].0@ != s1[b].0@ by {
        if b < n {
            assert(s1[a] == s0[a] && s1[b] == s0[b]);
        } else {
            assert(s1[a] == s0[a]);
            assert(s1[b].0@ == p);
        }
    }
    assert forall|k: int| 0 <= k < s1.len() implies distinct_views(#[trigger] s1[k].1@) by {
        if k < n {
            assert(s1[k] == s0[k]);
        }
    }
    let rhs = pv_map(s0).insert(p, Set::<Seq<char>>::empty().insert(v));
    assert forall|q: Seq<char>| pv_map(s1).contains_key(q) == rhs.contains_key(q) by {
        if has_name(s1, q) && q != p {
            let k = choose|k: int| 0 <= k < s1.len() && s1[k].0@ == q;
            assert(k < n);
            assert(s0[k].0@ == q);
        }
        if has_name(s0, q) {
            let k = choose|k: int| 0 <= k < s0.len() && s0[k].0@ == q;
            assert(s1[k].0@ == q);
        }
        assert(s1[n].0@ == p);
    }
    assert forall|q: Seq<char>| pv_map(s1).contains_key(q) implies pv_map(s1)[q] =~= rhs[q] by {
        if q != p {
            assert forall|w: Seq<char>| versions_of(s1, q).contains(w) implies versions_of(
                s0,
                q,
            ).contains(w) by {
                let (k, j) = choose|k: int, j: int|
                    0 <= k < s1.len() && s1[k].0@ == q && 0 <= j < s1[k].1@.len() && s1[k].1@[j]@
                        == w;
                assert(k < n);
                assert(s0[k] == s1[k]);
            }
            assert forall|w: Seq<char>| versions_of(s0, q).contains(w) implies versions_of(
                s1,
                q,
            ).contains(w) by {
                let (k, j) = choose|k: int, j: int|
                    0 <= k < s0.len() && s0[k].0@ == q && 0 <= j < s0[k].1@.len() && s0[k].1@[j]@
                        == w;
                assert(s1[k] == s0[k]);
            }
        } else {
            assert forall|w: Seq<char>| versions_of(s1, p).contains(w) implies Set::<
                Seq<char>,
            >::empty().insert(v).contains(w) by {
                let (k, j) = choose|k: int, j: int|
                    0 <= k < s1.len() && s1[k].0@ == p && 0 <= j < s1[k].1@.len() && s1[k].1@[j]@
                        == w;
                assert(k == n);
                assert(j == 0);
                assert(w == v);
            }
            assert(s1[n].0@ == p && s1[n].1@[0]@ == v);
            assert(versions_of(s1, p).contains(v));
        }
    }
    assert(pv_map(s1) =~~= rhs);
}

/// A set of package names: the result of diffing two version maps. No
/// ordering is guaranteed; a name is held at most once.
#[derive(Debug)]
pub struct ChangeSet {
    names: Vec<String>,
}

impl View for ChangeSet {
    type V = Set<Seq<char>>;

    closed spec fn view(&self) -> Set<Seq<char>> {
        str_views(self.names@)
    }
}

impl ChangeSet {
    /// The structural invariant of the representation.
    pub closed spec fn wf(&self) -> bool {
        distinct_views(self.names@)
    }

    /// An empty set.
    pub fn new() -> (r: ChangeSet)
        ensures
            r.wf(),
            r@ == Set::<Seq<char>>::empty(),
    {
        let r = ChangeSet { names: Vec::new() };
        proof {
            assert(r@ =~= Set::<Seq<char>>::empty());
        }
        r
    }

    /// Add `name` to the set; adding a held name changes nothing.
    pub fn insert(&mut self, name: &str)
        requires
            old(self).wf(),
        ensures
            final(self).wf(),
            final(self)@ == old(self)@.insert(name@),
    {
        let ghost s0 = self.names@;
        if !vec_contains_str(&self.names, name) {
            self.names.push(name.to_owned());
            proof {
                assert forall|a: int, b: int| 0 <= a < b < self.names@.len() implies self.names@[a]@
                    != self.names@[b]@ by {
                    if b < s0.len() {
                        assert(distinct_views(s0));
                    } else {
                        assert(str_views(s0).contains(s0[a]@));
                    }
                }
                assert forall|w: Seq<char>|
                    str_views(self.names@).contains(w) == str_views(s0).insert(name@).contains(
                        w,
                    ) by {
                    if str_views(self.names@).contains(w) {
                        let k = choose|k: int| 0 <= k < self.names@.len() && self.names@[k]@ == w;
                        if k < s0.len() {
                            assert(str_views(s0).contains(w));
                        }
                    }
                    if str_views(s0).contains(w) {
                        let k = choose|k: int| 0 <= k < s0.len() && s0[k]@ == w;
                        assert(self.names@[k]@ == w);
                    }
                    if w == name@ {
                        assert(self.names@[s0.len() as int]@ == w);
                    }
                }
                assert(self@ =~= old(self)@.insert(name@));
            }
        } else {
            proof {
                assert(self@ =~= old(self)@.insert(name@));
            }
        }
    }

    /// Whether `name` is in the set.
    pub fn contains(&self, name: &str) -> (b: bool)
        ensures
            b == self@.contains(name@),
    {
        vec_contains_str(&self.names, name)
    }

    /// How many names the set holds.
    pub fn len(&self) -> (n: usize)
        requires
            self.wf(),
        ensures
            n == self@.len(),
    {
        proof {
            lemma_str_views_len(self.names@);
        }
        self.names.len()
    }

    /// The names, each exactly once, in no guaranteed order.
    pub fn name_list(&self) -> (r: &Vec<String>)
        requires
            self.wf(),
        ensures
            distinct_views(r@),
            str_views(r@) == self@,
    {
        &self.names
    }
}

} // verus!
