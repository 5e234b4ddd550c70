//! The version-map differ.
//!
//! [`diff_package_versions`] compares two [`PackageVersions`] maps and
//! returns the set of package names whose version sets differ: a name
//! belongs to the result exactly when it is present in only one map, or in
//! both with version sets that are not equal as sets. It is total over any
//! two maps, including empty ones.

use crate::strutil::{distinct_views, lemma_str_views_take_step, str_views, vec_contains_str};
use crate::version_map::{ChangeSet, PackageVersions};
use vstd::prelude::*;

verus! {

/// The package `p` changed between `a` and `b`: it is present in exactly
/// one of them, or in both with different version sets.
pub open spec fn changed(
    a: Map<Seq<char>, Set<Seq<char>>>,
    b: Map<Seq<char>, Set<Seq<char>>>,
    p: Seq<char>,
) -> bool {
    &&& a.contains_key(p) || b.contains_key(p)
    &&& !(a.contains_key(p) && b.contains_key(p) && a[p] == b[p])
}

/// The set of package names that changed between `a` and `b`.
pub open spec fn diff_spec(
    a: Map<Seq<char>, Set<Seq<char>>>,
    b: Map<Seq<char>, Set<Seq<char>>>,
) -> Set<Seq<char>> {
    Set::new(|p: Seq<char>| changed(a, b, p))
}

/// Diffing any map against itself yields the empty set: a package is
/// reported only when its version set actually moved.
pub proof fn lemma_diff_no_change(m: Map<Seq<char>, Set<Seq<char>>>)
    ensures
        diff_spec(m, m) =~= Set::<Seq<char>>::empty(),
{
    assert forall|p: Seq<char>| !diff_spec(m, m).contains(p) by {
        assert(!changed(m, m, p));
    }
}

/// Whether two vectors of strings denote the same set of character
/// sequences.
fn same_string_sets(x: &Vec<String>, y: &Vec<String>) -> (r: bool)
    ensures
        r == (str_views(x@) == str_views(y@)),
{
    let nx: usize = x.len();
    let mut i: usize = 0;
    while i < nx
        invariant
            nx == x@.len(),
            0 <= i <= nx,
            forall|j: int| 0 <= j < i ==> str_views(y@).contains(#[trigger] x@[j]@),
        decreases nx - i,
    {
        if !vec_contains_str(y, x[i].as_str()) {
            proof {
                assert(str_views(x@).contains(x@[i as int]@));
                if str_views(x@) == str_views(y@) {
                    assert(str_views(y@).contains(x@[i as int]@));
                }
            }
            return false;
        }
        i += 1;
    }
    let ny: usize = y.len();
    let mut j: usize = 0;
    while j < ny
        invariant
            nx == x@.len(),
            ny == y@.len(),
            0 <= j <= ny,
            forall|k: int| 0 <= k < nx ==> str_views(y@).contains(#[trigger] x@[k]@),
            forall|k: int| 0 <= k < j ==> str_views(x@).contains(#[trigger] y@[k]@),
        decreases ny - j,
    {
        if !vec_contains_str(x, y[j].as_str()) {
            proof {
                assert(str_views(y@).contains(y@[j as int]@));
                if str_views(x@) == str_views(y@) {
                    assert(str_views(x@).contains(y@[j as int]@));
                }
            }
            return false;
        }
        j += 1;
    }
    proof {
        assert forall|w: Seq<char>| str_views(x@).contains(w) == str_views(y@).contains(w) by {
            if str_views(x@).contains(w) {
                let k = choose|k: int| 0 <= k < x@.len() && x@[k]@ == w;
                assert(str_views(y@).contains(x@[k]@));
            }
            if str_views(y@).contains(w) {
                let k = choose|k: int| 0 <= k < y@.len() && y@[k]@ == w;
                assert(str_views(x@).contains(y@[k]@));
            }
        }
        assert(str_views(x@) =~= str_views(y@));
    }
    true
}

/// Compare two package-version maps and return the set of package names
/// whose version sets differ — added, removed, or changed between `a` and
/// `b`.
pub fn diff_package_versions(a: &PackageVersions, b: &PackageVersions) -> (r: ChangeSet)
    requires
        a.wf(),
        b.wf(),
    ensures
        r.wf(),
        r@ == diff_spec(a@, b@),
{
    let ghost d = diff_spec(a@, b@);
    let mut r = ChangeSet::new();
    proof {
        assert(r@ =~= d.intersect(str_views(Seq::<String>::empty())));
    }
    let a_names = a.package_names();
    let na: usize = a_names.len();
    let mut i: usize = 0;
    while i < na
        invariant
            a.wf(),
            b.wf(),
            r.wf(),
            na == a_names@.len(),
            0 <= i <= na,
            distinct_views(a_names@),
            str_views(a_names@) == a@.dom(),
            d == diff_spec(a@, b@),
            r@ == d.intersect(str_views(a_names@.take(i as int))),
        decreases na - i,
    {
        let ghost r0 = r@;
        let ghost iv = i as int;
        let name: &String = &a_names[i];
        proof {
            assert(str_views(a_names@).contains(a_names@[iv]@));
            assert(a@.contains_key(name@));
        }
        let name_changed: bool = match a.versions(name.as_str()) {
            Some(va) => match b.versions(name.as_str()) {
                Some(vb) => !same_string_sets(va, vb),
                None => true,
            },
            None => {
                proof {
                    assert(false);
                }
                true
            },
        };
        if name_changed {
            r.insert(name.as_str());
        }
        proof {
            assert(name_changed == changed(a@, b@, name@));
            lemma_str_views_take_step(a_names@, iv);
            if name_changed {
                assert(r@ =~= d.intersect(str_views(a_names@.take(iv + 1)))) by {
                    assert(r@ == r0.insert(name@));
                    assert(d.contains(name@));
                }
            } else {
                assert(r@ =~= d.intersect(str_views(a_names@.take(iv + 1)))) by {
                    assert(!d.contains(name@));
                }
            }
        }
        i += 1;
    }
    proof {
        assert(a_names@.take(na as int) =~= a_names@);
    }
    let b_names = b.package_names();
    let nb: usize = b_names.len();
    let mut j: usize = 0;
    while j < nb
        invariant
            a.wf(),
            b.wf(),
            r.wf(),
            nb == b_names@.len(),
            0 <= j <= nb,
            distinct_views(b_names@),
            str_views(b_names@) == b@.dom(),
            d == diff_spec(a@, b@),
            r@ == d.intersect(a@.dom().union(str_views(b_names@.take(j as int)))),
        decreases nb - j,
    {
        let ghost r0 = r@;
        let ghost jv = j as int;
        let name: &String = &b_names[j];
        proof {
            assert(str_views(b_names@).contains(b_names@[jv]@));
            assert(b@.contains_key(name@));
        }
        let in_a = a.contains_package(name.as_str());
        if !in_a {
            r.insert(name.as_str());
        }
        proof {
            lemma_str_views_take_step(b_names@, jv);
            if in_a {
                assert(r@ =~= d.intersect(a@.dom().union(str_views(b_names@.take(jv + 1)))));
            } else {
                assert(changed(a@, b@, name@));
                assert(r@ =~= d.intersect(a@.dom().union(str_views(b_names@.take(jv + 1))))) by {
                    assert(r@ == r0.insert(name@));
                    assert(d.contains(name@));
                }
            }
        }
        j += 1;
    }
    proof {
        assert(b_names@.take(nb as int) =~= b_names@);
        assert forall|p: Seq<char>| d.contains(p) implies a@.dom().union(b@.dom()).contains(p) by {
            assert(changed(a@, b@, p));
        }
        assert(r@ =~= d);
    }
    r
}

/// The packages whose version sets differ between the previous map and
/// the current one.
pub fn get_changed_packages(
    package_versions: &PackageVersions,
    prev_package_versions: &PackageVersions,
) -> (r: ChangeSet)
    requires
        package_versions.wf(),
        prev_package_versions.wf(),
    ensures
        r.wf(),
        r@ == diff_spec(prev_package_versions@, package_versions@),
{
    diff_package_versions(prev_package_versions, package_versions)
}

} // verus!
