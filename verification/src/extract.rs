//! The lockfile extractor.
//!
//! A lockfile is a YAML mapping from entry keys to records, each record
//! carrying at least a `version` string. [`extract_yarn_metadata`] parses
//! that text and folds it into a [`PackageVersions`] map, skipping the
//! `__metadata` header record and every record resolved to the local
//! workspace (version `0.0.0-use.local`). [`get_packages`] wraps it into a
//! total function that also rejects, instead of assuming away, keys in
//! which the `@npm:` separator never occurs.

use crate::selector::{has_sep, package_of, selector_package};
use crate::strutil::str_eq;
use crate::version_map::{versions_or_empty, PackageVersions};
use vstd::prelude::*;

verus! {

/// The reserved top-level key of the lockfile-format header record.
pub open spec fn metadata_key() -> Seq<char> {
    "__metadata"@
}

/// The reserved version string meaning "resolved to an in-repo package".
pub open spec fn local_version() -> Seq<char> {
    "0.0.0-use.local"@
}

/// The view of an optional string.
pub open spec fn opt_view(o: Option<String>) -> Option<Seq<char>> {
    match o {
        Some(s) => Some(s@),
        None => None,
    }
}

/// What parsing a lockfile text yields: `None` when the text is not a
/// well-formed mapping from string keys to records, and otherwise the
/// mapping from each entry key to its `version` string (`None` for a
/// record whose `version` field is missing or not a string).
pub uninterp spec fn lock_parse(text: Seq<char>) -> Option<Map<Seq<char>, Option<Seq<char>>>>;

/// Relies on `serde_yaml::from_str`: deserializes the text as a YAML
/// mapping from string keys to mappings of fields, keeping of each record
/// only its `version` field when that field is a string. The outcome is a
/// function of the text alone; the order of the returned pairs is not, so
/// nothing is said of it.
#[verifier::external_body]
fn parse_lock_entries(text: &str) -> (r: Result<Vec<(String, Option<String>)>, String>)
    ensures
        match r {
            Ok(entries) => {
                &&& lock_parse(text@) matches Some(m)
                &&& forall|i: int|
                    0 <= i < entries@.len() ==> m.contains_key(#[trigger] entries@[i].0@)
                        && m[entries@[i].0@] == opt_view(entries@[i].1)
                &&& forall|i: int, j: int|
                    0 <= i < j < entries@.len() ==> entries@[i].0@ != entries@[j].0@
                &&& forall|k: Seq<char>| #[trigger]
                    m.contains_key(k) ==> exists|i: int|
                        0 <= i < entries@.len() && entries@[i].0@ == k
            },
            Err(_) => lock_parse(text@) is None,
        },
{
    match serde_yaml::from_str::<
        std::collections::HashMap<String, std::collections::HashMap<String, serde_yaml::Value>>,
    >(text) {
        Ok(m) => Ok(m.into_iter().map(|(k, mut f)| match f.remove("version") {
            Some(serde_yaml::Value::String(s)) => (k, Some(s)),
            _ => (k, None),
        }).collect()),
        Err(e) => Err(format!("{}", e)),
    }
}

/// The entry keyed `k` with version field `ov` contributes to the result:
/// it is not the metadata header and its version is present and not the
/// local-workspace sentinel.
pub open spec fn entry_included(k: Seq<char>, ov: Option<Seq<char>>) -> bool {
    &&& k != metadata_key()
    &&& ov matches Some(v) && v != local_version()
}

/// Every record other than the metadata header carries a version string.
pub open spec fn versions_ok(m: Map<Seq<char>, Option<Seq<char>>>) -> bool {
    forall|k: Seq<char>|
        #[trigger] m.contains_key(k) && k != metadata_key() ==> m[k] is Some
}

/// The separator occurs in every key that contributes to the result.
pub open spec fn keys_ok(m: Map<Seq<char>, Option<Seq<char>>>) -> bool {
    forall|k: Seq<char>|
        #[trigger] m.contains_key(k) && entry_included(k, m[k]) ==> has_sep(k)
}

/// The key `k` of `m` contributes the package name `p`.
pub open spec fn lock_included_at(
    m: Map<Seq<char>, Option<Seq<char>>>,
    k: Seq<char>,
    p: Seq<char>,
) -> bool {
    m.contains_key(k) && entry_included(k, m[k]) && package_of(k) == p
}

/// The package-version map denoted by a parsed lockfile mapping: a package
/// name is bound exactly when some contributing key selects it, to the set
/// of the versions of all such keys.
pub open spec fn extract_map(m: Map<Seq<char>, Option<Seq<char>>>) -> Map<
    Seq<char>,
    Set<Seq<char>>,
> {
    Map::new(
        |p: Seq<char>| exists|k: Seq<char>| lock_included_at(m, k, p),
        |p: Seq<char>|
            Set::new(
                |v: Seq<char>|
                    exists|k: Seq<char>| #[trigger] lock_included_at(m, k, p) && m[k] == Some(v),
            ),
    )
}

/// The entry at `i` of the parsed entry list contributes the package `p`.
pub open spec fn included_at(es: Seq<(String, Option<String>)>, i: int, p: Seq<char>) -> bool {
    &&& 0 <= i < es.len()
    &&& entry_included(es[i].0@, opt_view(es[i].1))
    &&& package_of(es[i].0@) == p
}

/// The package-version map denoted by a list of (key, version) entries.
pub open spec fn extract_entries(es: Seq<(String, Option<String>)>) -> Map<
    Seq<char>,
    Set<Seq<char>>,
> {
    Map::new(
        |p: Seq<char>| exists|i: int| included_at(es, i, p),
        |p: Seq<char>|
            Set::new(
                |v: Seq<char>|
                    exists|i: int| #[trigger] included_at(es, i, p) && opt_view(es[i].1) == Some(
                        v,
                    ),
            ),
    )
}

/// Taking one more non-contributing entry leaves the denoted map as it
/// was.
proof fn lemma_extract_step_skip(es: Seq<(String, Option<String>)>, i: int)
    requires
        0 <= i < es.len(),
        !entry_included(es[i].0@, opt_view(es[i].1)),
    ensures
        extract_entries(es.take(i + 1)) =~~= extract_entries(es.take(i)),
{
    let pre = es.take(i);
    let post = es.take(i + 1);
    assert forall|p: Seq<char>, j: int| included_at(post, j, p) implies included_at(pre, j, p) by {
        assert(post[j] == es[j]);
        if j == i {
            assert(!entry_included(es[i].0@, opt_view(es[i].1)));
        }
        assert(j < i);
        assert(pre[j] == es[j]);
    }
    assert(forall|p: Seq<char>, j: int| included_at(pre, j, p) ==> included_at(post, j, p));
}

/// Taking one more contributing entry adds its version to the set of its
/// package.
proof fn lemma_extract_step_add(es: Seq<(String, Option<String>)>, i: int, p: Seq<char>, v: Seq<char>)
    requires
        0 <= i < es.len(),
        entry_included(es[i].0@, opt_view(es[i].1)),
        package_of(es[i].0@) == p,
        opt_view(es[i].1) == Some(v),
    ensures
        extract_entries(es.take(i + 1)) =~~= extract_entries(es.take(i)).insert(
            p,
            versions_or_empty(extract_entries(es.take(i)), p).insert(v),
        ),
{
    let pre = es.take(i);
    let post = es.take(i + 1);
    let lhs = extract_entries(post);
    let rhs = extract_entries(pre).insert(p, versions_or_empty(extract_entries(pre), p).insert(v));
    assert(included_at(post, i, p)) by {
        assert(post[i] == es[i]);
    }
    assert forall|q: Seq<char>| lhs.contains_key(q) == rhs.contains_key(q) by {
        if exists|j: int| included_at(post, j, q) {
            let j = choose|j: int| included_at(post, j, q);
            assert(post[j] == es[j]);
            if j < i {
                assert(pre[j] == es[j]);
                assert(included_at(pre, j, q));
            } else {
                assert(q == p);
            }
        }
        if exists|j: int| included_at(pre, j, q) {
            let j = choose|j: int| included_at(pre, j, q);
            assert(pre[j] == es[j] && post[j] == es[j]);
            assert(included_at(post, j, q));
        }
    }
    assert forall|q: Seq<char>| lhs.contains_key(q) implies lhs[q] =~= rhs[q] by {
        if q != p {
            assert forall|w: Seq<char>| lhs[q].contains(w) == extract_entries(pre)[q].contains(
                w,
            ) by {
                if exists|j: int| included_at(post, j, q) && opt_view(post[j].1) == Some(w) {
                    let j = choose|j: int| included_at(post, j, q) && opt_view(post[j].1) == Some(w);
                    assert(post[j] == es[j]);
                    assert(j != i);
                    assert(pre[j] == es[j]);
                    assert(included_at(pre, j, q) && opt_view(pre[j].1) == Some(w));
                }
                if exists|j: int| included_at(pre, j, q) && opt_view(pre[j].1) == Some(w) {
                    let j = choose|j: int| included_at(pre, j, q) && opt_view(pre[j].1) == Some(w);
                    assert(pre[j] == es[j] && post[j] == es[j]);
                    assert(included_at(post, j, q) && opt_view(post[j].1) == Some(w));
                }
            }
        } else {
            assert forall|w: Seq<char>| lhs[p].contains(w) == rhs[p].contains(w) by {
                if exists|j: int| included_at(post, j, p) && opt_view(post[j].1) == Some(w) {
                    let j = choose|j: int| included_at(post, j, p) && opt_view(post[j].1) == Some(w);
                    assert(post[j] == es[j]);
                    if j < i {
                        assert(pre[j] == es[j]);
                        assert(included_at(pre, j, p) && opt_view(pre[j].1) == Some(w));
                        assert(extract_entries(pre).contains_key(p));
                        assert(versions_or_empty(extract_entries(pre), p).contains(w));
                    } else {
                        assert(w == v);
                    }
                    assert(rhs[p].contains(w));
                }
                if rhs[p].contains(w) {
                    if w == v {
                        assert(included_at(post, i, p) && opt_view(post[i].1) == Some(w)) by {
                            assert(post[i] == es[i]);
                        }
                    } else {
                        assert(versions_or_empty(extract_entries(pre), p).contains(w));
                        assert(extract_entries(pre).contains_key(p));
                        let j = choose|j: int|
                            included_at(pre, j, p) && opt_view(pre[j].1) == Some(w);
                        assert(pre[j] == es[j] && post[j] == es[j]);
                        assert(included_at(post, j, p) && opt_view(post[j].1) == Some(w));
                    }
                    assert(lhs[p].contains(w));
                }
            }
        }
    }
    assert(lhs =~~= rhs);
}

/// An entry list that corresponds pointwise to a parsed mapping denotes
/// the same package-version map.
proof fn lemma_entries_match_map(
    es: Seq<(String, Option<String>)>,
    m: Map<Seq<char>, Option<Seq<char>>>,
)
    requires
        forall|i: int|
            0 <= i < es.len() ==> m.contains_key(#[trigger] es[i].0@) && m[es[i].0@] == opt_view(
                es[i].1,
            ),
        forall|k: Seq<char>| #[trigger]
            m.contains_key(k) ==> exists|i: int| 0 <= i < es.len() && es[i].0@ == k,
    ensures
        extract_entries(es) =~~= extract_map(m),
{
    assert forall|p: Seq<char>|
        extract_entries(es).contains_key(p) == extract_map(m).contains_key(p) by {
        if exists|i: int| included_at(es, i, p) {
            let i = choose|i: int| included_at(es, i, p);
            assert(lock_included_at(m, es[i].0@, p));
        }
        if exists|k: Seq<char>| lock_included_at(m, k, p) {
            let k = choose|k: Seq<char>| lock_included_at(m, k, p);
            let i = choose|i: int| 0 <= i < es.len() && es[i].0@ == k;
            assert(included_at(es, i, p));
        }
    }
    assert forall|p: Seq<char>| extract_entries(es).contains_key(p) implies extract_entries(es)[p]
        =~= extract_map(m)[p] by {
        assert forall|w: Seq<char>|
            extract_entries(es)[p].contains(w) == extract_map(m)[p].contains(w) by {
            if exists|i: int| included_at(es, i, p) && opt_view(es[i].1) == Some(w) {
                let i = choose|i: int| included_at(es, i, p) && opt_view(es[i].1) == Some(w);
                assert(lock_included_at(m, es[i].0@, p) && m[es[i].0@] == Some(w));
            }
            if exists|k: Seq<char>| #[trigger] lock_included_at(m, k, p) && m[k] == Some(w) {
                let k = choose|k: Seq<char>| lock_included_at(m, k, p) && m[k] == Some(w);
                let i = choose|i: int| 0 <= i < es.len() && es[i].0@ == k;
                assert(included_at(es, i, p) && opt_view(es[i].1) == Some(w));
            }
        }
    }
    assert(extract_entries(es) =~~= extract_map(m));
}

/// The parse failed: either the text is not a well-formed mapping of
/// records (`Syntax`, with the parser's message), or some record other
/// than the metadata header has no version string (`MissingVersion`, with
/// the record's key).
#[derive(Debug)]
pub enum ParseError {
    Syntax(String),
    MissingVersion(String),
}

/// Parse lockfile text into the map from package name to the set of
/// versions resolved for it.
///
/// Every entry of the parsed mapping contributes its version to the set of
/// the package its key selects, except the metadata header and entries
/// resolved to the local workspace. A key in which the separator never
/// occurs would break the selector grammar this function assumes of its
/// input; [`get_packages`] checks that assumption at runtime instead.
pub fn extract_yarn_metadata(text: &str) -> (r: Result<PackageVersions, ParseError>)
    requires
        lock_parse(text@) matches Some(m) ==> keys_ok(m),
    ensures
        match r {
            Ok(pv) => {
                &&& pv.wf()
                &&& lock_parse(text@) matches Some(m)
                &&& versions_ok(m)
                &&& pv@ == extract_map(m)
            },
            Err(e) => match e {
                ParseError::Syntax(_) => lock_parse(text@) is None,
                ParseError::MissingVersion(_) => {
                    &&& lock_parse(text@) matches Some(m)
                    &&& !versions_ok(m)
                },
            },
        },
{
    let entries = match parse_lock_entries(text) {
        Ok(es) => es,
        Err(cause) => {
            return Err(ParseError::Syntax(cause));
        },
    };
    let ghost m = lock_parse(text@)->0;
    let mut pv = PackageVersions::new();
    proof {
        assert(pv@ =~~= extract_entries(entries@.take(0)));
    }
    let n: usize = entries.len();
    let mut i: usize = 0;
    while i < n
        invariant
            n == entries@.len(),
            0 <= i <= n,
            pv.wf(),
            pv@ == extract_entries(entries@.take(i as int)),
            lock_parse(text@) == Some(m),
            keys_ok(m),
            forall|j: int|
                0 <= j < entries@.len() ==> m.contains_key(#[trigger] entries@[j].0@)
                    && m[entries@[j].0@] == opt_view(entries@[j].1),
            forall|k: Seq<char>| #[trigger]
                m.contains_key(k) ==> exists|j: int|
                    0 <= j < entries@.len() && entries@[j].0@ == k,
            forall|j: int|
                0 <= j < i ==> entries@[j].0@ == metadata_key() || entries@[j].1 is Some,
        decreases n - i,
    {
        let ghost es = entries@;
        let ghost iv = i as int;
        let is_meta = str_eq(entries[i].0.as_str(), "__metadata");
        if is_meta {
            proof {
                lemma_extract_step_skip(es, iv);
            }
        } else {
            match &entries[i].1 {
                None => {
                    proof {
                        assert(m.contains_key(es[iv].0@));
                        assert(m[es[iv].0@] is None);
                    }
                    return Err(ParseError::MissingVersion(entries[i].0.clone()));
                },
                Some(ver) => {
                    if str_eq(ver.as_str(), "0.0.0-use.local") {
                        proof {
                            lemma_extract_step_skip(es, iv);
                        }
                    } else {
                        match selector_package(entries[i].0.as_str()) {
                            Some(p) => {
                                pv.insert_version(p.as_str(), ver.as_str());
                                proof {
                                    lemma_extract_step_add(es, iv, p@, ver@);
                                }
                            },
                            None => {
                                proof {
                                    assert(m.contains_key(es[iv].0@));
                                    assert(entry_included(es[iv].0@, m[es[iv].0@]));
                                    assert(has_sep(es[iv].0@));
                                    assert(false);
                                }
                            },
                        }
                    }
                },
            }
        }
        i += 1;
    }
    proof {
        assert(entries@.take(n as int) =~= entries@);
        assert forall|k: Seq<char>| #[trigger]
            m.contains_key(k) && k != metadata_key() implies m[k] is Some by {
            let j = choose|j: int| 0 <= j < entries@.len() && entries@[j].0@ == k;
            assert(entries@[j].0@ == metadata_key() || entries@[j].1 is Some);
        }
        lemma_entries_match_map(entries@, m);
    }
    Ok(pv)
}

/// The lockfile could not be turned into a package-version map: the parse
/// failed, or the key of a contributing entry is malformed — the `@npm:`
/// separator never occurs in it, so no package name can be derived. A
/// malformed key breaks an invariant of the selector grammar rather than
/// marking bad user input, so it is reported as its own loud condition,
/// never skipped.
#[derive(Debug)]
pub enum LockfileError {
    Parse(ParseError),
    MalformedKey(String),
}

/// Parse lockfile text into the map from package name to the set of
/// versions resolved for it, checking the selector grammar of every
/// contributing key instead of assuming it.
pub fn get_packages(text: &str) -> (r: Result<PackageVersions, LockfileError>)
    ensures
        match r {
            Ok(pv) => {
                &&& pv.wf()
                &&& lock_parse(text@) matches Some(m)
                &&& versions_ok(m)
                &&& keys_ok(m)
                &&& pv@ == extract_map(m)
            },
            Err(e) => match e {
                LockfileError::Parse(ParseError::Syntax(_)) => lock_parse(text@) is None,
                LockfileError::Parse(ParseError::MissingVersion(_)) => {
                    &&& lock_parse(text@) matches Some(m)
                    &&& !versions_ok(m)
                },
                LockfileError::MalformedKey(k) => {
                    &&& lock_parse(text@) matches Some(m)
                    &&& m.contains_key(k@)
                    &&& entry_included(k@, m[k@])
                    &&& !has_sep(k@)
                },
            },
        },
{
    let entries = match parse_lock_entries(text) {
        Ok(es) => es,
        Err(cause) => {
            return Err(LockfileError::Parse(ParseError::Syntax(cause)));
        },
    };
    let ghost m = lock_parse(text@)->0;
    let n: usize = entries.len();
    let mut i: usize = 0;
    while i < n
        invariant
            n == entries@.len(),
            0 <= i <= n,
            lock_parse(text@) == Some(m),
            forall|j: int|
                0 <= j < entries@.len() ==> m.contains_key(#[trigger] entries@[j].0@)
                    && m[entries@[j].0@] == opt_view(entries@[j].1),
            forall|k: Seq<char>| #[trigger]
                m.contains_key(k) ==> exists|j: int|
                    0 <= j < entries@.len() && entries@[j].0@ == k,
            forall|j: int|
                0 <= j < i ==> !entry_included(entries@[j].0@, opt_view(entries@[j].1)) || has_sep(
                    entries@[j].0@,
                ),
        decreases n - i,
    {
        let ghost es = entries@;
        let ghost iv = i as int;
        let is_meta = str_eq(entries[i].0.as_str(), "__metadata");
        if !is_meta {
            match &entries[i].1 {
                None => {},
                Some(ver) => {
                    if !str_eq(ver.as_str(), "0.0.0-use.local") {
                        match selector_package(entries[i].0.as_str()) {
                            Some(_) => {},
                            None => {
                                proof {
                                    assert(m.contains_key(es[iv].0@));
                                    assert(entry_included(es[iv].0@, m[es[iv].0@]));
                                }
                                return Err(LockfileError::MalformedKey(entries[i].0.clone()));
                            },
                        }
                    }
                },
            }
        }
        i += 1;
    }
    proof {
        assert forall|k: Seq<char>| #[trigger]
            m.contains_key(k) && entry_included(k, m[k]) implies has_sep(k) by {
            let j = choose|j: int| 0 <= j < entries@.len() && entries@[j].0@ == k;
            assert(!entry_included(entries@[j].0@, opt_view(entries@[j].1)) || has_sep(
                entries@[j].0@,
            ));
        }
        assert(keys_ok(m));
    }
    match extract_yarn_metadata(text) {
        Ok(pv) => Ok(pv),
        Err(e) => Err(LockfileError::Parse(e)),
    }
}

/// Removing a key that does not contribute leaves the extracted
/// package-version map unchanged.
proof fn lemma_removed_key_irrelevant(m: Map<Seq<char>, Option<Seq<char>>>, k0: Seq<char>)
    requires
        m.contains_key(k0) ==> !entry_included(k0, m[k0]),
    ensures
        extract_map(m) =~~= extract_map(m.remove(k0)),
{
    let m2 = m.remove(k0);
    assert forall|p: Seq<char>, k: Seq<char>| lock_included_at(m, k, p) == lock_included_at(
        m2,
        k,
        p,
    ) by {
        if lock_included_at(m, k, p) {
            assert(k != k0);
            assert(m2.contains_key(k) && m2[k] == m[k]);
        }
        if lock_included_at(m2, k, p) {
            assert(m.contains_key(k) && m[k] == m2[k]);
        }
    }
    assert forall|p: Seq<char>|
        extract_map(m).contains_key(p) == extract_map(m2).contains_key(p) by {
        if exists|k: Seq<char>| lock_included_at(m, k, p) {
            let k = choose|k: Seq<char>| lock_included_at(m, k, p);
            assert(lock_included_at(m2, k, p));
        }
        if exists|k: Seq<char>| lock_included_at(m2, k, p) {
            let k = choose|k: Seq<char>| lock_included_at(m2, k, p);
            assert(lock_included_at(m, k, p));
        }
    }
    assert forall|p: Seq<char>| extract_map(m).contains_key(p) implies extract_map(m)[p]
        =~= extract_map(m2)[p] by {
        assert forall|w: Seq<char>| extract_map(m)[p].contains(w) == extract_map(m2)[p].contains(
            w,
        ) by {
            if exists|k: Seq<char>| #[trigger] lock_included_at(m, k, p) && m[k] == Some(w) {
                let k = choose|k: Seq<char>| lock_included_at(m, k, p) && m[k] == Some(w);
                assert(lock_included_at(m2, k, p) && m2[k] == Some(w));
            }
            if exists|k: Seq<char>| #[trigger] lock_included_at(m2, k, p) && m2[k] == Some(w) {
                let k = choose|k: Seq<char>| lock_included_at(m2, k, p) && m2[k] == Some(w);
                assert(lock_included_at(m, k, p) && m[k] == Some(w));
            }
        }
    }
    assert(extract_map(m) =~~= extract_map(m2));
}

/// The metadata header never contributes: removing it from a parsed
/// mapping leaves the extracted package-version map unchanged, whatever
/// its fields hold.
pub proof fn lemma_metadata_excluded(m: Map<Seq<char>, Option<Seq<char>>>)
    ensures
        extract_map(m) =~~= extract_map(m.remove(metadata_key())),
{
    lemma_removed_key_irrelevant(m, metadata_key());
}

/// An entry resolved to the local workspace never contributes: removing it
/// from a parsed mapping leaves the extracted package-version map
/// unchanged, though its key would otherwise select a package.
pub proof fn lemma_local_version_excluded(m: Map<Seq<char>, Option<Seq<char>>>, k0: Seq<char>)
    requires
        m.contains_key(k0),
        m[k0] == Some(local_version()),
    ensures
        extract_map(m) =~~= extract_map(m.remove(k0)),
{
    lemma_removed_key_irrelevant(m, k0);
}

} // verus!
