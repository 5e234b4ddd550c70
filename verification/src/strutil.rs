//! Small verified helpers for strings and vectors of strings: equality of
//! `&str` values by their character sequences, membership of a string in a
//! vector, and the set of character sequences held by a vector of strings.

use vstd::prelude::*;
use vstd::string::StrSliceExecFns;

verus! {

/// The set of character sequences that the strings of `s` denote.
pub open spec fn str_views(s: Seq<String>) -> Set<Seq<char>> {
    Set::new(|v: Seq<char>| exists|i: int| 0 <= i < s.len() && s[i]@ == v)
}

/// No two strings of `s` denote the same character sequence.
pub open spec fn distinct_views(s: Seq<String>) -> bool {
    forall|i: int, j: int| 0 <= i < j < s.len() ==> s[i]@ != s[j]@
}

/// A sequence of distinct strings denotes a finite set of exactly its length.
pub proof fn lemma_str_views_len(s: Seq<String>)
    requires
        distinct_views(s),
    ensures
        str_views(s).finite(),
        str_views(s).len() == s.len(),
    decreases s.len(),
{
    if s.len() == 0 {
        assert(str_views(s) =~= Set::<Seq<char>>::empty());
    } else {
        let prefix = s.drop_last();
        lemma_str_views_len(prefix);
        assert(str_views(s) =~= str_views(prefix).insert(s.last()@)) by {
            assert forall|v: Seq<char>| str_views(s).contains(v) implies str_views(
                prefix,
            ).insert(s.last()@).contains(v) by {
                let i = choose|i: int| 0 <= i < s.len() && s[i]@ == v;
                if i < s.len() - 1 {
                    assert(prefix[i]@ == v);
                }
            }
            assert forall|v: Seq<char>| str_views(prefix).insert(s.last()@).contains(v) implies str_views(
                s,
            ).contains(v) by {
                if str_views(prefix).contains(v) {
                    let i = choose|i: int| 0 <= i < prefix.len() && prefix[i]@ == v;
                    assert(s[i]@ == v);
                } else {
                    assert(s[s.len() - 1]@ == v);
                }
            }
        }
        assert(!str_views(prefix).contains(s.last()@));
    }
}

/// Extending a prefix of `s` by its next string adds exactly that
/// string's view to the denoted set.
pub proof fn lemma_str_views_take_step(s: Seq<String>, i: int)
    requires
        0 <= i < s.len(),
    ensures
        str_views(s.take(i + 1)) =~= str_views(s.take(i)).insert(s[i]@),
{
    let t1 = s.take(i + 1);
    let t0 = s.take(i);
    assert forall|w: Seq<char>|
        str_views(t1).contains(w) == str_views(t0).insert(s[i]@).contains(w) by {
        if str_views(t1).contains(w) {
            let k = choose|k: int| 0 <= k < t1.len() && t1[k]@ == w;
            if k < i {
                assert(t0[k]@ == w);
            } else {
                assert(t1[k] == s[i]);
            }
        }
        if str_views(t0).contains(w) {
            let k = choose|k: int| 0 <= k < t0.len() && t0[k]@ == w;
            assert(t1[k]@ == w);
        }
        if w == s[i]@ {
            assert(t1[i]@ == w);
        }
    }
}

/// Whether two string slices hold the same characters.
pub fn str_eq(a: &str, b: &str) -> (r: bool)
    ensures
        r == (a@ == b@),
{
    let na: usize = a.unicode_len();
    let nb: usize = b.unicode_len();
    if na != nb {
        return false;
    }
    let mut i: usize = 0;
    while i < na
        invariant
            na == a@.len(),
            na == b@.len(),
            0 <= i <= na,
            forall|j: int| 0 <= j < i ==> a@[j] == b@[j],
        decreases na - i,
    {
        if a.get_char(i) != b.get_char(i) {
            return false;
        }
        i += 1;
    }
    proof {
        assert(a@ =~= b@);
    }
    true
}

/// Whether some string of `v` holds the characters of `x`.
pub fn vec_contains_str(v: &Vec<String>, x: &str) -> (r: bool)
    ensures
        r == str_views(v@).contains(x@),
{
    let n: usize = v.len();
    let mut i: usize = 0;
    while i < n
        invariant
            n == v@.len(),
            0 <= i <= n,
            forall|j: int| 0 <= j < i ==> v@[j]@ != x@,
        decreases n - i,
    {
        if str_eq(v[i].as_str(), x) {
            return true;
        }
        i += 1;
    }
    false
}

} // verus!
