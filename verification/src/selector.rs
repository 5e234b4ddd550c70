//! The selector grammar of lockfile entry keys.
//!
//! An entry key is one selector, or a comma-separated list of selectors that
//! all resolved to the same entry; every selector in such a list names the
//! same package. A selector has the shape `<package-name>@npm:<range>`, and
//! the package name is everything before the first occurrence of the literal
//! separator `@npm:`. The name itself may contain `@` (scoped names such as
//! `@scope/name`), so a separator match needs at least one character before
//! it; matching is anchored on the five characters `@npm:`, never on a bare
//! `@`.

use vstd::prelude::*;
use vstd::string::StrSliceExecFns;

verus! {

/// The characters of the literal separator `@npm:`.
pub open spec fn npm_sep() -> Seq<char> {
    seq!['@', 'n', 'p', 'm', ':']
}

/// The separator occurs in `key` at position `i`. A match at position 0 is
/// not a separator: the package name before it would be empty.
pub open spec fn is_sep_at(key: Seq<char>, i: int) -> bool {
    &&& 1 <= i
    &&& i + 5 <= key.len()
    &&& key.subrange(i, i + 5) == npm_sep()
}

/// The separator occurs somewhere in `key`.
pub open spec fn has_sep(key: Seq<char>) -> bool {
    exists|i: int| is_sep_at(key, i)
}

/// The first position at or after `i` where the separator occurs, or -1.
pub open spec fn first_sep_from(key: Seq<char>, i: int) -> int
    recommends
        1 <= i,
    decreases key.len() - i + 1,
    when i >= 1
{
    if i + 5 > key.len() {
        -1
    } else if key.subrange(i, i + 5) == npm_sep() {
        i
    } else {
        first_sep_from(key, i + 1)
    }
}

/// The first separator position in `key`.
pub open spec fn first_sep(key: Seq<char>) -> int {
    first_sep_from(key, 1)
}

/// The package name that `key` selects: everything before the first
/// separator.
pub open spec fn package_of(key: Seq<char>) -> Seq<char> {
    key.subrange(0, first_sep(key))
}

/// `first_sep_from` finds the least separator position at or after `i`,
/// and finds none exactly when there is none.
pub proof fn lemma_first_sep_from(key: Seq<char>, i: int)
    requires
        1 <= i,
    ensures
        first_sep_from(key, i) == -1 ==> forall|j: int| j >= i ==> !is_sep_at(key, j),
        first_sep_from(key, i) != -1 ==> {
            &&& i <= first_sep_from(key, i)
            &&& is_sep_at(key, first_sep_from(key, i))
            &&& forall|j: int| i <= j < first_sep_from(key, i) ==> !is_sep_at(key, j)
        },
    decreases key.len() - i + 1,
{
    if i + 5 > key.len() {
        assert(forall|j: int| j >= i ==> !is_sep_at(key, j));
    } else if key.subrange(i, i + 5) == npm_sep() {
    } else {
        lemma_first_sep_from(key, i + 1);
    }
}

/// The package name selected by `key`: the prefix before the first
/// occurrence of `@npm:` that has at least one character before it, or
/// `None` when the separator does not occur.
pub fn selector_package(key: &str) -> (r: Option<String>)
    ensures
        match r {
            Some(p) => has_sep(key@) && p@ == package_of(key@),
            None => !has_sep(key@),
        },
{
    let n: usize = key.unicode_len();
    if n < 6 {
        proof {
            assert forall|j: int| !is_sep_at(key@, j) by {}
        }
        return None;
    }
    let mut i: usize = 1;
    while i <= n - 5
        invariant
            n == key@.len(),
            6 <= n,
            1 <= i <= n - 4,
            forall|j: int| 1 <= j < i ==> !is_sep_at(key@, j),
        decreases n - i,
    {
        if key.get_char(i) == '@' && key.get_char(i + 1) == 'n' && key.get_char(i + 2) == 'p'
            && key.get_char(i + 3) == 'm' && key.get_char(i + 4) == ':' {
            proof {
                assert(key@.subrange(i as int, i as int + 5) =~= npm_sep());
                assert(is_sep_at(key@, i as int));
                lemma_first_sep_from(key@, 1);
                let f = first_sep(key@);
                if f == -1 {
                    assert(!is_sep_at(key@, i as int));
                    assert(false);
                } else if f < i as int {
                    assert(is_sep_at(key@, f));
                    assert(false);
                } else if f > i as int {
                    assert(!is_sep_at(key@, i as int));
                    assert(false);
                }
                assert(first_sep(key@) == i as int);
            }
            let prefix = key.substring_char(0, i);
            return Some(prefix.to_owned());
        }
        i += 1;
    }
    proof {
        assert forall|j: int| !is_sep_at(key@, j) by {
            if is_sep_at(key@, j) {
                assert(1 <= j <= n - 5);
                assert(j < i);
            }
        }
    }
    None
}

} // verus!
