//! Pagination of the read-only query surface.
//!
//! A query walks its store in stored order, backwards when descending, and
//! resumes just after the entry the cursor names - the natural key of the
//! last entry the previous page showed. The page size is capped.

use vstd::prelude::*;

verus! {

/// The page size when a query names none.
pub const DEFAULT_QUERY_LIMIT: u32 = 10;

/// The largest page size a query may ask for.
pub const MAX_QUERY_LIMIT: u32 = 100;

/// How a query pages its results: an optional page size, an optional
/// direction, and an optional cursor holding the last-seen entry's key.
#[derive(Debug)]
pub struct QueryOptions<T> {
    pub limit: Option<u32>,
    pub descending: Option<bool>,
    pub start_after: Option<T>,
}

/// The page size a query effectively uses.
pub open spec fn spec_limit(limit: Option<u32>) -> int {
    let l = match limit {
        Some(v) => v as int,
        None => DEFAULT_QUERY_LIMIT as int,
    };
    if l > MAX_QUERY_LIMIT as int {
        MAX_QUERY_LIMIT as int
    } else {
        l
    }
}

/// The page size a query effectively uses.
pub fn effective_limit(limit: &Option<u32>) -> (r: usize)
    ensures
        r == spec_limit(*limit),
{
    let l: u32 = match limit {
        Some(v) => *v,
        None => DEFAULT_QUERY_LIMIT,
    };
    if l > MAX_QUERY_LIMIT {
        MAX_QUERY_LIMIT as usize
    } else {
        l as usize
    }
}

/// Lexicographic order on strings, by code point: the natural key order
/// of the query surface.
pub open spec fn spec_str_lt(a: Seq<char>, b: Seq<char>) -> bool
    decreases a.len(),
{
    if b.len() == 0 {
        false
    } else if a.len() == 0 {
        true
    } else if (a.first() as int) < (b.first() as int) {
        true
    } else if (a.first() as int) > (b.first() as int) {
        false
    } else {
        spec_str_lt(a.drop_first(), b.drop_first())
    }
}

/// The order is strict: never both ways, and two unordered strings are
/// equal.
pub proof fn lemma_str_lt_connected(a: Seq<char>, b: Seq<char>)
    ensures
        spec_str_lt(a, b) ==> !spec_str_lt(b, a),
        !spec_str_lt(a, b) && !spec_str_lt(b, a) ==> a == b,
    decreases a.len(),
{
    if a.len() > 0 && b.len() > 0 {
        lemma_str_lt_connected(a.drop_first(), b.drop_first());
        if !spec_str_lt(a, b) && !spec_str_lt(b, a) {
            assert((a.first() as int) == (b.first() as int));
            assert(a.first() == b.first());
            assert(a =~= seq![a.first()] + a.drop_first());
            assert(b =~= seq![b.first()] + b.drop_first());
        }
    } else if a.len() == 0 && b.len() == 0 {
        assert(a =~= b);
    }
}

/// The order chains: below and below again is below.
pub proof fn lemma_str_lt_transitive(a: Seq<char>, b: Seq<char>, c: Seq<char>)
    requires
        spec_str_lt(a, b),
        spec_str_lt(b, c),
    ensures
        spec_str_lt(a, c),
    decreases a.len(),
{
    if a.len() > 0 && b.len() > 0 && c.len() > 0 {
        if (a.first() as int) == (b.first() as int) && (b.first() as int) == (
        c.first() as int) {
            lemma_str_lt_transitive(a.drop_first(), b.drop_first(), c.drop_first());
        }
    }
}

/// Whether `a` comes strictly before `b` in code-point order.
pub fn str_lt(a: &String, b: &String) -> (r: bool)
    ensures
        r == spec_str_lt(a@, b@),
{
    let a_str = a.as_str();
    let b_str = b.as_str();
    let a_len = a_str.unicode_len();
    let b_len = b_str.unicode_len();
    let mut i: usize = 0;
    proof {
        assert(a@.skip(0) =~= a@);
        assert(b@.skip(0) =~= b@);
    }
    while i < a_len && i < b_len
        invariant
            i <= a@.len(),
            i <= b@.len(),
            a_len == a@.len(),
            b_len == b@.len(),
            a_str@ == a@,
            b_str@ == b@,
            spec_str_lt(a@, b@) == spec_str_lt(a@.skip(i as int), b@.skip(i as int)),
        decreases a@.len() - i,
    {
        proof {
            assert(a@.skip(i as int).first() == a@[i as int]);
            assert(b@.skip(i as int).first() == b@[i as int]);
            assert(a@.skip(i as int).drop_first() =~= a@.skip(i as int + 1));
            assert(b@.skip(i as int).drop_first() =~= b@.skip(i as int + 1));
        }
        let ca = a_str.get_char(i);
        let cb = b_str.get_char(i);
        if (ca as u32) < (cb as u32) {
            return true;
        }
        if (ca as u32) > (cb as u32) {
            return false;
        }
        i = i + 1;
    }
    proof {
        if i >= a@.len() {
            assert(a@.skip(i as int).len() == 0);
        }
        if i >= b@.len() {
            assert(b@.skip(i as int).len() == 0);
        }
    }
    i >= a_len && i < b_len
}

} // verus!
