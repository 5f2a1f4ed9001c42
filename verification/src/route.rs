//! Normalization of route strings into path segments.
//!
//! A route string is split on `/`; empty components (a leading root marker,
//! doubled separators, a trailing separator) are discarded, so every segment
//! of a registration key is non-empty.

use vstd::prelude::*;
use vstd::string::StrSliceExecFns;

verus! {

/// Index of the first separator in `s`, or `s.len()` if there is none.
pub open spec fn first_sep(s: Seq<char>) -> int
    decreases s.len(),
{
    if s.len() == 0 {
        0
    } else if s[0] == '/' {
        0
    } else {
        1 + first_sep(s.skip(1))
    }
}

pub proof fn lemma_first_sep_bounds(s: Seq<char>)
    ensures
        0 <= first_sep(s) <= s.len(),
        first_sep(s) < s.len() ==> s[first_sep(s)] == '/',
        forall|j: int| 0 <= j < first_sep(s) ==> s[j] != '/',
    decreases s.len(),
{
    if s.len() > 0 && s[0] != '/' {
        lemma_first_sep_bounds(s.skip(1));
        assert forall|j: int| 0 <= j < first_sep(s) implies s[j] != '/' by {
            if j > 0 {
                assert(s.skip(1)[j - 1] != '/');
            }
        }
    }
}

/// `first_sep` is the unique boundary: no separator before it, one at it (or the end).
pub proof fn lemma_first_sep_at(s: Seq<char>, k: int)
    requires
        0 <= k <= s.len(),
        forall|j: int| 0 <= j < k ==> s[j] != '/',
        k == s.len() || s[k] == '/',
    ensures
        first_sep(s) == k,
    decreases k,
{
    if k > 0 {
        lemma_first_sep_at(s.skip(1), k - 1);
    }
}

/// The sequence of segments denoted by a route string: the string is split on
/// `/` and empty components are dropped.
pub open spec fn route_segments(s: Seq<char>) -> Seq<Seq<char>>
    decreases s.len(),
    via route_segments_decreases
{
    if s.len() == 0 {
        Seq::empty()
    } else if s[0] == '/' {
        route_segments(s.skip(1))
    } else {
        seq![s.take(first_sep(s))] + route_segments(s.skip(first_sep(s)))
    }
}

#[via_fn]
proof fn route_segments_decreases(s: Seq<char>) {
    lemma_first_sep_bounds(s);
}

/// Every segment that normalization produces is non-empty.
pub proof fn lemma_route_segments_nonempty(s: Seq<char>)
    ensures
        forall|i: int| 0 <= i < route_segments(s).len() ==> route_segments(s)[i].len() > 0,
    decreases s.len(),
{
    if s.len() == 0 {
        assert(route_segments(s).len() == 0);
    } else if s[0] == '/' {
        lemma_route_segments_nonempty(s.skip(1));
        assert forall|i: int| 0 <= i < route_segments(s).len() implies route_segments(s)[i].len()
            > 0 by {
            assert(route_segments(s)[i] == route_segments(s.skip(1))[i]);
        }
    } else {
        lemma_first_sep_bounds(s);
        lemma_route_segments_nonempty(s.skip(first_sep(s)));
        assert forall|i: int| 0 <= i < route_segments(s).len() implies route_segments(s)[i].len()
            > 0 by {
            if i == 0 {
                assert(route_segments(s)[0] == s.take(first_sep(s)));
                assert(first_sep(s) >= 1);
            } else {
                assert(route_segments(s)[i] == route_segments(s.skip(first_sep(s)))[i - 1]);
            }
        }
    }
}

/// A run of non-separators ending at a separator splits off one segment.
proof fn lemma_segments_step(s: Seq<char>, start: int, i: int)
    requires
        0 <= start < i <= s.len(),
        forall|j: int| start <= j < i ==> s[j] != '/',
        i == s.len() || s[i] == '/',
    ensures
        route_segments(s.skip(start)) == seq![s.subrange(start, i)] + route_segments(s.skip(i)),
{
    let t = s.skip(start);
    assert forall|j: int| 0 <= j < i - start implies t[j] != '/' by {
        assert(t[j] == s[j + start]);
    }
    lemma_first_sep_at(t, i - start);
    assert(t.take(i - start) =~= s.subrange(start, i));
    assert(t.skip(i - start) =~= s.skip(i));
}

/// A separator at the front of the remainder contributes nothing.
proof fn lemma_segments_sep(s: Seq<char>, i: int)
    requires
        0 <= i < s.len(),
        s[i] == '/',
    ensures
        route_segments(s.skip(i)) == route_segments(s.skip(i + 1)),
{
    let t = s.skip(i);
    assert(t[0] == '/');
    assert(t.skip(1) =~= s.skip(i + 1));
}

/// Converts a route string into its ordered sequence of non-empty segments.
pub fn route_key(route: &str) -> (key: Vec<String>)
    ensures
        key.deep_view() == route_segments(route@),
{
    let n = route.unicode_len();
    let mut key: Vec<String> = Vec::new();
    let mut start: usize = 0;
    let mut i: usize = 0;
    proof {
        assert(route@.skip(0) =~= route@);
    }
    while i < n
        invariant
            0 <= start <= i <= n,
            n == route@.len(),
            key.deep_view() + route_segments(route@.skip(start as int)) == route_segments(
                route@,
            ),
            forall|j: int| start <= j < i ==> route@[j] != '/',
        decreases n - i,
    {
        let c = route.get_char(i);
        if c == '/' {
            if start < i {
                let seg = route.substring_char(start, i).to_owned();
                let ghost prev = key.deep_view();
                proof {
                    lemma_segments_step(route@, start as int, i as int);
                    lemma_segments_sep(route@, i as int);
                }
                key.push(seg);
                proof {
                    assert(key.deep_view() =~= prev + seq![seg@]);
                    assert((prev + seq![seg@]) + route_segments(route@.skip(i + 1)) =~= prev
                        + route_segments(route@.skip(start as int)));
                }
            } else {
                proof {
                    lemma_segments_sep(route@, i as int);
                }
            }
            start = i + 1;
        }
        i = i + 1;
    }
    if start < n {
        let seg = route.substring_char(start, n).to_owned();
        let ghost prev = key.deep_view();
        proof {
            lemma_segments_step(route@, start as int, n as int);
            assert(route@.skip(n as int).len() == 0);
            assert(route_segments(route@.skip(n as int)) =~= Seq::<Seq<char>>::empty());
        }
        key.push(seg);
        proof {
            assert(key.deep_view() =~= prev + seq![seg@]);
            assert((prev + seq![seg@]) + route_segments(route@.skip(n as int)) =~= prev + seq![
                seg@,
            ]);
            assert(key.deep_view() =~= route_segments(route@));
        }
    } else {
        proof {
            assert(route@.skip(start as int).len() == n - start);
            assert(route_segments(route@.skip(start as int)) =~= Seq::<Seq<char>>::empty());
            assert(key.deep_view() + route_segments(route@.skip(start as int)) =~= key.deep_view());
        }
    }
    key
}

} // verus!
