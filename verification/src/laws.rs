//! Laws of the dispatch model, stated over the mount table's map view.
//!
//! `Mount::mount` ensures that registration is `Map::insert` on the view, and
//! `Mount::handle` / `Mount::lookup_most_specific` ensure that dispatch matches
//! the key of length `best_match_len` and hands the handler the path with that
//! prefix removed. The laws below state what follows for the view itself.

use vstd::prelude::*;

use crate::mount::{best_match_len, lemma_best_match_len_found, trim_trailing_empty};

verus! {

/// A registered key that is a prefix of a request path, with no longer
/// registered prefix of that path, is exactly what dispatch matches: the best
/// match has that key's length, the matched key is that key (so the handler
/// invoked is the one registered at it), and the path splits into the key and
/// the remainder the handler observes (empty when the path equals the key).
pub proof fn lemma_most_specific_prefix<V>(
    m: Map<Seq<Seq<char>>, V>,
    key: Seq<Seq<char>>,
    path: Seq<Seq<char>>,
)
    requires
        m.dom().contains(key),
        key.is_prefix_of(path),
        forall|d: int| key.len() < d <= path.len() ==> !m.dom().contains(#[trigger] path.take(d)),
    ensures
        best_match_len(m, path) == key.len(),
        path.take(key.len() as int) == key,
        path == key + path.skip(key.len() as int),
{
    assert(path.take(key.len() as int) =~= key);
    lemma_best_match_len_found(m, path, key.len() as int);
    assert(path =~= key + path.skip(key.len() as int));
}

/// Registering twice at the same key leaves only the second value reachable:
/// the table equals the one where only the second registration happened, and
/// lookup at that key yields the second value.
pub proof fn lemma_last_registration_wins<V>(
    m: Map<Seq<Seq<char>>, V>,
    key: Seq<Seq<char>>,
    first: V,
    second: V,
)
    ensures
        m.insert(key, first).insert(key, second) == m.insert(key, second),
        m.insert(key, first).insert(key, second)[key] == second,
{
    assert(m.insert(key, first).insert(key, second) =~= m.insert(key, second));
}

/// Nested mounts compose: when an inner mount table is the handler registered
/// at `outer_key` and a handler is registered in it at `inner_key`, a request
/// path extending `outer_key + inner_key` is matched at `outer_key` by the
/// outer table, the remainder is matched at `inner_key` by the inner table,
/// and the innermost handler observes the path with both prefixes removed.
pub proof fn lemma_nested_mounts<V, W>(
    outer: Map<Seq<Seq<char>>, V>,
    inner: Map<Seq<Seq<char>>, W>,
    outer_key: Seq<Seq<char>>,
    inner_key: Seq<Seq<char>>,
    path: Seq<Seq<char>>,
)
    requires
        outer.dom().contains(outer_key),
        inner.dom().contains(inner_key),
        (outer_key + inner_key).is_prefix_of(path),
        forall|d: int|
            outer_key.len() < d <= path.len() ==> !outer.dom().contains(#[trigger] path.take(d)),
        forall|d: int|
            inner_key.len() < d <= path.len() - outer_key.len() ==> !inner.dom().contains(
                #[trigger] path.skip(outer_key.len() as int).take(d),
            ),
    ensures
        best_match_len(outer, path) == outer_key.len(),
        best_match_len(inner, path.skip(outer_key.len() as int)) == inner_key.len(),
        path.skip(outer_key.len() as int).skip(inner_key.len() as int) == path.skip(
            outer_key.len() + inner_key.len() as int,
        ),
{
    let rest = path.skip(outer_key.len() as int);
    assert(outer_key.is_prefix_of(path)) by {
        assert(outer_key =~= path.take(outer_key.len() as int));
        assert(outer_key =~= path.subrange(0, outer_key.len() as int));
    }
    lemma_most_specific_prefix(outer, outer_key, path);
    assert(inner_key.is_prefix_of(rest)) by {
        let both = outer_key + inner_key;
        assert(both.len() == outer_key.len() + inner_key.len());
        assert forall|n: int| 0 <= n < inner_key.len() implies rest[n] == inner_key[n] by {
            assert(both[outer_key.len() + n] == inner_key[n]);
            assert(path.subrange(0, both.len() as int)[outer_key.len() + n] == path[outer_key.len()
                + n]);
            assert(rest[n] == path[outer_key.len() + n]);
        }
        assert(inner_key =~= rest.subrange(0, inner_key.len() as int));
    }
    lemma_most_specific_prefix(inner, inner_key, rest);
    assert(rest.skip(inner_key.len() as int) =~= path.skip(outer_key.len() + inner_key.len() as int));
}

/// A request whose path is a registered key followed by a trailing separator
/// (a trailing empty segment) matches the same entry as the exact path: after
/// trimming, both lookups see the same path.
pub proof fn lemma_trailing_separator<V>(m: Map<Seq<Seq<char>>, V>, path: Seq<Seq<char>>)
    requires
        path.len() == 0 || path.last().len() > 0,
    ensures
        trim_trailing_empty(path.push(Seq::empty())) == path,
        trim_trailing_empty(path) == path,
        best_match_len(m, trim_trailing_empty(path.push(Seq::empty()))) == best_match_len(
            m,
            trim_trailing_empty(path),
        ),
{
    let pushed = path.push(Seq::<char>::empty());
    assert(pushed.last().len() == 0);
    assert(pushed.drop_last() =~= path);
}

} // verus!
