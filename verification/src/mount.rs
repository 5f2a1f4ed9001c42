//! The mount table and dispatcher.
//!
//! A `Mount` maps registered route prefixes to handlers through a
//! path-segment trie and, as a handler itself, dispatches a request to the
//! handler of the longest registered prefix of the request's path, rewriting
//! the path so the handler sees it relative to its mount point and restoring
//! the URL afterward.

use vstd::prelude::*;

use crate::request::{Handler, MountError, NoMatch, OriginalUrl, Request, Response, Url};
use crate::route::{lemma_route_segments_nonempty, route_key, route_segments};
use crate::trie::{
    best_entry, lemma_best_is_deepest_route, lookup_at, node_route, node_wf, MountEntry, TrieNode,
};

verus! {

/// A request path with a trailing empty segment (a trailing separator) has
/// that final empty segment dropped before lookup, since registered keys never
/// contain empty segments.
pub open spec fn trim_trailing_empty(path: Seq<Seq<char>>) -> Seq<Seq<char>> {
    if path.len() > 0 && path.last().len() == 0 {
        path.drop_last()
    } else {
        path
    }
}

/// The number of segments of the longest key of `m` that is a prefix of
/// `path`, or `-1` if no key of `m` is a prefix of `path`.
pub open spec fn best_match_len<V>(m: Map<Seq<Seq<char>>, V>, path: Seq<Seq<char>>) -> int
    decreases path.len(),
{
    if m.dom().contains(path) {
        path.len() as int
    } else if path.len() == 0 {
        -1
    } else {
        best_match_len(m, path.drop_last())
    }
}

/// A registered prefix of length `b`, with no longer registered prefix, is the
/// best match.
pub proof fn lemma_best_match_len_found<V>(m: Map<Seq<Seq<char>>, V>, path: Seq<Seq<char>>, b: int)
    requires
        0 <= b <= path.len(),
        m.dom().contains(path.take(b)),
        forall|d: int| b < d <= path.len() ==> !m.dom().contains(#[trigger] path.take(d)),
    ensures
        best_match_len(m, path) == b,
    decreases path.len(),
{
    assert(path.take(path.len() as int) =~= path);
    if b == path.len() {
    } else {
        assert(!m.dom().contains(path));
        assert(path.drop_last() =~= path.take(path.len() - 1));
        assert forall|d: int| 0 <= d <= path.len() - 1 implies #[trigger] path.drop_last().take(d)
            == path.take(d) by {
            assert(path.drop_last().take(d) =~= path.take(d));
        }
        lemma_best_match_len_found(m, path.drop_last(), b);
    }
}

/// When no prefix of `path` is registered, there is no match.
pub proof fn lemma_best_match_len_none<V>(m: Map<Seq<Seq<char>>, V>, path: Seq<Seq<char>>)
    requires
        forall|d: int| 0 <= d <= path.len() ==> !m.dom().contains(#[trigger] path.take(d)),
    ensures
        best_match_len(m, path) == -1,
    decreases path.len(),
{
    assert(path.take(path.len() as int) =~= path);
    if path.len() > 0 {
        assert forall|d: int| 0 <= d <= path.len() - 1 implies !m.dom().contains(
            #[trigger] path.drop_last().take(d),
        ) by {
            assert(path.drop_last().take(d) =~= path.take(d));
        }
        lemma_best_match_len_none(m, path.drop_last());
    }
}

/// A mounting middleware: handlers are registered at route prefixes, and a
/// request is dispatched to the handler of the longest registered prefix of
/// its path.
pub struct Mount<H> {
    root: TrieNode<H>,
}

impl<H> Mount<H> {
    /// Every entry in the trie records the segment count of the key it sits
    /// under, and no edge is labelled with an empty segment.
    #[verifier::type_invariant]
    spec fn wf(self) -> bool {
        node_wf(self.root, 0)
    }
}

impl<H> View for Mount<H> {
    type V = Map<Seq<Seq<char>>, MountEntry<H>>;

    /// The table as a map from each registered key (a sequence of segments)
    /// to the entry mounted there.
    closed spec fn view(&self) -> Map<Seq<Seq<char>>, MountEntry<H>> {
        Map::new(
            |k: Seq<Seq<char>>| node_route(self.root, k) is Some,
            |k: Seq<Seq<char>>| node_route(self.root, k)->Some_0,
        )
    }
}

impl<H> Mount<H> {
    /// Creates an empty mount table.
    pub fn new() -> (m: Mount<H>)
        ensures
            m@ == Map::<Seq<Seq<char>>, MountEntry<H>>::empty(),
    {
        let m = Mount { root: TrieNode::empty() };
        proof {
            assert forall|k: Seq<Seq<char>>| #![auto] node_route(m.root, k) is None by {
                crate::trie::lemma_node_route_empty(m.root, k);
            }
            assert(m@ =~= Map::<Seq<Seq<char>>, MountEntry<H>>::empty());
        }
        m
    }

    /// Mounts `handler` onto `route`.
    ///
    /// This method may be called multiple times with different routes. For a
    /// given request, the most specific (longest-prefix) handler is selected.
    /// An existing handler on the same normalized route is overwritten.
    pub fn mount(&mut self, route: &str, handler: H) -> (r: &mut Mount<H>)
        ensures
            (*r)@ == old(self)@.insert(
                route_segments(route@),
                (MountEntry { handler, length: route_segments(route@).len() as usize }),
            ),
            *final(self) == *final(r),
    {
        proof {
            use_type_invariant(&*self);
        }
        let key = route_key(route);
        let length = key.len();
        let entry = MountEntry { handler, length };
        proof {
            lemma_route_segments_nonempty(route@);
            assert(key.deep_view().len() == key@.len());
            assert forall|j: int| 0 <= j < key@.len() implies key@[j]@.len() > 0 by {
                assert(key.deep_view()[j] == key@[j]@);
                assert(route_segments(route@)[j].len() > 0);
            }
        }
        let mut root = TrieNode::empty();
        core::mem::swap(&mut root, &mut self.root);
        root.insert_at(&key, 0, entry);
        self.root = root;
        proof {
            assert(key.deep_view().skip(0) =~= route_segments(route@));
            assert((*self)@ =~= old(self)@.insert(route_segments(route@), entry));
        }
        self
    }

    /// Walks the trie along `path` and returns the entry of the deepest
    /// registered prefix of `path`, or `None` when no prefix of `path` is
    /// registered.
    pub fn lookup_most_specific(&self, path: &Vec<String>) -> (r: Option<&MountEntry<H>>)
        ensures
            match r {
                None => best_match_len(self@, path.deep_view()) == -1,
                Some(e) => {
                    &&& e.length <= path@.len()
                    &&& best_match_len(self@, path.deep_view()) == e.length
                    &&& self@.dom().contains(path.deep_view().take(e.length as int))
                    &&& *e == self@[path.deep_view().take(e.length as int)]
                },
            },
    {
        proof {
            use_type_invariant(&*self);
        }
        let r = lookup_at(&self.root, path, 0, path.len());
        proof {
            let pv = path.deep_view();
            assert(pv.len() == path@.len());
            assert(pv.subrange(0, path@.len() as int) =~= pv);
            lemma_best_is_deepest_route(self.root, pv, 0);
            match best_entry(self.root, pv) {
                Some(e) => {
                    assert(self@.dom().contains(pv.take(e.length as int)));
                    assert(self@[pv.take(e.length as int)] == e);
                    lemma_best_match_len_found(self@, pv, e.length as int);
                },
                None => {
                    assert forall|d: int| 0 <= d <= pv.len() implies !self@.dom().contains(
                        #[trigger] pv.take(d),
                    ) by {
                        assert(node_route(self.root, pv.take(d)) is None);
                    }
                    lemma_best_match_len_none(self@, pv);
                },
            }
        }
        r
    }
}

/// The path left for the matched handler: everything past the first `n`
/// segments, cloned out of `path`.
fn tail_of(path: &Vec<String>, n: usize) -> (r: Vec<String>)
    requires
        n <= path@.len(),
    ensures
        r.deep_view() == path.deep_view().skip(n as int),
{
    let mut r: Vec<String> = Vec::new();
    let mut j = n;
    proof {
        assert(r.deep_view() =~= path.deep_view().subrange(n as int, n as int));
    }
    while j < path.len()
        invariant
            n <= j <= path@.len(),
            r.deep_view() == path.deep_view().subrange(n as int, j as int),
        decreases path@.len() - j,
    {
        let ghost prev = r.deep_view();
        let elem = path[j].clone();
        proof {
            assert(elem@ == path.deep_view()[j as int]);
            assert(prev.len() == j - n);
        }
        r.push(elem);
        proof {
            assert(r.deep_view() =~= prev.push(elem@));
            assert(r.deep_view() =~= path.deep_view().subrange(n as int, j as int + 1));
        }
        j = j + 1;
    }
    proof {
        assert(path.deep_view().subrange(n as int, path@.len() as int) =~= path.deep_view().skip(
            n as int,
        ));
    }
    r
}

/// Undoes the path rewriting after the matched handler returned: the request's
/// URL is restored from the attached original URL, the attachment is removed
/// again if this dispatch was the outermost one, and the handler's result is
/// returned unchanged.
fn finish_dispatch(req: &mut Request, was_outer: bool, res: Result<Response, MountError>) -> (r:
    Result<Response, MountError>)
    requires
        old(req).original_url is Some,
    ensures
        r == res,
        final(req).url@ == (match old(req).original_url {
            Some(o) => o.url@,
            None => old(req).url@,
        }),
        final(req).original_url == (if was_outer {
            None::<OriginalUrl>
        } else {
            old(req).original_url
        }),
{
    let restored = match &req.original_url {
        Some(o) => o.url.clone(),
        None => vstd::pervasive::unreached(),
    };
    req.url = restored;
    if was_outer {
        req.original_url = None;
    }
    res
}

impl<H: Handler> Mount<H> {
    /// Dispatches `req` to the handler of the longest registered prefix of its
    /// path (a trailing empty segment is ignored for matching).
    ///
    /// When no prefix matches, the request is left untouched and `NoMatch` is
    /// returned. Otherwise the matched prefix is removed from the path, the
    /// handler is invoked, its result is passed through verbatim, and the URL
    /// is restored afterward from the attached original URL: to the URL this
    /// dispatch saw if it is the outermost one (it attaches, and finally
    /// removes, the original URL), or to the original URL some outer dispatch
    /// attached.
    pub fn handle(&self, req: &mut Request) -> (r: Result<Response, MountError>)
        ensures
            final(req).original_url == old(req).original_url,
            best_match_len(self@, trim_trailing_empty(old(req).url@)) < 0 ==> r == Err::<
                Response,
                MountError,
            >(MountError::NoMatch(NoMatch)) && *final(req) == *old(req),
            best_match_len(self@, trim_trailing_empty(old(req).url@)) >= 0 ==> final(req).url@
                == (match old(req).original_url {
                Some(o) => o.url@,
                None => old(req).url@,
            }),
    {
        proof {
            use_type_invariant(&*self);
        }
        let ghost trimmed = trim_trailing_empty(req.url@);
        let path_len = req.url.path.len();
        let end = if path_len > 0 && req.url.path[path_len - 1].as_str().is_empty() {
            path_len - 1
        } else {
            path_len
        };
        proof {
            assert(req.url@.len() == path_len);
            if path_len > 0 {
                assert(req.url@.last() == req.url.path@[path_len - 1]@);
            }
            assert(trimmed =~= req.url@.subrange(0, end as int));
        }
        let matched = lookup_at(&self.root, &req.url.path, 0, end);
        match matched {
            None => {
                proof {
                    lemma_best_is_deepest_route(self.root, trimmed, 0);
                    assert forall|d: int| 0 <= d <= trimmed.len() implies !self@.dom().contains(
                        #[trigger] trimmed.take(d),
                    ) by {
                        assert(node_route(self.root, trimmed.take(d)) is None);
                    }
                    lemma_best_match_len_none(self@, trimmed);
                }
                Err(MountError::NoMatch(NoMatch))
            },
            Some(entry) => {
                proof {
                    lemma_best_is_deepest_route(self.root, trimmed, 0);
                    assert(self@.dom().contains(trimmed.take(entry.length as int)));
                    lemma_best_match_len_found(self@, trimmed, entry.length as int);
                    assert(entry.length <= end);
                }
                let is_outer = req.original_url.is_none();
                if is_outer {
                    let saved = OriginalUrl { url: req.url.clone() };
                    req.original_url = Some(saved);
                }
                let new_path = tail_of(&req.url.path, entry.length);
                req.url = Url { path: new_path };
                let res = entry.handler.handle(req);
                finish_dispatch(req, is_outer, res)
            },
        }
    }
}

impl<H: Handler> Handler for Mount<H> {
    /// A mount table is itself a handler, so one `Mount` can be registered as
    /// the handler of another to nest mount points.
    fn handle(&self, req: &mut Request) -> (r: Result<Response, MountError>) {
        Mount::<H>::handle(self, req)
    }
}

} // verus!
