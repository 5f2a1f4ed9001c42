//! The path-segment trie. Each node may hold one mount entry; an edge to a
//! child is labelled with a single segment. Lookup descends along a request
//! path and keeps the deepest entry seen, realizing longest-prefix matching.

use vstd::prelude::*;

verus! {

/// One registered mount: the handler bound at a key, together with the number
/// of segments of that key.
pub struct MountEntry<H> {
    pub handler: H,
    pub length: usize,
}

/// A trie node. `entry` is the mount registered at the key leading here, if
/// any; `children` maps one further segment to the node below it.
pub(crate) struct TrieNode<H> {
    pub(crate) entry: Option<MountEntry<H>>,
    pub(crate) children: Vec<(String, TrieNode<H>)>,
}

/// The first child whose label reads `label`, if any.
pub(crate) open spec fn find_child<H>(
    cs: Seq<(String, TrieNode<H>)>,
    label: Seq<char>,
) -> Option<TrieNode<H>>
    decreases cs.len(),
{
    if cs.len() == 0 {
        None
    } else if cs[0].0@ == label {
        Some(cs[0].1)
    } else {
        find_child(cs.drop_first(), label)
    }
}

/// The entry registered at exactly `key` below `node`, if any.
pub(crate) open spec fn node_route<H>(node: TrieNode<H>, key: Seq<Seq<char>>) -> Option<
    MountEntry<H>,
>
    decreases key.len(),
{
    if key.len() == 0 {
        node.entry
    } else {
        match find_child(node.children@, key[0]) {
            Some(c) => node_route(c, key.drop_first()),
            None => None,
        }
    }
}

/// The deepest entry on the descent of `path` below `node`, if any.
pub(crate) open spec fn best_entry<H>(node: TrieNode<H>, path: Seq<Seq<char>>) -> Option<
    MountEntry<H>,
>
    decreases path.len(),
{
    let deeper = if path.len() > 0 {
        match find_child(node.children@, path[0]) {
            Some(c) => best_entry(c, path.drop_first()),
            None => None,
        }
    } else {
        None
    };
    if deeper is Some {
        deeper
    } else {
        node.entry
    }
}

/// Well-formedness of a node sitting `depth` segments below the root: its
/// entry, if any, records `depth` as its key length; edge labels are
/// non-empty; and all children are well-formed one level deeper.
pub(crate) open spec fn node_wf<H>(node: TrieNode<H>, depth: nat) -> bool
    decreases node,
{
    &&& (node.entry matches Some(e) ==> e.length == depth)
    &&& (forall|i: int|
        0 <= i < node.children@.len() ==> {
            &&& (#[trigger] node.children@[i]).0@.len() > 0
            &&& node_wf(node.children@[i].1, depth + 1)
        })
}

/// Children before index `k` never match `label`, so the search may start at `k`.
proof fn lemma_find_child_skip<H>(cs: Seq<(String, TrieNode<H>)>, label: Seq<char>, k: int)
    requires
        0 <= k <= cs.len(),
        forall|j: int| 0 <= j < k ==> (#[trigger] cs[j]).0@ != label,
    ensures
        find_child(cs, label) == find_child(cs.skip(k), label),
    decreases k,
{
    if k == 0 {
        assert(cs.skip(0) =~= cs);
    } else {
        assert(cs[0].0@ != label);
        assert forall|j: int| 0 <= j < k - 1 implies (#[trigger] cs.drop_first()[j]).0@
            != label by {
            assert(cs.drop_first()[j] == cs[j + 1]);
        }
        lemma_find_child_skip(cs.drop_first(), label, k - 1);
        assert(cs.drop_first().skip(k - 1) =~= cs.skip(k));
    }
}

/// A found child is one of the children, so facts that hold of every child
/// hold of it.
proof fn lemma_find_child_is_child<H>(cs: Seq<(String, TrieNode<H>)>, label: Seq<char>)
    ensures
        find_child(cs, label) matches Some(c) ==> exists|i: int|
            0 <= i < cs.len() && (#[trigger] cs[i]).1 == c && cs[i].0@ == label,
    decreases cs.len(),
{
    if cs.len() > 0 && cs[0].0@ != label {
        lemma_find_child_is_child(cs.drop_first(), label);
        if find_child(cs, label) is Some {
            let c = find_child(cs, label)->Some_0;
            let i = choose|i: int|
                0 <= i < cs.drop_first().len() && (#[trigger] cs.drop_first()[i]).1 == c
                    && cs.drop_first()[i].0@ == label;
            assert(cs[i + 1] == cs.drop_first()[i]);
        }
    }
}

/// Updating the first matching child changes lookups for its label only.
proof fn lemma_find_child_update<H>(
    cs: Seq<(String, TrieNode<H>)>,
    j: int,
    c: TrieNode<H>,
    l2: Seq<char>,
)
    requires
        0 <= j < cs.len(),
        forall|i: int| 0 <= i < j ==> (#[trigger] cs[i]).0@ != cs[j].0@,
    ensures
        find_child(cs.update(j, (cs[j].0, c)), l2) == (if l2 == cs[j].0@ {
            Some(c)
        } else {
            find_child(cs, l2)
        }),
    decreases cs.len(),
{
    let cs2 = cs.update(j, (cs[j].0, c));
    if j == 0 {
        if l2 != cs[0].0@ {
            assert(cs2.drop_first() =~= cs.drop_first());
        }
    } else {
        assert(cs2[0] == cs[0]);
        if l2 == cs[0].0@ {
            assert(l2 != cs[j].0@);
        } else {
            assert(cs2.drop_first() =~= cs.drop_first().update(j - 1, (cs.drop_first()[j - 1].0, c)));
            assert forall|i: int| 0 <= i < j - 1 implies (#[trigger] cs.drop_first()[i]).0@
                != cs.drop_first()[j - 1].0@ by {
                assert(cs.drop_first()[i] == cs[i + 1]);
                assert(cs.drop_first()[j - 1] == cs[j]);
            }
            lemma_find_child_update(cs.drop_first(), j - 1, c, l2);
        }
    }
}

/// Appending a child with a fresh label changes lookups for its label only.
proof fn lemma_find_child_push<H>(
    cs: Seq<(String, TrieNode<H>)>,
    s: String,
    c: TrieNode<H>,
    l2: Seq<char>,
)
    requires
        forall|i: int| 0 <= i < cs.len() ==> (#[trigger] cs[i]).0@ != s@,
    ensures
        find_child(cs.push((s, c)), l2) == (if l2 == s@ {
            Some(c)
        } else {
            find_child(cs, l2)
        }),
    decreases cs.len(),
{
    if cs.len() == 0 {
        assert(cs.push((s, c))[0] == (s, c));
        if l2 != s@ {
            assert(cs.push((s, c)).drop_first() =~= Seq::<(String, TrieNode<H>)>::empty());
        }
    } else {
        assert(cs.push((s, c))[0] == cs[0]);
        assert(cs[0].0@ != s@);
        assert(cs.push((s, c)).drop_first() =~= cs.drop_first().push((s, c)));
        assert forall|i: int| 0 <= i < cs.drop_first().len() implies (
        #[trigger] cs.drop_first()[i]).0@ != s@ by {
            assert(cs.drop_first()[i] == cs[i + 1]);
        }
        lemma_find_child_push(cs.drop_first(), s, c, l2);
    }
}

/// Sequences with equal heads and equal tails are equal.
proof fn lemma_cons_eq(k: Seq<Seq<char>>, s: Seq<Seq<char>>)
    requires
        k.len() > 0,
        s.len() > 0,
        k[0] == s[0],
        k.drop_first() == s.drop_first(),
    ensures
        k == s,
{
    assert(k.drop_first().len() == k.len() - 1);
    assert(s.drop_first().len() == s.len() - 1);
    assert(k.len() == s.len());
    assert forall|n: int| 0 <= n < k.len() implies k[n] == s[n] by {
        if n > 0 {
            assert(k.drop_first()[n - 1] == k[n]);
            assert(s.drop_first()[n - 1] == s[n]);
        }
    }
    assert(k =~= s);
}

/// A node with no entry and no children routes nothing.
pub(crate) proof fn lemma_node_route_empty<H>(node: TrieNode<H>, k: Seq<Seq<char>>)
    requires
        node.entry is None,
        node.children@.len() == 0,
    ensures
        node_route(node, k) is None,
{
    if k.len() > 0 {
        assert(find_child(node.children@, k[0]) is None);
    }
}

/// Index of the first child labelled `label`, if any, together with the fact
/// that the spec-level search finds exactly that child.
fn find_child_index<H>(cs: &Vec<(String, TrieNode<H>)>, label: &String) -> (r: Option<usize>)
    ensures
        match r {
            Some(j) => {
                &&& j < cs@.len()
                &&& cs@[j as int].0@ == label@
                &&& forall|i: int| 0 <= i < j ==> (#[trigger] cs@[i]).0@ != label@
                &&& find_child(cs@, label@) == Some(cs@[j as int].1)
            },
            None => {
                &&& find_child(cs@, label@) is None
                &&& forall|i: int| 0 <= i < cs@.len() ==> (#[trigger] cs@[i]).0@ != label@
            },
        },
{
    let n = cs.len();
    let mut k: usize = 0;
    while k < n
        invariant
            k <= n,
            n == cs@.len(),
            forall|j: int| 0 <= j < k ==> (#[trigger] cs@[j]).0@ != label@,
        decreases n - k,
    {
        if cs[k].0 == *label {
            proof {
                lemma_find_child_skip(cs@, label@, k as int);
                assert(cs@.skip(k as int)[0] == cs@[k as int]);
                assert(find_child(cs@.skip(k as int), label@) == Some(cs@[k as int].1));
            }
            return Some(k);
        }
        k = k + 1;
    }
    proof {
        lemma_find_child_skip(cs@, label@, n as int);
        assert(cs@.skip(n as int).len() == 0);
    }
    None
}

impl<H> TrieNode<H> {
    /// A node with no entry and no children.
    pub(crate) fn empty() -> (r: TrieNode<H>)
        ensures
            r.entry is None,
            r.children@.len() == 0,
    {
        TrieNode { entry: None, children: Vec::new() }
    }

    /// Inserts `entry` at the key `key[i..]` below `self`, which sits `i`
    /// segments deep. An entry already present at that key is replaced;
    /// everything else routes as before.
    pub(crate) fn insert_at(&mut self, key: &Vec<String>, i: usize, entry: MountEntry<H>)
        requires
            i <= key@.len(),
            node_wf(*old(self), i as nat),
            entry.length == key@.len(),
            forall|j: int| i <= j < key@.len() ==> key@[j]@.len() > 0,
        ensures
            node_wf(*final(self), i as nat),
            forall|k: Seq<Seq<char>>| #![trigger node_route(*final(self), k)]
                node_route(*final(self), k) == (if k == key.deep_view().skip(i as int) {
                    Some(entry)
                } else {
                    node_route(*old(self), k)
                }),
        decreases key@.len() - i,
    {
        proof {
            assert(key.deep_view().len() == key@.len());
        }
        if i == key.len() {
            self.entry = Some(entry);
            proof {
                assert(key.deep_view().skip(i as int) =~= Seq::<Seq<char>>::empty());
                assert forall|k: Seq<Seq<char>>| #![trigger node_route(*self, k)]
                    node_route(*self, k) == (if k == key.deep_view().skip(i as int) {
                        Some(entry)
                    } else {
                        node_route(*old(self), k)
                    }) by {
                    if k.len() > 0 {
                        assert(self.children@ == old(self).children@);
                        assert(node_route(*self, k) == node_route(*old(self), k));
                        assert(k != key.deep_view().skip(i as int));
                    } else {
                        assert(k =~= key.deep_view().skip(i as int));
                    }
                }
            }
        } else {
            let ghost suffix = key.deep_view().skip(i as int);
            let ghost label = key@[i as int]@;
            proof {
                assert(suffix.len() == key@.len() - i);
                assert(key.deep_view()[i as int] == key@[i as int]@);
                assert(suffix[0] == label);
                assert(suffix.drop_first() =~= key.deep_view().skip(i as int + 1));
            }
            let found = find_child_index(&self.children, &key[i]);
            match found {
                Some(j) => {
                    let ghost old_children = self.children@;
                    let ghost old_child = self.children@[j as int].1;
                    proof {
                        assert(node_wf(old_child, i as nat + 1));
                    }
                    let pair = vstd::std_specs::vec::vec_index_mut(&mut self.children, j);
                    pair.1.insert_at(key, i + 1, entry);
                    proof {
                        assert(self.children@ == old_children.update(
                            j as int,
                            (old_children[j as int].0, self.children@[j as int].1),
                        ));
                        let new_child = self.children@[j as int].1;
                        assert forall|k: Seq<Seq<char>>| #![trigger node_route(*self, k)]
                            node_route(*self, k) == (if k == suffix {
                                Some(entry)
                            } else {
                                node_route(*old(self), k)
                            }) by {
                            if k.len() == 0 {
                                assert(node_route(*self, k) == self.entry);
                                assert(node_route(*old(self), k) == old(self).entry);
                                assert(k != suffix);
                            } else {
                                lemma_find_child_update(old_children, j as int, new_child, k[0]);
                                if k[0] == label {
                                    assert(find_child(self.children@, k[0]) == Some(new_child));
                                    assert(node_route(*self, k) == node_route(
                                        new_child,
                                        k.drop_first(),
                                    ));
                                    assert(find_child(old_children, k[0]) == Some(old_child));
                                    assert(node_route(*old(self), k) == node_route(
                                        old_child,
                                        k.drop_first(),
                                    ));
                                    assert(node_route(new_child, k.drop_first()) == (if
                                    k.drop_first() == key.deep_view().skip(i as int + 1) {
                                        Some(entry)
                                    } else {
                                        node_route(old_child, k.drop_first())
                                    }));
                                    if k == suffix {
                                        assert(k.drop_first() == suffix.drop_first());
                                    } else {
                                        assert(k.drop_first() != suffix.drop_first()) by {
                                            if k.drop_first() == suffix.drop_first() {
                                                lemma_cons_eq(k, suffix);
                                            }
                                        }
                                    }
                                } else {
                                    assert(k != suffix);
                                    assert(find_child(self.children@, k[0]) == find_child(
                                        old_children,
                                        k[0],
                                    ));
                                    match find_child(old_children, k[0]) {
                                        Some(c) => {
                                            assert(node_route(*self, k) == node_route(
                                                c,
                                                k.drop_first(),
                                            ));
                                            assert(node_route(*old(self), k) == node_route(
                                                c,
                                                k.drop_first(),
                                            ));
                                        },
                                        None => {
                                            assert(node_route(*self, k) is None);
                                            assert(node_route(*old(self), k) is None);
                                        },
                                    }
                                }
                            }
                        }
                        assert forall|ix: int| 0 <= ix < self.children@.len() implies {
                            &&& (#[trigger] self.children@[ix]).0@.len() > 0
                            &&& node_wf(self.children@[ix].1, i as nat + 1)
                        } by {
                            assert(old(self).children@[ix].0@.len() > 0);
                            if ix != j {
                                assert(self.children@[ix] == old(self).children@[ix]);
                                assert(node_wf(old(self).children@[ix].1, i as nat + 1));
                            }
                        }
                        assert(node_wf(*self, i as nat));
                    }
                },
                None => {
                    let mut child = TrieNode::empty();
                    let ghost fresh_child = child;
                    child.insert_at(key, i + 1, entry);
                    let lab = key[i].clone();
                    let ghost old_children = self.children@;
                    let ghost the_child = child;
                    self.children.push((lab, child));
                    proof {
                        assert(self.children@ == old_children.push((lab, the_child)));
                        assert forall|k: Seq<Seq<char>>| #![trigger node_route(*self, k)]
                            node_route(*self, k) == (if k == suffix {
                                Some(entry)
                            } else {
                                node_route(*old(self), k)
                            }) by {
                            if k.len() == 0 {
                                assert(node_route(*self, k) == self.entry);
                                assert(node_route(*old(self), k) == old(self).entry);
                                assert(k != suffix);
                            } else {
                                lemma_find_child_push(old_children, lab, the_child, k[0]);
                                if k[0] == label {
                                    assert(find_child(self.children@, k[0]) == Some(the_child));
                                    assert(node_route(*self, k) == node_route(
                                        the_child,
                                        k.drop_first(),
                                    ));
                                    assert(find_child(old_children, k[0]) is None);
                                    assert(node_route(*old(self), k) is None);
                                    assert(node_route(the_child, k.drop_first()) == (if
                                    k.drop_first() == key.deep_view().skip(i as int + 1) {
                                        Some(entry)
                                    } else {
                                        node_route(fresh_child, k.drop_first())
                                    }));
                                    lemma_node_route_empty(fresh_child, k.drop_first());
                                    if k == suffix {
                                        assert(k.drop_first() == suffix.drop_first());
                                    } else {
                                        assert(k.drop_first() != suffix.drop_first()) by {
                                            if k.drop_first() == suffix.drop_first() {
                                                lemma_cons_eq(k, suffix);
                                            }
                                        }
                                    }
                                } else {
                                    assert(k != suffix);
                                    assert(find_child(self.children@, k[0]) == find_child(
                                        old_children,
                                        k[0],
                                    ));
                                    match find_child(old_children, k[0]) {
                                        Some(c) => {
                                            assert(node_route(*self, k) == node_route(
                                                c,
                                                k.drop_first(),
                                            ));
                                            assert(node_route(*old(self), k) == node_route(
                                                c,
                                                k.drop_first(),
                                            ));
                                        },
                                        None => {
                                            assert(node_route(*self, k) is None);
                                            assert(node_route(*old(self), k) is None);
                                        },
                                    }
                                }
                            }
                        }
                        assert forall|ix: int| 0 <= ix < self.children@.len() implies {
                            &&& (#[trigger] self.children@[ix]).0@.len() > 0
                            &&& node_wf(self.children@[ix].1, i as nat + 1)
                        } by {
                            if ix < old_children.len() {
                                assert(self.children@[ix] == old(self).children@[ix]);
                                assert(old(self).children@[ix].0@.len() > 0);
                                assert(node_wf(old(self).children@[ix].1, i as nat + 1));
                            }
                        }
                        assert(node_wf(*self, i as nat));
                    }
                },
            }
        }
    }
}

/// Finds the deepest entry along `path[i..end]` below `node`.
pub(crate) fn lookup_at<'a, H>(
    node: &'a TrieNode<H>,
    path: &Vec<String>,
    i: usize,
    end: usize,
) -> (r: Option<&'a MountEntry<H>>)
    requires
        i <= end <= path@.len(),
    ensures
        match r {
            Some(e) => best_entry(*node, path.deep_view().subrange(i as int, end as int)) == Some(
                *e,
            ),
            None => best_entry(*node, path.deep_view().subrange(i as int, end as int)) is None,
        },
    decreases end - i,
{
    let ghost pv = path.deep_view().subrange(i as int, end as int);
    proof {
        assert(path.deep_view().len() == path@.len());
    }
    let deeper: Option<&'a MountEntry<H>> = if i < end {
        proof {
            assert(pv[0] == path.deep_view()[i as int]);
            assert(path.deep_view()[i as int] == path@[i as int]@);
        }
        match find_child_index(&node.children, &path[i]) {
            Some(j) => {
                proof {
                    assert(path.deep_view().subrange(i as int + 1, end as int)
                        =~= pv.drop_first());
                }
                lookup_at(&node.children[j].1, path, i + 1, end)
            },
            None => None,
        }
    } else {
        None
    };
    match deeper {
        Some(e) => Some(e),
        None => node.entry.as_ref(),
    }
}

/// The deepest entry found by the descent is the route registered at the
/// longest registered prefix of `path`: no longer prefix of `path` is
/// registered, and (by well-formedness) the entry's recorded length names
/// exactly how many segments of `path` its key covers.
pub(crate) proof fn lemma_best_is_deepest_route<H>(
    node: TrieNode<H>,
    path: Seq<Seq<char>>,
    depth: nat,
)
    requires
        node_wf(node, depth),
    ensures
        match best_entry(node, path) {
            Some(e) => {
                &&& depth <= e.length <= depth + path.len()
                &&& node_route(node, path.take(e.length - depth)) == Some(e)
                &&& forall|d: int|
                    e.length - depth < d <= path.len() ==> node_route(
                        node,
                        #[trigger] path.take(d),
                    ) is None
            },
            None => forall|d: int|
                0 <= d <= path.len() ==> node_route(node, #[trigger] path.take(d)) is None,
        },
    decreases path.len(),
{
    if path.len() == 0 {
        assert(path.take(0) =~= Seq::<Seq<char>>::empty());
        assert(node_route(node, path.take(0)) == node.entry);
    } else {
        assert(path.take(0) =~= Seq::<Seq<char>>::empty());
        assert(node_route(node, path.take(0)) == node.entry);
        match find_child(node.children@, path[0]) {
            Some(c) => {
                lemma_find_child_is_child(node.children@, path[0]);
                assert(node_wf(c, depth + 1)) by {
                    let ix = choose|ix: int|
                        0 <= ix < node.children@.len() && (#[trigger] node.children@[ix]).1 == c
                            && node.children@[ix].0@ == path[0];
                    assert(node_wf(node.children@[ix].1, depth + 1));
                }
                lemma_best_is_deepest_route(c, path.drop_first(), depth + 1);
                assert forall|d: int| 0 < d <= path.len() implies node_route(
                    node,
                    #[trigger] path.take(d),
                ) == node_route(c, path.drop_first().take(d - 1)) by {
                    assert(path.take(d).len() == d);
                    assert(path.take(d)[0] == path[0]);
                    assert(path.take(d).drop_first() =~= path.drop_first().take(d - 1));
                }
                match best_entry(c, path.drop_first()) {
                    Some(e) => {
                        assert(best_entry(node, path) == Some(e));
                        assert(node_route(node, path.take(e.length - depth)) == Some(e));
                    },
                    None => {
                        assert(best_entry(node, path) == node.entry);
                    },
                }
            },
            None => {
                assert forall|d: int| 0 < d <= path.len() implies node_route(
                    node,
                    #[trigger] path.take(d),
                ) is None by {
                    assert(path.take(d).len() == d);
                    assert(path.take(d)[0] == path[0]);
                }
            },
        }
    }
}

} // verus!
