use std::cmp::Ordering;

use vstd::prelude::*;
use vstd::std_specs::cmp::OrdSpec;

use crate::error::NodeIdError;
use crate::model::TreeView;
use crate::node::{Node, NodeView};
use crate::node_id::{group_node_id, NodeId};
use crate::tree::Tree;

verus! {

broadcast use group_node_id, vstd::seq_lib::group_to_multiset_ensures;

/// `a` may stand before `b` under `compare`: a call of `compare` on nodes
/// with these contents put `a` strictly first, or a call on them the other
/// way round did not put `b` strictly first.
pub open spec fn ordered_by<T, F: Fn(&Node<T>, &Node<T>) -> Ordering>(
    compare: F,
    a: NodeView<T>,
    b: NodeView<T>,
) -> bool {
    exists|x: Node<T>, y: Node<T>, o: Ordering|
        #![trigger call_ensures(compare, (&x, &y), o)]
        {
            &&& x@ == a
            &&& y@ == b
            &&& call_ensures(compare, (&x, &y), o)
            &&& o == Ordering::Less
        } || exists|x: Node<T>, y: Node<T>, o: Ordering|
        #![trigger call_ensures(compare, (&y, &x), o)]
        {
            &&& x@ == a
            &&& y@ == b
            &&& call_ensures(compare, (&y, &x), o)
            &&& o != Ordering::Less
        }
}

/// Every pair of neighbours in `ids` may stand in that order under
/// `compare`, the nodes taken from `v`.
pub open spec fn sorted_by<T, F: Fn(&Node<T>, &Node<T>) -> Ordering>(
    v: TreeView<T>,
    compare: F,
    ids: Seq<NodeId>,
) -> bool {
    forall|i: int|
        0 <= i < ids.len() - 1 ==> #[trigger] ordered_by(compare, v.node(ids[i]), v.node(ids[i + 1]))
}

/// `compare` was seen to put `a` strictly before `b`: a call of it on nodes
/// with these contents answered `Less`.
pub open spec fn put_before<T, F: Fn(&Node<T>, &Node<T>) -> Ordering>(
    compare: F,
    a: NodeView<T>,
    b: NodeView<T>,
) -> bool {
    exists|x: Node<T>, y: Node<T>, o: Ordering|
        #![trigger call_ensures(compare, (&x, &y), o)]
        {
            &&& x@ == a
            &&& y@ == b
            &&& call_ensures(compare, (&x, &y), o)
            &&& o == Ordering::Less
        }
}

/// `after` keeps the order that `before` had, except where `compare` put
/// the later of two ids strictly before the earlier one: when `before[p]`
/// comes before `before[q]` but ends up after it, `compare` was seen to put
/// `before[q]`'s node strictly before `before[p]`'s.
pub open spec fn stable_by<T, F: Fn(&Node<T>, &Node<T>) -> Ordering>(
    v: TreeView<T>,
    compare: F,
    before: Seq<NodeId>,
    after: Seq<NodeId>,
) -> bool {
    forall|p: int, q: int, k: int, l: int|
        #![trigger before[p], before[q], after[k], after[l]]
        0 <= p < q < before.len() && 0 <= l < k < after.len() && after[k] == before[p]
            && after[l] == before[q] ==> put_before(compare, v.node(before[q]), v.node(before[p]))
}

/// `n` is the node of one of the ids `ids` in `v`.
pub open spec fn node_among<T>(v: TreeView<T>, ids: Seq<NodeId>, n: NodeView<T>) -> bool {
    exists|k: int| 0 <= k < ids.len() && v.node(ids[k]) == n
}

/// Inserts `x` into `out` at `j`: the multiset of `out` grows by `x`.
proof fn lemma_insert_multiset(out: Seq<NodeId>, j: int, x: NodeId)
    requires
        0 <= j <= out.len(),
    ensures
        out.insert(j, x).to_multiset() == out.to_multiset().insert(x),
{
    let s = out.insert(j, x);
    out.insert_ensures(j, x);
    assert(s.remove(j) =~= out);
    assert(s[j] == x);
    assert(s.to_multiset().remove(x) == out.to_multiset());
    assert(s.to_multiset().count(x) > 0) by {
        assert(s.contains(x));
    }
    assert(s.to_multiset() =~= out.to_multiset().insert(x));
}

/// The neighbours of a sequence after an insertion at `j`: those before and
/// after `j` are the old ones, and `x` sits between `out[j - 1]` and
/// `out[j]`.
proof fn lemma_insert_neighbours(out: Seq<NodeId>, j: int, x: NodeId, i: int)
    requires
        0 <= j <= out.len(),
        0 <= i < out.len(),
    ensures
        i + 1 < j ==> out.insert(j, x)[i] == out[i] && out.insert(j, x)[i + 1] == out[i + 1],
        j <= i && i + 1 < out.len() ==> out.insert(j, x)[i + 1] == out[i] && out.insert(j, x)[i
            + 2] == out[i + 1],
        j > 0 ==> out.insert(j, x)[j - 1] == out[j - 1],
        out.insert(j, x)[j] == x,
        j < out.len() ==> out.insert(j, x)[j + 1] == out[j],
        out.insert(j, x).len() == out.len() + 1,
{
    out.insert_ensures(j, x);
}

/// The prefix of length `i + 1` is the prefix of length `i` and one more.
proof fn lemma_take_push(s: Seq<NodeId>, i: int)
    requires
        0 <= i < s.len(),
    ensures
        s.take(i + 1) == s.take(i).push(s[i]),
{
    assert(s.take(i + 1) =~= s.take(i).push(s[i]));
}

/// The whole of a sequence as its longest prefix.
proof fn lemma_take_all(s: Seq<NodeId>)
    ensures
        s.take(s.len() as int) == s,
{
    assert(s.take(s.len() as int) =~= s);
}

/// Ids of `v`, in the order that a stable insertion sort under `compare`
/// gives them.
fn insertion_sort<T, F: Fn(&Node<T>, &Node<T>) -> Ordering>(
    tree: &Tree<T>,
    ids: Vec<NodeId>,
    compare: F,
) -> (out: Vec<NodeId>)
    requires
        forall|k: int| 0 <= k < ids@.len() ==> tree@.has(#[trigger] ids@[k]),
        forall|a: &Node<T>, b: &Node<T>|
            node_among(tree@, ids@, a@) && node_among(tree@, ids@, b@) ==> call_requires(compare, (a, b)),
        ids@.no_duplicates(),
    ensures
        out@.to_multiset() == ids@.to_multiset(),
        forall|k: int| 0 <= k < out@.len() ==> tree@.has(#[trigger] out@[k]),
        sorted_by(tree@, compare, out@),
        stable_by(tree@, compare, ids@, out@),
{
    let ghost v = tree@;
    let mut out: Vec<NodeId> = Vec::new();
    let mut i: usize = 0;
    proof {
        assert(ids@.take(0) =~= Seq::<NodeId>::empty());
    }
    while i < ids.len()
        invariant
            v == tree@,
            i <= ids.len(),
            forall|k: int| 0 <= k < ids@.len() ==> v.has(#[trigger] ids@[k]),
            forall|a: &Node<T>, b: &Node<T>|
                node_among(v, ids@, a@) && node_among(v, ids@, b@) ==> call_requires(compare, (a, b)),
            out@.to_multiset() == ids@.take(i + 0).to_multiset(),
            forall|k: int| 0 <= k < out@.len() ==> v.has(#[trigger] out@[k]),
            forall|k: int| 0 <= k < out@.len() ==> ids@.contains(#[trigger] out@[k]),
            sorted_by(v, compare, out@),
            ids@.no_duplicates(),
            stable_by(v, compare, ids@.take(i + 0), out@),
        decreases ids.len() - i,
    {
        let x = ids[i];
        let nx = tree.get_node(&x);
        let mut j: usize = out.len();
        let mut done = false;
        while j > 0 && !done
            invariant
                v == tree@,
                j <= out.len(),
                v.has(x),
                nx@ == v.node(x),
                forall|a: &Node<T>, b: &Node<T>|
                    node_among(v, ids@, a@) && node_among(v, ids@, b@) ==> call_requires(compare, (a, b)),
                forall|k: int| 0 <= k < out@.len() ==> v.has(#[trigger] out@[k]),
                forall|k: int| 0 <= k < out@.len() ==> ids@.contains(#[trigger] out@[k]),
                i < ids@.len(),
                x == ids@[i + 0],
                j < out@.len() ==> ordered_by(compare, v.node(x), v.node(out@[j + 0])),
                done ==> j > 0 && ordered_by(compare, v.node(out@[j - 1]), v.node(x)),
                forall|m: int| j <= m < out@.len() ==> #[trigger] put_before(compare, v.node(x), v.node(out@[m])),
            decreases j + (if done { 0int } else { 1int }),
        {
            let y = out[j - 1];
            let ny = tree.get_node(&y);
            proof {
                assert(ids@.contains(out@[j - 1]));
                let t = choose|t: int| 0 <= t < ids@.len() && ids@[t] == y;
                assert(v.node(ids@[t]) == ny@);
                assert(v.node(ids@[i + 0]) == nx@);
                assert(node_among(v, ids@, nx@) && node_among(v, ids@, ny@));
            }
            let o = compare(nx, ny);
            match o {
                Ordering::Less => {
                    proof {
                        assert(call_ensures(compare, (nx, ny), o));
                    }
                    j = j - 1;
                },
                _ => {
                    proof {
                        assert(call_ensures(compare, (nx, ny), o));
                    }
                    done = true;
                },
            }
        }
        let ghost before = out@;
        out.insert(j, x);
        proof {
            lemma_insert_multiset(before, j + 0, x);
            lemma_take_push(ids@, i + 0);
            lemma_insert_stable(v, compare, ids@, i + 0, before, j + 0);
            assert forall|k: int| 0 <= k < out@.len() implies v.has(#[trigger] out@[k]) by {
                if k < j {
                    lemma_insert_neighbours(before, j + 0, x, k);
                } else if k > j {
                    lemma_insert_neighbours(before, j + 0, x, k - 1);
                }
            }
            assert forall|k: int| 0 <= k < out@.len() - 1 implies #[trigger] ordered_by(
                compare,
                v.node(out@[k]),
                v.node(out@[k + 1]),
            ) by {
                lemma_insert_neighbours(before, j + 0, x, k);
                if k + 1 < j {
                    assert(ordered_by(compare, v.node(before[k]), v.node(before[k + 1])));
                } else if k + 1 == j {
                    lemma_insert_neighbours(before, j + 0, x, j - 1);
                } else if k == j {
                } else {
                    lemma_insert_neighbours(before, j + 0, x, k - 1);
                    assert(ordered_by(compare, v.node(before[k - 1]), v.node(before[k])));
                }
            }
        }
        i = i + 1;
    }
    proof {
        lemma_take_all(ids@);
    }
    out
}

/// One step of the insertion sort keeps it stable: `x`, the next id of
/// `ids`, inserted at `j` in `out` past ids that `compare` put after it.
proof fn lemma_insert_stable<T, F: Fn(&Node<T>, &Node<T>) -> Ordering>(
    v: TreeView<T>,
    compare: F,
    ids: Seq<NodeId>,
    i: int,
    out: Seq<NodeId>,
    j: int,
)
    requires
        0 <= i < ids.len(),
        0 <= j <= out.len(),
        ids.no_duplicates(),
        out.to_multiset() == ids.take(i).to_multiset(),
        stable_by(v, compare, ids.take(i), out),
        forall|m: int| j <= m < out.len() ==> #[trigger] put_before(compare, v.node(ids[i]), v.node(out[m])),
    ensures
        stable_by(v, compare, ids.take(i + 1), out.insert(j, ids[i])),
{
    let x = ids[i];
    let a = ids.take(i);
    let a2 = ids.take(i + 1);
    let o2 = out.insert(j, x);
    out.insert_ensures(j, x);
    assert(a2 == a.push(x)) by {
        assert(a2 =~= a.push(x));
    }
    assert forall|y: NodeId| out.contains(y) implies a.contains(y) by {
        assert(out.to_multiset().count(y) > 0);
        assert(a.to_multiset().count(y) > 0);
    }
    assert(!out.contains(x)) by {
        if a.contains(x) {
            let t = choose|t: int| 0 <= t < a.len() && a[t] == x;
            assert(ids[t] == ids[i]);
        }
    }
    assert forall|p: int, q: int, k: int, l: int|
        0 <= p < q < a2.len() && 0 <= l < k < o2.len() && o2[k] == a2[p]
            && o2[l] == a2[q] implies put_before(compare, v.node(a2[q]), v.node(a2[p])) by {
        assert(a2[p] == ids[p]);
        assert(a2[q] == ids[q]);
        if q == i {
            if l != j {
                if l < j {
                    assert(out.contains(out[l]));
                } else {
                    assert(out.contains(out[l - 1]));
                }
            }
            assert(l == j);
            assert(o2[k] == out[k - 1]);
            assert(put_before(compare, v.node(x), v.node(out[k - 1])));
        } else {
            assert(q < i);
            if k == j {
                assert(ids[p] == ids[i]);
            }
            if l == j {
                assert(ids[q] == ids[i]);
            }
            let kk = if k < j { k } else { k - 1 };
            let ll = if l < j { l } else { l - 1 };
            assert(o2[k] == out[kk]);
            assert(o2[l] == out[ll]);
            assert(a[p] == a2[p] && a[q] == a2[q]);
            assert(ll < kk);
            assert(out[kk] == a[p] && out[ll] == a[q]);
        }
    }
}

/// Reordering the children of a node keeps a tree valid.
pub proof fn lemma_reorder_children_wf<T>(v: TreeView<T>, x: NodeId, c: Seq<NodeId>)
    requires
        v.wf(),
        v.has(x),
        c.to_multiset() == v.children(x).to_multiset(),
    ensures
        v.with_children(x, c).wf(),
{
    let u = v.with_children(x, c);
    let old_c = v.children(x);
    assert(v.node_wf(x));
    assert forall|y: NodeId| c.contains(y) <==> old_c.contains(y) by {
        assert(c.contains(y) <==> c.to_multiset().count(y) > 0);
        assert(old_c.contains(y) <==> old_c.to_multiset().count(y) > 0);
    }
    old_c.lemma_multiset_has_no_duplicates();
    c.lemma_multiset_has_no_duplicates_conv();
    assert forall|id: NodeId| #[trigger] u.has(id) implies u.node_wf(id) by {
        assert(v.has(id));
        assert(v.node_wf(id));
        if id == x {
            assert forall|j: int| 0 <= j < c.len() implies {
                &&& u.has(#[trigger] c[j])
                &&& u.parent(c[j]) == Some(id)
            } by {
                assert(c.contains(c[j]));
                let k = choose|k: int| 0 <= k < old_c.len() && old_c[k] == c[j];
                assert(v.has(old_c[k]));
                if c[j] == x {
                    assert(v.depth(x) == v.depth(x) + 1);
                }
            }
        } else {
            assert(u.children(id) == v.children(id));
            assert forall|j: int| 0 <= j < u.children(id).len() implies {
                &&& u.has(#[trigger] u.children(id)[j])
                &&& u.parent(u.children(id)[j]) == Some(id)
            } by {
                let ch = v.children(id)[j];
                assert(v.has(ch));
                if ch == x {
                    assert(u.parent(x) == v.parent(x));
                }
            }
            if let Some(p) = v.parent(id) {
                if p == x {
                    assert(old_c.contains(id));
                }
            }
        }
    }
}

impl<T> Tree<T> {
    /// Reorders the children of `node_id` with `compare`, keeping equal
    /// children in their order. `compare` is only ever called on the nodes
    /// of those children: its precondition is asked of them alone.
    ///
    /// Fails when `node_id` no longer designates a `Node` of the tree.
    pub fn sort_children_by<F>(&mut self, node_id: &NodeId, compare: F) -> (r: Result<(), NodeIdError>)
        where
            F: Fn(&Node<T>, &Node<T>) -> Ordering,
        requires
            old(self)@.wf(),
            node_id.idx() <= old(self)@.slots.len(),
            forall|a: &Node<T>, b: &Node<T>|
                node_among(old(self)@, old(self)@.children(*node_id), a@) && node_among(
                    old(self)@,
                    old(self)@.children(*node_id),
                    b@,
                ) ==> call_requires(compare, (a, b)),
        ensures
            r is Ok <==> old(self)@.has(*node_id),
            r matches Err(e) ==> e == NodeIdError::NodeIdNoLongerValid && final(self)@ == old(self)@,
            r is Ok ==> {
                &&& final(self)@ == old(self)@.with_children(*node_id, final(self)@.children(*node_id))
                &&& final(self)@.children(*node_id).to_multiset() == old(self)@.children(*node_id).to_multiset()
                &&& sorted_by(final(self)@, compare, final(self)@.children(*node_id))
                &&& stable_by(
                    final(self)@,
                    compare,
                    old(self)@.children(*node_id),
                    final(self)@.children(*node_id),
                )
                &&& final(self)@.wf()
            },
    {
        self.is_valid_node_id(node_id)?;
        let ghost v = self@;
        let children = self.node_mut(node_id).take_children();
        proof {
            assert(v.node_wf(*node_id));
            assert forall|k: int| 0 <= k < children@.len() implies self@.has(#[trigger] children@[k]) by {
                assert(v.has(children@[k]));
            }
        }
        let ghost mid = self@;
        proof {
            let b = v.children(*node_id);
            assert forall|m: int| 0 <= m < b.len() implies mid.node(#[trigger] b[m]) == v.node(b[m]) by {
                assert(v.has(b[m]));
                if b[m] == *node_id {
                    assert(v.node_wf(b[m]));
                }
            }
            assert forall|a: &Node<T>, b2: &Node<T>|
                node_among(mid, children@, a@) && node_among(mid, children@, b2@) implies call_requires(
                compare,
                (a, b2),
            ) by {
                let ka = choose|k: int| 0 <= k < children@.len() && mid.node(children@[k]) == a@;
                let kb = choose|k: int| 0 <= k < children@.len() && mid.node(children@[k]) == b2@;
                assert(mid.node(b[ka]) == v.node(b[ka]));
                assert(mid.node(b[kb]) == v.node(b[kb]));
                assert(node_among(v, b, a@) && node_among(v, b, b2@));
            }
        }
        let sorted = insertion_sort(self, children, compare);
        let ghost c = sorted@;
        self.node_mut(node_id).set_children(sorted);
        proof {
            assert(self@ == mid.with_node(*node_id, NodeView { children: c, ..mid.node(*node_id) }));
            lemma_reorder_children_wf(v, *node_id, c);
            assert(self@.slots =~= v.with_children(*node_id, c).slots);
            assert(self@ == v.with_children(*node_id, c));
            assert forall|i: int| 0 <= i < c.len() - 1 implies #[trigger] ordered_by(
                compare,
                self@.node(c[i]),
                self@.node(c[i + 1]),
            ) by {
                assert(ordered_by(compare, mid.node(c[i]), mid.node(c[i + 1])));
                assert(c.contains(c[i]) && c.contains(c[i + 1]));
                assert(c[i] != *node_id && c[i + 1] != *node_id) by {
                    if c[i] == *node_id || c[i + 1] == *node_id {
                        let w = if c[i] == *node_id { c[i] } else { c[i + 1] };
                        assert(c.to_multiset().count(w) > 0);
                        assert(v.children(*node_id).contains(w));
                        let k = choose|k: int| 0 <= k < v.children(*node_id).len() && v.children(*node_id)[k] == w;
                        assert(v.has(v.children(*node_id)[k]));
                        assert(v.node_wf(w));
                    }
                }
                assert(self@.node(c[i]) == mid.node(c[i]));
                assert(self@.node(c[i + 1]) == mid.node(c[i + 1]));
            }
            let b = v.children(*node_id);
            assert forall|m: int| 0 <= m < b.len() implies self@.node(#[trigger] b[m]) == mid.node(b[m]) by {
                assert(v.has(b[m]));
                if b[m] == *node_id {
                    assert(v.node_wf(b[m]));
                }
            }
            assert forall|p: int, q: int, k: int, l: int|
                0 <= p < q < b.len() && 0 <= l < k < c.len() && c[k] == b[p] && c[l] == b[q]
                implies put_before(compare, self@.node(b[q]), self@.node(b[p])) by {
                assert(children@[p] == b[p] && children@[q] == b[q]);
                assert(self@.node(b[q]) == mid.node(b[q]));
                assert(self@.node(b[p]) == mid.node(b[p]));
            }
        }
        Ok(())
    }

    /// Reorders the children of `node_id` by their data, keeping children
    /// with equal data in their order.
    ///
    /// Fails when `node_id` no longer designates a `Node` of the tree.
    pub fn sort_children_by_data(&mut self, node_id: &NodeId) -> (r: Result<(), NodeIdError>)
        where
            T: Ord,
        requires
            old(self)@.wf(),
            node_id.idx() <= old(self)@.slots.len(),
        ensures
            r is Ok <==> old(self)@.has(*node_id),
            r matches Err(e) ==> e == NodeIdError::NodeIdNoLongerValid && final(self)@ == old(self)@,
            r is Ok ==> {
                &&& final(self)@ == old(self)@.with_children(*node_id, final(self)@.children(*node_id))
                &&& final(self)@.children(*node_id).to_multiset() == old(self)@.children(*node_id).to_multiset()
                &&& T::obeys_cmp_spec() ==> sorted_by_data(final(self)@, final(self)@.children(*node_id))
                &&& T::obeys_cmp_spec() ==> stable_by_data(
                    final(self)@,
                    old(self)@.children(*node_id),
                    final(self)@.children(*node_id),
                )
                &&& final(self)@.wf()
            },
    {
        let by_data = |a: &Node<T>, b: &Node<T>| -> (o: Ordering)
            ensures
                T::obeys_cmp_spec() ==> o == a@.data.cmp_spec(&b@.data),
        {
            a.data().cmp(b.data())
        };
        let r = self.sort_children_by(node_id, by_data);
        proof {
            if r is Ok && T::obeys_cmp_spec() {
                let v = self@;
                let c = v.children(*node_id);
                assert forall|i: int| 0 <= i < c.len() - 1 implies #[trigger] data_ordered(
                    v.node(c[i]).data,
                    v.node(c[i + 1]).data,
                ) by {
                    assert(ordered_by(by_data, v.node(c[i]), v.node(c[i + 1])));
                }
                let b = old(self)@.children(*node_id);
                assert forall|p: int, q: int, k: int, l: int|
                    0 <= p < q < b.len() && 0 <= l < k < c.len() && c[k] == b[p] && c[l] == b[q]
                    implies v.node(b[q]).data.cmp_spec(&v.node(b[p]).data) == Ordering::Less by {
                    assert(put_before(by_data, v.node(b[q]), v.node(b[p])));
                    let (x, y, o) = choose|x: Node<T>, y: Node<T>, o: Ordering|
                        {
                            &&& x@ == v.node(b[q])
                            &&& y@ == v.node(b[p])
                            &&& call_ensures(by_data, (&x, &y), o)
                            &&& o == Ordering::Less
                        };
                    assert(call_ensures(by_data, (&x, &y), o));
                }
            }
        }
        r
    }
}

/// `a` may stand before `b` when ordered by `Ord::cmp`: `a` compares less
/// than `b`, or `b` does not compare less than `a`.
pub open spec fn data_ordered<T: Ord>(a: T, b: T) -> bool {
    a.cmp_spec(&b) == Ordering::Less || b.cmp_spec(&a) != Ordering::Less
}

/// The data of every pair of neighbours in `ids` may stand in that order.
pub open spec fn sorted_by_data<T: Ord>(v: TreeView<T>, ids: Seq<NodeId>) -> bool {
    forall|i: int|
        0 <= i < ids.len() - 1 ==> #[trigger] data_ordered(v.node(ids[i]).data, v.node(ids[i + 1]).data)
}

/// `after` keeps the order that `before` had, except where the data of the
/// later of two ids compares less than the data of the earlier one: ids
/// with equal data keep their order.
pub open spec fn stable_by_data<T: Ord>(v: TreeView<T>, before: Seq<NodeId>, after: Seq<NodeId>) -> bool {
    forall|p: int, q: int, k: int, l: int|
        #![trigger before[p], before[q], after[k], after[l]]
        0 <= p < q < before.len() && 0 <= l < k < after.len() && after[k] == before[p]
            && after[l] == before[q] ==> v.node(before[q]).data.cmp_spec(&v.node(before[p]).data)
            == Ordering::Less
}

/// When `compare` answers `Less` exactly when `lt` holds, for a strict
/// order `lt`, two nodes that may stand in order under `compare` are not
/// out of order: the second is not strictly before the first.
pub proof fn law_ordered_by_strict_order<T, F: Fn(&Node<T>, &Node<T>) -> Ordering>(
    compare: F,
    lt: spec_fn(NodeView<T>, NodeView<T>) -> bool,
    a: NodeView<T>,
    b: NodeView<T>,
)
    requires
        forall|x: Node<T>, y: Node<T>, o: Ordering|
            #[trigger] call_ensures(compare, (&x, &y), o) ==> (o == Ordering::Less <==> lt(x@, y@)),
        forall|p: NodeView<T>, q: NodeView<T>| #[trigger] lt(p, q) ==> !lt(q, p),
        ordered_by(compare, a, b),
    ensures
        !lt(b, a),
{
}

/// For data whose `cmp` is antisymmetric (`a < b` exactly when `b > a`),
/// data that may stand in order are not out of order: the second does not
/// compare less than the first.
pub proof fn law_data_ordered_antisymmetric<T: Ord>(a: T, b: T)
    requires
        forall|x: T, y: T| #[trigger] x.cmp_spec(&y) == Ordering::Less ==> y.cmp_spec(&x) == Ordering::Greater,
        data_ordered(a, b),
    ensures
        b.cmp_spec(&a) != Ordering::Less,
{
}

} // verus!
