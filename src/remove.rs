use vstd::prelude::*;
use crate::insert::{lemma_join3, lemma_wf_nodes_append};
use crate::node::{
    Data, Internal, Node, flat, leaves, total, wf_node, wf_nodes, lemma_flat_append,
    lemma_flat_bottom, lemma_flat_split, lemma_flat_take_next, lemma_total_append, node_count,
};
use crate::options::fanouts_ok;
use crate::split::{lemma_flat_take_bound, lemma_wf_nodes_sub, make_internal};

verus! {

/// Finds the child of `children` that holds leaf position `pos`: the child
/// `i` whose leaves start at position `acc` and reach past `pos`.
pub fn locate(children: &Vec<Node>, pos: usize, Ghost(h): Ghost<nat>, Ghost(mn): Ghost<nat>, Ghost(mx): Ghost<nat>) -> (r: (usize, usize))
    requires
        wf_nodes(children@, h, mn, mx),
        pos < flat(children@, h).len(),
    ensures
        r.0 < children.len(),
        r.1 == flat(children@.take(r.0 as int), h).len(),
        r.1 <= pos < r.1 + leaves(children@[r.0 as int], h).len(),
{
    let n = children.len();
    let mut i: usize = 0;
    let mut acc: usize = 0;
    proof {
        assert(children@.take(0) =~= Seq::<Node>::empty());
        assert(flat(Seq::<Node>::empty(), h) == Seq::<Data>::empty());
        if n == 0 {
            assert(children@ =~= Seq::<Node>::empty());
        }
    }
    loop
        invariant
            n == children.len(),
            i < n,
            wf_nodes(children@, h, mn, mx),
            pos < flat(children@, h).len(),
            acc == flat(children@.take(i as int), h).len(),
            acc <= pos,
        decreases n - i,
    {
        proof {
            lemma_flat_take_next(children@, i as int, h);
            lemma_flat_take_bound(children@, i + 1, h);
        }
        let c = node_count(&children[i], Ghost(h), Ghost(mn), Ghost(mn), Ghost(mx));
        if c > pos - acc {
            return (i, acc);
        }
        proof {
            if i + 1 == n {
                assert(children@.take(n as int) =~= children@);
            }
        }
        acc = acc + c;
        i = i + 1;
    }
}

/// Joins two neighbouring internal nodes at height `h`, one of which has
/// fallen one child short, into nodes that are all well formed: one child
/// moves over from the other node when it can spare one, or else the two
/// merge into one.
pub fn rebalance(left: Internal, right: Internal, h: usize, mn: usize, mx: usize) -> (r: Vec<Node>)
    requires
        fanouts_ok(mn as nat, mx as nat),
        h >= 1,
        wf_node(Node::Internal(left), h as nat, (mn - 1) as nat, mn as nat, mx as nat),
        wf_node(Node::Internal(right), h as nat, (mn - 1) as nat, mn as nat, mx as nat),
        left.children.len() + 1 == mn || right.children.len() + 1 == mn,
        left.children.len() >= mn || right.children.len() >= mn,
        total(leaves(Node::Internal(left), h as nat)) + total(leaves(Node::Internal(right), h as nat)) <= usize::MAX,
        leaves(Node::Internal(left), h as nat).len() + leaves(Node::Internal(right), h as nat).len() <= usize::MAX,
    ensures
        1 <= r.len() <= 2,
        wf_nodes(r@, h as nat, mn as nat, mx as nat),
        flat(r@, h as nat) == leaves(Node::Internal(left), h as nat) + leaves(Node::Internal(right), h as nat),
{
    let ghost hc = (h - 1) as nat;
    let ghost mnn = mn as nat;
    let ghost mxn = mx as nat;
    let ghost lv = left.children@;
    let ghost rv = right.children@;
    let left_len = left.children.len();
    let right_len = right.children.len();
    let mut cs = left.children;
    let mut rest = right.children;
    cs.append(&mut rest);
    let ghost all = cs@;
    proof {
        assert(all =~= lv + rv);
        lemma_flat_append(lv, rv, hc);
        lemma_wf_nodes_append(lv, rv, hc, mnn, mxn);
        lemma_total_append(flat(lv, hc), flat(rv, hc));
    }
    let mut r: Vec<Node> = Vec::new();
    if left_len > mn || right_len > mn {
        // One child moves over: the first of the right node, or the last of
        // the left node.
        let k = if left_len < mn { left_len + 1 } else { left_len - 1 };
        let tail = cs.split_off(k);
        proof {
            assert(all =~= cs@ + tail@);
            lemma_flat_append(cs@, tail@, hc);
            lemma_total_append(flat(cs@, hc), flat(tail@, hc));
            lemma_wf_nodes_sub(all, 0, k as int, hc, mnn, mxn);
            lemma_wf_nodes_sub(all, k as int, all.len() as int, hc, mnn, mxn);
            assert(cs@ =~= all.subrange(0, k as int));
            assert(tail@ =~= all.subrange(k as int, all.len() as int));
        }
        let ghost a = cs@;
        let ghost b = tail@;
        let x = make_internal(cs, Ghost(hc), Ghost(mnn), Ghost(mxn));
        let y = make_internal(tail, Ghost(hc), Ghost(mnn), Ghost(mxn));
        r.push(Node::Internal(x));
        r.push(Node::Internal(y));
        proof {
            assert(wf_node(Node::Internal(x), h as nat, mnn, mnn, mxn));
            assert(wf_node(Node::Internal(y), h as nat, mnn, mnn, mxn));
            assert(r@ =~= seq![Node::Internal(x)] + seq![Node::Internal(y)]);
            lemma_flat_append(seq![Node::Internal(x)], seq![Node::Internal(y)], h as nat);
            crate::node::lemma_flat_single(Node::Internal(x), h as nat);
            crate::node::lemma_flat_single(Node::Internal(y), h as nat);
            assert forall|i: int| 0 <= i < r.len() implies wf_node(#[trigger] r@[i], h as nat, mnn, mnn, mxn) by {
                if i == 0 {
                    assert(r@[0] == Node::Internal(x));
                } else {
                    assert(r@[1] == Node::Internal(y));
                }
            }
        }
    } else {
        let x = make_internal(cs, Ghost(hc), Ghost(mnn), Ghost(mxn));
        r.push(Node::Internal(x));
        proof {
            assert(wf_node(Node::Internal(x), h as nat, mnn, mnn, mxn));
            assert(r@ =~= seq![Node::Internal(x)]);
            crate::node::lemma_flat_single(Node::Internal(x), h as nat);
            assert(wf_node(r@[0], h as nat, mnn, mnn, mxn));
        }
    }
    r
}

/// Removing from one part of a sequence removes from the whole.
pub proof fn lemma_remove_nested(a: Seq<Data>, l: Seq<Data>, c: Seq<Data>, p: int)
    requires
        0 <= p < l.len(),
    ensures
        (a + l + c).remove(a.len() + p) == a + l.remove(p) + c,
        (a + l + c)[a.len() + p] == l[p],
{
    assert((a + l + c).remove(a.len() + p) =~= a + l.remove(p) + c);
}

/// Removing an item takes its size off the total.
pub proof fn lemma_total_remove(v: Seq<Data>, p: int)
    requires
        0 <= p < v.len(),
    ensures
        total(v.remove(p)) + v[p].size == total(v),
{
    assert(v =~= v.take(p) + seq![v[p]] + v.skip(p + 1));
    assert(v.remove(p) =~= v.take(p) + v.skip(p + 1));
    lemma_total_append(v.take(p), seq![v[p]]);
    lemma_total_append(v.take(p) + seq![v[p]], v.skip(p + 1));
    lemma_total_append(v.take(p), v.skip(p + 1));
    assert(seq![v[p]].drop_last() =~= Seq::<Data>::empty());
    assert(total(Seq::<Data>::empty()) == 0);
}

/// Removes the bottom-level node at position `pos` of `children`.
pub fn remove_bottom(children: Vec<Node>, pos: usize, Ghost(mn): Ghost<nat>, Ghost(mx): Ghost<nat>) -> (r: (Vec<Node>, Data))
    requires
        wf_nodes(children@, 0, mn, mx),
        pos < flat(children@, 0).len(),
    ensures
        wf_nodes(r.0@, 0, mn, mx),
        r.0.len() + 1 == children.len(),
        r.1 == flat(children@, 0)[pos as int],
        flat(r.0@, 0) == flat(children@, 0).remove(pos as int),
{
    let ghost oc = children@;
    let ghost v = flat(oc, 0);
    let mut children = children;
    proof {
        lemma_flat_bottom(oc, mn, mx);
    }
    let removed = children.remove(pos);
    let ghost nc = children@;
    proof {
        assert(nc =~= oc.remove(pos as int));
        assert(wf_nodes(nc, 0, mn, mx)) by {
            assert forall|i: int| 0 <= i < nc.len() implies wf_node(#[trigger] nc[i], 0, mn, mn, mx) by {
                if i < pos {
                    assert(nc[i] == oc[i]);
                } else {
                    assert(nc[i] == oc[i + 1]);
                }
            }
        }
        lemma_flat_bottom(nc, mn, mx);
        assert(flat(nc, 0) =~= v.remove(pos as int)) by {
            assert forall|i: int| 0 <= i < nc.len() implies #[trigger] flat(nc, 0)[i] == v.remove(pos as int)[i] by {
                if i < pos {
                    assert(nc[i] == oc[i]);
                } else {
                    assert(nc[i] == oc[i + 1]);
                }
            }
        }
        assert(removed == oc[pos as int]);
    }
    match removed {
        Node::Leaf(d) => (children, d),
        Node::Internal(_) => {
            proof {
                assert(false);
            }
            (children, Data { value: 0, size: 0 })
        },
    }
}

/// Puts the nodes `r` in the place of position `j` of `children`.
fn splice_at(children: Vec<Node>, j: usize, r: Vec<Node>) -> (out: Vec<Node>)
    requires
        j <= children.len(),
    ensures
        out@ == children@.take(j as int) + r@ + children@.skip(j as int),
{
    let ghost oc = children@;
    let mut children = children;
    let ghost rv = r@;
    let mut r = r;
    let mut tail = children.split_off(j);
    children.append(&mut r);
    children.append(&mut tail);
    proof {
        assert(children@ =~= oc.take(j as int) + rv + oc.skip(j as int));
    }
    children
}

/// Puts the node `c`, one child short, back at place `i` of `children`
/// (the siblings it was taken from), rebalancing it with its right
/// neighbour, which is at place `i`.
fn fix_with_right(children: Vec<Node>, i: usize, c: Internal, hc: usize, mn: usize, mx: usize) -> (r: Vec<Node>)
    requires
        fanouts_ok(mn as nat, mx as nat),
        hc >= 1,
        i < children.len(),
        wf_nodes(children@, hc as nat, mn as nat, mx as nat),
        wf_node(Node::Internal(c), hc as nat, (mn - 1) as nat, mn as nat, mx as nat),
        c.children.len() + 1 == mn,
        total(flat(children@, hc as nat)) + total(leaves(Node::Internal(c), hc as nat)) <= usize::MAX,
        flat(children@, hc as nat).len() + leaves(Node::Internal(c), hc as nat).len() <= usize::MAX,
    ensures
        wf_nodes(r@, hc as nat, mn as nat, mx as nat),
        children.len() <= r.len() <= children.len() + 1,
        flat(r@, hc as nat) == flat(children@.take(i as int), hc as nat) + leaves(Node::Internal(c), hc as nat) + flat(children@.skip(i as int), hc as nat),
{
    let ghost h = hc as nat;
    let ghost mnn = mn as nat;
    let ghost mxn = mx as nat;
    let ghost s = children@;
    let ghost a = s.take(i as int);
    let ghost rest = s.skip(i + 1);
    let ghost l2 = leaves(Node::Internal(c), h);
    let mut children = children;
    let nb = children.remove(i);
    proof {
        assert(nb == s[i as int]);
        assert(children@ =~= a + rest);
        lemma_flat_split(s, i as int, h);
        assert(s.skip(i as int) =~= seq![nb] + rest);
        lemma_flat_append(seq![nb], rest, h);
        crate::node::lemma_flat_single(nb, h);
        assert(wf_node(nb, h, mnn, mnn, mxn));
        lemma_total_append(flat(a, h) + leaves(nb, h), flat(rest, h));
        lemma_total_append(flat(a, h), leaves(nb, h));
        lemma_total_append(l2, leaves(nb, h));
        lemma_wf_nodes_sub(s, 0, i as int, h, mnn, mxn);
        lemma_wf_nodes_sub(s, i + 1, s.len() as int, h, mnn, mxn);
        assert(a =~= s.subrange(0, i as int));
        assert(rest =~= s.subrange(i + 1, s.len() as int));
    }
    let nx = match nb {
        Node::Internal(nx) => nx,
        Node::Leaf(_) => {
            proof {
                assert(false);
            }
            return children;
        },
    };
    let r = rebalance(c, nx, hc, mn, mx);
    let ghost rv = r@;
    let out = splice_at(children, i, r);
    proof {
        assert((a + rest).take(i as int) =~= a);
        assert((a + rest).skip(i as int) =~= rest);
        lemma_join3(a, rv, rest, h, mnn, mxn);
        assert(flat(out@, h) =~= flat(a, h) + l2 + flat(s.skip(i as int), h));
    }
    out
}

/// Puts the node `c`, one child short, back at the end of `children` (the
/// siblings it was taken from, of which it was the last), rebalancing it
/// with its left neighbour.
fn fix_with_left(children: Vec<Node>, c: Internal, hc: usize, mn: usize, mx: usize) -> (r: Vec<Node>)
    requires
        fanouts_ok(mn as nat, mx as nat),
        hc >= 1,
        children.len() >= 1,
        wf_nodes(children@, hc as nat, mn as nat, mx as nat),
        wf_node(Node::Internal(c), hc as nat, (mn - 1) as nat, mn as nat, mx as nat),
        c.children.len() + 1 == mn,
        total(flat(children@, hc as nat)) + total(leaves(Node::Internal(c), hc as nat)) <= usize::MAX,
        flat(children@, hc as nat).len() + leaves(Node::Internal(c), hc as nat).len() <= usize::MAX,
    ensures
        wf_nodes(r@, hc as nat, mn as nat, mx as nat),
        children.len() <= r.len() <= children.len() + 1,
        flat(r@, hc as nat) == flat(children@, hc as nat) + leaves(Node::Internal(c), hc as nat),
{
    let ghost h = hc as nat;
    let ghost mnn = mn as nat;
    let ghost mxn = mx as nat;
    let ghost s = children@;
    let ghost l2 = leaves(Node::Internal(c), h);
    let mut children = children;
    let j = children.len() - 1;
    let nb = children.remove(j);
    let ghost at = s.take(j as int);
    proof {
        assert(nb == s[j as int]);
        assert(children@ =~= at);
        crate::node::lemma_flat_take_next(s, j as int, h);
        assert(s.take(j + 1) =~= s);
        assert(wf_node(nb, h, mnn, mnn, mxn));
        lemma_total_append(flat(at, h), leaves(nb, h));
        lemma_total_append(leaves(nb, h), l2);
        lemma_wf_nodes_sub(s, 0, j as int, h, mnn, mxn);
        assert(at =~= s.subrange(0, j as int));
    }
    let nx = match nb {
        Node::Internal(nx) => nx,
        Node::Leaf(_) => {
            proof {
                assert(false);
            }
            return children;
        },
    };
    let r = rebalance(nx, c, hc, mn, mx);
    let ghost rv = r@;
    let out = splice_at(children, j, r);
    proof {
        assert(at.take(j as int) =~= at);
        assert(at.skip(j as int) =~= Seq::<Node>::empty());
        assert(out@ =~= at + rv + Seq::<Node>::empty());
        lemma_join3(at, rv, Seq::<Node>::empty(), h, mnn, mxn);
        assert(flat(Seq::<Node>::empty(), h) == Seq::<Data>::empty());
        assert(flat(out@, h) =~= flat(s, h) + l2);
    }
    out
}

/// Removes the leaf at position `pos` below the nodes `children`, which
/// stand `hc >= 1` levels above the leaves, and rebalances the child that
/// lost it. Returns the new run of children, which is at most one shorter,
/// and the removed item.
pub fn remove_below(children: Vec<Node>, hc: usize, pos: usize, mn: usize, mx: usize) -> (r: (Vec<Node>, Data))
    requires
        fanouts_ok(mn as nat, mx as nat),
        hc >= 1,
        children.len() >= 2,
        wf_nodes(children@, hc as nat, mn as nat, mx as nat),
        pos < flat(children@, hc as nat).len(),
        total(flat(children@, hc as nat)) <= usize::MAX,
        flat(children@, hc as nat).len() <= usize::MAX,
    ensures
        wf_nodes(r.0@, hc as nat, mn as nat, mx as nat),
        r.0.len() + 1 >= children.len(),
        r.0.len() <= children.len(),
        r.1 == flat(children@, hc as nat)[pos as int],
        flat(r.0@, hc as nat) == flat(children@, hc as nat).remove(pos as int),
    decreases hc + 1, 0nat,
{
    let ghost h = hc as nat;
    let ghost mnn = mn as nat;
    let ghost mxn = mx as nat;
    let ghost oc = children@;
    let ghost v = flat(oc, h);
    let mut children = children;
    let (i, acc) = locate(&children, pos, Ghost(h), Ghost(mnn), Ghost(mxn));
    let child = children.remove(i);
    let ghost a = oc.take(i as int);
    let ghost b = oc.skip(i + 1);
    let ghost lc = leaves(child, h);
    proof {
        assert(children@ =~= a + b);
        assert(child == oc[i as int]);
        lemma_flat_split(oc, i as int, h);
        lemma_total_append(flat(a, h), lc);
        lemma_total_append(flat(a, h) + lc, flat(b, h));
        lemma_wf_nodes_sub(oc, 0, i as int, h, mnn, mxn);
        lemma_wf_nodes_sub(oc, i + 1, oc.len() as int, h, mnn, mxn);
        assert(a =~= oc.subrange(0, i as int));
        assert(b =~= oc.subrange(i + 1, oc.len() as int));
        assert(wf_node(child, h, mnn, mnn, mxn));
        lemma_remove_nested(flat(a, h), lc, flat(b, h), (pos - acc) as int);
        lemma_wf_nodes_append(a, b, h, mnn, mxn);
        lemma_flat_append(a, b, h);
        lemma_total_append(flat(a, h), flat(b, h));
        assert((a + b).take(i as int) =~= a);
        assert((a + b).skip(i as int) =~= b);
    }
    let cx = match child {
        Node::Internal(cx) => cx,
        Node::Leaf(_) => {
            proof {
                assert(false);
            }
            return (children, Data { value: 0, size: 0 });
        },
    };
    let (c2, d) = remove_from(cx, hc, Ghost(mnn), pos - acc, mn, mx);
    let ghost l2 = leaves(Node::Internal(c2), h);
    proof {
        lemma_total_remove(lc, (pos - acc) as int);
        lemma_total_append(flat(a, h) + flat(b, h), l2);
    }
    if c2.children.len() >= mn {
        children.insert(i, Node::Internal(c2));
        proof {
            assert(children@ =~= a + seq![Node::Internal(c2)] + b);
            assert(wf_nodes(seq![Node::Internal(c2)], h, mnn, mxn)) by {
                assert(wf_node(seq![Node::Internal(c2)][0], h, mnn, mnn, mxn));
            }
            lemma_join3(a, seq![Node::Internal(c2)], b, h, mnn, mxn);
            crate::node::lemma_flat_single(Node::Internal(c2), h);
        }
        (children, d)
    } else if i < children.len() {
        let out = fix_with_right(children, i, c2, hc, mn, mx);
        (out, d)
    } else {
        proof {
            assert(b =~= Seq::<Node>::empty());
            assert(flat(Seq::<Node>::empty(), h) == Seq::<Data>::empty());
            assert(a + b =~= a);
        }
        let out = fix_with_left(children, c2, hc, mn, mx);
        (out, d)
    }
}

/// Removes the leaf at position `pos` below the internal node `x`, which
/// stands `h` levels above the leaves. Returns the node that takes the place
/// of `x`, which may hold one child fewer than `x` was allowed, and the
/// removed item.
pub fn remove_from(x: Internal, h: usize, Ghost(lo): Ghost<nat>, pos: usize, mn: usize, mx: usize) -> (r: (Internal, Data))
    requires
        fanouts_ok(mn as nat, mx as nat),
        h >= 1,
        2 <= lo <= mn,
        wf_node(Node::Internal(x), h as nat, lo, mn as nat, mx as nat),
        pos < x.count,
    ensures
        wf_node(Node::Internal(r.0), h as nat, (lo - 1) as nat, mn as nat, mx as nat),
        r.0.children.len() + 1 >= x.children.len(),
        r.1 == leaves(Node::Internal(x), h as nat)[pos as int],
        leaves(Node::Internal(r.0), h as nat) == leaves(Node::Internal(x), h as nat).remove(pos as int),
    decreases h, 1nat,
{
    let ghost hc = (h - 1) as nat;
    let ghost v = leaves(Node::Internal(x), h as nat);
    let children = x.children;
    let (nc, d) = if h == 1 {
        remove_bottom(children, pos, Ghost(mn as nat), Ghost(mx as nat))
    } else {
        remove_below(children, h - 1, pos, mn, mx)
    };
    proof {
        assert(v.remove(pos as int).len() > 0);
        lemma_total_remove(v, pos as int);
    }
    let y = make_internal(nc, Ghost(hc), Ghost(mn as nat), Ghost(mx as nat));
    (y, d)
}

/// Puts `d` in the place of the leaf at position `pos` below the internal
/// node `x`, which stands `h` levels above the leaves, and recomputes the
/// aggregates on the path down to it. The shape of the tree stays as it
/// is. Returns the new node and the replaced item.
pub fn replace_in(x: Internal, h: usize, Ghost(lo): Ghost<nat>, pos: usize, d: Data, Ghost(mn): Ghost<nat>, Ghost(mx): Ghost<nat>) -> (r: (Internal, Data))
    requires
        h >= 1,
        wf_node(Node::Internal(x), h as nat, lo, mn, mx),
        pos < x.count,
        x.size - leaves(Node::Internal(x), h as nat)[pos as int].size + d.size <= usize::MAX,
    ensures
        wf_node(Node::Internal(r.0), h as nat, lo, mn, mx),
        r.0.children.len() == x.children.len(),
        r.1 == leaves(Node::Internal(x), h as nat)[pos as int],
        leaves(Node::Internal(r.0), h as nat) == leaves(Node::Internal(x), h as nat).update(pos as int, d),
    decreases h,
{
    let ghost hc = (h - 1) as nat;
    let ghost v = leaves(Node::Internal(x), h as nat);
    let ghost oc = x.children@;
    let mut children = x.children;
    proof {
        assert forall|j: int| 0 <= j < oc.len() implies wf_node(#[trigger] oc[j], hc, mn, mn, mx) by {
            assert(wf_node(x.children@[j], hc, mn, mn, mx));
        }
    }
    let (i, acc) = locate(&children, pos, Ghost(hc), Ghost(mn), Ghost(mx));
    let child = children.remove(i);
    let ghost a = oc.take(i as int);
    let ghost b = oc.skip(i + 1);
    let ghost lc = leaves(child, hc);
    let inner = pos - acc;
    proof {
        assert(children@ =~= a + b);
        assert(child == oc[i as int]);
        lemma_flat_split(oc, i as int, hc);
        lemma_remove_nested(flat(a, hc), lc, flat(b, hc), inner as int);
        lemma_wf_nodes_sub(oc, 0, i as int, hc, mn, mx);
        lemma_wf_nodes_sub(oc, i + 1, oc.len() as int, hc, mn, mx);
        assert(a =~= oc.subrange(0, i as int));
        assert(b =~= oc.subrange(i + 1, oc.len() as int));
        lemma_total_update(v, pos as int, d);
        lemma_total_update(lc, inner as int, d);
        lemma_total_append(flat(a, hc), lc);
        lemma_total_append(flat(a, hc) + lc, flat(b, hc));
        lemma_total_remove(lc, inner as int);
    }
    let (new_child, old) = match child {
        Node::Leaf(e) => {
            proof {
                assert(lc =~= seq![e]);
                assert(lc.update(0, d) =~= seq![d]);
            }
            (Node::Leaf(d), e)
        },
        Node::Internal(cx) => {
            let (c2, e) = replace_in(cx, h - 1, Ghost(mn), inner, d, Ghost(mn), Ghost(mx));
            (Node::Internal(c2), e)
        },
    };
    proof {
        assert(leaves(new_child, hc) == lc.update(inner as int, d));
        assert(wf_node(new_child, hc, mn, mn, mx));
    }
    children.insert(i, new_child);
    proof {
        assert(children@ =~= a + seq![new_child] + b);
        assert(wf_nodes(seq![new_child], hc, mn, mx)) by {
            assert(wf_node(seq![new_child][0], hc, mn, mn, mx));
        }
        lemma_join3(a, seq![new_child], b, hc, mn, mx);
        crate::node::lemma_flat_single(new_child, hc);
        assert(flat(a, hc) + lc.update(inner as int, d) + flat(b, hc) =~= v.update(pos as int, d));
        lemma_total_update(v, pos as int, d);
    }
    let y = make_internal(children, Ghost(hc), Ghost(mn), Ghost(mx));
    (y, old)
}

/// Replacing an item changes the total by the difference of the sizes.
pub proof fn lemma_total_update(v: Seq<Data>, p: int, d: Data)
    requires
        0 <= p < v.len(),
    ensures
        total(v.update(p, d)) + v[p].size == total(v) + d.size,
{
    lemma_total_remove(v, p);
    lemma_total_remove(v.update(p, d), p);
    assert(v.update(p, d).remove(p) =~= v.remove(p));
}

} // verus!
