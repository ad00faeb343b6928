use vstd::prelude::*;
use crate::node::{
    Data, Internal, Node, flat, leaves, total, wf_node, wf_nodes, lemma_cut, lemma_flat_append,
    lemma_flat_bottom, lemma_flat_split, lemma_flat_take_next, lemma_total_append, node_count,
};
use crate::options::fanouts_ok;
use crate::split::{lemma_flat_take_bound, lemma_wf_nodes_sub, make_internal, split_children};

verus! {

/// Finds the child of `children` into which leaves are inserted at
/// position `pos`: the first child `i` whose leaves, starting at `acc`,
/// reach up to `pos`.
pub fn locate_insert(children: &Vec<Node>, pos: usize, Ghost(h): Ghost<nat>, Ghost(mn): Ghost<nat>, Ghost(mx): Ghost<nat>) -> (r: (usize, usize))
    requires
        children.len() > 0,
        wf_nodes(children@, h, mn, mx),
        pos <= flat(children@, h).len(),
    ensures
        r.0 < children.len(),
        r.1 == flat(children@.take(r.0 as int), h).len(),
        r.1 <= pos <= r.1 + leaves(children@[r.0 as int], h).len(),
{
    let n = children.len();
    let mut i: usize = 0;
    let mut acc: usize = 0;
    proof {
        assert(children@.take(0) =~= Seq::<Node>::empty());
        assert(flat(Seq::<Node>::empty(), h) == Seq::<Data>::empty());
    }
    loop
        invariant
            n == children.len(),
            i < n,
            wf_nodes(children@, h, mn, mx),
            pos <= flat(children@, h).len(),
            acc == flat(children@.take(i as int), h).len(),
            acc <= pos,
        decreases n - i,
    {
        proof {
            lemma_flat_take_next(children@, i as int, h);
            lemma_flat_take_bound(children@, i + 1, h);
        }
        let c = node_count(&children[i], Ghost(h), Ghost(mn), Ghost(mn), Ghost(mx));
        if i + 1 == n || c >= pos - acc {
            proof {
                if i + 1 == n {
                    assert(children@.take(n as int) =~= children@);
                }
            }
            return (i, acc);
        }
        acc = acc + c;
        i = i + 1;
    }
}

/// Turns items into bottom-level nodes.
pub fn leaves_of(items: Vec<Data>, Ghost(mn): Ghost<nat>, Ghost(mx): Ghost<nat>) -> (r: Vec<Node>)
    ensures
        wf_nodes(r@, 0, mn, mx),
        flat(r@, 0) == items@,
        r.len() == items.len(),
{
    let mut r: Vec<Node> = Vec::new();
    let mut i: usize = 0;
    proof {
        assert(flat(Seq::<Node>::empty(), 0) == Seq::<Data>::empty());
        assert(items@.take(0) =~= Seq::<Data>::empty());
    }
    while i < items.len()
        invariant
            i <= items.len(),
            r.len() == i,
            forall|j: int| 0 <= j < i ==> r@[j] == Node::Leaf(#[trigger] items@[j]),
            flat(r@, 0) == items@.take(i as int),
        decreases items.len() - i,
    {
        let ghost before = r@;
        r.push(Node::Leaf(items[i]));
        proof {
            assert(r@.drop_last() =~= before);
            crate::node::lemma_flat_last(r@, 0);
            assert(items@.take(i + 1) =~= items@.take(i as int) + seq![items@[i as int]]);
        }
        i = i + 1;
    }
    proof {
        assert(items@.take(items.len() as int) =~= items@);
        assert forall|j: int| 0 <= j < r.len() implies wf_node(#[trigger] r@[j], 0, mn, mn, mx) by {
            assert(r@[j] == Node::Leaf(items@[j]));
        }
    }
    r
}

/// Well-formed nodes joined stay well formed.
pub proof fn lemma_wf_nodes_append(a: Seq<Node>, b: Seq<Node>, h: nat, mn: nat, mx: nat)
    requires
        wf_nodes(a, h, mn, mx),
        wf_nodes(b, h, mn, mx),
    ensures
        wf_nodes(a + b, h, mn, mx),
{
    let t = a + b;
    assert forall|i: int| 0 <= i < t.len() implies wf_node(#[trigger] t[i], h, mn, mn, mx) by {
        if i < a.len() {
            assert(t[i] == a[i]);
        } else {
            assert(t[i] == b[i - a.len()]);
        }
    }
}

/// Splicing items into a sequence adds their weight and their number.
pub proof fn lemma_total_splice(v: Seq<Data>, pos: int, ins: Seq<Data>)
    requires
        0 <= pos <= v.len(),
    ensures
        total(v.take(pos) + ins + v.skip(pos)) == total(v) + total(ins),
        (v.take(pos) + ins + v.skip(pos)).len() == v.len() + ins.len(),
{
    assert(v =~= v.take(pos) + v.skip(pos));
    lemma_total_append(v.take(pos), v.skip(pos));
    lemma_total_append(v.take(pos), ins);
    lemma_total_append(v.take(pos) + ins, v.skip(pos));
}

/// Three runs of well-formed nodes, joined.
pub proof fn lemma_join3(a: Seq<Node>, b: Seq<Node>, c: Seq<Node>, h: nat, mn: nat, mx: nat)
    requires
        wf_nodes(a, h, mn, mx),
        wf_nodes(b, h, mn, mx),
        wf_nodes(c, h, mn, mx),
    ensures
        wf_nodes(a + b + c, h, mn, mx),
        flat(a + b + c, h) == flat(a, h) + flat(b, h) + flat(c, h),
{
    lemma_flat_append(a, b, h);
    lemma_flat_append(a + b, c, h);
    lemma_wf_nodes_append(a, b, h, mn, mx);
    lemma_wf_nodes_append(a + b, c, h, mn, mx);
}

/// Splicing into one part of a sequence splices into the whole.
pub proof fn lemma_splice_nested(a: Seq<Data>, l: Seq<Data>, c: Seq<Data>, p: int, ins: Seq<Data>)
    requires
        0 <= p <= l.len(),
    ensures
        ({
            let v = a + l + c;
            let q = a.len() + p;
            a + (l.take(p) + ins + l.skip(p)) + c == v.take(q) + ins + v.skip(q)
        }),
{
    let v = a + l + c;
    let q = a.len() + p;
    assert(v.take(q) =~= a + l.take(p));
    assert(v.skip(q) =~= l.skip(p) + c);
    assert(a + (l.take(p) + ins + l.skip(p)) + c =~= v.take(q) + ins + v.skip(q));
}

/// Splices the bottom-level nodes `items` into the bottom-level nodes
/// `children` at position `pos`.
pub fn splice_leaves(children: Vec<Node>, pos: usize, items: Vec<Node>, Ghost(mn): Ghost<nat>, Ghost(mx): Ghost<nat>) -> (r: Vec<Node>)
    requires
        wf_nodes(children@, 0, mn, mx),
        wf_nodes(items@, 0, mn, mx),
        pos <= flat(children@, 0).len(),
    ensures
        wf_nodes(r@, 0, mn, mx),
        r.len() >= children.len(),
        ({
            let v = flat(children@, 0);
            flat(r@, 0) == v.take(pos as int) + flat(items@, 0) + v.skip(pos as int)
        }),
{
    let ghost old_children = children@;
    let ghost v = flat(children@, 0);
    let mut children = children;
    let mut items = items;
    proof {
        lemma_flat_bottom(old_children, mn, mx);
    }
    let mut tail = children.split_off(pos);
    let ghost head = children@;
    let ghost rest = tail@;
    proof {
        assert(old_children =~= head + rest);
        lemma_flat_append(head, rest, 0);
        lemma_wf_nodes_sub(old_children, 0, pos as int, 0, mn, mx);
        lemma_wf_nodes_sub(old_children, pos as int, old_children.len() as int, 0, mn, mx);
        assert(head =~= old_children.subrange(0, pos as int));
        assert(rest =~= old_children.subrange(pos as int, old_children.len() as int));
        lemma_flat_bottom(head, mn, mx);
        lemma_cut(flat(head, 0), flat(rest, 0));
    }
    let ghost mid = items@;
    children.append(&mut items);
    children.append(&mut tail);
    proof {
        assert(children@ =~= head + mid + rest);
        lemma_flat_append(head, mid, 0);
        lemma_flat_append(head + mid, rest, 0);
        lemma_wf_nodes_append(head, mid, 0, mn, mx);
        lemma_wf_nodes_append(head + mid, rest, 0, mn, mx);
    }
    children
}

/// Inserts the bottom-level nodes `items` at leaf position `pos` below the
/// nodes `children`, which stand `hc >= 1` levels above the leaves, and
/// returns the new run of children.
pub fn insert_below(children: Vec<Node>, hc: usize, pos: usize, items: Vec<Node>, mn: usize, mx: usize) -> (r: Vec<Node>)
    requires
        fanouts_ok(mn as nat, mx as nat),
        hc >= 1,
        children.len() > 0,
        wf_nodes(children@, hc as nat, mn as nat, mx as nat),
        pos <= flat(children@, hc as nat).len(),
        wf_nodes(items@, 0, mn as nat, mx as nat),
        total(flat(children@, hc as nat)) + total(flat(items@, 0)) <= usize::MAX,
        flat(children@, hc as nat).len() + items.len() <= usize::MAX,
    ensures
        wf_nodes(r@, hc as nat, mn as nat, mx as nat),
        r.len() >= children.len(),
        ({
            let v = flat(children@, hc as nat);
            flat(r@, hc as nat) == v.take(pos as int) + flat(items@, 0) + v.skip(pos as int)
        }),
    decreases hc + 1, 0nat,
{
    let ghost h = hc as nat;
    let ghost v = flat(children@, h);
    let ghost ins = flat(items@, 0);
    let ghost mnn = mn as nat;
    let ghost mxn = mx as nat;
    let ghost old_children = children@;
    let mut children = children;
    proof {
        lemma_flat_bottom(items@, mnn, mxn);
    }
    let (i, acc) = locate_insert(&children, pos, Ghost(h), Ghost(mnn), Ghost(mxn));
    let mut tail = children.split_off(i);
    let child = tail.remove(0);
    let ghost head = children@;
    let ghost rest = tail@;
    let ghost lc = leaves(child, h);
    proof {
        assert(head =~= old_children.take(i as int));
        assert(rest =~= old_children.skip(i + 1));
        assert(child == old_children[i as int]);
        lemma_flat_split(old_children, i as int, h);
        lemma_total_append(flat(head, h), lc);
        lemma_total_append(flat(head, h) + lc, flat(rest, h));
        lemma_wf_nodes_sub(old_children, 0, i as int, h, mnn, mxn);
        lemma_wf_nodes_sub(old_children, i + 1, old_children.len() as int, h, mnn, mxn);
        assert(head =~= old_children.subrange(0, i as int));
        assert(rest =~= old_children.subrange(i + 1, old_children.len() as int));
        assert(wf_node(child, h, mnn, mnn, mxn));
    }
    match child {
        Node::Internal(cx) => {
            let mut r = insert_into(cx, hc, Ghost(mnn), pos - acc, items, mn, mx);
            let ghost mid = r@;
            proof {
                if mid.len() == 1 {
                    assert(wf_nodes(mid, h, mnn, mxn));
                }
            }
            children.append(&mut r);
            children.append(&mut tail);
            proof {
                assert(children@ =~= head + mid + rest);
                lemma_join3(head, mid, rest, h, mnn, mxn);
                lemma_splice_nested(flat(head, h), lc, flat(rest, h), (pos - acc) as int, ins);
            }
            children
        },
        Node::Leaf(_) => {
            proof {
                assert(false);
            }
            Vec::new()
        },
    }
}

/// Puts a run of children, at height `hc`, under new internal nodes: one
/// node when they fit, or as many as splitting them gives.
pub fn regroup(children: Vec<Node>, Ghost(hc): Ghost<nat>, Ghost(lo): Ghost<nat>, mn: usize, mx: usize) -> (r: Vec<Node>)
    requires
        fanouts_ok(mn as nat, mx as nat),
        1 <= lo <= children.len(),
        wf_nodes(children@, hc, mn as nat, mx as nat),
        total(flat(children@, hc)) <= usize::MAX,
        flat(children@, hc).len() <= usize::MAX,
    ensures
        r.len() >= 1,
        r.len() <= children.len(),
        children.len() > 1 ==> r.len() < children.len(),
        r.len() == 1 ==> wf_node(r@[0], hc + 1, lo, mn as nat, mx as nat),
        r.len() > 1 ==> wf_nodes(r@, hc + 1, mn as nat, mx as nat),
        children.len() > mx ==> r.len() > 1,
        flat(r@, hc + 1) == flat(children@, hc),
{
    if children.len() <= mx {
        let y = make_internal(children, Ghost(hc), Ghost(mn as nat), Ghost(mx as nat));
        let mut r: Vec<Node> = Vec::new();
        r.push(Node::Internal(y));
        proof {
            assert(r@ =~= seq![Node::Internal(y)]);
            crate::node::lemma_flat_single(Node::Internal(y), hc + 1);
        }
        r
    } else {
        split_children(children, Ghost(hc), mn, mx)
    }
}

/// Inserts the bottom-level nodes `items` at leaf position `pos` below the
/// internal node `x`, which stands `h` levels above the leaves.
///
/// Returns the nodes that take the place of `x`, at its height and in
/// order: `x` itself, grown, when its children still fit, or else the
/// nodes that splitting its children gives.
pub fn insert_into(x: Internal, h: usize, Ghost(lo): Ghost<nat>, pos: usize, items: Vec<Node>, mn: usize, mx: usize) -> (r: Vec<Node>)
    requires
        fanouts_ok(mn as nat, mx as nat),
        h >= 1,
        1 <= lo <= mn,
        wf_node(Node::Internal(x), h as nat, lo, mn as nat, mx as nat),
        pos <= x.count,
        wf_nodes(items@, 0, mn as nat, mx as nat),
        total(leaves(Node::Internal(x), h as nat)) + total(flat(items@, 0)) <= usize::MAX,
        leaves(Node::Internal(x), h as nat).len() + items.len() <= usize::MAX,
    ensures
        r.len() >= 1,
        r.len() == 1 ==> wf_node(r@[0], h as nat, lo, mn as nat, mx as nat),
        r.len() > 1 ==> wf_nodes(r@, h as nat, mn as nat, mx as nat),
        ({
            let v = leaves(Node::Internal(x), h as nat);
            flat(r@, h as nat) == v.take(pos as int) + flat(items@, 0) + v.skip(pos as int)
        }),
    decreases h, 1nat,
{
    let ghost v = leaves(Node::Internal(x), h as nat);
    let ghost ins = flat(items@, 0);
    let ghost hc = (h - 1) as nat;
    let children = x.children;
    proof {
        lemma_flat_bottom(items@, mn as nat, mx as nat);
        lemma_total_splice(v, pos as int, ins);
    }
    let grown = if h == 1 {
        splice_leaves(children, pos, items, Ghost(mn as nat), Ghost(mx as nat))
    } else {
        insert_below(children, h - 1, pos, items, mn, mx)
    };
    regroup(grown, Ghost(hc), Ghost(lo), mn, mx)
}

} // verus!
