use vstd::prelude::*;
use crate::node::{
    Data, Internal, Node, aggregates_ok, flat, leaves, total, wf_node, wf_nodes, lemma_flat_append,
    lemma_flat_first, lemma_flat_take_next, lemma_total_append, node_count, node_key, node_size,
};
use crate::options::fanouts_ok;

verus! {

/// How a run of children is cut into consecutive chunks: `num` chunks, the
/// first `extra` of which hold `chunk_len + 1` children and the others
/// `chunk_len`.
#[derive(Clone, Copy, Debug)]
pub struct Split {
    pub num: usize,
    pub chunk_len: usize,
    pub extra: usize,
}

/// The length of chunk `c` of the plan.
pub open spec fn chunk_len_at(p: Split, c: int) -> int {
    if c < p.extra { p.chunk_len + 1 } else { p.chunk_len as int }
}

/// Plans the split of `len` children, more than fit in one node, into
/// chunks that each fit between the minimum and the maximum fanout.
///
/// The number of chunks is `(len - 1) / mn`, at least two; chunks are as
/// even as possible, the longer ones first.
pub fn plan(len: usize, mn: usize, mx: usize) -> (r: Split)
    requires
        fanouts_ok(mn as nat, mx as nat),
        len > mx,
    ensures
        r.num >= 2,
        r.num < len,
        r.extra < r.num,
        r.num * r.chunk_len + r.extra == len,
        mn <= r.chunk_len,
        r.chunk_len + (if r.extra > 0 { 1int } else { 0 }) <= mx,
{
    let d = (len - 1) / mn;
    let num = if d < 2 { 2 } else { d };
    let chunk_len = len / num;
    let extra = len % num;
    proof {
        let l = len as int;
        let n = num as int;
        let m = mn as int;
        let x = mx as int;
        assert(2 * m <= x + 1);
        assert(m >= 2);
        assert(n * m <= l) by {
            if d >= 2 {
                assert(d * m <= l - 1) by (nonlinear_arith)
                    requires d == (l - 1) / m, m > 0, l >= 1;
            }
        }
        assert(l <= n * x) by {
            if d >= 2 {
                assert(l - 1 < (d + 1) * m) by (nonlinear_arith)
                    requires d == (l - 1) / m, m > 0, l >= 1;
                assert((d + 1) * m <= d * x) by (nonlinear_arith)
                    requires d >= 2, m >= 2, 2 * m <= x + 1;
            } else {
                assert(l - 1 < 2 * m) by (nonlinear_arith)
                    requires d == (l - 1) / m, m > 0, l >= 1, d < 2;
            }
        }
        assert(n * chunk_len + extra == l) by (nonlinear_arith)
            requires chunk_len == l / n, extra == l % n, n > 0;
        assert(m <= chunk_len) by (nonlinear_arith)
            requires chunk_len == l / n, n > 0, n * m <= l;
        assert(chunk_len + (if extra > 0 { 1int } else { 0 }) <= x) by (nonlinear_arith)
            requires n * chunk_len + extra == l, l <= n * x, n > 0, extra >= 0, extra < n;
        assert(n < l) by (nonlinear_arith)
            requires n * m <= l, m >= 2, n > 0;
    }
    Split { num, chunk_len, extra }
}

/// A prefix of the nodes has no more leaves, and no more weight, than all
/// of them.
pub proof fn lemma_flat_take_bound(s: Seq<Node>, i: int, h: nat)
    requires
        0 <= i <= s.len(),
    ensures
        flat(s.take(i), h).len() <= flat(s, h).len(),
        total(flat(s.take(i), h)) <= total(flat(s, h)),
{
    assert(s =~= s.take(i) + s.skip(i));
    lemma_flat_append(s.take(i), s.skip(i), h);
    lemma_total_append(flat(s.take(i), h), flat(s.skip(i), h));
}

/// Builds the internal node over `children`, which stand `h` levels above
/// the leaves, and computes its aggregates.
pub fn make_internal(children: Vec<Node>, Ghost(h): Ghost<nat>, Ghost(mn): Ghost<nat>, Ghost(mx): Ghost<nat>) -> (x: Internal)
    requires
        children.len() > 0,
        wf_nodes(children@, h, mn, mx),
        total(flat(children@, h)) <= usize::MAX,
        flat(children@, h).len() <= usize::MAX,
    ensures
        x.children@ == children@,
        aggregates_ok(x, h + 1),
{
    let n = children.len();
    let mut size: usize = 0;
    let mut count: usize = 0;
    let mut i: usize = 0;
    proof {
        assert(children@.take(0) =~= Seq::<Node>::empty());
        assert(flat(Seq::<Node>::empty(), h) == Seq::<Data>::empty());
        assert(total(Seq::<Data>::empty()) == 0);
    }
    while i < n
        invariant
            n == children.len(),
            i <= n,
            wf_nodes(children@, h, mn, mx),
            total(flat(children@, h)) <= usize::MAX,
            flat(children@, h).len() <= usize::MAX,
            size == total(flat(children@.take(i as int), h)),
            count == flat(children@.take(i as int), h).len(),
        decreases n - i,
    {
        let ghost s = children@;
        proof {
            lemma_flat_take_next(s, i as int, h);
            lemma_total_append(flat(s.take(i as int), h), leaves(s[i as int], h));
            lemma_flat_take_bound(s, i + 1, h);
        }
        let c = &children[i];
        size = size + node_size(c, Ghost(h), Ghost(mn), Ghost(mn), Ghost(mx));
        count = count + node_count(c, Ghost(h), Ghost(mn), Ghost(mn), Ghost(mx));
        i = i + 1;
    }
    let key = node_key(&children[0], Ghost(h), Ghost(mn), Ghost(mn), Ghost(mx));
    proof {
        assert(children@.take(n as int) =~= children@);
        lemma_flat_first(children@, h, mn, mx);
    }
    Internal { children, size, count, key }
}

/// Every slice of well-formed nodes is well formed.
pub proof fn lemma_wf_nodes_sub(s: Seq<Node>, a: int, b: int, h: nat, mn: nat, mx: nat)
    requires
        wf_nodes(s, h, mn, mx),
        0 <= a <= b <= s.len(),
    ensures
        wf_nodes(s.subrange(a, b), h, mn, mx),
{
    let t = s.subrange(a, b);
    assert forall|i: int| 0 <= i < t.len() implies wf_node(#[trigger] t[i], h, mn, mn, mx) by {
        assert(t[i] == s[a + i]);
    }
}

/// Adding a well-formed node keeps nodes well formed.
pub proof fn lemma_wf_nodes_push(s: Seq<Node>, n: Node, h: nat, mn: nat, mx: nat)
    requires
        wf_nodes(s, h, mn, mx),
        wf_node(n, h, mn, mn, mx),
    ensures
        wf_nodes(s.push(n), h, mn, mx),
{
    let t = s.push(n);
    assert forall|i: int| 0 <= i < t.len() implies wf_node(#[trigger] t[i], h, mn, mn, mx) by {
        if i < s.len() {
            assert(t[i] == s[i]);
        }
    }
}

/// Cuts `children`, more than fit in one node, into new internal nodes one
/// level up, as `plan` says: every new node holds between the minimum and
/// the maximum fanout of children, and the leaves stay in order.
pub fn split_children(children: Vec<Node>, Ghost(h): Ghost<nat>, mn: usize, mx: usize) -> (r: Vec<Node>)
    requires
        fanouts_ok(mn as nat, mx as nat),
        children.len() > mx,
        wf_nodes(children@, h, mn as nat, mx as nat),
        total(flat(children@, h)) <= usize::MAX,
        flat(children@, h).len() <= usize::MAX,
    ensures
        2 <= r.len() < children.len(),
        wf_nodes(r@, h + 1, mn as nat, mx as nat),
        flat(r@, h + 1) == flat(children@, h),
{
    let ghost all = children@;
    let len = children.len();
    let p = plan(len, mn, mx);
    let mut rest = children;
    let mut out: Vec<Node> = Vec::new();
    let mut c: usize = 0;
    let mut used: usize = 0;
    proof {
        assert(flat(Seq::<Node>::empty(), h + 1) == Seq::<Data>::empty());
        assert(flat(out@, h + 1) + flat(rest@, h) =~= flat(all, h));
    }
    while c < p.num
        invariant
            fanouts_ok(mn as nat, mx as nat),
            c <= p.num,
            p.num >= 2,
            p.extra < p.num,
            p.num * p.chunk_len + p.extra == len,
            mn <= p.chunk_len,
            p.chunk_len + (if p.extra > 0 { 1int } else { 0 }) <= mx,
            used == c * p.chunk_len + (if c < p.extra { c as int } else { p.extra as int }),
            rest.len() == len - used,
            out.len() == c,
            wf_nodes(rest@, h, mn as nat, mx as nat),
            wf_nodes(out@, h + 1, mn as nat, mx as nat),
            flat(out@, h + 1) + flat(rest@, h) == flat(all, h),
            total(flat(all, h)) <= usize::MAX,
            flat(all, h).len() <= usize::MAX,
        decreases p.num - c,
    {
        let n = if c < p.extra { p.chunk_len + 1 } else { p.chunk_len };
        proof {
            let q = p.chunk_len as int;
            let k = p.num as int;
            let ci = c as int;
            assert((ci + 1) * q <= k * q) by (nonlinear_arith)
                requires ci + 1 <= k, q >= 0;
            assert((ci + 1) * q == ci * q + q) by (nonlinear_arith);
        }
        let ghost old_rest = rest@;
        let tail = rest.split_off(n);
        let chunk = rest;
        rest = tail;
        let ghost chunk_view = chunk@;
        proof {
            assert(old_rest =~= chunk@ + rest@);
            lemma_flat_append(chunk@, rest@, h);
            lemma_total_append(flat(out@, h + 1), flat(chunk@, h) + flat(rest@, h));
            lemma_total_append(flat(chunk@, h), flat(rest@, h));
            assert(wf_nodes(chunk@, h, mn as nat, mx as nat)) by {
                assert forall|i: int| 0 <= i < chunk.len() implies wf_node(#[trigger] chunk@[i], h, mn as nat, mn as nat, mx as nat) by {
                    assert(chunk@[i] == old_rest[i]);
                }
            }
            assert(wf_nodes(rest@, h, mn as nat, mx as nat)) by {
                assert forall|i: int| 0 <= i < rest.len() implies wf_node(#[trigger] rest@[i], h, mn as nat, mn as nat, mx as nat) by {
                    assert(rest@[i] == old_rest[chunk.len() + i]);
                }
            }
        }
        let x = make_internal(chunk, Ghost(h), Ghost(mn as nat), Ghost(mx as nat));
        let ghost node = Node::Internal(x);
        let ghost before = out@;
        out.push(Node::Internal(x));
        proof {
            assert(leaves(node, h + 1) == flat(chunk_view, h));
            assert(wf_node(node, h + 1, mn as nat, mn as nat, mx as nat));
            lemma_wf_nodes_push(before, node, h + 1, mn as nat, mx as nat);
            assert(out@.drop_last() =~= before);
            crate::node::lemma_flat_last(out@, h + 1);
            assert(flat(out@, h + 1) + flat(rest@, h) =~= flat(all, h));
        }
        c = c + 1;
        used = used + n;
    }
    proof {
        assert(rest@ =~= Seq::<Node>::empty());
        assert(flat(Seq::<Node>::empty(), h) == Seq::<Data>::empty());
        assert(flat(out@, h + 1) =~= flat(all, h));
    }
    out
}

} // verus!
