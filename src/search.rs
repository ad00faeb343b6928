use vstd::prelude::*;
use core::cmp::Ordering;
use crate::key::{Value, cmp_spec};
use crate::node::{
    Data, Node, flat, leaves, prefix, total, wf_node, lemma_flat_split, lemma_flat_take_next,
    lemma_total_append, node_count, node_key, node_size,
};
use crate::split::lemma_flat_take_bound;

verus! {

/// Weighted index `t` falls within item `p` of `s`.
pub open spec fn covers(s: Seq<Data>, p: int, t: nat) -> bool {
    &&& 0 <= p < s.len()
    &&& prefix(s, p) <= t
    &&& t < prefix(s, p) + s[p].size
}

/// A lookup of weighted index `t` in `s` lands on item `p`: the item that
/// covers `t`, or, when `t` is the total size, a final item of size zero.
pub open spec fn lands_on(s: Seq<Data>, t: nat, p: int) -> bool {
    ||| covers(s, p, t)
    ||| (s.len() > 0 && p == s.len() - 1 && t == total(s) && s[p].size == 0)
}

/// A lookup of weighted index `t` in `s` finds nothing: `t` is past the
/// end, or is the end and the last item is not of size zero.
pub open spec fn misses(s: Seq<Data>, t: nat) -> bool {
    ||| t > total(s)
    ||| (t == total(s) && (s.len() == 0 || s.last().size > 0))
}

/// The weighted index one past an item.
pub proof fn lemma_prefix_next(s: Seq<Data>, p: int)
    requires
        0 <= p < s.len(),
    ensures
        prefix(s, p + 1) == prefix(s, p) + s[p].size,
{
    assert(s.take(p + 1).drop_last() =~= s.take(p));
}

/// No prefix weighs more than the whole.
pub proof fn lemma_prefix_bound(s: Seq<Data>, p: int)
    requires
        0 <= p <= s.len(),
    ensures
        prefix(s, p) <= total(s),
{
    assert(s =~= s.take(p) + s.skip(p));
    lemma_total_append(s.take(p), s.skip(p));
}

/// Weighted indices are monotone in the position.
pub proof fn lemma_prefix_mono(s: Seq<Data>, p: int, q: int)
    requires
        0 <= p <= q <= s.len(),
    ensures
        prefix(s, p) <= prefix(s, q),
{
    lemma_prefix_bound(s.take(q), p);
    assert(s.take(q).take(p) =~= s.take(p));
}

/// Positions inside the middle part of a sequence.
pub proof fn lemma_prefix_inner(a: Seq<Data>, b: Seq<Data>, c: Seq<Data>, p: int)
    requires
        0 <= p <= b.len(),
    ensures
        prefix(a + b + c, a.len() + p) == total(a) + prefix(b, p),
        p < b.len() ==> (a + b + c)[a.len() + p] == b[p],
{
    assert((a + b + c).take(a.len() + p) =~= a + b.take(p));
    lemma_total_append(a, b.take(p));
}

/// An item covers only indices below the total.
pub proof fn lemma_covers_below_total(s: Seq<Data>, p: int, t: nat)
    requires
        covers(s, p, t),
    ensures
        t < total(s),
{
    lemma_prefix_next(s, p);
    lemma_prefix_bound(s, p + 1);
}

/// Finds the item at weighted index `t` below `n`, as its position among
/// the leaves of `n`.
///
/// At each level the children are scanned while their running size stays
/// at most `t`; the search goes down into the first child that reaches past
/// `t`, or into the last one when `t` is exactly the total size.
pub fn subtree_get(n: &Node, h: usize, t: usize, Ghost(lo): Ghost<nat>, Ghost(mn): Ghost<nat>, Ghost(mx): Ghost<nat>) -> (r: Option<usize>)
    requires
        wf_node(*n, h as nat, lo, mn, mx),
    ensures
        match r {
            Some(p) => lands_on(leaves(*n, h as nat), t as nat, p as int),
            None => misses(leaves(*n, h as nat), t as nat),
        },
    decreases h,
{
    let ghost w = leaves(*n, h as nat);
    match n {
        Node::Leaf(d) => {
            proof {
                assert(w =~= seq![*d]);
                assert(w.take(0) =~= Seq::<Data>::empty());
                assert(total(Seq::<Data>::empty()) == 0);
                crate::list::lemma_total_one(*d);
            }
            if t < d.size || (t == d.size && d.size == 0) {
                Some(0)
            } else {
                None
            }
        },
        Node::Internal(x) => {
            let ghost s = x.children@;
            let ghost hc = (h - 1) as nat;
            let len = x.children.len();
            let mut i: usize = 0;
            let mut acc: usize = 0;
            let mut cnt: usize = 0;
            proof {
                assert(s.take(0) =~= Seq::<Node>::empty());
                assert(flat(Seq::<Node>::empty(), hc) == Seq::<Data>::empty());
                assert(total(Seq::<Data>::empty()) == 0);
                assert(crate::node::wf_nodes(s, hc, mn, mx)) by {
                    assert forall|j: int| 0 <= j < s.len() implies wf_node(#[trigger] s[j], hc, mn, mn, mx) by {
                        assert(wf_node(x.children@[j], hc, mn, mn, mx));
                    }
                }
            }
            loop
                invariant
                    crate::node::wf_nodes(s, hc, mn, mx),
                    *n == Node::Internal(*x),
                    s == x.children@,
                    w == flat(s, hc),
                    w.len() <= usize::MAX,
                    hc == (h - 1) as nat,
                    h >= 1,
                    len == s.len(),
                    i < len,
                    acc == total(flat(s.take(i as int), hc)),
                    cnt == flat(s.take(i as int), hc).len(),
                    acc <= t,
                decreases len - i,
            {
                let c = &x.children[i];
                proof {
                    assert(wf_node(s[i as int], hc, mn, mn, mx));
                    lemma_flat_take_next(s, i as int, hc);
                    lemma_total_append(flat(s.take(i as int), hc), leaves(s[i as int], hc));
                    lemma_flat_take_bound(s, i + 1, hc);
                    lemma_flat_split(s, i as int, hc);
                }
                let sz = node_size(c, Ghost(hc), Ghost(mn), Ghost(mn), Ghost(mx));
                let k = node_count(c, Ghost(hc), Ghost(mn), Ghost(mn), Ghost(mx));
                let ghost a = flat(s.take(i as int), hc);
                let ghost b = leaves(s[i as int], hc);
                let ghost rest = flat(s.skip(i + 1), hc);
                if t - acc < sz {
                    let r = subtree_get(c, h - 1, t - acc, Ghost(mn), Ghost(mn), Ghost(mx));
                    match r {
                        Some(p) => {
                            proof {
                                if !covers(b, p as int, (t - acc) as nat) {
                                    assert(false);
                                }
                                lemma_prefix_inner(a, b, rest, p as int);
                            }
                            return Some(cnt + p);
                        },
                        None => {
                            proof {
                                assert(false);
                            }
                            return None;
                        },
                    }
                }
                if i + 1 == len {
                    proof {
                        assert(s.take(len as int) =~= s);
                        assert(s.skip(len as int) =~= Seq::<Node>::empty());
                        assert(a + b + rest =~= w);
                    }
                    if t - acc == sz {
                        let r = subtree_get(c, h - 1, t - acc, Ghost(mn), Ghost(mn), Ghost(mx));
                        match r {
                            Some(p) => {
                                proof {
                                    if covers(b, p as int, (t - acc) as nat) {
                                        lemma_covers_below_total(b, p as int, (t - acc) as nat);
                                    }
                                    lemma_prefix_inner(a, b, rest, p as int);
                                }
                                return Some(cnt + p);
                            },
                            None => {
                                return None;
                            },
                        }
                    }
                    return None;
                }
                acc = acc + sz;
                cnt = cnt + k;
                i = i + 1;
            }
        },
    }
}

/// The children of a well-formed internal node are well formed.
pub proof fn lemma_children_wf(n: Node, h: nat, lo: nat, mn: nat, mx: nat)
    requires
        wf_node(n, h, lo, mn, mx),
        n is Internal,
    ensures
        crate::node::wf_nodes(n->Internal_0.children@, (h - 1) as nat, mn, mx),
        leaves(n, h) == flat(n->Internal_0.children@, (h - 1) as nat),
        leaves(n, h).len() == n->Internal_0.count,
        total(leaves(n, h)) == n->Internal_0.size,
        n->Internal_0.children.len() > 0,
        h >= 1,
{
    let s = n->Internal_0.children@;
    assert forall|j: int| 0 <= j < s.len() implies wf_node(#[trigger] s[j], (h - 1) as nat, mn, mn, mx) by {
        assert(wf_node(n->Internal_0.children@[j], (h - 1) as nat, mn, mn, mx));
    }
}

/// The weighted index of leaf position `pos` below `n`: the sum of the
/// sizes of the leaves before it.
///
/// At each level the sizes of the children before the one that holds `pos`
/// are added up.
pub fn subtree_index(n: &Node, h: usize, pos: usize, Ghost(lo): Ghost<nat>, Ghost(mn): Ghost<nat>, Ghost(mx): Ghost<nat>) -> (r: usize)
    requires
        wf_node(*n, h as nat, lo, mn, mx),
        pos < leaves(*n, h as nat).len(),
    ensures
        r == prefix(leaves(*n, h as nat), pos as int),
    decreases h,
{
    let ghost w = leaves(*n, h as nat);
    match n {
        Node::Leaf(d) => {
            proof {
                assert(w.take(0) =~= Seq::<Data>::empty());
                assert(total(Seq::<Data>::empty()) == 0);
            }
            0
        },
        Node::Internal(x) => {
            let ghost s = x.children@;
            let ghost hc = (h - 1) as nat;
            proof {
                lemma_children_wf(*n, h as nat, lo, mn, mx);
                lemma_prefix_bound(w, pos as int);
            }
            let len = x.children.len();
            let mut i: usize = 0;
            let mut acc: usize = 0;
            let mut cnt: usize = 0;
            proof {
                assert(s.take(0) =~= Seq::<Node>::empty());
                assert(flat(Seq::<Node>::empty(), hc) == Seq::<Data>::empty());
                assert(total(Seq::<Data>::empty()) == 0);
            }
            loop
                invariant
                    crate::node::wf_nodes(s, hc, mn, mx),
                    s == x.children@,
                    w == flat(s, hc),
                    w == leaves(*n, h as nat),
                    total(w) <= usize::MAX,
                    hc == (h - 1) as nat,
                    h >= 1,
                    len == s.len(),
                    i < len,
                    pos < w.len(),
                    acc == total(flat(s.take(i as int), hc)),
                    cnt == flat(s.take(i as int), hc).len(),
                    cnt <= pos,
                decreases len - i,
            {
                let c = &x.children[i];
                proof {
                    lemma_flat_take_next(s, i as int, hc);
                    lemma_total_append(flat(s.take(i as int), hc), leaves(s[i as int], hc));
                    lemma_flat_take_bound(s, i + 1, hc);
                    lemma_flat_split(s, i as int, hc);
                }
                let sz = node_size(c, Ghost(hc), Ghost(mn), Ghost(mn), Ghost(mx));
                let k = node_count(c, Ghost(hc), Ghost(mn), Ghost(mn), Ghost(mx));
                let ghost a = flat(s.take(i as int), hc);
                let ghost b = leaves(s[i as int], hc);
                let ghost rest = flat(s.skip(i + 1), hc);
                if pos - cnt < k {
                    let r = subtree_index(c, h - 1, pos - cnt, Ghost(mn), Ghost(mn), Ghost(mx));
                    proof {
                        assert(w == a + b + rest);
                        assert(a.len() + (pos - cnt) == pos);
                        lemma_prefix_inner(a, b, rest, (pos - cnt) as int);
                        lemma_prefix_bound(b, (pos - cnt) as int);
                    }
                    return acc + r;
                }
                proof {
                    if i + 1 == len {
                        assert(s.take(len as int) =~= s);
                    }
                }
                acc = acc + sz;
                cnt = cnt + k;
                i = i + 1;
            }
        },
    }
}

/// The leaf at position `pos` below `n`.
pub fn subtree_item(n: &Node, h: usize, pos: usize, Ghost(lo): Ghost<nat>, Ghost(mn): Ghost<nat>, Ghost(mx): Ghost<nat>) -> (r: Data)
    requires
        wf_node(*n, h as nat, lo, mn, mx),
        pos < leaves(*n, h as nat).len(),
    ensures
        r == leaves(*n, h as nat)[pos as int],
    decreases h,
{
    match n {
        Node::Leaf(d) => *d,
        Node::Internal(x) => {
            proof {
                lemma_children_wf(*n, h as nat, lo, mn, mx);
            }
            let (i, acc) = crate::remove::locate(&x.children, pos, Ghost((h - 1) as nat), Ghost(mn), Ghost(mx));
            proof {
                let s = x.children@;
                let hc = (h - 1) as nat;
                lemma_flat_split(s, i as int, hc);
                crate::remove::lemma_remove_nested(flat(s.take(i as int), hc), leaves(s[i as int], hc), flat(s.skip(i + 1), hc), (pos - acc) as int);
            }
            subtree_item(&x.children[i], h - 1, pos - acc, Ghost(mn), Ghost(mn), Ghost(mx))
        },
    }
}

/// The leftmost leaf below `n`.
pub fn subtree_first(n: &Node, h: usize, Ghost(lo): Ghost<nat>, Ghost(mn): Ghost<nat>, Ghost(mx): Ghost<nat>) -> (r: Data)
    requires
        wf_node(*n, h as nat, lo, mn, mx),
    ensures
        leaves(*n, h as nat).len() > 0,
        r == leaves(*n, h as nat)[0],
    decreases h,
{
    match n {
        Node::Leaf(d) => *d,
        Node::Internal(x) => {
            proof {
                lemma_children_wf(*n, h as nat, lo, mn, mx);
                crate::node::lemma_flat_first(x.children@, (h - 1) as nat, mn, mx);
            }
            subtree_first(&x.children[0], h - 1, Ghost(mn), Ghost(mn), Ghost(mx))
        },
    }
}

/// The rightmost leaf below `n`.
pub fn subtree_last(n: &Node, h: usize, Ghost(lo): Ghost<nat>, Ghost(mn): Ghost<nat>, Ghost(mx): Ghost<nat>) -> (r: Data)
    requires
        wf_node(*n, h as nat, lo, mn, mx),
    ensures
        leaves(*n, h as nat).len() > 0,
        r == leaves(*n, h as nat).last(),
    decreases h,
{
    match n {
        Node::Leaf(d) => *d,
        Node::Internal(x) => {
            let last = x.children.len() - 1;
            proof {
                lemma_children_wf(*n, h as nat, lo, mn, mx);
                crate::node::lemma_flat_last(x.children@, (h - 1) as nat);
                crate::node::lemma_wf_nonempty(x.children@[last as int], (h - 1) as nat, mn, mn, mx);
            }
            subtree_last(&x.children[last], h - 1, Ghost(mn), Ghost(mn), Ghost(mx))
        },
    }
}

/// What an ordered lookup of key `q` in `s` may return: a position whose
/// item compares equal to `q`; the position of an item that compares below
/// `q` whose successor, if any, compares above; or nothing, when the first
/// item, if any, compares above.
///
/// When the items compare in strictly increasing order, exactly one result
/// fits.
pub open spec fn find_ok(s: Seq<Data>, q: Value, r: Result<usize, Option<usize>>) -> bool {
    match r {
        Ok(p) => p < s.len() && cmp_spec(q, s[p as int].value) == Ordering::Equal,
        Err(Some(p)) => {
            &&& p < s.len()
            &&& cmp_spec(q, s[p as int].value) == Ordering::Less
            &&& (p + 1 == s.len() || cmp_spec(q, s[p + 1].value) == Ordering::Greater)
        },
        Err(None) => s.len() == 0 || cmp_spec(q, s[0].value) == Ordering::Greater,
    }
}

/// Moves a lookup result for the middle part `b` of `a + b + c` to the
/// whole, given that `b` starts below `key` and `c` starts above it.
fn lift(r: Result<usize, Option<usize>>, off: usize, Ghost(a): Ghost<Seq<Data>>, Ghost(b): Ghost<Seq<Data>>, Ghost(c): Ghost<Seq<Data>>, Ghost(q): Ghost<Value>) -> (out: Result<usize, Option<usize>>)
    requires
        off == a.len(),
        a.len() + b.len() + c.len() <= usize::MAX,
        b.len() > 0,
        cmp_spec(q, b[0].value) == Ordering::Less,
        c.len() == 0 || cmp_spec(q, c[0].value) == Ordering::Greater,
        find_ok(b, q, r),
    ensures
        find_ok(a + b + c, q, out),
        match out {
            Ok(p) => p >= off,
            Err(Some(p)) => p >= off,
            Err(None) => false,
        },
{
    let ghost s = a + b + c;
    match r {
        Ok(p) => {
            proof {
                assert(s[off + p] == b[p as int]);
            }
            Ok(off + p)
        },
        Err(Some(p)) => {
            proof {
                assert(s[off + p] == b[p as int]);
                if p + 1 < b.len() {
                    assert(s[off + p + 1] == b[p + 1]);
                } else if c.len() > 0 {
                    assert(s[off + p + 1] == c[0]);
                }
            }
            Err(Some(off + p))
        },
        Err(None) => {
            proof {
                assert(false);
            }
            Err(None)
        },
    }
}

/// Looks key `q` up among the leaves below `n`, going down by the cached
/// leftmost values: into the last child whose leftmost value compares
/// below `q`, or straight to a child whose leftmost value compares equal.
pub fn subtree_find(n: &Node, h: usize, q: &Value, Ghost(lo): Ghost<nat>, Ghost(mn): Ghost<nat>, Ghost(mx): Ghost<nat>) -> (r: Result<usize, Option<usize>>)
    requires
        wf_node(*n, h as nat, lo, mn, mx),
    ensures
        find_ok(leaves(*n, h as nat), *q, r),
    decreases h,
{
    let ghost w = leaves(*n, h as nat);
    match n {
        Node::Leaf(d) => {
            match q.compare(d.value) {
                Ordering::Equal => Ok(0),
                Ordering::Greater => Err(None),
                Ordering::Less => Err(Some(0)),
            }
        },
        Node::Internal(x) => {
            let ghost s = x.children@;
            let ghost hc = (h - 1) as nat;
            proof {
                lemma_children_wf(*n, h as nat, lo, mn, mx);
                assert(s.take(0) =~= Seq::<Node>::empty());
                assert(flat(Seq::<Node>::empty(), hc) == Seq::<Data>::empty());
            }
            let len = x.children.len();
            let mut i: usize = 0;
            let mut cnt: usize = 0;
            let mut prev_cnt: usize = 0;
            loop
                invariant
                    crate::node::wf_nodes(s, hc, mn, mx),
                    s == x.children@,
                    w == flat(s, hc),
                    w == leaves(*n, h as nat),
                    w.len() <= usize::MAX,
                    hc == (h - 1) as nat,
                    h >= 1,
                    len == s.len(),
                    len > 0,
                    i < len,
                    cnt == flat(s.take(i as int), hc).len(),
                    i > 0 ==> prev_cnt == flat(s.take(i - 1), hc).len(),
                    forall|j: int| 0 <= j < i ==> cmp_spec(*q, (#[trigger] leaves(s[j], hc))[0].value) == Ordering::Less,
                decreases len - i,
            {
                let c = &x.children[i];
                let k = node_key(c, Ghost(hc), Ghost(mn), Ghost(mn), Ghost(mx));
                proof {
                    lemma_flat_take_next(s, i as int, hc);
                    lemma_flat_take_bound(s, i + 1, hc);
                    lemma_flat_split(s, i as int, hc);
                    lemma_prefix_inner(flat(s.take(i as int), hc), leaves(s[i as int], hc), flat(s.skip(i + 1), hc), 0);
                }
                let o = q.compare(k);
                if let Ordering::Equal = o {
                    return Ok(cnt);
                }
                if let Ordering::Greater = o {
                    if i == 0 {
                        return Err(None);
                    }
                    let j = i - 1;
                    let ghost a = flat(s.take(j as int), hc);
                    let ghost b = leaves(s[j as int], hc);
                    let ghost rest = flat(s.skip(i as int), hc);
                    proof {
                        lemma_flat_split(s, j as int, hc);
                        assert(s.skip(j + 1) =~= s.skip(i as int));
                        lemma_flat_split(s.skip(i as int), 0, hc);
                        assert(s.skip(i as int).take(0) =~= Seq::<Node>::empty());
                        assert(s.skip(i as int)[0] == s[i as int]);
                        crate::node::lemma_wf_nonempty(s[j as int], hc, mn, mn, mx);
                        assert(cmp_spec(*q, leaves(s[j as int], hc)[0].value) == Ordering::Less);
                    }
                    let r = subtree_find(&x.children[j], h - 1, q, Ghost(mn), Ghost(mn), Ghost(mx));
                    return lift(r, prev_cnt, Ghost(a), Ghost(b), Ghost(rest), Ghost(*q));
                }
                if i + 1 == len {
                    let ghost a = flat(s.take(i as int), hc);
                    let ghost b = leaves(s[i as int], hc);
                    let ghost rest = flat(s.skip(i + 1), hc);
                    proof {
                        assert(s.skip(i + 1) =~= Seq::<Node>::empty());
                    }
                    let r = subtree_find(c, h - 1, q, Ghost(mn), Ghost(mn), Ghost(mx));
                    return lift(r, cnt, Ghost(a), Ghost(b), Ghost(rest), Ghost(*q));
                }
                prev_cnt = cnt;
                cnt = cnt + node_count(c, Ghost(hc), Ghost(mn), Ghost(mn), Ghost(mx));
                i = i + 1;
            }
        },
    }
}

/// What an ordered lookup of `q` among the items of `s` from position
/// `from` on may return: as `find_ok` says of that suffix, with positions
/// counted in `s`, where nothing means that the item at `from` already
/// compares above `q`.
pub open spec fn find_from_ok(s: Seq<Data>, from: int, q: Value, r: Result<usize, Option<usize>>) -> bool {
    match r {
        Ok(p) => from <= p < s.len() && cmp_spec(q, s[p as int].value) == Ordering::Equal,
        Err(Some(p)) => {
            &&& from <= p < s.len()
            &&& cmp_spec(q, s[p as int].value) == Ordering::Less
            &&& (p + 1 == s.len() || cmp_spec(q, s[p + 1].value) == Ordering::Greater)
        },
        Err(None) => 0 <= from < s.len() && cmp_spec(q, s[from].value) == Ordering::Greater,
    }
}

/// A shorter prefix of nodes has no more leaves.
pub proof fn lemma_flat_take_mono(s: Seq<Node>, a: int, b: int, h: nat)
    requires
        0 <= a <= b <= s.len(),
    ensures
        flat(s.take(a), h).len() <= flat(s.take(b), h).len(),
{
    lemma_flat_take_bound(s.take(b), a, h);
    assert(s.take(b).take(a) =~= s.take(a));
}

/// Looks key `q` up among the leaves below `n` from leaf position `from`
/// on: first within the child that holds `from`, then, if everything there
/// compares below `q`, by the cached leftmost values of the children to its
/// right.
pub fn subtree_find_from(n: &Node, h: usize, q: &Value, from: usize, Ghost(lo): Ghost<nat>, Ghost(mn): Ghost<nat>, Ghost(mx): Ghost<nat>) -> (r: Result<usize, Option<usize>>)
    requires
        wf_node(*n, h as nat, lo, mn, mx),
        from < leaves(*n, h as nat).len(),
    ensures
        find_from_ok(leaves(*n, h as nat), from as int, *q, r),
    decreases h,
{
    let ghost w = leaves(*n, h as nat);
    match n {
        Node::Leaf(d) => {
            match q.compare(d.value) {
                Ordering::Equal => Ok(0),
                Ordering::Greater => Err(None),
                Ordering::Less => Err(Some(0)),
            }
        },
        Node::Internal(x) => {
            let ghost s = x.children@;
            let ghost hc = (h - 1) as nat;
            proof {
                lemma_children_wf(*n, h as nat, lo, mn, mx);
            }
            let (j, acc) = crate::remove::locate(&x.children, from, Ghost(hc), Ghost(mn), Ghost(mx));
            let cj = &x.children[j];
            let kj = node_count(cj, Ghost(hc), Ghost(mn), Ghost(mn), Ghost(mx));
            let ghost a = flat(s.take(j as int), hc);
            let ghost b = leaves(s[j as int], hc);
            let ghost c = flat(s.skip(j + 1), hc);
            proof {
                lemma_flat_split(s, j as int, hc);
                assert(w == a + b + c);
            }
            let r = subtree_find_from(cj, h - 1, q, from - acc, Ghost(mn), Ghost(mn), Ghost(mx));
            let p = match r {
                Ok(p) => {
                    proof {
                        lemma_prefix_inner(a, b, c, p as int);
                    }
                    return Ok(acc + p);
                },
                Err(None) => {
                    proof {
                        lemma_prefix_inner(a, b, c, (from - acc) as int);
                    }
                    return Err(None);
                },
                Err(Some(p)) => p,
            };
            proof {
                lemma_prefix_inner(a, b, c, p as int);
            }
            if p + 1 < kj {
                proof {
                    lemma_prefix_inner(a, b, c, p + 1);
                }
                return Err(Some(acc + p));
            }
            // Everything from `from` to the end of child `j` compares below
            // `q`: go on with the children to its right.
            let len = x.children.len();
            let last = acc + p;
            let mut i: usize = j + 1;
            let mut cnt: usize = acc + kj;
            let mut prev_cnt: usize = acc;
            proof {
                lemma_flat_take_next(s, j as int, hc);
                lemma_flat_take_bound(s, j + 1, hc);
                assert(w[last as int] == b[p as int]);
            }
            loop
                invariant
                    crate::node::wf_nodes(s, hc, mn, mx),
                    s == x.children@,
                    w == flat(s, hc),
                    w == leaves(*n, h as nat),
                    w.len() <= usize::MAX,
                    hc == (h - 1) as nat,
                    h >= 1,
                    len == s.len(),
                    j < i <= len,
                    from <= last < w.len(),
                    last + 1 == flat(s.take(j + 1), hc).len(),
                    cmp_spec(*q, w[last as int].value) == Ordering::Less,
                    cnt == flat(s.take(i as int), hc).len(),
                    prev_cnt == flat(s.take(i - 1), hc).len(),
                    forall|k: int| j < k < i ==> cmp_spec(*q, (#[trigger] leaves(s[k], hc))[0].value) == Ordering::Less,
                decreases len - i,
            {
                proof {
                    lemma_flat_take_mono(s, j + 1, i as int, hc);
                    if i > j + 1 {
                        lemma_flat_take_mono(s, j + 1, i - 1, hc);
                    }
                }
                if i == len {
                    proof {
                        assert(s.take(len as int) =~= s);
                    }
                    if i == j + 1 {
                        return Err(Some(last));
                    }
                    let k = i - 1;
                    let ghost a2 = flat(s.take(k as int), hc);
                    let ghost b2 = leaves(s[k as int], hc);
                    let ghost c2 = flat(s.skip(i as int), hc);
                    proof {
                        lemma_flat_split(s, k as int, hc);
                        assert(s.skip(k + 1) =~= s.skip(i as int));
                        assert(s.skip(i as int) =~= Seq::<Node>::empty());
                        assert(flat(Seq::<Node>::empty(), hc) == Seq::<Data>::empty());
                        crate::node::lemma_wf_nonempty(s[k as int], hc, mn, mn, mx);
                    }
                    let r = subtree_find(&x.children[k], h - 1, q, Ghost(mn), Ghost(mn), Ghost(mx));
                    return lift(r, prev_cnt, Ghost(a2), Ghost(b2), Ghost(c2), Ghost(*q));
                }
                let c = &x.children[i];
                let key = node_key(c, Ghost(hc), Ghost(mn), Ghost(mn), Ghost(mx));
                proof {
                    lemma_flat_take_next(s, i as int, hc);
                    lemma_flat_take_bound(s, i + 1, hc);
                    lemma_flat_split(s, i as int, hc);
                    lemma_prefix_inner(flat(s.take(i as int), hc), leaves(s[i as int], hc), flat(s.skip(i + 1), hc), 0);
                }
                let o = q.compare(key);
                if let Ordering::Equal = o {
                    return Ok(cnt);
                }
                if let Ordering::Greater = o {
                    if i == j + 1 {
                        return Err(Some(last));
                    }
                    let k = i - 1;
                    let ghost a2 = flat(s.take(k as int), hc);
                    let ghost b2 = leaves(s[k as int], hc);
                    let ghost c2 = flat(s.skip(i as int), hc);
                    proof {
                        lemma_flat_split(s, k as int, hc);
                        assert(s.skip(k + 1) =~= s.skip(i as int));
                        lemma_flat_split(s.skip(i as int), 0, hc);
                        assert(s.skip(i as int).take(0) =~= Seq::<Node>::empty());
                        assert(s.skip(i as int)[0] == s[i as int]);
                        crate::node::lemma_wf_nonempty(s[k as int], hc, mn, mn, mx);
                    }
                    let r = subtree_find(&x.children[k], h - 1, q, Ghost(mn), Ghost(mn), Ghost(mx));
                    return lift(r, prev_cnt, Ghost(a2), Ghost(b2), Ghost(c2), Ghost(*q));
                }
                prev_cnt = cnt;
                cnt = cnt + node_count(c, Ghost(hc), Ghost(mn), Ghost(mn), Ghost(mx));
                i = i + 1;
            }
        },
    }
}

} // verus!
