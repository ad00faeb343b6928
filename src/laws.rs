use vstd::prelude::*;
use crate::list::SkipList;
use crate::node::{
    Data, Node, flat, leaves, prefix, total, wf_node, wf_nodes, lemma_flat_first, lemma_flat_last,
    lemma_leaves_exceed_height, lemma_total_append,
};
use crate::options::min_fanout_spec;
use crate::search::{covers, lands_on, lemma_prefix_bound, lemma_prefix_mono, lemma_prefix_next};

verus! {

/// Every leaf below `n` lies exactly `h` levels down.
pub open spec fn leaves_at_depth(n: Node, h: nat) -> bool
    decreases h,
{
    match n {
        Node::Leaf(_) => h == 0,
        Node::Internal(x) => {
            &&& h > 0
            &&& forall|i: int| 0 <= i < x.children.len() ==> leaves_at_depth(#[trigger] x.children@[i], (h - 1) as nat)
        },
    }
}

/// `n` has between `lo` and `mx` children if it is internal, and every
/// internal node below it between `mn` and `mx`.
pub open spec fn fanout_within(n: Node, h: nat, lo: nat, mn: nat, mx: nat) -> bool
    decreases h,
{
    match n {
        Node::Leaf(_) => true,
        Node::Internal(x) => {
            &&& h > 0
            &&& lo <= x.children.len() <= mx
            &&& forall|i: int| 0 <= i < x.children.len() ==> fanout_within(#[trigger] x.children@[i], (h - 1) as nat, mn, mn, mx)
        },
    }
}

/// The sum of the sizes of the nodes `s`.
pub open spec fn sum_of_sizes(s: Seq<Node>, h: nat) -> nat
    decreases s.len(),
{
    if s.len() == 0 {
        0
    } else {
        sum_of_sizes(s.drop_last(), h) + total(leaves(s.last(), h))
    }
}

/// The sum of the leaf counts of the nodes `s`.
pub open spec fn sum_of_counts(s: Seq<Node>, h: nat) -> nat
    decreases s.len(),
{
    if s.len() == 0 {
        0
    } else {
        sum_of_counts(s.drop_last(), h) + leaves(s.last(), h).len()
    }
}

/// Every internal node at or below `n` caches the sum of its children's
/// sizes and of their leaf counts.
pub open spec fn aggregates_exact(n: Node, h: nat) -> bool
    decreases h,
{
    match n {
        Node::Leaf(_) => true,
        Node::Internal(x) => {
            &&& h > 0
            &&& x.size == sum_of_sizes(x.children@, (h - 1) as nat)
            &&& x.count == sum_of_counts(x.children@, (h - 1) as nat)
            &&& forall|i: int| 0 <= i < x.children.len() ==> aggregates_exact(#[trigger] x.children@[i], (h - 1) as nat)
        },
    }
}

/// The leftmost leaf below `n`, reached by always taking the first child.
pub open spec fn leftmost(n: Node, h: nat) -> Data
    decreases h,
{
    match n {
        Node::Leaf(d) => d,
        Node::Internal(x) => if h == 0 || x.children.len() == 0 {
            Data { value: 0, size: 0 }
        } else {
            leftmost(x.children@[0], (h - 1) as nat)
        },
    }
}

/// Every internal node at or below `n` caches the value of its leftmost
/// leaf.
pub open spec fn keys_exact(n: Node, h: nat) -> bool
    decreases h,
{
    match n {
        Node::Leaf(_) => true,
        Node::Internal(x) => {
            &&& h > 0
            &&& x.key == leftmost(n, h).value
            &&& forall|i: int| 0 <= i < x.children.len() ==> keys_exact(#[trigger] x.children@[i], (h - 1) as nat)
        },
    }
}

proof fn lemma_children(x: crate::node::Internal, h: nat, lo: nat, mn: nat, mx: nat)
    requires
        wf_node(Node::Internal(x), h, lo, mn, mx),
    ensures
        wf_nodes(x.children@, (h - 1) as nat, mn, mx),
{
    assert forall|i: int| 0 <= i < x.children.len() implies wf_node(#[trigger] x.children@[i], (h - 1) as nat, mn, mn, mx) by {
    }
}

proof fn lemma_depth(n: Node, h: nat, lo: nat, mn: nat, mx: nat)
    requires
        wf_node(n, h, lo, mn, mx),
    ensures
        leaves_at_depth(n, h),
    decreases h,
{
    if let Node::Internal(x) = n {
        lemma_children(x, h, lo, mn, mx);
        assert forall|i: int| 0 <= i < x.children.len() implies leaves_at_depth(#[trigger] x.children@[i], (h - 1) as nat) by {
            lemma_depth(x.children@[i], (h - 1) as nat, mn, mn, mx);
        }
    }
}

proof fn lemma_fanout(n: Node, h: nat, lo: nat, mn: nat, mx: nat)
    requires
        wf_node(n, h, lo, mn, mx),
    ensures
        fanout_within(n, h, lo, mn, mx),
    decreases h,
{
    if let Node::Internal(x) = n {
        lemma_children(x, h, lo, mn, mx);
        assert forall|i: int| 0 <= i < x.children.len() implies fanout_within(#[trigger] x.children@[i], (h - 1) as nat, mn, mn, mx) by {
            lemma_fanout(x.children@[i], (h - 1) as nat, mn, mn, mx);
        }
    }
}

/// The leaves of nodes weigh the sum of the nodes' sizes, and number the
/// sum of their counts.
proof fn lemma_sums(s: Seq<Node>, h: nat)
    ensures
        total(flat(s, h)) == sum_of_sizes(s, h),
        flat(s, h).len() == sum_of_counts(s, h),
    decreases s.len(),
{
    if s.len() == 0 {
        assert(flat(s, h) =~= Seq::<Data>::empty());
        assert(total(Seq::<Data>::empty()) == 0);
    } else {
        lemma_sums(s.drop_last(), h);
        lemma_flat_last(s, h);
        lemma_total_append(flat(s.drop_last(), h), leaves(s.last(), h));
    }
}

proof fn lemma_aggregates(n: Node, h: nat, lo: nat, mn: nat, mx: nat)
    requires
        wf_node(n, h, lo, mn, mx),
    ensures
        aggregates_exact(n, h),
    decreases h,
{
    if let Node::Internal(x) = n {
        lemma_children(x, h, lo, mn, mx);
        lemma_sums(x.children@, (h - 1) as nat);
        assert forall|i: int| 0 <= i < x.children.len() implies aggregates_exact(#[trigger] x.children@[i], (h - 1) as nat) by {
            lemma_aggregates(x.children@[i], (h - 1) as nat, mn, mn, mx);
        }
    }
}

/// The leftmost leaf is the first of the leaves.
proof fn lemma_leftmost(n: Node, h: nat, lo: nat, mn: nat, mx: nat)
    requires
        wf_node(n, h, lo, mn, mx),
    ensures
        leaves(n, h).len() > 0,
        leftmost(n, h) == leaves(n, h)[0],
    decreases h,
{
    if let Node::Internal(x) = n {
        lemma_children(x, h, lo, mn, mx);
        lemma_flat_first(x.children@, (h - 1) as nat, mn, mx);
        lemma_leftmost(x.children@[0], (h - 1) as nat, mn, mn, mx);
    }
}

proof fn lemma_keys(n: Node, h: nat, lo: nat, mn: nat, mx: nat)
    requires
        wf_node(n, h, lo, mn, mx),
    ensures
        keys_exact(n, h),
    decreases h,
{
    if let Node::Internal(x) = n {
        lemma_children(x, h, lo, mn, mx);
        lemma_leftmost(n, h, lo, mn, mx);
        assert forall|i: int| 0 <= i < x.children.len() implies keys_exact(#[trigger] x.children@[i], (h - 1) as nat) by {
            lemma_keys(x.children@[i], (h - 1) as nat, mn, mn, mx);
        }
    }
}

/// All leaves of a list lie at the same depth: the height of the tree.
pub proof fn law_depth_uniform(list: &SkipList)
    requires
        list.wf(),
    ensures
        list.root_spec() matches Some(n) ==> leaves_at_depth(n, list.height_spec()),
{
    list.lemma_shape();
    if let Some(n) = list.root_spec() {
        lemma_depth(n, list.height_spec(), 2, list.min_fanout_spec(), list.max_fanout_spec());
    }
}

/// Every internal node of a list other than the root has between the
/// minimum and the maximum fanout of children, the minimum being half the
/// maximum rounded up; an internal root has at least two children and at
/// most the maximum.
pub proof fn law_fanout_bounds(list: &SkipList)
    requires
        list.wf(),
    ensures
        list.max_fanout_spec() >= 3,
        list.min_fanout_spec() == min_fanout_spec(list.max_fanout_spec()),
        list.root_spec() matches Some(n) ==> fanout_within(n, list.height_spec(), 2, list.min_fanout_spec(), list.max_fanout_spec()),
{
    list.lemma_shape();
    if let Some(n) = list.root_spec() {
        lemma_fanout(n, list.height_spec(), 2, list.min_fanout_spec(), list.max_fanout_spec());
    }
}

/// Every internal node of a list caches the sum of the sizes of its
/// children and their number of leaves.
pub proof fn law_aggregates(list: &SkipList)
    requires
        list.wf(),
    ensures
        list.root_spec() matches Some(n) ==> aggregates_exact(n, list.height_spec()),
{
    list.lemma_shape();
    if let Some(n) = list.root_spec() {
        lemma_aggregates(n, list.height_spec(), 2, list.min_fanout_spec(), list.max_fanout_spec());
    }
}

/// Every internal node of a list caches the value of its leftmost leaf.
pub proof fn law_key_summary(list: &SkipList)
    requires
        list.wf(),
    ensures
        list.root_spec() matches Some(n) ==> keys_exact(n, list.height_spec()),
{
    list.lemma_shape();
    if let Some(n) = list.root_spec() {
        lemma_keys(n, list.height_spec(), 2, list.min_fanout_spec(), list.max_fanout_spec());
    }
}

/// Looking up the weighted index of an item of nonzero size finds that
/// item and no other: what `get` returns for what `index` returns.
pub proof fn law_round_trip(s: Seq<Data>, p: int)
    requires
        0 <= p < s.len(),
        s[p].size > 0,
    ensures
        lands_on(s, prefix(s, p), p),
        forall|q: int| lands_on(s, prefix(s, p), q) ==> q == p,
{
    let t = prefix(s, p);
    lemma_prefix_next(s, p);
    lemma_prefix_bound(s, p + 1);
    assert forall|q: int| lands_on(s, t, q) implies q == p by {
        if covers(s, q, t) {
            lemma_prefix_next(s, q);
            if q < p {
                lemma_prefix_mono(s, q + 1, p);
            } else if q > p {
                lemma_prefix_mono(s, p + 1, q);
            }
        }
    }
}

/// A list of one item is that item, with no internal node; a list of two
/// or more has an internal root.
pub proof fn law_single_leaf(list: &SkipList)
    requires
        list.wf(),
    ensures
        list@.len() == 1 ==> list.root_spec() == Some(Node::Leaf(list@[0])) && list.height_spec() == 0,
        list@.len() >= 2 ==> list.root_spec() matches Some(Node::Internal(_)),
{
    list.lemma_shape();
    if let Some(n) = list.root_spec() {
        if n is Internal {
            lemma_leaves_exceed_height(n, list.height_spec(), 2, list.min_fanout_spec(), list.max_fanout_spec());
        }
    }
}

/// In a list whose items all have size zero, weighted index zero lands on
/// the last item, and only there.
pub proof fn law_all_zero_sizes(s: Seq<Data>)
    requires
        s.len() > 0,
        forall|i: int| 0 <= i < s.len() ==> (#[trigger] s[i]).size == 0,
    ensures
        forall|p: int| lands_on(s, 0, p) <==> p == s.len() - 1,
{
    lemma_total_zero(s);
    assert forall|p: int| lands_on(s, 0, p) implies p == s.len() - 1 by {
        if covers(s, p, 0) {
            assert(s[p].size == 0);
        }
    }
}

proof fn lemma_total_zero(s: Seq<Data>)
    requires
        forall|i: int| 0 <= i < s.len() ==> (#[trigger] s[i]).size == 0,
    ensures
        total(s) == 0,
    decreases s.len(),
{
    if s.len() > 0 {
        let t = s.drop_last();
        assert forall|i: int| 0 <= i < t.len() implies (#[trigger] t[i]).size == 0 by {
            assert(t[i] == s[i]);
        }
        lemma_total_zero(t);
    }
}

/// Inserting an item after a position and then removing it gives back the
/// items as they were.
pub proof fn law_insert_remove(s: Seq<Data>, pos: int, item: Data)
    requires
        0 <= pos < s.len(),
    ensures
        s.insert(pos + 1, item).remove(pos + 1) == s,
{
    assert(s.insert(pos + 1, item).remove(pos + 1) =~= s);
}

} // verus!
