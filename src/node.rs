use vstd::prelude::*;

verus! {

/// What an item carries: a value, which orders items in ordered lookups,
/// and a size, which weights items in indexed lookups.
#[derive(Clone, Copy, Debug, PartialEq, Eq, Structural)]
pub struct Data {
    pub value: usize,
    pub size: usize,
}

impl Data {
    /// An item with the given value and size.
    pub fn new(value: usize, size: usize) -> (r: Data)
        ensures
            r.value == value,
            r.size == size,
    {
        Data { value, size }
    }
}

/// A node of the tree: an item at the bottom level, an internal node above.
pub enum Node {
    Leaf(Data),
    Internal(Internal),
}

/// An internal node: its children in order, with cached aggregates of the
/// leaves below it.
pub struct Internal {
    pub children: Vec<Node>,
    /// The sum of the sizes of the leaves below.
    pub size: usize,
    /// The number of leaves below.
    pub count: usize,
    /// The value of the leftmost leaf below.
    pub key: usize,
}

/// The sum of the sizes of `s`.
pub open spec fn total(s: Seq<Data>) -> nat
    decreases s.len(),
{
    if s.len() == 0 {
        0
    } else {
        total(s.drop_last()) + s.last().size as nat
    }
}

/// The weighted index of position `p` of `s`: the sum of the sizes before it.
pub open spec fn prefix(s: Seq<Data>, p: int) -> nat {
    total(s.take(p))
}

/// The leaves below the nodes `s`, in order, where each node of `s` stands
/// `h` levels above the leaves.
pub open spec fn flat(s: Seq<Node>, h: nat) -> Seq<Data>
    decreases h, s.len(),
{
    if s.len() == 0 {
        Seq::empty()
    } else {
        flat(s.drop_last(), h) + match s.last() {
            Node::Leaf(d) => seq![d],
            Node::Internal(x) => if h == 0 {
                Seq::empty()
            } else {
                flat(x.children@, (h - 1) as nat)
            },
        }
    }
}

/// The leaves below node `n`, which stands `h` levels above the leaves.
pub open spec fn leaves(n: Node, h: nat) -> Seq<Data> {
    match n {
        Node::Leaf(d) => seq![d],
        Node::Internal(x) => if h == 0 {
            Seq::empty()
        } else {
            flat(x.children@, (h - 1) as nat)
        },
    }
}

/// The aggregates cached in `x` agree with the leaves below it.
pub open spec fn aggregates_ok(x: Internal, h: nat) -> bool {
    let v = flat(x.children@, (h - 1) as nat);
    &&& v.len() > 0
    &&& x.size == total(v)
    &&& x.count == v.len()
    &&& x.key == v[0].value
}

/// Node `n` is a well-formed subtree of height `h`: all its leaves lie `h`
/// levels down, it has between `lo` and `mx` children, every internal node
/// below it between `mn` and `mx`, and every cached aggregate is exact.
pub open spec fn wf_node(n: Node, h: nat, lo: nat, mn: nat, mx: nat) -> bool
    decreases h,
{
    match n {
        Node::Leaf(_) => h == 0,
        Node::Internal(x) => {
            &&& h > 0
            &&& lo <= x.children.len() <= mx
            &&& x.children.len() > 0
            &&& forall|i: int|
                0 <= i < x.children.len() ==> wf_node(#[trigger] x.children@[i], (h - 1) as nat, mn, mn, mx)
            &&& aggregates_ok(x, h)
        },
    }
}

/// Every node of `s` is a well-formed subtree of height `h`.
pub open spec fn wf_nodes(s: Seq<Node>, h: nat, mn: nat, mx: nat) -> bool {
    forall|i: int| 0 <= i < s.len() ==> wf_node(#[trigger] s[i], h, mn, mn, mx)
}

pub proof fn lemma_total_append(a: Seq<Data>, b: Seq<Data>)
    ensures
        total(a + b) == total(a) + total(b),
    decreases b.len(),
{
    if b.len() == 0 {
        assert(a + b =~= a);
    } else {
        assert((a + b).drop_last() =~= a + b.drop_last());
        lemma_total_append(a, b.drop_last());
    }
}

pub proof fn lemma_flat_append(a: Seq<Node>, b: Seq<Node>, h: nat)
    ensures
        flat(a + b, h) == flat(a, h) + flat(b, h),
    decreases b.len(),
{
    if b.len() == 0 {
        assert(a + b =~= a);
        assert(flat(a, h) + flat(b, h) =~= flat(a, h));
    } else {
        assert((a + b).drop_last() =~= a + b.drop_last());
        lemma_flat_append(a, b.drop_last(), h);
        assert(flat(a + b, h) =~= flat(a, h) + flat(b, h));
    }
}

pub proof fn lemma_flat_single(n: Node, h: nat)
    ensures
        flat(seq![n], h) == leaves(n, h),
{
    assert(seq![n].drop_last() =~= Seq::<Node>::empty());
    assert(flat(Seq::<Node>::empty(), h) == Seq::<Data>::empty());
    assert(flat(seq![n], h) =~= leaves(n, h));
}

/// The leaves of `s` end with the leaves of its last node.
pub proof fn lemma_flat_last(s: Seq<Node>, h: nat)
    requires
        s.len() > 0,
    ensures
        flat(s, h) == flat(s.drop_last(), h) + leaves(s.last(), h),
{
}

/// Taking one more node of `s` adds that node's leaves.
pub proof fn lemma_flat_take_next(s: Seq<Node>, i: int, h: nat)
    requires
        0 <= i < s.len(),
    ensures
        flat(s.take(i + 1), h) == flat(s.take(i), h) + leaves(s[i], h),
{
    assert(s.take(i + 1).drop_last() =~= s.take(i));
    lemma_flat_last(s.take(i + 1), h);
}

/// The leaves of `s` split around its node `i`.
pub proof fn lemma_flat_split(s: Seq<Node>, i: int, h: nat)
    requires
        0 <= i < s.len(),
    ensures
        flat(s, h) == flat(s.take(i), h) + leaves(s[i], h) + flat(s.skip(i + 1), h),
{
    assert(s =~= s.take(i) + seq![s[i]] + s.skip(i + 1));
    lemma_flat_append(s.take(i) + seq![s[i]], s.skip(i + 1), h);
    lemma_flat_append(s.take(i), seq![s[i]], h);
    lemma_flat_single(s[i], h);
}

/// A well-formed subtree has at least one leaf.
pub proof fn lemma_wf_nonempty(n: Node, h: nat, lo: nat, mn: nat, mx: nat)
    requires
        wf_node(n, h, lo, mn, mx),
    ensures
        leaves(n, h).len() > 0,
{
}

/// Well-formed nodes have at least one leaf each, and their first leaf is
/// the first leaf of the first node.
pub proof fn lemma_flat_first(s: Seq<Node>, h: nat, mn: nat, mx: nat)
    requires
        wf_nodes(s, h, mn, mx),
        s.len() > 0,
    ensures
        flat(s, h).len() > 0,
        flat(s, h)[0] == leaves(s[0], h)[0],
        flat(s, h).len() >= s.len(),
    decreases s.len(),
{
    lemma_wf_nonempty(s[s.len() - 1], h, mn, mn, mx);
    if s.len() == 1 {
        lemma_flat_single(s[0], h);
    } else {
        let t = s.drop_last();
        assert(wf_nodes(t, h, mn, mx)) by {
            assert forall|i: int| 0 <= i < t.len() implies wf_node(#[trigger] t[i], h, mn, mn, mx) by {
                assert(t[i] == s[i]);
            }
        }
        lemma_flat_first(t, h, mn, mx);
        assert(t[0] == s[0]);
        lemma_flat_last(s, h);
    }
}

/// Cutting a sequence where its first part ends gives back both parts.
pub proof fn lemma_cut<T>(a: Seq<T>, b: Seq<T>)
    ensures
        (a + b).take(a.len() as int) == a,
        (a + b).skip(a.len() as int) == b,
{
    assert((a + b).take(a.len() as int) =~= a);
    assert((a + b).skip(a.len() as int) =~= b);
}

/// Nodes on the bottom level are their own leaves.
pub proof fn lemma_flat_bottom(s: Seq<Node>, mn: nat, mx: nat)
    requires
        wf_nodes(s, 0, mn, mx),
    ensures
        flat(s, 0).len() == s.len(),
        forall|i: int| 0 <= i < s.len() ==> s[i] == Node::Leaf(#[trigger] flat(s, 0)[i]),
    decreases s.len(),
{
    if s.len() > 0 {
        let t = s.drop_last();
        assert(wf_nodes(t, 0, mn, mx)) by {
            assert forall|i: int| 0 <= i < t.len() implies wf_node(#[trigger] t[i], 0, mn, mn, mx) by {
                assert(t[i] == s[i]);
            }
        }
        lemma_flat_bottom(t, mn, mx);
        lemma_flat_last(s, 0);
        assert(wf_node(s[s.len() - 1], 0, mn, mn, mx));
        assert forall|i: int| 0 <= i < s.len() implies s[i] == Node::Leaf(#[trigger] flat(s, 0)[i]) by {
            if i < t.len() {
                assert(t[i] == s[i]);
            }
        }
    }
}

/// A subtree whose nodes all have at least two children has more leaves
/// than levels.
pub proof fn lemma_leaves_exceed_height(n: Node, h: nat, lo: nat, mn: nat, mx: nat)
    requires
        wf_node(n, h, lo, mn, mx),
        lo >= 2,
        mn >= 2,
    ensures
        leaves(n, h).len() >= h + 1,
    decreases h,
{
    if let Node::Internal(x) = n {
        let s = x.children@;
        assert(wf_node(s[0], (h - 1) as nat, mn, mn, mx));
        assert(wf_node(s[1], (h - 1) as nat, mn, mn, mx));
        lemma_leaves_exceed_height(s[0], (h - 1) as nat, mn, mn, mx);
        lemma_leaves_exceed_height(s[1], (h - 1) as nat, mn, mn, mx);
        lemma_flat_split(s, 1, (h - 1) as nat);
        assert(s.take(1) =~= seq![s[0]]);
        lemma_flat_single(s[0], (h - 1) as nat);
    }
}

/// The number of leaves below `n`, read from the cache.
pub fn node_count(n: &Node, Ghost(h): Ghost<nat>, Ghost(lo): Ghost<nat>, Ghost(mn): Ghost<nat>, Ghost(mx): Ghost<nat>) -> (r: usize)
    requires
        wf_node(*n, h, lo, mn, mx),
    ensures
        r == leaves(*n, h).len(),
{
    match n {
        Node::Leaf(_) => 1,
        Node::Internal(x) => x.count,
    }
}

/// The sum of the sizes of the leaves below `n`, read from the cache.
pub fn node_size(n: &Node, Ghost(h): Ghost<nat>, Ghost(lo): Ghost<nat>, Ghost(mn): Ghost<nat>, Ghost(mx): Ghost<nat>) -> (r: usize)
    requires
        wf_node(*n, h, lo, mn, mx),
    ensures
        r == total(leaves(*n, h)),
{
    match n {
        Node::Leaf(d) => {
            proof {
                assert(seq![*d].drop_last() =~= Seq::<Data>::empty());
                assert(total(Seq::<Data>::empty()) == 0);
            }
            d.size
        },
        Node::Internal(x) => x.size,
    }
}

/// The value of the leftmost leaf below `n`, read from the cache.
pub fn node_key(n: &Node, Ghost(h): Ghost<nat>, Ghost(lo): Ghost<nat>, Ghost(mn): Ghost<nat>, Ghost(mx): Ghost<nat>) -> (r: usize)
    requires
        wf_node(*n, h, lo, mn, mx),
    ensures
        leaves(*n, h).len() > 0,
        r == leaves(*n, h)[0].value,
{
    match n {
        Node::Leaf(d) => d.value,
        Node::Internal(x) => x.key,
    }
}

} // verus!
