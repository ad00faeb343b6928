use vstd::prelude::*;
use crate::insert::{insert_into, leaves_of, regroup, splice_leaves, lemma_total_splice};
use crate::node::{
    Data, Node, flat, leaves, prefix, total, wf_node, wf_nodes, lemma_flat_first, lemma_flat_single,
    lemma_flat_split, lemma_leaves_exceed_height, node_size,
};
use crate::remove::{remove_from, replace_in};
use crate::iter::Iter;
use crate::key::Value;
use crate::search::{
    covers, find_from_ok, find_ok, lands_on, misses, subtree_find, subtree_first, subtree_get, subtree_index,
    subtree_find_from, subtree_item, subtree_last,
};
use crate::options::{
    DefaultOptions, FanoutPriv, ListOptions, StoreKeysPriv, fanouts_ok, max_fanout,
    max_fanout_spec, min_fanout, min_fanout_spec,
};

verus! {

/// A well-formed tree: absent, or a root of height `h` whose leaves all lie
/// `h` levels down, with at least two children if it is internal, every
/// other internal node between `mn` and `mx` children, and exact cached
/// aggregates everywhere; its weight and its number of items fit a `usize`.
pub open spec fn tree_ok(root: Option<Node>, h: nat, mn: nat, mx: nat) -> bool {
    &&& fanouts_ok(mn, mx)
    &&& match root {
        None => true,
        Some(n) => {
            &&& wf_node(n, h, 2, mn, mx)
            &&& total(leaves(n, h)) <= usize::MAX
            &&& leaves(n, h).len() <= usize::MAX
        },
    }
}

/// The items of a tree, in order.
pub open spec fn tree_items(root: Option<Node>, h: nat) -> Seq<Data> {
    match root {
        None => Seq::empty(),
        Some(n) => leaves(n, h),
    }
}

/// A sequence of items kept in a balanced B+-tree.
///
/// Items are addressed by position (their number of predecessors); the
/// weighted index of an item is the sum of the sizes before it.
pub struct SkipList {
    root: Option<Node>,
    height: usize,
    min_fanout: usize,
    max_fanout: usize,
    store_keys: bool,
}

impl View for SkipList {
    type V = Seq<Data>;

    closed spec fn view(&self) -> Seq<Data> {
        tree_items(self.root, self.height as nat)
    }
}

impl SkipList {
    /// The root of the tree, if any.
    pub closed spec fn root_spec(&self) -> Option<Node> {
        self.root
    }

    /// The number of levels between the root and the leaves.
    pub closed spec fn height_spec(&self) -> nat {
        self.height as nat
    }

    /// The minimum fanout of a non-root internal node.
    pub closed spec fn min_fanout_spec(&self) -> nat {
        self.min_fanout as nat
    }

    /// The maximum fanout of an internal node.
    pub closed spec fn max_fanout_spec(&self) -> nat {
        self.max_fanout as nat
    }

    /// Whether the list offers ordered lookups.
    pub closed spec fn stores_keys_spec(&self) -> bool {
        self.store_keys
    }

    /// Both lists have the same options.
    pub open spec fn same_config(&self, other: SkipList) -> bool {
        &&& self.min_fanout_spec() == other.min_fanout_spec()
        &&& self.max_fanout_spec() == other.max_fanout_spec()
        &&& self.stores_keys_spec() == other.stores_keys_spec()
    }

    /// The list is well formed.
    pub closed spec fn wf(&self) -> bool {
        tree_ok(self.root, self.height as nat, self.min_fanout as nat, self.max_fanout as nat)
    }

    /// What the list holds and how it is shaped, in terms of the open
    /// definitions.
    pub proof fn lemma_shape(&self)
        requires
            self.wf(),
        ensures
            tree_ok(self.root_spec(), self.height_spec(), self.min_fanout_spec(), self.max_fanout_spec()),
            self@ == tree_items(self.root_spec(), self.height_spec()),
    {
    }

    /// An empty list with the default options: fanout eight, no ordered
    /// lookups.
    pub fn new() -> (r: SkipList)
        ensures
            r.wf(),
            r@ == Seq::<Data>::empty(),
            r.max_fanout_spec() == 8,
            !r.stores_keys_spec(),
    {
        SkipList::with_options::<DefaultOptions>()
    }

    /// An empty list with the options `O`.
    pub fn with_options<O: ListOptions>() -> (r: SkipList)
        ensures
            r.wf(),
            r@ == Seq::<Data>::empty(),
            r.max_fanout_spec() == max_fanout_spec(<O::Fanout as FanoutPriv>::value_spec()),
            r.stores_keys_spec() == <O::StoreKeys as StoreKeysPriv>::stores_spec(),
    {
        SkipList::with_fanout(<O::Fanout as FanoutPriv>::value(), <O::StoreKeys as StoreKeysPriv>::stores())
    }

    /// An empty list with maximum fanout `fanout` (clamped up to three),
    /// which offers ordered lookups when `store_keys` holds.
    pub fn with_fanout(fanout: usize, store_keys: bool) -> (r: SkipList)
        ensures
            r.wf(),
            r@ == Seq::<Data>::empty(),
            r.max_fanout_spec() == max_fanout_spec(fanout as nat),
            r.min_fanout_spec() == min_fanout_spec(max_fanout_spec(fanout as nat)),
            r.stores_keys_spec() == store_keys,
    {
        let mx = max_fanout(fanout);
        let mn = min_fanout(mx);
        SkipList { root: None, height: 0, min_fanout: mn, max_fanout: mx, store_keys }
    }

    /// The root of the tree, if any.
    pub fn root_ref(&self) -> (r: &Option<Node>)
        ensures
            *r == self.root_spec(),
    {
        &self.root
    }

    /// The number of levels between the root and the leaves.
    pub fn height(&self) -> (r: usize)
        ensures
            r == self.height_spec(),
    {
        self.height
    }

    /// The total size of the list: the sum of the sizes of its items.
    pub fn size(&self) -> (r: usize)
        requires
            self.wf(),
        ensures
            r == total(self@),
    {
        match &self.root {
            None => 0,
            Some(n) => node_size(n, Ghost(self.height as nat), Ghost(2), Ghost(self.min_fanout as nat), Ghost(self.max_fanout as nat)),
        }
    }

    /// The number of items in the list.
    pub fn len(&self) -> (r: usize)
        requires
            self.wf(),
        ensures
            r == self@.len(),
    {
        match &self.root {
            None => 0,
            Some(n) => crate::node::node_count(n, Ghost(self.height as nat), Ghost(2), Ghost(self.min_fanout as nat), Ghost(self.max_fanout as nat)),
        }
    }

    /// Stacks levels of internal nodes over `nodes`, which stand `h` levels
    /// above the leaves, until a single root remains.
    fn grow(nodes: Vec<Node>, h: usize, mn: usize, mx: usize) -> (r: (Node, usize))
        requires
            fanouts_ok(mn as nat, mx as nat),
            nodes.len() >= 1,
            nodes.len() == 1 ==> wf_node(nodes@[0], h as nat, 2, mn as nat, mx as nat),
            nodes.len() > 1 ==> wf_nodes(nodes@, h as nat, mn as nat, mx as nat),
            total(flat(nodes@, h as nat)) <= usize::MAX,
            flat(nodes@, h as nat).len() <= usize::MAX,
        ensures
            wf_node(r.0, r.1 as nat, 2, mn as nat, mx as nat),
            leaves(r.0, r.1 as nat) == flat(nodes@, h as nat),
    {
        let ghost all = flat(nodes@, h as nat);
        let mut nodes = nodes;
        let mut h = h;
        while nodes.len() > 1
            invariant
                fanouts_ok(mn as nat, mx as nat),
                nodes.len() >= 1,
                nodes.len() == 1 ==> wf_node(nodes@[0], h as nat, 2, mn as nat, mx as nat),
                nodes.len() > 1 ==> wf_nodes(nodes@, h as nat, mn as nat, mx as nat),
                flat(nodes@, h as nat) == all,
                total(all) <= usize::MAX,
                all.len() <= usize::MAX,
            decreases nodes.len(),
        {
            proof {
                let s = nodes@;
                assert(wf_node(s[0], h as nat, mn as nat, mn as nat, mx as nat));
                lemma_leaves_exceed_height(s[0], h as nat, mn as nat, mn as nat, mx as nat);
                lemma_flat_split(s, 0, h as nat);
                crate::split::lemma_wf_nodes_sub(s, 1, s.len() as int, h as nat, mn as nat, mx as nat);
                assert(s.skip(1) =~= s.subrange(1, s.len() as int));
                lemma_flat_first(s.skip(1), h as nat, mn as nat, mx as nat);
            }
            nodes = regroup(nodes, Ghost(h as nat), Ghost(2), mn, mx);
            h = h + 1;
        }
        let ghost s = nodes@;
        let root = nodes.pop().unwrap();
        proof {
            assert(s =~= seq![root]);
            lemma_flat_single(root, h as nat);
        }
        (root, h)
    }

    /// Inserts `items`, in order, so that the first of them lands at
    /// position `pos`.
    pub fn insert_at(&mut self, pos: usize, items: Vec<Data>)
        requires
            old(self).wf(),
            pos <= old(self)@.len(),
            total(old(self)@) + total(items@) <= usize::MAX,
            old(self)@.len() + items@.len() <= usize::MAX,
        ensures
            final(self).wf(),
            final(self).same_config(*old(self)),
            final(self)@ == old(self)@.take(pos as int) + items@ + old(self)@.skip(pos as int),
            final(self).same_config(*old(self)),
    {
        let ghost v = self@;
        let ghost mnn = self.min_fanout as nat;
        let ghost mxn = self.max_fanout as nat;
        let mn = self.min_fanout;
        let mx = self.max_fanout;
        if items.len() == 0 {
            proof {
                assert(v.take(pos as int) + items@ + v.skip(pos as int) =~= v);
            }
            return;
        }
        let ghost ins = items@;
        let new_leaves = leaves_of(items, Ghost(mnn), Ghost(mxn));
        proof {
            lemma_total_splice(v, pos as int, ins);
        }
        let (nodes, h) = match self.root.take() {
            None => {
                proof {
                    assert(v.take(pos as int) + ins + v.skip(pos as int) =~= ins);
                }
                (new_leaves, 0usize)
            },
            Some(Node::Leaf(d)) => {
                let mut one: Vec<Node> = Vec::new();
                one.push(Node::Leaf(d));
                proof {
                    assert(one@ =~= seq![Node::Leaf(d)]);
                    lemma_flat_single(Node::Leaf(d), 0);
                    assert(wf_nodes(one@, 0, mnn, mxn)) by {
                        assert(wf_node(one@[0], 0, mnn, mnn, mxn));
                    }
                }
                (splice_leaves(one, pos, new_leaves, Ghost(mnn), Ghost(mxn)), 0usize)
            },
            Some(Node::Internal(x)) => {
                let h = self.height;
                (insert_into(x, h, Ghost(2), pos, new_leaves, mn, mx), h)
            },
        };
        proof {
            if nodes.len() > 1 {
                assert(wf_nodes(nodes@, h as nat, mnn, mxn));
            } else if h == 0 {
                assert(wf_node(nodes@[0], 0, mnn, mnn, mxn));
            }
        }
        let (root, height) = SkipList::grow(nodes, h, mn, mx);
        self.root = Some(root);
        self.height = height;
    }

    /// Removes the item at position `pos` and returns it.
    ///
    /// When the root is left with a single child, that child becomes the
    /// root and the tree loses a level.
    pub fn remove(&mut self, pos: usize) -> (r: Data)
        requires
            old(self).wf(),
            pos < old(self)@.len(),
        ensures
            final(self).wf(),
            final(self).same_config(*old(self)),
            r == old(self)@[pos as int],
            final(self)@ == old(self)@.remove(pos as int),
            final(self).same_config(*old(self)),
    {
        let ghost v = self@;
        let ghost mnn = self.min_fanout as nat;
        let ghost mxn = self.max_fanout as nat;
        let mn = self.min_fanout;
        let mx = self.max_fanout;
        let h = self.height;
        match self.root.take() {
            None => {
                proof {
                    assert(false);
                }
                Data { value: 0, size: 0 }
            },
            Some(Node::Leaf(d)) => {
                proof {
                    assert(v =~= seq![d]);
                    assert(v.remove(0) =~= Seq::<Data>::empty());
                }
                self.height = 0;
                d
            },
            Some(Node::Internal(x)) => {
                let (y, d) = remove_from(x, h, Ghost(2), pos, mn, mx);
                proof {
                    crate::remove::lemma_total_remove(v, pos as int);
                }
                if y.children.len() == 1 {
                    let ghost cs = y.children@;
                    let mut children = y.children;
                    let c = children.pop().unwrap();
                    proof {
                        assert(cs =~= seq![c]);
                        lemma_flat_single(c, (h - 1) as nat);
                        assert(wf_node(cs[0], (h - 1) as nat, mnn, mnn, mxn));
                    }
                    self.root = Some(c);
                    self.height = h - 1;
                } else {
                    self.root = Some(Node::Internal(y));
                }
                d
            },
        }
    }

    /// Inserts `item` directly after position `pos`.
    pub fn insert_after(&mut self, pos: usize, item: Data)
        requires
            old(self).wf(),
            pos < old(self)@.len(),
            total(old(self)@) + item.size <= usize::MAX,
            old(self)@.len() < usize::MAX,
        ensures
            final(self).wf(),
            final(self).same_config(*old(self)),
            final(self)@ == old(self)@.insert(pos + 1, item),
    {
        let mut items: Vec<Data> = Vec::new();
        items.push(item);
        proof {
            lemma_total_one(item);
        }
        self.insert_at(pos + 1, items);
        proof {
            assert(final(self)@ =~= old(self)@.insert(pos + 1, item));
        }
    }

    /// Inserts `items`, in order, directly after position `pos`.
    pub fn insert_after_from(&mut self, pos: usize, items: Vec<Data>)
        requires
            old(self).wf(),
            pos < old(self)@.len(),
            total(old(self)@) + total(items@) <= usize::MAX,
            old(self)@.len() + items@.len() <= usize::MAX,
        ensures
            final(self).wf(),
            final(self).same_config(*old(self)),
            final(self)@ == old(self)@.take(pos + 1) + items@ + old(self)@.skip(pos + 1),
    {
        self.insert_at(pos + 1, items);
    }

    /// Inserts `item` directly after position `pos`, or at the front when
    /// `pos` is `None`.
    pub fn insert_after_opt(&mut self, pos: Option<usize>, item: Data)
        requires
            old(self).wf(),
            pos matches Some(p) ==> p < old(self)@.len(),
            total(old(self)@) + item.size <= usize::MAX,
            old(self)@.len() < usize::MAX,
        ensures
            final(self).wf(),
            final(self).same_config(*old(self)),
            final(self)@ == old(self)@.insert(after_spec(pos), item),
    {
        let mut items: Vec<Data> = Vec::new();
        items.push(item);
        proof {
            lemma_total_one(item);
        }
        self.insert_after_opt_from(pos, items);
        proof {
            assert(final(self)@ =~= old(self)@.insert(after_spec(pos), item));
        }
    }

    /// Inserts `items`, in order, directly after position `pos`, or at the
    /// front when `pos` is `None`.
    pub fn insert_after_opt_from(&mut self, pos: Option<usize>, items: Vec<Data>)
        requires
            old(self).wf(),
            pos matches Some(p) ==> p < old(self)@.len(),
            total(old(self)@) + total(items@) <= usize::MAX,
            old(self)@.len() + items@.len() <= usize::MAX,
        ensures
            final(self).wf(),
            final(self).same_config(*old(self)),
            final(self)@ == old(self)@.take(after_spec(pos)) + items@ + old(self)@.skip(after_spec(pos)),
    {
        match pos {
            Some(p) => self.insert_after_from(p, items),
            None => self.push_front_from(items),
        }
    }

    /// Inserts `item` directly before position `pos`.
    pub fn insert_before(&mut self, pos: usize, item: Data)
        requires
            old(self).wf(),
            pos < old(self)@.len(),
            total(old(self)@) + item.size <= usize::MAX,
            old(self)@.len() < usize::MAX,
        ensures
            final(self).wf(),
            final(self).same_config(*old(self)),
            final(self)@ == old(self)@.insert(pos as int, item),
    {
        let mut items: Vec<Data> = Vec::new();
        items.push(item);
        proof {
            lemma_total_one(item);
        }
        self.insert_at(pos, items);
        proof {
            assert(final(self)@ =~= old(self)@.insert(pos as int, item));
        }
    }

    /// Inserts `items`, in order, directly before position `pos`.
    pub fn insert_before_from(&mut self, pos: usize, items: Vec<Data>)
        requires
            old(self).wf(),
            pos < old(self)@.len(),
            total(old(self)@) + total(items@) <= usize::MAX,
            old(self)@.len() + items@.len() <= usize::MAX,
        ensures
            final(self).wf(),
            final(self).same_config(*old(self)),
            final(self)@ == old(self)@.take(pos as int) + items@ + old(self)@.skip(pos as int),
    {
        self.insert_at(pos, items);
    }

    /// Inserts `item` directly before position `pos`, or at the back when
    /// `pos` is `None`.
    pub fn insert_before_opt(&mut self, pos: Option<usize>, item: Data)
        requires
            old(self).wf(),
            pos matches Some(p) ==> p < old(self)@.len(),
            total(old(self)@) + item.size <= usize::MAX,
            old(self)@.len() < usize::MAX,
        ensures
            final(self).wf(),
            final(self).same_config(*old(self)),
            final(self)@ == old(self)@.insert(before_spec(pos, old(self)@.len()), item),
    {
        let mut items: Vec<Data> = Vec::new();
        items.push(item);
        proof {
            lemma_total_one(item);
        }
        self.insert_before_opt_from(pos, items);
        proof {
            assert(final(self)@ =~= old(self)@.insert(before_spec(pos, old(self)@.len()), item));
        }
    }

    /// Inserts `items`, in order, directly before position `pos`, or at the
    /// back when `pos` is `None`.
    pub fn insert_before_opt_from(&mut self, pos: Option<usize>, items: Vec<Data>)
        requires
            old(self).wf(),
            pos matches Some(p) ==> p < old(self)@.len(),
            total(old(self)@) + total(items@) <= usize::MAX,
            old(self)@.len() + items@.len() <= usize::MAX,
        ensures
            final(self).wf(),
            final(self).same_config(*old(self)),
            ({
                let q = before_spec(pos, old(self)@.len());
                final(self)@ == old(self)@.take(q) + items@ + old(self)@.skip(q)
            }),
    {
        match pos {
            Some(p) => self.insert_before_from(p, items),
            None => self.push_back_from(items),
        }
    }

    /// Inserts `item` at the front of the list.
    pub fn push_front(&mut self, item: Data)
        requires
            old(self).wf(),
            total(old(self)@) + item.size <= usize::MAX,
            old(self)@.len() < usize::MAX,
        ensures
            final(self).wf(),
            final(self).same_config(*old(self)),
            final(self)@ == seq![item] + old(self)@,
    {
        let mut items: Vec<Data> = Vec::new();
        items.push(item);
        proof {
            lemma_total_one(item);
        }
        self.push_front_from(items);
        proof {
            assert(items@ =~= seq![item]);
        }
    }

    /// Inserts `items`, in order, at the front of the list.
    pub fn push_front_from(&mut self, items: Vec<Data>)
        requires
            old(self).wf(),
            total(old(self)@) + total(items@) <= usize::MAX,
            old(self)@.len() + items@.len() <= usize::MAX,
        ensures
            final(self).wf(),
            final(self).same_config(*old(self)),
            final(self)@ == items@ + old(self)@,
    {
        let ghost v = self@;
        self.insert_at(0, items);
        proof {
            assert(v.take(0) + items@ + v.skip(0) =~= items@ + v);
        }
    }

    /// Inserts `item` at the back of the list.
    pub fn push_back(&mut self, item: Data)
        requires
            old(self).wf(),
            total(old(self)@) + item.size <= usize::MAX,
            old(self)@.len() < usize::MAX,
        ensures
            final(self).wf(),
            final(self).same_config(*old(self)),
            final(self)@ == old(self)@.push(item),
    {
        let mut items: Vec<Data> = Vec::new();
        items.push(item);
        proof {
            lemma_total_one(item);
        }
        self.push_back_from(items);
        proof {
            assert(old(self)@ + items@ =~= old(self)@.push(item));
        }
    }

    /// Inserts `items`, in order, at the back of the list.
    pub fn push_back_from(&mut self, items: Vec<Data>)
        requires
            old(self).wf(),
            total(old(self)@) + total(items@) <= usize::MAX,
            old(self)@.len() + items@.len() <= usize::MAX,
        ensures
            final(self).wf(),
            final(self).same_config(*old(self)),
            final(self)@ == old(self)@ + items@,
    {
        let ghost v = self@;
        let n = self.len();
        self.insert_at(n, items);
        proof {
            assert(v.take(n as int) + items@ + v.skip(n as int) =~= v + items@);
        }
    }

    /// The item at position `pos`.
    pub fn item(&self, pos: usize) -> (r: Data)
        requires
            self.wf(),
            pos < self@.len(),
        ensures
            r == self@[pos as int],
    {
        match &self.root {
            Some(n) => subtree_item(n, self.height, pos, Ghost(2), Ghost(self.min_fanout as nat), Ghost(self.max_fanout as nat)),
            None => {
                proof {
                    assert(false);
                }
                Data { value: 0, size: 0 }
            },
        }
    }

    /// Finds the item at weighted index `index`: the one whose span of
    /// weighted indices holds `index`, or the last item when `index` is the
    /// total size and that item has size zero.
    pub fn get(&self, index: usize) -> (r: Option<usize>)
        requires
            self.wf(),
        ensures
            match r {
                Some(p) => lands_on(self@, index as nat, p as int),
                None => misses(self@, index as nat),
            },
    {
        match &self.root {
            Some(n) => subtree_get(n, self.height, index, Ghost(2), Ghost(self.min_fanout as nat), Ghost(self.max_fanout as nat)),
            None => {
                proof {
                    assert(total(Seq::<Data>::empty()) == 0);
                }
                None
            },
        }
    }

    /// The weighted index of the item at position `pos`: the sum of the
    /// sizes of the items before it.
    pub fn index(&self, pos: usize) -> (r: usize)
        requires
            self.wf(),
            pos < self@.len(),
        ensures
            r == prefix(self@, pos as int),
    {
        match &self.root {
            Some(n) => subtree_index(n, self.height, pos, Ghost(2), Ghost(self.min_fanout as nat), Ghost(self.max_fanout as nat)),
            None => {
                proof {
                    assert(false);
                }
                0
            },
        }
    }

    /// Finds the item at weighted index `offset` past the start of the item
    /// at position `start`, with the same rule as `get`.
    pub fn get_after(&self, start: usize, offset: usize) -> (r: Option<usize>)
        requires
            self.wf(),
            start < self@.len(),
        ensures
            match r {
                Some(p) => start <= p && lands_on(self@, (prefix(self@, start as int) + offset) as nat, p as int),
                None => misses(self@, (prefix(self@, start as int) + offset) as nat),
            },
    {
        let base = self.index(start);
        let size = self.size();
        proof {
            crate::search::lemma_prefix_bound(self@, start as int);
        }
        if offset > size - base {
            return None;
        }
        let r = self.get(base + offset);
        proof {
            if let Some(p) = r {
                if p < start {
                    if covers(self@, p as int, (base + offset) as nat) {
                        crate::search::lemma_prefix_next(self@, p as int);
                        crate::search::lemma_prefix_mono(self@, p + 1, start as int);
                    }
                }
            }
        }
        r
    }

    /// The first item, if any.
    pub fn first(&self) -> (r: Option<Data>)
        requires
            self.wf(),
        ensures
            r == (if self@.len() == 0 { None } else { Some(self@[0]) }),
    {
        match &self.root {
            Some(n) => Some(subtree_first(n, self.height, Ghost(2), Ghost(self.min_fanout as nat), Ghost(self.max_fanout as nat))),
            None => None,
        }
    }

    /// The last item, if any.
    pub fn last(&self) -> (r: Option<Data>)
        requires
            self.wf(),
        ensures
            r == (if self@.len() == 0 { None } else { Some(self@.last()) }),
    {
        match &self.root {
            Some(n) => Some(subtree_last(n, self.height, Ghost(2), Ghost(self.min_fanout as nat), Ghost(self.max_fanout as nat))),
            None => None,
        }
    }

    /// The position after `pos`, if there is an item there.
    pub fn next(&self, pos: usize) -> (r: Option<usize>)
        requires
            self.wf(),
            pos < self@.len(),
        ensures
            r == (if pos + 1 < self@.len() { Some((pos + 1) as usize) } else { None }),
    {
        if pos + 1 < self.len() {
            Some(pos + 1)
        } else {
            None
        }
    }

    /// The position before `pos`, if there is one.
    pub fn previous(&self, pos: usize) -> (r: Option<usize>)
        requires
            self.wf(),
            pos < self@.len(),
        ensures
            r == (if pos > 0 { Some((pos - 1) as usize) } else { None }),
    {
        if pos > 0 {
            Some(pos - 1)
        } else {
            None
        }
    }

    /// An iterator over the items, in order.
    pub fn iter(&self) -> (r: Iter<'_>)
        requires
            self.wf(),
        ensures
            r.wf(),
            r.items() == self@,
            r.pos() == 0,
    {
        Iter::new(self, 0)
    }

    /// An iterator over the items from position `pos` on, in order.
    pub fn iter_at(&self, pos: usize) -> (r: Iter<'_>)
        requires
            self.wf(),
            pos <= self@.len(),
        ensures
            r.wf(),
            r.items() == self@,
            r.pos() == pos,
    {
        Iter::new(self, pos)
    }

    /// All items, in order, as walking an iterator from the first item
    /// yields them.
    pub fn to_vec(&self) -> (r: Vec<Data>)
        requires
            self.wf(),
        ensures
            r@ == self@,
    {
        let mut it = self.iter();
        let mut out: Vec<Data> = Vec::new();
        loop
            invariant
                it.wf(),
                it.items() == self@,
                it.pos() <= self@.len(),
                out@ == self@.take(it.pos() as int),
            decreases self@.len() - it.pos(),
        {
            let ghost before = it.pos();
            match it.next() {
                Some(d) => {
                    out.push(d);
                    proof {
                        assert(out@ =~= self@.take(it.pos() as int));
                    }
                },
                None => {
                    proof {
                        assert(self@.take(it.pos() as int) =~= self@);
                    }
                    return out;
                },
            }
        }
    }

    /// Looks up an item with value `key`, going down by the values cached
    /// in the internal nodes. Returns its position, or else the position
    /// after which an item with value `key` would be inserted to keep the
    /// order (`None`: at the front).
    pub fn find(&self, key: usize) -> (r: Result<usize, Option<usize>>)
        requires
            self.wf(),
            self.stores_keys_spec(),
        ensures
            find_ok(self@, Value::new_spec(key), r),
    {
        self.find_with(&Value::new(key))
    }

    /// Looks up an item that compares equal to the key `q`, as `find` does.
    pub fn find_with(&self, q: &Value) -> (r: Result<usize, Option<usize>>)
        requires
            self.wf(),
            self.stores_keys_spec(),
        ensures
            find_ok(self@, *q, r),
    {
        match &self.root {
            Some(n) => subtree_find(n, self.height, q, Ghost(2), Ghost(self.min_fanout as nat), Ghost(self.max_fanout as nat)),
            None => Err(None),
        }
    }

    /// Looks up an item with value `key` among the items from position
    /// `start` on: the position of one, or else the position after which an
    /// item with value `key` would be inserted to keep the order, where
    /// `None` means that the item at `start` already has a larger value.
    pub fn find_after(&self, start: usize, key: usize) -> (r: Result<usize, Option<usize>>)
        requires
            self.wf(),
            self.stores_keys_spec(),
            start < self@.len(),
        ensures
            find_from_ok(self@, start as int, Value::new_spec(key), r),
    {
        self.find_after_with(start, &Value::new(key))
    }

    /// Looks up an item that compares equal to the key `q` among the items
    /// from position `start` on, as `find_after` does.
    pub fn find_after_with(&self, start: usize, q: &Value) -> (r: Result<usize, Option<usize>>)
        requires
            self.wf(),
            self.stores_keys_spec(),
            start < self@.len(),
        ensures
            find_from_ok(self@, start as int, *q, r),
    {
        match &self.root {
            Some(n) => subtree_find_from(n, self.height, q, start, Ghost(2), Ghost(self.min_fanout as nat), Ghost(self.max_fanout as nat)),
            None => {
                proof {
                    assert(false);
                }
                Err(None)
            },
        }
    }

    /// Inserts `item` in order of value, unless an item with its value is
    /// found, whose position is then returned.
    pub fn insert(&mut self, item: Data) -> (r: Result<(), usize>)
        requires
            old(self).wf(),
            old(self).stores_keys_spec(),
            total(old(self)@) + item.size <= usize::MAX,
            old(self)@.len() < usize::MAX,
        ensures
            final(self).wf(),
            final(self).same_config(*old(self)),
            match r {
                Ok(()) => exists|slot: Option<usize>| {
                    &&& #[trigger] find_ok(old(self)@, Value::new_spec(item.value), Err(slot))
                    &&& final(self)@ == old(self)@.insert(after_spec(slot), item)
                },
                Err(p) => p < old(self)@.len() && old(self)@[p as int].value == item.value && final(self)@ == old(self)@,
            },
    {
        match self.find(item.value) {
            Ok(p) => Err(p),
            Err(pos) => {
                self.insert_after_opt(pos, item);
                proof {
                    assert(find_ok(old(self)@, Value::new_spec(item.value), Err(pos)));
                }
                Ok(())
            },
        }
    }

    /// Puts `item` in the place of the item at position `pos`, and returns
    /// the item it replaces. The shape of the tree stays as it is: only the
    /// aggregates on the path to the item change.
    pub fn replace(&mut self, pos: usize, item: Data) -> (r: Data)
        requires
            old(self).wf(),
            pos < old(self)@.len(),
            total(old(self)@) - old(self)@[pos as int].size + item.size <= usize::MAX,
        ensures
            final(self).wf(),
            final(self).same_config(*old(self)),
            r == old(self)@[pos as int],
            final(self)@ == old(self)@.update(pos as int, item),
    {
        let ghost v = self@;
        proof {
            crate::remove::lemma_total_update(v, pos as int, item);
        }
        match self.root.take() {
            None => {
                proof {
                    assert(false);
                }
                Data { value: 0, size: 0 }
            },
            Some(Node::Leaf(d)) => {
                self.root = Some(Node::Leaf(item));
                proof {
                    assert(v =~= seq![d]);
                    assert(self@ =~= v.update(pos as int, item));
                    lemma_total_one(item);
                }
                d
            },
            Some(Node::Internal(x)) => {
                let (y, d) = replace_in(x, self.height, Ghost(2), pos, item, Ghost(self.min_fanout as nat), Ghost(self.max_fanout as nat));
                self.root = Some(Node::Internal(y));
                proof {
                    assert(self@.len() == v.len());
                }
                d
            },
        }
    }

    /// Changes the size of the item at position `pos` to `size`, keeping
    /// its value.
    pub fn update(&mut self, pos: usize, size: usize)
        requires
            old(self).wf(),
            pos < old(self)@.len(),
            total(old(self)@) - old(self)@[pos as int].size + size <= usize::MAX,
        ensures
            final(self).wf(),
            final(self).same_config(*old(self)),
            final(self)@ == old(self)@.update(pos as int, Data { value: old(self)@[pos as int].value, size }),
    {
        let d = self.item(pos);
        self.replace(pos, Data { value: d.value, size });
    }
}

/// Where an item inserted after `pos` lands: right after it, or at the
/// front.
pub open spec fn after_spec(pos: Option<usize>) -> int {
    match pos {
        Some(p) => p + 1,
        None => 0,
    }
}

/// Where an item inserted before `pos` lands: at its place, or at the back
/// of a list of `len` items.
pub open spec fn before_spec(pos: Option<usize>, len: nat) -> int {
    match pos {
        Some(p) => p as int,
        None => len as int,
    }
}

/// The weight of one item is its size.
pub proof fn lemma_total_one(d: Data)
    ensures
        total(seq![d]) == d.size,
{
    assert(seq![d].drop_last() =~= Seq::<Data>::empty());
    assert(total(Seq::<Data>::empty()) == 0);
}

} // verus!
