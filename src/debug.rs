use vstd::prelude::*;
use crate::list::SkipList;
use crate::node::{Data, Node};

verus! {

/// Gives small ids to keys, in order of first sight, starting at one.
pub struct IdMap {
    keys: Vec<usize>,
}

impl View for IdMap {
    type V = Seq<usize>;

    /// The keys seen, in order; the id of `self@[i]` is `i + 1`.
    closed spec fn view(&self) -> Seq<usize> {
        self.keys@
    }
}

impl IdMap {
    /// A map that has seen no key.
    pub fn new() -> (r: IdMap)
        ensures
            r@ == Seq::<usize>::empty(),
    {
        IdMap { keys: Vec::new() }
    }

    /// The id of `value`: the one it got when first seen, or the next one.
    pub fn get(&mut self, value: usize) -> (r: usize)
        requires
            old(self)@.len() < usize::MAX,
        ensures
            old(self)@.contains(value) ==> {
                &&& final(self)@ == old(self)@
                &&& 1 <= r <= old(self)@.len()
                &&& old(self)@[r - 1] == value
                &&& forall|j: int| 0 <= j < r - 1 ==> old(self)@[j] != value
            },
            !old(self)@.contains(value) ==> {
                &&& final(self)@ == old(self)@.push(value)
                &&& r == old(self)@.len() + 1
            },
    {
        let mut i: usize = 0;
        while i < self.keys.len()
            invariant
                i <= self.keys.len(),
                self.keys@ == old(self)@,
                forall|j: int| 0 <= j < i ==> self.keys@[j] != value,
            decreases self.keys.len() - i,
        {
            if self.keys[i] == value {
                return i + 1;
            }
            i = i + 1;
        }
        self.keys.push(value);
        self.keys.len()
    }
}

/// `b` keeps everything `a` holds, in place, and may hold more after it.
pub open spec fn extends(a: Seq<usize>, b: Seq<usize>) -> bool {
    a.len() <= b.len() && b.take(a.len() as int) == a
}

/// How an item names itself in a debug dump.
pub trait LeafDebug {
    spec fn id_spec(&self) -> usize;

    fn id(&self) -> (r: usize)
        ensures
            r == self.id_spec(),
    ;
}

impl LeafDebug for Data {
    /// An item is named by its value.
    open spec fn id_spec(&self) -> usize {
        self.value
    }

    fn id(&self) -> (r: usize) {
        self.value
    }
}

/// The ids handed out while dumping lists: internal nodes by their place in
/// a walk of the tree, leaves by their own ids.
pub struct State {
    internal_map: IdMap,
    leaf_map: IdMap,
}

impl State {
    /// A state that has named nothing.
    pub fn new() -> (r: State)
        ensures
            r.internal_ids() == Seq::<usize>::empty(),
            r.leaf_ids() == Seq::<usize>::empty(),
    {
        State { internal_map: IdMap::new(), leaf_map: IdMap::new() }
    }

    /// The keys of the internal nodes named so far.
    pub closed spec fn internal_ids(&self) -> Seq<usize> {
        self.internal_map@
    }

    /// The ids of the leaves named so far.
    pub closed spec fn leaf_ids(&self) -> Seq<usize> {
        self.leaf_map@
    }

    /// The dump id of the internal node reached `key`-th in a walk, or
    /// none when the state has no id left to give.
    pub fn internal_id(&mut self, key: usize) -> (r: Option<usize>)
        ensures
            final(self).leaf_ids() == old(self).leaf_ids(),
            extends(old(self).internal_ids(), final(self).internal_ids()),
            r is Some <==> old(self).internal_ids().len() < usize::MAX,
    {
        if self.internal_map.keys.len() < usize::MAX {
            let r = self.internal_map.get(key);
            proof {
                assert(self.internal_map@.take(old(self).internal_map@.len() as int) =~= old(self).internal_map@);
            }
            Some(r)
        } else {
            proof {
                assert(self.internal_ids().take(self.internal_ids().len() as int) =~= self.internal_ids());
                assert(self.leaf_ids().take(self.leaf_ids().len() as int) =~= self.leaf_ids());
            }
            None
        }
    }

    /// The dump id of `leaf`, or none when the state has no id left to
    /// give.
    pub fn leaf_id<L: LeafDebug>(&mut self, leaf: &L) -> (r: Option<usize>)
        ensures
            final(self).internal_ids() == old(self).internal_ids(),
            extends(old(self).leaf_ids(), final(self).leaf_ids()),
            r is Some <==> old(self).leaf_ids().len() < usize::MAX,
    {
        if self.leaf_map.keys.len() < usize::MAX {
            let r = self.leaf_map.get(leaf.id());
            proof {
                assert(self.leaf_map@.take(old(self).leaf_map@.len() as int) =~= old(self).leaf_map@);
            }
            Some(r)
        } else {
            proof {
                assert(self.internal_ids().take(self.internal_ids().len() as int) =~= self.internal_ids());
                assert(self.leaf_ids().take(self.leaf_ids().len() as int) =~= self.leaf_ids());
            }
            None
        }
    }
}

proof fn lemma_extends_trans(a: Seq<usize>, b: Seq<usize>, c: Seq<usize>)
    requires
        extends(a, b),
        extends(b, c),
    ensures
        extends(a, c),
{
    assert(c.take(a.len() as int) =~= c.take(b.len() as int).take(a.len() as int));
}

/// One node of a debug dump: its id, and for an internal node the cached
/// aggregates and the ids of its children.
pub struct DebugNode {
    pub id: usize,
    pub is_leaf: bool,
    pub count: usize,
    pub size: usize,
    pub key: usize,
    pub children: Vec<usize>,
}

/// Dumps the subtree `n` in preorder into `out`, naming nodes through
/// `state`; `walked` counts the internal nodes met so far. Returns the id of
/// `n`, or none when the state ran out of ids.
fn dump(n: &Node, h: usize, state: &mut State, walked: &mut usize, out: &mut Vec<DebugNode>) -> (r: Option<usize>)
    ensures
        extends(old(state).internal_ids(), final(state).internal_ids()),
        extends(old(state).leaf_ids(), final(state).leaf_ids()),
    decreases h,
{
    match n {
        Node::Leaf(d) => {
            let id = state.leaf_id(d);
            proof {
                assert(state.internal_ids().take(old(state).internal_ids().len() as int) =~= old(state).internal_ids());
            }
            let id = id?;
            out.push(DebugNode { id, is_leaf: true, count: 1, size: d.size, key: d.value, children: Vec::new() });
            Some(id)
        },
        Node::Internal(x) => {
            if h == 0 || *walked == usize::MAX {
                proof {
                    assert(state.internal_ids().take(state.internal_ids().len() as int) =~= state.internal_ids());
                    assert(state.leaf_ids().take(state.leaf_ids().len() as int) =~= state.leaf_ids());
                }
                return None;
            }
            *walked = *walked + 1;
            let id = state.internal_id(*walked);
            proof {
                assert(state.leaf_ids().take(old(state).leaf_ids().len() as int) =~= old(state).leaf_ids());
            }
            let id = id?;
            let at = out.len();
            out.push(DebugNode { id, is_leaf: false, count: x.count, size: x.size, key: x.key, children: Vec::new() });
            let mut children: Vec<usize> = Vec::new();
            let mut i: usize = 0;
            let ghost start = *state;
            proof {
                assert(state.internal_ids().take(old(state).internal_ids().len() as int) =~= old(state).internal_ids());
                assert(state.leaf_ids().take(old(state).leaf_ids().len() as int) =~= old(state).leaf_ids());
            }
            while i < x.children.len()
                invariant
                    h > 0,
                    extends(old(state).internal_ids(), state.internal_ids()),
                    extends(old(state).leaf_ids(), state.leaf_ids()),
                decreases x.children.len() - i,
            {
                let ghost before = *state;
                let c = dump(&x.children[i], h - 1, state, walked, out);
                proof {
                    lemma_extends_trans(old(state).internal_ids(), before.internal_ids(), state.internal_ids());
                    lemma_extends_trans(old(state).leaf_ids(), before.leaf_ids(), state.leaf_ids());
                }
                let c = c?;
                children.push(c);
                i = i + 1;
            }
            if at < out.len() {
                out.set(at, DebugNode { id, is_leaf: false, count: x.count, size: x.size, key: x.key, children });
            }
            Some(id)
        },
    }
}

impl SkipList {
    /// A dump of the tree for debugging: every node in preorder, named
    /// through `state`, so that dumps made with one state agree on the ids
    /// of the leaves. Empty when the list is, or when `state` runs out of
    /// ids.
    pub fn debug(&self, state: &mut State) -> (r: Vec<DebugNode>)
        requires
            self.wf(),
        ensures
            extends(old(state).internal_ids(), final(state).internal_ids()),
            extends(old(state).leaf_ids(), final(state).leaf_ids()),
            self@.len() == 0 ==> r.len() == 0,
    {
        let mut out: Vec<DebugNode> = Vec::new();
        let mut walked: usize = 0;
        proof {
            self.lemma_shape();
        }
        match self.root_ref() {
            Some(n) => {
                proof {
                    crate::node::lemma_wf_nonempty(*n, self.height_spec(), 2, self.min_fanout_spec(), self.max_fanout_spec());
                }
                if dump(n, self.height(), state, &mut walked, &mut out).is_none() {
                    out = Vec::new();
                }
            },
            None => {
                proof {
                    assert(state.internal_ids().take(state.internal_ids().len() as int) =~= state.internal_ids());
                    assert(state.leaf_ids().take(state.leaf_ids().len() as int) =~= state.leaf_ids());
                }
            },
        }
        out
    }
}

} // verus!
