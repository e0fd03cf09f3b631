//! The record of which nodes burn and which are defended, and since when.
use crate::ordering::{lists_entries, sorted_entries};
use std::collections::BTreeMap;
use vstd::prelude::*;

verus! {

/// A time unit of the firefighter problem: the number of a tick.
pub type TimeUnit = u64;

/// Node data related to the firefighter problem: the tick at which a node
/// caught fire or was defended.
#[derive(Debug, Clone, Copy, PartialEq, Eq, Structural)]
pub struct NodeData {
    pub node_id: usize,
    pub time: TimeUnit,
}

/// State of a node in the firefighter problem. A node that is neither
/// burning nor defended has no state.
#[derive(Debug, Clone, Copy, PartialEq, Eq, Structural)]
pub enum NodeState {
    Burning,
    Defended,
}

/// The ids rise strictly from one entry to the next.
pub open spec fn ascending(ids: Seq<usize>) -> bool {
    forall|i: int, j: int| 0 <= i < j < ids.len() ==> ids[i] < ids[j]
}

/// `records` lists the values of `map` by ascending node id, each once.
pub open spec fn lists(records: Seq<&NodeData>, map: Map<usize, NodeData>) -> bool {
    &&& records.len() == map.dom().len()
    &&& forall|i: int|
        0 <= i < records.len() ==> map.contains_key((#[trigger] records[i]).node_id)
            && map[records[i].node_id] == *records[i]
    &&& forall|i: int, j: int|
        0 <= i < j < records.len() ==> records[i].node_id < records[j].node_id
    &&& forall|k: usize| #[trigger]
        map.contains_key(k) ==> exists|i: int|
            0 <= i < records.len() && (#[trigger] records[i]).node_id == k
}

/// Every value is filed under its own node id.
pub open spec fn keyed_by_id(map: Map<usize, NodeData>) -> bool {
    forall|k: usize| #[trigger] map.contains_key(k) ==> map[k].node_id == k
}

/// The ids of the nodes that `map` records at `time` or earlier.
pub open spec fn ids_by(map: Map<usize, NodeData>, time: TimeUnit) -> Set<usize> {
    Set::new(|k: usize| map.contains_key(k) && map[k].time <= time)
}

/// The ids of the nodes that `map` records at `time` exactly.
pub open spec fn ids_at(map: Map<usize, NodeData>, time: TimeUnit) -> Set<usize> {
    Set::new(|k: usize| map.contains_key(k) && map[k].time == time)
}

/// `map` with every node of `nodes` recorded at `time`.
pub open spec fn marked(map: Map<usize, NodeData>, nodes: Seq<usize>, time: TimeUnit) -> Map<
    usize,
    NodeData,
> {
    Map::new(
        |k: usize| map.contains_key(k) || nodes.contains(k),
        |k: usize|
            if nodes.contains(k) {
                NodeData { node_id: k, time }
            } else {
                map[k]
            },
    )
}

/// The ids rise strictly, and they are the members of `set`.
pub open spec fn lists_ids(ids: Seq<usize>, set: Set<usize>) -> bool {
    &&& ascending(ids)
    &&& forall|k: usize| ids.contains(k) <==> set.contains(k)
}

/// The ids among the first `upto` entries whose time passes.
spec fn kept(entries: Seq<(usize, &NodeData)>, upto: int, time: TimeUnit, exact: bool) -> Set<
    usize,
> {
    Set::new(
        |k: usize|
            exists|i: int|
                0 <= i < upto && (#[trigger] entries[i]).0 == k && passes(
                    entries[i].1.time,
                    time,
                    exact,
                ),
    )
}

/// `at` is `time` where `exact`, and `time` or earlier where not.
spec fn passes(at: TimeUnit, time: TimeUnit, exact: bool) -> bool {
    if exact {
        at == time
    } else {
        at <= time
    }
}

/// One more entry adds its id to the kept ones if its time passes, and
/// nothing otherwise.
proof fn lemma_kept_grows(entries: Seq<(usize, &NodeData)>, upto: int, time: TimeUnit, exact: bool)
    requires
        0 <= upto < entries.len(),
        forall|i: int, j: int| 0 <= i < j < entries.len() ==> entries[i].0 < entries[j].0,
        kept(entries, upto, time, exact).finite(),
    ensures
        kept(entries, upto + 1, time, exact).finite(),
        passes(entries[upto].1.time, time, exact) ==> {
            &&& kept(entries, upto + 1, time, exact) == kept(entries, upto, time, exact).insert(
                entries[upto].0,
            )
            &&& !kept(entries, upto, time, exact).contains(entries[upto].0)
            &&& kept(entries, upto + 1, time, exact).len() == kept(entries, upto, time, exact).len()
                + 1
        },
        !passes(entries[upto].1.time, time, exact) ==> kept(entries, upto + 1, time, exact) == kept(
            entries,
            upto,
            time,
            exact,
        ),
{
    let before = kept(entries, upto, time, exact);
    let after = kept(entries, upto + 1, time, exact);
    if passes(entries[upto].1.time, time, exact) {
        assert(after =~= before.insert(entries[upto].0));
    } else {
        assert(after =~= before);
    }
}

/// The ids that all the entries of a map keep are those that the map records.
proof fn lemma_kept_all(
    entries: Seq<(usize, &NodeData)>,
    map: Map<usize, NodeData>,
    time: TimeUnit,
    exact: bool,
)
    requires
        lists_entries(entries, map),
    ensures
        kept(entries, entries.len() as int, time, exact) == if exact {
            ids_at(map, time)
        } else {
            ids_by(map, time)
        },
{
    let all = kept(entries, entries.len() as int, time, exact);
    let wanted = if exact {
        ids_at(map, time)
    } else {
        ids_by(map, time)
    };
    assert forall|k: usize| wanted.contains(k) implies all.contains(k) by {
        assert(map.contains_key(k));
        let i = choose|i: int| 0 <= i < entries.len() && (#[trigger] entries[i]).0 == k;
        assert(passes(entries[i].1.time, time, exact));
    }
    assert(all =~= wanted);
}

/// Counts the nodes that `map` records at `time` or earlier.
fn count_by(map: &BTreeMap<usize, NodeData>, time: TimeUnit) -> (count: usize)
    ensures
        ids_by(map@, time).finite(),
        count == ids_by(map@, time).len(),
{
    let entries = sorted_entries(map);
    let mut count: usize = 0;
    let mut i: usize = 0;
    assert(kept(entries@, 0, time, false) =~= Set::<usize>::empty());
    while i < entries.len()
        invariant
            i <= entries@.len(),
            lists_entries(entries@, map@),
            kept(entries@, i as int, time, false).finite(),
            count == kept(entries@, i as int, time, false).len(),
            count <= i,
        decreases entries@.len() - i,
    {
        proof {
            lemma_kept_grows(entries@, i as int, time, false);
        }
        if entries[i].1.time <= time {
            count += 1;
        }
        i += 1;
    }
    proof {
        lemma_kept_all(entries@, map@, time, false);
    }
    count
}

/// The ids of the nodes that `map` records at `time` exactly, ascending.
fn ids_recorded_at(map: &BTreeMap<usize, NodeData>, time: TimeUnit) -> (ids: Vec<usize>)
    ensures
        lists_ids(ids@, ids_at(map@, time)),
{
    let entries = sorted_entries(map);
    let mut ids: Vec<usize> = Vec::new();
    let mut i: usize = 0;
    while i < entries.len()
        invariant
            i <= entries@.len(),
            lists_entries(entries@, map@),
            ascending(ids@),
            forall|k: usize| ids@.contains(k) <==> kept(entries@, i as int, time, true).contains(k),
            forall|j: int| 0 <= j < ids@.len() && i < entries@.len()
                ==> ids@[j] < entries@[i as int].0,
        decreases entries@.len() - i,
    {
        let ghost before = ids@;
        if entries[i].1.time == time {
            ids.push(entries[i].0);
        }
        proof {
            assert forall|k: usize| ids@.contains(k) <==> kept(
                entries@,
                i + 1,
                time,
                true,
            ).contains(k) by {
                if ids@.contains(k) {
                    let j = choose|j: int| 0 <= j < ids@.len() && ids@[j] == k;
                    if j < before.len() {
                        assert(before.contains(k));
                        assert(kept(entries@, i as int, time, true).contains(k));
                    }
                }
                if kept(entries@, i + 1, time, true).contains(k) {
                    let j = choose|j: int|
                        0 <= j < i + 1 && (#[trigger] entries@[j]).0 == k && passes(
                            entries@[j].1.time,
                            time,
                            true,
                        );
                    if j < i {
                        assert(kept(entries@, i as int, time, true).contains(k));
                        assert(before.contains(k));
                        let at = choose|at: int| 0 <= at < before.len() && before[at] == k;
                        assert(ids@[at] == k);
                    } else {
                        assert(ids@[ids@.len() - 1] == k);
                    }
                }
            }
        }
        i += 1;
    }
    proof {
        lemma_kept_all(entries@, map@, time, true);
    }
    ids
}

/// Storage for node data: the burning nodes and the defended nodes, each
/// with the tick of its transition.
#[derive(Debug)]
pub struct NodeDataStorage {
    burning: BTreeMap<usize, NodeData>,
    defended: BTreeMap<usize, NodeData>,
}

/// What a storage records: the burning nodes and the defended nodes, each
/// with the tick of its transition.
pub struct FireState {
    pub burning: Map<usize, NodeData>,
    pub defended: Map<usize, NodeData>,
}

impl FireState {
    /// No node is both burning and defended, and every record is filed under
    /// the node it is about.
    pub open spec fn wf(self) -> bool {
        &&& keyed_by_id(self.burning)
        &&& keyed_by_id(self.defended)
        &&& self.burning.dom().finite()
        &&& self.defended.dom().finite()
        &&& forall|k: usize|
            #![trigger self.burning.contains_key(k), self.defended.contains_key(k)]
            !(self.burning.contains_key(k) && self.defended.contains_key(k))
    }

    /// The node is neither burning nor defended.
    pub open spec fn undefended(self, node_id: usize) -> bool {
        !self.burning.contains_key(node_id) && !self.defended.contains_key(node_id)
    }

    /// Every recorded node is one of `num_nodes` nodes.
    pub open spec fn ids_below(self, num_nodes: usize) -> bool {
        &&& forall|k: usize| #[trigger] self.burning.contains_key(k) ==> k < num_nodes
        &&& forall|k: usize| #[trigger] self.defended.contains_key(k) ==> k < num_nodes
    }
}

impl View for NodeDataStorage {
    type V = FireState;

    /// What the storage records.
    closed spec fn view(&self) -> FireState {
        FireState { burning: self.burning@, defended: self.defended@ }
    }
}

impl NodeDataStorage {
    /// The burning nodes and when each caught fire.
    pub open spec fn burning(&self) -> Map<usize, NodeData> {
        self@.burning
    }

    /// The defended nodes and when each was defended.
    pub open spec fn defended(&self) -> Map<usize, NodeData> {
        self@.defended
    }

    /// No node is both burning and defended, and every record is filed under
    /// the node it is about.
    pub open spec fn wf(&self) -> bool {
        self@.wf()
    }

    /// The node is neither burning nor defended.
    pub open spec fn undefended(&self, node_id: usize) -> bool {
        self@.undefended(node_id)
    }

    /// Every recorded node is one of `num_nodes` nodes.
    pub open spec fn ids_below(&self, num_nodes: usize) -> bool {
        self@.ids_below(num_nodes)
    }

    /// Create a new node data storage.
    pub fn new() -> (storage: Self)
        ensures
            storage.wf(),
            storage.burning() == Map::<usize, NodeData>::empty(),
            storage.defended() == Map::<usize, NodeData>::empty(),
    {
        Self { burning: BTreeMap::new(), defended: BTreeMap::new() }
    }

    /// Is node with id `node_id` a fire root?
    pub fn is_root(&self, node_id: &usize) -> (root: bool)
        ensures
            root == (self.burning().contains_key(*node_id) && self.burning()[*node_id].time == 0),
    {
        broadcast use vstd::std_specs::btree::group_btree_axioms;

        match self.burning.get(node_id) {
            Some(nd) => nd.time == 0,
            None => false,
        }
    }

    /// Is node with id `node_id` burning?
    pub fn is_burning(&self, node_id: &usize) -> (burning: bool)
        ensures
            burning == self.burning().contains_key(*node_id),
    {
        broadcast use vstd::std_specs::btree::group_btree_axioms;

        self.burning.contains_key(node_id)
    }

    /// Is node with id `node_id` burning by time `time`?
    pub fn is_burning_by(&self, node_id: &usize, time: &TimeUnit) -> (burning: bool)
        ensures
            burning == ids_by(self.burning(), *time).contains(*node_id),
    {
        broadcast use vstd::std_specs::btree::group_btree_axioms;

        match self.burning.get(node_id) {
            Some(nd) => nd.time <= *time,
            None => false,
        }
    }

    /// Count all nodes burning by time `time`.
    pub fn count_burning_by(&self, time: &TimeUnit) -> (count: usize)
        ensures
            ids_by(self.burning(), *time).finite(),
            count == ids_by(self.burning(), *time).len(),
    {
        count_by(&self.burning, *time)
    }

    /// Is node with id `node_id` defended?
    pub fn is_defended(&self, node_id: &usize) -> (defended: bool)
        ensures
            defended == self.defended().contains_key(*node_id),
    {
        broadcast use vstd::std_specs::btree::group_btree_axioms;

        self.defended.contains_key(node_id)
    }

    /// Is node with id `node_id` defended by time `time`?
    pub fn is_defended_by(&self, node_id: &usize, time: &TimeUnit) -> (defended: bool)
        ensures
            defended == ids_by(self.defended(), *time).contains(*node_id),
    {
        broadcast use vstd::std_specs::btree::group_btree_axioms;

        match self.defended.get(node_id) {
            Some(nd) => nd.time <= *time,
            None => false,
        }
    }

    /// Count all nodes defended by time `time`.
    pub fn count_defended_by(&self, time: &TimeUnit) -> (count: usize)
        ensures
            ids_by(self.defended(), *time).finite(),
            count == ids_by(self.defended(), *time).len(),
    {
        count_by(&self.defended, *time)
    }

    /// Is node with id `node_id` undefended, that is, neither burning nor
    /// defended?
    pub fn is_undefended(&self, node_id: &usize) -> (undefended: bool)
        ensures
            undefended == self.undefended(*node_id),
            undefended == (!self.burning().contains_key(*node_id) && !self.defended().contains_key(
                *node_id,
            )),
    {
        !(self.is_burning(node_id) || self.is_defended(node_id))
    }

    /// The state of the node with id `node_id` by time `time`, if it has one
    /// by then.
    pub fn get_state_by(&self, node_id: &usize, time: &TimeUnit) -> (state: Option<NodeState>)
        ensures
            state == Some(NodeState::Burning) <==> ids_by(self.burning(), *time).contains(*node_id),
            state == Some(NodeState::Defended) <==> !ids_by(self.burning(), *time).contains(
                *node_id,
            ) && ids_by(self.defended(), *time).contains(*node_id),
    {
        if self.is_burning_by(node_id, time) {
            Some(NodeState::Burning)
        } else if self.is_defended_by(node_id, time) {
            Some(NodeState::Defended)
        } else {
            None
        }
    }

    /// Mark all nodes in `nodes` as burning at time `time`. None of them may
    /// be burning or defended already.
    pub fn mark_burning(&mut self, nodes: &Vec<usize>, time: TimeUnit)
        requires
            old(self).wf(),
            forall|i: int| 0 <= i < nodes@.len() ==> old(self).undefended(#[trigger] nodes@[i]),
        ensures
            final(self).wf(),
            final(self).burning() == marked(old(self).burning(), nodes@, time),
            final(self).defended() == old(self).defended(),
    {
        mark(&mut self.burning, nodes.as_slice(), time);
        proof {
            assert forall|k: usize| #[trigger]
                self.burning().contains_key(k) implies self.burning()[k].node_id == k by {
                if !nodes@.contains(k) {
                    assert(old(self).burning().contains_key(k));
                }
            }
            assert forall|k: usize|
                !(self.burning().contains_key(k) && self.defended().contains_key(k)) by {
                if nodes@.contains(k) {
                    let i = choose|i: int| 0 <= i < nodes@.len() && nodes@[i] == k;
                    assert(old(self).undefended(nodes@[i]));
                }
            }
        }
    }

    /// Mark all nodes in `nodes` as defended at time `time`. None of them may
    /// be burning or defended already.
    pub fn mark_defended(&mut self, nodes: &Vec<usize>, time: TimeUnit)
        requires
            old(self).wf(),
            forall|i: int| 0 <= i < nodes@.len() ==> old(self).undefended(#[trigger] nodes@[i]),
        ensures
            final(self).wf(),
            final(self).defended() == marked(old(self).defended(), nodes@, time),
            final(self).burning() == old(self).burning(),
    {
        self.mark_defended2(nodes.as_slice(), time);
    }

    /// Mark all nodes in `nodes` as defended at time `time`. None of them may
    /// be burning or defended already.
    pub fn mark_defended2(&mut self, nodes: &[usize], time: TimeUnit)
        requires
            old(self).wf(),
            forall|i: int| 0 <= i < nodes@.len() ==> old(self).undefended(#[trigger] nodes@[i]),
        ensures
            final(self).wf(),
            final(self).defended() == marked(old(self).defended(), nodes@, time),
            final(self).burning() == old(self).burning(),
    {
        mark(&mut self.defended, nodes, time);
        proof {
            assert forall|k: usize| #[trigger]
                self.defended().contains_key(k) implies self.defended()[k].node_id == k by {
                if !nodes@.contains(k) {
                    assert(old(self).defended().contains_key(k));
                }
            }
            assert forall|k: usize|
                !(self.burning().contains_key(k) && self.defended().contains_key(k)) by {
                if nodes@.contains(k) {
                    let i = choose|i: int| 0 <= i < nodes@.len() && nodes@[i] == k;
                    assert(old(self).undefended(nodes@[i]));
                }
            }
        }
    }

    /// Get the node data of all burning vertices, by ascending node id.
    pub fn get_burning(&self) -> (records: Vec<&NodeData>)
        requires
            self.wf(),
        ensures
            lists(records@, self.burning()),
    {
        let entries = sorted_entries(&self.burning);
        let mut records: Vec<&NodeData> = Vec::new();
        let mut i: usize = 0;
        while i < entries.len()
            invariant
                i <= entries@.len(),
                records@.len() == i,
                forall|j: int| 0 <= j < i ==> records@[j] == (#[trigger] entries@[j]).1,
            decreases entries@.len() - i,
        {
            records.push(entries[i].1);
            i += 1;
        }
        proof {
            let map = self.burning();
            assert forall|i: int| 0 <= i < records@.len() implies map.contains_key(
                (#[trigger] records@[i]).node_id,
            ) && map[records@[i].node_id] == *records@[i] by {
                assert(map.contains_key(entries@[i].0));
            }
            assert forall|i: int, j: int| 0 <= i < j < records@.len() implies records@[i].node_id
                < records@[j].node_id by {
                assert(map.contains_key(entries@[i].0));
                assert(map.contains_key(entries@[j].0));
            }
            assert forall|k: usize| #[trigger] map.contains_key(k) implies exists|i: int|
                0 <= i < records@.len() && (#[trigger] records@[i]).node_id == k by {
                let i = choose|i: int| 0 <= i < entries@.len() && (#[trigger] entries@[i]).0 == k;
                assert(map.contains_key(entries@[i].0));
                assert(records@[i].node_id == k);
            }
        }
        records
    }

    /// Get the id's of all burning vertices at time `time`, ascending.
    pub fn get_burning_at(&self, time: &TimeUnit) -> (ids: Vec<usize>)
        ensures
            lists_ids(ids@, ids_at(self.burning(), *time)),
    {
        ids_recorded_at(&self.burning, *time)
    }

    /// Get the id's of all defended vertices at time `time`, ascending.
    pub fn get_defended_at(&self, time: &TimeUnit) -> (ids: Vec<usize>)
        ensures
            lists_ids(ids@, ids_at(self.defended(), *time)),
    {
        ids_recorded_at(&self.defended, *time)
    }

    /// The number of burning nodes.
    pub fn num_burning(&self) -> (count: usize)
        ensures
            count == self.burning().dom().len(),
    {
        broadcast use vstd::std_specs::btree::group_btree_axioms;

        self.burning.len()
    }

    /// The number of defended nodes.
    pub fn num_defended(&self) -> (count: usize)
        ensures
            count == self.defended().dom().len(),
    {
        broadcast use vstd::std_specs::btree::group_btree_axioms;

        self.defended.len()
    }
}

/// Records every node of `nodes` in `map` at `time`.
fn mark(map: &mut BTreeMap<usize, NodeData>, nodes: &[usize], time: TimeUnit)
    ensures
        final(map)@ == marked(old(map)@, nodes@, time),
{
    broadcast use vstd::std_specs::btree::group_btree_axioms;

    let mut i: usize = 0;
    assert(map@ =~= marked(old(map)@, nodes@.take(0), time));
    while i < nodes.len()
        invariant
            i <= nodes@.len(),
            map@ == marked(old(map)@, nodes@.take(i as int), time),
        decreases nodes@.len() - i,
    {
        let node_id: usize = nodes[i];
        map.insert(node_id, NodeData { node_id, time });
        proof {
            let shorter = nodes@.take(i as int);
            let longer = nodes@.take(i + 1);
            assert(longer =~= shorter.push(node_id));
            assert forall|k: usize| longer.contains(k) <==> shorter.contains(k) || k == node_id by {
                if shorter.contains(k) {
                    let j = choose|j: int| 0 <= j < shorter.len() && shorter[j] == k;
                    assert(longer[j] == k);
                }
                if k == node_id {
                    assert(longer[i as int] == k);
                }
            }
            assert(map@ =~= marked(old(map)@, longer, time));
        }
        i += 1;
    }
    assert(nodes@.take(nodes@.len() as int) =~= nodes@);
}

} // verus!
