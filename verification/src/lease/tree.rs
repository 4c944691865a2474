//! The tree that the nodes' lease parents make, and what is read off it.
//!
//! A lease machine knows its parent. The functions here take the parents as a table in node
//! order and ask how deep the tree is, what is below a node, and how far the nodes have come to
//! agree on it.

use vstd::prelude::*;

use super::{NodeView, World};

verus! {

/// The lease parent of the node at `i`; a node past the end of the table has none.
pub open spec fn parent_of(parents: Seq<Option<u32>>, i: int) -> Option<u32> {
    if 0 <= i < parents.len() {
        parents[i]
    } else {
        None
    }
}

/// The lease parent of the node with this id.
pub open spec fn parent_at(
    nodes: Seq<NodeView>,
    parents: Seq<Option<u32>>,
    id: u32,
) -> Option<u32> {
    match super::find(nodes, id) {
        Some(i) => parent_of(parents, i),
        None => None,
    }
}

/// Where `k` steps up from `id` lead.
pub open spec fn climb(
    nodes: Seq<NodeView>,
    parents: Seq<Option<u32>>,
    id: u32,
    k: nat,
) -> Option<u32>
    decreases k,
{
    if k == 0 {
        Some(id)
    } else {
        match climb(nodes, parents, id, (k - 1) as nat) {
            Some(at) => parent_at(nodes, parents, at),
            None => None,
        }
    }
}

/// The leader is `hops` steps up from `id`, and no fewer.
pub open spec fn hops_to(
    nodes: Seq<NodeView>,
    parents: Seq<Option<u32>>,
    leader: u32,
    id: u32,
    hops: nat,
) -> bool {
    &&& climb(nodes, parents, id, hops) == Some(leader)
    &&& forall|k: nat| k < hops ==> #[trigger] climb(nodes, parents, id, k) != Some(leader)
}

/// The depth of `id`: how many steps up the leader is; none where the chain does not lead to the
/// leader within as many steps as there are nodes.
pub open spec fn depth(
    nodes: Seq<NodeView>,
    parents: Seq<Option<u32>>,
    leader: u32,
    id: u32,
) -> Option<nat> {
    if exists|hops: nat| hops <= nodes.len() && #[trigger] hops_to(nodes, parents, leader, id, hops) {
        Some(
            choose|hops: nat|
                hops <= nodes.len() && #[trigger] hops_to(nodes, parents, leader, id, hops),
        )
    } else {
        None
    }
}

/// The greatest depth among the first `n` nodes that are active and reach the leader; zero where
/// there is none.
pub open spec fn max_depth(
    nodes: Seq<NodeView>,
    parents: Seq<Option<u32>>,
    leader: u32,
    n: int,
) -> nat
    decreases n,
{
    if n <= 0 {
        0
    } else {
        let front = max_depth(nodes, parents, leader, n - 1);
        let here = depth(nodes, parents, leader, nodes[n - 1].id);
        if nodes[n - 1].active() && here is Some && here.unwrap() > front {
            here.unwrap()
        } else {
            front
        }
    }
}

/// `id` is below `root`: its chain of lease parents, none of them a node that is its own parent,
/// leads to `root` within `k` steps and at least one.
pub open spec fn below(
    nodes: Seq<NodeView>,
    parents: Seq<Option<u32>>,
    id: u32,
    root: u32,
    k: nat,
) -> bool
    decreases k,
{
    k > 0 && match parent_at(nodes, parents, id) {
        Some(up) => up != id && (up == root || below(nodes, parents, up, root, (k - 1) as nat)),
        None => false,
    }
}

/// The nodes below `root`.
pub open spec fn subtree_of(
    nodes: Seq<NodeView>,
    parents: Seq<Option<u32>>,
    root: u32,
) -> Set<u32> {
    Set::new(|id: u32| exists|k: nat| below(nodes, parents, id, root, k))
}

/// `(size, id)` of node `i` is no larger than `(size, id)` of node `j`: the smaller subtree, or of
/// two equal ones the smaller id.
pub open spec fn no_larger(
    nodes: Seq<NodeView>,
    parents: Seq<Option<u32>>,
    i: int,
    j: int,
) -> bool {
    let a = subtree_of(nodes, parents, nodes[i].id).len();
    let b = subtree_of(nodes, parents, nodes[j].id).len();
    a < b || (a == b && nodes[i].id <= nodes[j].id)
}

/// The node at `i` can be picked: active, not the leader, and with nodes below it.
pub open spec fn can_pick(
    nodes: Seq<NodeView>,
    parents: Seq<Option<u32>>,
    leader: u32,
    i: int,
) -> bool {
    &&& 0 <= i < nodes.len()
    &&& nodes[i].active()
    &&& nodes[i].id != leader
    &&& subtree_of(nodes, parents, nodes[i].id).len() > 0
}

/// The node at `i` is the one to pick: of those that can be, the one with the largest subtree.
pub open spec fn is_pick(
    nodes: Seq<NodeView>,
    parents: Seq<Option<u32>>,
    leader: u32,
    i: int,
) -> bool {
    &&& can_pick(nodes, parents, leader, i)
    &&& forall|j: int| #[trigger]
        can_pick(nodes, parents, leader, j) ==> no_larger(nodes, parents, j, i)
}

/// How many of `0..n` pass.
pub open spec fn count(n: int, passes: spec_fn(int) -> bool) -> nat
    decreases n,
{
    if n <= 0 {
        0
    } else {
        count(n - 1, passes) + if passes(n - 1) {
            1nat
        } else {
            0nat
        }
    }
}

/// Whether the node at a place is active and is not the leader.
pub open spec fn follows(nodes: Seq<NodeView>, leader: u32) -> spec_fn(int) -> bool {
    |i: int| nodes[i].active() && nodes[i].id != leader
}

/// Whether such a node's lease parent is the one that `places` gives it.
pub open spec fn in_place(
    nodes: Seq<NodeView>,
    leader: u32,
    parents: Seq<Option<u32>>,
    places: Seq<Option<u32>>,
) -> spec_fn(int) -> bool {
    |i: int|
        follows(nodes, leader)(i) && parent_of(places, i) is Some && parent_of(parents, i)
            == parent_of(places, i)
}

/// Whether the node at a place is active and its lease parent is in another data centre.
pub open spec fn crosses(nodes: Seq<NodeView>, parents: Seq<Option<u32>>) -> spec_fn(int) -> bool {
    |i: int|
        nodes[i].active() && match parent_of(parents, i) {
            Some(up) => match super::find(nodes, up) {
                Some(j) => nodes[j].dc != nodes[i].dc,
                None => false,
            },
            None => false,
        }
}

/// The greatest depth among more nodes is no less.
proof fn lemma_max_depth_grows(
    nodes: Seq<NodeView>,
    parents: Seq<Option<u32>>,
    leader: u32,
    n: int,
    more: int,
)
    requires
        n <= more,
    ensures
        max_depth(nodes, parents, leader, n) <= max_depth(nodes, parents, leader, more),
    decreases more - n,
{
    if n < more {
        lemma_max_depth_grows(nodes, parents, leader, n, more - 1);
    }
}

/// A tree is no deeper than there are nodes.
pub proof fn law_a_tree_is_no_deeper_than_its_nodes(
    nodes: Seq<NodeView>,
    parents: Seq<Option<u32>>,
    leader: u32,
    n: int,
)
    ensures
        max_depth(nodes, parents, leader, n) <= nodes.len(),
    decreases n,
{
    if n > 0 {
        law_a_tree_is_no_deeper_than_its_nodes(nodes, parents, leader, n - 1);
    }
}

/// A chain that has ended does not go on.
proof fn lemma_climb_ends(
    nodes: Seq<NodeView>,
    parents: Seq<Option<u32>>,
    id: u32,
    k: nat,
    further: nat,
)
    requires
        climb(nodes, parents, id, k) is None,
        k <= further,
    ensures
        climb(nodes, parents, id, further) is None,
    decreases further - k,
{
    if k < further {
        lemma_climb_ends(nodes, parents, id, k, (further - 1) as nat);
    }
}

/// A chain from a child is the chain from its parent, one step later.
proof fn lemma_climb_from_parent(
    nodes: Seq<NodeView>,
    parents: Seq<Option<u32>>,
    id: u32,
    up: u32,
    k: nat,
)
    requires
        parent_at(nodes, parents, id) == Some(up),
    ensures
        climb(nodes, parents, id, k + 1) == climb(nodes, parents, up, k),
    decreases k,
{
    reveal_with_fuel(climb, 2);
    if k > 0 {
        lemma_climb_from_parent(nodes, parents, id, up, (k - 1) as nat);
    }
}

/// The leader is at depth zero.
pub proof fn law_the_leader_is_at_depth_zero(
    nodes: Seq<NodeView>,
    parents: Seq<Option<u32>>,
    leader: u32,
)
    ensures
        depth(nodes, parents, leader, leader) == Some(0nat),
{
    assert(hops_to(nodes, parents, leader, leader, 0));
}

/// A node other than the leader is one deeper than its lease parent.
pub proof fn law_a_child_is_one_deeper(
    nodes: Seq<NodeView>,
    parents: Seq<Option<u32>>,
    leader: u32,
    id: u32,
    up: u32,
)
    requires
        id != leader,
        parent_at(nodes, parents, id) == Some(up),
        depth(nodes, parents, leader, up) matches Some(d) && d < nodes.len(),
    ensures
        depth(nodes, parents, leader, id) == Some(
            depth(nodes, parents, leader, up).unwrap() + 1,
        ),
{
    let d = depth(nodes, parents, leader, up).unwrap();
    assert(hops_to(nodes, parents, leader, id, d + 1)) by {
        lemma_climb_from_parent(nodes, parents, id, up, d);
        assert forall|k: nat| k < d + 1 implies #[trigger] climb(nodes, parents, id, k) != Some(
            leader,
        ) by {
            if k > 0 {
                lemma_climb_from_parent(nodes, parents, id, up, (k - 1) as nat);
                assert(climb(nodes, parents, up, (k - 1) as nat) != Some(leader));
            }
        }
    }
}

/// What is below a node below `root` is below `root`.
pub proof fn law_subtrees_nest(
    nodes: Seq<NodeView>,
    parents: Seq<Option<u32>>,
    root: u32,
    mid: u32,
)
    requires
        subtree_of(nodes, parents, root).contains(mid),
    ensures
        subtree_of(nodes, parents, mid).subset_of(subtree_of(nodes, parents, root)),
{
    let above = choose|k: nat| below(nodes, parents, mid, root, k);
    assert forall|id: u32| subtree_of(nodes, parents, mid).contains(id) implies subtree_of(
        nodes,
        parents,
        root,
    ).contains(id) by {
        let k = choose|k: nat| below(nodes, parents, id, mid, k);
        lemma_below_below(nodes, parents, id, mid, root, k, above);
    }
}

/// Two chains make one.
proof fn lemma_below_below(
    nodes: Seq<NodeView>,
    parents: Seq<Option<u32>>,
    id: u32,
    mid: u32,
    root: u32,
    k: nat,
    above: nat,
)
    requires
        below(nodes, parents, id, mid, k),
        below(nodes, parents, mid, root, above),
    ensures
        below(nodes, parents, id, root, k + above),
    decreases k,
{
    let up = parent_at(nodes, parents, id).unwrap();
    if up == mid {
        lemma_below_further(nodes, parents, mid, root, above, (k - 1 + above) as nat);
    } else {
        lemma_below_below(nodes, parents, up, mid, root, (k - 1) as nat, above);
    }
}

/// A chain that leads to `root` within some steps does so within more.
proof fn lemma_below_further(
    nodes: Seq<NodeView>,
    parents: Seq<Option<u32>>,
    id: u32,
    root: u32,
    k: nat,
    more: nat,
)
    requires
        below(nodes, parents, id, root, k),
        k <= more,
    ensures
        below(nodes, parents, id, root, more),
    decreases k,
{
    let up = parent_at(nodes, parents, id).unwrap();
    if up != root {
        lemma_below_further(nodes, parents, up, root, (k - 1) as nat, (more - 1) as nat);
    }
}

/// Where the ids are unique, a node's place is found by its id.
pub proof fn lemma_found_by_id(nodes: Seq<NodeView>, i: int)
    requires
        super::ids(nodes).no_duplicates(),
        0 <= i < nodes.len(),
    ensures
        super::find(nodes, nodes[i].id) == Some(i),
{
    let ids = super::ids(nodes);
    ids.index_of_first_ensures(nodes[i].id);
    assert(ids[i] == nodes[i].id);
}

/// The node at `j` is a child of `up`.
spec fn child(nodes: Seq<NodeView>, parents: Seq<Option<u32>>, j: int, up: u32) -> bool {
    &&& 0 <= j < nodes.len()
    &&& parent_of(parents, j) == Some(up)
    &&& nodes[j].id != up
}

/// Every child of `up` is among `out`.
spec fn closed_at(
    nodes: Seq<NodeView>,
    parents: Seq<Option<u32>>,
    out: Seq<u32>,
    up: u32,
) -> bool {
    forall|j: int| #[trigger] child(nodes, parents, j, up) ==> out.contains(nodes[j].id)
}

/// What holds `root`'s children, and the children of all it holds, holds all that is below.
proof fn lemma_closed_holds_all(
    nodes: Seq<NodeView>,
    parents: Seq<Option<u32>>,
    out: Seq<u32>,
    root: u32,
    id: u32,
    k: nat,
)
    requires
        closed_at(nodes, parents, out, root),
        forall|x: u32| #[trigger] out.contains(x) ==> closed_at(nodes, parents, out, x),
        below(nodes, parents, id, root, k),
    ensures
        out.contains(id),
    decreases k,
{
    let up = parent_at(nodes, parents, id).unwrap();
    super::ids(nodes).index_of_first_ensures(id);
    let j = super::find(nodes, id).unwrap();
    assert(super::ids(nodes)[j] == nodes[j].id);
    assert(child(nodes, parents, j, up));
    if up != root {
        lemma_closed_holds_all(nodes, parents, out, root, up, (k - 1) as nat);
    }
}

/// A list without repetition of ids that nodes have is no longer than the list of nodes.
proof fn lemma_fewer_than_nodes(nodes: Seq<NodeView>, out: Seq<u32>)
    requires
        out.no_duplicates(),
        forall|x: u32| #[trigger] out.contains(x) ==> super::ids(nodes).contains(x),
    ensures
        out.len() <= nodes.len(),
{
    let ids = super::ids(nodes);
    out.unique_seq_to_set();
    ids.lemma_cardinality_of_set();
    assert(out.to_set().subset_of(ids.to_set())) by {
        assert forall|x: u32| out.to_set().contains(x) implies ids.to_set().contains(x) by {
            assert(out.contains(x));
        }
    }
    vstd::set_lib::lemma_len_subset(out.to_set(), ids.to_set());
}

impl<M> World<M> {
    /// The lease parent of the node with this id.
    fn parent(&self, parents: &[Option<u32>], id: u32) -> (up: Option<u32>)
        ensures
            up == parent_at(self@.nodes, parents@, id),
    {
        match self.idx(id) {
            Some(i) => if i < parents.len() {
                parents[i]
            } else {
                None
            },
            None => None,
        }
    }

    /// Hops from `id` up to the leader along lease parents; `None` while the chain is broken, as
    /// it is for a tick or two on a node in the middle of switching parents.
    #[must_use]
    pub fn depth_of(&self, parents: &[Option<u32>], id: u32) -> (found: Option<u16>)
        requires
            depth(self@.nodes, parents@, self@.leader, id) matches Some(d) ==> d <= u16::MAX,
        ensures
            match found {
                Some(hops) => depth(self@.nodes, parents@, self@.leader, id) == Some(hops as nat),
                None => depth(self@.nodes, parents@, self@.leader, id) is None,
            },
            found matches Some(hops) ==> hops <= self@.nodes.len(),
    {
        let mut at: u32 = id;
        let mut hops: usize = 0;
        let ghost nodes = self@.nodes;
        let ghost leader = self@.leader;
        while at != self.leader
            invariant
                nodes == self@.nodes,
                nodes.len() == self.nodes.len(),
                leader == self@.leader,
                hops <= nodes.len(),
                climb(nodes, parents@, id, hops as nat) == Some(at),
                forall|k: nat|
                    k < hops ==> #[trigger] climb(nodes, parents@, id, k) != Some(leader),
            decreases nodes.len() - hops,
        {
            if hops >= self.nodes.len() {
                return None;
            }
            match self.parent(parents, at) {
                Some(up) => {
                    at = up;
                },
                None => {
                    proof {
                        let ended = (hops + 1) as nat;
                        assert forall|h: nat| !(#[trigger] hops_to(nodes, parents@, leader, id, h)) by {
                            assert(climb(nodes, parents@, id, ended) is None);
                            if h >= ended {
                                lemma_climb_ends(nodes, parents@, id, ended, h);
                            }
                        }
                    }
                    return None;
                },
            }
            hops += 1;
        }
        proof {
            assert(hops_to(nodes, parents@, leader, id, hops as nat));
        }
        Some(hops as u16)
    }

    /// How deep the tree is: the greatest depth of an active node, or zero where no active node
    /// reaches the leader.
    #[must_use]
    pub fn depth(&self, parents: &[Option<u32>]) -> (deepest: u16)
        requires
            max_depth(self@.nodes, parents@, self@.leader, self@.nodes.len() as int) <= u16::MAX,
        ensures
            deepest == max_depth(
                self@.nodes,
                parents@,
                self@.leader,
                self@.nodes.len() as int,
            ),
            deepest <= self@.nodes.len(),
    {
        let mut deepest: u16 = 0;
        let mut i: usize = 0;
        while i < self.nodes.len()
            invariant
                i <= self.nodes@.len(),
                max_depth(self@.nodes, parents@, self@.leader, self@.nodes.len() as int)
                    <= u16::MAX,
                deepest == max_depth(self@.nodes, parents@, self@.leader, i as int),
                deepest <= self@.nodes.len(),
            decreases self.nodes.len() - i,
        {
            proof {
                assert(self@.nodes[i as int] == self.nodes@[i as int]@);
            }
            if self.nodes[i].active() {
                proof {
                    lemma_max_depth_grows(
                        self@.nodes,
                        parents@,
                        self@.leader,
                        i + 1,
                        self@.nodes.len() as int,
                    );
                }
                if let Some(hops) = self.depth_of(parents, self.nodes[i].id) {
                    if hops > deepest {
                        deepest = hops;
                    }
                }
            }
            i += 1;
        }
        deepest
    }

    /// The nodes below `root`, each once.
    #[must_use]
    pub fn descendants(&self, parents: &[Option<u32>], root: u32) -> (out: Vec<u32>)
        requires
            self@.sound(),
        ensures
            out@.no_duplicates(),
            out@.to_set() == subtree_of(self@.nodes, parents@, root),
            out@.len() == subtree_of(self@.nodes, parents@, root).len(),
    {
        let ghost nodes = self@.nodes;
        let ghost table = parents@;
        let mut out: Vec<u32> = Vec::new();
        let mut frontier: Vec<u32> = Vec::new();
        frontier.push(root);
        proof {
            assert(frontier@[0] == root);
        }
        while frontier.len() > 0
            invariant
                nodes == self@.nodes,
                table == parents@,
                super::ids(nodes).no_duplicates(),
                out@.no_duplicates(),
                forall|x: u32| #[trigger] out@.contains(x) ==> super::ids(nodes).contains(x),
                forall|x: u32|
                    #[trigger] out@.contains(x) ==> subtree_of(nodes, table, root).contains(x),
                forall|x: u32| #[trigger] frontier@.contains(x) ==> x == root || out@.contains(x),
                forall|x: u32|
                    (x == root || out@.contains(x)) && !frontier@.contains(x) ==> #[trigger]
                    closed_at(nodes, table, out@, x),
                out@.len() <= nodes.len(),
            decreases nodes.len() - out@.len(), frontier@.len(),
        {
            let ghost had = out@;
            let ghost waiting = frontier@;
            let last: usize = frontier.len() - 1;
            let x: u32 = frontier[last];
            frontier.pop();
            proof {
                assert(waiting.contains(x));
                assert forall|y: u32| #[trigger] frontier@.contains(y) implies waiting.contains(y) by {
                    let k = frontier@.index_of(y);
                    assert(waiting[k] == y);
                }
                assert forall|y: u32| waiting.contains(y) && y != x implies #[trigger]
                    frontier@.contains(y) by {
                    let k = waiting.index_of(y);
                    assert(frontier@[k] == y);
                }
            }
            let mut i: usize = 0;
            while i < self.nodes.len()
                invariant
                    nodes == self@.nodes,
                    table == parents@,
                    super::ids(nodes).no_duplicates(),
                    i <= self.nodes@.len(),
                    x == root || out@.contains(x),
                    out@.no_duplicates(),
                    forall|y: u32| #[trigger] out@.contains(y) ==> super::ids(nodes).contains(y),
                    forall|y: u32|
                        #[trigger] out@.contains(y) ==> subtree_of(nodes, table, root).contains(y),
                    forall|y: u32|
                        #[trigger] frontier@.contains(y) ==> y == root || out@.contains(y),
                    forall|y: u32|
                        (y == root || out@.contains(y)) && !frontier@.contains(y) && y != x
                            ==> #[trigger] closed_at(nodes, table, out@, y),
                    forall|j: int|
                        j < i && #[trigger] child(nodes, table, j, x) ==> out@.contains(
                            nodes[j].id,
                        ),
                    out@.len() > had.len() || out@.len() == had.len() && frontier@.len() + 1
                        == waiting.len(),
                decreases self.nodes.len() - i,
            {
                let id: u32 = self.nodes[i].id;
                let up: Option<u32> = if i < parents.len() {
                    parents[i]
                } else {
                    None
                };
                proof {
                    assert(nodes[i as int].id == id);
                }
                let fresh: bool = match up {
                    Some(up) => up == x && id != x && !holds(&out, id),
                    None => false,
                };
                if fresh {
                    let ghost o = out@;
                    let ghost f = frontier@;
                    out.push(id);
                    frontier.push(id);
                    proof {
                        assert(out@.drop_last() =~= o);
                        assert(frontier@.drop_last() =~= f);
                        lemma_pushed(o, id);
                        lemma_pushed(f, id);
                        assert(super::ids(nodes)[i as int] == id);
                        lemma_found_by_id(nodes, i as int);
                        assert(subtree_of(nodes, table, root).contains(id)) by {
                            if x == root {
                                assert(below(nodes, table, id, root, 1));
                            } else {
                                let k = choose|k: nat| below(nodes, table, x, root, k);
                                assert(below(nodes, table, id, root, k + 1));
                            }
                        }
                        assert forall|y: u32|
                            (y == root || out@.contains(y)) && !frontier@.contains(y) && y
                                != x implies #[trigger] closed_at(nodes, table, out@, y) by {
                            assert(closed_at(nodes, table, o, y));
                        }
                    }
                }
                i += 1;
            }
            proof {
                assert(closed_at(nodes, table, out@, x));
                lemma_fewer_than_nodes(nodes, out@);
            }
        }
        proof {
            let under = subtree_of(nodes, table, root);
            assert forall|id: u32| under.contains(id) implies out@.contains(id) by {
                let k = choose|k: nat| below(nodes, table, id, root, k);
                assert(closed_at(nodes, table, out@, root));
                assert forall|x: u32| #[trigger] out@.contains(x) implies closed_at(
                    nodes,
                    table,
                    out@,
                    x,
                ) by {}
                lemma_closed_holds_all(nodes, table, out@, root, id, k);
            }
            assert(out@.to_set() =~= under);
            out@.unique_seq_to_set();
        }
        out
    }

    /// The active node with the most nodes below it, the leader apart; of equals, the one with
    /// the largest id. `None` where no such node has any below it.
    #[must_use]
    pub fn mid_tree(&self, parents: &[Option<u32>]) -> (pick: Option<u32>)
        requires
            self@.sound(),
        ensures
            match pick {
                Some(id) => exists|i: int| #[trigger]
                    is_pick(self@.nodes, parents@, self@.leader, i) && self@.nodes[i].id == id,
                None => forall|i: int| !#[trigger]
                    can_pick(self@.nodes, parents@, self@.leader, i),
            },
    {
        let ghost nodes = self@.nodes;
        let ghost leader = self@.leader;
        let mut pick: Option<(usize, u32)> = None;
        let ghost mut best: int = 0;
        let mut i: usize = 0;
        while i < self.nodes.len()
            invariant
                nodes == self@.nodes,
                leader == self@.leader,
                self@.sound(),
                i <= self.nodes@.len(),
                match pick {
                    Some((size, id)) => {
                        &&& can_pick(nodes, parents@, leader, best)
                        &&& nodes[best].id == id
                        &&& subtree_of(nodes, parents@, id).len() == size
                        &&& forall|j: int|
                            j < i && #[trigger] can_pick(nodes, parents@, leader, j) ==> no_larger(
                                nodes,
                                parents@,
                                j,
                                best,
                            )
                    },
                    None => forall|j: int|
                        j < i ==> !#[trigger] can_pick(nodes, parents@, leader, j),
                },
            decreases self.nodes.len() - i,
        {
            let id: u32 = self.nodes[i].id;
            proof {
                assert(nodes[i as int] == self.nodes@[i as int]@);
            }
            if self.nodes[i].active() && id != self.leader {
                let size: usize = self.descendants(parents, id).len();
                let larger: bool = match pick {
                    Some((most, with)) => size > most || (size == most && id >= with),
                    None => true,
                };
                if size > 0 && larger {
                    pick = Some((size, id));
                    proof {
                        best = i as int;
                    }
                }
            }
            i += 1;
        }
        match pick {
            Some((_, id)) => {
                proof {
                    assert(is_pick(nodes, parents@, leader, best));
                }
                Some(id)
            },
            None => None,
        }
    }

    /// Of the active nodes, the leader apart, how many have the lease parent that `places` gives
    /// them, and how many there are. `places` has for every node the parent that the true view
    /// gives it; how far the two numbers are apart is how far the cluster is from having
    /// converged on the tree.
    #[must_use]
    pub fn agreement(
        &self,
        parents: &[Option<u32>],
        places: &[Option<u32>],
    ) -> (found: (usize, usize))
        ensures
            found.0 == count(
                self@.nodes.len() as int,
                in_place(self@.nodes, self@.leader, parents@, places@),
            ),
            found.1 == count(self@.nodes.len() as int, follows(self@.nodes, self@.leader)),
            found.0 <= found.1,
    {
        let mut agree: usize = 0;
        let mut all: usize = 0;
        let mut i: usize = 0;
        while i < self.nodes.len()
            invariant
                agree <= all <= i <= self.nodes@.len(),
                agree == count(i as int, in_place(self@.nodes, self@.leader, parents@, places@)),
                all == count(i as int, follows(self@.nodes, self@.leader)),
            decreases self.nodes.len() - i,
        {
            proof {
                assert(self@.nodes[i as int] == self.nodes@[i as int]@);
            }
            if self.nodes[i].active() && self.nodes[i].id != self.leader {
                all += 1;
                if i < places.len() {
                    if let Some(place) = places[i] {
                        let up: Option<u32> = if i < parents.len() {
                            parents[i]
                        } else {
                            None
                        };
                        if let Some(up) = up {
                            if up == place {
                                agree += 1;
                            }
                        }
                    }
                }
            }
            i += 1;
        }
        (agree, all)
    }

    /// How many active nodes have a lease parent in another data centre.
    #[must_use]
    pub fn cross_edges(&self, parents: &[Option<u32>]) -> (edges: usize)
        ensures
            edges == count(self@.nodes.len() as int, crosses(self@.nodes, parents@)),
            edges <= self@.nodes.len(),
    {
        let mut edges: usize = 0;
        let mut i: usize = 0;
        while i < self.nodes.len()
            invariant
                edges <= i <= self.nodes@.len(),
                edges == count(i as int, crosses(self@.nodes, parents@)),
            decreases self.nodes.len() - i,
        {
            proof {
                assert(self@.nodes[i as int] == self.nodes@[i as int]@);
            }
            if self.nodes[i].active() && i < parents.len() {
                if let Some(up) = parents[i] {
                    if let Some(j) = self.idx(up) {
                        proof {
                            assert(self@.nodes[j as int] == self.nodes@[j as int]@);
                        }
                        if self.nodes[j].dc != self.nodes[i].dc {
                            edges += 1;
                        }
                    }
                }
            }
            i += 1;
        }
        edges
    }
}

/// Whether `list` holds `id`.
pub(super) fn holds(list: &Vec<u32>, id: u32) -> (yes: bool)
    ensures
        yes == list@.contains(id),
{
    let mut i: usize = 0;
    while i < list.len()
        invariant
            i <= list@.len(),
            forall|j: int| 0 <= j < i ==> list@[j] != id,
        decreases list.len() - i,
    {
        if list[i] == id {
            return true;
        }
        i += 1;
    }
    false
}

/// What a list holds after a push.
proof fn lemma_pushed(list: Seq<u32>, id: u32)
    ensures
        forall|x: u32| #[trigger] list.push(id).contains(x) <==> list.contains(x) || x == id,
        list.no_duplicates() && !list.contains(id) ==> list.push(id).no_duplicates(),
{
    let longer = list.push(id);
    assert forall|x: u32| #[trigger] longer.contains(x) <==> list.contains(x) || x == id by {
        if list.contains(x) {
            let k = list.index_of(x);
            assert(longer[k] == x);
        }
        assert(longer[list.len() as int] == id);
    }
}

/// Of the first `n` nodes, one that can be picked is the one to pick, where any can.
proof fn lemma_best_of(
    nodes: Seq<NodeView>,
    parents: Seq<Option<u32>>,
    leader: u32,
    n: int,
) -> (best: int)
    ensures
        (exists|j: int| j < n && #[trigger] can_pick(nodes, parents, leader, j)) ==> can_pick(
            nodes,
            parents,
            leader,
            best,
        ) && forall|j: int|
            j < n && #[trigger] can_pick(nodes, parents, leader, j) ==> no_larger(
                nodes,
                parents,
                j,
                best,
            ),
    decreases n,
{
    if n <= 0 {
        0
    } else {
        let front = lemma_best_of(nodes, parents, leader, n - 1);
        let here = n - 1;
        if !can_pick(nodes, parents, leader, here) {
            front
        } else if (exists|j: int| j < n - 1 && #[trigger] can_pick(nodes, parents, leader, j))
            && no_larger(nodes, parents, here, front) {
            front
        } else {
            here
        }
    }
}

/// Where a node can be picked, one is the one to pick.
pub proof fn lemma_someone_is_picked(
    nodes: Seq<NodeView>,
    parents: Seq<Option<u32>>,
    leader: u32,
)
    ensures
        (exists|j: int| #[trigger] can_pick(nodes, parents, leader, j)) ==> exists|i: int| #[trigger]
            is_pick(nodes, parents, leader, i),
{
    if exists|j: int| #[trigger] can_pick(nodes, parents, leader, j) {
        let j = choose|j: int| #[trigger] can_pick(nodes, parents, leader, j);
        let best = lemma_best_of(nodes, parents, leader, nodes.len() as int);
        assert(j < nodes.len());
        assert(is_pick(nodes, parents, leader, best));
    }
}

/// The table has `up` as the lease parent of a node with the id `id`.
pub open spec fn leases_from(
    nodes: Seq<NodeView>,
    parents: Seq<Option<u32>>,
    id: u32,
    up: u32,
) -> bool {
    exists|i: int|
        0 <= i < nodes.len() && i < parents.len() && (#[trigger] nodes[i]).id == id && parents[i]
            == Some(up)
}

/// `chain` leads from node to lease parent.
pub open spec fn is_chain(
    nodes: Seq<NodeView>,
    parents: Seq<Option<u32>>,
    chain: Seq<u32>,
) -> bool {
    forall|k: int|
        0 <= k < chain.len() - 1 ==> leases_from(nodes, parents, #[trigger] chain[k], chain[k + 1])
}

/// Where the ids are unique, the table has one lease parent for a node at most.
proof fn lemma_leases_from(nodes: Seq<NodeView>, parents: Seq<Option<u32>>, id: u32, up: u32)
    requires
        super::ids(nodes).no_duplicates(),
    ensures
        leases_from(nodes, parents, id, up) <==> parent_at(nodes, parents, id) == Some(up),
{
    let ids = super::ids(nodes);
    ids.index_of_first_ensures(id);
    if leases_from(nodes, parents, id, up) {
        let i = choose|i: int|
            0 <= i < nodes.len() && i < parents.len() && (#[trigger] nodes[i]).id == id
                && parents[i] == Some(up);
        lemma_found_by_id(nodes, i);
    }
    if parent_at(nodes, parents, id) == Some(up) {
        let i = super::find(nodes, id).unwrap();
        assert(ids[i] == nodes[i].id);
    }
}

/// A climb follows a chain.
proof fn lemma_climb_follows(
    nodes: Seq<NodeView>,
    parents: Seq<Option<u32>>,
    chain: Seq<u32>,
    k: int,
)
    requires
        super::ids(nodes).no_duplicates(),
        is_chain(nodes, parents, chain),
        0 <= k < chain.len(),
    ensures
        climb(nodes, parents, chain[0], k as nat) == Some(chain[k]),
    decreases k,
{
    if k > 0 {
        lemma_climb_follows(nodes, parents, chain, k - 1);
        assert(leases_from(nodes, parents, chain[k - 1], chain[k - 1 + 1]));
        lemma_leases_from(nodes, parents, chain[k - 1], chain[k]);
    }
}

/// The depth of a node counts the steps of the chain that leads from it, lease parent by lease
/// parent, to the leader: a chain that comes to the leader at its end and not before, in no more
/// steps than there are nodes.
pub proof fn law_a_depth_counts_the_steps_to_the_leader(
    nodes: Seq<NodeView>,
    parents: Seq<Option<u32>>,
    leader: u32,
    chain: Seq<u32>,
)
    requires
        super::ids(nodes).no_duplicates(),
        0 < chain.len() <= nodes.len() + 1,
        is_chain(nodes, parents, chain),
        chain.last() == leader,
        forall|k: int| 0 <= k < chain.len() - 1 ==> #[trigger] chain[k] != leader,
    ensures
        depth(nodes, parents, leader, chain[0]) == Some((chain.len() - 1) as nat),
{
    let hops = (chain.len() - 1) as nat;
    let id = chain[0];
    lemma_climb_follows(nodes, parents, chain, hops as int);
    assert forall|k: nat| k < hops implies #[trigger] climb(nodes, parents, id, k) != Some(
        leader,
    ) by {
        lemma_climb_follows(nodes, parents, chain, k as int);
        assert(chain[k as int] != leader);
    }
    assert(hops_to(nodes, parents, leader, id, hops));
    let d = depth(nodes, parents, leader, id).unwrap();
    assert(hops_to(nodes, parents, leader, id, d));
    assert(climb(nodes, parents, id, d) == Some(leader));
    assert(climb(nodes, parents, id, hops) == Some(leader));
}

/// Where a climb has led somewhere, every step before it has.
proof fn lemma_climb_came_from(
    nodes: Seq<NodeView>,
    parents: Seq<Option<u32>>,
    id: u32,
    k: nat,
    further: nat,
)
    requires
        climb(nodes, parents, id, further) is Some,
        k <= further,
    ensures
        climb(nodes, parents, id, k) is Some,
{
    if climb(nodes, parents, id, k) is None {
        lemma_climb_ends(nodes, parents, id, k, further);
    }
}

/// A node that has a depth has a chain of that many steps to the leader, which comes to the leader
/// at its end and not before.
pub proof fn law_a_depth_has_its_chain(
    nodes: Seq<NodeView>,
    parents: Seq<Option<u32>>,
    leader: u32,
    id: u32,
) -> (chain: Seq<u32>)
    requires
        super::ids(nodes).no_duplicates(),
        depth(nodes, parents, leader, id) is Some,
    ensures
        chain.len() == depth(nodes, parents, leader, id).unwrap() + 1,
        chain.len() <= nodes.len() + 1,
        chain[0] == id,
        chain.last() == leader,
        is_chain(nodes, parents, chain),
        forall|k: int| 0 <= k < chain.len() - 1 ==> #[trigger] chain[k] != leader,
{
    let d = depth(nodes, parents, leader, id).unwrap();
    assert(hops_to(nodes, parents, leader, id, d));
    let chain = Seq::new(d + 1, |k: int| climb(nodes, parents, id, k as nat).unwrap());
    assert forall|k: int| 0 <= k < chain.len() - 1 implies leases_from(
        nodes,
        parents,
        #[trigger] chain[k],
        chain[k + 1],
    ) by {
        lemma_climb_came_from(nodes, parents, id, k as nat, d);
        lemma_climb_came_from(nodes, parents, id, (k + 1) as nat, d);
        lemma_leases_from(nodes, parents, chain[k], chain[k + 1]);
    }
    assert forall|k: int| 0 <= k < chain.len() - 1 implies #[trigger] chain[k] != leader by {
        lemma_climb_came_from(nodes, parents, id, k as nat, d);
        assert(climb(nodes, parents, id, k as nat) != Some(leader));
    }
    chain
}

/// The tree is as deep as its deepest active node: no active node that reaches the leader is deeper,
/// and where the tree has any depth an active node has it.
pub proof fn law_the_tree_is_as_deep_as_its_deepest_node(
    nodes: Seq<NodeView>,
    parents: Seq<Option<u32>>,
    leader: u32,
    n: int,
)
    requires
        0 <= n <= nodes.len(),
    ensures
        forall|i: int|
            0 <= i < n && (#[trigger] nodes[i]).member && nodes[i].up ==> (depth(
                nodes,
                parents,
                leader,
                nodes[i].id,
            ) matches Some(d) ==> d <= max_depth(nodes, parents, leader, n)),
        max_depth(nodes, parents, leader, n) > 0 ==> exists|i: int|
            0 <= i < n && (#[trigger] nodes[i]).member && nodes[i].up && depth(
                nodes,
                parents,
                leader,
                nodes[i].id,
            ) == Some(max_depth(nodes, parents, leader, n)),
    decreases n,
{
    if n > 0 {
        law_the_tree_is_as_deep_as_its_deepest_node(nodes, parents, leader, n - 1);
        let here = nodes[n - 1];
        let most = max_depth(nodes, parents, leader, n);
        if most > 0 && most != max_depth(nodes, parents, leader, n - 1) {
            assert(here.member && here.up && depth(nodes, parents, leader, here.id) == Some(most));
        }
    }
}

/// What is below a node is what a chain leads to it from, in one step or more, none of them from a
/// node to itself.
pub proof fn law_what_is_below_has_a_chain_up(
    nodes: Seq<NodeView>,
    parents: Seq<Option<u32>>,
    root: u32,
    chain: Seq<u32>,
)
    requires
        super::ids(nodes).no_duplicates(),
        chain.len() > 1,
        is_chain(nodes, parents, chain),
        chain.last() == root,
        forall|k: int| 0 <= k < chain.len() - 1 ==> #[trigger] chain[k] != chain[k + 1],
    ensures
        subtree_of(nodes, parents, root).contains(chain[0]),
    decreases chain.len(),
{
    assert(leases_from(nodes, parents, chain[0], chain[1]));
    lemma_leases_from(nodes, parents, chain[0], chain[1]);
    assert(chain[0] != chain[1]);
    if chain.len() == 2 {
        assert(below(nodes, parents, chain[0], root, 1));
    } else {
        let rest = chain.drop_first();
        assert forall|k: int| 0 <= k < rest.len() - 1 implies leases_from(
            nodes,
            parents,
            #[trigger] rest[k],
            rest[k + 1],
        ) && rest[k] != rest[k + 1] by {
            assert(rest[k] == chain[k + 1]);
            assert(leases_from(nodes, parents, chain[k + 1], chain[k + 1 + 1]));
            assert(chain[k + 1] != chain[k + 1 + 1]);
        }
        law_what_is_below_has_a_chain_up(nodes, parents, root, rest);
        let k = choose|k: nat| below(nodes, parents, rest[0], root, k);
        assert(below(nodes, parents, chain[0], root, k + 1));
    }
}

/// Every node below another has a chain up to it.
pub proof fn law_a_chain_leads_up_from_what_is_below(
    nodes: Seq<NodeView>,
    parents: Seq<Option<u32>>,
    root: u32,
    id: u32,
) -> (chain: Seq<u32>)
    requires
        super::ids(nodes).no_duplicates(),
        subtree_of(nodes, parents, root).contains(id),
    ensures
        chain.len() > 1,
        chain[0] == id,
        chain.last() == root,
        is_chain(nodes, parents, chain),
        forall|k: int| 0 <= k < chain.len() - 1 ==> #[trigger] chain[k] != chain[k + 1],
{
    let k = choose|k: nat| below(nodes, parents, id, root, k);
    lemma_chain_of(nodes, parents, root, id, k)
}

/// The chain of a node that is below another within `k` steps.
proof fn lemma_chain_of(
    nodes: Seq<NodeView>,
    parents: Seq<Option<u32>>,
    root: u32,
    id: u32,
    k: nat,
) -> (chain: Seq<u32>)
    requires
        super::ids(nodes).no_duplicates(),
        below(nodes, parents, id, root, k),
    ensures
        chain.len() > 1,
        chain[0] == id,
        chain.last() == root,
        is_chain(nodes, parents, chain),
        forall|j: int| 0 <= j < chain.len() - 1 ==> #[trigger] chain[j] != chain[j + 1],
    decreases k,
{
    let up = parent_at(nodes, parents, id).unwrap();
    lemma_leases_from(nodes, parents, id, up);
    if up == root {
        seq![id, root]
    } else {
        let rest = lemma_chain_of(nodes, parents, root, up, (k - 1) as nat);
        let chain = seq![id] + rest;
        assert forall|j: int| 0 <= j < chain.len() - 1 implies leases_from(
            nodes,
            parents,
            #[trigger] chain[j],
            chain[j + 1],
        ) && chain[j] != chain[j + 1] by {
            if j > 0 {
                assert(chain[j] == rest[j - 1]);
                assert(leases_from(nodes, parents, rest[j - 1], rest[j - 1 + 1]));
                assert(rest[j - 1] != rest[j - 1 + 1]);
            }
        }
        chain
    }
}

/// A count is the number of places that pass.
pub proof fn law_a_count_is_the_number_that_pass(n: int, passes: spec_fn(int) -> bool)
    requires
        0 <= n,
    ensures
        Set::new(|i: int| 0 <= i < n && passes(i)).finite(),
        count(n, passes) == Set::new(|i: int| 0 <= i < n && passes(i)).len(),
    decreases n,
{
    let all = Set::new(|i: int| 0 <= i < n && passes(i));
    if n == 0 {
        assert(all =~= Set::empty());
    } else {
        law_a_count_is_the_number_that_pass(n - 1, passes);
        let front = Set::new(|i: int| 0 <= i < n - 1 && passes(i));
        if passes(n - 1) {
            assert(all =~= front.insert(n - 1));
        } else {
            assert(all =~= front);
        }
    }
}

/// Who is counted: as a follower, a member that is up and does not lead; as in its place, a follower
/// whose lease parent the two tables agree on; as crossing, a member that is up and whose lease
/// parent is a node in another data centre.
pub proof fn law_who_is_counted(
    nodes: Seq<NodeView>,
    leader: u32,
    parents: Seq<Option<u32>>,
    places: Seq<Option<u32>>,
    i: int,
)
    requires
        super::ids(nodes).no_duplicates(),
        0 <= i < nodes.len(),
    ensures
        follows(nodes, leader)(i) <==> nodes[i].member && nodes[i].up && nodes[i].id != leader,
        in_place(nodes, leader, parents, places)(i) <==> nodes[i].member && nodes[i].up
            && nodes[i].id != leader && i < parents.len() && i < places.len() && places[i] is Some
            && parents[i] == places[i],
        crosses(nodes, parents)(i) <==> nodes[i].member && nodes[i].up && i < parents.len()
            && parents[i] is Some && exists|j: int|
            0 <= j < nodes.len() && (#[trigger] nodes[j]).id == parents[i].unwrap() && nodes[j].dc
                != nodes[i].dc,
{
    if i < parents.len() && parents[i] is Some {
        let up = parents[i].unwrap();
        let ids = super::ids(nodes);
        ids.index_of_first_ensures(up);
        if exists|j: int|
            0 <= j < nodes.len() && (#[trigger] nodes[j]).id == up && nodes[j].dc != nodes[i].dc {
            let j = choose|j: int|
                0 <= j < nodes.len() && (#[trigger] nodes[j]).id == up && nodes[j].dc
                    != nodes[i].dc;
            lemma_found_by_id(nodes, j);
        }
        if let Some(j) = super::find(nodes, up) {
            assert(ids[j] == nodes[j].id);
        }
    }
}

} // verus!
