//! The solved production graph: nodes for items and active recipes, each
//! carrying its resolved incoming and outgoing flows.

use vstd::prelude::*;

use crate::units::RATE_EPSILON;

verus! {

/// What a graph node stands for.
#[derive(Debug, PartialEq, Eq, Structural, Clone, Copy)]
pub enum NodeType {
    /// A primitive item feeding the plan.
    Input,
    /// An active recipe.
    Production,
    /// A requested target item.
    Output,
}

/// One resolved flow at a node: the item's display name, the neighboring
/// node's display name, the flow rate, and, for production-node outputs,
/// the sustained per-machine rate (all rates fixed-point units per minute).
pub struct ItemRate {
    pub name: String,
    pub other_node_name: String,
    pub rate: i64,
    pub underclock: i64,
}

/// A graph vertex with its resolved flows.  `inputs` and `outputs` hold
/// one entry per recorded edge, tagged with the neighboring node's
/// identifier; when two different items flow between the same pair of
/// nodes, two entries share that tag.
pub struct Node {
    pub node_type: NodeType,
    pub name: String,
    pub inputs: Vec<(String, ItemRate)>,
    pub outputs: Vec<(String, ItemRate)>,
}

/// The final mapping from node identifier to node: one entry per
/// identifier (see [`ids_unique`]).
pub struct Factory {
    pub nodes: Vec<(String, Node)>,
}

/// The rate is above the noise threshold in magnitude.
pub open spec fn above_noise(r: i64) -> bool {
    r > RATE_EPSILON || r < -RATE_EPSILON
}

/// Every flow recorded on the node is above the noise threshold.
pub open spec fn entries_above_noise(n: Node) -> bool {
    &&& forall|i: int| 0 <= i < n.inputs@.len() ==> above_noise((#[trigger] n.inputs@[i]).1.rate)
    &&& forall|i: int| 0 <= i < n.outputs@.len() ==> above_noise((#[trigger] n.outputs@[i]).1.rate)
}

/// Every flow recorded on the node has a strictly positive rate above the
/// noise threshold.
pub open spec fn entries_positive(n: Node) -> bool {
    &&& forall|i: int| 0 <= i < n.inputs@.len() ==> (#[trigger] n.inputs@[i]).1.rate
        > RATE_EPSILON
    &&& forall|i: int| 0 <= i < n.outputs@.len() ==> (#[trigger] n.outputs@[i]).1.rate
        > RATE_EPSILON
}

/// The node is clean: only above-noise flows, and at least one of them.
pub open spec fn node_cleaned(n: Node) -> bool {
    &&& entries_above_noise(n)
    &&& n.inputs@.len() + n.outputs@.len() > 0
}

/// Some node carries identifier `src` and records an outgoing flow tagged
/// `dst` with the given rate and per-machine clock rate.
pub open spec fn records_output(
    nodes: Seq<(String, Node)>,
    src: Seq<char>,
    dst: Seq<char>,
    rate: i64,
    uc: int,
    iname: Seq<char>,
    oname: Seq<char>,
) -> bool {
    exists|k: int|
        0 <= k < nodes.len() && (#[trigger] nodes[k]).0@ == src && exists|e: int|
            0 <= e < nodes[k].1.outputs@.len() && (#[trigger] nodes[k].1.outputs@[e]).0@ == dst
                && nodes[k].1.outputs@[e].1.rate == rate && nodes[k].1.outputs@[e].1.underclock
                as int == uc && nodes[k].1.outputs@[e].1.name@ == iname
                && nodes[k].1.outputs@[e].1.other_node_name@ == oname
}

/// Some node carries identifier `dst` and records an incoming flow tagged
/// `src` with the given rate and per-machine clock rate.
pub open spec fn records_input(
    nodes: Seq<(String, Node)>,
    dst: Seq<char>,
    src: Seq<char>,
    rate: i64,
    uc: int,
    iname: Seq<char>,
    oname: Seq<char>,
) -> bool {
    exists|k: int|
        0 <= k < nodes.len() && (#[trigger] nodes[k]).0@ == dst && exists|e: int|
            0 <= e < nodes[k].1.inputs@.len() && (#[trigger] nodes[k].1.inputs@[e]).0@ == src
                && nodes[k].1.inputs@[e].1.rate == rate && nodes[k].1.inputs@[e].1.underclock
                as int == uc && nodes[k].1.inputs@[e].1.name@ == iname
                && nodes[k].1.inputs@[e].1.other_node_name@ == oname
}

/// `post` extends `pre`: the same nodes in place, each with its flow lists
/// only appended to, and possibly further nodes after them.
pub open spec fn nodes_extend(pre: Seq<(String, Node)>, post: Seq<(String, Node)>) -> bool {
    &&& pre.len() <= post.len()
    &&& forall|k: int|
        0 <= k < pre.len() ==> (#[trigger] post[k]).0 == pre[k].0 && pre[k].1.inputs@.len()
            <= post[k].1.inputs@.len() && pre[k].1.outputs@.len() <= post[k].1.outputs@.len()
            && (forall|e: int|
            0 <= e < pre[k].1.inputs@.len() ==> (#[trigger] post[k].1.inputs@[e])
                == pre[k].1.inputs@[e]) && (forall|e: int|
            0 <= e < pre[k].1.outputs@.len() ==> (#[trigger] post[k].1.outputs@[e])
                == pre[k].1.outputs@[e])
}

/// Extension preserves recorded flows.
pub proof fn lemma_records_extend(
    pre: Seq<(String, Node)>,
    post: Seq<(String, Node)>,
    a: Seq<char>,
    b: Seq<char>,
    rate: i64,
    uc: int,
    iname: Seq<char>,
    oname: Seq<char>,
)
    requires
        nodes_extend(pre, post),
    ensures
        records_output(pre, a, b, rate, uc, iname, oname) ==> records_output(
            post,
            a,
            b,
            rate,
            uc,
            iname,
            oname,
        ),
        records_input(pre, a, b, rate, uc, iname, oname) ==> records_input(
            post,
            a,
            b,
            rate,
            uc,
            iname,
            oname,
        ),
{
    if records_output(pre, a, b, rate, uc, iname, oname) {
        let k = choose|k: int|
            0 <= k < pre.len() && (#[trigger] pre[k]).0@ == a && exists|e: int|
                0 <= e < pre[k].1.outputs@.len() && (#[trigger] pre[k].1.outputs@[e]).0@ == b
                    && pre[k].1.outputs@[e].1.rate == rate && pre[k].1.outputs@[e].1.underclock
                    as int == uc && pre[k].1.outputs@[e].1.name@ == iname
                    && pre[k].1.outputs@[e].1.other_node_name@ == oname;
        let e = choose|e: int|
            0 <= e < pre[k].1.outputs@.len() && (#[trigger] pre[k].1.outputs@[e]).0@ == b
                && pre[k].1.outputs@[e].1.rate == rate && pre[k].1.outputs@[e].1.underclock
                as int == uc && pre[k].1.outputs@[e].1.name@ == iname
                && pre[k].1.outputs@[e].1.other_node_name@ == oname;
        assert(post[k].1.outputs@[e] == pre[k].1.outputs@[e]);
        assert(post[k].0@ == a);
    }
    if records_input(pre, a, b, rate, uc, iname, oname) {
        let k = choose|k: int|
            0 <= k < pre.len() && (#[trigger] pre[k]).0@ == a && exists|e: int|
                0 <= e < pre[k].1.inputs@.len() && (#[trigger] pre[k].1.inputs@[e]).0@ == b
                    && pre[k].1.inputs@[e].1.rate == rate && pre[k].1.inputs@[e].1.underclock
                    as int == uc && pre[k].1.inputs@[e].1.name@ == iname
                    && pre[k].1.inputs@[e].1.other_node_name@ == oname;
        let e = choose|e: int|
            0 <= e < pre[k].1.inputs@.len() && (#[trigger] pre[k].1.inputs@[e]).0@ == b
                && pre[k].1.inputs@[e].1.rate == rate && pre[k].1.inputs@[e].1.underclock
                as int == uc && pre[k].1.inputs@[e].1.name@ == iname
                && pre[k].1.inputs@[e].1.other_node_name@ == oname;
        assert(post[k].1.inputs@[e] == pre[k].1.inputs@[e]);
        assert(post[k].0@ == a);
    }
}

/// Extension composes.
pub proof fn lemma_extends_trans(
    a: Seq<(String, Node)>,
    b: Seq<(String, Node)>,
    c: Seq<(String, Node)>,
)
    requires
        nodes_extend(a, b),
        nodes_extend(b, c),
    ensures
        nodes_extend(a, c),
{
    assert forall|k: int|
        0 <= k < a.len() implies (#[trigger] c[k]).0 == a[k].0 && a[k].1.inputs@.len()
        <= c[k].1.inputs@.len() && a[k].1.outputs@.len() <= c[k].1.outputs@.len() && (forall|e: int|
        0 <= e < a[k].1.inputs@.len() ==> (#[trigger] c[k].1.inputs@[e]) == a[k].1.inputs@[e])
        && (forall|e: int|
        0 <= e < a[k].1.outputs@.len() ==> (#[trigger] c[k].1.outputs@[e])
            == a[k].1.outputs@[e]) by {
        assert(b[k].0 == a[k].0 && c[k].0 == b[k].0);
        assert forall|e: int|
            0 <= e < a[k].1.inputs@.len() implies (#[trigger] c[k].1.inputs@[e])
            == a[k].1.inputs@[e] by {
            assert(b[k].1.inputs@[e] == a[k].1.inputs@[e]);
            assert(c[k].1.inputs@[e] == b[k].1.inputs@[e]);
        }
        assert forall|e: int|
            0 <= e < a[k].1.outputs@.len() implies (#[trigger] c[k].1.outputs@[e])
            == a[k].1.outputs@[e] by {
            assert(b[k].1.outputs@[e] == a[k].1.outputs@[e]);
            assert(c[k].1.outputs@[e] == b[k].1.outputs@[e]);
        }
    }
}

/// A node with identifier `id` is present.
pub open spec fn has_node(nodes: Seq<(String, Node)>, id: Seq<char>) -> bool {
    exists|i: int| 0 <= i < nodes.len() && nodes[i].0@ == id
}

/// Node identifiers are pairwise distinct: the list is a mapping.
pub open spec fn ids_unique(nodes: Seq<(String, Node)>) -> bool {
    forall|p: int, q: int|
        #![trigger nodes[p].0, nodes[q].0]
        0 <= p < q < nodes.len() ==> nodes[p].0@ != nodes[q].0@
}

/// `post` is `pre` with the pair `(source, input)` appended to the inputs of
/// the node at index `k` and nothing else changed.
pub open spec fn input_added(
    pre: Seq<(String, Node)>,
    post: Seq<(String, Node)>,
    k: int,
    source: String,
    input: ItemRate,
) -> bool {
    &&& post.len() == pre.len()
    &&& forall|j: int| 0 <= j < pre.len() && j != k ==> post[j] == pre[j]
    &&& post[k].0 == pre[k].0
    &&& post[k].1.node_type == pre[k].1.node_type
    &&& post[k].1.name == pre[k].1.name
    &&& post[k].1.outputs == pre[k].1.outputs
    &&& post[k].1.inputs@ == pre[k].1.inputs@.push((source, input))
}

/// `post` is `pre` with the pair `(destination, output)` appended to the
/// outputs of the node at index `k` and nothing else changed.
pub open spec fn output_added(
    pre: Seq<(String, Node)>,
    post: Seq<(String, Node)>,
    k: int,
    destination: String,
    output: ItemRate,
) -> bool {
    &&& post.len() == pre.len()
    &&& forall|j: int| 0 <= j < pre.len() && j != k ==> post[j] == pre[j]
    &&& post[k].0 == pre[k].0
    &&& post[k].1.node_type == pre[k].1.node_type
    &&& post[k].1.name == pre[k].1.name
    &&& post[k].1.inputs == pre[k].1.inputs
    &&& post[k].1.outputs@ == pre[k].1.outputs@.push((destination, output))
}

impl Factory {
    /// The empty graph.
    pub fn new() -> (r: Factory)
        ensures
            r.nodes@ == Seq::<(String, Node)>::empty(),
    {
        Factory { nodes: Vec::new() }
    }

    /// Whether a node with identifier `node_id` is present.
    pub fn contains_node(&self, node_id: &String) -> (b: bool)
        ensures
            b == has_node(self.nodes@, node_id@),
    {
        let mut i: usize = 0;
        while i < self.nodes.len()
            invariant
                0 <= i <= self.nodes@.len(),
                forall|j: int| 0 <= j < i ==> self.nodes@[j].0@ != node_id@,
            decreases self.nodes@.len() - i,
        {
            if self.nodes[i].0 == *node_id {
                return true;
            }
            i += 1;
        }
        false
    }

    /// Adds a node with no flows.  The identifier must be new: the node
    /// list is a mapping, never holding two nodes under one identifier.
    pub fn add_node(&mut self, node_id: &String, name: &String, node_type: NodeType)
        requires
            !has_node(old(self).nodes@, node_id@),
        ensures
            ids_unique(old(self).nodes@) ==> ids_unique(final(self).nodes@),
            final(self).nodes@.len() == old(self).nodes@.len() + 1,
            forall|j: int|
                0 <= j < old(self).nodes@.len() ==> final(self).nodes@[j] == old(self).nodes@[j],
            final(self).nodes@.last().0 == *node_id,
            final(self).nodes@.last().1.node_type == node_type,
            final(self).nodes@.last().1.name == *name,
            final(self).nodes@.last().1.inputs@ == Seq::<(String, ItemRate)>::empty(),
            final(self).nodes@.last().1.outputs@ == Seq::<(String, ItemRate)>::empty(),
    {
        let node = Node { node_type, name: name.clone(), inputs: Vec::new(), outputs: Vec::new() };
        self.nodes.push((node_id.clone(), node));
    }

    /// Appends an incoming flow on the node `node_id`, tagged with the
    /// source node's identifier.  Entries are never replaced: each recorded
    /// edge keeps its own entry.
    pub fn add_node_input(&mut self, node_id: &String, source: &String, input: ItemRate) -> (k:
        usize)
        requires
            has_node(old(self).nodes@, node_id@),
        ensures
            0 <= k < old(self).nodes@.len(),
            old(self).nodes@[k as int].0@ == node_id@,
            input_added(old(self).nodes@, final(self).nodes@, k as int, *source, input),
    {
        let ghost orig = self.nodes@;
        let mut i: usize = 0;
        while i < self.nodes.len()
            invariant
                orig == old(self).nodes@,
                0 <= i <= self.nodes@.len(),
                self.nodes@ == orig,
                forall|j: int| 0 <= j < i ==> orig[j].0@ != node_id@,
                has_node(orig, node_id@),
            decreases self.nodes@.len() - i,
        {
            if self.nodes[i].0 == *node_id {
                self.nodes[i].1.inputs.push((source.clone(), input));
                proof {
                    assert(input_added(orig, self.nodes@, i as int, *source, input));
                }
                return i;
            }
            i += 1;
        }
        proof {
            assert(false);
        }
        0
    }

    /// Appends an outgoing flow on the node `node_id`, tagged with the
    /// destination node's identifier.  Entries are never replaced: each
    /// recorded edge keeps its own entry.
    pub fn add_node_output(&mut self, node_id: &String, destination: &String, output: ItemRate)
        -> (k: usize)
        requires
            has_node(old(self).nodes@, node_id@),
        ensures
            0 <= k < old(self).nodes@.len(),
            old(self).nodes@[k as int].0@ == node_id@,
            output_added(old(self).nodes@, final(self).nodes@, k as int, *destination, output),
    {
        let ghost orig = self.nodes@;
        let mut i: usize = 0;
        while i < self.nodes.len()
            invariant
                orig == old(self).nodes@,
                0 <= i <= self.nodes@.len(),
                self.nodes@ == orig,
                forall|j: int| 0 <= j < i ==> orig[j].0@ != node_id@,
                has_node(orig, node_id@),
            decreases self.nodes@.len() - i,
        {
            if self.nodes[i].0 == *node_id {
                self.nodes[i].1.outputs.push((destination.clone(), output));
                proof {
                    assert(output_added(orig, self.nodes@, i as int, *destination, output));
                }
                return i;
            }
            i += 1;
        }
        proof {
            assert(false);
        }
        0
    }
}

} // verus!
