use vstd::prelude::*;

use crate::config::Config;
use crate::genes::{
    active_rule, genes_directed, lemma_remove_inactive_resolved, lemma_resolve_resolved_noop,
    lemma_snk_step, lemma_sourcing_has_active_inbound, resolved, resolver_rel, seed_snk, sinking,
    snk_reach, sourcing, Gene, Genome,
};
use crate::node::{Node, NodeType};

verus! {

/// One assembled neuron: its node, every active gene genome-wide sinking
/// into that node, and its current scalar state.
pub struct Nuron {
    pub state: i64,
    pub node: Node,
    pub incoming: Vec<Gene>,
}

/// The compiled sparse recurrent network of one genome: the distinct active
/// input nodes, the distinct hidden neurons, the distinct output neurons,
/// and a dense node-state vector that persists across ticks.
pub struct Brain {
    pub node_state: Vec<i64>,
    pub inputs: Vec<Node>,
    pub nurons: Vec<Nuron>,
    pub outputs: Vec<Nuron>,
}

} // verus!

verus! {

// === The assembly model ===
//
// Scanning the pooled resolved genes from the left: the distinct hidden
// sources of active genes, the distinct input sources of active genes, the
// distinct output sinks of active genes, each in first-occurrence order, and
// for a node the ordered list of active genes sinking into it.

pub open spec fn hidden_nodes_prefix(gs: Seq<Gene>, n: int) -> Seq<Node>
    decreases n,
{
    if n <= 0 {
        Seq::empty()
    } else {
        let rest = hidden_nodes_prefix(gs, n - 1);
        let g = gs[n - 1];
        if g.active && g.source.node_type == NodeType::HIDDEN && !rest.contains(g.source) {
            rest.push(g.source)
        } else {
            rest
        }
    }
}

pub open spec fn hidden_nodes(gs: Seq<Gene>) -> Seq<Node> {
    hidden_nodes_prefix(gs, gs.len() as int)
}

pub open spec fn input_nodes_prefix(gs: Seq<Gene>, n: int) -> Seq<Node>
    decreases n,
{
    if n <= 0 {
        Seq::empty()
    } else {
        let rest = input_nodes_prefix(gs, n - 1);
        let g = gs[n - 1];
        if g.active && g.source.node_type == NodeType::INPUT && !rest.contains(g.source) {
            rest.push(g.source)
        } else {
            rest
        }
    }
}

pub open spec fn input_nodes(gs: Seq<Gene>) -> Seq<Node> {
    input_nodes_prefix(gs, gs.len() as int)
}

pub open spec fn output_nodes_prefix(gs: Seq<Gene>, n: int) -> Seq<Node>
    decreases n,
{
    if n <= 0 {
        Seq::empty()
    } else {
        let rest = output_nodes_prefix(gs, n - 1);
        let g = gs[n - 1];
        if g.active && g.sink.node_type == NodeType::OUTPUT && !rest.contains(g.sink) {
            rest.push(g.sink)
        } else {
            rest
        }
    }
}

pub open spec fn output_nodes(gs: Seq<Gene>) -> Seq<Node> {
    output_nodes_prefix(gs, gs.len() as int)
}

pub open spec fn incoming_prefix(gs: Seq<Gene>, node: Node, n: int) -> Seq<Gene>
    decreases n,
{
    if n <= 0 {
        Seq::empty()
    } else {
        let pre = incoming_prefix(gs, node, n - 1);
        let g = gs[n - 1];
        if g.active && g.sink == node {
            pre.push(g)
        } else {
            pre
        }
    }
}

/// Every active gene genome-wide sinking into the node, in pooled order.
pub open spec fn incoming(gs: Seq<Gene>, node: Node) -> Seq<Gene> {
    incoming_prefix(gs, node, gs.len() as int)
}

impl Brain {
    /// The structural half of the brain: each list matches the assembly
    /// model of the gene sequence, and every neuron's state starts where it
    /// is.
    pub open spec fn models(self, gs: Seq<Gene>) -> bool {
        &&& self.inputs@ == input_nodes(gs)
        &&& self.nurons@.len() == hidden_nodes(gs).len()
        &&& forall|k: int|
            0 <= k < self.nurons@.len() ==> (#[trigger] self.nurons@[k]).node == hidden_nodes(
                gs,
            )[k] && self.nurons@[k].incoming@ == incoming(gs, self.nurons@[k].node)
        &&& self.outputs@.len() == output_nodes(gs).len()
        &&& forall|k: int|
            0 <= k < self.outputs@.len() ==> (#[trigger] self.outputs@[k]).node == output_nodes(
                gs,
            )[k] && self.outputs@[k].incoming@ == incoming(gs, self.outputs@[k].node)
    }

    /// Well-formedness: the state vector spans the node index space, every
    /// listed node lies in its zone, hidden and output neurons are distinct
    /// and each has at least one incoming gene, and incoming genes are
    /// decoded genes of this topology.
    pub open spec fn wf(self, cfg: Config) -> bool {
        &&& self.node_state@.len() == cfg.node_count_spec()
        &&& forall|k: int|
            0 <= k < self.inputs@.len() ==> (#[trigger] self.inputs@[k]).wf(cfg)
                && self.inputs@[k].node_type == NodeType::INPUT
        &&& forall|k: int|
            0 <= k < self.nurons@.len() ==> (#[trigger] self.nurons@[k]).node.wf(cfg)
                && self.nurons@[k].node.node_type == NodeType::HIDDEN
                && self.nurons@[k].incoming@.len() >= 1
        &&& forall|k: int|
            0 <= k < self.outputs@.len() ==> (#[trigger] self.outputs@[k]).node.wf(cfg)
                && self.outputs@[k].node.node_type == NodeType::OUTPUT
                && self.outputs@[k].incoming@.len() >= 1
        &&& forall|k: int, j: int|
            0 <= k < self.nurons@.len() && 0 <= j < self.nurons@[k].incoming@.len() ==> (
            #[trigger] self.nurons@[k].incoming@[j]).wf(cfg)
        &&& forall|k: int, j: int|
            0 <= k < self.outputs@.len() && 0 <= j < self.outputs@[k].incoming@.len() ==> (
            #[trigger] self.outputs@[k].incoming@[j]).wf(cfg)
        &&& forall|k1: int, k2: int|
            0 <= k1 < k2 < self.nurons@.len() ==> (#[trigger] self.nurons@[k1]).node != (
            #[trigger] self.nurons@[k2]).node
        &&& forall|k1: int, k2: int|
            0 <= k1 < k2 < self.outputs@.len() ==> (#[trigger] self.outputs@[k1]).node != (
            #[trigger] self.outputs@[k2]).node
    }
}

/// A longer prefix never loses incoming genes.
proof fn lemma_incoming_prefix_mono(gs: Seq<Gene>, node: Node, n1: int, n2: int)
    requires
        0 <= n1 <= n2,
    ensures
        incoming_prefix(gs, node, n1).len() <= incoming_prefix(gs, node, n2).len(),
    decreases n2 - n1,
{
    if n1 < n2 {
        lemma_incoming_prefix_mono(gs, node, n1, n2 - 1);
    }
}

/// One active gene sinking into a node puts at least one gene on the node's
/// incoming list.
proof fn lemma_incoming_nonempty(gs: Seq<Gene>, node: Node, j: int)
    requires
        0 <= j < gs.len(),
        gs[j].active,
        gs[j].sink == node,
    ensures
        incoming(gs, node).len() >= 1,
{
    assert(incoming_prefix(gs, node, j + 1).len() >= 1);
    lemma_incoming_prefix_mono(gs, node, j + 1, gs.len() as int);
}

/// Incoming lists only hold genes of the sequence, so they inherit its
/// well-formedness.
proof fn lemma_incoming_wf(gs: Seq<Gene>, cfg: Config, node: Node, n: int)
    requires
        forall|i: int| 0 <= i < gs.len() ==> (#[trigger] gs[i]).wf(cfg),
        n <= gs.len(),
    ensures
        forall|j: int|
            0 <= j < incoming_prefix(gs, node, n).len() ==> (#[trigger] incoming_prefix(
                gs,
                node,
                n,
            )[j]).wf(cfg),
    decreases n,
{
    if n > 0 {
        lemma_incoming_wf(gs, cfg, node, n - 1);
        let pre = incoming_prefix(gs, node, n - 1);
        let g = gs[n - 1];
        if g.active && g.sink == node {
            assert(g.wf(cfg));
            assert forall|j: int| 0 <= j < pre.push(g).len() implies (#[trigger] pre.push(g)[j]).wf(
                cfg,
            ) by {
                if j < pre.len() {
                    assert(pre.push(g)[j] == pre[j]);
                } else {
                    assert(pre.push(g)[j] == g);
                }
            }
        }
    }
}

/// Collects, in order, every active gene sinking into the given node.
fn collect_incoming(gs: &Vec<Gene>, node: Node) -> (r: Vec<Gene>)
    ensures
        r@ == incoming(gs@, node),
{
    let mut r: Vec<Gene> = Vec::new();
    let glen = gs.len();
    let mut i: usize = 0;
    while i < glen
        invariant
            i <= glen,
            glen == gs@.len(),
            r@ == incoming_prefix(gs@, node, i as int),
        decreases glen - i,
    {
        let g = gs[i];
        if g.active && g.sink == node {
            r.push(g);
        }
        i = i + 1;
    }
    r
}

/// Whether the node already owns a neuron on the list.
fn nurons_contain(nurons: &Vec<Nuron>, node: Node) -> (r: bool)
    ensures
        r == exists|k: int| 0 <= k < nurons@.len() && (#[trigger] nurons@[k]).node == node,
{
    let mut k: usize = 0;
    let n = nurons.len();
    while k < n
        invariant
            k <= n,
            n == nurons@.len(),
            forall|j: int| 0 <= j < k ==> (#[trigger] nurons@[j]).node != node,
        decreases n - k,
    {
        if nurons[k].node == node {
            return true;
        }
        k = k + 1;
    }
    false
}

/// Whether the node is already on the input list.
fn inputs_contain(inputs: &Vec<Node>, node: Node) -> (r: bool)
    ensures
        r == inputs@.contains(node),
{
    let mut k: usize = 0;
    let n = inputs.len();
    while k < n
        invariant
            k <= n,
            n == inputs@.len(),
            forall|j: int| 0 <= j < k ==> inputs@[j] != node,
        decreases n - k,
    {
        if inputs[k] == node {
            proof {
                assert(inputs@.contains(node));
            }
            return true;
        }
        k = k + 1;
    }
    proof {
        assert(!inputs@.contains(node));
    }
    false
}

impl Brain {
    /// Compiles a genome's pooled, resolved active genes into the sparse
    /// network.  Every hidden or output neuron provably has at least one
    /// incoming active gene — the assembly invariant holds by construction
    /// rather than by a runtime check.  All node states start at zero.
    pub fn new(cfg: &Config, genome: &Genome) -> (r: Brain)
        requires
            cfg.wf(),
            genome.wf(*cfg),
        ensures
            r.wf(*cfg),
            r.models(genome.genes@),
            r.node_state@ == Seq::new(cfg.node_count_spec() as nat, |i: int| 0i64),
            forall|k: int| 0 <= k < r.nurons@.len() ==> (#[trigger] r.nurons@[k]).state == 0,
            forall|k: int| 0 <= k < r.outputs@.len() ==> (#[trigger] r.outputs@[k]).state == 0,
    {
        let gs = &genome.genes;
        let glen = gs.len();
        let ghost gseq = gs@;

        // Hidden neurons: one per distinct hidden node sourcing an active
        // gene, paired with every active gene sinking into it.
        let mut nurons: Vec<Nuron> = Vec::new();
        let mut i: usize = 0;
        while i < glen
            invariant
                cfg.wf(),
                genome.wf(*cfg),
                gseq == genome.genes@,
                gs@ == gseq,
                glen == gseq.len(),
                i <= glen,
                nurons@.len() == hidden_nodes_prefix(gseq, i as int).len(),
                forall|k: int|
                    0 <= k < nurons@.len() ==> (#[trigger] nurons@[k]).node == hidden_nodes_prefix(
                        gseq,
                        i as int,
                    )[k] && nurons@[k].incoming@ == incoming(gseq, nurons@[k].node)
                        && nurons@[k].state == 0 && nurons@[k].incoming@.len() >= 1,
            decreases glen - i,
        {
            let g = gs[i];
            if g.active && g.source.is_hidden() {
                if !nurons_contain(&nurons, g.source) {
                    proof {
                        assert(!hidden_nodes_prefix(gseq, i as int).contains(g.source)) by {
                            if hidden_nodes_prefix(gseq, i as int).contains(g.source) {
                                let k = choose|k: int|
                                    0 <= k < hidden_nodes_prefix(gseq, i as int).len()
                                        && hidden_nodes_prefix(gseq, i as int)[k] == g.source;
                                assert(nurons@[k].node == g.source);
                            }
                        }
                        // The assembly invariant: the hidden source of an
                        // active gene is both fed and drained, so some
                        // active gene sinks into it.
                        crate::genes::lemma_wf_genes_directed(gseq, *cfg);
                        let src = g.source.idx as int;
                        assert(active_rule(gseq, g));
                        if g.sink.node_type == NodeType::HIDDEN {
                            lemma_snk_step(gseq, i as int);
                        } else {
                            assert(seed_snk(gseq, src)) by {
                                assert(gseq[i as int].sink.node_type == NodeType::OUTPUT
                                    && gseq[i as int].source.idx == src);
                            }
                            assert(snk_reach(gseq, src, 0));
                        }
                        assert(sourcing(gseq, src) && sinking(gseq, src));
                        lemma_sourcing_has_active_inbound(gseq, src);
                        let j = choose|j: int|
                            0 <= j < gseq.len() && (#[trigger] gseq[j]).active && gseq[j].sink.idx
                                == src && (gseq[j].source.node_type == NodeType::INPUT || (
                            gseq[j].source.node_type == NodeType::HIDDEN && sourcing(
                                gseq,
                                gseq[j].source.idx as int,
                            )));
                        // Zones are disjoint, so an idx in the hidden band
                        // names the hidden node itself.
                        assert(gseq[j].sink.wf(*cfg) && g.source.wf(*cfg));
                        assert(gseq[j].sink == g.source);
                        lemma_incoming_nonempty(gseq, g.source, j);
                    }
                    let incoming_genes = collect_incoming(gs, g.source);
                    nurons.push(Nuron { node: g.source, incoming: incoming_genes, state: 0 });
                }
            }
            i = i + 1;
        }

        // Active input nodes, distinct, in first-occurrence order.
        let mut inputs: Vec<Node> = Vec::new();
        let mut i: usize = 0;
        while i < glen
            invariant
                gseq == genome.genes@,
                gs@ == gseq,
                glen == gseq.len(),
                i <= glen,
                inputs@ == input_nodes_prefix(gseq, i as int),
            decreases glen - i,
        {
            let g = gs[i];
            if g.active && g.source.is_input() {
                if !inputs_contain(&inputs, g.source) {
                    inputs.push(g.source);
                }
            }
            i = i + 1;
        }

        // Output neurons, same incoming-gathering rule.
        let mut outputs: Vec<Nuron> = Vec::new();
        let mut i: usize = 0;
        while i < glen
            invariant
                cfg.wf(),
                genome.wf(*cfg),
                gseq == genome.genes@,
                gs@ == gseq,
                glen == gseq.len(),
                i <= glen,
                outputs@.len() == output_nodes_prefix(gseq, i as int).len(),
                forall|k: int|
                    0 <= k < outputs@.len() ==> (#[trigger] outputs@[k]).node
                        == output_nodes_prefix(gseq, i as int)[k] && outputs@[k].incoming@
                        == incoming(gseq, outputs@[k].node) && outputs@[k].state == 0
                        && outputs@[k].incoming@.len() >= 1,
            decreases glen - i,
        {
            let g = gs[i];
            if g.active && g.sink.is_output() {
                if !nurons_contain(&outputs, g.sink) {
                    proof {
                        assert(!output_nodes_prefix(gseq, i as int).contains(g.sink)) by {
                            if output_nodes_prefix(gseq, i as int).contains(g.sink) {
                                let k = choose|k: int|
                                    0 <= k < output_nodes_prefix(gseq, i as int).len()
                                        && output_nodes_prefix(gseq, i as int)[k] == g.sink;
                                assert(outputs@[k].node == g.sink);
                            }
                        }
                        lemma_incoming_nonempty(gseq, g.sink, i as int);
                    }
                    let incoming_genes = collect_incoming(gs, g.sink);
                    outputs.push(Nuron { node: g.sink, incoming: incoming_genes, state: 0 });
                }
            }
            i = i + 1;
        }

        let n = cfg.node_count();
        let mut node_state: Vec<i64> = Vec::new();
        let mut i: usize = 0;
        while i < n
            invariant
                i <= n,
                node_state@.len() == i,
                forall|j: int| 0 <= j < i ==> node_state@[j] == 0i64,
            decreases n - i,
        {
            node_state.push(0);
            i = i + 1;
        }

        let brain = Brain { node_state, inputs, nurons, outputs };
        proof {
            lemma_hidden_nodes_wf(gseq, *cfg, gseq.len() as int);
            lemma_input_nodes_wf(gseq, *cfg, gseq.len() as int);
            lemma_output_nodes_wf(gseq, *cfg, gseq.len() as int);
            lemma_hidden_nodes_distinct(gseq, gseq.len() as int);
            lemma_output_nodes_distinct(gseq, gseq.len() as int);
            assert forall|k: int, j: int|
                0 <= k < brain.nurons@.len() && 0 <= j
                    < brain.nurons@[k].incoming@.len() implies (
            #[trigger] brain.nurons@[k].incoming@[j]).wf(*cfg) by {
                lemma_incoming_wf(gseq, *cfg, brain.nurons@[k].node, gseq.len() as int);
            }
            assert forall|k: int, j: int|
                0 <= k < brain.outputs@.len() && 0 <= j
                    < brain.outputs@[k].incoming@.len() implies (
            #[trigger] brain.outputs@[k].incoming@[j]).wf(*cfg) by {
                lemma_incoming_wf(gseq, *cfg, brain.outputs@[k].node, gseq.len() as int);
            }
            assert(brain.node_state@ =~= Seq::new(cfg.node_count_spec() as nat, |i: int| 0i64));
        }
        brain
    }
}

/// Every node the hidden-zone scan collects is a well-formed hidden node.
proof fn lemma_hidden_nodes_wf(gs: Seq<Gene>, cfg: Config, n: int)
    requires
        forall|i: int| 0 <= i < gs.len() ==> (#[trigger] gs[i]).wf(cfg),
        n <= gs.len(),
    ensures
        forall|k: int|
            0 <= k < hidden_nodes_prefix(gs, n).len() ==> (#[trigger] hidden_nodes_prefix(
                gs,
                n,
            )[k]).wf(cfg) && hidden_nodes_prefix(gs, n)[k].node_type == NodeType::HIDDEN,
    decreases n,
{
    if n > 0 {
        lemma_hidden_nodes_wf(gs, cfg, n - 1);
    }
}

/// Every node the input scan collects is a well-formed input node.
proof fn lemma_input_nodes_wf(gs: Seq<Gene>, cfg: Config, n: int)
    requires
        forall|i: int| 0 <= i < gs.len() ==> (#[trigger] gs[i]).wf(cfg),
        n <= gs.len(),
    ensures
        forall|k: int|
            0 <= k < input_nodes_prefix(gs, n).len() ==> (#[trigger] input_nodes_prefix(
                gs,
                n,
            )[k]).wf(cfg) && input_nodes_prefix(gs, n)[k].node_type == NodeType::INPUT,
    decreases n,
{
    if n > 0 {
        lemma_input_nodes_wf(gs, cfg, n - 1);
    }
}

/// Every node the output scan collects is a well-formed output node.
proof fn lemma_output_nodes_wf(gs: Seq<Gene>, cfg: Config, n: int)
    requires
        forall|i: int| 0 <= i < gs.len() ==> (#[trigger] gs[i]).wf(cfg),
        n <= gs.len(),
    ensures
        forall|k: int|
            0 <= k < output_nodes_prefix(gs, n).len() ==> (#[trigger] output_nodes_prefix(
                gs,
                n,
            )[k]).wf(cfg) && output_nodes_prefix(gs, n)[k].node_type == NodeType::OUTPUT,
    decreases n,
{
    if n > 0 {
        lemma_output_nodes_wf(gs, cfg, n - 1);
    }
}

/// The hidden-node scan never lists a node twice.
proof fn lemma_hidden_nodes_distinct(gs: Seq<Gene>, n: int)
    ensures
        forall|k1: int, k2: int|
            0 <= k1 < k2 < hidden_nodes_prefix(gs, n).len() ==> hidden_nodes_prefix(gs, n)[k1]
                != hidden_nodes_prefix(gs, n)[k2],
    decreases n,
{
    if n > 0 {
        lemma_hidden_nodes_distinct(gs, n - 1);
        let rest = hidden_nodes_prefix(gs, n - 1);
        let g = gs[n - 1];
        if g.active && g.source.node_type == NodeType::HIDDEN && !rest.contains(g.source) {
            assert(forall|k: int| 0 <= k < rest.len() ==> rest[k] != g.source);
        }
    }
}

/// An inactive gene contributes nothing to any prefix of the assembly
/// model, so removing it shifts the scan without changing what it collects.
proof fn lemma_model_prefix_skip(gs: Seq<Gene>, i: int, node: Node, n: int)
    requires
        0 <= i < gs.len(),
        !gs[i].active,
        0 <= n <= gs.len() - 1,
    ensures
        hidden_nodes_prefix(gs.remove(i), n) == hidden_nodes_prefix(
            gs,
            if n <= i {
                n
            } else {
                n + 1
            },
        ),
        input_nodes_prefix(gs.remove(i), n) == input_nodes_prefix(
            gs,
            if n <= i {
                n
            } else {
                n + 1
            },
        ),
        output_nodes_prefix(gs.remove(i), n) == output_nodes_prefix(
            gs,
            if n <= i {
                n
            } else {
                n + 1
            },
        ),
        incoming_prefix(gs.remove(i), node, n) == incoming_prefix(
            gs,
            node,
            if n <= i {
                n
            } else {
                n + 1
            },
        ),
    decreases n,
{
    gs.remove_ensures(i);
    let gs2 = gs.remove(i);
    if n > 0 {
        lemma_model_prefix_skip(gs, i, node, n - 1);
        if n <= i {
            assert(gs2[n - 1] == gs[n - 1]);
        } else if n - 1 == i {
            // Crossing the removed slot: the inactive gene adds nothing.
            assert(gs2[n - 1] == gs[n]);
            assert(hidden_nodes_prefix(gs, i + 1) == hidden_nodes_prefix(gs, i));
            assert(input_nodes_prefix(gs, i + 1) == input_nodes_prefix(gs, i));
            assert(output_nodes_prefix(gs, i + 1) == output_nodes_prefix(gs, i));
            assert(incoming_prefix(gs, node, i + 1) == incoming_prefix(gs, node, i));
        } else {
            assert(gs2[n - 1] == gs[n]);
        }
    }
}

/// Brain soundness, stability half: removing any single inactive gene from
/// a resolved gene sequence, then re-resolving the rest, compiles to the
/// same brain — the same input nodes, the same hidden and output neurons,
/// and the same incoming list for every node.
pub proof fn lemma_brain_unchanged_by_inactive_removal(gs: Seq<Gene>, i: int, post: Seq<Gene>)
    requires
        resolved(gs),
        genes_directed(gs),
        0 <= i < gs.len(),
        !gs[i].active,
        resolver_rel(gs.remove(i), post),
    ensures
        post == gs.remove(i),
        input_nodes(post) == input_nodes(gs),
        hidden_nodes(post) == hidden_nodes(gs),
        output_nodes(post) == output_nodes(gs),
        forall|node: Node| #[trigger] incoming(post, node) == incoming(gs, node),
{
    lemma_remove_inactive_resolved(gs, i);
    lemma_resolve_resolved_noop(gs.remove(i), post);
    gs.remove_ensures(i);
    let n2 = gs.len() - 1;
    assert forall|node: Node| #[trigger] incoming(post, node) == incoming(gs, node) by {
        lemma_model_prefix_skip(gs, i, node, n2);
        if i == n2 {
            assert(incoming_prefix(gs, node, i + 1) == incoming_prefix(gs, node, i));
        }
    }
    let ghost witness = Node { idx: 0, node_type: NodeType::INPUT };
    lemma_model_prefix_skip(gs, i, witness, n2);
    if i == n2 {
        assert(hidden_nodes_prefix(gs, i + 1) == hidden_nodes_prefix(gs, i));
        assert(input_nodes_prefix(gs, i + 1) == input_nodes_prefix(gs, i));
        assert(output_nodes_prefix(gs, i + 1) == output_nodes_prefix(gs, i));
    }
}

/// The output-node scan never lists a node twice.
proof fn lemma_output_nodes_distinct(gs: Seq<Gene>, n: int)
    ensures
        forall|k1: int, k2: int|
            0 <= k1 < k2 < output_nodes_prefix(gs, n).len() ==> output_nodes_prefix(gs, n)[k1]
                != output_nodes_prefix(gs, n)[k2],
    decreases n,
{
    if n > 0 {
        lemma_output_nodes_distinct(gs, n - 1);
        let rest = output_nodes_prefix(gs, n - 1);
        let g = gs[n - 1];
        if g.active && g.sink.node_type == NodeType::OUTPUT && !rest.contains(g.sink) {
            assert(forall|k: int| 0 <= k < rest.len() ==> rest[k] != g.sink);
        }
    }
}

} // verus!
