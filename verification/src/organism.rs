use vstd::prelude::*;

use crate::brains::{incoming, Brain};
use crate::config::Config;
use crate::genes::{chromo_mutation, Gene, Genome};
use crate::math::{clamp_i64, clamp_to_i64, div_trunc_i128, spec_tanh, tanh, tdiv, SCALE};
use crate::world::Creature;

verus! {

/// The floor every per-tick fitness report is lifted to: one ten-thousandth
/// of a unit, so no organism's fitness is ever negative or exactly zero.
pub const MIN_FITNESS: i64 = 100;

/// One simulated individual: a genome, the brain compiled from it, the
/// embedder's creature handle, and its lifecycle counters.
pub struct Organism<T: Creature> {
    pub alive: bool,
    pub age: usize,
    pub offspring: usize,
    pub max_fitness: i64,
    pub fitness: i64,
    pub genome: Genome,
    pub brain: Brain,
    pub creature: T,
}

/// The fixed-point contribution of one gene: its strength times the state
/// of its source node, rescaled, clamped into the representable range.
pub open spec fn term_spec(g: Gene, states: Seq<i64>) -> int {
    clamp_i64(tdiv(g.strength * states[g.source.idx as int], SCALE as int))
}

/// The raw summed state of a neuron: the sum of its incoming contributions,
/// clamped into the representable range.
pub open spec fn wsum(incoming: Seq<Gene>, states: Seq<i64>) -> int
    decreases incoming.len(),
{
    if incoming.len() == 0 {
        0
    } else {
        wsum(incoming.drop_last(), states) + term_spec(incoming.last(), states)
    }
}

pub open spec fn nuron_sum(incoming: Seq<Gene>, states: Seq<i64>) -> int {
    clamp_i64(wsum(incoming, states))
}

/// What one tick does to a brain: some vector of sensed values — the old
/// state overwritten at the active input indices — was propagated one
/// synchronous step.  Every hidden and output neuron holds the weighted sum
/// of that vector over its incoming genes, the squashed hidden sums are
/// written back, and every other node state carries over.
pub open spec fn tick_propagated(pre: Brain, post: Brain, sensed: Seq<i64>) -> bool {
    &&& sensed.len() == pre.node_state@.len()
    &&& forall|j: int|
        0 <= j < sensed.len() && !(exists|k: int|
            0 <= k < pre.inputs@.len() && (#[trigger] pre.inputs@[k]).idx == j) ==> sensed[j]
            == pre.node_state@[j]
    &&& post.inputs == pre.inputs
    &&& post.nurons@.len() == pre.nurons@.len()
    &&& forall|k: int|
        0 <= k < post.nurons@.len() ==> (#[trigger] post.nurons@[k]).node == pre.nurons@[k].node
            && post.nurons@[k].incoming == pre.nurons@[k].incoming && post.nurons@[k].state
            == nuron_sum(pre.nurons@[k].incoming@, sensed)
    &&& post.outputs@.len() == pre.outputs@.len()
    &&& forall|k: int|
        0 <= k < post.outputs@.len() ==> (#[trigger] post.outputs@[k]).node == pre.outputs@[k].node
            && post.outputs@[k].incoming == pre.outputs@[k].incoming && post.outputs@[k].state
            == nuron_sum(pre.outputs@[k].incoming@, sensed)
    &&& post.node_state@.len() == sensed.len()
    &&& forall|k: int|
        0 <= k < post.nurons@.len() ==> post.node_state@[(#[trigger] post.nurons@[k]).node.idx
            as int] == spec_tanh(nuron_sum(pre.nurons@[k].incoming@, sensed))
    &&& forall|j: int|
        0 <= j < post.node_state@.len() && !(exists|k: int|
            0 <= k < post.nurons@.len() && (#[trigger] post.nurons@[k]).node.idx == j)
            ==> post.node_state@[j] == sensed[j]
}

/// Sums `strength × node_state[source]` over a neuron's incoming genes.
fn weighted_sum(genes: &Vec<Gene>, states: &Vec<i64>) -> (r: i64)
    requires
        forall|j: int|
            0 <= j < genes@.len() ==> (#[trigger] genes@[j]).source.idx < states@.len(),
    ensures
        r == nuron_sum(genes@, states@),
{
    let glen = genes.len();
    let mut acc: i128 = 0;
    let mut k: usize = 0;
    while k < glen
        invariant
            k <= glen,
            glen == genes@.len(),
            forall|j: int|
                0 <= j < genes@.len() ==> (#[trigger] genes@[j]).source.idx < states@.len(),
            acc == wsum(genes@.subrange(0, k as int), states@),
            -(k as int) * 0x8000_0000_0000_0000 <= acc <= (k as int) * 0x8000_0000_0000_0000,
        decreases glen - k,
    {
        let g = genes[k];
        proof {
            assert(i128::MIN < -0x4000_0000_0000_0000_0000_0000_0000_0000
                <= (g.strength as int) * (states@[g.source.idx as int] as int)
                <= 0x4000_0000_0000_0000_0000_0000_0000_0000 < i128::MAX) by (nonlinear_arith)
                requires
                    i64::MIN <= g.strength <= i64::MAX,
                    i64::MIN <= states@[g.source.idx as int] <= i64::MAX,
            ;
        }
        let p: i128 = (g.strength as i128) * (states[g.source.idx] as i128);
        let t128: i128 = div_trunc_i128(p, SCALE as i128);
        let t: i64 = clamp_to_i64(t128);
        proof {
            assert(t == term_spec(g, states@));
            assert((k + 1int) * 0x8000_0000_0000_0000 == (k as int) * 0x8000_0000_0000_0000
                + 0x8000_0000_0000_0000) by (nonlinear_arith);
            assert(genes@.subrange(0, k + 1int).drop_last() =~= genes@.subrange(0, k as int));
            assert(genes@.subrange(0, k + 1int).last() == genes@[k as int]);
        }
        acc = acc + (t as i128);
        k = k + 1;
    }
    proof {
        assert(genes@.subrange(0, glen as int) =~= genes@);
    }
    clamp_to_i64(acc)
}

impl<T: Creature<CCT = T>> Organism<T> {
    /// The genome is resolved, the brain is well-formed and is exactly the
    /// compilation of the genome's pooled active genes.
    pub open spec fn wf(self, cfg: Config) -> bool {
        &&& self.genome.wf(cfg)
        &&& self.brain.wf(cfg)
        &&& self.brain.models(self.genome.genes@)
    }

    /// A fresh organism around a newly grown genome.
    pub fn new(cfg: &Config, env: &mut T::Env) -> (r: Self)
        requires
            cfg.wf(),
        ensures
            r.wf(*cfg),
            r.alive,
            r.age == 0,
            r.offspring == 0,
            r.fitness == 0,
            r.max_fitness == 0,
            r.genome.chromos@.len() == cfg.genome_size,
            forall|c: int|
                0 <= c < r.genome.chromos@.len() ==> (#[trigger] r.genome.chromos@[c]).complete_spec(
                    *cfg,
                ),
    {
        let genome = Genome::new(cfg);
        Organism::from_genome(cfg, genome, env, Vec::new())
    }

    /// Wraps a genome: compiles its brain, builds the creature from the
    /// given parent handles, and zeroes the lifecycle counters.
    pub fn from_genome(cfg: &Config, genome: Genome, env: &mut T::Env, parents: Vec<&T::CCT>) -> (r:
        Self)
        requires
            cfg.wf(),
            genome.wf(*cfg),
        ensures
            r.wf(*cfg),
            r.genome == genome,
            r.alive,
            r.age == 0,
            r.offspring == 0,
            r.fitness == 0,
            r.max_fitness == 0,
    {
        Self {
            brain: Brain::new(cfg, &genome),
            genome,
            creature: T::new(env, parents),
            alive: true,
            age: 0,
            offspring: 0,
            fitness: 0,
            max_fitness: 0,
        }
    }

    /// Asexual reproduction: a new organism around the budded (mutated)
    /// genome, with this organism's creature as the lone parent handle.
    pub fn bud(&self, cfg: &Config, env: &mut T::Env) -> (r: Self)
        requires
            cfg.wf(),
            self.wf(*cfg),
        ensures
            r.wf(*cfg),
            r.alive,
            r.age == 0,
            r.offspring == 0,
            r.fitness == 0,
            r.max_fitness == 0,
            r.genome.chromos@.len() == self.genome.chromos@.len(),
            forall|c: int|
                0 <= c < r.genome.chromos@.len() ==> chromo_mutation(
                    *cfg,
                    self.genome.chromos@[c],
                    #[trigger] r.genome.chromos@[c],
                ),
    {
        let mut parents: Vec<&T::CCT> = Vec::new();
        parents.push(&self.creature);
        Self::from_genome(cfg, self.genome.bud(cfg), env, parents)
    }

    /// One full tick: pull sensed input values, propagate one synchronous
    /// step through the network, push raw output states, then act and age.
    pub fn take_step(&mut self, cfg: &Config, env: &mut T::Env)
        requires
            cfg.wf(),
            old(self).wf(*cfg),
            old(self).alive,
        ensures
            final(self).wf(*cfg),
            final(self).genome == old(self).genome,
            final(self).offspring == old(self).offspring,
            final(self).fitness >= MIN_FITNESS,
            final(self).max_fitness == (if final(self).fitness > old(self).max_fitness {
                final(self).fitness
            } else {
                old(self).max_fitness
            }),
            old(self).age < usize::MAX ==> final(self).age == old(self).age + 1,
            old(self).age == usize::MAX ==> final(self).age == usize::MAX,
            final(self).alive ==> old(self).alive,
            exists|sensed: Seq<i64>|
                #[trigger] tick_propagated(old(self).brain, final(self).brain, sensed),
    {
        self.get_inputs(cfg, env);
        let ghost sensed = self.brain.node_state@;
        self.process_inputs(cfg);
        proof {
            assert(tick_propagated(old(self).brain, self.brain, sensed));
        }
        self.set_outputs(cfg, env);
        self.take_action(cfg, env);
    }

    /// Acts through the creature, floors the reported fitness, folds it into
    /// the running maximum, and ages one tick (which may bring death).
    pub fn take_action(&mut self, cfg: &Config, env: &mut T::Env)
        requires
            cfg.wf(),
            old(self).wf(*cfg),
        ensures
            final(self).wf(*cfg),
            final(self).genome == old(self).genome,
            final(self).brain == old(self).brain,
            final(self).offspring == old(self).offspring,
            final(self).fitness >= MIN_FITNESS,
            final(self).max_fitness == (if final(self).fitness > old(self).max_fitness {
                final(self).fitness
            } else {
                old(self).max_fitness
            }),
            old(self).age < usize::MAX ==> final(self).age == old(self).age + 1,
            old(self).age == usize::MAX ==> final(self).age == usize::MAX,
            final(self).alive ==> old(self).alive,
    {
        let f = self.creature.act(env);
        self.fitness = if f < MIN_FITNESS {
            MIN_FITNESS
        } else {
            f
        };
        self.max_fitness = if self.fitness > self.max_fitness {
            self.fitness
        } else {
            self.max_fitness
        };
        self.grow_older(cfg, 1, env);
    }

    /// Ages by the given number of ticks (saturating at the counter's top)
    /// and asks the creature whether the organism should now die.
    fn grow_older(&mut self, cfg: &Config, steps: usize, env: &mut T::Env)
        requires
            old(self).wf(*cfg),
        ensures
            final(self).wf(*cfg),
            final(self).genome == old(self).genome,
            final(self).brain == old(self).brain,
            final(self).offspring == old(self).offspring,
            final(self).fitness == old(self).fitness,
            final(self).max_fitness == old(self).max_fitness,
            old(self).age + steps <= usize::MAX ==> final(self).age == old(self).age + steps,
            old(self).age + steps > usize::MAX ==> final(self).age == usize::MAX,
            final(self).alive ==> old(self).alive,
    {
        self.age = if self.age <= usize::MAX - steps {
            self.age + steps
        } else {
            usize::MAX
        };
        if self.creature.die(self.age, self.fitness, env, cfg.lifespan) {
            self.alive = false;
        }
    }

    /// Output phase: hands each output neuron's raw summed state to the
    /// creature under the output channel's name.  Raw values are not
    /// squashed.
    pub fn set_outputs(&mut self, cfg: &Config, env: &T::Env)
        requires
            cfg.wf(),
            old(self).wf(*cfg),
        ensures
            final(self).wf(*cfg),
            final(self).genome == old(self).genome,
            final(self).brain == old(self).brain,
            final(self).alive == old(self).alive,
            final(self).age == old(self).age,
            final(self).offspring == old(self).offspring,
            final(self).fitness == old(self).fitness,
            final(self).max_fitness == old(self).max_fitness,
    {
        let olen = self.brain.outputs.len();
        let mut k: usize = 0;
        while k < olen
            invariant
                cfg.wf(),
                self.wf(*cfg),
                olen == self.brain.outputs@.len(),
                self.genome == old(self).genome,
                self.brain == old(self).brain,
                self.alive == old(self).alive,
                self.age == old(self).age,
                self.offspring == old(self).offspring,
                self.fitness == old(self).fitness,
                self.max_fitness == old(self).max_fitness,
            decreases olen - k,
        {
            let name = self.brain.outputs[k].node.get_name(cfg);
            let value = self.brain.outputs[k].state;
            self.creature.tx_output(name.as_str(), value, env);
            k = k + 1;
        }
    }

    /// Input phase: queries the creature for each active input node's
    /// sensed value, by the node's symbolic name, and writes it into the
    /// dense state vector.  Other node states are untouched.
    pub fn get_inputs(&mut self, cfg: &Config, env: &T::Env)
        requires
            cfg.wf(),
            old(self).wf(*cfg),
        ensures
            final(self).wf(*cfg),
            final(self).genome == old(self).genome,
            final(self).brain.inputs == old(self).brain.inputs,
            final(self).brain.nurons == old(self).brain.nurons,
            final(self).brain.outputs == old(self).brain.outputs,
            final(self).brain.node_state@.len() == old(self).brain.node_state@.len(),
            forall|j: int|
                0 <= j < final(self).brain.node_state@.len() && !(exists|k: int|
                    0 <= k < final(self).brain.inputs@.len() && (#[trigger] final(self).brain.inputs@[k]).idx == j) ==> final(self).brain.node_state@[j] == old(self).brain.node_state@[j],
            final(self).creature == old(self).creature,
            final(self).alive == old(self).alive,
            final(self).age == old(self).age,
            final(self).offspring == old(self).offspring,
            final(self).fitness == old(self).fitness,
            final(self).max_fitness == old(self).max_fitness,
    {
        let ilen = self.brain.inputs.len();
        let mut k: usize = 0;
        while k < ilen
            invariant
                cfg.wf(),
                self.wf(*cfg),
                ilen == self.brain.inputs@.len(),
                self.genome == old(self).genome,
                self.brain.inputs == old(self).brain.inputs,
                self.brain.nurons == old(self).brain.nurons,
                self.brain.outputs == old(self).brain.outputs,
                self.brain.node_state@.len() == old(self).brain.node_state@.len(),
                forall|j: int|
                    0 <= j < self.brain.node_state@.len() && !(exists|kk: int|
                        0 <= kk < self.brain.inputs@.len() && (#[trigger] self.brain.inputs@[kk]).idx
                            == j) ==> self.brain.node_state@[j] == old(self).brain.node_state@[j],
                self.creature == old(self).creature,
                self.alive == old(self).alive,
                self.age == old(self).age,
                self.offspring == old(self).offspring,
                self.fitness == old(self).fitness,
                self.max_fitness == old(self).max_fitness,
            decreases ilen - k,
        {
            let node = self.brain.inputs[k];
            let name = node.get_name(cfg);
            let value = self.creature.rx_input(name.as_str(), env);
            self.brain.node_state[node.idx] = value;
            k = k + 1;
        }
    }

    /// Propagation phase: one synchronous pass.  Every hidden and output
    /// neuron sums `strength × node_state[source]` over its incoming genes
    /// against the pre-phase state vector; then each hidden neuron's squashed
    /// sum is written back into the state vector.  Output sums stay raw and
    /// are not written back.
    pub fn process_inputs(&mut self, cfg: &Config)
        requires
            cfg.wf(),
            old(self).wf(*cfg),
        ensures
            final(self).wf(*cfg),
            final(self).genome == old(self).genome,
            final(self).brain.inputs == old(self).brain.inputs,
            final(self).brain.nurons@.len() == old(self).brain.nurons@.len(),
            final(self).brain.outputs@.len() == old(self).brain.outputs@.len(),
            forall|k: int|
                0 <= k < final(self).brain.nurons@.len() ==> (#[trigger] final(self).brain.nurons@[k]).node == old(self).brain.nurons@[k].node && final(self).brain.nurons@[k].incoming == old(self).brain.nurons@[k].incoming && final(self).brain.nurons@[k].state == nuron_sum(
                    old(self).brain.nurons@[k].incoming@,
                    old(self).brain.node_state@,
                ),
            forall|k: int|
                0 <= k < final(self).brain.outputs@.len() ==> (#[trigger] final(self).brain.outputs@[k]).node == old(self).brain.outputs@[k].node && final(self).brain.outputs@[k].incoming == old(self).brain.outputs@[k].incoming && final(self).brain.outputs@[k].state == nuron_sum(
                    old(self).brain.outputs@[k].incoming@,
                    old(self).brain.node_state@,
                ),
            final(self).brain.node_state@.len() == old(self).brain.node_state@.len(),
            forall|k: int|
                0 <= k < final(self).brain.nurons@.len() ==> final(self).brain.node_state@[(
                #[trigger] final(self).brain.nurons@[k]).node.idx as int] == spec_tanh(
                    nuron_sum(
                        old(self).brain.nurons@[k].incoming@,
                        old(self).brain.node_state@,
                    ),
                ),
            forall|j: int|
                0 <= j < final(self).brain.node_state@.len() && !(exists|k: int|
                    0 <= k < final(self).brain.nurons@.len() && (#[trigger] final(self).brain.nurons@[k]).node.idx == j) ==> final(self).brain.node_state@[j] == old(self).brain.node_state@[j],
            final(self).creature == old(self).creature,
            final(self).alive == old(self).alive,
            final(self).age == old(self).age,
            final(self).offspring == old(self).offspring,
            final(self).fitness == old(self).fitness,
            final(self).max_fitness == old(self).max_fitness,
    {
        let ghost states0 = self.brain.node_state@;

        // Sum every hidden neuron against the pre-phase state vector.
        let nlen = self.brain.nurons.len();
        let mut k: usize = 0;
        while k < nlen
            invariant
                cfg.wf(),
                self.genome.wf(*cfg),
                self.brain.wf(*cfg),
                self.genome == old(self).genome,
                self.brain.node_state@ == states0,
                states0 == old(self).brain.node_state@,
                self.brain.inputs == old(self).brain.inputs,
                self.brain.outputs == old(self).brain.outputs,
                nlen == self.brain.nurons@.len() == old(self).brain.nurons@.len(),
                k <= nlen,
                forall|i: int|
                    0 <= i < nlen ==> (#[trigger] self.brain.nurons@[i]).node == old(self).brain.nurons@[i].node && self.brain.nurons@[i].incoming == old(self).brain.nurons@[i].incoming,
                forall|i: int|
                    0 <= i < k ==> (#[trigger] self.brain.nurons@[i]).state == nuron_sum(
                        old(self).brain.nurons@[i].incoming@,
                        states0,
                    ),
                forall|i: int|
                    k <= i < nlen ==> (#[trigger] self.brain.nurons@[i]).state == old(self).brain.nurons@[i].state,
                self.brain.models(self.genome.genes@),
                self.creature == old(self).creature,
                self.alive == old(self).alive,
                self.age == old(self).age,
                self.offspring == old(self).offspring,
                self.fitness == old(self).fitness,
                self.max_fitness == old(self).max_fitness,
            decreases nlen - k,
        {
            let s = weighted_sum(&self.brain.nurons[k].incoming, &self.brain.node_state);
            self.brain.nurons[k].state = s;
            k = k + 1;
        }

        // Sum every output neuron the same way.
        let olen = self.brain.outputs.len();
        let mut k: usize = 0;
        while k < olen
            invariant
                cfg.wf(),
                self.genome.wf(*cfg),
                self.brain.wf(*cfg),
                self.genome == old(self).genome,
                self.brain.node_state@ == states0,
                states0 == old(self).brain.node_state@,
                self.brain.inputs == old(self).brain.inputs,
                olen == self.brain.outputs@.len() == old(self).brain.outputs@.len(),
                k <= olen,
                self.brain.nurons@.len() == old(self).brain.nurons@.len(),
                forall|i: int|
                    0 <= i < self.brain.nurons@.len() ==> (#[trigger] self.brain.nurons@[i]).node
                        == old(self).brain.nurons@[i].node && self.brain.nurons@[i].incoming == old(self).brain.nurons@[i].incoming && self.brain.nurons@[i].state == nuron_sum(
                        old(self).brain.nurons@[i].incoming@,
                        states0,
                    ),
                forall|i: int|
                    0 <= i < olen ==> (#[trigger] self.brain.outputs@[i]).node == old(self).brain.outputs@[i].node && self.brain.outputs@[i].incoming == old(self).brain.outputs@[i].incoming,
                forall|i: int|
                    0 <= i < k ==> (#[trigger] self.brain.outputs@[i]).state == nuron_sum(
                        old(self).brain.outputs@[i].incoming@,
                        states0,
                    ),
                self.brain.models(self.genome.genes@),
                self.creature == old(self).creature,
                self.alive == old(self).alive,
                self.age == old(self).age,
                self.offspring == old(self).offspring,
                self.fitness == old(self).fitness,
                self.max_fitness == old(self).max_fitness,
            decreases olen - k,
        {
            let s = weighted_sum(&self.brain.outputs[k].incoming, &self.brain.node_state);
            self.brain.outputs[k].state = s;
            k = k + 1;
        }

        // Write the squashed hidden states back into the state vector.
        let nlen = self.brain.nurons.len();
        let mut k: usize = 0;
        while k < nlen
            invariant
                cfg.wf(),
                self.genome.wf(*cfg),
                self.brain.wf(*cfg),
                self.genome == old(self).genome,
                states0 == old(self).brain.node_state@,
                self.brain.inputs == old(self).brain.inputs,
                nlen == self.brain.nurons@.len() == old(self).brain.nurons@.len(),
                k <= nlen,
                self.brain.outputs@.len() == old(self).brain.outputs@.len(),
                forall|i: int|
                    0 <= i < self.brain.nurons@.len() ==> (#[trigger] self.brain.nurons@[i]).node
                        == old(self).brain.nurons@[i].node && self.brain.nurons@[i].incoming == old(self).brain.nurons@[i].incoming && self.brain.nurons@[i].state == nuron_sum(
                        old(self).brain.nurons@[i].incoming@,
                        states0,
                    ),
                forall|i: int|
                    0 <= i < self.brain.outputs@.len() ==> (#[trigger] self.brain.outputs@[i]).node
                        == old(self).brain.outputs@[i].node && self.brain.outputs@[i].incoming
                        == old(self).brain.outputs@[i].incoming && self.brain.outputs@[i].state
                        == nuron_sum(old(self).brain.outputs@[i].incoming@, states0),
                self.brain.node_state@.len() == states0.len(),
                forall|i: int|
                    0 <= i < k ==> self.brain.node_state@[(
                    #[trigger] self.brain.nurons@[i]).node.idx as int] == spec_tanh(
                        nuron_sum(old(self).brain.nurons@[i].incoming@, states0),
                    ),
                forall|j: int|
                    0 <= j < self.brain.node_state@.len() && !(exists|i: int|
                        0 <= i < k && (#[trigger] self.brain.nurons@[i]).node.idx == j)
                        ==> self.brain.node_state@[j] == states0[j],
                self.brain.models(self.genome.genes@),
                self.creature == old(self).creature,
                self.alive == old(self).alive,
                self.age == old(self).age,
                self.offspring == old(self).offspring,
                self.fitness == old(self).fitness,
                self.max_fitness == old(self).max_fitness,
            decreases nlen - k,
        {
            let idx = self.brain.nurons[k].node.idx;
            let squashed = tanh(self.brain.nurons[k].state);
            self.brain.node_state[idx] = squashed;
            k = k + 1;
        }
    }
}

} // verus!
