use vstd::prelude::*;

use crate::config::Config;
use crate::math::abs_u64;
use crate::organism::Organism;
use crate::rng::random_below;
use crate::text::{fixed2, fixed2_i64, fixed2_signed, fixed2_u64};

verus! {

/// The embedder-supplied shared world.  It is passed mutably into every
/// creature hook so creatures can interact through it.
pub trait Environs: Sized {
    type Creature;

    fn new() -> Self;
}

/// The embedder-supplied capability set of one simulated individual.  All
/// scalars are fixed-point numbers with [`crate::math::SCALE`] steps to the
/// unit.
pub trait Creature: Sized {
    /// The environment type the creature lives in.
    type Env;

    /// The concrete creature type handed around as parent handles.
    type CCT;

    /// Builds a creature, given zero or more parent handles for trait
    /// inheritance.
    fn new(env: &mut Self::Env, parents: Vec<&Self::CCT>) -> Self;

    /// The sensed value for the named input channel.
    fn rx_input(&self, input: &str, env: &Self::Env) -> i64;

    /// Receives the raw state of the named output channel.
    fn tx_output(&mut self, output: &str, value: i64, env: &Self::Env);

    /// Performs the per-tick domain action and reports this tick's fitness.
    fn act(&mut self, env: &mut Self::Env) -> i64;

    /// Whether the organism should die.  The default rule retires it once
    /// its age strictly exceeds the configured lifespan; the fitness and the
    /// environment are there for overriding impls.
    fn die(&self, age: usize, _fitness: i64, _env: &mut Self::Env, lifespan: usize) -> (r: bool)
        default_ensures
            r == (age > lifespan),
    {
        age > lifespan
    }
}

/// The floor applied to the roulette wheel's total, one thousandth of a
/// unit, so a draw is possible even when every fitness is zero.
pub const SUM_FITNESS_FLOOR: u64 = 1000;

pub open spec fn abs_i64(x: i64) -> int {
    if x >= 0 {
        x as int
    } else {
        -(x as int)
    }
}

/// Total of all offspring counters.
pub open spec fn sum_offspring<T: Creature>(orgs: Seq<Organism<T>>) -> int
    decreases orgs.len(),
{
    if orgs.len() == 0 {
        0
    } else {
        sum_offspring(orgs.drop_last()) + orgs.last().offspring
    }
}

/// Total of |max_fitness| over the living organisms.
pub open spec fn sum_abs_fitness<T: Creature>(orgs: Seq<Organism<T>>) -> int
    decreases orgs.len(),
{
    if orgs.len() == 0 {
        0
    } else {
        sum_abs_fitness(orgs.drop_last()) + (if orgs.last().alive {
            abs_i64(orgs.last().max_fitness)
        } else {
            0
        })
    }
}

/// The roulette total over the first `n` slots.
pub open spec fn fitness_prefix<T: Creature>(orgs: Seq<Organism<T>>, n: int) -> int {
    sum_abs_fitness(orgs.subrange(0, n))
}

/// Number of living organisms.
pub open spec fn alive_count<T: Creature>(orgs: Seq<Organism<T>>) -> int
    decreases orgs.len(),
{
    if orgs.len() == 0 {
        0
    } else {
        alive_count(orgs.drop_last()) + (if orgs.last().alive {
            1int
        } else {
            0int
        })
    }
}

/// Greatest max_fitness among the living organisms, floored at zero.
pub open spec fn max_alive_fitness<T: Creature>(orgs: Seq<Organism<T>>) -> int
    decreases orgs.len(),
{
    if orgs.len() == 0 {
        0
    } else {
        let m = max_alive_fitness(orgs.drop_last());
        if orgs.last().alive && orgs.last().max_fitness > m {
            orgs.last().max_fitness as int
        } else {
            m
        }
    }
}

proof fn lemma_sum_offspring_nonneg<T: Creature>(orgs: Seq<Organism<T>>)
    ensures
        sum_offspring(orgs) >= 0,
    decreases orgs.len(),
{
    if orgs.len() > 0 {
        lemma_sum_offspring_nonneg(orgs.drop_last());
    }
}

proof fn lemma_sum_offspring_update<T: Creature>(orgs: Seq<Organism<T>>, i: int, o: Organism<T>)
    requires
        0 <= i < orgs.len(),
    ensures
        sum_offspring(orgs.update(i, o)) == sum_offspring(orgs) - orgs[i].offspring + o.offspring,
    decreases orgs.len(),
{
    let t = orgs.update(i, o);
    if i == orgs.len() - 1 {
        assert(t.drop_last() =~= orgs.drop_last());
    } else {
        assert(t.drop_last() =~= orgs.drop_last().update(i, o));
        lemma_sum_offspring_update(orgs.drop_last(), i, o);
        assert(t.last() == orgs.last());
    }
}

proof fn lemma_sum_offspring_push<T: Creature>(orgs: Seq<Organism<T>>, o: Organism<T>)
    ensures
        sum_offspring(orgs.push(o)) == sum_offspring(orgs) + o.offspring,
{
    assert(orgs.push(o).drop_last() =~= orgs);
}

proof fn lemma_sum_offspring_elem<T: Creature>(orgs: Seq<Organism<T>>, i: int)
    requires
        0 <= i < orgs.len(),
    ensures
        orgs[i].offspring <= sum_offspring(orgs),
    decreases orgs.len(),
{
    lemma_sum_offspring_nonneg(orgs.drop_last());
    if i < orgs.len() - 1 {
        lemma_sum_offspring_elem(orgs.drop_last(), i);
    }
}

/// How many of the first `n` slots came back to life: dead in `pre`,
/// alive in `post`.
pub open spec fn count_revived<T: Creature>(
    pre: Seq<Organism<T>>,
    post: Seq<Organism<T>>,
    n: int,
) -> int
    decreases n,
{
    if n <= 0 {
        0
    } else {
        count_revived(pre, post, n - 1) + (if !pre[n - 1].alive && post[n - 1].alive {
            1int
        } else {
            0int
        })
    }
}

/// Organisms born by one reproduction round: the appended slots plus the
/// dead slots that were brought back to life.
pub open spec fn newborn_count<T: Creature>(
    pre: Seq<Organism<T>>,
    post: Seq<Organism<T>>,
) -> int {
    post.len() - pre.len() + count_revived(pre, post, pre.len() as int)
}

proof fn lemma_count_revived_same<T: Creature>(
    pre: Seq<Organism<T>>,
    post: Seq<Organism<T>>,
    n: int,
)
    requires
        n <= pre.len(),
        n <= post.len(),
        forall|j: int| 0 <= j < n ==> (#[trigger] post[j]).alive == pre[j].alive,
    ensures
        count_revived(pre, post, n) == 0,
    decreases n,
{
    if n > 0 {
        lemma_count_revived_same(pre, post, n - 1);
    }
}

/// Updating one slot moves the count by that slot's contribution alone.
proof fn lemma_count_revived_update<T: Creature>(
    pre: Seq<Organism<T>>,
    post: Seq<Organism<T>>,
    n: int,
    i: int,
    o: Organism<T>,
)
    requires
        0 <= i < post.len(),
        n <= post.len(),
    ensures
        count_revived(pre, post.update(i, o), n) == count_revived(pre, post, n) + (if i < n {
            (if !pre[i].alive && o.alive {
                1int
            } else {
                0int
            }) - (if !pre[i].alive && post[i].alive {
                1int
            } else {
                0int
            })
        } else {
            0int
        }),
    decreases n,
{
    if n > 0 {
        lemma_count_revived_update(pre, post, n - 1, i, o);
    }
}

/// The count reads only the first `n` slots, so appending changes nothing.
proof fn lemma_count_revived_push<T: Creature>(
    pre: Seq<Organism<T>>,
    post: Seq<Organism<T>>,
    n: int,
    o: Organism<T>,
)
    requires
        n <= post.len(),
    ensures
        count_revived(pre, post.push(o), n) == count_revived(pre, post, n),
    decreases n,
{
    if n > 0 {
        lemma_count_revived_push(pre, post, n - 1, o);
    }
}

/// The offspring count a reproduction round aims for: the depleted share
/// of the population over the elapsed ticks, plus possibly one bonus child
/// for the fractional remainder, capped at the population size.
pub open spec fn offspring_target(cfg: Config, steps: int, bonus: bool) -> int {
    let base = (steps * cfg.population) / cfg.lifespan as int + (if bonus {
        1int
    } else {
        0int
    });
    if base < cfg.population {
        base
    } else {
        cfg.population as int
    }
}

/// What one tick does to a living organism: it keeps its genome and its
/// offspring counter, its fitness is floored, its running maximum absorbs
/// the new fitness, and it ages one tick (saturating at the counter's top).
pub open spec fn stepped<T: Creature>(pre: Organism<T>, post: Organism<T>) -> bool {
    &&& post.genome == pre.genome
    &&& post.offspring == pre.offspring
    &&& post.alive ==> pre.alive
    &&& post.fitness >= crate::organism::MIN_FITNESS
    &&& post.max_fitness == (if post.fitness > pre.max_fitness {
        post.fitness
    } else {
        pre.max_fitness
    })
    &&& pre.age < usize::MAX ==> post.age == pre.age + 1
    &&& pre.age == usize::MAX ==> post.age == usize::MAX
}

/// A slot a newborn may reclaim: it holds a dead organism and is not
/// queued for reproduction.
pub open spec fn free_slot<T: Creature>(orgs: Seq<Organism<T>>, fertile: Seq<usize>, i: int) -> bool {
    0 <= i < orgs.len() && !orgs[i].alive && !fertile.contains(i as usize)
}

/// A just-born organism: alive at age zero, all counters cleared.
pub open spec fn newborn<T: Creature>(o: Organism<T>) -> bool {
    o.alive && o.age == 0 && o.offspring == 0 && o.fitness == 0 && o.max_fitness == 0
}

/// The same organism, at most credited: every field is kept except the
/// offspring counter, which may have risen.
pub open spec fn credited<T: Creature>(pre: Organism<T>, post: Organism<T>) -> bool {
    post == Organism { offspring: post.offspring, ..pre } && post.offspring >= pre.offspring
}

/// Aging by `t` ticks, saturating at the counter's top.
pub open spec fn aged_by(pre: int, post: int, t: int) -> bool {
    if pre + t <= usize::MAX {
        post == pre + t
    } else {
        post == usize::MAX
    }
}

/// A slot's fate over a run that delivered `t` ticks: its living organism
/// survived in place, aging through every tick with its genome kept and its
/// running maximum never falling; or it died and the slot stayed dead; or
/// the slot was reclaimed by an organism born during the run, which is
/// strictly younger than the run is long.
pub open spec fn slot_fate<T: Creature>(pre: Organism<T>, post: Organism<T>, t: int) -> bool {
    ||| (pre.alive && post.alive && post.genome == pre.genome && post.max_fitness
        >= pre.max_fitness && aged_by(pre.age as int, post.age as int, t))
    ||| !post.alive
    ||| post.age < t
}

/// The composition of `t` consecutive ticks of one organism: genome and
/// offspring kept, the running maximum never falling, aged by `t`
/// (saturating), never resurrected, and the fitness floored once any tick
/// ran; zero ticks change nothing.
pub open spec fn ticked<T: Creature>(pre: Organism<T>, post: Organism<T>, t: int) -> bool {
    &&& post.genome == pre.genome
    &&& post.offspring == pre.offspring
    &&& post.max_fitness >= pre.max_fitness
    &&& aged_by(pre.age as int, post.age as int, t)
    &&& post.alive ==> pre.alive
    &&& t >= 1 ==> post.fitness >= crate::organism::MIN_FITNESS
    &&& t == 0 ==> post == pre
}

/// The result of advancing one organism alone through a batch of up to
/// `steps` consecutive ticks, breaking early on death: some prefix of the
/// batch was delivered, and only death cuts it short.
pub open spec fn batch_ticked<T: Creature>(pre: Organism<T>, post: Organism<T>, steps: int) -> bool {
    exists|t: int|
        0 <= t <= steps && (t == steps || !post.alive) && #[trigger] ticked(pre, post, t)
}

/// Fates compose across consecutive runs.
proof fn lemma_slot_fate_compose<T: Creature>(
    a: Organism<T>,
    b: Organism<T>,
    c: Organism<T>,
    t1: int,
    t2: int,
)
    requires
        t1 >= 0,
        t2 >= 0,
        slot_fate(a, b, t1),
        slot_fate(b, c, t2),
    ensures
        slot_fate(a, c, t1 + t2),
{
}

/// One synchronized round — a tick for the living, then a reproduction
/// round — hands every pre-existing slot a one-tick fate.
proof fn lemma_round_fate<T: Creature>(pre: Organism<T>, mid: Organism<T>, post: Organism<T>)
    requires
        pre.alive ==> stepped(pre, mid),
        !pre.alive ==> mid == pre,
        credited(mid, post) || (!mid.alive && newborn(post)),
    ensures
        slot_fate(pre, post, 1),
{
}

/// The roulette wheel's total: the summed |max_fitness| of the living
/// organisms, saturated into a `u64` and floored at a small positive value.
pub open spec fn roulette_total<T: Creature>(orgs: Seq<Organism<T>>) -> int {
    let s = sum_abs_fitness(orgs);
    let c = if s > u64::MAX {
        u64::MAX as int
    } else {
        s
    };
    if c < SUM_FITNESS_FLOOR {
        SUM_FITNESS_FLOOR as int
    } else {
        c
    }
}

/// The fitness summary line: the roulette total, the average per living
/// organism (infinite when nobody lives), and the greatest max_fitness,
/// each with two decimal places.
pub open spec fn stats_rendering<T: Creature>(orgs: Seq<Organism<T>>) -> Seq<char> {
    let sum = roulette_total(orgs);
    let cnt = alive_count(orgs);
    let avg: Seq<char> = if cnt > 0 {
        fixed2(sum / cnt)
    } else {
        "inf"@
    };
    "Fitness( sum: "@ + fixed2(sum) + ", avg: "@ + avg + ", max: "@ + fixed2_signed(
        max_alive_fitness(orgs),
    ) + " )"@
}

/// The population: an ordered, slot-addressable collection of organisms,
/// the shared environment, the queue of parents owed an offspring, the
/// run's configuration, and a saturating count of all births ever issued.
pub struct World<E: Environs, T: Creature> {
    pub organisms: Vec<Organism<T>>,
    pub environs: E,
    pub fertile: Vec<usize>,
    pub config: Config,
    pub births: usize,
}

impl<E: Environs<Creature = T>, T: Creature<Env = E, CCT = T>> World<E, T> {
    /// The configuration is sound, every organism is well-formed, every
    /// queued parent index is in range, and reproduction conservation
    /// holds: the offspring counters never total more than the births the
    /// population has issued.
    pub open spec fn slots_wf(self) -> bool {
        &&& self.config.wf()
        &&& forall|i: int|
            0 <= i < self.organisms@.len() ==> (#[trigger] self.organisms@[i]).wf(self.config)
        &&& sum_offspring(self.organisms@) <= self.births
        &&& forall|i: int|
            0 <= i < self.fertile@.len() ==> (#[trigger] self.fertile@[i]) < self.organisms@.len()
    }

    /// Between reproduction rounds the parent queue is fully drained; this
    /// is the invariant every public method keeps.
    pub open spec fn wf(self) -> bool {
        &&& self.slots_wf()
        &&& self.fertile@.len() == 0
    }

    /// Builds the world: a fresh environment and `population` organisms.
    pub fn new(config: Config) -> (r: Self)
        requires
            config.wf(),
        ensures
            r.wf(),
            r.config == config,
            r.births == 0,
            r.organisms@.len() == config.population,
            r.fertile@.len() == 0,
            forall|i: int| 0 <= i < r.organisms@.len() ==> newborn(#[trigger] r.organisms@[i]),
            forall|i: int|
                0 <= i < r.organisms@.len() ==> (#[trigger] r.organisms@[i]).genome.chromos@.len()
                    == config.genome_size,
            forall|i: int, c: int|
                0 <= i < r.organisms@.len() && 0 <= c < config.genome_size ==> (#[trigger] r
                    .organisms@[i].genome.chromos@[c]).complete_spec(config),
    {
        let mut env = E::new();
        let mut organisms: Vec<Organism<T>> = Vec::new();
        let mut i: usize = 0;
        while i < config.population
            invariant
                config.wf(),
                i <= config.population,
                organisms@.len() == i,
                sum_offspring(organisms@) == 0,
                forall|j: int|
                    0 <= j < i ==> (#[trigger] organisms@[j]).wf(config) && newborn(organisms@[j])
                        && organisms@[j].genome.chromos@.len() == config.genome_size,
                forall|j: int, c: int|
                    0 <= j < i && 0 <= c < config.genome_size ==> (#[trigger] organisms@[j].genome
                        .chromos@[c]).complete_spec(config),
            decreases config.population - i,
        {
            let org = Organism::new(&config, &mut env);
            proof {
                lemma_sum_offspring_push(organisms@, org);
            }
            organisms.push(org);
            i = i + 1;
        }
        World { organisms, environs: env, fertile: Vec::new(), config, births: 0 }
    }

    /// The average lifetime of an organism, in ticks.
    fn avg_life(&self) -> (r: usize)
        ensures
            r == self.config.lifespan,
    {
        self.config.lifespan
    }

    /// The main loop unit: advances the world one average lifetime.
    pub fn live(&mut self)
        requires
            old(self).wf(),
        ensures
            final(self).wf(),
            final(self).config == old(self).config,
            final(self).organisms@.len() >= old(self).organisms@.len(),
            final(self).births >= old(self).births,
            forall|i: int|
                0 <= i < old(self).organisms@.len() ==> slot_fate(
                    old(self).organisms@[i],
                    #[trigger] final(self).organisms@[i],
                    old(self).config.lifespan as int,
                ),
            forall|i: int|
                old(self).organisms@.len() <= i < final(self).organisms@.len()
                    && (#[trigger] final(self).organisms@[i]).alive
                    ==> final(self).organisms@[i].age < old(self).config.lifespan,
    {
        let steps = self.avg_life();
        self.advance(steps);
        proof {
            assert forall|i: int| 0 <= i < old(self).organisms@.len() implies slot_fate(
                old(self).organisms@[i],
                #[trigger] self.organisms@[i],
                old(self).config.lifespan as int,
            ) by {
                assert(old(self).organisms@[i].alive || old(self).config.lifespan >= 1);
            }
        }
    }

    /// Advances the world by the requested number of ticks.  In independent
    /// mode the run is cut into lifetime-sized batches so that reproduction
    /// still happens between batches.  Every pre-existing slot meets its
    /// fate over the whole run: its living organism survives in place
    /// through every tick, or dies and leaves the slot dead, or the slot
    /// holds a strictly younger organism born during the run; appended
    /// slots hold organisms born during the run.
    pub fn advance(&mut self, total_steps: usize)
        requires
            old(self).wf(),
        ensures
            final(self).wf(),
            final(self).config == old(self).config,
            final(self).organisms@.len() >= old(self).organisms@.len(),
            final(self).births >= old(self).births,
            forall|i: int|
                0 <= i < old(self).organisms@.len() && (old(self).organisms@[i].alive
                    || total_steps >= 1) ==> slot_fate(
                    old(self).organisms@[i],
                    #[trigger] final(self).organisms@[i],
                    total_steps as int,
                ),
            forall|i: int|
                old(self).organisms@.len() <= i < final(self).organisms@.len()
                    && (#[trigger] final(self).organisms@[i]).alive
                    ==> final(self).organisms@[i].age < total_steps,
    {
        if self.config.independent {
            let avg = self.avg_life();
            let mut steps: usize = 0;
            while steps < total_steps
                invariant
                    self.wf(),
                    self.config == old(self).config,
                    self.organisms@.len() >= old(self).organisms@.len(),
                    self.births >= old(self).births,
                    steps <= total_steps,
                    avg == self.config.lifespan,
                    avg >= 1,
                    steps == 0 ==> self.organisms@ == old(self).organisms@,
                    forall|i: int|
                        0 <= i < old(self).organisms@.len() && (old(self).organisms@[i].alive
                            || steps >= 1) ==> slot_fate(
                            old(self).organisms@[i],
                            #[trigger] self.organisms@[i],
                            steps as int,
                        ),
                    forall|i: int|
                        old(self).organisms@.len() <= i < self.organisms@.len()
                            && (#[trigger] self.organisms@[i]).alive ==> self.organisms@[i].age
                            < steps,
                decreases total_steps - steps,
            {
                let remaining = total_steps - steps;
                let chunk = if avg < remaining {
                    avg
                } else {
                    remaining
                };
                let ghost mid = self.organisms@;
                self.steps(chunk);
                proof {
                    assert forall|i: int|
                        0 <= i < old(self).organisms@.len() && (old(self).organisms@[i].alive
                            || steps + chunk >= 1) implies slot_fate(
                        old(self).organisms@[i],
                        #[trigger] self.organisms@[i],
                        steps + chunk,
                    ) by {
                        assert(slot_fate(mid[i], self.organisms@[i], chunk as int));
                        if old(self).organisms@[i].alive || steps >= 1 {
                            lemma_slot_fate_compose(
                                old(self).organisms@[i],
                                mid[i],
                                self.organisms@[i],
                                steps as int,
                                chunk as int,
                            );
                        } else {
                            // First chunk: the slot was dead at entry and
                            // untouched until now.
                            assert(mid[i] == old(self).organisms@[i]);
                        }
                    }
                    assert forall|i: int|
                        old(self).organisms@.len() <= i < self.organisms@.len()
                            && (#[trigger] self.organisms@[i]).alive implies self.organisms@[i].age
                        < steps + chunk by {
                        if i < mid.len() {
                            assert(slot_fate(mid[i], self.organisms@[i], chunk as int));
                        }
                    }
                }
                steps = steps + chunk;
            }
        } else {
            let ghost pre = self.organisms@;
            self.steps(total_steps);
            proof {
                assert(forall|i: int|
                    0 <= i < pre.len() && (pre[i].alive || total_steps >= 1)
                        ==> slot_fate(pre[i], #[trigger] self.organisms@[i], total_steps as int));
            }
        }
    }

    /// Runs a batch of ticks and exactly one reproduction round sized for
    /// it (independent mode), or one reproduction round per tick
    /// (synchronized mode).  Either way each slot meets its fate: a living
    /// organism survives in place through every delivered tick, or dies and
    /// leaves its slot dead, or the slot holds a strictly younger newborn;
    /// slots appended by reproduction hold organisms born during the batch.
    fn steps(&mut self, steps: usize)
        requires
            old(self).wf(),
            old(self).config.lifespan >= 1,
        ensures
            final(self).wf(),
            final(self).config == old(self).config,
            final(self).organisms@.len() >= old(self).organisms@.len(),
            final(self).births >= old(self).births,
            forall|i: int|
                0 <= i < old(self).organisms@.len() && (old(self).organisms@[i].alive || steps >= 1)
                    ==> slot_fate(
                    old(self).organisms@[i],
                    #[trigger] final(self).organisms@[i],
                    steps as int,
                ),
            forall|i: int|
                old(self).organisms@.len() <= i < final(self).organisms@.len()
                    && (#[trigger] final(self).organisms@[i]).alive
                    ==> final(self).organisms@[i].age < steps,
    {
        if self.config.independent {
            let count = self.organisms.len();
            let mut id: usize = 0;
            while id < count
                invariant
                    self.wf(),
                    self.config == old(self).config,
                    count == self.organisms@.len(),
                    self.organisms@.len() == old(self).organisms@.len(),
                    self.births == old(self).births,
                    id <= count,
                    forall|i: int|
                        id <= i < count ==> #[trigger] self.organisms@[i]
                            == old(self).organisms@[i],
                    forall|i: int|
                        0 <= i < id ==> batch_ticked(
                            old(self).organisms@[i],
                            #[trigger] self.organisms@[i],
                            steps as int,
                        ),
                decreases count - id,
            {
                let ghost orgs0 = self.organisms@;
                self.i_steps(id, steps);
                proof {
                    assert forall|i: int|
                        0 <= i < id + 1 implies batch_ticked(
                        old(self).organisms@[i],
                        #[trigger] self.organisms@[i],
                        steps as int,
                    ) by {
                        if i < id {
                            assert(self.organisms@[i] == orgs0[i]);
                        } else {
                            assert(orgs0[i] == old(self).organisms@[i]);
                        }
                    }
                }
                id = id + 1;
            }
            let ghost mid = self.organisms@;
            self.reproduce(steps);
            proof {
                assert forall|i: int|
                    0 <= i < old(self).organisms@.len() && (old(self).organisms@[i].alive || steps
                        >= 1) implies slot_fate(
                    old(self).organisms@[i],
                    #[trigger] self.organisms@[i],
                    steps as int,
                ) by {
                    let e = old(self).organisms@[i];
                    assert(batch_ticked(e, mid[i], steps as int));
                    let t = choose|t: int|
                        0 <= t <= steps && (t == steps || !mid[i].alive) && #[trigger] ticked(
                            e,
                            mid[i],
                            t,
                        );
                    if credited(mid[i], self.organisms@[i]) {
                        if self.organisms@[i].alive {
                            // Alive after crediting means alive after the
                            // batch, so every tick was delivered.
                            assert(mid[i].alive && e.alive && t == steps);
                        }
                    } else {
                        assert(!mid[i].alive && newborn(self.organisms@[i]));
                        // A newborn replaced it, and only after a death,
                        // which takes at least one tick of a living
                        // organism (a dead one is never stepped).
                        if e.alive {
                            assert(t >= 1);
                        }
                        assert(steps >= 1);
                        assert(self.organisms@[i].age < steps);
                    }
                }
                assert forall|i: int|
                    old(self).organisms@.len() <= i < self.organisms@.len() && (
                    #[trigger] self.organisms@[i]).alive implies self.organisms@[i].age < steps by {
                    assert(newborn(self.organisms@[i]));
                    if steps == 0 {
                        assert(self.organisms@ == mid);
                        assert(false);
                    }
                }
            }
        } else {
            let mut s: usize = 0;
            while s < steps
                invariant
                    self.wf(),
                    self.config == old(self).config,
                    self.organisms@.len() >= old(self).organisms@.len(),
                    self.births >= old(self).births,
                    s <= steps,
                    forall|i: int|
                        0 <= i < old(self).organisms@.len() ==> slot_fate(
                            old(self).organisms@[i],
                            #[trigger] self.organisms@[i],
                            s as int,
                        ),
                    forall|i: int|
                        old(self).organisms@.len() <= i < self.organisms@.len() && (
                        #[trigger] self.organisms@[i]).alive ==> self.organisms@[i].age < s,
                decreases steps - s,
            {
                let ghost pre = self.organisms@;
                self.step();
                let ghost mid = self.organisms@;
                self.reproduce(1);
                proof {
                    assert forall|i: int|
                        0 <= i < old(self).organisms@.len() implies slot_fate(
                        old(self).organisms@[i],
                        #[trigger] self.organisms@[i],
                        s + 1int,
                    ) by {
                        lemma_round_fate(pre[i], mid[i], self.organisms@[i]);
                        lemma_slot_fate_compose(
                            old(self).organisms@[i],
                            pre[i],
                            self.organisms@[i],
                            s as int,
                            1,
                        );
                    }
                    assert forall|i: int|
                        old(self).organisms@.len() <= i < self.organisms@.len() && (
                        #[trigger] self.organisms@[i]).alive implies self.organisms@[i].age < s
                        + 1 by {
                        if i < pre.len() {
                            lemma_round_fate(pre[i], mid[i], self.organisms@[i]);
                            assert(slot_fate(pre[i], self.organisms@[i], 1));
                        } else if i < mid.len() {
                            // Appended earlier in this round is impossible:
                            // stepping adds no slots.
                            assert(mid[i] == pre[i]);
                            assert(false);
                        } else {
                            assert(newborn(self.organisms@[i]));
                        }
                    }
                }
                s = s + 1;
            }
        }
    }

    /// Advances one organism through consecutive ticks until `steps` have
    /// elapsed or it dies, whichever comes first; no other slot is touched.
    fn i_steps(&mut self, id: usize, steps: usize)
        requires
            old(self).wf(),
            id < old(self).organisms@.len(),
        ensures
            final(self).wf(),
            final(self).config == old(self).config,
            final(self).organisms@.len() == old(self).organisms@.len(),
            final(self).births == old(self).births,
            final(self).fertile == old(self).fertile,
            forall|i: int|
                0 <= i < old(self).organisms@.len() && i != id ==> final(self).organisms@[i] == old(
                    self,
                ).organisms@[i],
            batch_ticked(
                old(self).organisms@[id as int],
                final(self).organisms@[id as int],
                steps as int,
            ),
    {
        let mut s: usize = 0;
        while s < steps
            invariant
                self.wf(),
                self.config == old(self).config,
                self.organisms@.len() == old(self).organisms@.len(),
                self.births == old(self).births,
                self.fertile == old(self).fertile,
                id < self.organisms@.len(),
                s <= steps,
                forall|i: int|
                    0 <= i < old(self).organisms@.len() && i != id ==> #[trigger] self.organisms@[i]
                        == old(self).organisms@[i],
                ticked(old(self).organisms@[id as int], self.organisms@[id as int], s as int),
            ensures
                self.wf(),
                self.config == old(self).config,
                self.organisms@.len() == old(self).organisms@.len(),
                self.births == old(self).births,
                self.fertile == old(self).fertile,
                id < self.organisms@.len(),
                s <= steps,
                forall|i: int|
                    0 <= i < old(self).organisms@.len() && i != id ==> #[trigger] self.organisms@[i]
                        == old(self).organisms@[i],
                ticked(old(self).organisms@[id as int], self.organisms@[id as int], s as int),
                s == steps || !self.organisms@[id as int].alive,
            decreases steps - s,
        {
            if !self.organisms[id].alive {
                break ;
            }
            let ghost orgs0 = self.organisms@;
            let config = &self.config;
            self.organisms[id].take_step(config, &mut self.environs);
            proof {
                lemma_sum_offspring_update(orgs0, id as int, self.organisms@[id as int]);
                assert(ticked(
                    old(self).organisms@[id as int],
                    self.organisms@[id as int],
                    s + 1int,
                ));
            }
            s = s + 1;
        }
        proof {
            assert(ticked(old(self).organisms@[id as int], self.organisms@[id as int], s as int));
        }
    }

    /// Advances every living organism by exactly one tick: the dead are
    /// untouched, each living organism ages one tick and keeps its genome
    /// and offspring count, and its running maximum absorbs the new fitness.
    fn step(&mut self)
        requires
            old(self).wf(),
        ensures
            final(self).wf(),
            final(self).config == old(self).config,
            final(self).organisms@.len() == old(self).organisms@.len(),
            final(self).births == old(self).births,
            final(self).fertile == old(self).fertile,
            forall|i: int|
                0 <= i < old(self).organisms@.len() && !old(self).organisms@[i].alive
                    ==> final(self).organisms@[i] == old(self).organisms@[i],
            forall|i: int|
                0 <= i < old(self).organisms@.len() && old(self).organisms@[i].alive ==> stepped(
                    old(self).organisms@[i],
                    #[trigger] final(self).organisms@[i],
                ),
    {
        let count = self.organisms.len();
        let mut id: usize = 0;
        while id < count
            invariant
                self.wf(),
                self.config == old(self).config,
                count == self.organisms@.len(),
                self.organisms@.len() == old(self).organisms@.len(),
                self.births == old(self).births,
                self.fertile == old(self).fertile,
                id <= count,
                forall|i: int|
                    id <= i < count ==> #[trigger] self.organisms@[i] == old(self).organisms@[i],
                forall|i: int|
                    0 <= i < id && !old(self).organisms@[i].alive ==> #[trigger] self.organisms@[i]
                        == old(self).organisms@[i],
                forall|i: int|
                    0 <= i < id && old(self).organisms@[i].alive ==> stepped(
                        old(self).organisms@[i],
                        #[trigger] self.organisms@[i],
                    ),
            decreases count - id,
        {
            if self.organisms[id].alive {
                let ghost orgs0 = self.organisms@;
                let config = &self.config;
                self.organisms[id].take_step(config, &mut self.environs);
                proof {
                    lemma_sum_offspring_update(orgs0, id as int, self.organisms@[id as int]);
                }
            }
            id = id + 1;
        }
    }

    /// How many offspring the elapsed ticks call for: the depleted fraction
    /// of the population (`steps · population / lifespan`), its fractional
    /// remainder granting one bonus child with matching probability, capped
    /// at the population size.
    fn offspring_needed(&self, steps: usize) -> (r: usize)
        requires
            self.config.wf(),
        ensures
            r <= self.config.population,
            r == offspring_target(self.config, steps as int, false) || r == offspring_target(
                self.config,
                steps as int,
                true,
            ),
            steps == 0 ==> r == 0,
    {
        let pop = self.config.population;
        let ls = self.config.lifespan;
        let steps64 = steps as u64;
        let pop64 = pop as u64;
        proof {
            assert((steps64 as int) * (pop64 as int) <= 0xffff_ffff_ffff_ffff
                * 0xffff_ffff_ffff_ffff) by (nonlinear_arith)
                requires
                    steps64 <= 0xffff_ffff_ffff_ffff,
                    pop64 <= 0xffff_ffff_ffff_ffff,
                    (steps64 as int) * (pop64 as int) >= 0,
            ;
        }
        let prod: u128 = (steps64 as u128) * (pop64 as u128);
        proof {
            if steps == 0 {
                assert(prod == 0) by (nonlinear_arith)
                    requires
                        prod == (steps64 as u128) * (pop64 as u128),
                        steps64 == 0,
                ;
                vstd::arithmetic::div_mod::lemma_div_of0(ls as int);
                vstd::arithmetic::div_mod::lemma_small_mod(0, ls as nat);
            }
        }
        let base: u128 = prod / (ls as u128);
        let rem: u128 = prod % (ls as u128);
        let bonus: bool = (random_below(ls as u64) as u128) < rem;
        let base_capped: u128 = if base < (pop as u128) {
            base
        } else {
            pop as u128
        };
        let with_bonus: u128 = if bonus {
            base_capped + 1
        } else {
            base_capped
        };
        let capped: u128 = if with_bonus < (pop as u128) {
            with_bonus
        } else {
            pop as u128
        };
        proof {
            assert(capped as int == offspring_target(self.config, steps as int, bonus));
        }
        capped as usize
    }

    /// The greatest max_fitness among the living organisms (floored at
    /// zero), and how many of them are alive.
    pub fn max_fitness(&self) -> (r: (i64, usize))
        ensures
            r.0 == max_alive_fitness(self.organisms@),
            r.1 == alive_count(self.organisms@),
    {
        let mut max: i64 = 0;
        let mut pop: usize = 0;
        let count = self.organisms.len();
        let mut id: usize = 0;
        while id < count
            invariant
                count == self.organisms@.len(),
                id <= count,
                max == max_alive_fitness(self.organisms@.subrange(0, id as int)),
                pop == alive_count(self.organisms@.subrange(0, id as int)),
                pop <= id,
            decreases count - id,
        {
            proof {
                assert(self.organisms@.subrange(0, id + 1int).drop_last() =~= self.organisms@
                    .subrange(0, id as int));
                assert(self.organisms@.subrange(0, id + 1int).last() == self.organisms@[id as int]);
            }
            if self.organisms[id].alive {
                if self.organisms[id].max_fitness > max {
                    max = self.organisms[id].max_fitness;
                }
                pop = pop + 1;
            }
            id = id + 1;
        }
        proof {
            assert(self.organisms@.subrange(0, count as int) =~= self.organisms@);
        }
        (max, pop)
    }

    /// The roulette wheel's total: the summed |max_fitness| of the living
    /// organisms, saturated into a `u64` and floored at a small positive
    /// value so that a draw is always possible.
    pub fn sum_fitness(&self) -> (r: u64)
        ensures
            r == roulette_total(self.organisms@),
            r >= SUM_FITNESS_FLOOR,
    {
        let mut acc: u128 = 0;
        let count = self.organisms.len();
        let mut id: usize = 0;
        while id < count
            invariant
                count == self.organisms@.len(),
                id <= count,
                acc == sum_abs_fitness(self.organisms@.subrange(0, id as int)),
                acc <= (id as int) * 0x8000_0000_0000_0000,
            decreases count - id,
        {
            proof {
                assert(self.organisms@.subrange(0, id + 1int).drop_last() =~= self.organisms@
                    .subrange(0, id as int));
                assert(self.organisms@.subrange(0, id + 1int).last() == self.organisms@[id as int]);
                assert((id + 1int) * 0x8000_0000_0000_0000 == (id as int) * 0x8000_0000_0000_0000
                    + 0x8000_0000_0000_0000) by (nonlinear_arith);
            }
            if self.organisms[id].alive {
                let a = abs_u64(self.organisms[id].max_fitness);
                acc = acc + (a as u128);
            }
            id = id + 1;
        }
        proof {
            assert(self.organisms@.subrange(0, count as int) =~= self.organisms@);
        }
        let capped: u64 = if acc > (u64::MAX as u128) {
            u64::MAX
        } else {
            acc as u64
        };
        if capped < SUM_FITNESS_FLOOR {
            SUM_FITNESS_FLOOR
        } else {
            capped
        }
    }

    /// The run's fitness summary, each value with two decimal places: the
    /// living organisms' summed |max_fitness| (with its floor), the average
    /// per living organism, and the greatest max_fitness.
    pub fn fitness_stats(&self) -> (r: String)
        ensures
            r@ == stats_rendering(self.organisms@),
    {
        let (max, pop) = self.max_fitness();
        let sum = self.sum_fitness();
        proof {
            reveal_strlit("Fitness( sum: ");
            reveal_strlit(", avg: ");
            reveal_strlit(", max: ");
            reveal_strlit(" )");
            reveal_strlit("inf");
        }
        let mut s: String = "Fitness( sum: ".to_owned();
        let sum_str = fixed2_u64(sum);
        s.append(sum_str.as_str());
        s.append(", avg: ");
        if pop > 0 {
            let avg_str = fixed2_u64(sum / (pop as u64));
            s.append(avg_str.as_str());
        } else {
            s.append("inf");
        }
        s.append(", max: ");
        let max_str = fixed2_i64(max);
        s.append(max_str.as_str());
        s.append(" )");
        proof {
            assert(s@ =~= stats_rendering(self.organisms@));
        }
        s
    }

    /// Roulette selection: scans the living organisms in slot order,
    /// accumulating |max_fitness|, and returns the first slot at which the
    /// running total meets or exceeds the draw — ties broken by scan order.
    /// Returns nothing when the total never reaches the draw.
    pub fn select_parent(&self, num: u64) -> (r: Option<usize>)
        ensures
            match r {
                Some(id) => 0 <= id < self.organisms@.len() && self.organisms@[id as int].alive
                    && fitness_prefix(self.organisms@, id + 1) >= num && forall|j: int|
                    0 <= j < id && (#[trigger] self.organisms@[j]).alive ==> fitness_prefix(
                        self.organisms@,
                        j + 1,
                    ) < num,
                None => forall|j: int|
                    0 <= j < self.organisms@.len() && (#[trigger] self.organisms@[j]).alive
                        ==> fitness_prefix(self.organisms@, j + 1) < num,
            },
    {
        let mut tot: u128 = 0;
        let count = self.organisms.len();
        let mut id: usize = 0;
        while id < count
            invariant
                count == self.organisms@.len(),
                id <= count,
                tot == fitness_prefix(self.organisms@, id as int),
                tot <= (id as int) * 0x8000_0000_0000_0000,
                forall|j: int|
                    0 <= j < id && (#[trigger] self.organisms@[j]).alive ==> fitness_prefix(
                        self.organisms@,
                        j + 1,
                    ) < num,
            decreases count - id,
        {
            proof {
                assert(self.organisms@.subrange(0, id + 1int).drop_last() =~= self.organisms@
                    .subrange(0, id as int));
                assert(self.organisms@.subrange(0, id + 1int).last() == self.organisms@[id as int]);
                assert((id + 1int) * 0x8000_0000_0000_0000 == (id as int) * 0x8000_0000_0000_0000
                    + 0x8000_0000_0000_0000) by (nonlinear_arith);
            }
            if self.organisms[id].alive {
                let a = abs_u64(self.organisms[id].max_fitness);
                tot = tot + (a as u128);
                if tot >= (num as u128) {
                    return Some(id);
                }
            }
            id = id + 1;
        }
        proof {
            assert(self.organisms@.subrange(0, count as int) =~= self.organisms@);
        }
        None
    }

    /// One reproduction round for `steps` just-elapsed ticks: draw the
    /// needed number of parents by fitness-proportionate selection, then for
    /// each queued parent credit its offspring counter, bud a mutated child
    /// genome, and insert the child into the first dead slot (or append).
    /// Every organism alive at entry keeps its slot, at most credited; dead
    /// slots stay dead or receive a newborn; appended slots hold newborns;
    /// the parent queue is drained; the birth counter grows by exactly the
    /// number of newborns inserted (saturating), at most `population`.
    fn reproduce(&mut self, steps: usize)
        requires
            old(self).wf(),
        ensures
            final(self).wf(),
            final(self).config == old(self).config,
            final(self).organisms@.len() >= old(self).organisms@.len(),
            old(self).births <= final(self).births,
            final(self).births <= old(self).births + old(self).config.population,
            old(self).births + newborn_count(old(self).organisms@, final(self).organisms@)
                <= usize::MAX ==> final(self).births == old(self).births + newborn_count(
                old(self).organisms@,
                final(self).organisms@,
            ),
            old(self).births + newborn_count(old(self).organisms@, final(self).organisms@)
                > usize::MAX ==> final(self).births == usize::MAX,
            forall|i: int|
                0 <= i < old(self).organisms@.len() ==> credited(
                    old(self).organisms@[i],
                    #[trigger] final(self).organisms@[i],
                ) || (!old(self).organisms@[i].alive && newborn(final(self).organisms@[i])),
            forall|i: int|
                old(self).organisms@.len() <= i < final(self).organisms@.len() ==> newborn(
                    #[trigger] final(self).organisms@[i],
                ),
            steps == 0 ==> final(self).organisms@ == old(self).organisms@ && final(self).births
                == old(self).births,
    {
        let needed = self.offspring_needed(steps);

        // Pick the winners of the offspring lottery.
        let mut i: usize = 0;
        while i < needed
            invariant
                self.slots_wf(),
                self.config == old(self).config,
                self.organisms@ == old(self).organisms@,
                self.births == old(self).births,
                self.environs == old(self).environs,
                i <= needed,
                needed <= self.config.population,
                self.fertile@.len() <= i,
                forall|k: int|
                    0 <= k < self.fertile@.len() ==> (#[trigger] self.fertile@[k]) < old(
                        self,
                    ).organisms@.len() && old(self).organisms@[self.fertile@[k] as int].alive,
            decreases needed - i,
        {
            let sum = self.sum_fitness();
            let num = random_below(sum);
            match self.select_parent(num) {
                Some(id) => { self.fertile.push(id) },
                None => {},
            }
            i = i + 1;
        }

        // Make the babies.
        let ghost queued = self.fertile@.len();
        proof {
            lemma_count_revived_same(
                old(self).organisms@,
                self.organisms@,
                old(self).organisms@.len() as int,
            );
        }
        while self.fertile.len() > 0
            invariant
                self.slots_wf(),
                self.config == old(self).config,
                self.organisms@.len() >= old(self).organisms@.len(),
                self.fertile@.len() <= queued <= old(self).config.population,
                old(self).births <= self.births,
                self.births + self.fertile@.len() <= old(self).births + queued,
                newborn_count(old(self).organisms@, self.organisms@) >= 0,
                old(self).births + newborn_count(old(self).organisms@, self.organisms@)
                    <= usize::MAX ==> self.births == old(self).births + newborn_count(
                    old(self).organisms@,
                    self.organisms@,
                ),
                old(self).births + newborn_count(old(self).organisms@, self.organisms@)
                    > usize::MAX ==> self.births == usize::MAX,
                forall|k: int|
                    0 <= k < self.fertile@.len() ==> (#[trigger] self.fertile@[k]) < old(
                        self,
                    ).organisms@.len() && old(self).organisms@[self.fertile@[k] as int].alive,
                forall|i: int|
                    0 <= i < old(self).organisms@.len() ==> credited(
                        old(self).organisms@[i],
                        #[trigger] self.organisms@[i],
                    ) || (!old(self).organisms@[i].alive && newborn(self.organisms@[i])),
                forall|i: int|
                    old(self).organisms@.len() <= i < self.organisms@.len() ==> newborn(
                        #[trigger] self.organisms@[i],
                    ),
                queued == 0 ==> self.organisms@ == old(self).organisms@ && self.births == old(
                    self,
                ).births,
            decreases self.fertile@.len(),
        {
            let ghost fertile0 = self.fertile@;
            let id_opt = self.fertile.pop();
            if let Some(id) = id_opt {
                proof {
                    assert(id == fertile0[fertile0.len() - 1]);
                    assert(id < old(self).organisms@.len());
                    assert(old(self).organisms@[id as int].alive);
                    assert(credited(old(self).organisms@[id as int], self.organisms@[id as int]));
                }
                if self.births < usize::MAX {
                    // The counters saturate together, so the offspring
                    // totals never outrun the births issued.
                    let ghost orgs0 = self.organisms@;
                    proof {
                        lemma_sum_offspring_elem(orgs0, id as int);
                        lemma_sum_offspring_nonneg(orgs0);
                    }
                    let off = self.organisms[id].offspring;
                    self.organisms[id].offspring = off + 1;
                    self.births = self.births + 1;
                    proof {
                        lemma_sum_offspring_update(orgs0, id as int, self.organisms@[id as int]);
                        lemma_count_revived_update(
                            old(self).organisms@,
                            orgs0,
                            old(self).organisms@.len() as int,
                            id as int,
                            self.organisms@[id as int],
                        );
                        assert(self.organisms@ == orgs0.update(id as int, self.organisms@[
                            id as int]));
                        assert forall|i: int|
                            0 <= i < old(self).organisms@.len() implies credited(
                            old(self).organisms@[i],
                            #[trigger] self.organisms@[i],
                        ) || (!old(self).organisms@[i].alive && newborn(self.organisms@[i])) by {
                            if i != id {
                                assert(self.organisms@[i] == orgs0[i]);
                            }
                        }
                        assert forall|i: int|
                            old(self).organisms@.len() <= i < self.organisms@.len() implies newborn(
                            #[trigger] self.organisms@[i],
                        ) by {
                            assert(self.organisms@[i] == orgs0[i]);
                        }
                    }
                }
                let ghost orgs1 = self.organisms@;
                let ghost fert1 = self.fertile@;
                let config = &self.config;
                let baby = self.organisms[id].bud(config, &mut self.environs);
                proof {
                    assert(newborn(baby));
                }
                self.birth(baby);
                proof {
                    let ghost olen = old(self).organisms@.len() as int;
                    if exists|k: int| free_slot(orgs1, fert1, k) {
                        let slot = choose|slot: int|
                            free_slot(orgs1, fert1, slot) && (forall|j: int|
                                0 <= j < slot ==> !free_slot(orgs1, fert1, j)) && self.organisms@
                                == orgs1.update(slot, baby);
                        // A reclaimed slot was dead before this round too:
                        // crediting keeps the alive flag and newborns are
                        // alive, so only originally dead slots are free.
                        assert(!orgs1[slot].alive);
                        assert(slot < old(self).organisms@.len() && !old(self).organisms@[
                            slot].alive) by {
                            if slot >= old(self).organisms@.len() {
                                assert(newborn(orgs1[slot]));
                            } else {
                                if !credited(old(self).organisms@[slot], orgs1[slot]) {
                                    assert(newborn(orgs1[slot]));
                                }
                            }
                        }
                        lemma_count_revived_update(old(self).organisms@, orgs1, olen, slot, baby);
                        assert(newborn_count(old(self).organisms@, self.organisms@)
                            == newborn_count(old(self).organisms@, orgs1) + 1);
                        assert forall|i: int|
                            0 <= i < old(self).organisms@.len() implies credited(
                            old(self).organisms@[i],
                            #[trigger] self.organisms@[i],
                        ) || (!old(self).organisms@[i].alive && newborn(self.organisms@[i])) by {
                            if i != slot {
                                assert(self.organisms@[i] == orgs1[i]);
                            }
                        }
                        assert forall|i: int|
                            old(self).organisms@.len() <= i < self.organisms@.len() implies newborn(
                            #[trigger] self.organisms@[i],
                        ) by {
                            assert(self.organisms@[i] == orgs1[i]);
                        }
                    } else {
                        assert(self.organisms@ == orgs1.push(baby));
                        lemma_count_revived_push(old(self).organisms@, orgs1, olen, baby);
                        assert(newborn_count(old(self).organisms@, self.organisms@)
                            == newborn_count(old(self).organisms@, orgs1) + 1);
                        assert forall|i: int|
                            0 <= i < old(self).organisms@.len() implies credited(
                            old(self).organisms@[i],
                            #[trigger] self.organisms@[i],
                        ) || (!old(self).organisms@[i].alive && newborn(self.organisms@[i])) by {
                            assert(self.organisms@[i] == orgs1[i]);
                        }
                        assert forall|i: int|
                            old(self).organisms@.len() <= i < self.organisms@.len() implies newborn(
                            #[trigger] self.organisms@[i],
                        ) by {
                            if i < orgs1.len() {
                                assert(self.organisms@[i] == orgs1[i]);
                            } else {
                                assert(self.organisms@[i] == baby);
                            }
                        }
                    }
                }
            }
        }
    }

    /// Whether a slot index is still queued for reproduction.
    fn fertile_contains(&self, id: usize) -> (r: bool)
        ensures
            r == self.fertile@.contains(id),
    {
        let count = self.fertile.len();
        let mut k: usize = 0;
        while k < count
            invariant
                count == self.fertile@.len(),
                k <= count,
                forall|j: int| 0 <= j < k ==> self.fertile@[j] != id,
            decreases count - k,
        {
            if self.fertile[k] == id {
                proof {
                    assert(self.fertile@.contains(id));
                }
                return true;
            }
            k = k + 1;
        }
        proof {
            assert(!self.fertile@.contains(id));
        }
        false
    }

    /// Places a newborn in the first dead slot that is not still queued for
    /// reproduction, scanning from the lowest index; appends a new slot when
    /// none is free.  Every other slot is untouched.
    fn birth(&mut self, baby: Organism<T>)
        requires
            old(self).slots_wf(),
            baby.wf(old(self).config),
            newborn(baby),
        ensures
            final(self).slots_wf(),
            final(self).config == old(self).config,
            final(self).births == old(self).births,
            final(self).fertile == old(self).fertile,
            final(self).environs == old(self).environs,
            (forall|i: int| !free_slot(old(self).organisms@, old(self).fertile@, i))
                ==> final(self).organisms@ == old(self).organisms@.push(baby),
            (exists|i: int| free_slot(old(self).organisms@, old(self).fertile@, i))
                ==> (exists|s: int|
                free_slot(old(self).organisms@, old(self).fertile@, s) && (forall|j: int|
                    0 <= j < s ==> !free_slot(old(self).organisms@, old(self).fertile@, j))
                    && final(self).organisms@ == old(self).organisms@.update(s, baby)),
    {
        let count = self.organisms.len();
        let mut id: usize = 0;
        while id < count
            invariant
                self.slots_wf(),
                self.config == old(self).config,
                self.organisms@ == old(self).organisms@,
                self.fertile == old(self).fertile,
                self.births == old(self).births,
                self.environs == old(self).environs,
                count == self.organisms@.len(),
                id <= count,
                baby.wf(self.config),
                newborn(baby),
                forall|j: int|
                    0 <= j < id ==> !free_slot(old(self).organisms@, old(self).fertile@, j),
            decreases count - id,
        {
            if !self.organisms[id].alive && !self.fertile_contains(id) {
                // Reclaim the dead body.
                let ghost orgs0 = self.organisms@;
                proof {
                    assert(free_slot(old(self).organisms@, old(self).fertile@, id as int));
                    lemma_sum_offspring_update(orgs0, id as int, baby);
                    lemma_sum_offspring_nonneg(orgs0);
                }
                self.organisms.set(id, baby);
                proof {
                    assert forall|i: int| 0 <= i < self.organisms@.len() implies (
                    #[trigger] self.organisms@[i]).wf(self.config) by {
                        if i != id {
                            assert(self.organisms@[i] == orgs0[i]);
                        }
                    }
                }
                return ;
            }
            id = id + 1;
        }
        proof {
            assert(forall|i: int| !free_slot(old(self).organisms@, old(self).fertile@, i));
            lemma_sum_offspring_push(self.organisms@, baby);
        }
        self.organisms.push(baby);
    }
}

} // verus!
