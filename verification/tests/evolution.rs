use gworld::genes::{Chromo, Gene, Genome};
use gworld::math::SCALE;
use gworld::organism::MIN_FITNESS;
use gworld::{Config, Creature, Environs, Organism, World};
use rand::Rng;

struct MyEnv {}

impl Environs for MyEnv {
    type Creature = Critter;

    fn new() -> Self {
        MyEnv {}
    }
}

struct Critter {}

impl Creature for Critter {
    type Env = MyEnv;
    type CCT = Critter;

    fn new(_env: &mut MyEnv, _parents: Vec<&Critter>) -> Self {
        Critter {}
    }

    fn rx_input(&self, _input: &str, _env: &MyEnv) -> i64 {
        SCALE / 2
    }

    fn tx_output(&mut self, _output: &str, _value: i64, _env: &MyEnv) {}

    fn act(&mut self, _env: &mut MyEnv) -> i64 {
        0
    }
}

fn test_config() -> Config {
    Config {
        verbose: "silent".to_string(),
        population: 10,
        lifespan: 5,
        genome_size: 3,
        use_chromo: true,
        independent: false,
        strength_mult: 4_000_000,
        inputs: vec!["A".to_string()],
        outputs: vec!["B".to_string()],
        neurons: 2,
    }
}

#[test]
fn propagation_is_synchronous_and_recurrent() {
    let cfg = test_config();
    let mut env = MyEnv::new();
    // A two-hop path with full-strength genes: input 0 feeds hidden 1,
    // hidden 1 feeds output 3.
    let keys = [0x00_80_7fffu32, 0x80_00_7fffu32];
    let genes: Vec<Gene> = keys.iter().map(|&k| Gene::with_dna(&cfg, k)).collect();
    let genome = Genome::with_chromos(&cfg, vec![Chromo { genes }]);
    let mut org: Organism<Critter> = Organism::from_genome(&cfg, genome, &mut env, Vec::new());

    // First tick: the hidden neuron sums the sensed input, but the output
    // still reads the hidden node's pre-phase (zero) state.
    org.get_inputs(&cfg, &env);
    org.process_inputs(&cfg);
    assert_eq!(org.brain.node_state[0], SCALE / 2);
    assert_eq!(org.brain.nurons[0].state, 2_000_000);
    assert_eq!(org.brain.node_state[1], 984_126);  // tanh of two units
    assert_eq!(org.brain.outputs[0].state, 0);

    // Second tick: the output now sees the hidden state of the first tick —
    // recurrence across ticks, synchronous within a tick.
    org.get_inputs(&cfg, &env);
    org.process_inputs(&cfg);
    assert_eq!(org.brain.outputs[0].state, 3_936_504);
}

#[test]
fn acting_floors_fitness_and_ages() {
    let cfg = test_config();
    let mut env = MyEnv::new();
    let mut org: Organism<Critter> = Organism::new(&cfg, &mut env);
    org.take_step(&cfg, &mut env);
    assert_eq!(org.fitness, MIN_FITNESS);
    assert_eq!(org.max_fitness, MIN_FITNESS);
    assert_eq!(org.age, 1);
    assert!(org.alive);
}

#[test]
fn lone_winner_takes_every_draw() {
    let cfg = test_config();
    let mut world: World<MyEnv, Critter> = World::new(Config { population: 4, ..cfg });
    world.organisms[0].max_fitness = SCALE;
    let sum = world.sum_fitness();
    assert_eq!(sum, SCALE as u64);
    let mut rng = rand::thread_rng();
    for _ in 0..10_000 {
        let num: u64 = rng.gen_range(0..sum);
        assert_eq!(world.select_parent(num), Some(0));
    }
}

#[test]
fn equal_fitness_splits_the_draws_evenly() {
    let cfg = test_config();
    let mut world: World<MyEnv, Critter> = World::new(Config { population: 2, ..cfg });
    world.organisms[0].max_fitness = SCALE;
    world.organisms[1].max_fitness = SCALE;
    let sum = world.sum_fitness();
    assert_eq!(sum, 2 * SCALE as u64);
    let mut rng = rand::thread_rng();
    let mut first: u64 = 0;
    let draws: u64 = 10_000;
    for _ in 0..draws {
        let num: u64 = rng.gen_range(0..sum);
        match world.select_parent(num) {
            Some(0) => first += 1,
            Some(1) => {}
            other => panic!("unexpected selection {:?}", other),
        }
    }
    assert!(first > 4500 && first < 5500, "first organism won {} of {}", first, draws);
}

#[test]
fn selection_with_zero_fitness_takes_the_first_living_slot() {
    let cfg = test_config();
    let mut world: World<MyEnv, Critter> = World::new(Config { population: 3, ..cfg });
    assert_eq!(world.select_parent(0), Some(0));
    world.organisms[0].alive = false;
    assert_eq!(world.select_parent(0), Some(1));
}

#[test]
fn selection_fails_only_when_nobody_can_win() {
    let cfg = test_config();
    let mut world: World<MyEnv, Critter> = World::new(Config { population: 2, ..cfg });
    // All slots dead: the scan finds no winner.
    world.organisms[0].alive = false;
    world.organisms[1].alive = false;
    assert_eq!(world.select_parent(0), None);
    // A draw beyond the living total also finds none.
    world.organisms[0].alive = true;
    world.organisms[0].max_fitness = 7;
    assert_eq!(world.select_parent(8), None);
    assert_eq!(world.select_parent(7), Some(0));
}

#[test]
fn world_stats_track_the_living() {
    let cfg = test_config();
    let mut world: World<MyEnv, Critter> = World::new(Config { population: 3, ..cfg });
    world.organisms[0].max_fitness = 5 * SCALE;
    world.organisms[1].max_fitness = -2 * SCALE;
    world.organisms[2].max_fitness = SCALE;
    let (max, pop) = world.max_fitness();
    assert_eq!(max, 5 * SCALE);
    assert_eq!(pop, 3);
    // The sum takes absolute values; the dead drop out.
    assert_eq!(world.sum_fitness(), 8 * SCALE as u64);
    world.organisms[0].alive = false;
    let (max2, pop2) = world.max_fitness();
    assert_eq!(max2, SCALE);
    assert_eq!(pop2, 2);
    assert_eq!(world.sum_fitness(), 3 * SCALE as u64);
}

#[test]
fn sum_fitness_is_floored_when_everyone_is_at_zero() {
    let cfg = test_config();
    let world: World<MyEnv, Critter> = World::new(Config { population: 2, ..cfg });
    assert_eq!(world.sum_fitness(), 1000);
}

#[test]
fn end_to_end_five_ticks() {
    // 1 input "A", 1 output "B", 2 hidden neurons, population 10,
    // lifespan 5, genome size 3; advance 5 ticks.
    let cfg = test_config();
    let mut world: World<MyEnv, Critter> = World::new(cfg);
    assert_eq!(world.organisms.len(), 10);
    world.advance(5);
    // Nobody dies of age before exceeding the lifespan, so every original
    // slot still holds its organism at age 5; newborn organisms were
    // appended and are strictly younger.
    for i in 0..10 {
        assert_eq!(world.organisms[i].age, 5);
        assert!(world.organisms[i].alive);
    }
    for i in 10..world.organisms.len() {
        assert!(world.organisms[i].age < 5);
    }
}

#[test]
fn dead_slots_stay_dead_or_hold_a_younger_newborn() {
    let cfg = test_config();
    let mut world: World<MyEnv, Critter> = World::new(cfg);
    world.advance(8);
    // The default rule kills at age 6, so by now every slot either holds a
    // corpse or an organism born during the run.
    for org in world.organisms.iter() {
        assert!(org.age <= 8);
        if !org.alive {
            assert_eq!(org.age, 6);
        }
    }
    assert!(world.births > 0);
}

#[test]
fn offspring_counters_never_exceed_births() {
    let mut cfg = test_config();
    cfg.lifespan = 2;
    let mut world: World<MyEnv, Critter> = World::new(cfg);
    world.advance(20);
    let total: usize = world.organisms.iter().map(|o| o.offspring).sum();
    assert!(world.births > 0);
    assert!(total <= world.births);
    // The parent queue is fully drained between rounds.
    assert!(world.fertile.is_empty());
}

#[test]
fn independent_mode_advances_in_batches() {
    let mut cfg = test_config();
    cfg.independent = true;
    let mut world: World<MyEnv, Critter> = World::new(cfg);
    world.live();
    world.advance(10);
    for org in world.organisms.iter() {
        assert!(org.age <= 15);
    }
    let total: usize = world.organisms.iter().map(|o| o.offspring).sum();
    assert!(total <= world.births);
}

#[test]
fn fitness_stats_renders_the_run_summary() {
    let cfg = test_config();
    let mut world: World<MyEnv, Critter> = World::new(Config { population: 2, ..cfg });
    assert_eq!(world.fitness_stats(), "Fitness( sum: 0.00, avg: 0.00, max: 0.00 )");
    world.organisms[0].max_fitness = 5 * SCALE;
    world.organisms[1].max_fitness = SCALE;
    assert_eq!(world.fitness_stats(), "Fitness( sum: 6.00, avg: 3.00, max: 5.00 )");
    world.organisms[0].alive = false;
    world.organisms[1].alive = false;
    assert_eq!(world.fitness_stats(), "Fitness( sum: 0.00, avg: inf, max: 0.00 )");
}
