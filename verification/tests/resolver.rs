use gworld::brains::Brain;
use gworld::genes::{Chromo, Gene, Genome};
use gworld::Config;

// One input "A" (node 0), two hidden (nodes 1, 2), one output "B" (node 3).
fn cfg2() -> Config {
    Config {
        verbose: "silent".to_string(),
        population: 10,
        lifespan: 5,
        genome_size: 3,
        use_chromo: true,
        independent: false,
        strength_mult: 4_000_000,
        inputs: vec!["A".to_string()],
        outputs: vec!["B".to_string()],
        neurons: 2,
    }
}

// One input (node 0), three hidden (nodes 1..=3), one output (node 4).
fn cfg3() -> Config {
    let mut cfg = cfg2();
    cfg.neurons = 3;
    cfg
}

const I_TO_O: u32 = 0x00_00_0000;
const I_TO_H1: u32 = 0x00_80_0000;
const H1_TO_O: u32 = 0x80_00_0000;
const H1_TO_H2: u32 = 0x80_81_0000;
const H2_TO_O: u32 = 0x81_00_0000;

fn genes_of(cfg: &Config, keys: &[u32]) -> Vec<Gene> {
    keys.iter().map(|&k| Gene::with_dna(cfg, k)).collect()
}

fn active_flags(genes: &[Gene]) -> Vec<bool> {
    genes.iter().map(|g| g.active).collect()
}

#[test]
fn direct_input_output_gene_is_always_active() {
    let cfg = cfg2();
    let mut genes = genes_of(&cfg, &[I_TO_O]);
    Gene::set_active_genes(&mut genes, &cfg);
    assert_eq!(active_flags(&genes), vec![true]);
}

#[test]
fn dangling_input_to_hidden_stays_inactive() {
    let cfg = cfg2();
    let mut genes = genes_of(&cfg, &[I_TO_H1]);
    Gene::set_active_genes(&mut genes, &cfg);
    assert_eq!(active_flags(&genes), vec![false]);
}

#[test]
fn two_hop_path_is_fully_active() {
    let cfg = cfg2();
    let mut genes = genes_of(&cfg, &[I_TO_H1, H1_TO_O]);
    Gene::set_active_genes(&mut genes, &cfg);
    assert_eq!(active_flags(&genes), vec![true, true]);
}

#[test]
fn hidden_chain_is_fully_active() {
    let cfg = cfg2();
    let mut genes = genes_of(&cfg, &[I_TO_H1, H1_TO_H2, H2_TO_O]);
    Gene::set_active_genes(&mut genes, &cfg);
    assert_eq!(active_flags(&genes), vec![true, true, true]);
}

#[test]
fn broken_chain_stays_inactive() {
    let cfg = cfg2();
    // No gene feeds hidden node 1 from an input, so nothing can activate.
    let mut genes = genes_of(&cfg, &[H1_TO_H2, H2_TO_O]);
    Gene::set_active_genes(&mut genes, &cfg);
    assert_eq!(active_flags(&genes), vec![false, false]);
}

#[test]
fn hidden_cycle_on_a_path_is_active() {
    let cfg = cfg2();
    // H1 and H2 feed each other; the cycle hangs off a complete path.
    let h2_to_h1: u32 = 0x81_80_0000;
    let mut genes = genes_of(&cfg, &[I_TO_H1, H1_TO_H2, h2_to_h1, H2_TO_O]);
    Gene::set_active_genes(&mut genes, &cfg);
    assert_eq!(active_flags(&genes), vec![true, true, true, true]);
}

#[test]
fn resolver_is_idempotent() {
    let cfg = cfg3();
    let dangling: u32 = 0x80_82_0000;  // H1 -> H3, and H3 has no outlet
    let mut genes = genes_of(&cfg, &[I_TO_H1, H1_TO_H2, H2_TO_O, dangling, I_TO_O]);
    Gene::set_active_genes(&mut genes, &cfg);
    let once = active_flags(&genes);
    Gene::set_active_genes(&mut genes, &cfg);
    let twice = active_flags(&genes);
    assert_eq!(once, twice);
    assert_eq!(once, vec![true, true, true, false, true]);
}

#[test]
fn resolver_keeps_gene_structure() {
    let cfg = cfg2();
    let mut genes = genes_of(&cfg, &[I_TO_H1, H1_TO_O, H1_TO_H2]);
    let before: Vec<(u32, usize, usize, i64)> =
        genes.iter().map(|g| (g.dna, g.source.idx, g.sink.idx, g.strength)).collect();
    Gene::set_active_genes(&mut genes, &cfg);
    let after: Vec<(u32, usize, usize, i64)> =
        genes.iter().map(|g| (g.dna, g.source.idx, g.sink.idx, g.strength)).collect();
    assert_eq!(before, after);
}

#[test]
fn genome_grows_complete_chromosomes() {
    let cfg = cfg2();
    let genome = Genome::new(&cfg);
    assert_eq!(genome.chromos.len(), 3);
    for chromo in genome.chromos.iter() {
        assert!(!chromo.genes.is_empty());
        // Chromosome mode is on: each chromosome resolves, in isolation, to
        // at least one locally active gene.
        assert!(chromo.genes.iter().any(|g| g.active));
    }
}

#[test]
fn genome_pools_all_chromosomes() {
    let cfg = cfg2();
    let genome = Genome::new(&cfg);
    let pooled: usize = genome.chromos.iter().map(|c| c.genes.len()).sum();
    assert_eq!(genome.genes.len(), pooled);
}

#[test]
fn pooling_can_activate_genes_no_chromosome_could() {
    let cfg = cfg2();
    // Each chromosome alone is an incomplete half of the path; it is padded
    // until complete, but the two halves complete each other once pooled.
    let a = Chromo { genes: genes_of(&cfg, &[I_TO_H1]) };
    let b = Chromo { genes: genes_of(&cfg, &[H1_TO_O]) };
    let genome = Genome::with_chromos(&cfg, vec![a, b]);
    assert_eq!(genome.genes.len(), 2);
    assert!(genome.genes[0].active);
    assert!(genome.genes[1].active);
    // The per-chromosome flags still record the local (failed) resolution.
    assert!(!genome.chromos[0].genes[0].active);
    assert!(!genome.chromos[1].genes[0].active);
}

#[test]
fn budding_mutates_locally_and_recompletes() {
    let cfg = cfg2();
    let genome = Genome::new(&cfg);
    let child = genome.bud(&cfg);
    assert_eq!(child.chromos.len(), genome.chromos.len());
    for (pc, cc) in genome.chromos.iter().zip(child.chromos.iter()) {
        assert!(cc.genes.len() >= pc.genes.len());
        for (pg, cg) in pc.genes.iter().zip(cc.genes.iter()) {
            assert!((pg.dna ^ cg.dna).count_ones() <= 2);
        }
        assert!(cc.genes.iter().any(|g| g.active));
    }
}

#[test]
fn brain_collects_the_active_subgraph() {
    let cfg = cfg2();
    let chromo = Chromo { genes: genes_of(&cfg, &[I_TO_H1, H1_TO_H2, H2_TO_O]) };
    let genome = Genome::with_chromos(&cfg, vec![chromo]);
    let brain = Brain::new(&cfg, &genome);

    assert_eq!(brain.inputs.len(), 1);
    assert_eq!(brain.inputs[0].idx, 0);

    assert_eq!(brain.nurons.len(), 2);
    assert_eq!(brain.nurons[0].node.idx, 1);
    assert_eq!(brain.nurons[1].node.idx, 2);
    assert_eq!(brain.nurons[0].incoming.len(), 1);
    assert_eq!(brain.nurons[0].incoming[0].dna, I_TO_H1);
    assert_eq!(brain.nurons[1].incoming.len(), 1);
    assert_eq!(brain.nurons[1].incoming[0].dna, H1_TO_H2);

    assert_eq!(brain.outputs.len(), 1);
    assert_eq!(brain.outputs[0].node.idx, 3);
    assert_eq!(brain.outputs[0].incoming.len(), 1);
    assert_eq!(brain.outputs[0].incoming[0].dna, H2_TO_O);

    assert_eq!(brain.node_state.len(), 4);
    assert!(brain.node_state.iter().all(|&s| s == 0));
}

#[test]
fn every_assembled_neuron_has_an_incoming_gene() {
    let cfg = cfg2();
    for _ in 0..20 {
        let genome = Genome::new(&cfg);
        let brain = Brain::new(&cfg, &genome);
        for nuron in brain.nurons.iter().chain(brain.outputs.iter()) {
            assert!(nuron.incoming.len() >= 1);
        }
    }
}

fn brain_shape(brain: &Brain) -> (Vec<usize>, Vec<(usize, Vec<u32>)>, Vec<(usize, Vec<u32>)>) {
    (
        brain.inputs.iter().map(|n| n.idx).collect(),
        brain
            .nurons
            .iter()
            .map(|n| (n.node.idx, n.incoming.iter().map(|g| g.dna).collect()))
            .collect(),
        brain
            .outputs
            .iter()
            .map(|n| (n.node.idx, n.incoming.iter().map(|g| g.dna).collect()))
            .collect(),
    )
}

#[test]
fn removing_an_inactive_gene_never_changes_the_brain() {
    let cfg = cfg3();
    let dangling: u32 = 0x80_82_0000;  // H1 -> H3, and H3 has no outlet
    let keys = [I_TO_H1, H1_TO_H2, dangling, H2_TO_O, I_TO_O];
    let full = Chromo { genes: genes_of(&cfg, &keys) };
    let genome = Genome::with_chromos(&cfg, vec![full]);
    let brain = Brain::new(&cfg, &genome);

    for i in 0..genome.genes.len() {
        if genome.genes[i].active {
            continue;
        }
        let mut fewer = genes_of(&cfg, &keys);
        fewer.remove(i);
        let reduced = Genome::with_chromos(&cfg, vec![Chromo { genes: fewer }]);
        let reduced_brain = Brain::new(&cfg, &reduced);
        assert_eq!(brain_shape(&brain), brain_shape(&reduced_brain));
    }
    // The scenario really exercises a removal: one gene is inactive.
    assert_eq!(genome.genes.iter().filter(|g| !g.active).count(), 1);
}
