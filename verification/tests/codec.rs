use gworld::genes::Gene;
use gworld::{Config, Node, NodeType};

fn test_config() -> Config {
    Config {
        verbose: "silent".to_string(),
        population: 10,
        lifespan: 5,
        genome_size: 3,
        use_chromo: true,
        independent: false,
        strength_mult: 4_000_000,
        inputs: vec!["A".to_string()],
        outputs: vec!["B".to_string()],
        neurons: 2,
    }
}

#[test]
fn decode_zero_key_is_input_to_output() {
    let cfg = test_config();
    let g = Gene::with_dna(&cfg, 0);
    assert_eq!(g.source.idx, 0);
    assert!(matches!(g.source.node_type, NodeType::INPUT));
    assert_eq!(g.sink.idx, 3);
    assert!(matches!(g.sink.node_type, NodeType::OUTPUT));
    assert_eq!(g.strength, 0);
    assert!(!g.active);
}

#[test]
fn decode_high_bits_select_hidden_zone() {
    let cfg = test_config();
    // Source byte 0x80: hidden node 1; sink byte 0x81: hidden node 2.
    let g = Gene::with_dna(&cfg, 0x80_81_0000);
    assert_eq!(g.source.idx, 1);
    assert!(matches!(g.source.node_type, NodeType::HIDDEN));
    assert_eq!(g.sink.idx, 2);
    assert!(matches!(g.sink.node_type, NodeType::HIDDEN));
}

#[test]
fn decode_folds_index_into_zone() {
    let cfg = test_config();
    // Source byte 0x05 folds 5 into the single input; sink byte 0x83 folds
    // 3 into the two hidden nodes (3 % 2 = 1, so hidden node at index 2).
    let g = Gene::with_dna(&cfg, 0x05_83_0000);
    assert_eq!(g.source.idx, 0);
    assert!(matches!(g.source.node_type, NodeType::INPUT));
    assert_eq!(g.sink.idx, 2);
    assert!(matches!(g.sink.node_type, NodeType::HIDDEN));
}

#[test]
fn decode_strength_scales_by_multiplier() {
    let cfg = test_config();
    // Raw 0x7fff is the largest positive strength: exactly the multiplier.
    assert_eq!(Gene::with_dna(&cfg, 0x0000_7fff).strength, 4_000_000);
    // Raw 0x8000 is the most negative: -32768 * 4e6 / 32767, truncated.
    assert_eq!(Gene::with_dna(&cfg, 0x0000_8000).strength, -4_000_122);
    // A raw 1 gives 4e6 / 32767, truncated.
    assert_eq!(Gene::with_dna(&cfg, 0x0000_0001).strength, 122);
}

#[test]
fn decode_determinism() {
    let cfg = test_config();
    let keys = [0u32, 0x80_81_0000, 0xdead_beef, 0xffff_ffff, 0x1234_5678];
    for &k in keys.iter() {
        let a = Gene::with_dna(&cfg, k);
        let b = Gene::with_dna(&cfg, k);
        assert_eq!(a.dna, b.dna);
        assert_eq!(a.source.idx, b.source.idx);
        assert_eq!(a.sink.idx, b.sink.idx);
        assert_eq!(a.strength, b.strength);
        assert_eq!(a.active, b.active);
    }
}

#[test]
fn decode_never_sources_an_output_or_sinks_an_input() {
    let cfg = test_config();
    let mut k: u64 = 0;
    while k <= 0xffff_ffff {
        let g = Gene::with_dna(&cfg, k as u32);
        assert!(!matches!(g.source.node_type, NodeType::OUTPUT));
        assert!(!matches!(g.sink.node_type, NodeType::INPUT));
        k += 0x0101_7fb3;
    }
}

#[test]
fn mutation_flips_at_most_two_bits() {
    let cfg = test_config();
    let g = Gene::with_dna(&cfg, 0x1234_5678);
    for _ in 0..200 {
        let m = g.mutate(&cfg);
        assert!((g.dna ^ m.dna).count_ones() <= 2);
        // The mutated gene is freshly decoded and inactive.
        assert!(!m.active);
        let again = Gene::with_dna(&cfg, m.dna);
        assert_eq!(m.source.idx, again.source.idx);
        assert_eq!(m.sink.idx, again.sink.idx);
        assert_eq!(m.strength, again.strength);
    }
}

#[test]
fn node_names_follow_the_zones() {
    let cfg = test_config();
    let input = Node { idx: 0, node_type: NodeType::INPUT };
    let hidden = Node { idx: 1, node_type: NodeType::HIDDEN };
    let output = Node { idx: 3, node_type: NodeType::OUTPUT };
    assert_eq!(input.get_name(&cfg), "A");
    assert_eq!(hidden.get_name(&cfg), "??");
    assert_eq!(output.get_name(&cfg), "B");
    assert!(input.is_input() && !input.is_hidden() && !input.is_output());
    assert!(hidden.is_hidden());
    assert!(output.is_output());
}

#[test]
fn node_count_spans_all_zones() {
    let cfg = test_config();
    assert_eq!(cfg.node_count(), 4);
}

#[test]
fn verbosity_levels() {
    let mut cfg = test_config();
    cfg.verbose = "Silent".to_string();
    assert!(!cfg.log("on"));
    assert!(!cfg.log("low"));
    assert!(!cfg.log("high"));

    cfg.verbose = "low".to_string();
    assert!(cfg.log("on"));
    assert!(cfg.log("LOW"));
    assert!(!cfg.log("high"));

    cfg.verbose = "HIGH".to_string();
    assert!(cfg.log("on"));
    assert!(cfg.log("low"));
    assert!(cfg.log("high"));

    cfg.verbose = "other".to_string();
    assert!(cfg.log("on"));
    assert!(!cfg.log("low"));
    assert!(!cfg.log("nonsense"));
}
