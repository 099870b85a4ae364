use vstd::prelude::*;

use crate::config::Config;
use crate::math::{div_trunc, tdiv};
use crate::node::{Node, NodeType};
use crate::rng::{random_below, random_u32};

verus! {

/// Divisor that maps the raw 16-bit strength field onto roughly one unit:
/// the largest positive value a signed 16-bit integer can hold.
pub const STRENGTH_DIV: i64 = 0x7fff;

/// A decoded edge of the network: a packed 32-bit key, the source and sink
/// nodes and the fixed-point strength read from it, and the flag that the
/// activation resolver maintains.
#[derive(Copy, Clone, Debug)]
pub struct Gene {
    pub dna: u32,
    pub active: bool,
    pub source: Node,
    pub sink: Node,
    pub strength: i64,
}

/// A gene endpoint is read from one byte of the key: the high bit switches
/// the byte's zone over to the hidden band, the remaining seven bits are
/// folded into the zone's node count.
pub open spec fn get_node_spec(cfg: Config, byte: u8, node_type: NodeType) -> Node {
    let t = if byte & 0x80 == 0x80 {
        NodeType::HIDDEN
    } else {
        node_type
    };
    let index = (byte & 0x7f) as int;
    match t {
        NodeType::INPUT => Node {
            idx: (index % cfg.inputs@.len() as int) as usize,
            node_type: t,
        },
        NodeType::HIDDEN => Node {
            idx: (cfg.inputs@.len() + (index % cfg.neurons as int)) as usize,
            node_type: t,
        },
        NodeType::OUTPUT => Node {
            idx: (cfg.inputs@.len() + cfg.neurons + (index % cfg.outputs@.len() as int)) as usize,
            node_type: t,
        },
    }
}

/// The source is read from the key's top byte, defaulting to the input zone.
pub open spec fn source_spec(cfg: Config, dna: u32) -> Node {
    get_node_spec(cfg, ((dna >> 24) & 0xff) as u8, NodeType::INPUT)
}

/// The sink is read from the key's second byte, defaulting to the output
/// zone.
pub open spec fn sink_spec(cfg: Config, dna: u32) -> Node {
    get_node_spec(cfg, ((dna >> 16) & 0xff) as u8, NodeType::OUTPUT)
}

/// The key's low 16 bits, reinterpreted as a signed quantity.
pub open spec fn raw_strength(dna: u32) -> int {
    let v = (dna & 0xffff) as int;
    if v < 0x8000 {
        v
    } else {
        v - 0x10000
    }
}

/// The strength is the raw signed 16-bit field scaled by the configured
/// multiplier, truncated like hardware division.
pub open spec fn strength_spec(cfg: Config, dna: u32) -> int {
    tdiv(raw_strength(dna) * cfg.strength_mult, STRENGTH_DIV as int)
}

/// What decoding a key yields.  Freshly decoded genes are always inactive.
pub open spec fn decode_spec(cfg: Config, dna: u32) -> Gene {
    Gene {
        dna,
        active: false,
        source: source_spec(cfg, dna),
        sink: sink_spec(cfg, dna),
        strength: strength_spec(cfg, dna) as i64,
    }
}

impl Gene {
    /// The gene's fields are exactly what its key decodes to — only the
    /// active flag is free — and both endpoints lie in their zones.
    pub open spec fn wf(self, cfg: Config) -> bool {
        &&& Gene { active: false, ..self } == decode_spec(cfg, self.dna)
        &&& self.source.wf(cfg)
        &&& self.sink.wf(cfg)
    }
}

/// A decoded strength stays well inside the `i64` range.
pub proof fn lemma_strength_bounds(cfg: Config, dna: u32)
    requires
        cfg.wf(),
    ensures
        -0x8000 * (crate::config::MAX_STRENGTH_MULT as int) <= strength_spec(cfg, dna) <= 0x8000
            * (crate::config::MAX_STRENGTH_MULT as int),
{
    let r = raw_strength(dna);
    let m = cfg.strength_mult as int;
    let b = 0x8000 * (crate::config::MAX_STRENGTH_MULT as int);
    assert(0 <= (dna & 0xffff) < 0x10000) by (bit_vector);
    assert(-0x8000 <= r <= 0x7fff);
    assert(-b <= r * m <= b) by (nonlinear_arith)
        requires
            -0x8000 <= r <= 0x7fff,
            -(crate::config::MAX_STRENGTH_MULT as int) <= m <= (
            crate::config::MAX_STRENGTH_MULT as int),
            b == 0x8000 * (crate::config::MAX_STRENGTH_MULT as int),
    ;
    let p = r * m;
    if p >= 0 {
        vstd::arithmetic::div_mod::lemma_div_is_ordered(p, b, STRENGTH_DIV as int);
        vstd::arithmetic::div_mod::lemma_div_pos_is_pos(p, STRENGTH_DIV as int);
        assert(b / (STRENGTH_DIV as int) <= b);
    } else {
        vstd::arithmetic::div_mod::lemma_div_is_ordered(-p, b, STRENGTH_DIV as int);
        vstd::arithmetic::div_mod::lemma_div_pos_is_pos(-p, STRENGTH_DIV as int);
        assert(b / (STRENGTH_DIV as int) <= b);
    }
}

impl Gene {
    /// Reads one endpoint out of an endpoint byte, as `get_node_spec` says.
    pub fn get_node(cfg: &Config, byte: u8, node_type: NodeType) -> (r: Node)
        requires
            cfg.wf(),
            node_type != NodeType::HIDDEN,
        ensures
            r == get_node_spec(*cfg, byte, node_type),
            r.wf(*cfg),
    {
        let t = if 0x80 == (byte & 0x80) {
            NodeType::HIDDEN
        } else {
            node_type
        };
        let index = (byte & 0x7f) as usize;
        let idx = match t {
            NodeType::INPUT => index % cfg.inputs.len(),
            NodeType::HIDDEN => cfg.inputs.len() + (index % cfg.neurons),
            NodeType::OUTPUT => cfg.inputs.len() + cfg.neurons + (index % cfg.outputs.len()),
        };
        Node { idx, node_type: t }
    }

    /// Decodes the source endpoint from a key's top byte.
    pub fn get_source(cfg: &Config, dna: u32) -> (r: Node)
        requires
            cfg.wf(),
        ensures
            r == source_spec(*cfg, dna),
            r.wf(*cfg),
    {
        proof {
            assert((dna >> 24) & 0xff < 256) by (bit_vector);
        }
        let byte = ((dna >> 24) & 0xff) as u8;
        Gene::get_node(cfg, byte, NodeType::INPUT)
    }

    /// Decodes the sink endpoint from a key's second byte.
    pub fn get_sink(cfg: &Config, dna: u32) -> (r: Node)
        requires
            cfg.wf(),
        ensures
            r == sink_spec(*cfg, dna),
            r.wf(*cfg),
    {
        proof {
            assert((dna >> 16) & 0xff < 256) by (bit_vector);
        }
        let byte = ((dna >> 16) & 0xff) as u8;
        Gene::get_node(cfg, byte, NodeType::OUTPUT)
    }

    /// Scales the key's low 16 bits, read as signed, by the configured
    /// multiplier.
    pub fn get_strength(cfg: &Config, dna: u32) -> (r: i64)
        requires
            cfg.wf(),
        ensures
            r == strength_spec(*cfg, dna),
    {
        proof {
            assert(dna & 0xffff < 0x10000) by (bit_vector);
        }
        let raw_u = (dna & 0xffff) as u16;
        let raw: i64 = if raw_u < 0x8000 {
            raw_u as i64
        } else {
            raw_u as i64 - 0x10000
        };
        proof {
            assert(raw * cfg.strength_mult <= 0x8000 * (crate::config::MAX_STRENGTH_MULT as int)
                && raw * cfg.strength_mult >= -0x8000 * (
            crate::config::MAX_STRENGTH_MULT as int)) by (nonlinear_arith)
                requires
                    -0x8000 <= raw <= 0x7fff,
                    -(crate::config::MAX_STRENGTH_MULT as int) <= cfg.strength_mult <= (
                    crate::config::MAX_STRENGTH_MULT as int),
            ;
        }
        div_trunc(raw * cfg.strength_mult, STRENGTH_DIV)
    }

    /// Decodes a key into a gene.  Decoding is pure: the same key and
    /// topology configuration always yield the same source, sink and
    /// strength.  The new gene is inactive.
    pub fn with_dna(cfg: &Config, dna: u32) -> (r: Gene)
        requires
            cfg.wf(),
        ensures
            r == decode_spec(*cfg, dna),
            r.wf(*cfg),
            !r.active,
    {
        let source = Gene::get_source(cfg, dna);
        let sink = Gene::get_sink(cfg, dna);
        let strength = Gene::get_strength(cfg, dna);
        let g = Gene { dna, active: false, source, sink, strength };
        proof {
            lemma_strength_bounds(*cfg, dna);
            assert(g == decode_spec(*cfg, dna));
        }
        g
    }

    /// A gene with a fresh random key.
    pub fn new(cfg: &Config) -> (r: Gene)
        requires
            cfg.wf(),
        ensures
            r == decode_spec(*cfg, r.dna),
            r.wf(*cfg),
            !r.active,
    {
        let dna = random_u32();
        Gene::with_dna(cfg, dna)
    }

    /// Returns a mutated copy: two independently chosen bit positions of the
    /// key are flipped (they may coincide, which leaves the key unchanged —
    /// accepted behavior), and the result is re-decoded.
    pub fn mutate(&self, cfg: &Config) -> (r: Gene)
        requires
            cfg.wf(),
        ensures
            r == decode_spec(*cfg, r.dna),
            r.wf(*cfg),
            !r.active,
            mutated_key(self.dna, r.dna),
    {
        let b1 = random_below(32) as u32;
        let b2 = random_below(32) as u32;
        let dna = self.dna ^ (1u32 << b1) ^ (1u32 << b2);
        proof {
            assert(mutated_key(self.dna, dna)) by {
                assert(b1 < 32 && b2 < 32 && dna == self.dna ^ (1u32 << b1) ^ (1u32 << b2));
            }
        }
        Gene::with_dna(cfg, dna)
    }
}

/// The second key arises from the first by flipping two (not necessarily
/// distinct) bit positions.
pub open spec fn mutated_key(dna: u32, m: u32) -> bool {
    exists|b1: u32, b2: u32|
        b1 < 32 && b2 < 32 && m == dna ^ (1u32 << b1) ^ (1u32 << b2)
}

/// Mutation locality: flipping bit positions `b1` and `b2` leaves every
/// other bit of the key as it was, so a mutated key differs from its parent
/// in at most two positions.
pub proof fn lemma_mutation_locality(dna: u32, b1: u32, b2: u32)
    requires
        b1 < 32,
        b2 < 32,
    ensures
        forall|j: u32|
            j < 32 && j != b1 && j != b2 ==> (((dna ^ (1u32 << b1) ^ (1u32 << b2)) >> j) & 1) == ((
            dna >> j) & 1),
{
    assert(forall|j: u32|
        j < 32 && j != b1 && j != b2 ==> (((dna ^ (1u32 << b1) ^ (1u32 << b2)) >> j) & 1) == ((dna
            >> j) & 1)) by (bit_vector)
        requires
            b1 < 32 && b2 < 32,
    ;
}

// === Activation resolution ===
//
// Active genes are exactly those lying on some input-to-output path, with
// hidden-to-hidden chains of any length allowed in the middle.  Two
// independent reachability fixpoints over the hidden zone decide this:
// `sourcing[n]` says a signal from an input can reach node `n`, `sinking[n]`
// says a signal leaving node `n` can reach an output.

/// A hidden-to-hidden edge.
pub open spec fn is_hh(g: Gene) -> bool {
    g.source.node_type == NodeType::HIDDEN && g.sink.node_type == NodeType::HIDDEN
}

/// Some gene feeds node `n` directly from an input.
pub open spec fn seed_src(gs: Seq<Gene>, n: int) -> bool {
    exists|i: int|
        0 <= i < gs.len() && gs[i].source.node_type == NodeType::INPUT && gs[i].sink.idx == n
}

/// Some gene drains node `n` directly into an output.
pub open spec fn seed_snk(gs: Seq<Gene>, n: int) -> bool {
    exists|i: int|
        0 <= i < gs.len() && gs[i].sink.node_type == NodeType::OUTPUT && gs[i].source.idx == n
}

/// An input signal reaches node `n` in at most `k` hidden-to-hidden hops.
pub open spec fn src_reach(gs: Seq<Gene>, n: int, k: nat) -> bool
    decreases k,
{
    seed_src(gs, n) || (k > 0 && exists|i: int|
        0 <= i < gs.len() && is_hh(gs[i]) && gs[i].sink.idx == n && src_reach(
            gs,
            gs[i].source.idx as int,
            (k - 1) as nat,
        ))
}

/// A signal leaving node `n` reaches an output in at most `k` hops.
pub open spec fn snk_reach(gs: Seq<Gene>, n: int, k: nat) -> bool
    decreases k,
{
    seed_snk(gs, n) || (k > 0 && exists|i: int|
        0 <= i < gs.len() && is_hh(gs[i]) && gs[i].source.idx == n && snk_reach(
            gs,
            gs[i].sink.idx as int,
            (k - 1) as nat,
        ))
}

/// Node `n` is fed, possibly through hidden chains, from some input.
pub open spec fn sourcing(gs: Seq<Gene>, n: int) -> bool {
    exists|k: nat| src_reach(gs, n, k)
}

/// Node `n` drains, possibly through hidden chains, into some output.
pub open spec fn sinking(gs: Seq<Gene>, n: int) -> bool {
    exists|k: nat| snk_reach(gs, n, k)
}

/// The activation rule by endpoint kinds: a gene is active exactly when it
/// lies on some input-to-output path.
pub open spec fn active_rule(gs: Seq<Gene>, g: Gene) -> bool {
    if g.source.node_type == NodeType::INPUT && g.sink.node_type == NodeType::OUTPUT {
        true
    } else if g.source.node_type == NodeType::INPUT && g.sink.node_type == NodeType::HIDDEN {
        sinking(gs, g.sink.idx as int)
    } else if is_hh(g) {
        sourcing(gs, g.source.idx as int) && sinking(gs, g.sink.idx as int)
    } else if g.source.node_type == NodeType::HIDDEN && g.sink.node_type == NodeType::OUTPUT {
        sourcing(gs, g.source.idx as int)
    } else {
        false
    }
}

/// Two genes with the same key, endpoints and strength; the active flag is
/// left free.
pub open spec fn same_structure_gene(a: Gene, b: Gene) -> bool {
    a.dna == b.dna && a.source == b.source && a.sink == b.sink && a.strength == b.strength
}

/// Two gene sequences that agree everywhere except possibly on active flags.
pub open spec fn same_structure(a: Seq<Gene>, b: Seq<Gene>) -> bool {
    a.len() == b.len() && forall|i: int| 0 <= i < a.len() ==> same_structure_gene(a[i], b[i])
}

/// What one resolver run does: it keeps every gene's structure and sets its
/// active flag to the activation rule evaluated on the incoming sequence.
pub open spec fn resolver_rel(pre: Seq<Gene>, post: Seq<Gene>) -> bool {
    same_structure(pre, post) && forall|i: int|
        0 <= i < post.len() ==> post[i].active == active_rule(pre, pre[i])
}

/// A gene sequence whose active flags agree with the activation rule.
pub open spec fn resolved(gs: Seq<Gene>) -> bool {
    forall|i: int| 0 <= i < gs.len() ==> gs[i].active == active_rule(gs, gs[i])
}

/// How many entries of a boolean sequence are set.
pub closed spec fn count_true(s: Seq<bool>) -> int
    decreases s.len(),
{
    if s.len() == 0 {
        0
    } else {
        count_true(s.drop_last()) + (if s.last() {
            1int
        } else {
            0int
        })
    }
}

proof fn lemma_count_true_bound(s: Seq<bool>)
    ensures
        0 <= count_true(s) <= s.len(),
    decreases s.len(),
{
    if s.len() > 0 {
        lemma_count_true_bound(s.drop_last());
    }
}

proof fn lemma_count_true_update(s: Seq<bool>, i: int)
    requires
        0 <= i < s.len(),
        !s[i],
    ensures
        count_true(s.update(i, true)) == count_true(s) + 1,
    decreases s.len(),
{
    let t = s.update(i, true);
    if i == s.len() - 1 {
        assert(t.drop_last() =~= s.drop_last());
    } else {
        assert(t.drop_last() =~= s.drop_last().update(i, true));
        lemma_count_true_update(s.drop_last(), i);
        assert(t.last() == s.last());
    }
}

/// One forward hop: a hidden-to-hidden edge carries `sourcing` from its
/// source to its sink.
pub proof fn lemma_src_step(gs: Seq<Gene>, i: int)
    requires
        0 <= i < gs.len(),
        is_hh(gs[i]),
        sourcing(gs, gs[i].source.idx as int),
    ensures
        sourcing(gs, gs[i].sink.idx as int),
{
    let k = choose|k: nat| src_reach(gs, gs[i].source.idx as int, k);
    assert(src_reach(gs, gs[i].sink.idx as int, k + 1));
}

/// One backward hop: a hidden-to-hidden edge carries `sinking` from its sink
/// to its source.
pub proof fn lemma_snk_step(gs: Seq<Gene>, i: int)
    requires
        0 <= i < gs.len(),
        is_hh(gs[i]),
        sinking(gs, gs[i].sink.idx as int),
    ensures
        sinking(gs, gs[i].source.idx as int),
{
    let k = choose|k: nat| snk_reach(gs, gs[i].sink.idx as int, k);
    assert(snk_reach(gs, gs[i].source.idx as int, k + 1));
}

/// Any set of flags that contains the seeds and is closed under forward
/// hops contains everything `sourcing` reaches.
proof fn lemma_src_closed(gs: Seq<Gene>, v: Seq<bool>, n: int, k: nat)
    requires
        forall|j: int|
            0 <= j < gs.len() && gs[j].source.node_type == NodeType::INPUT ==> 0 <= gs[j].sink.idx
                < v.len() && v[gs[j].sink.idx as int],
        forall|j: int|
            0 <= j < gs.len() && is_hh(gs[j]) && 0 <= gs[j].source.idx < v.len()
                && v[gs[j].source.idx as int] ==> 0 <= gs[j].sink.idx < v.len() && v[gs[j].sink.idx
                as int],
        src_reach(gs, n, k),
    ensures
        0 <= n < v.len() && v[n],
    decreases k,
{
    if seed_src(gs, n) {
        let j = choose|j: int|
            0 <= j < gs.len() && gs[j].source.node_type == NodeType::INPUT && gs[j].sink.idx == n;
        assert(v[n]);
    } else {
        let i = choose|i: int|
            0 <= i < gs.len() && is_hh(gs[i]) && gs[i].sink.idx == n && src_reach(
                gs,
                gs[i].source.idx as int,
                (k - 1) as nat,
            );
        lemma_src_closed(gs, v, gs[i].source.idx as int, (k - 1) as nat);
    }
}

/// The backward counterpart of `lemma_src_closed`.
proof fn lemma_snk_closed(gs: Seq<Gene>, v: Seq<bool>, n: int, k: nat)
    requires
        forall|j: int|
            0 <= j < gs.len() && gs[j].sink.node_type == NodeType::OUTPUT ==> 0 <= gs[j].source.idx
                < v.len() && v[gs[j].source.idx as int],
        forall|j: int|
            0 <= j < gs.len() && is_hh(gs[j]) && 0 <= gs[j].sink.idx < v.len() && v[gs[j].sink.idx
                as int] ==> 0 <= gs[j].source.idx < v.len() && v[gs[j].source.idx as int],
        snk_reach(gs, n, k),
    ensures
        0 <= n < v.len() && v[n],
    decreases k,
{
    if seed_snk(gs, n) {
        let j = choose|j: int|
            0 <= j < gs.len() && gs[j].sink.node_type == NodeType::OUTPUT && gs[j].source.idx == n;
        assert(v[n]);
    } else {
        let i = choose|i: int|
            0 <= i < gs.len() && is_hh(gs[i]) && gs[i].source.idx == n && snk_reach(
                gs,
                gs[i].sink.idx as int,
                (k - 1) as nat,
            );
        lemma_snk_closed(gs, v, gs[i].sink.idx as int, (k - 1) as nat);
    }
}

/// A vector of `n` cleared flags.
fn make_bool_vec(n: usize) -> (r: Vec<bool>)
    ensures
        r@.len() == n,
        forall|i: int| 0 <= i < n ==> !r@[i],
{
    let mut v: Vec<bool> = Vec::new();
    let mut i: usize = 0;
    while i < n
        invariant
            i <= n,
            v@.len() == i,
            forall|j: int| 0 <= j < i ==> !v@[j],
        decreases n - i,
    {
        v.push(false);
        i = i + 1;
    }
    v
}

/// Drives the forward fixpoint to completion: scan the hidden-to-hidden
/// edges, carrying flags from sources to sinks, until one full pass adds
/// nothing.
fn propagate_sourcing(genes: &Vec<Gene>, v: &mut Vec<bool>, cfg: &Config)
    requires
        cfg.wf(),
        forall|i: int| 0 <= i < genes@.len() ==> (#[trigger] genes@[i]).wf(*cfg),
        old(v)@.len() == cfg.node_count_spec(),
        forall|nd: int| 0 <= nd < old(v)@.len() && old(v)@[nd] ==> sourcing(genes@, nd),
        forall|j: int|
            0 <= j < genes@.len() && (#[trigger] genes@[j]).source.node_type == NodeType::INPUT
                ==> old(v)@[genes@[j].sink.idx as int],
    ensures
        final(v)@.len() == old(v)@.len(),
        forall|nd: int| 0 <= nd < final(v)@.len() ==> final(v)@[nd] == sourcing(genes@, nd),
{
    let glen = genes.len();
    let n = v.len();
    proof {
        lemma_count_true_bound(v@);
    }
    loop
        invariant
            v@.len() == n,
            glen == genes@.len(),
            cfg.wf(),
            n == cfg.node_count_spec(),
            0 <= count_true(v@) <= n,
            forall|i: int| 0 <= i < genes@.len() ==> (#[trigger] genes@[i]).wf(*cfg),
            forall|nd: int| 0 <= nd < n && v@[nd] ==> sourcing(genes@, nd),
            forall|j: int|
                0 <= j < genes@.len() && (#[trigger] genes@[j]).source.node_type == NodeType::INPUT
                    ==> v@[genes@[j].sink.idx as int],
        ensures
            v@.len() == n,
            forall|nd: int| 0 <= nd < n ==> v@[nd] == sourcing(genes@, nd),
        decreases n - count_true(v@),
    {
        let mut changed = false;
        let ghost v0 = v@;
        let mut j: usize = 0;
        while j < glen
            invariant
                v@.len() == n,
                glen == genes@.len(),
                cfg.wf(),
                n == cfg.node_count_spec(),
                j <= glen,
                0 <= count_true(v@) <= n,
                forall|i: int| 0 <= i < genes@.len() ==> (#[trigger] genes@[i]).wf(*cfg),
                forall|nd: int| 0 <= nd < n && v@[nd] ==> sourcing(genes@, nd),
                forall|jj: int|
                    0 <= jj < genes@.len() && (#[trigger] genes@[jj]).source.node_type
                        == NodeType::INPUT ==> v@[genes@[jj].sink.idx as int],
                forall|nd: int| 0 <= nd < n && v0[nd] ==> v@[nd],
                !changed ==> v@ == v0,
                changed ==> count_true(v@) > count_true(v0),
                !changed ==> forall|jj: int|
                    0 <= jj < j && is_hh(#[trigger] genes@[jj]) && v0[genes@[jj].source.idx as int]
                        ==> v0[genes@[jj].sink.idx as int],
            decreases glen - j,
        {
            let g = genes[j];
            if g.source.is_hidden() && g.sink.is_hidden() {
                if v[g.source.idx] && !v[g.sink.idx] {
                    proof {
                        lemma_count_true_update(v@, g.sink.idx as int);
                        lemma_count_true_bound(v@.update(g.sink.idx as int, true));
                        lemma_src_step(genes@, j as int);
                    }
                    v.set(g.sink.idx, true);
                    changed = true;
                }
            }
            j = j + 1;
        }
        if !changed {
            proof {
                assert forall|nd: int| 0 <= nd < n && sourcing(genes@, nd) implies v@[nd] by {
                    let k = choose|k: nat| src_reach(genes@, nd, k);
                    lemma_src_closed(genes@, v@, nd, k);
                }
            }
            break;
        }
    }
}

/// Drives the backward fixpoint to completion, carrying flags from sinks to
/// sources.
fn propagate_sinking(genes: &Vec<Gene>, v: &mut Vec<bool>, cfg: &Config)
    requires
        cfg.wf(),
        forall|i: int| 0 <= i < genes@.len() ==> (#[trigger] genes@[i]).wf(*cfg),
        old(v)@.len() == cfg.node_count_spec(),
        forall|nd: int| 0 <= nd < old(v)@.len() && old(v)@[nd] ==> sinking(genes@, nd),
        forall|j: int|
            0 <= j < genes@.len() && (#[trigger] genes@[j]).sink.node_type == NodeType::OUTPUT
                ==> old(v)@[genes@[j].source.idx as int],
    ensures
        final(v)@.len() == old(v)@.len(),
        forall|nd: int| 0 <= nd < final(v)@.len() ==> final(v)@[nd] == sinking(genes@, nd),
{
    let glen = genes.len();
    let n = v.len();
    proof {
        lemma_count_true_bound(v@);
    }
    loop
        invariant
            v@.len() == n,
            glen == genes@.len(),
            cfg.wf(),
            n == cfg.node_count_spec(),
            0 <= count_true(v@) <= n,
            forall|i: int| 0 <= i < genes@.len() ==> (#[trigger] genes@[i]).wf(*cfg),
            forall|nd: int| 0 <= nd < n && v@[nd] ==> sinking(genes@, nd),
            forall|j: int|
                0 <= j < genes@.len() && (#[trigger] genes@[j]).sink.node_type == NodeType::OUTPUT
                    ==> v@[genes@[j].source.idx as int],
        ensures
            v@.len() == n,
            forall|nd: int| 0 <= nd < n ==> v@[nd] == sinking(genes@, nd),
        decreases n - count_true(v@),
    {
        let mut changed = false;
        let ghost v0 = v@;
        let mut j: usize = 0;
        while j < glen
            invariant
                v@.len() == n,
                glen == genes@.len(),
                cfg.wf(),
                n == cfg.node_count_spec(),
                j <= glen,
                0 <= count_true(v@) <= n,
                forall|i: int| 0 <= i < genes@.len() ==> (#[trigger] genes@[i]).wf(*cfg),
                forall|nd: int| 0 <= nd < n && v@[nd] ==> sinking(genes@, nd),
                forall|jj: int|
                    0 <= jj < genes@.len() && (#[trigger] genes@[jj]).sink.node_type
                        == NodeType::OUTPUT ==> v@[genes@[jj].source.idx as int],
                forall|nd: int| 0 <= nd < n && v0[nd] ==> v@[nd],
                !changed ==> v@ == v0,
                changed ==> count_true(v@) > count_true(v0),
                !changed ==> forall|jj: int|
                    0 <= jj < j && is_hh(#[trigger] genes@[jj]) && v0[genes@[jj].sink.idx as int]
                        ==> v0[genes@[jj].source.idx as int],
            decreases glen - j,
        {
            let g = genes[j];
            if g.source.is_hidden() && g.sink.is_hidden() {
                if v[g.sink.idx] && !v[g.source.idx] {
                    proof {
                        lemma_count_true_update(v@, g.source.idx as int);
                        lemma_count_true_bound(v@.update(g.source.idx as int, true));
                        lemma_snk_step(genes@, j as int);
                    }
                    v.set(g.source.idx, true);
                    changed = true;
                }
            }
            j = j + 1;
        }
        if !changed {
            proof {
                assert forall|nd: int| 0 <= nd < n && sinking(genes@, nd) implies v@[nd] by {
                    let k = choose|k: nat| snk_reach(genes@, nd, k);
                    lemma_snk_closed(genes@, v@, nd, k);
                }
            }
            break;
        }
    }
}

impl Gene {
    /// Sets every gene's active flag so that active genes are exactly those
    /// lying on some input-to-output path through the pooled sequence.  The
    /// genes' structure (key, endpoints, strength) is untouched.
    pub fn set_active_genes(genes: &mut Vec<Gene>, cfg: &Config)
        requires
            cfg.wf(),
            forall|i: int| 0 <= i < old(genes)@.len() ==> (#[trigger] old(genes)@[i]).wf(*cfg),
        ensures
            resolver_rel(old(genes)@, final(genes)@),
            forall|i: int| 0 <= i < final(genes)@.len() ==> (#[trigger] final(genes)@[i]).wf(*cfg),
    {
        let ghost gs0 = genes@;
        let n = cfg.node_count();
        let mut sourcing_v = make_bool_vec(n);
        let mut sinking_v = make_bool_vec(n);

        // Seed the direct connections: nodes fed straight from an input,
        // nodes draining straight into an output.
        let glen = genes.len();
        let mut i: usize = 0;
        while i < glen
            invariant
                genes@ == gs0,
                glen == gs0.len(),
                i <= glen,
                cfg.wf(),
                n == cfg.node_count_spec(),
                forall|j: int| 0 <= j < gs0.len() ==> (#[trigger] gs0[j]).wf(*cfg),
                sourcing_v@.len() == n,
                sinking_v@.len() == n,
                forall|nd: int| 0 <= nd < n && sourcing_v@[nd] ==> seed_src(gs0, nd),
                forall|nd: int| 0 <= nd < n && sinking_v@[nd] ==> seed_snk(gs0, nd),
                forall|j: int|
                    0 <= j < i && (#[trigger] gs0[j]).source.node_type == NodeType::INPUT
                        ==> sourcing_v@[gs0[j].sink.idx as int],
                forall|j: int|
                    0 <= j < i && (#[trigger] gs0[j]).sink.node_type == NodeType::OUTPUT
                        ==> sinking_v@[gs0[j].source.idx as int],
            decreases glen - i,
        {
            let g = genes[i];
            if g.source.is_input() {
                sourcing_v.set(g.sink.idx, true);
            }
            if g.sink.is_output() {
                sinking_v.set(g.source.idx, true);
            }
            i = i + 1;
        }
        proof {
            assert forall|nd: int| 0 <= nd < n && sourcing_v@[nd] implies sourcing(gs0, nd) by {
                assert(src_reach(gs0, nd, 0));
            }
            assert forall|nd: int| 0 <= nd < n && sinking_v@[nd] implies sinking(gs0, nd) by {
                assert(snk_reach(gs0, nd, 0));
            }
        }
        propagate_sourcing(genes, &mut sourcing_v, cfg);
        propagate_sinking(genes, &mut sinking_v, cfg);

        // Activate every gene connected to both a source-side and a
        // sink-side path, by the rule for its endpoint kinds.
        let mut i: usize = 0;
        while i < glen
            invariant
                glen == gs0.len(),
                genes@.len() == gs0.len(),
                i <= glen,
                cfg.wf(),
                n == cfg.node_count_spec(),
                forall|j: int| 0 <= j < gs0.len() ==> (#[trigger] gs0[j]).wf(*cfg),
                sourcing_v@.len() == n,
                sinking_v@.len() == n,
                forall|nd: int| 0 <= nd < n ==> sourcing_v@[nd] == sourcing(gs0, nd),
                forall|nd: int| 0 <= nd < n ==> sinking_v@[nd] == sinking(gs0, nd),
                forall|j: int| i <= j < gs0.len() ==> genes@[j] == gs0[j],
                forall|j: int|
                    0 <= j < i ==> same_structure_gene(#[trigger] genes@[j], gs0[j])
                        && genes@[j].active == active_rule(gs0, gs0[j]),
            decreases glen - i,
        {
            let g = genes[i];
            proof {
                assert(g == gs0[i as int]);
                assert(gs0[i as int].wf(*cfg));
                assert(g.sink.node_type == NodeType::HIDDEN ==> g.sink.idx < n);
                assert(g.source.node_type == NodeType::HIDDEN ==> g.source.idx < n);
            }
            let mut active = false;
            if g.source.is_input() && g.sink.is_output() {
                active = true;
            } else if g.source.is_input() && g.sink.is_hidden() {
                active = sinking_v[g.sink.idx];
            } else if g.source.is_hidden() && g.sink.is_hidden() {
                active = sourcing_v[g.source.idx] && sinking_v[g.sink.idx];
            } else if g.source.is_hidden() && g.sink.is_output() {
                active = sourcing_v[g.source.idx];
            }
            genes.set(
                i,
                Gene {
                    dna: g.dna,
                    active,
                    source: g.source,
                    sink: g.sink,
                    strength: g.strength,
                },
            );
            i = i + 1;
        }
        proof {
            let gfin = genes@;
            assert forall|j: int| 0 <= j < gfin.len() implies (#[trigger] gfin[j]).wf(*cfg) by {
                assert(same_structure_gene(gfin[j], gs0[j]));
                assert(Gene { active: false, ..gfin[j] } == Gene { active: false, ..gs0[j] });
            }
        }
    }
}

// === Laws of the resolver ===

/// No gene uses an output as its source or an input as its sink.
pub open spec fn genes_directed(gs: Seq<Gene>) -> bool {
    forall|i: int|
        0 <= i < gs.len() ==> (#[trigger] gs[i]).source.node_type != NodeType::OUTPUT
            && gs[i].sink.node_type != NodeType::INPUT
}

/// Decoding never produces an output-as-source or input-as-sink edge.
pub proof fn lemma_wf_genes_directed(gs: Seq<Gene>, cfg: Config)
    requires
        forall|i: int| 0 <= i < gs.len() ==> (#[trigger] gs[i]).wf(cfg),
    ensures
        genes_directed(gs),
{
    assert forall|i: int|
        0 <= i < gs.len() implies (#[trigger] gs[i]).source.node_type != NodeType::OUTPUT
        && gs[i].sink.node_type != NodeType::INPUT by {
        assert(gs[i].source == source_spec(cfg, gs[i].dna));
        assert(gs[i].sink == sink_spec(cfg, gs[i].dna));
    }
}

/// Reachability reads only gene structure, never active flags.
proof fn lemma_reach_same_structure(a: Seq<Gene>, b: Seq<Gene>, n: int, k: nat)
    requires
        same_structure(a, b),
    ensures
        src_reach(a, n, k) == src_reach(b, n, k),
        snk_reach(a, n, k) == snk_reach(b, n, k),
    decreases k,
{
    assert(seed_src(a, n) == seed_src(b, n)) by {
        if seed_src(a, n) {
            let j = choose|j: int|
                0 <= j < a.len() && a[j].source.node_type == NodeType::INPUT && a[j].sink.idx == n;
            assert(same_structure_gene(a[j], b[j]));
            assert(seed_src(b, n));
        }
        if seed_src(b, n) {
            let j = choose|j: int|
                0 <= j < b.len() && b[j].source.node_type == NodeType::INPUT && b[j].sink.idx == n;
            assert(same_structure_gene(a[j], b[j]));
            assert(seed_src(a, n));
        }
    }
    assert(seed_snk(a, n) == seed_snk(b, n)) by {
        if seed_snk(a, n) {
            let j = choose|j: int|
                0 <= j < a.len() && a[j].sink.node_type == NodeType::OUTPUT && a[j].source.idx == n;
            assert(same_structure_gene(a[j], b[j]));
            assert(seed_snk(b, n));
        }
        if seed_snk(b, n) {
            let j = choose|j: int|
                0 <= j < b.len() && b[j].sink.node_type == NodeType::OUTPUT && b[j].source.idx == n;
            assert(same_structure_gene(a[j], b[j]));
            assert(seed_snk(a, n));
        }
    }
    if k > 0 {
        if src_reach(a, n, k) && !seed_src(a, n) {
            let i = choose|i: int|
                0 <= i < a.len() && is_hh(a[i]) && a[i].sink.idx == n && src_reach(
                    a,
                    a[i].source.idx as int,
                    (k - 1) as nat,
                );
            assert(same_structure_gene(a[i], b[i]));
            lemma_reach_same_structure(a, b, a[i].source.idx as int, (k - 1) as nat);
            assert(src_reach(b, n, k));
        }
        if src_reach(b, n, k) && !seed_src(b, n) {
            let i = choose|i: int|
                0 <= i < b.len() && is_hh(b[i]) && b[i].sink.idx == n && src_reach(
                    b,
                    b[i].source.idx as int,
                    (k - 1) as nat,
                );
            assert(same_structure_gene(a[i], b[i]));
            lemma_reach_same_structure(a, b, b[i].source.idx as int, (k - 1) as nat);
            assert(src_reach(a, n, k));
        }
        if snk_reach(a, n, k) && !seed_snk(a, n) {
            let i = choose|i: int|
                0 <= i < a.len() && is_hh(a[i]) && a[i].source.idx == n && snk_reach(
                    a,
                    a[i].sink.idx as int,
                    (k - 1) as nat,
                );
            assert(same_structure_gene(a[i], b[i]));
            lemma_reach_same_structure(a, b, a[i].sink.idx as int, (k - 1) as nat);
            assert(snk_reach(b, n, k));
        }
        if snk_reach(b, n, k) && !seed_snk(b, n) {
            let i = choose|i: int|
                0 <= i < b.len() && is_hh(b[i]) && b[i].source.idx == n && snk_reach(
                    b,
                    b[i].sink.idx as int,
                    (k - 1) as nat,
                );
            assert(same_structure_gene(a[i], b[i]));
            lemma_reach_same_structure(a, b, b[i].sink.idx as int, (k - 1) as nat);
            assert(snk_reach(a, n, k));
        }
    }
}

/// The sourcing and sinking flags agree on any two sequences of the same
/// structure.
proof fn lemma_flags_same_structure(a: Seq<Gene>, b: Seq<Gene>)
    requires
        same_structure(a, b),
    ensures
        forall|n: int| #![trigger sourcing(a, n)] #![trigger sourcing(b, n)] sourcing(a, n) == sourcing(b, n),
        forall|n: int| #![trigger sinking(a, n)] #![trigger sinking(b, n)] sinking(a, n) == sinking(b, n),
{
    assert forall|n: int| #![trigger sourcing(a, n)] #![trigger sourcing(b, n)] sourcing(a, n)
        == sourcing(b, n) by {
        if sourcing(a, n) {
            let k = choose|k: nat| src_reach(a, n, k);
            lemma_reach_same_structure(a, b, n, k);
            assert(src_reach(b, n, k));
        }
        if sourcing(b, n) {
            let k = choose|k: nat| src_reach(b, n, k);
            lemma_reach_same_structure(a, b, n, k);
            assert(src_reach(a, n, k));
        }
    }
    assert forall|n: int| #![trigger sinking(a, n)] #![trigger sinking(b, n)] sinking(a, n)
        == sinking(b, n) by {
        if sinking(a, n) {
            let k = choose|k: nat| snk_reach(a, n, k);
            lemma_reach_same_structure(a, b, n, k);
            assert(snk_reach(b, n, k));
        }
        if sinking(b, n) {
            let k = choose|k: nat| snk_reach(b, n, k);
            lemma_reach_same_structure(a, b, n, k);
            assert(snk_reach(a, n, k));
        }
    }
}

/// The activation rule depends only on gene structure.
pub proof fn lemma_active_rule_same_structure(a: Seq<Gene>, b: Seq<Gene>, i: int)
    requires
        same_structure(a, b),
        0 <= i < a.len(),
    ensures
        active_rule(a, a[i]) == active_rule(b, b[i]),
{
    lemma_flags_same_structure(a, b);
    assert(same_structure_gene(a[i], b[i]));
}

/// One resolver run leaves the sequence resolved: its flags agree with the
/// activation rule evaluated on the sequence itself.
pub proof fn lemma_resolver_resolves(pre: Seq<Gene>, post: Seq<Gene>)
    requires
        resolver_rel(pre, post),
    ensures
        resolved(post),
{
    assert forall|i: int| 0 <= i < post.len() implies post[i].active == active_rule(
        post,
        post[i],
    ) by {
        lemma_active_rule_same_structure(pre, post, i);
    }
}

/// Running the resolver on an already resolved sequence changes nothing.
pub proof fn lemma_resolve_resolved_noop(gs: Seq<Gene>, post: Seq<Gene>)
    requires
        resolved(gs),
        resolver_rel(gs, post),
    ensures
        post == gs,
{
    assert forall|i: int| 0 <= i < gs.len() implies post[i] == gs[i] by {
        assert(same_structure_gene(gs[i], post[i]));
        assert(post[i].active == active_rule(gs, gs[i]));
        assert(gs[i].active == active_rule(gs, gs[i]));
    }
    assert(post =~= gs);
}

/// Resolver idempotence: re-running the resolver on its own output is a
/// no-op.
pub proof fn lemma_resolver_idempotent(pre: Seq<Gene>, once: Seq<Gene>, twice: Seq<Gene>)
    requires
        resolver_rel(pre, once),
        resolver_rel(once, twice),
    ensures
        twice == once,
{
    lemma_resolver_resolves(pre, once);
    lemma_resolve_resolved_noop(once, twice);
}

/// Every input-to-output gene of a resolved sequence is active.
pub proof fn lemma_io_gene_active(gs: Seq<Gene>, i: int)
    requires
        resolved(gs),
        0 <= i < gs.len(),
        gs[i].source.node_type == NodeType::INPUT,
        gs[i].sink.node_type == NodeType::OUTPUT,
    ensures
        gs[i].active,
{
}

/// A node fed from the inputs has an inbound edge from an input or from a
/// sourcing hidden node.
pub proof fn lemma_sourcing_has_inbound(gs: Seq<Gene>, n: int)
    requires
        sourcing(gs, n),
    ensures
        exists|i: int|
            0 <= i < gs.len() && (#[trigger] gs[i]).sink.idx == n && (gs[i].source.node_type
                == NodeType::INPUT || (gs[i].source.node_type == NodeType::HIDDEN && sourcing(
                gs,
                gs[i].source.idx as int,
            ))),
{
    let k = choose|k: nat| src_reach(gs, n, k);
    if seed_src(gs, n) {
        let j = choose|j: int|
            0 <= j < gs.len() && gs[j].source.node_type == NodeType::INPUT && gs[j].sink.idx == n;
        assert(gs[j].sink.idx == n && gs[j].source.node_type == NodeType::INPUT);
    } else {
        let i = choose|i: int|
            0 <= i < gs.len() && is_hh(gs[i]) && gs[i].sink.idx == n && src_reach(
                gs,
                gs[i].source.idx as int,
                (k - 1) as nat,
            );
        assert(sourcing(gs, gs[i].source.idx as int));
        assert(gs[i].sink.idx == n && gs[i].source.node_type == NodeType::HIDDEN);
    }
}

/// A node drained into the outputs has an outbound edge to an output or to
/// a sinking hidden node.
pub proof fn lemma_sinking_has_outbound(gs: Seq<Gene>, n: int)
    requires
        sinking(gs, n),
    ensures
        exists|i: int|
            0 <= i < gs.len() && (#[trigger] gs[i]).source.idx == n && (gs[i].sink.node_type
                == NodeType::OUTPUT || (gs[i].sink.node_type == NodeType::HIDDEN && sinking(
                gs,
                gs[i].sink.idx as int,
            ))),
{
    let k = choose|k: nat| snk_reach(gs, n, k);
    if seed_snk(gs, n) {
        let j = choose|j: int|
            0 <= j < gs.len() && gs[j].sink.node_type == NodeType::OUTPUT && gs[j].source.idx == n;
        assert(gs[j].source.idx == n && gs[j].sink.node_type == NodeType::OUTPUT);
    } else {
        let i = choose|i: int|
            0 <= i < gs.len() && is_hh(gs[i]) && gs[i].source.idx == n && snk_reach(
                gs,
                gs[i].sink.idx as int,
                (k - 1) as nat,
            );
        assert(sinking(gs, gs[i].sink.idx as int));
        assert(gs[i].source.idx == n && gs[i].sink.node_type == NodeType::HIDDEN);
    }
}

/// Activation completeness, forward side: a node that is both fed from the
/// inputs and drained into the outputs has at least one active inbound edge,
/// coming from an input or from a sourcing hidden node.
pub proof fn lemma_sourcing_has_active_inbound(gs: Seq<Gene>, n: int)
    requires
        resolved(gs),
        genes_directed(gs),
        sourcing(gs, n),
        sinking(gs, n),
    ensures
        exists|i: int|
            0 <= i < gs.len() && (#[trigger] gs[i]).active && gs[i].sink.idx == n
                && (gs[i].source.node_type == NodeType::INPUT || (gs[i].source.node_type
                == NodeType::HIDDEN && sourcing(gs, gs[i].source.idx as int))),
{
    let k = choose|k: nat| src_reach(gs, n, k);
    if seed_src(gs, n) {
        let j = choose|j: int|
            0 <= j < gs.len() && gs[j].source.node_type == NodeType::INPUT && gs[j].sink.idx == n;
        assert(gs[j].active);
        assert(0 <= j < gs.len() && gs[j].active && gs[j].sink.idx == n && gs[j].source.node_type
            == NodeType::INPUT);
    } else {
        let i = choose|i: int|
            0 <= i < gs.len() && is_hh(gs[i]) && gs[i].sink.idx == n && src_reach(
                gs,
                gs[i].source.idx as int,
                (k - 1) as nat,
            );
        assert(sourcing(gs, gs[i].source.idx as int));
        assert(gs[i].active);
        assert(0 <= i < gs.len() && gs[i].active && gs[i].sink.idx == n && gs[i].source.node_type
            == NodeType::HIDDEN && sourcing(gs, gs[i].source.idx as int));
    }
}

/// Activation completeness, backward side: a node that is both fed and
/// drained has at least one active outbound edge, going to an output or to a
/// sinking hidden node.
pub proof fn lemma_sinking_has_active_outbound(gs: Seq<Gene>, n: int)
    requires
        resolved(gs),
        genes_directed(gs),
        sourcing(gs, n),
        sinking(gs, n),
    ensures
        exists|i: int|
            0 <= i < gs.len() && (#[trigger] gs[i]).active && gs[i].source.idx == n
                && (gs[i].sink.node_type == NodeType::OUTPUT || (gs[i].sink.node_type
                == NodeType::HIDDEN && sinking(gs, gs[i].sink.idx as int))),
{
    let k = choose|k: nat| snk_reach(gs, n, k);
    if seed_snk(gs, n) {
        let j = choose|j: int|
            0 <= j < gs.len() && gs[j].sink.node_type == NodeType::OUTPUT && gs[j].source.idx == n;
        assert(gs[j].active);
        assert(0 <= j < gs.len() && gs[j].active && gs[j].source.idx == n && gs[j].sink.node_type
            == NodeType::OUTPUT);
    } else {
        let i = choose|i: int|
            0 <= i < gs.len() && is_hh(gs[i]) && gs[i].source.idx == n && snk_reach(
                gs,
                gs[i].sink.idx as int,
                (k - 1) as nat,
            );
        assert(sinking(gs, gs[i].sink.idx as int));
        assert(gs[i].active);
        assert(0 <= i < gs.len() && gs[i].active && gs[i].source.idx == n && gs[i].sink.node_type
            == NodeType::HIDDEN && sinking(gs, gs[i].sink.idx as int));
    }
}

/// Removing any gene can only shrink reachability.
proof fn lemma_reach_remove_mono(gs: Seq<Gene>, i: int, n: int, k: nat)
    requires
        0 <= i < gs.len(),
    ensures
        src_reach(gs.remove(i), n, k) ==> src_reach(gs, n, k),
        snk_reach(gs.remove(i), n, k) ==> snk_reach(gs, n, k),
    decreases k,
{
    let gs2 = gs.remove(i);
    gs.remove_ensures(i);
    if src_reach(gs2, n, k) {
        if seed_src(gs2, n) {
            let j = choose|j: int|
                0 <= j < gs2.len() && gs2[j].source.node_type == NodeType::INPUT && gs2[j].sink.idx
                    == n;
            let jo = if j < i { j } else { j + 1 };
            assert(gs[jo] == gs2[j]);
            assert(seed_src(gs, n));
        } else {
            let e = choose|e: int|
                0 <= e < gs2.len() && is_hh(gs2[e]) && gs2[e].sink.idx == n && src_reach(
                    gs2,
                    gs2[e].source.idx as int,
                    (k - 1) as nat,
                );
            lemma_reach_remove_mono(gs, i, gs2[e].source.idx as int, (k - 1) as nat);
            let eo = if e < i { e } else { e + 1 };
            assert(gs[eo] == gs2[e]);
            assert(src_reach(gs, n, k));
        }
    }
    if snk_reach(gs2, n, k) {
        if seed_snk(gs2, n) {
            let j = choose|j: int|
                0 <= j < gs2.len() && gs2[j].sink.node_type == NodeType::OUTPUT
                    && gs2[j].source.idx == n;
            let jo = if j < i { j } else { j + 1 };
            assert(gs[jo] == gs2[j]);
            assert(seed_snk(gs, n));
        } else {
            let e = choose|e: int|
                0 <= e < gs2.len() && is_hh(gs2[e]) && gs2[e].source.idx == n && snk_reach(
                    gs2,
                    gs2[e].sink.idx as int,
                    (k - 1) as nat,
                );
            lemma_reach_remove_mono(gs, i, gs2[e].sink.idx as int, (k - 1) as nat);
            let eo = if e < i { e } else { e + 1 };
            assert(gs[eo] == gs2[e]);
            assert(snk_reach(gs, n, k));
        }
    }
}

/// Forward stability: a node fed from the inputs and drained into the
/// outputs is still fed when one inactive gene is removed — no support path
/// of such a node can run through an inactive gene.
proof fn lemma_src_reach_stable(gs: Seq<Gene>, i: int, n: int, k: nat)
    requires
        genes_directed(gs),
        0 <= i < gs.len(),
        !active_rule(gs, gs[i]),
        src_reach(gs, n, k),
        sinking(gs, n),
    ensures
        sourcing(gs.remove(i), n),
    decreases k,
{
    let gs2 = gs.remove(i);
    gs.remove_ensures(i);
    if seed_src(gs, n) {
        let j = choose|j: int|
            0 <= j < gs.len() && gs[j].source.node_type == NodeType::INPUT && gs[j].sink.idx == n;
        if j == i {
            assert(gs[i].sink.node_type != NodeType::INPUT);
            assert(active_rule(gs, gs[i]));
            assert(false);
        } else {
            let j2 = if j < i { j } else { j - 1 };
            assert(gs2[j2] == gs[j]);
            assert(seed_src(gs2, n));
            assert(src_reach(gs2, n, 0));
        }
    } else {
        let e = choose|e: int|
            0 <= e < gs.len() && is_hh(gs[e]) && gs[e].sink.idx == n && src_reach(
                gs,
                gs[e].source.idx as int,
                (k - 1) as nat,
            );
        lemma_snk_step(gs, e);
        assert(sourcing(gs, gs[e].source.idx as int)) by {
            assert(src_reach(gs, gs[e].source.idx as int, (k - 1) as nat));
        }
        if e == i {
            assert(active_rule(gs, gs[i]));
            assert(false);
        } else {
            lemma_src_reach_stable(gs, i, gs[e].source.idx as int, (k - 1) as nat);
            let k2 = choose|k2: nat| src_reach(gs2, gs[e].source.idx as int, k2);
            let e2 = if e < i { e } else { e - 1 };
            assert(gs2[e2] == gs[e]);
            assert(src_reach(gs2, n, k2 + 1));
        }
    }
}

/// Backward stability, the mirror of `lemma_src_reach_stable`.
proof fn lemma_snk_reach_stable(gs: Seq<Gene>, i: int, n: int, k: nat)
    requires
        genes_directed(gs),
        0 <= i < gs.len(),
        !active_rule(gs, gs[i]),
        snk_reach(gs, n, k),
        sourcing(gs, n),
    ensures
        sinking(gs.remove(i), n),
    decreases k,
{
    let gs2 = gs.remove(i);
    gs.remove_ensures(i);
    if seed_snk(gs, n) {
        let j = choose|j: int|
            0 <= j < gs.len() && gs[j].sink.node_type == NodeType::OUTPUT && gs[j].source.idx == n;
        if j == i {
            assert(gs[i].source.node_type != NodeType::OUTPUT);
            assert(active_rule(gs, gs[i]));
            assert(false);
        } else {
            let j2 = if j < i { j } else { j - 1 };
            assert(gs2[j2] == gs[j]);
            assert(seed_snk(gs2, n));
            assert(snk_reach(gs2, n, 0));
        }
    } else {
        let e = choose|e: int|
            0 <= e < gs.len() && is_hh(gs[e]) && gs[e].source.idx == n && snk_reach(
                gs,
                gs[e].sink.idx as int,
                (k - 1) as nat,
            );
        lemma_src_step(gs, e);
        assert(sinking(gs, gs[e].sink.idx as int)) by {
            assert(snk_reach(gs, gs[e].sink.idx as int, (k - 1) as nat));
        }
        if e == i {
            assert(active_rule(gs, gs[i]));
            assert(false);
        } else {
            lemma_snk_reach_stable(gs, i, gs[e].sink.idx as int, (k - 1) as nat);
            let k2 = choose|k2: nat| snk_reach(gs2, gs[e].sink.idx as int, k2);
            let e2 = if e < i { e } else { e - 1 };
            assert(gs2[e2] == gs[e]);
            assert(snk_reach(gs2, n, k2 + 1));
        }
    }
}

/// Removing an inactive gene leaves every other gene's activation unchanged.
pub proof fn lemma_active_rule_remove(gs: Seq<Gene>, i: int, j: int)
    requires
        genes_directed(gs),
        0 <= i < gs.len(),
        !active_rule(gs, gs[i]),
        0 <= j < gs.remove(i).len(),
    ensures
        active_rule(gs.remove(i), gs.remove(i)[j]) == active_rule(
            gs,
            gs[if j < i { j } else { j + 1 }],
        ),
{
    let gs2 = gs.remove(i);
    gs.remove_ensures(i);
    let jo: int = if j < i { j } else { j + 1 };
    let g = gs[jo];
    assert(gs2[j] == g);
    if g.source.node_type == NodeType::INPUT && g.sink.node_type == NodeType::OUTPUT {
    } else if g.source.node_type == NodeType::INPUT && g.sink.node_type == NodeType::HIDDEN {
        let s = g.sink.idx as int;
        if sinking(gs, s) {
            assert(seed_src(gs, s));
            assert(sourcing(gs, s)) by {
                assert(src_reach(gs, s, 0));
            }
            let k = choose|k: nat| snk_reach(gs, s, k);
            lemma_snk_reach_stable(gs, i, s, k);
        }
        if sinking(gs2, s) {
            let k = choose|k: nat| snk_reach(gs2, s, k);
            lemma_reach_remove_mono(gs, i, s, k);
        }
    } else if is_hh(g) {
        let a = g.source.idx as int;
        let b = g.sink.idx as int;
        if sourcing(gs, a) && sinking(gs, b) {
            lemma_snk_step(gs, jo);
            lemma_src_step(gs, jo);
            let ka = choose|ka: nat| src_reach(gs, a, ka);
            lemma_src_reach_stable(gs, i, a, ka);
            let kb = choose|kb: nat| snk_reach(gs, b, kb);
            lemma_snk_reach_stable(gs, i, b, kb);
        }
        if sourcing(gs2, a) {
            let k = choose|k: nat| src_reach(gs2, a, k);
            lemma_reach_remove_mono(gs, i, a, k);
        }
        if sinking(gs2, b) {
            let k = choose|k: nat| snk_reach(gs2, b, k);
            lemma_reach_remove_mono(gs, i, b, k);
        }
    } else if g.source.node_type == NodeType::HIDDEN && g.sink.node_type == NodeType::OUTPUT {
        let a = g.source.idx as int;
        if sourcing(gs, a) {
            assert(seed_snk(gs, a));
            assert(sinking(gs, a)) by {
                assert(snk_reach(gs, a, 0));
            }
            let k = choose|k: nat| src_reach(gs, a, k);
            lemma_src_reach_stable(gs, i, a, k);
        }
        if sourcing(gs2, a) {
            let k = choose|k: nat| src_reach(gs2, a, k);
            lemma_reach_remove_mono(gs, i, a, k);
        }
    }
}

/// Brain soundness, resolver half: removing a single inactive gene from a
/// resolved sequence leaves the remaining genes resolved exactly as they
/// were — re-running the resolver on the shortened sequence is a no-op.
pub proof fn lemma_remove_inactive_resolved(gs: Seq<Gene>, i: int)
    requires
        resolved(gs),
        genes_directed(gs),
        0 <= i < gs.len(),
        !gs[i].active,
    ensures
        resolved(gs.remove(i)),
{
    let gs2 = gs.remove(i);
    gs.remove_ensures(i);
    assert(!active_rule(gs, gs[i]));
    assert forall|j: int| 0 <= j < gs2.len() implies gs2[j].active == active_rule(
        gs2,
        gs2[j],
    ) by {
        lemma_active_rule_remove(gs, i, j);
        let jo: int = if j < i { j } else { j + 1 };
        assert(gs2[j] == gs[jo]);
        assert(gs[jo].active == active_rule(gs, gs[jo]));
    }
}

// === Chromosomes ===

/// Random genes a growth loop tries before completing the chromosome
/// deterministically with a direct input-to-output gene (which the resolver
/// always activates).  A random gene is input-to-output with chance one in
/// four, so the deterministic tail is reached with vanishing probability.
const MAX_GROWTH_TRIES: usize = 256;

/// A minimal self-contained gene group: it grows gene by gene until it
/// resolves, in isolation, to at least one active gene (or until merely
/// non-empty, when chromosome mode is off).  Its active flags record that
/// local resolution; the genome-wide flags live in [`Genome::genes`] and may
/// legitimately differ.
pub struct Chromo {
    pub genes: Vec<Gene>,
}

impl Chromo {
    pub open spec fn wf(self, cfg: Config) -> bool {
        &&& self.genes@.len() >= 1
        &&& forall|i: int| 0 <= i < self.genes@.len() ==> (#[trigger] self.genes@[i]).wf(cfg)
    }

    /// The completeness rule: with chromosome mode on, some gene is active
    /// (under the flags currently stored); otherwise, merely non-empty.
    pub open spec fn complete_spec(self, cfg: Config) -> bool {
        if cfg.use_chromo {
            exists|i: int| 0 <= i < self.genes@.len() && (#[trigger] self.genes@[i]).active
        } else {
            self.genes@.len() >= 1
        }
    }

    /// Resolves this chromosome's genes in isolation.
    fn set_active(&mut self, cfg: &Config)
        requires
            cfg.wf(),
            forall|i: int|
                0 <= i < old(self).genes@.len() ==> (#[trigger] old(self).genes@[i]).wf(*cfg),
        ensures
            resolver_rel(old(self).genes@, final(self).genes@),
            forall|i: int|
                0 <= i < final(self).genes@.len() ==> (#[trigger] final(self).genes@[i]).wf(*cfg),
    {
        Gene::set_active_genes(&mut self.genes, cfg);
    }

    /// Whether any gene is currently flagged active.
    fn is_active(&self) -> (r: bool)
        ensures
            r == exists|i: int| 0 <= i < self.genes@.len() && (#[trigger] self.genes@[i]).active,
    {
        let mut i: usize = 0;
        let n = self.genes.len();
        while i < n
            invariant
                i <= n,
                n == self.genes@.len(),
                forall|j: int| 0 <= j < i ==> !(#[trigger] self.genes@[j]).active,
            decreases n - i,
        {
            if self.genes[i].active {
                return true;
            }
            i = i + 1;
        }
        false
    }

    /// Whether the chromosome is complete: with chromosome mode on it is
    /// first re-resolved in isolation, and must carry at least one active
    /// gene; otherwise it only has to be non-empty.
    fn is_complete(&mut self, cfg: &Config) -> (r: bool)
        requires
            cfg.wf(),
            forall|i: int|
                0 <= i < old(self).genes@.len() ==> (#[trigger] old(self).genes@[i]).wf(*cfg),
        ensures
            forall|i: int|
                0 <= i < final(self).genes@.len() ==> (#[trigger] final(self).genes@[i]).wf(*cfg),
            r == final(self).complete_spec(*cfg),
            cfg.use_chromo ==> resolver_rel(old(self).genes@, final(self).genes@),
            !cfg.use_chromo ==> *final(self) == *old(self),
    {
        if cfg.use_chromo {
            self.set_active(cfg);
            self.is_active()
        } else {
            self.genes.len() >= 1
        }
    }

    /// Pads the chromosome with fresh random genes until it is complete,
    /// falling back to a deterministic input-to-output gene after
    /// `MAX_GROWTH_TRIES` draws.  Existing genes keep their structure.
    fn grow_until_complete(&mut self, cfg: &Config)
        requires
            cfg.wf(),
            old(self).genes@.len() >= 1,
            forall|i: int|
                0 <= i < old(self).genes@.len() ==> (#[trigger] old(self).genes@[i]).wf(*cfg),
        ensures
            final(self).wf(*cfg),
            final(self).genes@.len() >= old(self).genes@.len(),
            forall|i: int|
                0 <= i < old(self).genes@.len() ==> same_structure_gene(
                    #[trigger] final(self).genes@[i],
                    old(self).genes@[i],
                ),
            final(self).complete_spec(*cfg),
            cfg.use_chromo ==> resolved(final(self).genes@),
            !cfg.use_chromo ==> *final(self) == *old(self),
    {
        let ghost orig = self.genes@;
        let mut complete = self.is_complete(cfg);
        proof {
            if cfg.use_chromo {
                lemma_resolver_resolves(orig, self.genes@);
            }
        }
        if !cfg.use_chromo {
            return ;
        }
        let mut tries: usize = 0;
        while !complete && tries < MAX_GROWTH_TRIES
            invariant
                cfg.wf(),
                cfg.use_chromo,
                self.genes@.len() >= orig.len() >= 1,
                forall|i: int|
                    0 <= i < self.genes@.len() ==> (#[trigger] self.genes@[i]).wf(*cfg),
                forall|i: int|
                    0 <= i < orig.len() ==> same_structure_gene(
                        #[trigger] self.genes@[i],
                        orig[i],
                    ),
                complete == self.complete_spec(*cfg),
                resolved(self.genes@),
            decreases (if complete {
                0int
            } else {
                1int
            }), MAX_GROWTH_TRIES - tries,
        {
            self.genes.push(Gene::new(cfg));
            let ghost pre = self.genes@;
            complete = self.is_complete(cfg);
            proof {
                lemma_resolver_resolves(pre, self.genes@);
            }
            tries = tries + 1;
        }
        if !complete {
            // A zero key decodes to the first input feeding the first
            // output, which the activation rule always accepts.
            self.genes.push(Gene::with_dna(cfg, 0));
            let ghost pre = self.genes@;
            proof {
                assert((0u32 >> 24) & 0xff == 0 && (0u32 >> 16) & 0xff == 0) by (bit_vector);
                assert(0u8 & 0x80 == 0) by (bit_vector);
                let g0 = pre[pre.len() - 1];
                assert(g0.source.node_type == NodeType::INPUT);
                assert(g0.sink.node_type == NodeType::OUTPUT);
                assert(active_rule(pre, g0));
            }
            let c2 = self.is_complete(cfg);
            proof {
                lemma_resolver_resolves(pre, self.genes@);
                assert(self.genes@[self.genes@.len() - 1].active);
                assert(c2);
            }
        }
    }

    /// A chromosome holding one fresh random gene.
    fn init(cfg: &Config) -> (r: Chromo)
        requires
            cfg.wf(),
        ensures
            r.wf(*cfg),
            r.genes@.len() == 1,
    {
        let mut genes: Vec<Gene> = Vec::new();
        genes.push(Gene::new(cfg));
        Chromo { genes }
    }

    /// Grows a fresh chromosome, one random gene at a time, until it is
    /// complete.
    fn new(cfg: &Config) -> (r: Chromo)
        requires
            cfg.wf(),
        ensures
            r.wf(*cfg),
            r.complete_spec(*cfg),
            cfg.use_chromo ==> resolved(r.genes@),
    {
        let mut chromo = Chromo::init(cfg);
        chromo.grow_until_complete(cfg);
        chromo
    }

    /// Returns a mutated copy: each gene mutates with probability one over
    /// the chromosome's length (an expected one mutation per chromosome) and
    /// is copied unchanged otherwise; the copy is then padded with fresh
    /// genes until complete again.
    fn mutate(&self, cfg: &Config) -> (r: Chromo)
        requires
            cfg.wf(),
            self.wf(*cfg),
        ensures
            r.wf(*cfg),
            chromo_mutation(*cfg, *self, r),
            cfg.use_chromo ==> resolved(r.genes@),
    {
        let len = self.genes.len();
        let mut genes: Vec<Gene> = Vec::new();
        let mut i: usize = 0;
        while i < len
            invariant
                cfg.wf(),
                self.wf(*cfg),
                i <= len,
                len == self.genes@.len(),
                genes@.len() == i,
                forall|j: int| 0 <= j < i ==> (#[trigger] genes@[j]).wf(*cfg),
                forall|j: int|
                    0 <= j < i ==> same_structure_gene(#[trigger] genes@[j], self.genes@[j])
                        || mutated_key(self.genes@[j].dna, genes@[j].dna),
            decreases len - i,
        {
            let g = self.genes[i];
            if random_below(len as u64) == 0 {
                genes.push(g.mutate(cfg));
            } else {
                genes.push(g);
            }
            i = i + 1;
        }
        let mut chromo = Chromo { genes };
        chromo.grow_until_complete(cfg);
        chromo
    }
}

/// How a budded chromosome relates to its parent: at least as long, each
/// inherited slot either keeps the parent gene's structure or carries a key
/// two bit flips away, and the child is complete.
pub open spec fn chromo_mutation(cfg: Config, parent: Chromo, child: Chromo) -> bool {
    &&& child.genes@.len() >= parent.genes@.len()
    &&& forall|i: int|
        0 <= i < parent.genes@.len() ==> same_structure_gene(
            #[trigger] child.genes@[i],
            parent.genes@[i],
        ) || mutated_key(parent.genes@[i].dna, child.genes@[i].dna)
    &&& child.complete_spec(cfg)
}

// === Genome ===

/// All genes of a chromosome sequence, pooled in order.
pub open spec fn pooled(chromos: Seq<Chromo>) -> Seq<Gene>
    decreases chromos.len(),
{
    if chromos.len() == 0 {
        Seq::empty()
    } else {
        pooled(chromos.drop_last()) + chromos.last().genes@
    }
}

/// The full chromosome collection of one organism, together with the
/// genome-wide active-gene set: the pooled genes, re-resolved across
/// chromosome boundaries.  Local and global activation may differ — pooling
/// can complete paths that were broken inside any single chromosome.
pub struct Genome {
    pub chromos: Vec<Chromo>,
    pub genes: Vec<Gene>,
}

impl Genome {
    pub open spec fn wf(self, cfg: Config) -> bool {
        &&& forall|c: int| 0 <= c < self.chromos@.len() ==> (#[trigger] self.chromos@[c]).wf(cfg)
        &&& same_structure(pooled(self.chromos@), self.genes@)
        &&& resolved(self.genes@)
        &&& forall|i: int| 0 <= i < self.genes@.len() ==> (#[trigger] self.genes@[i]).wf(cfg)
    }

    /// Pools every gene across all chromosomes and re-runs the resolver on
    /// the pool, storing the result as the genome-wide active-gene set.
    fn set_active_genes(&mut self, cfg: &Config)
        requires
            cfg.wf(),
            forall|c: int|
                0 <= c < old(self).chromos@.len() ==> (#[trigger] old(self).chromos@[c]).wf(*cfg),
        ensures
            final(self).chromos@ == old(self).chromos@,
            final(self).wf(*cfg),
            resolver_rel(pooled(old(self).chromos@), final(self).genes@),
    {
        let mut pool: Vec<Gene> = Vec::new();
        let clen = self.chromos.len();
        let mut c: usize = 0;
        while c < clen
            invariant
                cfg.wf(),
                clen == self.chromos@.len(),
                c <= clen,
                forall|k: int|
                    0 <= k < self.chromos@.len() ==> (#[trigger] self.chromos@[k]).wf(*cfg),
                pool@ == pooled(self.chromos@.subrange(0, c as int)),
                forall|i: int| 0 <= i < pool@.len() ==> (#[trigger] pool@[i]).wf(*cfg),
            decreases clen - c,
        {
            let glen = self.chromos[c].genes.len();
            let mut g: usize = 0;
            while g < glen
                invariant
                    cfg.wf(),
                    clen == self.chromos@.len(),
                    c < clen,
                    g <= glen,
                    glen == self.chromos@[c as int].genes@.len(),
                    forall|k: int|
                        0 <= k < self.chromos@.len() ==> (#[trigger] self.chromos@[k]).wf(*cfg),
                    pool@ == pooled(self.chromos@.subrange(0, c as int)) + self.chromos@[
                        c as int].genes@.subrange(0, g as int),
                    forall|i: int| 0 <= i < pool@.len() ==> (#[trigger] pool@[i]).wf(*cfg),
                decreases glen - g,
            {
                pool.push(self.chromos[c].genes[g]);
                proof {
                    assert(self.chromos@[c as int].genes@.subrange(0, g + 1int)
                        =~= self.chromos@[c as int].genes@.subrange(0, g as int).push(
                        self.chromos@[c as int].genes@[g as int],
                    ));
                }
                g = g + 1;
            }
            proof {
                assert(self.chromos@[c as int].genes@.subrange(0, glen as int)
                    =~= self.chromos@[c as int].genes@);
                assert(self.chromos@.subrange(0, c + 1int).drop_last() =~= self.chromos@.subrange(
                    0,
                    c as int,
                ));
                assert(self.chromos@.subrange(0, c + 1int).last() == self.chromos@[c as int]);
                assert(pool@ == pooled(self.chromos@.subrange(0, c + 1int)));
            }
            c = c + 1;
        }
        proof {
            assert(self.chromos@.subrange(0, clen as int) =~= self.chromos@);
        }
        let ghost pre = pool@;
        Gene::set_active_genes(&mut pool, cfg);
        proof {
            lemma_resolver_resolves(pre, pool@);
        }
        self.genes = pool;
    }

    /// Wraps a chromosome collection into a genome; building a genome always
    /// pools the genes and resolves the genome-wide active set.
    pub fn with_chromos(cfg: &Config, chromos: Vec<Chromo>) -> (r: Genome)
        requires
            cfg.wf(),
            forall|c: int| 0 <= c < chromos@.len() ==> (#[trigger] chromos@[c]).wf(*cfg),
        ensures
            r.wf(*cfg),
            r.chromos@ == chromos@,
            resolver_rel(pooled(chromos@), r.genes@),
    {
        let mut genome = Genome { chromos, genes: Vec::new() };
        genome.set_active_genes(cfg);
        genome
    }

    /// Builds a genome of `genome_size` independently grown chromosomes and
    /// resolves the pooled active-gene set.
    pub fn new(cfg: &Config) -> (r: Genome)
        requires
            cfg.wf(),
        ensures
            r.wf(*cfg),
            r.chromos@.len() == cfg.genome_size,
            forall|c: int|
                0 <= c < r.chromos@.len() ==> (#[trigger] r.chromos@[c]).complete_spec(*cfg),
    {
        let mut chromos: Vec<Chromo> = Vec::new();
        let mut i: usize = 0;
        while i < cfg.genome_size
            invariant
                cfg.wf(),
                i <= cfg.genome_size,
                chromos@.len() == i,
                forall|c: int| 0 <= c < i ==> (#[trigger] chromos@[c]).wf(*cfg),
                forall|c: int| 0 <= c < i ==> (#[trigger] chromos@[c]).complete_spec(*cfg),
            decreases cfg.genome_size - i,
        {
            chromos.push(Chromo::new(cfg));
            i = i + 1;
        }
        Genome::with_chromos(cfg, chromos)
    }

    /// Asexual reproduction: every chromosome is cloned with an expected one
    /// point mutation and re-completed, and the pooled child set is
    /// re-resolved globally.
    pub fn bud(&self, cfg: &Config) -> (r: Genome)
        requires
            cfg.wf(),
            self.wf(*cfg),
        ensures
            r.wf(*cfg),
            r.chromos@.len() == self.chromos@.len(),
            forall|c: int|
                0 <= c < r.chromos@.len() ==> chromo_mutation(
                    *cfg,
                    self.chromos@[c],
                    #[trigger] r.chromos@[c],
                ),
    {
        let mut chromos: Vec<Chromo> = Vec::new();
        let clen = self.chromos.len();
        let mut i: usize = 0;
        while i < clen
            invariant
                cfg.wf(),
                self.wf(*cfg),
                i <= clen,
                clen == self.chromos@.len(),
                chromos@.len() == i,
                forall|c: int| 0 <= c < i ==> (#[trigger] chromos@[c]).wf(*cfg),
                forall|c: int|
                    0 <= c < i ==> chromo_mutation(*cfg, self.chromos@[c], #[trigger] chromos@[c]),
            decreases clen - i,
        {
            chromos.push(self.chromos[i].mutate(cfg));
            i = i + 1;
        }
        Genome::with_chromos(cfg, chromos)
    }
}

} // verus!
