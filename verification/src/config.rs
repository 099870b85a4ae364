use vstd::prelude::*;
use vstd::string::StringSliceAdditionalSpecFns;

use crate::node::Node;

verus! {

/// Largest admissible magnitude for the strength multiplier, in fixed-point
/// steps.  Keeping it below 2^40 lets a decoded strength
/// (raw 16-bit value times the multiplier) be computed in an `i64`.
pub const MAX_STRENGTH_MULT: i64 = 0x100_0000_0000;

/// The read-only parameter bundle for a run.  It is built once, before the
/// population, and handed by reference into every component that consults it;
/// there is no ambient global state.
///
/// `strength_mult` is a fixed-point number with [`crate::math::SCALE`] steps
/// to the unit, like every other scalar of the engine.
#[derive(Clone, Debug)]
pub struct Config {
    /// Logging level: "silent", "low", "high" (case-insensitive).
    pub verbose: String,
    /// Number of organism slots created at world construction.
    pub population: usize,
    /// Ticks after which the default death rule retires an organism.
    pub lifespan: usize,
    /// Number of chromosomes per genome.
    pub genome_size: usize,
    /// Whether a chromosome must resolve to at least one locally active gene
    /// before it counts as complete.
    pub use_chromo: bool,
    /// Stepping mode: advance each organism through a whole batch of ticks
    /// (true) or advance all organisms in lockstep (false).
    pub independent: bool,
    /// Multiplier applied to decoded gene strengths, fixed-point.
    pub strength_mult: i64,
    /// Names of the sensor input channels, one per input node.
    pub inputs: Vec<String>,
    /// Names of the output channels, one per output node.
    pub outputs: Vec<String>,
    /// Number of hidden neurons.
    pub neurons: usize,
}

/// ASCII upper-case letters fold to lower case; all other bytes are kept.
pub open spec fn lower_byte(b: u8) -> u8 {
    if 65 <= b && b <= 90 {
        (b + 32) as u8
    } else {
        b
    }
}

pub open spec fn lower_bytes(s: Seq<u8>) -> Seq<u8> {
    s.map_values(|b: u8| lower_byte(b))
}

/// Case-insensitive (ASCII) equality of two byte strings.
pub open spec fn bytes_ieq(a: Seq<u8>, b: Seq<u8>) -> bool {
    lower_bytes(a) == lower_bytes(b)
}

/// Compares two strings for equality up to ASCII case.
fn str_ieq(a: &str, b: &str) -> (r: bool)
    ensures
        r == bytes_ieq(a.spec_bytes(), b.spec_bytes()),
{
    let ab = a.as_bytes();
    let bb = b.as_bytes();
    if ab.len() != bb.len() {
        assert(lower_bytes(ab@).len() != lower_bytes(bb@).len());
        return false;
    }
    let n = ab.len();
    let mut i: usize = 0;
    while i < n
        invariant
            n == ab@.len() == bb@.len(),
            i <= n,
            ab@ == a.spec_bytes(),
            bb@ == b.spec_bytes(),
            forall|j: int| 0 <= j < i ==> lower_bytes(ab@)[j] == lower_bytes(bb@)[j],
        decreases n - i,
    {
        let x = ab[i];
        let y = bb[i];
        let xl = if 65 <= x && x <= 90 { x + 32 } else { x };
        let yl = if 65 <= y && y <= 90 { y + 32 } else { y };
        if xl != yl {
            assert(lower_bytes(ab@)[i as int] != lower_bytes(bb@)[i as int]);
            return false;
        }
        i = i + 1;
    }
    assert(lower_bytes(ab@) =~= lower_bytes(bb@));
    true
}

impl Config {
    /// Every zone is populated, the lifespan is a positive number of ticks,
    /// the node index space fits in a `usize`, and the strength multiplier is
    /// small enough for decoded strengths to be computed exactly.
    pub open spec fn wf(self) -> bool {
        &&& self.inputs@.len() >= 1
        &&& self.outputs@.len() >= 1
        &&& self.neurons >= 1
        &&& self.lifespan >= 1
        &&& self.inputs@.len() + self.neurons + self.outputs@.len() <= usize::MAX
        &&& -MAX_STRENGTH_MULT <= self.strength_mult <= MAX_STRENGTH_MULT
    }

    pub open spec fn node_count_spec(self) -> int {
        self.inputs@.len() + self.neurons + self.outputs@.len()
    }

    /// Size of the dense node-state vector: inputs, then hidden neurons,
    /// then outputs.
    pub fn node_count(&self) -> (r: usize)
        requires
            self.wf(),
        ensures
            r == self.node_count_spec(),
    {
        self.inputs.len() + self.neurons + self.outputs.len()
    }

    /// The channel name the configuration assigns to a node index: input
    /// names for the input zone, output names for the output zone, and a
    /// placeholder for the unnamed hidden zone.
    pub open spec fn node_name_spec(self, idx: int) -> Seq<char> {
        if idx < self.inputs@.len() {
            self.inputs@[idx]@
        } else if idx >= self.inputs@.len() + self.neurons {
            self.outputs@[idx - self.inputs@.len() - self.neurons]@
        } else {
            "??"@
        }
    }

    pub fn node_name(&self, node: &Node) -> (r: String)
        requires
            self.wf(),
            node.idx < self.node_count_spec(),
        ensures
            r@ == self.node_name_spec(node.idx as int),
    {
        if node.idx < self.inputs.len() {
            self.inputs[node.idx].clone()
        } else if node.idx >= self.inputs.len() + self.neurons {
            self.outputs[node.idx - (self.neurons + self.inputs.len())].clone()
        } else {
            "??".to_owned()
        }
    }

    /// Whether a message of the given level ("on", "low" or "high", compared
    /// case-insensitively) is audible under this configuration's `verbose`
    /// setting: "on" is audible unless the run is silent, "low" needs a low
    /// or high verbosity, "high" needs a high one.
    pub open spec fn verbosity_spec(self, s: Seq<u8>) -> bool {
        let v = vstd::utf8::encode_utf8(self.verbose@);
        if bytes_ieq(s, "on".spec_bytes()) {
            !bytes_ieq(v, "silent".spec_bytes())
        } else if bytes_ieq(s, "low".spec_bytes()) {
            bytes_ieq(v, "low".spec_bytes()) || bytes_ieq(v, "high".spec_bytes())
        } else if bytes_ieq(s, "high".spec_bytes()) {
            bytes_ieq(v, "high".spec_bytes())
        } else {
            false
        }
    }

    pub fn verbosity(&self, s: &str) -> (r: bool)
        ensures
            r == self.verbosity_spec(s.spec_bytes()),
    {
        let v = self.verbose.as_str();
        if str_ieq(s, "on") {
            !str_ieq(v, "silent")
        } else if str_ieq(s, "low") {
            str_ieq(v, "low") || str_ieq(v, "high")
        } else if str_ieq(s, "high") {
            str_ieq(v, "high")
        } else {
            false
        }
    }

    /// Whether messages of the given level should be emitted.
    pub fn log(&self, s: &str) -> (r: bool)
        ensures
            r == self.verbosity_spec(s.spec_bytes()),
    {
        self.verbosity(s)
    }
}

} // verus!
