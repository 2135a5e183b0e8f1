//! Components and their behaviors. A component holds the committed and the
//! pending signal state of its output ports, the behavior that computes the
//! pending state from gathered inputs, the dependencies that feed its input
//! ports, and the fan-out list of nodes wired to its outputs.

use vstd::prelude::*;
use vstd::string::StringExecFns;
use crate::components::{Clock, AND, NAND, NOR, OR, XNOR, XOR};

verus! {

/// One signal source: an output port of a node.
#[derive(Clone, Copy, PartialEq, Eq, Structural, Debug)]
pub struct OutPinId {
    pub node: usize,
    pub output: usize,
}

/// One signal sink: an input port of a node.
#[derive(Clone, Copy, PartialEq, Eq, Structural, Debug)]
pub struct InPinId {
    pub node: usize,
    pub input: usize,
}

/// The closed set of behaviors a component can have.
pub enum Updater {
    /// A fixed single-bit source.
    Constant { state: bool },
    /// An input pseudo-node of an embedded sub-network: its output bus is
    /// written from outside, not computed.
    In { name: String, size: usize, port: usize },
    /// An output pseudo-node of an embedded sub-network: a sink recording
    /// the bus presented to it.
    Out { name: String, size: usize, port: usize, value: Vec<bool> },
    /// A momentary single-bit source: high only while externally held.
    Button { is_pressed: bool },
    /// A latched single-bit source, toggled externally.
    Switch { is_toggled: bool },
    /// A single-bit sink recording its input for display.
    Indicator { name: String, is_lit: bool },
    /// Concatenates the buses wired to its input into one output bus.
    Compositor,
    /// Splits one input bus into `split_into` output buses: each of the
    /// first `split_into - 1` gets `width / split_into` bits in order, the
    /// last gets the remainder.
    Decompositor { split_into: usize },
    /// The negated-and of two single-bit inputs.
    NAND,
    /// The logical-and of two single-bit inputs.
    AND,
    /// The logical-or of two single-bit inputs.
    OR,
    /// The exclusive-or of two single-bit inputs.
    XOR,
    /// The negated-or of two single-bit inputs.
    NOR,
    /// The negated-exclusive-or of two single-bit inputs.
    XNOR,
    /// A gated oscillator; see [`Clock`].
    Clock { clock: Clock },
    /// A sub-circuit embedded as one node: an internal network whose In and
    /// Out pseudo-nodes stand for the ports, with its own persistent work
    /// queue. One outer evaluation forwards the inputs into the In-nodes,
    /// runs one internal tick, and reads the outputs back from the
    /// Out-nodes - one internal tick per outer tick, so a sub-circuit adds
    /// one level of propagation delay like any other component.
    Composite {
        name: String,
        components: Vec<Component>,
        queue: Vec<usize>,
        in_ports: Vec<(usize, usize)>,
        out_ports: Vec<(usize, usize)>,
    },
}

/// The declared widths of a composite's ports: one bus per port.
pub open spec fn port_widths(ports: Seq<(usize, usize)>) -> Seq<Option<usize>> {
    Seq::new(ports.len(), |p: int| Some(ports[p].1))
}

/// How deeply sub-circuits nest below this behavior: zero for every
/// primitive. Evaluation recurses along this measure.
pub open spec fn updater_height(u: Updater) -> nat
    decreases u, 1int,
{
    match u {
        Updater::Composite { components, .. } => net_height(components@) + 1,
        _ => 0,
    }
}

/// The deepest nesting among a network's behaviors.
pub open spec fn net_height(cs: Seq<Component>) -> nat
    decreases cs, 0int,
{
    if cs.len() == 0 {
        0
    } else {
        let h = updater_height(cs.last().updater);
        let rest = net_height(cs.drop_last());
        if h > rest {
            h
        } else {
            rest
        }
    }
}

/// No behavior nests deeper than its network.
pub proof fn lemma_net_height_bound(cs: Seq<Component>, i: int)
    requires
        0 <= i < cs.len(),
    ensures
        updater_height(cs[i].updater) <= net_height(cs),
    decreases cs.len(),
{
    if i < cs.len() - 1 {
        lemma_net_height_bound(cs.drop_last(), i);
        assert(cs.drop_last()[i] == cs[i]);
    }
}

/// Networks with the same behaviors nest equally deep.
pub proof fn lemma_net_height_pointwise(a: Seq<Component>, b: Seq<Component>)
    requires
        a.len() == b.len(),
        forall|i: int| 0 <= i < a.len() ==> (#[trigger] a[i]).updater == b[i].updater,
    ensures
        net_height(a) == net_height(b),
    decreases a.len(),
{
    if a.len() > 0 {
        assert forall|i: int|
            0 <= i < a.drop_last().len() implies (#[trigger] a.drop_last()[i]).updater
            == b.drop_last()[i].updater by {
            assert(a.drop_last()[i] == a[i]);
            assert(b.drop_last()[i] == b[i]);
        }
        lemma_net_height_pointwise(a.drop_last(), b.drop_last());
        assert(a.last().updater == b.last().updater);
    }
}

/// An all-false bit-vector of the given width.
pub open spec fn zeros(n: nat) -> Seq<bool> {
    Seq::new(n, |i: int| false)
}

/// The width a port of the given declared size reads as when unwired.
pub open spec fn width_of(o: Option<usize>) -> nat {
    match o {
        Some(w) => w as nat,
        None => 0,
    }
}

/// The initial (all-false) port states for the given declared sizes.
pub open spec fn init_states(sizes: Seq<Option<usize>>) -> Seq<Seq<bool>> {
    Seq::new(sizes.len(), |i: int| zeros(width_of(sizes[i])))
}

/// The character for one decimal digit.
pub open spec fn digit_char(d: nat) -> char {
    if d == 0 {
        '0'
    } else if d == 1 {
        '1'
    } else if d == 2 {
        '2'
    } else if d == 3 {
        '3'
    } else if d == 4 {
        '4'
    } else if d == 5 {
        '5'
    } else if d == 6 {
        '6'
    } else if d == 7 {
        '7'
    } else if d == 8 {
        '8'
    } else {
        '9'
    }
}

/// The decimal representation of `n`, most significant digit first.
pub open spec fn dec_rep(n: nat) -> Seq<char>
    decreases n,
{
    if n < 10 {
        seq![digit_char(n)]
    } else {
        dec_rep(n / 10) + seq![digit_char(n % 10)]
    }
}

/// One decimal digit as text.
fn digit_str(d: u32) -> (r: &'static str)
    requires
        d < 10,
    ensures
        r@ == seq![digit_char(d as nat)],
{
    proof {
        reveal_strlit("0");
        reveal_strlit("1");
        reveal_strlit("2");
        reveal_strlit("3");
        reveal_strlit("4");
        reveal_strlit("5");
        reveal_strlit("6");
        reveal_strlit("7");
        reveal_strlit("8");
        reveal_strlit("9");
    }
    match d {
        0 => "0",
        1 => "1",
        2 => "2",
        3 => "3",
        4 => "4",
        5 => "5",
        6 => "6",
        7 => "7",
        8 => "8",
        _ => "9",
    }
}

/// `n` written in decimal.
fn u32_to_string(n: u32) -> (r: String)
    ensures
        r@ == dec_rep(n as nat),
    decreases n,
{
    let d = digit_str(n % 10);
    if n < 10 {
        d.to_string()
    } else {
        proof {
            vstd::arithmetic::div_mod::lemma_div_decreases(n as int, 10);
        }
        let mut s = u32_to_string(n / 10);
        s.append(d);
        s
    }
}

/// A kind's opening text, the user-given label, and the closing mark.
fn labelled(prefix: &str, name: &String) -> (r: String)
    ensures
        r@ == prefix@ + name@ + "\u{bb}"@,
{
    let mut s = prefix.to_string();
    s.append(name.as_str());
    s.append("\u{bb}");
    proof {
        assert(s@ =~= prefix@ + name@ + "\u{bb}"@);
    }
    s
}

/// The declared port widths of a composite, as a vector.
fn port_sizes(ports: &Vec<(usize, usize)>) -> (r: Vec<Option<usize>>)
    ensures
        r@ == port_widths(ports@),
{
    let mut r: Vec<Option<usize>> = Vec::new();
    let mut p: usize = 0;
    while p < ports.len()
        invariant
            p <= ports@.len(),
            r@.len() == p,
            forall|t: int| 0 <= t < p ==> r@[t] == Some(ports@[t].1),
        decreases ports@.len() - p,
    {
        let pr = ports[p];
        r.push(Some(pr.1));
        p += 1;
    }
    proof {
        assert(r@ =~= port_widths(ports@));
    }
    r
}

impl Updater {
    /// Declared input ports: one entry per port, `Some(w)` a fixed width,
    /// `None` a bus whose width comes from what is wired to it.
    pub open spec fn spec_input_count(self) -> Seq<Option<usize>> {
        match self {
            Updater::Constant { .. } => seq![],
            Updater::In { .. } => seq![],
            Updater::Out { size, .. } => seq![Some(size)],
            Updater::Button { .. } => seq![],
            Updater::Switch { .. } => seq![],
            Updater::Indicator { .. } => seq![Some(1usize)],
            Updater::Compositor => seq![None],
            Updater::Decompositor { .. } => seq![None],
            Updater::NAND => seq![Some(1usize), Some(1usize)],
            Updater::AND => seq![Some(1usize), Some(1usize)],
            Updater::OR => seq![Some(1usize), Some(1usize)],
            Updater::XOR => seq![Some(1usize), Some(1usize)],
            Updater::NOR => seq![Some(1usize), Some(1usize)],
            Updater::XNOR => seq![Some(1usize), Some(1usize)],
            Updater::Clock { .. } => seq![Some(1usize)],
            Updater::Composite { in_ports, .. } => port_widths(in_ports@),
        }
    }

    /// Declared output ports, in the same shape as the input ports.
    pub open spec fn spec_output_count(self) -> Seq<Option<usize>> {
        match self {
            Updater::Constant { .. } => seq![Some(1usize)],
            Updater::In { size, .. } => seq![Some(size)],
            Updater::Out { .. } => seq![],
            Updater::Button { .. } => seq![Some(1usize)],
            Updater::Switch { .. } => seq![Some(1usize)],
            Updater::Indicator { .. } => seq![],
            Updater::Compositor => seq![None],
            Updater::Decompositor { split_into } => Seq::new(
                split_into as nat,
                |i: int| None,
            ),
            Updater::NAND => seq![Some(1usize)],
            Updater::AND => seq![Some(1usize)],
            Updater::OR => seq![Some(1usize)],
            Updater::XOR => seq![Some(1usize)],
            Updater::NOR => seq![Some(1usize)],
            Updater::XNOR => seq![Some(1usize)],
            Updater::Clock { .. } => seq![Some(1usize)],
            Updater::Composite { out_ports, .. } => port_widths(out_ports@),
        }
    }

    /// Whether this behavior can change its output without any input
    /// changing, so that the scheduler must re-enqueue it each tick.
    pub open spec fn spec_force_update(self) -> bool {
        match self {
            Updater::Button { .. } => true,
            Updater::Switch { .. } => true,
            Updater::Clock { .. } => true,
            Updater::Composite { .. } => true,
            _ => false,
        }
    }

    /// The display name of this behavior: the kind, with the user-given
    /// label for the named variants, and the periods for a clock.
    pub open spec fn spec_name(self) -> Seq<char> {
        match self {
            Updater::Constant { .. } => "Constant"@,
            Updater::In { name, .. } => "In \u{ab}"@ + name@ + "\u{bb}"@,
            Updater::Out { name, .. } => "Out \u{ab}"@ + name@ + "\u{bb}"@,
            Updater::Button { .. } => "Button"@,
            Updater::Switch { .. } => "Switch"@,
            Updater::Indicator { name, .. } => "Indicator \u{ab}"@ + name@ + "\u{bb}"@,
            Updater::Compositor => "Compositor"@,
            Updater::Decompositor { .. } => "Decompositor"@,
            Updater::NAND => "NAND"@,
            Updater::AND => "AND"@,
            Updater::OR => "OR"@,
            Updater::XOR => "XOR"@,
            Updater::NOR => "NOR"@,
            Updater::XNOR => "XNOR"@,
            Updater::Clock { clock } => "Clock "@ + dec_rep(clock.off_period as nat) + "/"@
                + dec_rep(clock.cycle_length as nat),
            Updater::Composite { name, .. } => "Composite \u{ab}"@ + name@ + "\u{bb}"@,
        }
    }

    /// What a composite keeps well-formed inside: a duplicate-free queue of
    /// existing nodes; port maps naming distinct existing In-nodes and
    /// existing Out-nodes of the declared widths; and every internal
    /// component primitive and ready to evaluate against the internal
    /// snapshot. Sub-circuits hold primitive components only - a deeper
    /// sub-circuit is malformed topology, to be rejected when the composite
    /// is built. Other behaviors carry nothing inside.
    pub open spec fn internal_wf(self) -> bool {
        match self {
            Updater::Composite { components, queue, in_ports, out_ports, .. } => {
                &&& queue@.no_duplicates()
                &&& forall|j: int|
                    0 <= j < queue@.len() ==> (#[trigger] queue@[j] as nat) < components@.len()
                &&& forall|p: int|
                    0 <= p < in_ports@.len() ==> {
                        let pr = #[trigger] in_ports@[p];
                        &&& (pr.0 as nat) < components@.len()
                        &&& components@[pr.0 as int].updater matches Updater::In { size, .. }
                            && size == pr.1
                    }
                &&& forall|p1: int, p2: int|
                    0 <= p1 < in_ports@.len() && 0 <= p2 < in_ports@.len() && (
                    #[trigger] in_ports@[p1]).0 == (#[trigger] in_ports@[p2]).0 ==> p1 == p2
                &&& forall|p: int|
                    0 <= p < out_ports@.len() ==> {
                        let pr = #[trigger] out_ports@[p];
                        &&& (pr.0 as nat) < components@.len()
                        &&& components@[pr.0 as int].updater matches Updater::Out { size, .. }
                            && size == pr.1
                    }
                &&& forall|i: int|
                    0 <= i < components@.len() ==> {
                        let c = #[trigger] components@[i];
                        &&& c.wf()
                        &&& c.deps_ok(states_of(components@))
                        &&& inputs_ok(c.updater, c.gather(states_of(components@)))
                        &&& forall|m: int|
                            0 <= m < c.connected_to@.len() ==> (#[trigger] c.connected_to@[m] as nat)
                                < components@.len()
                        &&& !(c.updater matches Updater::Composite { .. })
                    }
            },
            _ => true,
        }
    }

    pub fn name(&self) -> (r: String)
        ensures
            r@ == self.spec_name(),
    {
        match self {
            Updater::Constant { .. } => "Constant".to_string(),
            Updater::In { name, .. } => labelled("In \u{ab}", name),
            Updater::Out { name, .. } => labelled("Out \u{ab}", name),
            Updater::Button { .. } => "Button".to_string(),
            Updater::Switch { .. } => "Switch".to_string(),
            Updater::Indicator { name, .. } => labelled("Indicator \u{ab}", name),
            Updater::Compositor => "Compositor".to_string(),
            Updater::Decompositor { .. } => "Decompositor".to_string(),
            Updater::NAND => "NAND".to_string(),
            Updater::AND => "AND".to_string(),
            Updater::OR => "OR".to_string(),
            Updater::XOR => "XOR".to_string(),
            Updater::NOR => "NOR".to_string(),
            Updater::XNOR => "XNOR".to_string(),
            Updater::Clock { clock } => {
                let mut s = "Clock ".to_string();
                let off = u32_to_string(clock.off_period);
                s.append(off.as_str());
                s.append("/");
                let cyc = u32_to_string(clock.cycle_length);
                s.append(cyc.as_str());
                proof {
                    assert(s@ =~= "Clock "@ + dec_rep(clock.off_period as nat) + "/"@
                        + dec_rep(clock.cycle_length as nat));
                }
                s
            },
            Updater::Composite { name, .. } => labelled("Composite \u{ab}", name),
        }
    }

    pub fn input_count(&self) -> (r: Vec<Option<usize>>)
        ensures
            r@ == self.spec_input_count(),
    {
        match self {
            Updater::Constant { .. } => vec![],
            Updater::In { .. } => vec![],
            Updater::Out { size, .. } => vec![Some(*size)],
            Updater::Button { .. } => vec![],
            Updater::Switch { .. } => vec![],
            Updater::Indicator { .. } => vec![Some(1usize)],
            Updater::Compositor => vec![None],
            Updater::Decompositor { .. } => vec![None],
            Updater::NAND => vec![Some(1usize), Some(1usize)],
            Updater::AND => vec![Some(1usize), Some(1usize)],
            Updater::OR => vec![Some(1usize), Some(1usize)],
            Updater::XOR => vec![Some(1usize), Some(1usize)],
            Updater::NOR => vec![Some(1usize), Some(1usize)],
            Updater::XNOR => vec![Some(1usize), Some(1usize)],
            Updater::Clock { .. } => vec![Some(1usize)],
            Updater::Composite { in_ports, .. } => port_sizes(in_ports),
        }
    }

    pub fn output_count(&self) -> (r: Vec<Option<usize>>)
        ensures
            r@ == self.spec_output_count(),
    {
        match self {
            Updater::Constant { .. } => vec![Some(1usize)],
            Updater::In { size, .. } => vec![Some(*size)],
            Updater::Out { .. } => vec![],
            Updater::Button { .. } => vec![Some(1usize)],
            Updater::Switch { .. } => vec![Some(1usize)],
            Updater::Indicator { .. } => vec![],
            Updater::Compositor => vec![None],
            Updater::Decompositor { split_into } => {
                let mut r: Vec<Option<usize>> = Vec::new();
                let mut i: usize = 0;
                while i < *split_into
                    invariant
                        i <= *split_into,
                        r@ =~= Seq::new(i as nat, |j: int| None::<usize>),
                    decreases *split_into - i,
                {
                    r.push(None);
                    i += 1;
                }
                proof {
                    assert(r@ =~= self.spec_output_count());
                }
                r
            },
            Updater::NAND => vec![Some(1usize)],
            Updater::AND => vec![Some(1usize)],
            Updater::OR => vec![Some(1usize)],
            Updater::XOR => vec![Some(1usize)],
            Updater::NOR => vec![Some(1usize)],
            Updater::XNOR => vec![Some(1usize)],
            Updater::Clock { .. } => vec![Some(1usize)],
            Updater::Composite { out_ports, .. } => port_sizes(out_ports),
        }
    }

    pub fn force_update(&self) -> (r: bool)
        ensures
            r == self.spec_force_update(),
    {
        match self {
            Updater::Button { .. } => true,
            Updater::Switch { .. } => true,
            Updater::Clock { .. } => true,
            Updater::Composite { .. } => true,
            _ => false,
        }
    }
}

/// The given input bus split into `k` buses: the first `k - 1` take
/// `len / k` bits each, in order; the last takes the remainder.
pub open spec fn decompose(bits: Seq<bool>, k: nat) -> Seq<Seq<bool>>
    recommends
        k >= 1,
{
    let per = bits.len() as int / k as int;
    Seq::new(
        k,
        |i: int|
            if i < k - 1 {
                bits.subrange(i * per, (i + 1) * per)
            } else {
                bits.subrange((k - 1) * per, bits.len() as int)
            },
    )
}

/// What an Out pseudo-node has recorded; an empty bus for any other
/// behavior.
pub open spec fn out_value(u: Updater) -> Seq<bool> {
    match u {
        Updater::Out { value, .. } => value@,
        _ => Seq::empty(),
    }
}

/// How forwarding the external inputs into a composite's In-nodes relates
/// the stored internal network `base` and queue `q0` to the forwarded
/// network `fwd` and queue `q1`: each port node's single output takes the
/// matching input, committed and pending alike; everything else stands; and
/// the fan-out of every port whose value changed is enqueued.
pub open spec fn forwarded_rel(
    base: Seq<Component>,
    ports: Seq<(usize, usize)>,
    input: Seq<Seq<bool>>,
    q0: Seq<usize>,
    fwd: Seq<Component>,
    q1: Seq<usize>,
) -> bool {
    &&& fwd.len() == base.len()
    &&& forall|i: int|
        0 <= i < base.len() && !(exists|p: int|
            0 <= p < ports.len() && (#[trigger] ports[p]).0 as int == i) ==> fwd[i]
            == base[i]
    &&& forall|p: int|
        0 <= p < ports.len() ==> {
            let n = (#[trigger] ports[p]).0 as int;
            &&& fwd[n].state.deep_view() == base[n].state.deep_view().update(0, input[p])
            &&& fwd[n].next_state.deep_view() == base[n].next_state.deep_view().update(
                0,
                input[p],
            )
            &&& fwd[n].depends_on == base[n].depends_on
            &&& fwd[n].connected_to == base[n].connected_to
            &&& fwd[n].updater == base[n].updater
        }
    &&& q1.no_duplicates()
    &&& forall|x: usize|
        #[trigger] q1.contains(x) <==> (q0.contains(x) || exists|p: int|
            0 <= p < ports.len() && base[(#[trigger] ports[p]).0 as int].state.deep_view()[0]
                != input[p] && base[ports[p].0 as int].connected_to@.contains(x))
}

/// How one internal evaluation relates a component of a sub-circuit to its
/// updated self. `bu` is the behavior as the composite stores it, which the
/// forwarded component still carries: the recursion walks the stored
/// structure.
pub open spec fn subnet_comp_updates(
    bu: Updater,
    c: Component,
    snap: Seq<Seq<Seq<bool>>>,
    c2: Component,
) -> bool {
    &&& c.updater == bu
    &&& c2.state == c.state
    &&& c2.depends_on == c.depends_on
    &&& c2.connected_to == c.connected_to
    &&& updater_evals_prim(
        bu,
        c.gather(snap),
        c.next_state.deep_view(),
        c2.updater,
        c2.next_state.deep_view(),
    )
}

/// One internal component's whole tick: evaluate, then commit.
pub open spec fn subnet_comp_ticks(
    bu: Updater,
    c: Component,
    snap: Seq<Seq<Seq<bool>>>,
    c2: Component,
) -> bool {
    exists|mid: Component| subnet_comp_updates(bu, c, snap, mid) && component_commits_to(mid, c2)
}

/// Why an id stands in a sub-circuit's queue after its internal tick.
pub open spec fn subnet_reason(
    fwd: Seq<Component>,
    cs2: Seq<Component>,
    q: Seq<usize>,
    id: usize,
) -> bool {
    ||| exists|j: int|
        0 <= j < q.len() && cs2[#[trigger] q[j] as int].state.deep_view()
            != fwd[q[j] as int].state.deep_view() && fwd[q[j] as int].connected_to@.contains(id)
    ||| exists|j: int|
        0 <= j < q.len() && #[trigger] q[j] == id && id < fwd.len()
            && fwd[id as int].updater.spec_force_update()
}

/// One tick of a sub-circuit's network, mirrored from the scheduler's tick
/// relation: every queued internal component is evaluated against the
/// internal snapshot and committed, the rest stand, and the new internal
/// queue holds exactly the fan-out of the changes plus the forcing
/// behaviors.
pub open spec fn subnet_ticks_to(
    base: Seq<Component>,
    fwd: Seq<Component>,
    q: Seq<usize>,
    cs2: Seq<Component>,
    q2: Seq<usize>,
) -> bool {
    let snap = states_of(fwd);
    &&& fwd.len() == base.len()
    &&& cs2.len() == fwd.len()
    &&& forall|i: usize| (i as nat) < fwd.len() && !q.contains(i) ==> cs2[i as int] == fwd[i as int]
    &&& forall|i: usize|
        (i as nat) < fwd.len() && q.contains(i) ==> subnet_comp_ticks(
            (#[trigger] base[i as int]).updater,
            fwd[i as int],
            snap,
            cs2[i as int],
        )
    &&& q2.no_duplicates()
    &&& forall|id: usize| #[trigger] q2.contains(id) <==> subnet_reason(fwd, cs2, q, id)
}

/// [`updater_evals_to`], restricted to the primitive behaviors: inside a
/// sub-circuit every component is primitive, so its internal tick needs no
/// deeper recursion.
pub open spec fn updater_evals_prim(
    u: Updater,
    input: Seq<Seq<bool>>,
    out0: Seq<Seq<bool>>,
    u2: Updater,
    out2: Seq<Seq<bool>>,
) -> bool {
    match u {
        Updater::Constant { state } => u2 == u && out2 == seq![seq![state]],
        Updater::In { .. } => u2 == u && out2 == out0,
        Updater::Out { name, size, port, value } => {
            &&& u2 matches Updater::Out { name: n2, size: s2, port: p2, value: v2 } && n2 == name
                && s2 == size && p2 == port && v2@ == input[0]
            &&& out2 == out0
        },
        Updater::Button { is_pressed } => u2 == u && out2 == seq![seq![is_pressed]],
        Updater::Switch { is_toggled } => u2 == u && out2 == seq![seq![is_toggled]],
        Updater::Indicator { name, is_lit } => {
            &&& u2 == (Updater::Indicator { name, is_lit: input[0][0] })
            &&& out2 == out0
        },
        Updater::Compositor => u2 == u && out2 == seq![input[0]],
        Updater::Decompositor { split_into } => {
            &&& u2 == u
            &&& if split_into == 0 {
                out2 == out0
            } else {
                out2 == decompose(input[0], split_into as nat)
            }
        },
        Updater::NAND => u2 == u && out2 == seq![seq![!(input[0][0] && input[1][0])]],
        Updater::AND => u2 == u && out2 == seq![seq![input[0][0] && input[1][0]]],
        Updater::OR => u2 == u && out2 == seq![seq![input[0][0] || input[1][0]]],
        Updater::XOR => u2 == u && out2 == seq![seq![input[0][0] != input[1][0]]],
        Updater::NOR => u2 == u && out2 == seq![seq![!(input[0][0] || input[1][0])]],
        Updater::XNOR => u2 == u && out2 == seq![seq![input[0][0] == input[1][0]]],
        Updater::Clock { clock } => {
            if input[0][0] {
                &&& u2 == (Updater::Clock { clock: clock.spec_stepped() })
                &&& out2 == seq![seq![clock.spec_output()]]
            } else {
                &&& u2 == u
                &&& out2 == out0
            }
        },
        Updater::Composite { .. } => false,
    }
}

/// On a primitive behavior the two evaluation relations agree.
pub proof fn lemma_evals_prim_agrees(
    u: Updater,
    input: Seq<Seq<bool>>,
    out0: Seq<Seq<bool>>,
    u2: Updater,
    out2: Seq<Seq<bool>>,
)
    requires
        !(u matches Updater::Composite { .. }),
        updater_evals_to(u, input, out0, u2, out2),
    ensures
        updater_evals_prim(u, input, out0, u2, out2),
{
}

/// How a sub-circuit advances in one outer evaluation: some forwarding of
/// the inputs into the In-nodes, followed by one internal tick, takes the
/// stored network and queue to the new ones.
pub open spec fn composite_advance(
    components: Vec<Component>,
    queue: Vec<usize>,
    in_ports: Vec<(usize, usize)>,
    input: Seq<Seq<bool>>,
    nc2: Vec<Component>,
    nq2: Vec<usize>,
) -> bool {
    exists|fwd: Seq<Component>, q1: Seq<usize>|
        forwarded_rel(components@, in_ports@, input, queue@, fwd, q1) && subnet_ticks_to(
            components@,
            fwd,
            q1,
            nc2@,
            nq2@,
        )
}

/// The composite case of [`updater_evals_to`], on the sub-circuit's parts:
/// the ports and name stand; some forwarding of the inputs followed by one
/// internal tick takes the stored network and queue to the new ones; and
/// the outputs are what the Out-nodes then record.
pub open spec fn composite_evals_to(
    name: String,
    components: Vec<Component>,
    queue: Vec<usize>,
    in_ports: Vec<(usize, usize)>,
    out_ports: Vec<(usize, usize)>,
    input: Seq<Seq<bool>>,
    u2: Updater,
    out2: Seq<Seq<bool>>,
) -> bool {
    u2 matches Updater::Composite {
        name: n2,
        components: nc2,
        queue: nq2,
        in_ports: ip2,
        out_ports: op2,
    } && n2 == name && ip2 == in_ports && op2 == out_ports && composite_advance(
        components,
        queue,
        in_ports,
        input,
        nc2,
        nq2,
    ) && out2.len() == out_ports@.len() && (forall|p: int|
        0 <= p < out_ports@.len() ==> #[trigger] out2[p] == out_value(
            nc2@[out_ports@[p].0 as int].updater,
        ))
}

/// How one evaluation of a behavior relates its old value, gathered input
/// bit-vectors and previous pending output to its new value and new pending
/// output. This is the behavioral model of every variant.
pub open spec fn updater_evals_to(
    u: Updater,
    input: Seq<Seq<bool>>,
    out0: Seq<Seq<bool>>,
    u2: Updater,
    out2: Seq<Seq<bool>>,
) -> bool {
    match u {
        Updater::Constant { state } => u2 == u && out2 == seq![seq![state]],
        Updater::In { .. } => u2 == u && out2 == out0,
        Updater::Out { name, size, port, value } => {
            &&& u2 matches Updater::Out { name: n2, size: s2, port: p2, value: v2 } && n2 == name
                && s2 == size && p2 == port && v2@ == input[0]
            &&& out2 == out0
        },
        Updater::Button { is_pressed } => u2 == u && out2 == seq![seq![is_pressed]],
        Updater::Switch { is_toggled } => u2 == u && out2 == seq![seq![is_toggled]],
        Updater::Indicator { name, is_lit } => {
            &&& u2 == (Updater::Indicator { name, is_lit: input[0][0] })
            &&& out2 == out0
        },
        Updater::Compositor => u2 == u && out2 == seq![input[0]],
        Updater::Decompositor { split_into } => {
            &&& u2 == u
            &&& if split_into == 0 {
                out2 == out0
            } else {
                out2 == decompose(input[0], split_into as nat)
            }
        },
        Updater::NAND => u2 == u && out2 == seq![seq![!(input[0][0] && input[1][0])]],
        Updater::AND => u2 == u && out2 == seq![seq![input[0][0] && input[1][0]]],
        Updater::OR => u2 == u && out2 == seq![seq![input[0][0] || input[1][0]]],
        Updater::XOR => u2 == u && out2 == seq![seq![input[0][0] != input[1][0]]],
        Updater::NOR => u2 == u && out2 == seq![seq![!(input[0][0] || input[1][0])]],
        Updater::XNOR => u2 == u && out2 == seq![seq![input[0][0] == input[1][0]]],
        Updater::Clock { clock } => {
            if input[0][0] {
                &&& u2 == (Updater::Clock { clock: clock.spec_stepped() })
                &&& out2 == seq![seq![clock.spec_output()]]
            } else {
                &&& u2 == u
                &&& out2 == out0
            }
        },
        Updater::Composite { name, components, queue, in_ports, out_ports } => composite_evals_to(
            name,
            components,
            queue,
            in_ports,
            out_ports,
            input,
            u2,
            out2,
        ),
    }
}

/// Assembles the composite case of [`updater_evals_to`] from its pieces.
#[verifier::spinoff_prover]
#[verifier::rlimit(50)]
pub proof fn lemma_composite_evals(
    c0: Updater,
    inp: Seq<Seq<bool>>,
    out0: Seq<Seq<bool>>,
    c2: Updater,
    out2: Seq<Seq<bool>>,
)
    requires
        c0 matches Updater::Composite { .. },
        c2 matches Updater::Composite { .. },
        c2->Composite_name == c0->Composite_name,
        c2->Composite_in_ports == c0->Composite_in_ports,
        c2->Composite_out_ports == c0->Composite_out_ports,
        exists|fwd: Seq<Component>, q1: Seq<usize>|
            forwarded_rel(
                c0->Composite_components@,
                c0->Composite_in_ports@,
                inp,
                c0->Composite_queue@,
                fwd,
                q1,
            ) && subnet_ticks_to(
                c0->Composite_components@,
                fwd,
                q1,
                c2->Composite_components@,
                c2->Composite_queue@,
            ),
        out2.len() == c0->Composite_out_ports@.len(),
        forall|p: int|
            0 <= p < c0->Composite_out_ports@.len() ==> #[trigger] out2[p] == out_value(
                c2->Composite_components@[c0->Composite_out_ports@[p].0 as int].updater,
            ),
    ensures
        updater_evals_to(c0, inp, out0, c2, out2),
{
    match c0 {
        Updater::Composite { name, components, queue, in_ports, out_ports } => {
            match c2 {
                Updater::Composite {
                    name: n2,
                    components: nc2,
                    queue: nq2,
                    in_ports: ip2,
                    out_ports: op2,
                } => {
                    assert(composite_advance(components, queue, in_ports, inp, nc2, nq2)) by {
                        assert(exists|fwd: Seq<Component>, q1: Seq<usize>|
                            forwarded_rel(components@, in_ports@, inp, queue@, fwd, q1)
                                && subnet_ticks_to(components@, fwd, q1, nc2@, nq2@));
                    }
                    assert(composite_evals_to(
                        name,
                        components,
                        queue,
                        in_ports,
                        out_ports,
                        inp,
                        c2,
                        out2,
                    ));
                },
                _ => {
                    assert(false);
                },
            }
        },
        _ => {},
    }
}

/// Whether gathered inputs have one bit-vector per declared port, with the
/// declared width wherever the port's width is fixed.
pub open spec fn inputs_ok(u: Updater, input: Seq<Seq<bool>>) -> bool {
    &&& input.len() == u.spec_input_count().len()
    &&& forall|s: int|
        0 <= s < input.len() ==> (#[trigger] u.spec_input_count()[s] matches Some(w)
            ==> input[s].len() == w)
}

/// Whether pending outputs have one bit-vector per declared port, with the
/// declared width wherever the port's width is fixed.
pub open spec fn outputs_ok(u: Updater, out: Seq<Seq<bool>>) -> bool {
    &&& out.len() == u.spec_output_count().len()
    &&& forall|s: int|
        0 <= s < out.len() ==> (#[trigger] u.spec_output_count()[s] matches Some(w)
            ==> out[s].len() == w)
}

/// The deep view of a slice of bit-vectors is its rows' views, pointwise.
pub proof fn lemma_slice_rows_deep(input: &[Vec<bool>])
    ensures
        input.deep_view().len() == input@.len(),
        forall|i: int| 0 <= i < input@.len() ==> input.deep_view()[i] == input@[i]@,
{
    assert forall|i: int| 0 <= i < input@.len() implies input.deep_view()[i] == input@[i]@ by {
        assert(input@[i].deep_view() =~= input@[i]@);
    }
}

/// The deep view of a vector of bit-vectors is its rows' views, pointwise.
pub proof fn lemma_vec_rows_deep(v: &Vec<Vec<bool>>)
    ensures
        v.deep_view().len() == v@.len(),
        forall|i: int| 0 <= i < v@.len() ==> v.deep_view()[i] == v@[i]@,
{
    assert forall|i: int| 0 <= i < v@.len() implies v.deep_view()[i] == v@[i]@ by {
        assert(v@[i].deep_view() =~= v@[i]@);
    }
}

impl Updater {
    /// One evaluation: reads the gathered inputs, rewrites the pending
    /// outputs, and advances any internal state (a clock counter, an
    /// indicator's lamp, an output pseudo-node's record).
    pub fn update(&mut self, input: &[Vec<bool>], output: &mut Vec<Vec<bool>>)
        requires
            inputs_ok(*old(self), input.deep_view()),
            outputs_ok(*old(self), old(output).deep_view()),
            old(self).internal_wf(),
        ensures
            updater_evals_to(
                *old(self),
                input.deep_view(),
                old(output).deep_view(),
                *final(self),
                final(output).deep_view(),
            ),
        decreases updater_height(*self), 1int,
    {
        proof {
            lemma_slice_rows_deep(input);
            lemma_vec_rows_deep(output);
        }
        match self {
            Updater::Constant { state } => {
                let mut row: Vec<bool> = Vec::new();
                row.push(*state);
                output.set(0, row);
                proof {
                    assert(final(output).deep_view() =~~= seq![seq![final(self)->Constant_state]]);
                }
            },
            Updater::In { .. } => {},
            Updater::Out { value, .. } => {
                let row = copy_bits(&input[0]);
                *value = row;
                proof {
                    assert(input.deep_view()[0] == input@[0]@);
                }
            },
            Updater::Button { is_pressed } => {
                let mut row: Vec<bool> = Vec::new();
                row.push(*is_pressed);
                output.set(0, row);
                proof {
                    assert(final(output).deep_view() =~~= seq![
                        seq![final(self)->Button_is_pressed],
                    ]);
                }
            },
            Updater::Switch { is_toggled } => {
                let mut row: Vec<bool> = Vec::new();
                row.push(*is_toggled);
                output.set(0, row);
                proof {
                    assert(final(output).deep_view() =~~= seq![
                        seq![final(self)->Switch_is_toggled],
                    ]);
                }
            },
            Updater::Indicator { is_lit, .. } => {
                proof {
                    assert(old(self).spec_input_count()[0] == Some(1usize));
                    assert(input@[0]@.len() == 1);
                }
                *is_lit = input[0][0];
            },
            Updater::Compositor => {
                let row = copy_bits(&input[0]);
                output.set(0, row);
                proof {
                    assert(final(output).deep_view() =~~= seq![input.deep_view()[0]]);
                }
            },
            Updater::Decompositor { split_into } => {
                let k = *split_into;
                if k > 0 {
                    decompose_into(&input[0], k, output);
                    proof {
                        assert(input.deep_view()[0] == input@[0]@);
                    }
                }
            },
            Updater::NAND => {
                proof {
                    assert(old(self).spec_input_count()[0] == Some(1usize));
                    assert(old(self).spec_input_count()[1] == Some(1usize));
                    assert(input@[0]@.len() == 1 && input@[1]@.len() == 1);
                }
                let mut pair: Vec<bool> = Vec::new();
                pair.push(input[0][0]);
                pair.push(input[1][0]);
                let row = NAND.update(pair.as_slice());
                output.set(0, row);
                proof {
                    assert(final(output).deep_view() =~~= seq![
                        seq![!(input.deep_view()[0][0] && input.deep_view()[1][0])],
                    ]);
                }
            },
            Updater::AND => {
                proof {
                    assert(old(self).spec_input_count()[0] == Some(1usize));
                    assert(old(self).spec_input_count()[1] == Some(1usize));
                    assert(input@[0]@.len() == 1 && input@[1]@.len() == 1);
                }
                let mut pair: Vec<bool> = Vec::new();
                pair.push(input[0][0]);
                pair.push(input[1][0]);
                let row = AND.update(pair.as_slice());
                output.set(0, row);
                proof {
                    assert(final(output).deep_view() =~~= seq![
                        seq![(input.deep_view()[0][0] && input.deep_view()[1][0])],
                    ]);
                }
            },
            Updater::OR => {
                proof {
                    assert(old(self).spec_input_count()[0] == Some(1usize));
                    assert(old(self).spec_input_count()[1] == Some(1usize));
                    assert(input@[0]@.len() == 1 && input@[1]@.len() == 1);
                }
                let mut pair: Vec<bool> = Vec::new();
                pair.push(input[0][0]);
                pair.push(input[1][0]);
                let row = OR.update(pair.as_slice());
                output.set(0, row);
                proof {
                    assert(final(output).deep_view() =~~= seq![
                        seq![(input.deep_view()[0][0] || input.deep_view()[1][0])],
                    ]);
                }
            },
            Updater::XOR => {
                proof {
                    assert(old(self).spec_input_count()[0] == Some(1usize));
                    assert(old(self).spec_input_count()[1] == Some(1usize));
                    assert(input@[0]@.len() == 1 && input@[1]@.len() == 1);
                }
                let mut pair: Vec<bool> = Vec::new();
                pair.push(input[0][0]);
                pair.push(input[1][0]);
                let row = XOR.update(pair.as_slice());
                output.set(0, row);
                proof {
                    assert(final(output).deep_view() =~~= seq![
                        seq![(input.deep_view()[0][0] != input.deep_view()[1][0])],
                    ]);
                }
            },
            Updater::NOR => {
                proof {
                    assert(old(self).spec_input_count()[0] == Some(1usize));
                    assert(old(self).spec_input_count()[1] == Some(1usize));
                    assert(input@[0]@.len() == 1 && input@[1]@.len() == 1);
                }
                let mut pair: Vec<bool> = Vec::new();
                pair.push(input[0][0]);
                pair.push(input[1][0]);
                let row = NOR.update(pair.as_slice());
                output.set(0, row);
                proof {
                    assert(final(output).deep_view() =~~= seq![
                        seq![!(input.deep_view()[0][0] || input.deep_view()[1][0])],
                    ]);
                }
            },
            Updater::XNOR => {
                proof {
                    assert(old(self).spec_input_count()[0] == Some(1usize));
                    assert(old(self).spec_input_count()[1] == Some(1usize));
                    assert(input@[0]@.len() == 1 && input@[1]@.len() == 1);
                }
                let mut pair: Vec<bool> = Vec::new();
                pair.push(input[0][0]);
                pair.push(input[1][0]);
                let row = XNOR.update(pair.as_slice());
                output.set(0, row);
                proof {
                    assert(final(output).deep_view() =~~= seq![
                        seq![(input.deep_view()[0][0] == input.deep_view()[1][0])],
                    ]);
                }
            },
            Updater::Clock { clock } => {
                proof {
                    assert(old(self).spec_input_count()[0] == Some(1usize));
                    assert(input@[0]@.len() == 1);
                }
                match clock.step(input[0][0]) {
                    Some(b) => {
                        let mut row: Vec<bool> = Vec::new();
                        row.push(b);
                        output.set(0, row);
                        proof {
                            assert(final(output).deep_view() =~~= seq![seq![b]]);
                        }
                    },
                    None => {},
                }
            },
            Updater::Composite { components, queue, in_ports, out_ports, .. } => {
                proof {
                    assert(old(self).spec_input_count() == port_widths(in_ports@));
                    assert(old(self).spec_output_count() == port_widths(out_ports@));
                    assert(updater_height(*old(self)) == net_height(components@) + 1);
                    assert forall|p: int|
                        0 <= p < in_ports@.len() implies #[trigger] input.deep_view()[p].len()
                        == in_ports@[p].1 by {
                        assert(old(self).spec_input_count()[p] == Some(in_ports@[p].1));
                    }
                    assert(old(output)@.len() == old(output).deep_view().len());
                }
                let ghost cv0 = *components;
                let ghost qv0 = *queue;
                proof {
                    assert((*old(self))->Composite_components == cv0);
                    assert((*old(self))->Composite_queue == qv0);
                }
                crate::simulation::run_composite(
                    components,
                    queue,
                    in_ports,
                    out_ports,
                    input,
                    output,
                );
                proof {
                    let ghost c0 = *old(self);
                    let ghost c2 = *final(self);
                    assert(c0 matches Updater::Composite { .. });
                    assert(c2 matches Updater::Composite { .. });
                    assert(c2->Composite_name == c0->Composite_name);
                    assert(c2->Composite_in_ports == c0->Composite_in_ports);
                    assert(c2->Composite_out_ports == c0->Composite_out_ports);
                    assert(c0->Composite_components == cv0);
                    assert(c0->Composite_queue == qv0);
                    assert(c2->Composite_components@ == components@);
                    assert(c2->Composite_queue@ == queue@);
                    assert(exists|fwd: Seq<Component>, q1: Seq<usize>|
                        forwarded_rel(
                            cv0@,
                            c0->Composite_in_ports@,
                            input.deep_view(),
                            qv0@,
                            fwd,
                            q1,
                        ) && subnet_ticks_to(cv0@, fwd, q1, components@, queue@));
                    assert(exists|fwd: Seq<Component>, q1: Seq<usize>|
                        forwarded_rel(
                            c0->Composite_components@,
                            c0->Composite_in_ports@,
                            input.deep_view(),
                            c0->Composite_queue@,
                            fwd,
                            q1,
                        ) && subnet_ticks_to(
                            c0->Composite_components@,
                            fwd,
                            q1,
                            c2->Composite_components@,
                            c2->Composite_queue@,
                        ));
                    assert(final(output).deep_view().len() == c0->Composite_out_ports@.len());
                    assert forall|p: int|
                        0 <= p < c0->Composite_out_ports@.len() implies #[trigger] final(output).deep_view()[p]
                        == out_value(
                        c2->Composite_components@[c0->Composite_out_ports@[p].0 as int].updater,
                    ) by {}
                    lemma_composite_evals(
                        c0,
                        input.deep_view(),
                        old(output).deep_view(),
                        c2,
                        final(output).deep_view(),
                    );
                }
            },
        }
    }
}

/// Copies a bit-vector.
pub(crate) fn copy_bits(v: &Vec<bool>) -> (r: Vec<bool>)
    ensures
        r@ == v@,
{
    let mut r: Vec<bool> = Vec::new();
    let mut i: usize = 0;
    while i < v.len()
        invariant
            i <= v.len(),
            r@ =~= v@.take(i as int),
        decreases v.len() - i,
    {
        r.push(v[i]);
        i += 1;
    }
    proof {
        assert(r@ =~= v@);
    }
    r
}

/// Copies the bits of `v` from `a` (inclusive) to `b` (exclusive).
fn copy_range(v: &Vec<bool>, a: usize, b: usize) -> (r: Vec<bool>)
    requires
        a <= b <= v@.len(),
    ensures
        r@ == v@.subrange(a as int, b as int),
{
    let mut r: Vec<bool> = Vec::new();
    let mut i: usize = a;
    while i < b
        invariant
            a <= i <= b <= v@.len(),
            r@ =~= v@.subrange(a as int, i as int),
        decreases b - i,
    {
        r.push(v[i]);
        i += 1;
    }
    proof {
        assert(r@ =~= v@.subrange(a as int, b as int));
    }
    r
}

/// Rewrites `output` with `bits` split into `k` buses, by the rule of
/// [`decompose`].
fn decompose_into(bits: &Vec<bool>, k: usize, output: &mut Vec<Vec<bool>>)
    requires
        k >= 1,
        old(output)@.len() == k,
    ensures
        final(output).deep_view() == decompose(bits@, k as nat),
{
    let w = bits.len();
    let per = w / k;
    proof {
        vstd::arithmetic::div_mod::lemma_fundamental_div_mod(w as int, k as int);
        vstd::arithmetic::div_mod::lemma_mod_bound(w as int, k as int);
        assert(k as int * per as int <= w as int);
    }
    let mut i: usize = 0;
    while i < k - 1
        invariant
            k >= 1,
            i <= k - 1,
            w == bits@.len(),
            per == w as int / k as int,
            k as int * per as int <= w as int,
            output@.len() == k,
            forall|j: int| 0 <= j < i ==> #[trigger] output@[j]@ == decompose(bits@, k as nat)[j],
        decreases k - 1 - i,
    {
        proof {
            vstd::arithmetic::mul::lemma_mul_inequality(i as int, i as int + 1, per as int);
            vstd::arithmetic::mul::lemma_mul_inequality(i as int + 1, k as int, per as int);
            vstd::arithmetic::mul::lemma_mul_is_distributive_add_other_way(
                per as int,
                i as int,
                1,
            );
        }
        let lo = i * per;
        let hi = lo + per;
        let row = copy_range(bits, lo, hi);
        output.set(i, row);
        proof {
            assert(output@[i as int]@ == decompose(bits@, k as nat)[i as int]);
        }
        i += 1;
    }
    proof {
        vstd::arithmetic::mul::lemma_mul_inequality(k as int - 1, k as int, per as int);
    }
    let lo = (k - 1) * per;
    let row = copy_range(bits, lo, w);
    output.set(k - 1, row);
    proof {
        lemma_vec_rows_deep(output);
        assert(output@[k - 1]@ == decompose(bits@, k as nat)[k - 1]);
        assert forall|j: int| 0 <= j < k implies output.deep_view()[j] == decompose(
            bits@,
            k as nat,
        )[j] by {
            assert(output.deep_view()[j] == output@[j]@);
        }
        assert(final(output).deep_view() =~= decompose(bits@, k as nat));
    }
}

/// Whether `parts` are the consecutive pieces of `bits` from `off` to its
/// end.
pub open spec fn covers(bits: Seq<bool>, parts: Seq<Seq<bool>>, off: int) -> bool
    decreases parts.len(),
{
    if parts.len() == 0 {
        off == bits.len()
    } else {
        &&& 0 <= off
        &&& off + parts[0].len() <= bits.len()
        &&& parts[0] == bits.subrange(off, off + parts[0].len() as int)
        &&& covers(bits, parts.drop_first(), off + parts[0].len() as int)
    }
}

proof fn lemma_covers_flatten(bits: Seq<bool>, parts: Seq<Seq<bool>>, off: int)
    requires
        0 <= off <= bits.len(),
        covers(bits, parts, off),
    ensures
        parts.flatten() == bits.subrange(off, bits.len() as int),
    decreases parts.len(),
{
    if parts.len() == 0 {
        assert(parts.flatten() =~= bits.subrange(off, bits.len() as int));
    } else {
        lemma_covers_flatten(bits, parts.drop_first(), off + parts[0].len() as int);
        assert(parts.flatten() =~= bits.subrange(off, bits.len() as int));
    }
}

proof fn lemma_decompose_covers(bits: Seq<bool>, k: nat, i: int)
    requires
        k >= 1,
        0 <= i <= k,
        i * (bits.len() as int / k as int) <= bits.len(),
    ensures
        i < k ==> covers(
            bits,
            decompose(bits, k).skip(i),
            i * (bits.len() as int / k as int),
        ),
        i == k ==> covers(bits, decompose(bits, k).skip(i), bits.len() as int),
    decreases k - i,
{
    let per = bits.len() as int / k as int;
    vstd::arithmetic::div_mod::lemma_fundamental_div_mod(bits.len() as int, k as int);
    vstd::arithmetic::div_mod::lemma_mod_bound(bits.len() as int, k as int);
    if i == k {
        assert(decompose(bits, k).skip(i).len() == 0);
    } else {
        vstd::arithmetic::mul::lemma_mul_inequality(i + 1, k as int, per);
        vstd::arithmetic::mul::lemma_mul_is_distributive_add_other_way(per, i, 1);
        lemma_decompose_covers(bits, k, i + 1);
        let parts = decompose(bits, k).skip(i);
        assert(parts[0] == decompose(bits, k)[i]);
        assert(parts.drop_first() =~= decompose(bits, k).skip(i + 1));
        if i < k - 1 {
            assert(parts[0].len() == per);
        } else {
            assert(parts[0].len() == bits.len() - (k - 1) * per);
        }
    }
}

/// Splitting a bus is exact: with `k >= 1` buses, the first `k - 1` each
/// carry `len / k` bits, the last carries the remainder, and the buses
/// concatenated in order give back the whole input - so the pieces are
/// contiguous, non-overlapping, order-preserving, and their widths sum to
/// the input's width.
pub proof fn lemma_decompose_exact(bits: Seq<bool>, k: nat)
    requires
        k >= 1,
    ensures
        decompose(bits, k).len() == k,
        forall|i: int|
            0 <= i < k - 1 ==> #[trigger] decompose(bits, k)[i].len() == bits.len() as int
                / k as int,
        decompose(bits, k)[k - 1].len() == bits.len() - (k - 1) * (bits.len() as int / k as int),
        decompose(bits, k).flatten() == bits,
{
    let per = bits.len() as int / k as int;
    vstd::arithmetic::div_mod::lemma_fundamental_div_mod(bits.len() as int, k as int);
    vstd::arithmetic::div_mod::lemma_mod_bound(bits.len() as int, k as int);
    assert forall|i: int| 0 <= i < k - 1 implies #[trigger] decompose(bits, k)[i].len()
        == per by {
        vstd::arithmetic::mul::lemma_mul_inequality(i + 1, k as int, per);
        vstd::arithmetic::mul::lemma_mul_is_distributive_add_other_way(per, i, 1);
    }
    vstd::arithmetic::mul::lemma_mul_inequality(k as int - 1, k as int, per);
    lemma_decompose_covers(bits, k, 0);
    assert(decompose(bits, k).skip(0) =~= decompose(bits, k));
    lemma_covers_flatten(bits, decompose(bits, k), 0);
    assert(bits.subrange(0, bits.len() as int) =~= bits);
}

/// The deep view of a snapshot (states of all nodes), bridged to its
/// shallow views level by level.
pub proof fn lemma_states_deep(v: Vec<Vec<Vec<bool>>>)
    ensures
        v.deep_view().len() == v@.len(),
        forall|i: int|
            0 <= i < v@.len() ==> #[trigger] v.deep_view()[i].len() == v@[i]@.len(),
        forall|i: int, j: int|
            0 <= i < v@.len() && 0 <= j < v@[i]@.len() ==> #[trigger] v.deep_view()[i][j]
                == v@[i]@[j]@,
{
    assert forall|i: int| 0 <= i < v@.len() implies #[trigger] v.deep_view()[i].len()
        == v@[i]@.len() by {
        assert(v.deep_view()[i] == v@[i].deep_view());
    }
    assert forall|i: int, j: int|
        0 <= i < v@.len() && 0 <= j < v@[i]@.len() implies #[trigger] v.deep_view()[i][j]
        == v@[i]@[j]@ by {
        assert(v.deep_view()[i] == v@[i].deep_view());
        assert(v@[i].deep_view()[j] == v@[i]@[j].deep_view());
        assert(v@[i]@[j].deep_view() =~= v@[i]@[j]@);
    }
}

/// An all-false bit-vector of width `n`.
fn zeros_vec(n: usize) -> (r: Vec<bool>)
    ensures
        r@ == zeros(n as nat),
{
    let mut r: Vec<bool> = Vec::new();
    let mut i: usize = 0;
    while i < n
        invariant
            i <= n,
            r@ =~= zeros(i as nat),
        decreases n - i,
    {
        r.push(false);
        i += 1;
    }
    proof {
        assert(r@ =~= zeros(n as nat));
    }
    r
}

/// Appends the bits of `v` to `acc`.
fn append_bits(acc: &mut Vec<bool>, v: &Vec<bool>)
    ensures
        final(acc)@ == old(acc)@ + v@,
{
    let mut i: usize = 0;
    while i < v.len()
        invariant
            i <= v@.len(),
            acc@ =~= old(acc)@ + v@.take(i as int),
        decreases v@.len() - i,
    {
        acc.push(v[i]);
        i += 1;
    }
    proof {
        assert(acc@ =~= old(acc)@ + v@);
    }
}

/// Whether two bit-vectors hold the same bits.
pub(crate) fn row_eq(a: &Vec<bool>, b: &Vec<bool>) -> (r: bool)
    ensures
        r == (a@ == b@),
{
    if a.len() != b.len() {
        return false;
    }
    let mut i: usize = 0;
    while i < a.len()
        invariant
            i <= a@.len(),
            a@.len() == b@.len(),
            forall|j: int| 0 <= j < i ==> a@[j] == b@[j],
        decreases a@.len() - i,
    {
        if a[i] != b[i] {
            return false;
        }
        i += 1;
    }
    proof {
        assert(a@ =~= b@);
    }
    true
}

/// Whether two lists of bit-vectors hold the same bits, row for row.
fn bits_eq(a: &Vec<Vec<bool>>, b: &Vec<Vec<bool>>) -> (r: bool)
    ensures
        r == (a.deep_view() == b.deep_view()),
{
    proof {
        lemma_vec_rows_deep(a);
        lemma_vec_rows_deep(b);
    }
    if a.len() != b.len() {
        return false;
    }
    let mut i: usize = 0;
    while i < a.len()
        invariant
            i <= a@.len(),
            a@.len() == b@.len(),
            a.deep_view().len() == a@.len(),
            b.deep_view().len() == b@.len(),
            forall|j: int| 0 <= j < a@.len() ==> #[trigger] a.deep_view()[j] == a@[j]@,
            forall|j: int| 0 <= j < b@.len() ==> #[trigger] b.deep_view()[j] == b@[j]@,
            forall|j: int| 0 <= j < i ==> a@[j]@ == b@[j]@,
        decreases a@.len() - i,
    {
        if !row_eq(&a[i], &b[i]) {
            proof {
                assert(a.deep_view()[i as int] != b.deep_view()[i as int]);
            }
            return false;
        }
        i += 1;
    }
    proof {
        assert(a.deep_view() =~= b.deep_view());
    }
    true
}

/// Copies a list of bit-vectors.
pub(crate) fn clone_rows(v: &Vec<Vec<bool>>) -> (r: Vec<Vec<bool>>)
    ensures
        r.deep_view() == v.deep_view(),
{
    let mut r: Vec<Vec<bool>> = Vec::new();
    let mut i: usize = 0;
    while i < v.len()
        invariant
            i <= v@.len(),
            r@.len() == i,
            forall|j: int| 0 <= j < i ==> #[trigger] r@[j]@ == v@[j]@,
        decreases v@.len() - i,
    {
        let row = copy_bits(&v[i]);
        r.push(row);
        i += 1;
    }
    proof {
        lemma_vec_rows_deep(&r);
        lemma_vec_rows_deep(v);
        assert(r.deep_view() =~= v.deep_view());
    }
    r
}

/// The concatenation, in dependency order, of the snapshot values of the
/// dependencies that feed input port `s`.
pub open spec fn slot_concat(
    deps: Seq<(OutPinId, usize)>,
    snap: Seq<Seq<Seq<bool>>>,
    s: int,
) -> Seq<bool>
    decreases deps.len(),
{
    if deps.len() == 0 {
        Seq::empty()
    } else {
        let r = slot_concat(deps.drop_last(), snap, s);
        let d = deps.last();
        if d.1 as int == s {
            r + snap[d.0.node as int][d.0.output as int]
        } else {
            r
        }
    }
}

/// Whether any dependency feeds input port `s`.
pub open spec fn slot_has_driver(deps: Seq<(OutPinId, usize)>, s: int) -> bool {
    exists|m: int| 0 <= m < deps.len() && (#[trigger] deps[m]).1 as int == s
}

/// A component: the committed and pending output states, the behavior, and
/// the wiring to and from other nodes.
pub struct Component {
    /// Committed output bit-vectors, one per output port.
    pub state: Vec<Vec<bool>>,
    /// Pending output bit-vectors, same shape, written by `update`.
    pub next_state: Vec<Vec<bool>>,
    /// Which output pin feeds which of this component's input ports.
    pub depends_on: Vec<(OutPinId, usize)>,
    /// The behavior.
    pub updater: Updater,
    /// The nodes wired to this component's outputs, one entry per wire.
    pub connected_to: Vec<usize>,
}

impl Component {
    /// Both state lists have one bit-vector per declared output port, of
    /// the declared width wherever that width is fixed.
    pub open spec fn wf(self) -> bool {
        &&& outputs_ok(self.updater, self.state.deep_view())
        &&& outputs_ok(self.updater, self.next_state.deep_view())
    }

    /// Every dependency points at an existing output pin of the snapshot
    /// and feeds a declared input port.
    pub open spec fn deps_ok(self, snap: Seq<Seq<Seq<bool>>>) -> bool {
        forall|m: int|
            0 <= m < self.depends_on@.len() ==> {
                let d = #[trigger] self.depends_on@[m];
                &&& d.0.node < snap.len()
                &&& d.0.output < snap[d.0.node as int].len()
                &&& (d.1 as int) < self.updater.spec_input_count().len()
            }
    }

    /// What input port `s` reads: the concatenation of its drivers'
    /// snapshot values, or an all-false vector of the declared width when
    /// nothing is wired to it.
    pub open spec fn slot_value(self, snap: Seq<Seq<Seq<bool>>>, s: int) -> Seq<bool> {
        if slot_has_driver(self.depends_on@, s) {
            slot_concat(self.depends_on@, snap, s)
        } else {
            zeros(width_of(self.updater.spec_input_count()[s]))
        }
    }

    /// The gathered inputs: one bit-vector per declared input port.
    pub open spec fn gather(self, snap: Seq<Seq<Seq<bool>>>) -> Seq<Seq<bool>> {
        Seq::new(self.updater.spec_input_count().len(), |s: int| self.slot_value(snap, s))
    }

    /// Whether `update` may run against the snapshot: the component is
    /// well-formed, its wiring points at the snapshot, and every
    /// fixed-width input port gathers exactly its width.
    pub open spec fn can_update(self, snap: Seq<Seq<Seq<bool>>>) -> bool {
        &&& self.wf()
        &&& self.deps_ok(snap)
        &&& inputs_ok(self.updater, self.gather(snap))
        &&& self.updater.internal_wf()
    }
}

/// How one evaluation relates a component to its updated self: wiring and
/// committed state stand, the behavior and the pending state advance by
/// [`updater_evals_to`] on the gathered inputs.
pub open spec fn component_updates_to(
    c: Component,
    snap: Seq<Seq<Seq<bool>>>,
    c2: Component,
) -> bool {
    &&& c2.state == c.state
    &&& c2.depends_on == c.depends_on
    &&& c2.connected_to == c.connected_to
    &&& updater_evals_to(
        c.updater,
        c.gather(snap),
        c.next_state.deep_view(),
        c2.updater,
        c2.next_state.deep_view(),
    )
}

/// Whether a commit would report a change: the pending state differs from
/// the committed one.
pub open spec fn spec_changed(c: Component) -> bool {
    c.state.deep_view() != c.next_state.deep_view()
}

/// How one commit relates a component to its committed self: the committed
/// state takes the pending bits, everything else stands.
pub open spec fn component_commits_to(c: Component, c2: Component) -> bool {
    &&& c2.state.deep_view() == c.next_state.deep_view()
    &&& c2.next_state == c.next_state
    &&& c2.depends_on == c.depends_on
    &&& c2.connected_to == c.connected_to
    &&& c2.updater == c.updater
}

/// The committed states of every component, indexed by node id: what a
/// tick's snapshot holds.
pub open spec fn states_of(cs: Seq<Component>) -> Seq<Seq<Seq<bool>>> {
    Seq::new(cs.len(), |i: int| cs[i].state.deep_view())
}

/// Evaluation never changes a behavior's kind: its port declarations and
/// its demand for forced reevaluation stand.
pub proof fn lemma_evals_preserves_kind(
    u: Updater,
    input: Seq<Seq<bool>>,
    out0: Seq<Seq<bool>>,
    u2: Updater,
    out2: Seq<Seq<bool>>,
)
    requires
        updater_evals_to(u, input, out0, u2, out2),
    ensures
        u2.spec_force_update() == u.spec_force_update(),
        u2.spec_input_count() == u.spec_input_count(),
        u2.spec_output_count() == u.spec_output_count(),
{
}

/// A commit is idempotent: right after a commit the pending state equals
/// the committed state, so a second commit without an intervening
/// evaluation reports no change.
pub proof fn lemma_finalize_idempotent(c: Component, c2: Component)
    requires
        component_commits_to(c, c2),
    ensures
        !spec_changed(c2),
{
}

/// `s` without its first occurrence of `x`.
pub open spec fn remove_first_node(s: Seq<usize>, x: usize) -> Seq<usize>
    decreases s.len(),
{
    if s.len() == 0 {
        s
    } else if s[0] == x {
        s.drop_first()
    } else {
        seq![s[0]] + remove_first_node(s.drop_first(), x)
    }
}

/// `s` without its first dependency feeding input port `input`.
pub open spec fn remove_first_dep(
    s: Seq<(OutPinId, usize)>,
    input: usize,
) -> Seq<(OutPinId, usize)>
    decreases s.len(),
{
    if s.len() == 0 {
        s
    } else if s[0].1 == input {
        s.drop_first()
    } else {
        seq![s[0]] + remove_first_dep(s.drop_first(), input)
    }
}

proof fn lemma_remove_first_node_at(s: Seq<usize>, x: usize, p: int)
    requires
        0 <= p < s.len(),
        s[p] == x,
        forall|j: int| 0 <= j < p ==> s[j] != x,
    ensures
        remove_first_node(s, x) == s.remove(p),
    decreases p,
{
    if p == 0 {
        assert(s.drop_first() =~= s.remove(0));
    } else {
        lemma_remove_first_node_at(s.drop_first(), x, p - 1);
        assert(seq![s[0]] + s.drop_first().remove(p - 1) =~= s.remove(p));
    }
}

proof fn lemma_remove_first_node_absent(s: Seq<usize>, x: usize)
    requires
        forall|j: int| 0 <= j < s.len() ==> s[j] != x,
    ensures
        remove_first_node(s, x) == s,
    decreases s.len(),
{
    if s.len() > 0 {
        lemma_remove_first_node_absent(s.drop_first(), x);
        assert(seq![s[0]] + s.drop_first() =~= s);
    }
}

/// The index of the first dependency feeding input port `input`, or -1
/// when no dependency feeds it.
pub open spec fn find_dep(s: Seq<(OutPinId, usize)>, input: usize) -> int
    decreases s.len(),
{
    if s.len() == 0 {
        -1
    } else if s[0].1 == input {
        0
    } else {
        let r = find_dep(s.drop_first(), input);
        if r < 0 {
            -1
        } else {
            r + 1
        }
    }
}

pub proof fn lemma_find_dep_first(s: Seq<(OutPinId, usize)>, input: usize, p: int)
    requires
        0 <= p < s.len(),
        s[p].1 == input,
        forall|j: int| 0 <= j < p ==> s[j].1 != input,
    ensures
        find_dep(s, input) == p,
    decreases p,
{
    if p > 0 {
        lemma_find_dep_first(s.drop_first(), input, p - 1);
    }
}

pub proof fn lemma_find_dep_absent(s: Seq<(OutPinId, usize)>, input: usize)
    requires
        forall|j: int| 0 <= j < s.len() ==> s[j].1 != input,
    ensures
        find_dep(s, input) == -1,
    decreases s.len(),
{
    if s.len() > 0 {
        lemma_find_dep_absent(s.drop_first(), input);
    }
}

/// What `find_dep` returns points at the first matching dependency.
pub proof fn lemma_find_dep_found(s: Seq<(OutPinId, usize)>, input: usize)
    requires
        find_dep(s, input) >= 0,
    ensures
        find_dep(s, input) < s.len(),
        s[find_dep(s, input)].1 == input,
        forall|j: int| 0 <= j < find_dep(s, input) ==> s[j].1 != input,
    decreases s.len(),
{
    if s.len() > 0 && s[0].1 != input {
        lemma_find_dep_found(s.drop_first(), input);
        assert forall|j: int| 0 <= j < find_dep(s, input) implies s[j].1 != input by {
            if j > 0 {
                assert(s.drop_first()[j - 1] == s[j]);
            }
        }
    }
}

proof fn lemma_remove_first_dep_at(s: Seq<(OutPinId, usize)>, input: usize, p: int)
    requires
        0 <= p < s.len(),
        s[p].1 == input,
        forall|j: int| 0 <= j < p ==> s[j].1 != input,
    ensures
        remove_first_dep(s, input) == s.remove(p),
    decreases p,
{
    if p == 0 {
        assert(s.drop_first() =~= s.remove(0));
    } else {
        lemma_remove_first_dep_at(s.drop_first(), input, p - 1);
        assert(seq![s[0]] + s.drop_first().remove(p - 1) =~= s.remove(p));
    }
}

proof fn lemma_remove_first_dep_absent(s: Seq<(OutPinId, usize)>, input: usize)
    requires
        forall|j: int| 0 <= j < s.len() ==> s[j].1 != input,
    ensures
        remove_first_dep(s, input) == s,
    decreases s.len(),
{
    if s.len() > 0 {
        lemma_remove_first_dep_absent(s.drop_first(), input);
        assert(seq![s[0]] + s.drop_first() =~= s);
    }
}

impl Component {
    fn construct_init_state(sizes: &Vec<Option<usize>>) -> (r: Vec<Vec<bool>>)
        ensures
            r.deep_view() == init_states(sizes@),
    {
        let mut r: Vec<Vec<bool>> = Vec::new();
        let mut i: usize = 0;
        while i < sizes.len()
            invariant
                i <= sizes@.len(),
                r@.len() == i,
                forall|t: int| 0 <= t < i ==> #[trigger] r@[t]@ == zeros(width_of(sizes@[t])),
            decreases sizes@.len() - i,
        {
            match sizes[i] {
                Some(s) => {
                    let row = zeros_vec(s);
                    r.push(row);
                },
                None => {
                    r.push(Vec::new());
                },
            }
            i += 1;
        }
        proof {
            lemma_vec_rows_deep(&r);
            assert(r.deep_view() =~= init_states(sizes@));
        }
        r
    }

    /// A fresh component with the given behavior: all-false outputs of the
    /// declared widths, no wiring yet.
    pub fn new(updater: Updater) -> (c: Component)
        ensures
            c.updater == updater,
            c.state.deep_view() == init_states(updater.spec_output_count()),
            c.next_state.deep_view() == init_states(updater.spec_output_count()),
            c.depends_on@.len() == 0,
            c.connected_to@.len() == 0,
            c.wf(),
    {
        let sizes = updater.output_count();
        let state = Self::construct_init_state(&sizes);
        let next_state = Self::construct_init_state(&sizes);
        let c = Component {
            state,
            next_state,
            depends_on: Vec::new(),
            updater,
            connected_to: Vec::new(),
        };
        proof {
            assert forall|j: int|
                0 <= j < c.state.deep_view().len() implies (#[trigger] c.updater.spec_output_count()[j]
                matches Some(w) ==> c.state.deep_view()[j].len() == w) by {
                assert(c.state.deep_view()[j] == zeros(width_of(c.updater.spec_output_count()[j])));
            }
            assert forall|j: int|
                0 <= j < c.next_state.deep_view().len() implies (
            #[trigger] c.updater.spec_output_count()[j] matches Some(w)
                ==> c.next_state.deep_view()[j].len() == w) by {
                assert(c.next_state.deep_view()[j] == zeros(
                    width_of(c.updater.spec_output_count()[j]),
                ));
            }
        }
        c
    }

    /// Records one wire to `index` in the fan-out list.
    pub fn register_connection(&mut self, index: usize)
        ensures
            final(self).connected_to@ == old(self).connected_to@.push(index),
            final(self).state == old(self).state,
            final(self).next_state == old(self).next_state,
            final(self).depends_on == old(self).depends_on,
            final(self).updater == old(self).updater,
    {
        self.connected_to.push(index);
    }

    /// Records that output pin `pin` feeds input port `input`.
    pub fn register_dependency(&mut self, pin: OutPinId, input: usize)
        ensures
            final(self).depends_on@ == old(self).depends_on@.push((pin, input)),
            final(self).state == old(self).state,
            final(self).next_state == old(self).next_state,
            final(self).connected_to == old(self).connected_to,
            final(self).updater == old(self).updater,
    {
        self.depends_on.push((pin, input));
    }

    /// Forgets one wire to `index`: removes the first entry for it from the
    /// fan-out list.
    pub fn register_disconnection(&mut self, index: usize)
        ensures
            final(self).connected_to@ == remove_first_node(old(self).connected_to@, index),
            final(self).state == old(self).state,
            final(self).next_state == old(self).next_state,
            final(self).depends_on == old(self).depends_on,
            final(self).updater == old(self).updater,
    {
        let mut pos: usize = 0;
        let n = self.connected_to.len();
        while pos < n
            invariant
                pos <= n,
                n == self.connected_to@.len(),
                *self == *old(self),
                forall|j: int| 0 <= j < pos ==> self.connected_to@[j] != index,
            decreases n - pos,
        {
            if self.connected_to[pos] == index {
                proof {
                    lemma_remove_first_node_at(self.connected_to@, index, pos as int);
                }
                self.connected_to.remove(pos);
                return ;
            }
            pos += 1;
        }
        proof {
            lemma_remove_first_node_absent(self.connected_to@, index);
        }
    }

    /// Forgets the dependency feeding input port `index`: removes the first
    /// entry for that port.
    pub fn register_undepending(&mut self, index: usize)
        ensures
            final(self).depends_on@ == remove_first_dep(old(self).depends_on@, index),
            final(self).state == old(self).state,
            final(self).next_state == old(self).next_state,
            final(self).connected_to == old(self).connected_to,
            final(self).updater == old(self).updater,
    {
        let mut pos: usize = 0;
        let n = self.depends_on.len();
        while pos < n
            invariant
                pos <= n,
                n == self.depends_on@.len(),
                *self == *old(self),
                forall|j: int| 0 <= j < pos ==> self.depends_on@[j].1 != index,
            decreases n - pos,
        {
            if self.depends_on[pos].1 == index {
                proof {
                    lemma_remove_first_dep_at(self.depends_on@, index, pos as int);
                }
                self.depends_on.remove(pos);
                return ;
            }
            pos += 1;
        }
        proof {
            lemma_remove_first_dep_absent(self.depends_on@, index);
        }
    }

    fn get_input_states(&self, states: &Vec<Vec<Vec<bool>>>) -> (r: Vec<Vec<bool>>)
        requires
            self.deps_ok(states.deep_view()),
        ensures
            r.deep_view() == self.gather(states.deep_view()),
    {
        proof {
            lemma_states_deep(*states);
        }
        let decl = self.updater.input_count();
        let ghost snap = states.deep_view();
        let mut r: Vec<Vec<bool>> = Vec::new();
        let mut s: usize = 0;
        while s < decl.len()
            invariant
                s <= decl@.len(),
                decl@ == self.updater.spec_input_count(),
                self.deps_ok(snap),
                snap == states.deep_view(),
                states.deep_view().len() == states@.len(),
                forall|i: int|
                    0 <= i < states@.len() ==> #[trigger] states.deep_view()[i].len()
                        == states@[i]@.len(),
                forall|i: int, j: int|
                    0 <= i < states@.len() && 0 <= j < states@[i]@.len()
                        ==> #[trigger] states.deep_view()[i][j] == states@[i]@[j]@,
                r@.len() == s,
                forall|t: int| 0 <= t < s ==> #[trigger] r@[t]@ == self.slot_value(snap, t),
            decreases decl@.len() - s,
        {
            let mut found = false;
            let mut acc: Vec<bool> = Vec::new();
            let mut m: usize = 0;
            let nd = self.depends_on.len();
            while m < nd
                invariant
                    m <= nd,
                    nd == self.depends_on@.len(),
                    s < decl@.len(),
                    decl@ == self.updater.spec_input_count(),
                    self.deps_ok(snap),
                    snap == states.deep_view(),
                    states.deep_view().len() == states@.len(),
                    forall|i: int|
                        0 <= i < states@.len() ==> #[trigger] states.deep_view()[i].len()
                            == states@[i]@.len(),
                    forall|i: int, j: int|
                        0 <= i < states@.len() && 0 <= j < states@[i]@.len()
                            ==> #[trigger] states.deep_view()[i][j] == states@[i]@[j]@,
                    found == slot_has_driver(self.depends_on@.take(m as int), s as int),
                    acc@ == slot_concat(self.depends_on@.take(m as int), snap, s as int),
                decreases nd - m,
            {
                let d = self.depends_on[m];
                proof {
                    assert(self.depends_on@.take(m as int + 1).drop_last() =~= self.depends_on@.take(
                        m as int,
                    ));
                    assert(self.depends_on@.take(m as int + 1).last() == d);
                }
                if d.1 == s {
                    found = true;
                    append_bits(&mut acc, &states[d.0.node][d.0.output]);
                    proof {
                        assert(states@[d.0.node as int]@[d.0.output as int]@ == snap[d.0.node as int][d.0.output as int]);
                    }
                } else {
                }
                proof {
                    if slot_has_driver(self.depends_on@.take(m as int + 1), s as int) {
                        if d.1 != s {
                            let w = choose|mm: int|
                                0 <= mm < self.depends_on@.take(m as int + 1).len() && (
                                #[trigger] self.depends_on@.take(m as int + 1)[mm]).1 as int
                                    == s as int;
                            assert(0 <= w < m as int + 1);
                            assert(self.depends_on@.take(m as int)[w] == self.depends_on@.take(
                                m as int + 1,
                            )[w]);
                        }
                    }
                    if slot_has_driver(self.depends_on@.take(m as int), s as int) {
                        let w = choose|mm: int|
                            0 <= mm < self.depends_on@.take(m as int).len() && (
                            #[trigger] self.depends_on@.take(m as int)[mm]).1 as int == s as int;
                        assert(self.depends_on@.take(m as int + 1)[w] == self.depends_on@.take(
                            m as int,
                        )[w]);
                    }
                }
                m += 1;
            }
            proof {
                assert(self.depends_on@.take(nd as int) =~= self.depends_on@);
            }
            if !found {
                match decl[s] {
                    Some(wd) => {
                        acc = zeros_vec(wd);
                    },
                    None => {
                        acc = Vec::new();
                    },
                }
            }
            r.push(acc);
            s += 1;
        }
        proof {
            lemma_vec_rows_deep(&r);
            assert(r.deep_view() =~= self.gather(snap));
        }
        r
    }

    /// One evaluation against the snapshot: gathers what the input ports
    /// read and rewrites the pending state by the behavior.
    pub fn update(&mut self, states: &Vec<Vec<Vec<bool>>>)
        requires
            old(self).can_update(states.deep_view()),
        ensures
            component_updates_to(*old(self), states.deep_view(), *final(self)),
        decreases updater_height(self.updater), 2int,
    {
        let inputs = self.get_input_states(states);
        let inp = inputs.as_slice();
        proof {
            assert(inp.deep_view() =~= inputs.deep_view());
        }
        self.updater.update(inp, &mut self.next_state);
    }

    /// Commits the pending state when it differs from the committed one;
    /// reports whether it did. This is the only point where a component's
    /// externally visible output changes.
    pub fn finalize(&mut self) -> (changed: bool)
        ensures
            changed == spec_changed(*old(self)),
            component_commits_to(*old(self), *final(self)),
    {
        if bits_eq(&self.state, &self.next_state) {
            return false;
        }
        self.state = clone_rows(&self.next_state);
        true
    }

    /// The committed bit-vector of one output port: a pure query for
    /// display.
    pub fn read_output(&self, output: usize) -> (r: Vec<bool>)
        requires
            output < self.state@.len(),
        ensures
            r@ == self.state.deep_view()[output as int],
    {
        proof {
            lemma_vec_rows_deep(&self.state);
        }
        copy_bits(&self.state[output])
    }
}

} // verus!
