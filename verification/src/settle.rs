//! How boards settle.
//!
//! Components are evaluated only when a link they read flips, and yet their outputs are always up
//! to date. A board of gates without loops settles in as many ticks as its longest path has gates,
//! to a state that depends on its inputs alone; and there a negated pin does what a NOT in its
//! place does.

use vstd::prelude::*;
#[allow(unused_imports)]
use crate::behavior::PartState;
#[allow(unused_imports)]
use crate::laws;
#[allow(unused_imports)]
use crate::machine::{self, Machine, Pulse};
#[allow(unused_imports)]
use crate::netlist::{Netlist, Part};
#[allow(unused_imports)]
use crate::state;
#[allow(unused_imports)]
use crate::types::CompType;

verus! {

impl Part {
    /// The outputs are a function of the inputs.
    pub open spec fn combinational(self) -> bool {
        match self.ty {
            CompType::Not
            | CompType::And
            | CompType::Or
            | CompType::Xor
            | CompType::Delay
            | CompType::HalfAdder
            | CompType::FullAdder
            | CompType::Rom
            | CompType::Decoder
            | CompType::Encoder
            | CompType::Mux
            | CompType::Demux => true,
            _ => false,
        }
    }

    /// The outputs of a combinational component on the given inputs.
    pub open spec fn function(self, ins: Seq<bool>) -> Seq<bool> {
        self.step(0, ins, 0, self.cleared()).outs
    }
}

/// An evaluation of a combinational component gives its function, whatever its state was.
proof fn lemma_function(part: Part, id: u32, ins: Seq<bool>, tick: u64, st: PartState)
    requires
        part.combinational(),
    ensures
        part.step(id, ins, tick, st).outs == part.function(ins),
{
}

/// The outputs of every combinational component are those of its function on the current links.
pub open spec fn current(net: Netlist, m: Machine) -> bool {
    forall|c: int|
        0 <= c < net.parts.len() && net.parts[c].combinational() ==> (#[trigger] m.parts[c]).outs
            == net.parts[c].function(net.parts[c].reads(m.links))
}

/// At power-on the outputs are up to date.
pub proof fn law_start_current(net: Netlist)
    ensures
        current(net, machine::start(net)),
{
    let m = machine::start(net);
    assert forall|c: int| 0 <= c < net.parts.len() && net.parts[c].combinational() implies (
    #[trigger] m.parts[c]).outs == net.parts[c].function(net.parts[c].reads(m.links)) by {
        let part = net.parts[c];
        lemma_function(part, c as u32, part.reads(m.links), 0, part.seeded());
    }
}

/// Evaluating only the components that read a flipped link keeps the outputs up to date.
pub proof fn law_tick_keeps_current(net: Netlist, m: Machine)
    requires
        net.valid(),
        m.valid(net),
        current(net, m),
    ensures
        current(net, m.ticked(net)),
{
    let next = m.ticked(net);
    let flips = m.flipping(net);
    let links = m.visible(net);
    assert forall|c: int| 0 <= c < net.parts.len() && net.parts[c].combinational() implies (
    #[trigger] next.parts[c]).outs == net.parts[c].function(net.parts[c].reads(next.links)) by {
        let part = net.parts[c];
        assert(part.valid());
        assert(m.parts[c].outs == part.function(part.reads(m.links)));
        lemma_function(part, c as u32, part.reads(links), m.tick, m.parts[c]);
        if !machine::woken(net, flips).contains(c as u32) {
            assert forall|p: int| 0 <= p < part.inputs.len() implies part.reads(links)[p]
                == part.reads(m.links)[p] by {
                let l = part.inputs[p];
                assert(l < net.links);
                assert(!flips.contains(l));
            }
            assert(part.reads(links) =~= part.reads(m.links));
        }
        if m.pulses.dom().contains(c as u32) {
            assert(net.parts[c as u32 as int].ty == CompType::UserInput);
        }
    }
}

/// A trigger keeps the outputs up to date.
pub proof fn law_trigger_keeps_current(net: Netlist, m: Machine, c: u32, values: Seq<bool>)
    requires
        m.valid(net),
        current(net, m),
        m.is_input(net, c),
    ensures
        current(net, m.latched(net, c, values)),
        current(net, m.armed(net, c, values)),
{
    let next = m.latched(net, c, values);
    assert forall|k: int| 0 <= k < net.parts.len() && net.parts[k].combinational() implies (
    #[trigger] next.parts[k]).outs == net.parts[k].function(net.parts[k].reads(next.links)) by {
        assert(m.parts[k].outs == net.parts[k].function(net.parts[k].reads(m.links)));
    }
}

/// The outputs stay up to date through any number of ticks.
pub proof fn law_always_current(net: Netlist, m: Machine, n: nat)
    requires
        net.valid(),
        m.valid(net),
        laws::covered(net, m),
        current(net, m),
    ensures
        current(net, m.after(net, n)),
    decreases n,
{
    if n > 0 {
        law_always_current(net, m, (n - 1) as nat);
        laws::law_always_valid_and_covered(net, m, (n - 1) as nat);
        law_tick_keeps_current(net, m.after(net, (n - 1) as nat));
    }
}

/// The board has user inputs and combinational components only.
pub open spec fn gates_only(net: Netlist) -> bool {
    forall|c: int|
        0 <= c < net.parts.len() ==> (#[trigger] net.parts[c]).combinational() || net.parts[c].ty
            == CompType::UserInput
}

/// The board has no loops: the ranks grow from the component that drives a link to one that reads
/// it.
pub open spec fn ranked(net: Netlist, rank: Seq<nat>) -> bool {
    &&& rank.len() == net.parts.len()
    &&& forall|d: int, q: int, c: int, p: int|
        0 <= d < net.parts.len() && 0 <= q < net.parts[d].outputs.len() && 0 <= c < net.parts.len()
            && 0 <= p < net.parts[c].inputs.len() && #[trigger] net.parts[d].outputs[q]
            == #[trigger] net.parts[c].inputs[p] ==> rank[d] < rank[c]
}

/// A simulation to which no input is on its way but what has been latched.
pub open spec fn unpulsed(net: Netlist, m: Machine) -> bool {
    &&& net.valid()
    &&& m.valid(net)
    &&& laws::covered(net, m)
    &&& current(net, m)
    &&& m.pulses == Map::<u32, Pulse>::empty()
}

proof fn lemma_unpulsed_after(net: Netlist, m: Machine, n: nat)
    requires
        unpulsed(net, m),
    ensures
        unpulsed(net, m.after(net, n)),
        n > 0 ==> m.after(net, n).writes == Set::<u32>::empty(),
    decreases n,
{
    law_always_current(net, m, n);
    laws::law_always_valid_and_covered(net, m, n);
    if n > 0 {
        lemma_unpulsed_after(net, m, (n - 1) as nat);
        let prev = m.after(net, (n - 1) as nat);
        assert(machine::disarmed(prev.pulses) =~= Map::empty());
    }
}

/// In a board of gates a tick changes the state of a component by evaluating it at most.
proof fn lemma_gate_tick(net: Netlist, m: Machine, c: int)
    requires
        unpulsed(net, m),
        gates_only(net),
        0 <= c < net.parts.len(),
    ensures
        m.ticked(net).parts[c] == m.computed(net)[c],
        machine::beaten(net, m.computed(net))[c] == m.computed(net)[c],
        net.parts[c].ty == CompType::UserInput ==> m.ticked(net).parts[c] == m.parts[c],
{
    let part = net.parts[c];
    assert(part.combinational() || part.ty == CompType::UserInput);
}

/// A component of rank `r` has its outputs for good after `r + 2` ticks.
proof fn lemma_still(net: Netlist, rank: Seq<nat>, m: Machine, c: int, n: nat)
    requires
        unpulsed(net, m),
        gates_only(net),
        ranked(net, rank),
        0 <= c < net.parts.len(),
        n >= rank[c] + 2,
    ensures
        m.after(net, n + 1).parts[c].outs == m.after(net, n).parts[c].outs,
    decreases rank[c],
{
    let now = m.after(net, n);
    let next = m.after(net, n + 1);
    let prev = m.after(net, (n - 1) as nat);
    assert(next == now.ticked(net));
    assert(now == prev.ticked(net));
    lemma_unpulsed_after(net, m, n);
    lemma_unpulsed_after(net, m, n + 1);
    lemma_unpulsed_after(net, m, (n - 1) as nat);
    let part = net.parts[c];
    if part.ty == CompType::UserInput {
        lemma_gate_tick(net, now, c);
    } else {
        assert(part.combinational());
        assert(part.valid());
        assert forall|p: int| 0 <= p < part.inputs.len() implies part.reads(next.links)[p]
            == part.reads(now.links)[p] by {
            let l = part.inputs[p];
            assert(l < net.links);
            laws::law_tick_shows_every_output(net, prev, l);
            laws::law_tick_shows_every_output(net, now, l);
            assert forall|d: int, q: int| #[trigger] state::feeds(
                net,
                prev.parts,
                l,
                d,
                q,
            ) == state::feeds(net, now.parts, l, d, q) by {
                if 0 <= d < net.parts.len() && 0 <= q < net.parts[d].outputs.len()
                    && net.parts[d].outputs[q] == l {
                    assert(net.parts[d].outputs[q] == net.parts[c].inputs[p]);
                    lemma_still(net, rank, m, d, (n - 1) as nat);
                }
            }
            if state::powered(net, prev.parts, l) {
                let (d, q) = choose|d: int, q: int| #[trigger]
                    state::feeds(net, prev.parts, l, d, q);
                assert(state::feeds(net, now.parts, l, d, q));
            }
            if state::powered(net, now.parts, l) {
                let (d, q) = choose|d: int, q: int| #[trigger]
                    state::feeds(net, now.parts, l, d, q);
                assert(state::feeds(net, prev.parts, l, d, q));
            }
        }
        assert(part.reads(next.links) =~= part.reads(now.links));
        assert(next.parts[c].outs == part.function(part.reads(next.links)));
        assert(now.parts[c].outs == part.function(part.reads(now.links)));
    }
}

/// A board of gates without loops settles: with ranks below `depth` it has come to rest after
/// `depth + 2` ticks.
pub proof fn law_gates_settle(net: Netlist, rank: Seq<nat>, depth: nat, m: Machine, n: nat)
    requires
        unpulsed(net, m),
        gates_only(net),
        ranked(net, rank),
        forall|c: int| 0 <= c < rank.len() ==> #[trigger] rank[c] < depth,
        n >= depth + 2,
    ensures
        settled(net, m.after(net, n)),
{
    let prev = m.after(net, (n - 1) as nat);
    let now = m.after(net, n);
    assert(now == prev.ticked(net));
    lemma_unpulsed_after(net, m, n);
    lemma_unpulsed_after(net, m, (n - 1) as nat);
    let computed = prev.computed(net);
    let clocked = machine::beaten(net, computed);
    assert forall|c: int| 0 <= c < net.parts.len() implies computed[c].outs == prev.parts[c].outs
        && clocked[c] == computed[c] && now.parts[c] == computed[c] by {
        assert(rank[c] < depth);
        lemma_still(net, rank, m, c, (n - 1) as nat);
        lemma_gate_tick(net, prev, c);
    }
    assert(now.reads =~= Set::empty()) by {
        assert forall|l: u32| !now.reads.contains(l) by {
            assert(!state::moved_any(net, prev.parts, computed).contains(l));
            assert(!state::moved_any(net, computed, clocked).contains(l));
            assert(!state::moved_any(net, clocked, now.parts).contains(l));
        }
    }
    assert forall|c: int| 0 <= c < net.parts.len() && net.parts[c].ty == CompType::Clk implies !(
    #[trigger] now.parts[c]).running by {
        assert(net.parts[c].combinational() || net.parts[c].ty == CompType::UserInput);
    }
}

/// A simulation that has come to rest.
pub open spec fn settled(net: Netlist, m: Machine) -> bool {
    &&& unpulsed(net, m)
    &&& laws::quiet(net, m)
}

/// The two states show the same wired OR on a link whose drivers have the same outputs.
proof fn lemma_same_drivers(
    net: Netlist,
    a: Seq<PartState>,
    b: Seq<PartState>,
    l: u32,
)
    requires
        forall|d: int, q: int|
            0 <= d < net.parts.len() && 0 <= q < net.parts[d].outputs.len()
                && #[trigger] net.parts[d].outputs[q] == l ==> a[d].outs == b[d].outs,
    ensures
        state::powered(net, a, l) == state::powered(net, b, l),
{
    if state::powered(net, a, l) {
        let (d, q) = choose|d: int, q: int| #[trigger] state::feeds(net, a, l, d, q);
        assert(net.parts[d].outputs[q] == l);
        assert(state::feeds(net, b, l, d, q));
    }
    if state::powered(net, b, l) {
        let (d, q) = choose|d: int, q: int| #[trigger] state::feeds(net, b, l, d, q);
        assert(net.parts[d].outputs[q] == l);
        assert(state::feeds(net, a, l, d, q));
    }
}

/// The user inputs of two states of a board have the same outputs.
pub open spec fn same_inputs(net: Netlist, a: Machine, b: Machine) -> bool {
    forall|c: int|
        0 <= c < net.parts.len() && net.parts[c].ty == CompType::UserInput
            ==> (#[trigger] a.parts[c]).outs == b.parts[c].outs
}

proof fn lemma_same_outs(net: Netlist, rank: Seq<nat>, a: Machine, b: Machine, c: int)
    requires
        settled(net, a),
        settled(net, b),
        gates_only(net),
        ranked(net, rank),
        same_inputs(net, a, b),
        0 <= c < net.parts.len(),
    ensures
        a.parts[c].outs == b.parts[c].outs,
    decreases rank[c],
{
    let part = net.parts[c];
    assert(part.valid());
    if part.combinational() {
        assert forall|p: int| 0 <= p < part.inputs.len() implies part.reads(a.links)[p]
            == part.reads(b.links)[p] by {
            let l = part.inputs[p];
            assert(l < net.links);
            assert forall|d: int, q: int|
                0 <= d < net.parts.len() && 0 <= q < net.parts[d].outputs.len()
                    && #[trigger] net.parts[d].outputs[q] == l implies a.parts[d].outs
                == b.parts[d].outs by {
                assert(net.parts[d].outputs[q] == net.parts[c].inputs[p]);
                lemma_same_outs(net, rank, a, b, d);
            }
            lemma_same_drivers(net, a.parts, b.parts, l);
            laws::law_quiet_links_are_wired_or(net, a, l);
            laws::law_quiet_links_are_wired_or(net, b, l);
        }
        assert(part.reads(a.links) =~= part.reads(b.links));
    }
}

/// Where a board of gates without loops settles depends on its user inputs alone.
pub proof fn law_settled_state_is_unique(net: Netlist, rank: Seq<nat>, a: Machine, b: Machine)
    requires
        settled(net, a),
        settled(net, b),
        gates_only(net),
        ranked(net, rank),
        same_inputs(net, a, b),
    ensures
        a.links == b.links,
        forall|c: int|
            0 <= c < net.parts.len() ==> (#[trigger] a.parts[c]).outs == b.parts[c].outs,
{
    assert forall|c: int| 0 <= c < net.parts.len() implies (#[trigger] a.parts[c]).outs
        == b.parts[c].outs by {
        lemma_same_outs(net, rank, a, b, c);
    }
    assert forall|l: int| 0 <= l < net.links implies a.links[l] == b.links[l] by {
        assert forall|d: int, q: int|
            0 <= d < net.parts.len() && 0 <= q < net.parts[d].outputs.len()
                && #[trigger] net.parts[d].outputs[q] == l as u32 implies a.parts[d].outs
            == b.parts[d].outs by {
            assert(a.parts[d].outs == b.parts[d].outs);
        }
        lemma_same_drivers(net, a.parts, b.parts, l as u32);
        laws::law_quiet_links_are_wired_or(net, a, l as u32);
        laws::law_quiet_links_are_wired_or(net, b, l as u32);
    }
    assert(a.links =~= b.links);
}

/// Component `k` is a NOT from one link to another, without negated pins.
pub open spec fn inverts(net: Netlist, k: int, from: u32, to: u32) -> bool {
    &&& 0 <= k < net.parts.len()
    &&& net.parts[k].ty == CompType::Not
    &&& net.parts[k].inputs == seq![from]
    &&& net.parts[k].outputs == seq![to]
    &&& net.parts[k].plain()
}

/// Link `l` is driven by output `q` of component `d` and by nothing else.
pub open spec fn driven_only_by(net: Netlist, l: u32, d: int, q: int) -> bool {
    &&& 0 <= d < net.parts.len()
    &&& 0 <= q < net.parts[d].outputs.len()
    &&& net.parts[d].outputs[q] == l
    &&& forall|e: int, r: int|
        0 <= e < net.parts.len() && 0 <= r < net.parts[e].outputs.len()
            && #[trigger] net.parts[e].outputs[r] == l ==> e == d && r == q
}

/// How a board is rebuilt with a NOT in place of every negated pin.
pub struct Expansion {
    /// Where each component stands in the larger board.
    pub at: Seq<int>,
    /// The NOT in front of a negated input pin.
    pub front: spec_fn(int, int) -> int,
    /// The NOT behind a negated output pin.
    pub back: spec_fn(int, int) -> int,
}

impl Expansion {
    /// Component `c` stands in the larger board, without negated pins.
    pub open spec fn component(self, net: Netlist, big: Netlist, c: int) -> bool {
        let a = net.parts[c];
        let b = big.parts[self.at[c]];
        &&& 0 <= self.at[c] < big.parts.len()
        &&& b.ty == a.ty
        &&& b.param == a.param
        &&& b.rom == a.rom
        &&& b.inputs.len() == a.inputs.len()
        &&& b.outputs.len() == a.outputs.len()
        &&& b.plain()
    }

    /// Input pin `p` of component `c` reads its link, through a NOT if it is negated.
    pub open spec fn input(self, net: Netlist, big: Netlist, c: int, p: int) -> bool {
        let a = net.parts[c];
        let b = big.parts[self.at[c]];
        if a.neg_inputs[p] {
            &&& inverts(big, (self.front)(c, p), a.inputs[p], b.inputs[p])
            &&& driven_only_by(big, b.inputs[p], (self.front)(c, p), 0)
        } else {
            b.inputs[p] == a.inputs[p]
        }
    }

    /// Output pin `q` of component `c` drives its link, through a NOT if it is negated.
    pub open spec fn output(self, net: Netlist, big: Netlist, c: int, q: int) -> bool {
        let a = net.parts[c];
        let b = big.parts[self.at[c]];
        if a.neg_outputs[q] {
            &&& inverts(big, (self.back)(c, q), b.outputs[q], a.outputs[q])
            &&& driven_only_by(big, b.outputs[q], self.at[c], q)
        } else {
            b.outputs[q] == a.outputs[q]
        }
    }

    /// Output `r` of component `k` of the larger board drives a link on behalf of output `q` of
    /// component `c`.
    pub open spec fn stands_for(
        self,
        net: Netlist,
        big: Netlist,
        k: int,
        r: int,
        c: int,
        q: int,
    ) -> bool {
        &&& 0 <= c < net.parts.len()
        &&& 0 <= q < net.parts[c].outputs.len()
        &&& net.parts[c].outputs[q] == big.parts[k].outputs[r]
        &&& if net.parts[c].neg_outputs[q] {
            k == (self.back)(c, q) && r == 0
        } else {
            k == self.at[c] && r == q
        }
    }

    /// The board `big` is `net` with a NOT in place of every negated pin, and nothing else drives the
    /// links they share.
    pub open spec fn expands(self, net: Netlist, big: Netlist) -> bool {
        &&& net.links <= big.links
        &&& self.at.len() == net.parts.len()
        &&& forall|c: int| 0 <= c < net.parts.len() ==> #[trigger] self.component(net, big, c)
        &&& forall|c: int, p: int|
            0 <= c < net.parts.len() && 0 <= p < net.parts[c].inputs.len() ==> #[trigger] self.input(
                net,
                big,
                c,
                p,
            )
        &&& forall|c: int, q: int|
            0 <= c < net.parts.len() && 0 <= q < net.parts[c].outputs.len()
                ==> #[trigger] self.output(net, big, c, q)
        &&& forall|k: int, r: int|
            0 <= k < big.parts.len() && 0 <= r < big.parts[k].outputs.len()
                && #[trigger] big.parts[k].outputs[r] < net.links ==> exists|c: int, q: int| #[trigger]
                self.stands_for(net, big, k, r, c, q)
    }

    /// The user inputs of the two boards have the same outputs.
    pub open spec fn same_inputs(self, net: Netlist, m: Machine, me: Machine) -> bool {
        forall|c: int|
            0 <= c < net.parts.len() && net.parts[c].ty == CompType::UserInput
                ==> (#[trigger] m.parts[c]).outs == me.parts[self.at[c]].outs
    }
}

/// A link with a single driver shows what it drives.
proof fn lemma_single_driver(net: Netlist, m: Machine, l: u32, d: int, q: int)
    requires
        settled(net, m),
        driven_only_by(net, l, d, q),
    ensures
        m.links[l as int] == net.parts[d].drives(m.parts[d], q),
{
    assert(net.parts[d].outputs[q] < net.links);
    laws::law_quiet_links_are_wired_or(net, m, l);
    if net.parts[d].drives(m.parts[d], q) {
        assert(state::feeds(net, m.parts, l, d, q));
    }
    if state::powered(net, m.parts, l) {
        let (e, r) = choose|e: int, r: int| #[trigger] state::feeds(net, m.parts, l, e, r);
        assert(net.parts[e].outputs[r] == l);
    }
}

/// What an inserted NOT drives.
proof fn lemma_inverted(net: Netlist, m: Machine, k: int, from: u32, to: u32)
    requires
        settled(net, m),
        inverts(net, k, from, to),
    ensures
        net.parts[k].drives(m.parts[k], 0) == !m.links[from as int],
{
    let part = net.parts[k];
    assert(part.valid());
    assert(part.combinational());
    assert(m.parts[k].outs == part.function(part.reads(m.links)));
    assert(part.inputs[0] == from);
    assert(!part.neg_inputs[0] && !part.neg_outputs[0]);
}

/// A link shows the same in both boards if the components that drive it have the same outputs.
proof fn lemma_links_agree(
    net: Netlist,
    big: Netlist,
    x: Expansion,
    m: Machine,
    me: Machine,
    l: u32,
)
    requires
        settled(net, m),
        settled(big, me),
        x.expands(net, big),
        l < net.links,
        forall|d: int, q: int|
            0 <= d < net.parts.len() && 0 <= q < net.parts[d].outputs.len()
                && #[trigger] net.parts[d].outputs[q] == l ==> m.parts[d].outs
                == me.parts[x.at[d]].outs,
    ensures
        m.links[l as int] == me.links[l as int],
{
    laws::law_quiet_links_are_wired_or(net, m, l);
    laws::law_quiet_links_are_wired_or(big, me, l);
    if state::powered(net, m.parts, l) {
        let (d, q) = choose|d: int, q: int| #[trigger] state::feeds(net, m.parts, l, d, q);
        lemma_driver_agrees(net, big, x, m, me, d, q);
        assert(net.parts[d].outputs[q] == l);
        assert(x.output(net, big, d, q));
        assert(x.component(net, big, d));
        if net.parts[d].neg_outputs[q] {
            let k = (x.back)(d, q);
            assert(big.parts[k].outputs[0] == l);
            assert(state::feeds(big, me.parts, l, k, 0));
        } else {
            assert(state::feeds(big, me.parts, l, x.at[d], q));
        }
    }
    if state::powered(big, me.parts, l) {
        let (k, r) = choose|k: int, r: int| #[trigger] state::feeds(big, me.parts, l, k, r);
        assert(big.parts[k].outputs[r] < net.links);
        let (d, q) = choose|d: int, q: int| #[trigger] x.stands_for(net, big, k, r, d, q);
        assert(net.parts[d].outputs[q] == l);
        lemma_driver_agrees(net, big, x, m, me, d, q);
        assert(state::feeds(net, m.parts, l, d, q));
    }
}

/// An output drives its link the same way in both boards, by itself or by the NOT behind it.
proof fn lemma_driver_agrees(
    net: Netlist,
    big: Netlist,
    x: Expansion,
    m: Machine,
    me: Machine,
    d: int,
    q: int,
)
    requires
        settled(net, m),
        settled(big, me),
        x.expands(net, big),
        0 <= d < net.parts.len(),
        0 <= q < net.parts[d].outputs.len(),
        m.parts[d].outs == me.parts[x.at[d]].outs,
    ensures
        net.parts[d].neg_outputs[q] ==> net.parts[d].drives(m.parts[d], q)
            == big.parts[(x.back)(d, q)].drives(me.parts[(x.back)(d, q)], 0),
        !net.parts[d].neg_outputs[q] ==> net.parts[d].drives(m.parts[d], q)
            == big.parts[x.at[d]].drives(me.parts[x.at[d]], q),
{
    assert(x.component(net, big, d));
    assert(x.output(net, big, d, q));
    assert(net.parts[d].valid());
    let e = x.at[d];
    assert(big.parts[e].valid());
    assert(!big.parts[e].neg_outputs[q]);
    if net.parts[d].neg_outputs[q] {
        let k = (x.back)(d, q);
        let mid = big.parts[e].outputs[q];
        lemma_single_driver(big, me, mid, e, q);
        lemma_inverted(big, me, k, mid, net.parts[d].outputs[q]);
    }
}

proof fn lemma_expanded_outs(
    net: Netlist,
    big: Netlist,
    x: Expansion,
    rank: Seq<nat>,
    m: Machine,
    me: Machine,
    c: int,
)
    requires
        settled(net, m),
        settled(big, me),
        gates_only(net),
        ranked(net, rank),
        x.expands(net, big),
        x.same_inputs(net, m, me),
        0 <= c < net.parts.len(),
    ensures
        m.parts[c].outs == me.parts[x.at[c]].outs,
    decreases rank[c],
{
    let a = net.parts[c];
    let b = big.parts[x.at[c]];
    assert(x.component(net, big, c));
    assert(a.valid());
    assert(b.valid());
    if a.combinational() {
        assert forall|p: int| 0 <= p < a.inputs.len() implies a.reads(m.links)[p] == b.reads(
            me.links,
        )[p] by {
            let l = a.inputs[p];
            assert(l < net.links);
            assert(x.input(net, big, c, p));
            assert(!b.neg_inputs[p]);
            assert forall|d: int, q: int|
                0 <= d < net.parts.len() && 0 <= q < net.parts[d].outputs.len()
                    && #[trigger] net.parts[d].outputs[q] == l implies m.parts[d].outs
                == me.parts[x.at[d]].outs by {
                assert(net.parts[d].outputs[q] == net.parts[c].inputs[p]);
                lemma_expanded_outs(net, big, x, rank, m, me, d);
            }
            lemma_links_agree(net, big, x, m, me, l);
            if a.neg_inputs[p] {
                let k = (x.front)(c, p);
                lemma_inverted(big, me, k, l, b.inputs[p]);
                lemma_single_driver(big, me, b.inputs[p], k, 0);
            }
        }
        assert(a.reads(m.links) =~= b.reads(me.links));
        assert(b.combinational());
        assert(m.parts[c].outs == a.function(a.reads(m.links)));
        assert(me.parts[x.at[c]].outs == b.function(b.reads(me.links)));
        assert(a.function(a.reads(m.links)) =~= b.function(a.reads(m.links)));
    }
}

/// A negated pin settles like a NOT in its place: a board of gates without loops and the board with
/// NOTs for its negated pins, on the same user inputs, come to rest with the same values on the links
/// they share.
pub proof fn law_negated_pins_settle_like_nots(
    net: Netlist,
    big: Netlist,
    x: Expansion,
    rank: Seq<nat>,
    m: Machine,
    me: Machine,
    l: u32,
)
    requires
        settled(net, m),
        settled(big, me),
        gates_only(net),
        ranked(net, rank),
        x.expands(net, big),
        x.same_inputs(net, m, me),
        l < net.links,
    ensures
        m.links[l as int] == me.links[l as int],
{
    assert forall|d: int, q: int|
        0 <= d < net.parts.len() && 0 <= q < net.parts[d].outputs.len()
            && #[trigger] net.parts[d].outputs[q] == l implies m.parts[d].outs
        == me.parts[x.at[d]].outs by {
        lemma_expanded_outs(net, big, x, rank, m, me, d);
    }
    lemma_links_agree(net, big, x, m, me, l);
}

} // verus!
