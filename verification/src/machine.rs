//! The mathematical model of a simulation: its state and what one tick does to it.
//!
//! A tick first lets the scheduled links take the wired OR of their drivers, then evaluates the
//! components that read a link that flipped, then runs the section between ticks (clocks, pulses).
//! Links change only in the first step; everything the others drive is scheduled for the next tick.

use vstd::prelude::*;
#[allow(unused_imports)]
use crate::behavior::{self, PartState};
#[allow(unused_imports)]
use crate::netlist::Netlist;
#[allow(unused_imports)]
use crate::state;
#[allow(unused_imports)]
use crate::types::CompType;

verus! {

/// Ticks between two looks at the wall clock in a run. A run may overshoot its deadline by up to
/// one less than this.
pub const CHECK_EVERY: u64 = 1024;

/// A one-shot assertion of a user input.
#[verifier::ext_equal]
pub struct Pulse {
    /// Value of each output while the pulse is asserted.
    pub state: Seq<bool>,
    /// Asserted in the coming section between ticks; otherwise released there.
    pub armed: bool,
}

/// State of a simulation.
#[verifier::ext_equal]
pub struct Machine {
    /// Value of each link.
    pub links: Seq<bool>,
    /// State of each component.
    pub parts: Seq<PartState>,
    /// Pulses under way, by component.
    pub pulses: Map<u32, Pulse>,
    /// Links the coming tick looks at.
    pub reads: Set<u32>,
    /// Links scheduled for the tick after it.
    pub writes: Set<u32>,
    /// Links that flipped since the last snapshot.
    pub changed: Set<u32>,
    /// Ticks elapsed.
    pub tick: u64,
}

/// The states after the components in `dirty` have been evaluated once each.
pub open spec fn stepped(
    net: Netlist,
    links: Seq<bool>,
    tick: u64,
    dirty: Set<u32>,
    states: Seq<PartState>,
) -> Seq<PartState> {
    Seq::new(
        states.len(),
        |c: int|
            if dirty.contains(c as u32) {
                net.parts[c].step(c as u32, net.parts[c].reads(links), tick, states[c])
            } else {
                states[c]
            },
    )
}

/// The states after the clocks have counted the tick.
pub open spec fn beaten(net: Netlist, states: Seq<PartState>) -> Seq<PartState> {
    Seq::new(states.len(), |c: int| net.parts[c].beat(states[c]))
}

/// The outputs a pulse sets in the section between ticks.
pub open spec fn pulse_outs(p: Pulse) -> Seq<bool> {
    Seq::new(p.state.len(), |i: int| p.armed && p.state[i])
}

/// The states after the pulses have set their outputs.
pub open spec fn pulsed(pulses: Map<u32, Pulse>, states: Seq<PartState>) -> Seq<PartState> {
    Seq::new(
        states.len(),
        |c: int|
            if pulses.dom().contains(c as u32) {
                states[c].with_outs(pulse_outs(pulses[c as u32]))
            } else {
                states[c]
            },
    )
}

/// The pulses left after the section between ticks: those asserted in it, to be released next time.
pub open spec fn disarmed(pulses: Map<u32, Pulse>) -> Map<u32, Pulse> {
    Map::new(
        |c: u32| pulses.dom().contains(c) && pulses[c].armed,
        |c: u32| Pulse { state: pulses[c].state, armed: false },
    )
}

/// The links on which two sets of values differ.
pub open spec fn flips(a: Seq<bool>, b: Seq<bool>) -> Set<u32> {
    Set::new(|l: u32| l < a.len() && a[l as int] != b[l as int])
}

/// The components that read one of the given links.
pub open spec fn woken(net: Netlist, links: Set<u32>) -> Set<u32> {
    Set::new(
        |c: u32|
            c < net.parts.len() && exists|p: int|
                0 <= p < net.parts[c as int].inputs.len() && links.contains(
                    #[trigger] net.parts[c as int].inputs[p],
                ),
    )
}

/// How many input pins read one of the given links, among the first `n` links.
pub open spec fn fanout(net: Netlist, links: Set<u32>, n: int) -> nat
    decreases n,
{
    if n <= 0 {
        0
    } else {
        fanout(net, links, n - 1) + if links.contains((n - 1) as u32) {
            net.readers((n - 1) as u32).len()
        } else {
            0
        }
    }
}

/// One more link adds the pins that read it.
pub proof fn lemma_fanout_insert(net: Netlist, links: Set<u32>, l: u32, n: int)
    requires
        !links.contains(l),
        0 <= n <= u32::MAX,
    ensures
        fanout(net, links.insert(l), n) == fanout(net, links, n) + if l < n {
            net.readers(l).len()
        } else {
            0
        },
    decreases n,
{
    if n > 0 {
        lemma_fanout_insert(net, links, l, n - 1);
    }
}

/// No links are read by no pin.
pub proof fn lemma_fanout_none(net: Netlist, n: int)
    ensures
        fanout(net, Set::empty(), n) == 0,
    decreases n,
{
    if n > 0 {
        lemma_fanout_none(net, n - 1);
    }
}

impl Machine {
    /// The link values once the scheduled links have taken the wired OR of their drivers.
    pub open spec fn visible(self, net: Netlist) -> Seq<bool> {
        Seq::new(
            self.links.len(),
            |l: int|
                if self.reads.contains(l as u32) {
                    state::powered(net, self.parts, l as u32)
                } else {
                    self.links[l]
                },
        )
    }

    /// The links the coming tick flips.
    pub open spec fn flipping(self, net: Netlist) -> Set<u32> {
        flips(self.links, self.visible(net))
    }

    /// The states after the compute phase of the coming tick.
    pub open spec fn computed(self, net: Netlist) -> Seq<PartState> {
        stepped(
            net,
            self.visible(net),
            self.tick,
            woken(net, self.flipping(net)),
            self.parts,
        )
    }

    /// One tick.
    pub open spec fn ticked(self, net: Netlist) -> Machine {
        let computed = self.computed(net);
        let clocked = beaten(net, computed);
        let done = pulsed(self.pulses, clocked);
        Machine {
            links: self.visible(net),
            parts: done,
            pulses: disarmed(self.pulses),
            reads: self.writes.union(state::moved_any(net, self.parts, computed)).union(
                state::moved_any(net, computed, clocked),
            ).union(state::moved_any(net, clocked, done)),
            writes: Set::empty(),
            changed: self.changed.union(self.flipping(net)),
            tick: self.tick.wrapping_add(1),
        }
    }

    /// How many entries the coming tick puts on the schedule: one for each output pin that flips in
    /// the compute phase, with the clocks, and with the pulses.
    pub open spec fn scheduling(self, net: Netlist) -> nat {
        let computed = self.computed(net);
        let clocked = beaten(net, computed);
        let done = pulsed(self.pulses, clocked);
        state::flipped_all(net, self.parts, computed) + state::flipped_all(net, computed, clocked)
            + state::flipped_all(net, clocked, done)
    }

    /// The coming tick has `threshold` or more entries on its schedule, of which there are `due`, or
    /// input pins to see to.
    pub open spec fn is_large(self, net: Netlist, due: nat, threshold: usize) -> bool {
        due >= threshold || fanout(net, self.flipping(net), net.links as int) >= threshold
    }

    /// `n` ticks.
    pub open spec fn after(self, net: Netlist, n: nat) -> Machine
        decreases n,
    {
        if n == 0 {
            self
        } else {
            self.after(net, (n - 1) as nat).ticked(net)
        }
    }

    /// `next` is where a run of up to `ticks` ticks may leave the machine: after all of them, or, if
    /// the run is timed, after a number of ticks at which it looks at the clock.
    pub open spec fn runs_to(self, net: Netlist, ticks: u64, timed: bool, next: Machine) -> bool {
        exists|k: nat|
            k <= ticks && next == #[trigger] self.after(net, k) && (k == ticks || (timed && k > 0
                && k % CHECK_EVERY as nat == 0))
    }

    /// What holds of a simulation of a board at all times.
    pub open spec fn valid(self, net: Netlist) -> bool {
        &&& self.links.len() == net.links
        &&& self.parts.len() == net.parts.len()
        &&& forall|c: int|
            0 <= c < net.parts.len() ==> net.parts[c].sane(#[trigger] self.parts[c])
        &&& forall|c: u32| #[trigger]
            self.pulses.dom().contains(c) ==> {
                &&& c < net.parts.len()
                &&& net.parts[c as int].ty == CompType::UserInput
                &&& self.pulses[c].state.len() == net.parts[c as int].outputs.len()
            }
        &&& forall|l: u32| #[trigger] self.reads.contains(l) ==> l < net.links
        &&& forall|l: u32| #[trigger] self.writes.contains(l) ==> l < net.links
        &&& forall|l: u32| #[trigger] self.changed.contains(l) ==> l < net.links
    }
}

/// How many ticks, fewer than 2^64, lead from one state to another.
pub open spec fn ticks_between(m: Machine, next: Machine) -> nat {
    next.tick.wrapping_sub(m.tick) as nat
}

/// The tick count tells how many ticks have been run.
pub proof fn lemma_ticks_between(net: Netlist, m: Machine, n: nat)
    requires
        n <= u64::MAX,
    ensures
        ticks_between(m, m.after(net, n)) == n,
        m.after(net, n).tick == m.tick.wrapping_add(n as u64),
    decreases n,
{
    if n > 0 {
        lemma_ticks_between(net, m, (n - 1) as nat);
    }
}

/// How many entries the schedules have. A link stands in a schedule once for each flip of an output
/// that drives it.
#[verifier::ext_equal]
pub struct Backlog {
    /// Entries on the schedule of the coming tick.
    pub due: nat,
    /// Entries on the schedule of the tick after it.
    pub next: nat,
}

impl Backlog {
    /// One tick of `m`.
    pub open spec fn ticked(self, net: Netlist, m: Machine) -> Backlog {
        Backlog { due: self.next + m.scheduling(net), next: 0 }
    }

    /// `n` ticks of `m`.
    pub open spec fn after(self, net: Netlist, m: Machine, n: nat) -> Backlog
        decreases n,
    {
        if n == 0 {
            self
        } else {
            self.after(net, m, (n - 1) as nat).ticked(net, m.after(net, (n - 1) as nat))
        }
    }
}

/// The schedules at power-on: an entry for each negated output, and for each output that flips when
/// the components are seeded and first evaluated.
pub open spec fn first_backlog(net: Netlist) -> Backlog {
    Backlog {
        due: state::negated_upto(net, net.parts.len() as int) + state::flipped_all(
            net,
            cleared(net),
            seeded(net),
        ) + state::flipped_all(net, seeded(net), powered_on(net)),
        next: 0,
    }
}

/// The seeded states, before the first evaluation.
pub open spec fn seeded(net: Netlist) -> Seq<PartState> {
    Seq::new(net.parts.len(), |c: int| net.parts[c].seeded())
}

/// The cleared states, before seeding.
pub open spec fn cleared(net: Netlist) -> Seq<PartState> {
    Seq::new(net.parts.len(), |c: int| net.parts[c].cleared())
}

/// The states at power-on.
pub open spec fn powered_on(net: Netlist) -> Seq<PartState> {
    Seq::new(net.parts.len(), |c: int| net.parts[c].power_on(c as u32, net.links))
}

/// A simulation at power-on: every link low, the links of all outputs that moved or drive high
/// scheduled for the first tick.
pub open spec fn start(net: Netlist) -> Machine {
    Machine {
        links: behavior::all_low(net.links),
        parts: powered_on(net),
        pulses: Map::empty(),
        reads: state::negated_links(net).union(
            state::moved_any(net, cleared(net), seeded(net)),
        ).union(state::moved_any(net, seeded(net), powered_on(net))),
        writes: Set::empty(),
        changed: Set::empty(),
        tick: 0,
    }
}

/// The outputs a trigger asks for: the given values, low where there are none.
pub open spec fn padded(values: Seq<bool>, n: nat) -> Seq<bool> {
    Seq::new(n, |p: int| p < values.len() && values[p])
}

impl Machine {
    /// Component `c` is a user input.
    pub open spec fn is_input(self, net: Netlist, c: u32) -> bool {
        c < net.parts.len() && net.parts[c as int].ty == CompType::UserInput
    }

    /// Latch the outputs of user input `c`.
    pub open spec fn latched(self, net: Netlist, c: u32, values: Seq<bool>) -> Machine {
        let part = net.parts[c as int];
        let st = self.parts[c as int];
        let next = st.with_outs(padded(values, part.outputs.len()));
        Machine {
            parts: self.parts.update(c as int, next),
            writes: self.writes.union(state::moved(part, st, next)),
            ..self
        }
    }

    /// Arm a pulse on user input `c`.
    pub open spec fn armed(self, net: Netlist, c: u32, values: Seq<bool>) -> Machine {
        Machine {
            pulses: self.pulses.insert(
                c,
                Pulse {
                    state: padded(values, net.parts[c as int].outputs.len()),
                    armed: true,
                },
            ),
            ..self
        }
    }
}

/// A run takes all its ticks, unless it is timed: then it may end after any multiple of 1024 of them.
pub proof fn law_runs_end_on_a_look(m: Machine, net: Netlist, ticks: u64, timed: bool, next: Machine)
    requires
        m.runs_to(net, ticks, timed, next),
    ensures
        !timed ==> next == m.after(net, ticks as nat),
        exists|k: nat|
            k <= ticks && next == #[trigger] m.after(net, k) && (k == ticks || (timed && k > 0 && k
                % 1024 == 0)),
{
}

} // verus!
