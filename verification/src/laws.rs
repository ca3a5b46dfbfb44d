//! What holds of every simulation.

use vstd::prelude::*;
#[allow(unused_imports)]
use vstd::arithmetic::power2;
#[allow(unused_imports)]
use crate::arith;
#[allow(unused_imports)]
use crate::behavior::{self, PartState};
#[allow(unused_imports)]
use crate::machine::{self, Machine, Pulse};
#[allow(unused_imports)]
use crate::netlist::{Netlist, Part};
#[allow(unused_imports)]
use crate::sim::snapshot;
#[allow(unused_imports)]
use crate::state;
#[allow(unused_imports)]
use crate::types::CompType;

verus! {

/// Every link that does not show the wired OR of its drivers is scheduled.
pub open spec fn covered(net: Netlist, m: Machine) -> bool {
    forall|l: u32|
        l < net.links && m.links[l as int] != #[trigger] state::powered(net, m.parts, l)
            ==> m.reads.contains(l) || m.writes.contains(l)
}

/// A link whose drivers changed between two sets of states is among the moved ones.
proof fn lemma_powered_moves(net: Netlist, a: Seq<PartState>, b: Seq<PartState>, l: u32)
    requires
        state::powered(net, a, l) != state::powered(net, b, l),
    ensures
        state::moved_any(net, a, b).contains(l),
{
    let (c, p) = if state::powered(net, a, l) {
        choose|c: int, p: int| #[trigger] state::feeds(net, a, l, c, p)
    } else {
        choose|c: int, p: int| #[trigger] state::feeds(net, b, l, c, p)
    };
    assert(!(state::feeds(net, a, l, c, p) && state::feeds(net, b, l, c, p)));
    assert(net.parts[c].outputs[p] == l);
    assert(state::moved(net.parts[c], a[c], b[c]).contains(l));
}

/// The links two steps move together are moved by one of them.
proof fn lemma_moved_links(net: Netlist, a: Seq<PartState>, b: Seq<PartState>, l: u32)
    requires
        net.valid(),
        state::moved_any(net, a, b).contains(l),
    ensures
        l < net.links,
{
    let c = choose|c: int|
        0 <= c < net.parts.len() && #[trigger] state::moved(net.parts[c], a[c], b[c]).contains(l);
    let part = net.parts[c];
    let p = choose|p: int|
        0 <= p < part.outputs.len() && #[trigger] part.outputs[p] == l && a[c].outs[p]
            != b[c].outs[p];
    assert(net.parts[c].outputs[p] < net.links);
}

/// At power-on every link that does not show the wired OR of its drivers is scheduled.
pub proof fn law_start_covered(net: Netlist)
    requires
        net.valid(),
    ensures
        covered(net, machine::start(net)),
{
    let m = machine::start(net);
    assert forall|l: u32|
        l < net.links && m.links[l as int] != #[trigger] state::powered(net, m.parts, l) implies m.reads.contains(
        l,
    ) by {
        if state::powered(net, machine::cleared(net), l) {
            let (c, p) = choose|c: int, p: int| #[trigger]
                state::feeds(net, machine::cleared(net), l, c, p);
            assert(net.parts[c].outputs[p] == l && net.parts[c].neg_outputs[p]);
            assert(state::negated_links(net).contains(l));
        } else if state::powered(net, machine::seeded(net), l) {
            lemma_powered_moves(net, machine::cleared(net), machine::seeded(net), l);
        } else {
            lemma_powered_moves(net, machine::seeded(net), m.parts, l);
        }
    }
}

/// A tick keeps every link that does not show the wired OR of its drivers scheduled.
pub proof fn law_tick_keeps_covered(net: Netlist, m: Machine)
    requires
        net.valid(),
        m.valid(net),
        covered(net, m),
    ensures
        covered(net, m.ticked(net)),
{
    let next = m.ticked(net);
    let s1 = m.computed(net);
    let s2 = machine::beaten(net, s1);
    assert forall|l: u32|
        l < net.links && next.links[l as int] != #[trigger] state::powered(
            net,
            next.parts,
            l,
        ) implies next.reads.contains(l) by {
        if state::powered(net, m.parts, l) != state::powered(net, s1, l) {
            lemma_powered_moves(net, m.parts, s1, l);
        } else if state::powered(net, s1, l) != state::powered(net, s2, l) {
            lemma_powered_moves(net, s1, s2, l);
        } else if state::powered(net, s2, l) != state::powered(net, next.parts, l) {
            lemma_powered_moves(net, s2, next.parts, l);
        } else {
            assert(next.links[l as int] != state::powered(net, m.parts, l));
            assert(!m.reads.contains(l));
            assert(m.writes.contains(l));
        }
    }
}

/// A trigger keeps every link that does not show the wired OR of its drivers scheduled.
pub proof fn law_trigger_keeps_covered(net: Netlist, m: Machine, c: u32, values: Seq<bool>)
    requires
        net.valid(),
        m.valid(net),
        covered(net, m),
        m.is_input(net, c),
    ensures
        covered(net, m.latched(net, c, values)),
        covered(net, m.armed(net, c, values)),
{
    let next = m.latched(net, c, values);
    assert forall|l: u32|
        l < net.links && next.links[l as int] != #[trigger] state::powered(
            net,
            next.parts,
            l,
        ) implies next.reads.contains(l) || next.writes.contains(l) by {
        if state::powered(net, m.parts, l) != state::powered(net, next.parts, l) {
            lemma_powered_moves(net, m.parts, next.parts, l);
            let k = choose|k: int|
                0 <= k < net.parts.len() && #[trigger] state::moved(
                    net.parts[k],
                    m.parts[k],
                    next.parts[k],
                ).contains(l);
            assert(k == c);
        }
    }
    let armed = m.armed(net, c, values);
    assert forall|l: u32|
        l < net.links && armed.links[l as int] != #[trigger] state::powered(
            net,
            armed.parts,
            l,
        ) implies armed.reads.contains(l) || armed.writes.contains(l) by {
        assert(m.links[l as int] != state::powered(net, m.parts, l));
    }
}

/// A simulation is valid at power-on.
pub proof fn law_start_valid(net: Netlist)
    requires
        net.valid(),
    ensures
        machine::start(net).valid(net),
{
    let m = machine::start(net);
    assert forall|c: int| 0 <= c < net.parts.len() implies net.parts[c].sane(#[trigger] m.parts[c]) by {
        assert(net.parts[c].valid());
        behavior::lemma_power_on_sane(net.parts[c], c as u32, net.links);
    }
    assert forall|l: u32| #[trigger] m.reads.contains(l) implies l < net.links by {
        if state::negated_links(net).contains(l) {
            let (c, p) = choose|c: int, p: int|
                0 <= c < net.parts.len() && 0 <= p < net.parts[c].outputs.len()
                    && #[trigger] net.parts[c].outputs[p] == l && net.parts[c].neg_outputs[p];
            assert(net.parts[c].outputs[p] < net.links);
        } else if state::moved_any(net, machine::cleared(net), machine::seeded(net)).contains(l) {
            lemma_moved_links(net, machine::cleared(net), machine::seeded(net), l);
        } else {
            lemma_moved_links(net, machine::seeded(net), m.parts, l);
        }
    }
}

/// A tick keeps a simulation valid.
pub proof fn law_tick_keeps_valid(net: Netlist, m: Machine)
    requires
        net.valid(),
        m.valid(net),
    ensures
        m.ticked(net).valid(net),
{
    let next = m.ticked(net);
    let s1 = m.computed(net);
    let s2 = machine::beaten(net, s1);
    assert forall|c: int| 0 <= c < net.parts.len() implies net.parts[c].sane(
        #[trigger] next.parts[c],
    ) by {
        let part = net.parts[c];
        assert(part.valid());
        assert(part.sane(m.parts[c]));
        behavior::lemma_step_sane(
            part,
            c as u32,
            part.reads(m.visible(net)),
            m.tick,
            m.parts[c],
        );
        assert(part.sane(s1[c]));
        behavior::lemma_beat_sane(part, s1[c]);
        assert(part.sane(s2[c]));
        if m.pulses.dom().contains(c as u32) {
            assert(part.ty == CompType::UserInput);
        }
    }
    assert forall|l: u32| #[trigger] next.reads.contains(l) implies l < net.links by {
        if state::moved_any(net, m.parts, s1).contains(l) {
            lemma_moved_links(net, m.parts, s1, l);
        } else if state::moved_any(net, s1, s2).contains(l) {
            lemma_moved_links(net, s1, s2, l);
        } else if state::moved_any(net, s2, next.parts).contains(l) {
            lemma_moved_links(net, s2, next.parts, l);
        } else {
            assert(m.writes.contains(l));
        }
    }
    assert forall|l: u32| #[trigger] next.changed.contains(l) implies l < net.links by {
        if m.changed.contains(l) {
        } else {
            assert(m.flipping(net).contains(l));
        }
    }
}

/// A trigger keeps a simulation valid.
pub proof fn law_trigger_keeps_valid(net: Netlist, m: Machine, c: u32, values: Seq<bool>)
    requires
        net.valid(),
        m.valid(net),
        m.is_input(net, c),
    ensures
        m.latched(net, c, values).valid(net),
        m.armed(net, c, values).valid(net),
{
    let next = m.latched(net, c, values);
    let part = net.parts[c as int];
    assert(part.sane(m.parts[c as int]));
    assert forall|k: int| 0 <= k < net.parts.len() implies net.parts[k].sane(
        #[trigger] next.parts[k],
    ) by {
        assert(net.parts[k].sane(m.parts[k]));
    }
    assert forall|l: u32| #[trigger] next.writes.contains(l) implies l < net.links by {
        if !m.writes.contains(l) {
            let p = choose|p: int|
                0 <= p < part.outputs.len() && #[trigger] part.outputs[p] == l
                    && m.parts[c as int].outs[p] != next.parts[c as int].outs[p];
            assert(net.parts[c as int].outputs[p] < net.links);
        }
    }
    let armed = m.armed(net, c, values);
    assert forall|k: u32| #[trigger] armed.pulses.dom().contains(k) implies {
        &&& k < net.parts.len()
        &&& net.parts[k as int].ty == CompType::UserInput
        &&& armed.pulses[k].state.len() == net.parts[k as int].outputs.len()
    } by {
        if k != c {
            assert(m.pulses.dom().contains(k));
        }
    }
}

/// A link changes only in a tick that it is scheduled for, and then to the wired OR its drivers had
/// when the tick began.
pub proof fn law_links_change_only_when_scheduled(net: Netlist, m: Machine, l: u32)
    requires
        m.valid(net),
        l < net.links,
    ensures
        !m.reads.contains(l) ==> m.ticked(net).links[l as int] == m.links[l as int],
        m.reads.contains(l) ==> m.ticked(net).links[l as int] == state::powered(net, m.parts, l),
{
}

/// With nothing but its own schedule pending, a tick makes every link show the wired OR of the outputs
/// as they were before it.
pub proof fn law_tick_shows_every_output(net: Netlist, m: Machine, l: u32)
    requires
        m.valid(net),
        covered(net, m),
        m.writes == Set::<u32>::empty(),
        l < net.links,
    ensures
        m.ticked(net).links[l as int] == state::powered(net, m.parts, l),
{
}

/// A quiet simulation: nothing scheduled, no pulse under way, no clock running.
pub open spec fn quiet(net: Netlist, m: Machine) -> bool {
    &&& m.reads == Set::<u32>::empty()
    &&& m.writes == Set::<u32>::empty()
    &&& m.pulses == Map::<u32, Pulse>::empty()
    &&& forall|c: int|
        0 <= c < net.parts.len() && net.parts[c].ty == CompType::Clk
            ==> !(#[trigger] m.parts[c]).running
}

/// In a quiet simulation every link shows the wired OR of its drivers.
pub proof fn law_quiet_links_are_wired_or(net: Netlist, m: Machine, l: u32)
    requires
        covered(net, m),
        quiet(net, m),
        l < net.links,
    ensures
        m.links[l as int] == state::powered(net, m.parts, l),
{
}

/// A quiet simulation stays as it is but for the tick count.
pub proof fn law_quiet_stays(net: Netlist, m: Machine)
    requires
        m.valid(net),
        quiet(net, m),
    ensures
        m.ticked(net) == (Machine { tick: m.tick.wrapping_add(1), ..m }),
        quiet(net, m.ticked(net)),
{
    let next = m.ticked(net);
    assert(m.visible(net) =~= m.links);
    assert(m.flipping(net) =~= Set::empty());
    assert(machine::woken(net, m.flipping(net)) =~= Set::empty());
    assert(m.computed(net) =~= m.parts);
    let s2 = machine::beaten(net, m.parts);
    assert forall|c: int| 0 <= c < net.parts.len() implies s2[c] == m.parts[c] by {
        assert(net.parts[c].ty == CompType::Clk ==> !m.parts[c].running);
    }
    assert(s2 =~= m.parts);
    assert(machine::pulsed(m.pulses, s2) =~= m.parts);
    assert(state::moved_any(net, m.parts, m.parts) =~= Set::empty());
    assert(next.reads =~= Set::empty());
    assert(machine::disarmed(m.pulses) =~= m.pulses);
    assert(m.changed.union(Set::empty()) =~= m.changed);
    assert(next =~= (Machine { tick: m.tick.wrapping_add(1), ..m }));
}

/// After the first tick every link shows the wired OR of the outputs at power-on; before it, every
/// link is low.
pub proof fn law_first_tick_shows_power_on(net: Netlist, l: u32)
    requires
        net.valid(),
        l < net.links,
    ensures
        !machine::start(net).links[l as int],
        machine::start(net).ticked(net).links[l as int] == state::powered(
            net,
            machine::powered_on(net),
            l,
        ),
{
    law_start_covered(net);
    let m = machine::start(net);
    assert(m.links[l as int] != state::powered(net, m.parts, l) ==> m.reads.contains(l));
}

/// On a board without negated pins the first tick looks at exactly the links of the outputs that
/// are high at power-on.
pub proof fn law_plain_start_schedule(net: Netlist, l: u32)
    requires
        net.valid(),
        forall|c: int| 0 <= c < net.parts.len() ==> (#[trigger] net.parts[c]).plain(),
    ensures
        machine::start(net).reads.contains(l) <==> exists|c: int, p: int|
            0 <= c < net.parts.len() && 0 <= p < net.parts[c].outputs.len()
                && #[trigger] net.parts[c].outputs[p] == l && machine::powered_on(net)[c].outs[p],
{
    let m = machine::start(net);
    let low = machine::cleared(net);
    let seed = machine::seeded(net);
    assert forall|c: int| 0 <= c < net.parts.len() implies {
        let part = net.parts[c];
        &&& part.ty == CompType::Rom ==> (#[trigger] seed[c]).outs == low[c].outs
        &&& part.ty != CompType::Rom ==> m.parts[c] == seed[c]
        &&& part.plain()
        &&& part.neg_outputs.len() == part.outputs.len()
        &&& seed[c].outs.len() == part.outputs.len()
        &&& m.parts[c].outs.len() == part.outputs.len()
    } by {
        let part = net.parts[c];
        assert(part.valid());
        assert forall|p: int| 0 <= p < part.inputs.len() implies #[trigger] part.inputs[p]
            < net.links by {
            assert(net.parts[c].inputs[p] < net.links);
        }
        behavior::law_plain_power_on(part, c as u32, net.links);
        behavior::lemma_power_on_sane(part, c as u32, net.links);
    }
    if m.reads.contains(l) {
        if state::negated_links(net).contains(l) {
            let (c, p) = choose|c: int, p: int|
                0 <= c < net.parts.len() && 0 <= p < net.parts[c].outputs.len()
                    && #[trigger] net.parts[c].outputs[p] == l && net.parts[c].neg_outputs[p];
            assert(seed[c].outs.len() == net.parts[c].outputs.len());
        } else if state::moved_any(net, low, seed).contains(l) {
            let c = choose|c: int|
                0 <= c < net.parts.len() && #[trigger] state::moved(
                    net.parts[c],
                    low[c],
                    seed[c],
                ).contains(l);
            let part = net.parts[c];
            let p = choose|p: int|
                0 <= p < part.outputs.len() && #[trigger] part.outputs[p] == l && low[c].outs[p]
                    != seed[c].outs[p];
            assert(seed[c].outs[p]);
            assert(net.parts[c].outputs[p] == l && m.parts[c].outs[p]);
        } else {
            let c = choose|c: int|
                0 <= c < net.parts.len() && #[trigger] state::moved(
                    net.parts[c],
                    seed[c],
                    m.parts[c],
                ).contains(l);
            let part = net.parts[c];
            let p = choose|p: int|
                0 <= p < part.outputs.len() && #[trigger] part.outputs[p] == l && seed[c].outs[p]
                    != m.parts[c].outs[p];
            assert(part.ty == CompType::Rom);
            assert(net.parts[c].outputs[p] == l && m.parts[c].outs[p]);
        }
    }
    if exists|c: int, p: int|
        0 <= c < net.parts.len() && 0 <= p < net.parts[c].outputs.len()
            && #[trigger] net.parts[c].outputs[p] == l && machine::powered_on(net)[c].outs[p] {
        let (c, p) = choose|c: int, p: int|
            0 <= c < net.parts.len() && 0 <= p < net.parts[c].outputs.len()
                && #[trigger] net.parts[c].outputs[p] == l && machine::powered_on(net)[c].outs[p];
        assert(seed[c].outs.len() == net.parts[c].outputs.len());
        if seed[c].outs[p] {
            assert(state::moved(net.parts[c], low[c], seed[c]).contains(l));
        } else {
            assert(state::moved(net.parts[c], seed[c], m.parts[c]).contains(l));
        }
    }
}

/// What a trigger latches at a tick boundary does not show on a link in the coming tick, unless the
/// link was scheduled already; the tick after it looks at the link.
pub proof fn law_latched_input_shows_after_two_ticks(
    net: Netlist,
    m: Machine,
    c: u32,
    values: Seq<bool>,
    p: int,
)
    requires
        m.valid(net),
        m.is_input(net, c),
        0 <= p < net.parts[c as int].outputs.len(),
        m.parts[c as int].outs[p] != (p < values.len() && values[p]),
    ensures
        ({
            let l = net.parts[c as int].outputs[p];
            let one = m.latched(net, c, values).ticked(net);
            let two = one.ticked(net);
            &&& l < net.links && !m.reads.contains(l) ==> one.links[l as int] == m.links[l as int]
            &&& l < net.links ==> two.links[l as int] == state::powered(net, one.parts, l)
        }),
{
    let l = net.parts[c as int].outputs[p];
    let latched = m.latched(net, c, values);
    let one = latched.ticked(net);
    assert(net.parts[c as int].outputs[p] == l && m.parts[c as int].outs[p]
        != latched.parts[c as int].outs[p]);
    assert(latched.writes.contains(l));
    assert(one.reads.contains(l));
}

/// A pulse sets its outputs in the coming tick and clears them in the one after, and is then over.
pub proof fn law_pulse_is_one_shot(net: Netlist, m: Machine, c: u32, values: Seq<bool>)
    requires
        net.valid(),
        m.valid(net),
        m.is_input(net, c),
    ensures
        ({
            let n = net.parts[c as int].outputs.len();
            let one = m.armed(net, c, values).ticked(net);
            let two = one.ticked(net);
            &&& one.parts[c as int].outs == machine::padded(values, n)
            &&& two.parts[c as int].outs == Seq::new(n, |p: int| false)
            &&& !two.pulses.dom().contains(c)
        }),
{
    let n = net.parts[c as int].outputs.len();
    let armed = m.armed(net, c, values);
    let one = armed.ticked(net);
    let two = one.ticked(net);
    assert(armed.pulses[c].state == machine::padded(values, n));
    assert(one.parts[c as int].outs =~= machine::padded(values, n));
    assert(one.pulses.dom().contains(c));
    assert(two.parts[c as int].outs =~= Seq::new(n, |p: int| false));
}

/// Ticks add up: `a` ticks and then `b` ticks are `a + b` ticks.
pub proof fn law_ticks_add_up(net: Netlist, m: Machine, a: nat, b: nat)
    ensures
        m.after(net, a).after(net, b) == m.after(net, a + b),
    decreases b,
{
    if b > 0 {
        law_ticks_add_up(net, m, a, (b - 1) as nat);
    }
}

/// A simulation stays valid, and keeps its schedule covering, over any number of ticks.
pub proof fn law_always_valid_and_covered(net: Netlist, m: Machine, n: nat)
    requires
        net.valid(),
        m.valid(net),
        covered(net, m),
    ensures
        m.after(net, n).valid(net),
        covered(net, m.after(net, n)),
    decreases n,
{
    if n > 0 {
        let k = (n - 1) as nat;
        law_always_valid_and_covered(net, m, k);
        law_tick_keeps_valid(net, m.after(net, k));
        law_tick_keeps_covered(net, m.after(net, k));
    }
}

/// The tick count counts the ticks, modulo its 64 bits.
pub proof fn law_tick_count(net: Netlist, m: Machine, n: nat)
    ensures
        m.after(net, n).tick == (m.tick + n) % 0x1_0000_0000_0000_0000,
    decreases n,
{
    if n > 0 {
        law_tick_count(net, m, (n - 1) as nat);
    }
}

/// A link that differs from its value some ticks ago has been recorded as changed since.
pub proof fn law_changes_are_recorded(net: Netlist, m: Machine, n: nat, l: u32)
    requires
        l < m.links.len(),
        m.links[l as int] != m.after(net, n).links[l as int],
    ensures
        m.after(net, n).changed.contains(l),
    decreases n,
{
    if n > 0 {
        let k = (n - 1) as nat;
        let prev = m.after(net, k);
        lemma_after_links(net, m, k);
        if m.links[l as int] != prev.links[l as int] {
            law_changes_are_recorded(net, m, k, l);
        } else {
            assert(prev.flipping(net).contains(l));
        }
    }
}

proof fn lemma_after_links(net: Netlist, m: Machine, n: nat)
    ensures
        m.after(net, n).links.len() == m.links.len(),
    decreases n,
{
    if n > 0 {
        lemma_after_links(net, m, (n - 1) as nat);
    }
}

/// Only links that flipped in some tick are recorded as changed.
pub proof fn law_only_changes_are_recorded(net: Netlist, m: Machine, n: nat, l: u32)
    requires
        m.after(net, n).changed.contains(l),
        !m.changed.contains(l),
    ensures
        exists|k: nat|
            k < n && m.after(net, k).links[l as int] != (#[trigger] m.after(net, k).ticked(
                net,
            )).links[l as int],
    decreases n,
{
    if n > 0 {
        let k = (n - 1) as nat;
        let prev = m.after(net, k);
        if prev.changed.contains(l) {
            law_only_changes_are_recorded(net, m, k, l);
            let j = choose|j: nat|
                j < k && m.after(net, j).links[l as int] != (#[trigger] m.after(net, j).ticked(
                    net,
                )).links[l as int];
            assert(j < n && m.after(net, j).links[l as int] != m.after(net, j).ticked(
                net,
            ).links[l as int]);
        } else {
            assert(prev.flipping(net).contains(l));
            assert(prev.links[l as int] != prev.ticked(net).links[l as int]);
        }
    }
}

/// Taking a snapshot, or leaving it, makes no difference to what the simulation does afterwards: only
/// the record of changes differs.
pub proof fn law_snapshots_do_not_disturb(net: Netlist, m: Machine, record: Set<u32>, n: nat)
    ensures
        (Machine { changed: record, ..m }).after(net, n) == (Machine {
            changed: (Machine { changed: record, ..m }).after(net, n).changed,
            ..m.after(net, n)
        }),
    decreases n,
{
    if n > 0 {
        law_snapshots_do_not_disturb(net, m, record, (n - 1) as nat);
        let a = (Machine { changed: record, ..m }).after(net, (n - 1) as nat);
        let b = m.after(net, (n - 1) as nat);
        assert(a.visible(net) =~= b.visible(net));
        assert(a.computed(net) =~= b.computed(net));
    }
}

/// A reader who has the link values of a snapshot and applies a delta made any number of ticks later
/// has the link values of that tick.
pub proof fn law_delta_after_ticks(
    net: Netlist,
    m: Machine,
    n: nat,
    d: (Seq<u32>, Seq<u8>),
)
    requires
        m.links.len() <= u32::MAX,
        snapshot::delta_of(d, m.after(net, n).changed, m.after(net, n).links),
    ensures
        snapshot::applied(m.links, d) == m.after(net, n).links,
{
    let now = m.after(net, n);
    lemma_after_links(net, m, n);
    assert forall|l: u32|
        l < now.links.len() && m.links[l as int] != now.links[l as int] implies #[trigger] now.changed.contains(
        l,
    ) by {
        law_changes_are_recorded(net, m, n, l);
    }
    snapshot::law_delta_brings_up_to_date(m.links, now.links, now.changed, d);
}

/// The order in which the components of a tick are evaluated, and how they are grouped, make no
/// difference; evaluating one again makes none either.
pub proof fn law_evaluation_order_is_irrelevant(
    net: Netlist,
    links: Seq<bool>,
    tick: u64,
    a: Set<u32>,
    b: Set<u32>,
    states: Seq<PartState>,
)
    requires
        net.valid(),
        states.len() == net.parts.len(),
        forall|c: int| 0 <= c < net.parts.len() ==> net.parts[c].sane(#[trigger] states[c]),
    ensures
        machine::stepped(net, links, tick, b, machine::stepped(net, links, tick, a, states))
            == machine::stepped(net, links, tick, a.union(b), states),
        machine::stepped(net, links, tick, a, machine::stepped(net, links, tick, b, states))
            == machine::stepped(net, links, tick, a.union(b), states),
{
    let both = machine::stepped(net, links, tick, a.union(b), states);
    let ab = machine::stepped(net, links, tick, b, machine::stepped(net, links, tick, a, states));
    let ba = machine::stepped(net, links, tick, a, machine::stepped(net, links, tick, b, states));
    assert forall|c: int| 0 <= c < states.len() implies ab[c] == both[c] && ba[c] == both[c] by {
        let part = net.parts[c];
        assert(part.valid());
        assert(part.sane(states[c]));
        behavior::law_step_idempotent(part, c as u32, part.reads(links), tick, states[c]);
    }
    assert(ab =~= both);
    assert(ba =~= both);
}

/// A negated input pin reads the inverse of its link, and a negated output pin drives the inverse of
/// its value.
pub proof fn law_negated_pin_inverts(part: Part, links: Seq<bool>, st: PartState, p: int)
    ensures
        0 <= p < part.inputs.len() ==> part.reads(links)[p] == (if part.neg_inputs[p] {
            !links[part.inputs[p] as int]
        } else {
            links[part.inputs[p] as int]
        }),
        part.drives(st, p) == (if part.neg_outputs[p] {
            !st.outs[p]
        } else {
            st.outs[p]
        }),
{
}

/// The component acts on rising clock edges only; its clock is the given input pin.
pub open spec fn clock_pin(part: Part) -> Option<int> {
    match part.ty {
        CompType::DFf | CompType::JkFf | CompType::SrFf => Some(1),
        CompType::Ram | CompType::LedMatrix => Some(part.inputs.len() - 1),
        _ => None,
    }
}

/// An edge-triggered component holds its outputs and memory unless its clock rises, and latches the
/// clock level in any case.
pub proof fn law_holds_without_rising_edge(
    part: Part,
    id: u32,
    ins: Seq<bool>,
    tick: u64,
    st: PartState,
)
    requires
        part.valid(),
        ins.len() == part.inputs.len(),
        clock_pin(part) is Some,
    ensures
        part.step(id, ins, tick, st).edge == ins[clock_pin(part)->0],
        st.edge || !ins[clock_pin(part)->0] ==> {
            &&& part.step(id, ins, tick, st).outs == st.outs
            &&& part.step(id, ins, tick, st).mem == st.mem
        },
{
}

/// On a rising clock with J and K high, a JK flip-flop toggles both outputs.
pub proof fn law_jk_toggles(part: Part, id: u32, ins: Seq<bool>, tick: u64, st: PartState)
    requires
        part.valid(),
        part.ty == CompType::JkFf,
        ins.len() == 3,
        st.outs.len() == 2,
        ins[0] && ins[1] && ins[2],
        !st.edge,
    ensures
        part.step(id, ins, tick, st).outs == seq![!st.outs[0], !st.outs[1]],
{
}

/// A random source whose enable is low holds its outputs; enabled, what it shows depends on its id
/// and the tick alone.
pub proof fn law_rng_is_gated_and_reproducible(
    part: Part,
    id: u32,
    ins: Seq<bool>,
    tick: u64,
    a: PartState,
    b: PartState,
)
    requires
        part.valid(),
        part.ty == CompType::Rng,
        ins.len() == 1,
    ensures
        !ins[0] ==> part.step(id, ins, tick, a) == a,
        ins[0] ==> part.step(id, ins, tick, a).outs == part.step(id, ins, tick, b).outs,
{
}

/// The outputs of an adder are the sum of its inputs in binary.
pub proof fn law_adders_add(part: Part, id: u32, ins: Seq<bool>, tick: u64, st: PartState)
    requires
        part.valid(),
        part.ty == CompType::HalfAdder || part.ty == CompType::FullAdder,
        ins.len() == part.inputs.len(),
    ensures
        behavior::word(part.step(id, ins, tick, st).outs) == behavior::ones(ins),
{
    arith::lemma_small_powers();
    let outs = part.step(id, ins, tick, st).outs;
    lemma_word_of_two(outs);
    reveal_with_fuel(behavior::ones, 4);
}

proof fn lemma_word_of_two(s: Seq<bool>)
    requires
        s.len() == 2,
    ensures
        behavior::word(s) == (if s[0] {
            1nat
        } else {
            0
        }) + (if s[1] {
            2nat
        } else {
            0
        }),
{
    arith::lemma_small_powers();
    assert(s.drop_last().drop_last().len() == 0);
    reveal_with_fuel(behavior::word, 3);
}

/// A decoder holds exactly the selected output high.
pub proof fn law_decoder_is_one_hot(net: Netlist, m: Machine, c: int, i: int)
    requires
        m.valid(net),
        0 <= c < net.parts.len(),
        net.parts[c].ty == CompType::Decoder,
        0 <= i < net.parts[c].outputs.len(),
    ensures
        m.parts[c].outs[i] <==> i == m.parts[c].sel,
{
    assert(net.parts[c].sane(m.parts[c]));
}

/// An encoder undoes a decoder: the highest input of a one-hot run is the one that is set.
pub proof fn law_encoder_undoes_decoder(n: nat, i: int)
    requires
        0 <= i < n,
    ensures
        behavior::highest(behavior::one_hot(n, i), n as int) == i,
{
    lemma_highest_one_hot(n, i, n as int);
}

proof fn lemma_highest_one_hot(n: nat, i: int, k: int)
    requires
        0 <= i < n,
        0 <= k <= n,
    ensures
        i < k ==> behavior::highest(behavior::one_hot(n, i), k) == i,
        i >= k ==> behavior::highest(behavior::one_hot(n, i), k) == 0,
    decreases k,
{
    if k > 1 {
        lemma_highest_one_hot(n, i, k - 1);
    }
}

/// The number whose binary digits are those of a word is the word.
pub proof fn law_digits_of_word(s: Seq<bool>, i: int)
    requires
        0 <= i < s.len(),
    ensures
        behavior::digit(behavior::word(s), i as nat) == s[i],
    decreases s.len(),
{
    let low = s.drop_last();
    let k = (s.len() - 1) as nat;
    let w = behavior::word(low);
    behavior::lemma_word_bound(low);
    power2::lemma_pow2_pos(i as nat);
    if i == k {
        let p = power2::pow2(k);
        assert((w + p) / p == 1 && w / p == 0) by (nonlinear_arith)
            requires
                0 <= w < p,
        ;
    } else {
        law_digits_of_word(low, i);
        if s.last() {
            power2::lemma_pow2_adds(i as nat, (k - i) as nat);
            power2::lemma_pow2_unfold((k - i) as nat);
            let p = power2::pow2(i as nat);
            let q = power2::pow2((k - i - 1) as nat);
            assert(power2::pow2(k) == p * (2 * q));
            assert((w + p * (2 * q)) / p == w / p + 2 * q) by (nonlinear_arith)
                requires
                    p > 0,
                    w >= 0,
            ;
        }
    }
}

/// A multiplexer behind a demultiplexer with the same select inputs passes the data on.
pub proof fn law_mux_undoes_demux(
    demux: Part,
    mux: Part,
    sel: Seq<bool>,
    data: bool,
    tick: u64,
    a: PartState,
    b: PartState,
)
    requires
        demux.valid(),
        demux.ty == CompType::Demux,
        mux.valid(),
        mux.ty == CompType::Mux,
        mux.param == sel.len(),
        demux.inputs.len() == sel.len() + 1,
    ensures
        ({
            let spread = demux.step(0, seq![data] + sel, tick, a).outs;
            mux.step(0, sel + spread, tick, b).outs == seq![data]
        }),
{
    let ins = seq![data] + sel;
    let spread = demux.step(0, ins, tick, a).outs;
    behavior::lemma_word_bound(sel);
    assert(ins.subrange(1, ins.len() as int) =~= sel);
    assert((sel + spread).subrange(0, mux.param) =~= sel);
}

/// A word written to a RAM is what a later read of the same address shows, and a word at another
/// address is untouched.
pub proof fn law_ram_reads_back_what_was_written(
    part: Part,
    id: u32,
    write: Seq<bool>,
    read: Seq<bool>,
    tick: u64,
    later: u64,
    st: PartState,
)
    requires
        part.valid(),
        part.ty == CompType::Ram,
        part.sane(st),
        write.len() == part.inputs.len(),
        read.len() == part.inputs.len(),
        // A rising clock with write enable, and a rising clock without.
        !st.edge,
        write[write.len() - 1] && write[write.len() - 2],
        read[read.len() - 1] && !read[read.len() - 2],
    ensures
        ({
            let n = part.outputs.len();
            let written = part.step(id, write, tick, st);
            // The clock falls in between.
            let armed = PartState { edge: false, ..written };
            let shown = part.step(id, read, later, armed).outs;
            let data = write.subrange(part.addr_width(), part.addr_width() + n);
            &&& written.outs == data
            &&& part.addr(read) == part.addr(write) ==> shown == data
            &&& part.addr(read) != part.addr(write) ==> shown == st.mem.subrange(
                (part.addr(read) * n) as int,
                (part.addr(read) * n + n) as int,
            )
        }),
{
    let n = part.outputs.len();
    let width = part.addr_width() as nat;
    let written = part.step(id, write, tick, st);
    let armed = PartState { edge: false, ..written };
    let shown = part.step(id, read, later, armed).outs;
    let data = write.subrange(part.addr_width(), part.addr_width() + n);
    behavior::lemma_word_bound(write.subrange(0, part.addr_width()));
    behavior::lemma_word_bound(read.subrange(0, part.addr_width()));
    let a = part.addr(write);
    let b = part.addr(read);
    behavior::lemma_in_memory(a, width, n);
    behavior::lemma_in_memory(b, width, n);
    if a == b {
        assert(shown =~= data);
    } else {
        assert(a * n + n <= b * n || b * n + n <= a * n) by (nonlinear_arith)
            requires
                a + 1 <= b || b + 1 <= a,
                a >= 0,
                b >= 0,
                n >= 0,
        ;
        assert(shown =~= st.mem.subrange((b * n) as int, (b * n + n) as int));
    }
}

/// `k` sections between ticks on a clock.
pub open spec fn beats(part: Part, st: PartState, k: nat) -> PartState
    decreases k,
{
    if k == 0 {
        st
    } else {
        part.beat(beats(part, st, (k - 1) as nat))
    }
}

/// A running clock that has counted nothing stays low until its period has been counted, is then
/// high, and is low again one section later, with nothing counted.
pub proof fn law_clock_period(part: Part, st: PartState)
    requires
        part.valid(),
        part.ty == CompType::Clk,
        part.sane(st),
        st.running,
        !st.outs[0],
        st.count == 0,
    ensures
        forall|k: nat| k < part.param ==> !(#[trigger] beats(part, st, k)).outs[0],
        beats(part, st, part.param as nat).outs[0],
        beats(part, st, (part.param + 1) as nat) == st,
{
    assert forall|k: nat| k < part.param implies !(#[trigger] beats(part, st, k)).outs[0] by {
        lemma_clock_counts(part, st, k);
    }
    let last = (part.param - 1) as nat;
    lemma_clock_counts(part, st, last);
    let high = beats(part, st, part.param as nat);
    assert(high == part.beat(beats(part, st, last)));
    let done = beats(part, st, (part.param + 1) as nat);
    assert(done == part.beat(high));
    assert(done.outs =~= st.outs);
}

proof fn lemma_clock_counts(part: Part, st: PartState, k: nat)
    requires
        part.valid(),
        part.ty == CompType::Clk,
        part.sane(st),
        st.running,
        !st.outs[0],
        st.count == 0,
        k < part.param,
    ensures
        beats(part, st, k) == (PartState { count: k as int, ..st }),
    decreases k,
{
    if k > 0 {
        lemma_clock_counts(part, st, (k - 1) as nat);
    }
}

/// A link that a tick looks at becomes high exactly when some output pin on it was driving it high,
/// a negated pin by a low value; any other link keeps its value.
pub proof fn law_link_takes_what_its_pins_drive(net: Netlist, m: Machine, l: u32)
    requires
        m.valid(net),
        l < net.links,
    ensures
        m.ticked(net).links.len() == net.links,
        m.reads.contains(l) ==> (m.ticked(net).links[l as int] <==> exists|c: int, p: int|
            0 <= c < net.parts.len() && 0 <= p < net.parts[c].outputs.len()
                && #[trigger] net.parts[c].outputs[p] == l && m.parts[c].outs[p]
                != net.parts[c].neg_outputs[p]),
        !m.reads.contains(l) ==> m.ticked(net).links[l as int] == m.links[l as int],
{
    if state::powered(net, m.parts, l) {
        let (c, p) = choose|c: int, p: int| #[trigger] state::feeds(net, m.parts, l, c, p);
        assert(net.parts[c].outputs[p] == l);
    }
    if exists|c: int, p: int|
        0 <= c < net.parts.len() && 0 <= p < net.parts[c].outputs.len()
            && #[trigger] net.parts[c].outputs[p] == l && m.parts[c].outs[p]
            != net.parts[c].neg_outputs[p] {
        let (c, p) = choose|c: int, p: int|
            0 <= c < net.parts.len() && 0 <= p < net.parts[c].outputs.len()
                && #[trigger] net.parts[c].outputs[p] == l && m.parts[c].outs[p]
                != net.parts[c].neg_outputs[p];
        assert(state::feeds(net, m.parts, l, c, p));
    }
}

/// A tick looks at the links of the output pins that flipped in the tick before, and at those whose
/// pins a trigger flipped before that tick, and at no others.
pub proof fn law_flipped_pins_are_looked_at(net: Netlist, m: Machine, l: u32)
    requires
        net.valid(),
        m.valid(net),
    ensures
        m.ticked(net).writes == Set::<u32>::empty(),
        m.writes.contains(l) ==> m.ticked(net).reads.contains(l),
        (exists|c: int, p: int|
            0 <= c < net.parts.len() && 0 <= p < net.parts[c].outputs.len()
                && #[trigger] net.parts[c].outputs[p] == l && m.parts[c].outs[p] != m.ticked(
                net,
            ).parts[c].outs[p]) ==> m.ticked(net).reads.contains(l),
        m.ticked(net).reads.contains(l) ==> m.writes.contains(l) || exists|c: int, p: int|
            0 <= c < net.parts.len() && 0 <= p < net.parts[c].outputs.len()
                && #[trigger] net.parts[c].outputs[p] == l,
{
    let next = m.ticked(net);
    let s1 = m.computed(net);
    let s2 = machine::beaten(net, s1);
    if exists|c: int, p: int|
        0 <= c < net.parts.len() && 0 <= p < net.parts[c].outputs.len()
            && #[trigger] net.parts[c].outputs[p] == l && m.parts[c].outs[p]
            != next.parts[c].outs[p] {
        let (c, p) = choose|c: int, p: int|
            0 <= c < net.parts.len() && 0 <= p < net.parts[c].outputs.len()
                && #[trigger] net.parts[c].outputs[p] == l && m.parts[c].outs[p]
                != next.parts[c].outs[p];
        if m.parts[c].outs[p] != s1[c].outs[p] {
            assert(state::moved(net.parts[c], m.parts[c], s1[c]).contains(l));
        } else if s1[c].outs[p] != s2[c].outs[p] {
            assert(state::moved(net.parts[c], s1[c], s2[c]).contains(l));
        } else {
            assert(state::moved(net.parts[c], s2[c], next.parts[c]).contains(l));
        }
    }
    if next.reads.contains(l) && !m.writes.contains(l) {
        if state::moved_any(net, m.parts, s1).contains(l) {
            lemma_moved_has_pin(net, m.parts, s1, l);
        } else if state::moved_any(net, s1, s2).contains(l) {
            lemma_moved_has_pin(net, s1, s2, l);
        } else {
            lemma_moved_has_pin(net, s2, next.parts, l);
        }
    }
}

proof fn lemma_moved_has_pin(net: Netlist, a: Seq<PartState>, b: Seq<PartState>, l: u32)
    requires
        state::moved_any(net, a, b).contains(l),
    ensures
        exists|c: int, p: int|
            0 <= c < net.parts.len() && 0 <= p < net.parts[c].outputs.len()
                && #[trigger] net.parts[c].outputs[p] == l,
{
    let c = choose|c: int|
        0 <= c < net.parts.len() && #[trigger] state::moved(net.parts[c], a[c], b[c]).contains(l);
    let part = net.parts[c];
    let p = choose|p: int|
        0 <= p < part.outputs.len() && #[trigger] part.outputs[p] == l && a[c].outs[p]
            != b[c].outs[p];
    assert(net.parts[c].outputs[p] == l);
}

/// In a tick a component is evaluated exactly when a link that it reads flips, and then on the values
/// the links have taken, inverted at its negated pins. A clock then counts the tick.
pub proof fn law_tick_evaluates_readers_of_flipped_links(net: Netlist, m: Machine, c: int)
    requires
        net.valid(),
        m.valid(net),
        0 <= c < net.parts.len(),
        net.parts[c].ty != CompType::UserInput,
    ensures
        ({
            let part = net.parts[c];
            let links = m.ticked(net).links;
            let ins = Seq::new(
                part.inputs.len(),
                |p: int| links[part.inputs[p] as int] != part.neg_inputs[p],
            );
            let flipped = exists|p: int|
                0 <= p < part.inputs.len() && m.links[#[trigger] part.inputs[p] as int]
                    != links[part.inputs[p] as int];
            let evaluated = if flipped {
                part.step(c as u32, ins, m.tick, m.parts[c])
            } else {
                m.parts[c]
            };
            m.ticked(net).parts[c] == if part.ty == CompType::Clk {
                part.beat(evaluated)
            } else {
                evaluated
            }
        }),
{
    let part = net.parts[c];
    let links = m.ticked(net).links;
    let ins = Seq::new(
        part.inputs.len(),
        |p: int| links[part.inputs[p] as int] != part.neg_inputs[p],
    );
    assert(part.reads(links) =~= ins);
    assert(!m.pulses.dom().contains(c as u32));
    let woken = machine::woken(net, m.flipping(net));
    if exists|p: int|
        0 <= p < part.inputs.len() && m.links[#[trigger] part.inputs[p] as int]
            != links[part.inputs[p] as int] {
        let p = choose|p: int|
            0 <= p < part.inputs.len() && m.links[#[trigger] part.inputs[p] as int]
                != links[part.inputs[p] as int];
        assert(net.parts[c].inputs[p] < net.links);
        assert(m.flipping(net).contains(part.inputs[p]));
        assert(woken.contains(c as u32));
    } else if woken.contains(c as u32) {
        let p = choose|p: int|
            0 <= p < part.inputs.len() && m.flipping(net).contains(#[trigger] part.inputs[p]);
        assert(m.links[part.inputs[p] as int] != links[part.inputs[p] as int]);
    }
}

/// A tick leaves a user input without a pulse alone. One with an armed pulse takes the values of the
/// pulse, and one whose pulse has been asserted goes low and is rid of it.
pub proof fn law_tick_sees_to_pulses(net: Netlist, m: Machine, c: u32, p: int)
    requires
        net.valid(),
        m.valid(net),
        c < net.parts.len(),
        net.parts[c as int].ty == CompType::UserInput,
        0 <= p < net.parts[c as int].outputs.len(),
    ensures
        ({
            let next = m.ticked(net);
            let pulsing = m.pulses.dom().contains(c);
            &&& !pulsing ==> next.parts[c as int] == m.parts[c as int]
                && !next.pulses.dom().contains(c)
            &&& pulsing && m.pulses[c].armed ==> {
                &&& next.parts[c as int].outs[p] == m.pulses[c].state[p]
                &&& next.pulses.dom().contains(c) && !next.pulses[c].armed
            }
            &&& pulsing && !m.pulses[c].armed ==> {
                &&& !next.parts[c as int].outs[p]
                &&& !next.pulses.dom().contains(c)
            }
        }),
{
}

/// Latching a user input sets its pins to the given values, low where there are none; the links of the
/// pins that this flips are scheduled, and nothing else changes.
pub proof fn law_latching_sets_the_pins(
    net: Netlist,
    m: Machine,
    c: u32,
    values: Seq<bool>,
    p: int,
    other: int,
)
    requires
        net.valid(),
        m.valid(net),
        m.is_input(net, c),
        0 <= p < net.parts[c as int].outputs.len(),
        0 <= other < net.parts.len(),
        other != c,
    ensures
        ({
            let next = m.latched(net, c, values);
            let l = net.parts[c as int].outputs[p];
            &&& next.parts.len() == m.parts.len()
            &&& next.parts[c as int].outs.len() == net.parts[c as int].outputs.len()
            &&& next.parts[c as int].outs[p] == (p < values.len() && values[p])
            &&& m.parts[c as int].outs[p] != next.parts[c as int].outs[p] ==> next.writes.contains(l)
            &&& m.writes.subset_of(next.writes)
            &&& next.parts[other] == m.parts[other]
            &&& next.links == m.links
            &&& next.pulses == m.pulses
            &&& next.reads == m.reads
            &&& next.changed == m.changed
            &&& next.tick == m.tick
        }),
{
    let next = m.latched(net, c, values);
    let part = net.parts[c as int];
    if m.parts[c as int].outs[p] != next.parts[c as int].outs[p] {
        assert(part.outputs[p] == part.outputs[p]);
        assert(state::moved(part, m.parts[c as int], next.parts[c as int]).contains(
            part.outputs[p],
        ));
    }
}

/// Arming a pulse on a user input keeps the given values, low where there are none, for the coming tick
/// and changes nothing else.
pub proof fn law_arming_keeps_the_values(
    net: Netlist,
    m: Machine,
    c: u32,
    values: Seq<bool>,
    p: int,
    other: u32,
)
    requires
        m.is_input(net, c),
        0 <= p < net.parts[c as int].outputs.len(),
        other != c,
    ensures
        ({
            let next = m.armed(net, c, values);
            &&& next == (Machine { pulses: next.pulses, ..m })
            &&& next.pulses.dom().contains(c)
            &&& next.pulses[c].armed
            &&& next.pulses[c].state.len() == net.parts[c as int].outputs.len()
            &&& next.pulses[c].state[p] == (p < values.len() && values[p])
            &&& next.pulses.dom().contains(other) == m.pulses.dom().contains(other)
            &&& m.pulses.dom().contains(other) ==> next.pulses[other] == m.pulses[other]
        }),
{
}

/// A pulse on a user input gives its pins the values for one tick: they have them after the coming
/// tick, and are low after the one behind it.
pub proof fn law_pulse_lasts_one_tick(net: Netlist, m: Machine, c: u32, values: Seq<bool>, p: int)
    requires
        net.valid(),
        m.valid(net),
        m.is_input(net, c),
        0 <= p < net.parts[c as int].outputs.len(),
    ensures
        ({
            let one = m.armed(net, c, values).ticked(net);
            let two = one.ticked(net);
            &&& one.parts[c as int].outs[p] == (p < values.len() && values[p])
            &&& !two.parts[c as int].outs[p]
            &&& !two.pulses.dom().contains(c)
        }),
{
    law_pulse_is_one_shot(net, m, c, values);
}

/// At power-on every link is low, no tick has been run, nothing is recorded and no pulse is under way.
/// Every component has been evaluated once, from its seed, with every link low.
pub proof fn law_power_on(net: Netlist, c: int, l: int)
    requires
        net.valid(),
        0 <= c < net.parts.len(),
        0 <= l < net.links,
    ensures
        ({
            let m = machine::start(net);
            let part = net.parts[c];
            &&& m.links.len() == net.links
            &&& !m.links[l]
            &&& m.tick == 0
            &&& m.changed == Set::<u32>::empty()
            &&& m.writes == Set::<u32>::empty()
            &&& m.pulses == Map::<u32, Pulse>::empty()
            &&& m.parts.len() == net.parts.len()
            // With its link low, a pin reads high exactly where it is negated.
            &&& m.parts[c] == part.step(c as u32, part.neg_inputs, 0, part.seeded())
        }),
{
    let part = net.parts[c];
    let ins = part.reads(behavior::all_low(net.links));
    assert forall|p: int| 0 <= p < part.inputs.len() implies ins[p] == part.neg_inputs[p] by {
        assert(net.parts[c].inputs[p] < net.links);
    }
    assert(part.valid());
    assert(ins =~= part.neg_inputs);
}

/// A tick records exactly the links that it flips, on top of those recorded before, and adds one to the
/// tick count.
pub proof fn law_tick_records_its_flips(net: Netlist, m: Machine, l: u32)
    requires
        m.valid(net),
        l < net.links,
    ensures
        m.ticked(net).changed.contains(l) <==> m.changed.contains(l) || m.links[l as int]
            != m.ticked(net).links[l as int],
        m.tick < u64::MAX ==> m.ticked(net).tick == m.tick + 1,
        m.tick == u64::MAX ==> m.ticked(net).tick == 0,
{
}

} // verus!
