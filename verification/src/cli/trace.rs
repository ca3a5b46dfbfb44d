//! `trace`: the state of a board, tick by tick.

use vstd::prelude::*;
use vstd::string::StringExecFns;
use crate::board::BoardDescriptor;
use crate::cli::load::{self, Driven, Format, Loaded};
#[allow(unused_imports)]
use crate::behavior::PartState;
#[allow(unused_imports)]
use crate::machine::{self, Machine};
#[allow(unused_imports)]
use crate::netlist::{Netlist, Part};
use crate::sim::Simulation;

verus! {

/// The options of `trace`, the files aside.
#[derive(Clone, Copy, Debug)]
pub struct TraceArgs {
    /// Ticks to trace; a fixture's own count stands in for it.
    pub ticks: Option<u64>,
    pub format: Option<Format>,
}

/// The states of a board from tick 0 to tick `ticks`.
pub struct Trace {
    pub name: String,
    pub ticks: u64,
    pub trace: Vec<Frame>,
}

/// The state of a board at one tick.
pub struct Frame {
    pub tick: u64,
    /// The link values, `0` or `1` each, link 0 first.
    pub links: String,
    /// What the output pins of each component drive.
    pub outputs: Vec<String>,
}

/// Values written as digits.
pub open spec fn digits(s: Seq<bool>) -> Seq<char> {
    Seq::new(
        s.len(),
        |i: int|
            if s[i] {
                '1'
            } else {
                '0'
            },
    )
}

/// What the output pins of a component drive.
pub open spec fn driven(part: Part, st: PartState) -> Seq<bool> {
    Seq::new(part.outputs.len(), |p: int| part.drives(st, p))
}

impl Frame {
    /// The frame shows this state.
    pub open spec fn shows(self, net: Netlist, m: Machine, tick: u64) -> bool {
        &&& self.tick == tick
        &&& self.links@ == digits(m.links)
        &&& self.outputs@.len() == net.parts.len()
        &&& forall|c: int|
            0 <= c < net.parts.len() ==> (#[trigger] self.outputs@[c])@ == digits(
                driven(net.parts[c], m.parts[c]),
            )
    }
}

/// Append a value as a digit.
fn push_digit(s: &mut String, b: bool)
    ensures
        final(s)@ == old(s)@.push(
            if b {
                '1'
            } else {
                '0'
            },
        ),
{
    proof {
        reveal_strlit("1");
        reveal_strlit("0");
    }
    if b {
        s.append("1");
    } else {
        s.append("0");
    }
    assert(s@ =~= old(s)@.push(
        if b {
            '1'
        } else {
            '0'
        },
    ));
}

/// Capture the state of a simulation of the board.
pub fn frame(sim: &Simulation, desc: &BoardDescriptor, tick: u64) -> (r: Frame)
    requires
        sim.wf(),
        sim.net() == desc@.netlist(),
    ensures
        r.shows(sim.net(), sim@, tick),
{
    let ghost net = sim.net();
    proof {
        sim.law_state_is_valid();
    }
    let mut links: String = String::new();
    let mut l: u32 = 0;
    while l < desc.link_count
        invariant
            l <= desc.link_count,
            sim.wf(),
            net == sim.net(),
            net == desc@.netlist(),
            links@ == digits(sim@.links.subrange(0, l as int)),
            sim@.links.len() == net.links,
        decreases desc.link_count - l,
    {
        push_digit(&mut links, sim.link(l));
        l = l + 1;
        assert(links@ =~= digits(sim@.links.subrange(0, l as int)));
    }
    assert(sim@.links.subrange(0, l as int) =~= sim@.links);
    let mut outputs: Vec<String> = Vec::new();
    let mut c: usize = 0;
    let n: usize = desc.components.len();
    while c < n
        invariant
            c <= n,
            n == desc.components@.len(),
            n <= u32::MAX,
            sim.wf(),
            net == sim.net(),
            net == desc@.netlist(),
            outputs@.len() == c,
            forall|k: int|
                0 <= k < c ==> (#[trigger] outputs@[k])@ == digits(
                    driven(net.parts[k], sim@.parts[k]),
                ),
        decreases n - c,
    {
        let ghost want = driven(net.parts[c as int], sim@.parts[c as int]);
        let pins: usize = desc.components[c].outputs.len();
        let mut s: String = String::new();
        let mut p: usize = 0;
        while p < pins
            invariant
                p <= pins,
                c < n <= u32::MAX,
                n == desc.components@.len(),
                pins == net.parts[c as int].outputs.len(),
                sim.wf(),
                net == sim.net(),
                net == desc@.netlist(),
                want == driven(net.parts[c as int], sim@.parts[c as int]),
                s@ == digits(want.subrange(0, p as int)),
            decreases pins - p,
        {
            push_digit(&mut s, sim.output(c as u32, p));
            p = p + 1;
            assert(s@ =~= digits(want.subrange(0, p as int)));
        }
        assert(want.subrange(0, p as int) =~= want);
        outputs.push(s);
        c = c + 1;
    }
    Frame { tick, links, outputs }
}

/// The ticks a command runs: those it names, or else those the board brings.
pub open spec fn chosen(asked: Option<u64>, brought: Option<u64>) -> Option<u64> {
    if asked is Some {
        asked
    } else {
        brought
    }
}

/// The ticks a command runs: those it names, or else those the board brings.
pub fn choose_ticks(asked: Option<u64>, brought: Option<u64>) -> (r: Option<u64>)
    ensures
        r == chosen(asked, brought),
{
    match asked {
        Some(n) => Some(n),
        None => brought,
    }
}

/// Trace a board from power-on.
pub fn trace(loaded: &Loaded, args: &TraceArgs) -> (r: Result<Trace, String>)
    requires
        loaded.desc@.fits(),
    ensures
        match chosen(args.ticks, loaded.ticks) {
            None => r matches Err(why) && why@
                == "specify --ticks N (the board carries no fixture default)"@,
            Some(ticks) => match loaded.desc@.fault() {
                Some(e) => r matches Err(why) && why@ == load::about(loaded.name@, e.text()),
                None => {
                    let net = loaded.desc@.netlist();
                    &&& r matches Ok(t) ==> {
                        &&& t.name@ == loaded.name@
                        &&& t.ticks == ticks
                        &&& t.trace@.len() == ticks + 1
                        &&& load::filmed(t.trace@, loaded.triggers@, net, machine::start(net))
                        &&& forall|s: u64|
                            s <= ticks ==> #[trigger] load::applicable(loaded.triggers@, s, net)
                    }
                    &&& r is Err ==> exists|s: u64|
                        s <= ticks && #[trigger] load::fails_at(
                            loaded.triggers@,
                            net,
                            s,
                            r->Err_0@,
                        )
                },
            },
        },
{
    let ticks: u64 = match choose_ticks(args.ticks, loaded.ticks) {
        Some(n) => n,
        None => {
            return Err(
                String::from_str("specify --ticks N (the board carries no fixture default)"),
            );
        },
    };
    let mut sim: Simulation = match Simulation::from_descriptor(&loaded.desc) {
        Ok(sim) => sim,
        Err(e) => {
            return Err(load::label(loaded.name.as_str(), e.message().as_str()));
        },
    };
    let driven: Result<Driven, String> = load::drive(
        &mut sim,
        &loaded.desc,
        Some(ticks),
        None,
        loaded.triggers.as_slice(),
        true,
    );
    match driven {
        Ok(d) => Ok(Trace { name: loaded.name.clone(), ticks, trace: d.frames }),
        Err(why) => {
            let failed: Result<Trace, String> = Err(why);
            proof {
                let s = choose|s: u64|
                    s <= ticks && #[trigger] load::fails_at(
                        loaded.triggers@,
                        sim.net(),
                        s,
                        why@,
                    );
                assert(load::fails_at(loaded.triggers@, sim.net(), s, failed->Err_0@));
            }
            failed
        },
    }
}

/// A frame has a digit for each link and a text for each component with a digit for each of its output
/// pins: `1` where the link is high, or the pin drives its link high, and `0` otherwise. A negated pin
/// drives the inverse of its value.
pub proof fn law_frame_digits(f: Frame, net: Netlist, m: Machine, tick: u64, l: int, c: int, p: int)
    requires
        f.shows(net, m, tick),
        0 <= l < m.links.len(),
        0 <= c < net.parts.len(),
        0 <= p < net.parts[c].outputs.len(),
    ensures
        f.tick == tick,
        f.links@.len() == m.links.len(),
        m.links[l] ==> f.links@[l] == '1',
        !m.links[l] ==> f.links@[l] == '0',
        f.outputs@.len() == net.parts.len(),
        f.outputs@[c]@.len() == net.parts[c].outputs.len(),
        m.parts[c].outs[p] != net.parts[c].neg_outputs[p] ==> f.outputs@[c]@[p] == '1',
        m.parts[c].outs[p] == net.parts[c].neg_outputs[p] ==> f.outputs@[c]@[p] == '0',
{
}

/// A tick count on the command line goes before the one that the board brings.
pub proof fn law_command_line_goes_first(asked: u64, brought: Option<u64>)
    ensures
        chosen(Some(asked), brought) == Some(asked),
        chosen(None, brought) == brought,
{
}

} // verus!
