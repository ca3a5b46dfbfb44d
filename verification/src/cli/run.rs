//! `run`: take a board through a number of ticks or a stretch of time, and dump the state it ends in.

use vstd::prelude::*;
use vstd::string::StringExecFns;
#[allow(unused_imports)]
use rayon::ThreadPool;
#[allow(unused_imports)]
use crate::behavior;
use crate::board::BoardDescriptor;
use crate::cli::load::{self, Driven, Format, Loaded, Trigger};
use crate::cli::trace;
#[allow(unused_imports)]
use crate::clock;
use crate::error::SimError;
#[allow(unused_imports)]
use crate::machine::{self, Machine};
#[allow(unused_imports)]
use crate::netlist::Netlist;
#[allow(unused_imports)]
use crate::pool;
#[allow(unused_imports)]
use crate::sim::{driver, RunConfig, Simulation};

verus! {

/// Encoding of a dump.
#[derive(Clone, Copy, PartialEq, Eq, Debug, Structural)]
pub enum DumpFormat {
    /// Tick, link values, and output values by component.
    Json,
    /// The packed link values.
    Bin,
}

/// The options of `run`, the files aside.
#[derive(Clone, Copy, Debug)]
pub struct RunArgs {
    /// Most ticks to run; a fixture's own count stands in for it.
    pub ticks: Option<u64>,
    /// Time to run, in milliseconds.
    pub ms: Option<u64>,
    /// Worker threads. Triggers after tick 0 need single steps, which one thread does.
    pub threads: usize,
    pub format: Option<Format>,
    pub dump_format: DumpFormat,
}

/// The state of a board, written out value by value.
pub struct StateDump {
    pub tick: u64,
    pub links: Vec<bool>,
    /// What the output pins of each component drive.
    pub components: Vec<Vec<bool>>,
}

impl StateDump {
    /// The dump shows this state.
    pub open spec fn shows(self, net: Netlist, m: Machine) -> bool {
        &&& self.tick == m.tick
        &&& self.links@ == m.links
        &&& self.components@.len() == net.parts.len()
        &&& forall|c: int|
            0 <= c < net.parts.len() ==> (#[trigger] self.components@[c])@ == trace::driven(
                net.parts[c],
                m.parts[c],
            )
    }
}

/// A finished run.
pub struct Ran {
    pub sim: Simulation,
    /// Ticks run.
    pub ticks: u64,
    /// Threads were asked for and left unused.
    pub threads_ignored: bool,
}

/// Nanoseconds in a number of milliseconds.
pub open spec fn nanos_of(ms: Option<u64>) -> Option<u128> {
    match ms {
        Some(n) => Some((n * 1_000_000) as u128),
        None => None,
    }
}

/// Nanoseconds in a number of milliseconds.
pub fn nanos(ms: Option<u64>) -> (r: Option<u128>)
    ensures
        r == nanos_of(ms),
        r matches Some(n) ==> n == ms->0 * 1_000_000,
{
    match ms {
        Some(n) => Some(n as u128 * 1_000_000),
        None => None,
    }
}

/// Some trigger comes after tick 0.
pub open spec fn has_late(triggers: Seq<Trigger>) -> bool {
    exists|i: int| 0 <= i < triggers.len() && (#[trigger] triggers[i]).tick > 0
}

/// Whether some trigger comes after tick 0.
fn late_triggers(triggers: &[Trigger]) -> (r: bool)
    ensures
        r == has_late(triggers@),
{
    let n: usize = triggers.len();
    let mut i: usize = 0;
    while i < n
        invariant
            i <= n,
            n == triggers@.len(),
            forall|k: int| 0 <= k < i ==> (#[trigger] triggers@[k]).tick == 0,
        decreases n - i,
    {
        if triggers[i].tick > 0 {
            assert(triggers@[i as int].tick > 0);
            return true;
        }
        i = i + 1;
    }
    false
}

/// What a run of a loaded board with these options comes to.
pub open spec fn comes_to(loaded: &Loaded, args: &RunArgs, r: Result<Ran, String>) -> bool {
    let ticks = trace::chosen(args.ticks, loaded.ticks);
    let net = loaded.desc@.netlist();
    let start = machine::start(net);
    let at_once = args.threads > 1 && !has_late(loaded.triggers@);
    if ticks is None && args.ms is None {
        r matches Err(why) && why@
            == "specify a run bound: --ticks N and/or --ms N (the engine has no quiescence stop)"@
    } else {
        match loaded.desc@.fault() {
            Some(e) => r matches Err(why) && why@ == load::about(loaded.name@, e.text()),
            None => {
                &&& r matches Ok(ran) ==> {
                    &&& ran.sim.wf()
                    &&& ran.sim.net() == net
                    &&& ran.threads_ignored == (args.threads > 1 && !at_once)
                    &&& load::applicable(loaded.triggers@, 0, net)
                    &&& at_once ==> {
                        &&& exists|p: ThreadPool| #[trigger]
                            pool::supplied(args.threads, p)
                        &&& load::observed(loaded.triggers@, net, start, 0).runs_to(
                            net,
                            if ticks is Some {
                                ticks->0
                            } else {
                                u64::MAX
                            },
                            args.ms is Some,
                            ran.sim@,
                        )
                        &&& ran.ticks == ran.sim@.tick
                        &&& driver::timed(
                            0,
                            0,
                            nanos_of(args.ms),
                            load::most_ticks(ticks, nanos_of(args.ms)),
                            ran.ticks as nat,
                            ran.sim.gauge(),
                        )
                    }
                    &&& !at_once ==> {
                        &&& ran.sim@ == load::observed(
                            loaded.triggers@,
                            net,
                            start,
                            ran.ticks as nat,
                        )
                        &&& ran.ticks <= load::most_ticks(ticks, nanos_of(args.ms))
                        &&& clock::in_time(
                            nanos_of(args.ms),
                            ran.ticks as nat,
                            load::most_ticks(ticks, nanos_of(args.ms)),
                        )
                        &&& forall|t: u64|
                            t <= ran.ticks ==> #[trigger] load::applicable(
                                loaded.triggers@,
                                t,
                                net,
                            )
                    }
                }
                &&& r is Err ==> {
                    ||| exists|t: u64|
                        {
                            &&& t <= load::most_ticks(ticks, nanos_of(args.ms))
                            &&& #[trigger] load::fails_at(
                                loaded.triggers@,
                                net,
                                t,
                                r->Err_0@,
                            )
                            &&& t > 0 ==> clock::in_time(nanos_of(args.ms), t as nat, t)
                        }
                    ||| at_once && exists|e: SimError| #[trigger]
                        e.text() == r->Err_0@ && driver::pool_error(args.threads, e)
                }
            },
        }
    }
}

/// Run a board from power-on. Where no trigger comes after tick 0 and threads are asked for, the
/// whole run goes to them; otherwise the board is driven tick by tick.
pub fn run(loaded: &Loaded, args: &RunArgs) -> (r: Result<Ran, String>)
    requires
        loaded.desc@.fits(),
    ensures
        comes_to(loaded, args, r),
{
    let ticks: Option<u64> = trace::choose_ticks(args.ticks, loaded.ticks);
    let timeout: Option<u128> = nanos(args.ms);
    if ticks.is_none() && timeout.is_none() {
        return Err(
            String::from_str(
                "specify a run bound: --ticks N and/or --ms N (the engine has no quiescence stop)",
            ),
        );
    }
    let mut sim: Simulation = match Simulation::from_descriptor(&loaded.desc) {
        Ok(sim) => sim,
        Err(e) => {
            return Err(load::label(loaded.name.as_str(), e.message().as_str()));
        },
    };
    let ghost net = sim.net();
    let triggers: &[Trigger] = loaded.triggers.as_slice();
    if args.threads > 1 && !late_triggers(triggers) {
        if let Err(why) = load::apply_triggers(&mut sim, triggers, 0) {
            let failed: Result<Ran, String> = Err(why);
            assert(load::fails_at(loaded.triggers@, net, 0, failed->Err_0@));
            return failed;
        }
        let cfg = RunConfig {
            ticks: match ticks {
                Some(n) => n,
                None => u64::MAX,
            },
            timeout,
            threads: args.threads,
            par_threshold: RunConfig::default().par_threshold,
        };
        proof {
            load::lemma_applied_tick(
                loaded.triggers@,
                0,
                net,
                machine::start(net),
                loaded.triggers@.len() as int,
            );
        }
        match sim.run(cfg) {
            Ok(()) => {
                let ticks: u64 = sim.tick_count();
                Ok(Ran { sim, ticks, threads_ignored: false })
            },
            Err(e) => {
                let failed: Result<Ran, String> = Err(e.message());
                assert(e.text() == failed->Err_0@);
                failed
            },
        }
    } else {
        let driven: Result<Driven, String> = load::drive(
            &mut sim,
            &loaded.desc,
            ticks,
            timeout,
            triggers,
            false,
        );
        match driven {
            Ok(d) => {
                assert(load::applicable(loaded.triggers@, 0, net));
                Ok(Ran { sim, ticks: d.ticks, threads_ignored: args.threads > 1 })
            },
            Err(why) => {
                let failed: Result<Ran, String> = Err(why);
                proof {
                    let t = choose|t: u64|
                        t <= load::most_ticks(ticks, timeout) && #[trigger] load::fails_at(
                            loaded.triggers@,
                            net,
                            t,
                            why@,
                        ) && clock::in_time(timeout, t as nat, t);
                    assert(load::fails_at(loaded.triggers@, net, t, failed->Err_0@));
                }
                failed
            },
        }
    }
}

/// Write the state of a simulation of the board out.
pub fn state_dump(sim: &Simulation, desc: &BoardDescriptor) -> (r: StateDump)
    requires
        sim.wf(),
        sim.net() == desc@.netlist(),
    ensures
        r.shows(sim.net(), sim@),
{
    let ghost net = sim.net();
    proof {
        sim.law_state_is_valid();
    }
    let mut links: Vec<bool> = Vec::new();
    let mut l: u32 = 0;
    while l < desc.link_count
        invariant
            l <= desc.link_count,
            sim.wf(),
            net == sim.net(),
            net == desc@.netlist(),
            links@ == sim@.links.subrange(0, l as int),
            sim@.links.len() == net.links,
        decreases desc.link_count - l,
    {
        links.push(sim.link(l));
        l = l + 1;
        assert(links@ =~= sim@.links.subrange(0, l as int));
    }
    assert(links@ =~= sim@.links);
    let mut components: Vec<Vec<bool>> = Vec::new();
    let n: usize = desc.components.len();
    let mut c: usize = 0;
    while c < n
        invariant
            c <= n,
            n == desc.components@.len(),
            n <= u32::MAX,
            sim.wf(),
            net == sim.net(),
            net == desc@.netlist(),
            components@.len() == c,
            forall|k: int|
                0 <= k < c ==> (#[trigger] components@[k])@ == trace::driven(
                    net.parts[k],
                    sim@.parts[k],
                ),
        decreases n - c,
    {
        let ghost want = trace::driven(net.parts[c as int], sim@.parts[c as int]);
        let pins: usize = desc.components[c].outputs.len();
        let mut row: Vec<bool> = Vec::new();
        let mut p: usize = 0;
        while p < pins
            invariant
                p <= pins,
                c < n <= u32::MAX,
                n == desc.components@.len(),
                pins == net.parts[c as int].outputs.len(),
                sim.wf(),
                net == sim.net(),
                net == desc@.netlist(),
                want == trace::driven(net.parts[c as int], sim@.parts[c as int]),
                row@ == want.subrange(0, p as int),
            decreases pins - p,
        {
            row.push(sim.output(c as u32, p));
            p = p + 1;
            assert(row@ =~= want.subrange(0, p as int));
        }
        assert(row@ =~= want);
        components.push(row);
        c = c + 1;
    }
    StateDump { tick: sim.tick_count(), links, components }
}

/// How many links are high.
pub fn powered(sim: &Simulation) -> (r: u32)
    requires
        sim.wf(),
    ensures
        r == behavior::ones(sim@.links),
{
    let n: u32 = sim.status().link_count;
    proof {
        sim.law_state_is_valid();
    }
    let mut r: u32 = 0;
    let mut l: u32 = 0;
    while l < n
        invariant
            l <= n,
            n == sim.net().links,
            sim.wf(),
            sim@.links.len() == n,
            r == behavior::ones(sim@.links.subrange(0, l as int)),
            r <= l,
        decreases n - l,
    {
        assert(sim@.links.subrange(0, l + 1).drop_last() =~= sim@.links.subrange(0, l as int));
        if sim.link(l) {
            r = r + 1;
        }
        l = l + 1;
    }
    assert(sim@.links.subrange(0, n as int) =~= sim@.links);
    r
}

/// A dump has the tick, the value of each link, and for each output pin of each component what it
/// drives: its value, inverted if the pin is negated.
pub proof fn law_dump_values(d: StateDump, net: Netlist, m: Machine, l: int, c: int, p: int)
    requires
        d.shows(net, m),
        0 <= l < m.links.len(),
        0 <= c < net.parts.len(),
        0 <= p < net.parts[c].outputs.len(),
    ensures
        d.tick == m.tick,
        d.links@.len() == m.links.len(),
        d.links@[l] == m.links[l],
        d.components@.len() == net.parts.len(),
        d.components@[c]@.len() == net.parts[c].outputs.len(),
        d.components@[c]@[p] == (m.parts[c].outs[p] != net.parts[c].neg_outputs[p]),
{
}

/// A millisecond is a million nanoseconds; no time is no limit.
pub proof fn law_milliseconds(ms: u64)
    ensures
        nanos_of(Some(ms)) matches Some(n) && n == 1_000_000 * ms,
        nanos_of(None) is None,
{
    assert(1_000_000 * ms <= u128::MAX) by (nonlinear_arith)
        requires
            ms <= u64::MAX,
    ;
}

} // verus!
