//! Loaded boards, their timed triggers, and driving a simulation through them.
//!
//! A board comes from a JSON description, from a fixture that wraps one together with triggers and a
//! tick count, or from a `.lgb` binary. A trigger for tick `t` is applied right before the state at
//! tick `t` is observed.

use vstd::prelude::*;
use vstd::string::{StrSliceExecFns, StringExecFns};
use crate::board::BoardDescriptor;
use crate::cli::trace::{self, Frame};
use crate::clock;
use crate::codec;
use crate::error::SimError;
#[allow(unused_imports)]
use crate::machine::{self, Machine};
#[allow(unused_imports)]
use crate::netlist::Netlist;
use crate::session;
use crate::sim::{self, Simulation};
use crate::text;
use crate::types::{CompType, InputEvent};
use web_time::Instant;

verus! {

/// Board file encoding.
#[derive(Clone, Copy, PartialEq, Eq, Debug, Structural)]
pub enum Format {
    Json,
    Bin,
}

/// One timed trigger.
#[derive(Clone, Debug)]
pub struct Trigger {
    pub tick: u64,
    pub comp: u32,
    /// `cont` or `pulse`.
    pub event: String,
    pub state: Vec<bool>,
}

/// A loaded board, with what a fixture may add to it.
pub struct Loaded {
    pub name: String,
    pub desc: BoardDescriptor,
    /// Ticks to run where the command line does not say.
    pub ticks: Option<u64>,
    pub triggers: Vec<Trigger>,
}

/// The extension says `lgb`, in letters of either case.
pub open spec fn is_lgb(ext: Seq<char>) -> bool {
    &&& ext.len() == 3
    &&& ext[0] == 'l' || ext[0] == 'L'
    &&& ext[1] == 'g' || ext[1] == 'G'
    &&& ext[2] == 'b' || ext[2] == 'B'
}

/// The format a file's extension stands for: `lgb` is binary, everything else JSON.
pub fn detect(extension: Option<&str>) -> (r: Format)
    ensures
        r == (if extension is Some && is_lgb(extension->0@) {
            Format::Bin
        } else {
            Format::Json
        }),
{
    match extension {
        Some(e) => {
            if e.unicode_len() != 3 {
                return Format::Json;
            }
            let (l, g, b): (char, char, char) = (e.get_char(0), e.get_char(1), e.get_char(2));
            if (l == 'l' || l == 'L') && (g == 'g' || g == 'G') && (b == 'b' || b == 'B') {
                Format::Bin
            } else {
                Format::Json
            }
        },
        None => Format::Json,
    }
}

/// A message about something named.
pub open spec fn about(name: Seq<char>, message: Seq<char>) -> Seq<char> {
    name + ": "@ + message
}

/// A message about something named.
pub fn label(name: &str, message: &str) -> (r: String)
    ensures
        r@ == about(name@, message@),
{
    let mut s: String = String::new();
    s.append(name);
    s.append(": ");
    s.append(message);
    assert(s@ =~= about(name@, message@));
    s
}

impl Loaded {
    /// A board on its own.
    pub fn board(stem: String, desc: BoardDescriptor) -> (r: Self)
        ensures
            r.name@ == stem@,
            r.desc == desc,
            r.ticks is None,
            r.triggers@.len() == 0,
    {
        Loaded { name: stem, desc, ticks: None, triggers: Vec::new() }
    }

    /// A board out of a fixture, which may bring a name of its own.
    pub fn fixture(
        stem: String,
        name: Option<String>,
        desc: BoardDescriptor,
        ticks: Option<u64>,
        triggers: Vec<Trigger>,
    ) -> (r: Self)
        ensures
            r.name@ == (if name is Some {
                name->0@
            } else {
                stem@
            }),
            r.desc == desc,
            r.ticks == ticks,
            r.triggers == triggers,
    {
        let name: String = match name {
            Some(n) => n,
            None => stem,
        };
        Loaded { name, desc, ticks, triggers }
    }

    /// A board out of the bytes of a `.lgb` file at `path`.
    pub fn binary(path: &str, stem: String, bytes: &[u8]) -> (r: Result<Self, String>)
        ensures
            match codec::read_board(bytes@) {
                Ok(b) => r matches Ok(loaded) && {
                    &&& loaded.desc@ == b
                    &&& loaded.name@ == stem@
                    &&& loaded.ticks is None
                    &&& loaded.triggers@.len() == 0
                },
                Err(defect) => r matches Err(e) && e@ == about(path@, defect.message_text()),
            },
    {
        match codec::decode_board(bytes) {
            Ok(desc) => Ok(Loaded::board(stem, desc)),
            Err(e) => Err(label(path, e.message().as_str())),
        }
    }
}

/// The event a name stands for.
pub open spec fn event_of(name: Seq<char>) -> Option<InputEvent> {
    if name == "cont"@ {
        Some(InputEvent::Cont)
    } else if name == "pulse"@ {
        Some(InputEvent::Pulse)
    } else {
        None
    }
}

/// The event a name stands for.
fn parse_event(name: &String) -> (r: Option<InputEvent>)
    ensures
        r == event_of(name@),
{
    if *name == String::from_str("cont") {
        Some(InputEvent::Cont)
    } else if *name == String::from_str("pulse") {
        Some(InputEvent::Pulse)
    } else {
        None
    }
}

impl Trigger {
    /// Why the trigger cannot be applied to the board, if it cannot.
    pub open spec fn fault(self, net: Netlist) -> Option<Seq<char>> {
        if event_of(self.event@) is None {
            Some("unknown trigger event '"@ + self.event@ + "' (want 'cont' or 'pulse')"@)
        } else if !(self.comp < net.parts.len() && net.parts[self.comp as int].ty
            == CompType::UserInput) {
            Some(
                "trigger_input(comp "@ + text::decimal(self.comp as nat) + "): "@
                    + SimError::NotAnInput(self.comp).text(),
            )
        } else {
            None
        }
    }

    /// The state after the trigger.
    pub open spec fn applied(self, net: Netlist, m: Machine) -> Machine {
        if event_of(self.event@) == Some(InputEvent::Cont) {
            m.latched(net, self.comp, self.state@)
        } else {
            m.armed(net, self.comp, self.state@)
        }
    }
}

/// The first trigger for tick `tick` from position `from` on that cannot be applied.
pub open spec fn first_fault(triggers: Seq<Trigger>, tick: u64, net: Netlist, from: int) -> int
    decreases triggers.len() - from,
{
    if from < 0 || from >= triggers.len() || (triggers[from].tick == tick && triggers[from].fault(
        net,
    ) is Some) {
        from
    } else {
        first_fault(triggers, tick, net, from + 1)
    }
}

/// The state after those of the first `n` triggers that are for tick `tick`.
pub open spec fn applied(
    triggers: Seq<Trigger>,
    tick: u64,
    net: Netlist,
    m: Machine,
    n: int,
) -> Machine
    decreases n,
{
    if n <= 0 {
        m
    } else {
        let before = applied(triggers, tick, net, m, n - 1);
        if triggers[n - 1].tick == tick {
            triggers[n - 1].applied(net, before)
        } else {
            before
        }
    }
}

/// Every trigger for tick `tick` can be applied.
pub open spec fn applicable(triggers: Seq<Trigger>, tick: u64, net: Netlist) -> bool {
    first_fault(triggers, tick, net, 0) == triggers.len()
}

/// Apply every trigger scheduled for tick `tick`, in order, up to the first one that cannot be.
pub fn apply_triggers(sim: &mut Simulation, triggers: &[Trigger], tick: u64) -> (r: Result<
    (),
    String,
>)
    requires
        old(sim).wf(),
    ensures
        final(sim).wf(),
        sim::same_status(old(sim), final(sim)),
        final(sim)@ == applied(
            triggers@,
            tick,
            old(sim).net(),
            old(sim)@,
            first_fault(triggers@, tick, old(sim).net(), 0),
        ),
        r is Ok <==> applicable(triggers@, tick, old(sim).net()),
        r matches Err(e) ==> Some(e@) == triggers@[first_fault(
            triggers@,
            tick,
            old(sim).net(),
            0,
        )].fault(old(sim).net()),
{
    let ghost net = sim.net();
    let ghost m = sim@;
    let n: usize = triggers.len();
    let mut i: usize = 0;
    while i < n
        invariant
            i <= n,
            n == triggers@.len(),
            sim.wf(),
            net == old(sim).net(),
            m == old(sim)@,
            sim::same_status(old(sim), sim),
            sim@ == applied(triggers@, tick, net, m, i as int),
            first_fault(triggers@, tick, net, 0) == first_fault(triggers@, tick, net, i as int),
        decreases n - i,
    {
        let t: &Trigger = &triggers[i];
        if t.tick == tick {
            let event: InputEvent = match parse_event(&t.event) {
                Some(e) => e,
                None => {
                    let mut s: String = String::from_str("unknown trigger event '");
                    s.append(t.event.as_str());
                    s.append("' (want 'cont' or 'pulse')");
                    assert(s@ =~= "unknown trigger event '"@ + t.event@
                        + "' (want 'cont' or 'pulse')"@);
                    return Err(s);
                },
            };
            if let Err(e) = sim.trigger_input(t.comp, event, t.state.as_slice()) {
                let mut s: String = String::from_str("trigger_input(comp ");
                text::push_decimal(&mut s, t.comp as u64);
                s.append("): ");
                s.append(e.message().as_str());
                assert(s@ =~= "trigger_input(comp "@ + text::decimal(t.comp as nat) + "): "@
                    + e.text());
                return Err(s);
            }
        }
        i = i + 1;
    }
    Ok(())
}

/// The state observed at tick `t`: after the ticks and triggers up to it.
pub open spec fn observed(triggers: Seq<Trigger>, net: Netlist, m: Machine, t: nat) -> Machine
    decreases t,
{
    applied(
        triggers,
        t as u64,
        net,
        if t == 0 {
            m
        } else {
            observed(triggers, net, m, (t - 1) as nat).ticked(net)
        },
        triggers.len() as int,
    )
}

/// Triggers do not advance the tick.
pub proof fn lemma_applied_tick(
    triggers: Seq<Trigger>,
    tick: u64,
    net: Netlist,
    m: Machine,
    n: int,
)
    ensures
        applied(triggers, tick, net, m, n).tick == m.tick,
    decreases n,
{
    if n > 0 {
        lemma_applied_tick(triggers, tick, net, m, n - 1);
    }
}

/// What driving a simulation came to.
pub struct Driven {
    /// Ticks run.
    pub ticks: u64,
    /// The state at every tick from 0 on, if frames were asked for.
    pub frames: Vec<Frame>,
}

/// The frames show the states observed at the first ticks.
pub open spec fn filmed(
    frames: Seq<Frame>,
    triggers: Seq<Trigger>,
    net: Netlist,
    m: Machine,
) -> bool {
    forall|i: int|
        0 <= i < frames.len() ==> (#[trigger] frames[i]).shows(
            net,
            observed(triggers, net, m, i as nat),
            i as u64,
        )
}

/// The triggers at tick `t` are the first ones not all of which can be applied, for the given reason.
pub open spec fn fails_at(triggers: Seq<Trigger>, net: Netlist, t: u64, why: Seq<char>) -> bool {
    &&& !applicable(triggers, t, net)
    &&& Some(why) == triggers[first_fault(triggers, t, net, 0)].fault(net)
    &&& forall|s: u64| s < t ==> #[trigger] applicable(triggers, s, net)
}

/// The most ticks a run with the given bounds may take.
pub open spec fn most_ticks(max_ticks: Option<u64>, timeout: Option<u128>) -> u64 {
    match max_ticks {
        Some(n) => n,
        None => if timeout is Some {
            u64::MAX
        } else {
            0
        },
    }
}

/// Drive a simulation of the board tick by tick, with the triggers applied at their ticks. It stops
/// after `max_ticks` ticks, when the time is up, or at once if neither bound is given.
pub fn drive(
    sim: &mut Simulation,
    desc: &BoardDescriptor,
    max_ticks: Option<u64>,
    timeout: Option<u128>,
    triggers: &[Trigger],
    film: bool,
) -> (r: Result<Driven, String>)
    requires
        old(sim).wf(),
        old(sim).net() == desc@.netlist(),
    ensures
        final(sim).wf(),
        final(sim).net() == old(sim).net(),
        r matches Ok(d) ==> {
            &&& final(sim)@ == observed(triggers@, old(sim).net(), old(sim)@, d.ticks as nat)
            &&& forall|t: u64|
                t <= d.ticks ==> #[trigger] applicable(triggers@, t, old(sim).net())
            &&& d.ticks <= most_ticks(max_ticks, timeout)
            &&& clock::in_time(timeout, d.ticks as nat, most_ticks(max_ticks, timeout))
            &&& d.frames@.len() == (if film {
                d.ticks + 1
            } else {
                0
            })
            &&& filmed(d.frames@, triggers@, old(sim).net(), old(sim)@)
        },
        r is Err ==> exists|t: u64|
            {
                &&& t <= most_ticks(max_ticks, timeout)
                &&& #[trigger] fails_at(triggers@, old(sim).net(), t, r->Err_0@)
                &&& clock::in_time(timeout, t as nat, t)
            },
{
    let start: Instant = clock::current();
    let ghost mut looks: Seq<u128> = Seq::empty();
    assert(clock::paced(timeout, start, looks, 0, 0, false));
    let ghost net = sim.net();
    let ghost m = sim@;
    let mut frames: Vec<Frame> = Vec::new();
    let limit: u64 = match max_ticks {
        Some(n) => n,
        None => match timeout {
            Some(_) => u64::MAX,
            None => 0,
        },
    };
    if let Err(why) = apply_triggers(sim, triggers, 0) {
        let failed: Result<Driven, String> = Err(why);
        assert(fails_at(triggers@, net, 0, failed->Err_0@));
        return failed;
    }
    if film {
        frames.push(trace::frame(sim, desc, 0));
    }
    let mut t: u64 = 0;
    while t < limit
        invariant_except_break
            looks.len() == t,
        invariant
            t <= limit,
            clock::reads(start),
            t <= looks.len() <= t + 1,
            forall|i: int| 0 <= i < looks.len() ==> #[trigger] clock::shows(start, looks[i]),
            forall|i: int| 0 <= i < t ==> !clock::is_due(timeout, #[trigger] looks[i]),
            sim.wf(),
            sim.net() == net,
            net == old(sim).net(),
            m == old(sim)@,
            net == desc@.netlist(),
            limit == most_ticks(max_ticks, timeout),
            sim@ == observed(triggers@, net, m, t as nat),
            forall|s: u64| s <= t ==> #[trigger] applicable(triggers@, s, net),
            frames@.len() == (if film {
                t + 1
            } else {
                0
            }),
            filmed(frames@, triggers@, net, m),
        ensures
            t <= limit,
            t < limit ==> looks.len() == t + 1 && clock::is_due(timeout, looks[t as int]),
        decreases limit - t,
    {
        let nanos: u128 = clock::elapsed(&start);
        proof {
            looks = looks.push(nanos);
        }
        if clock::due(timeout, nanos) {
            break;
        }
        sim.tick();
        t = t + 1;
        if let Err(why) = apply_triggers(sim, triggers, t) {
            let failed: Result<Driven, String> = Err(why);
            assert(fails_at(triggers@, net, t, failed->Err_0@));
            assert(clock::paced(timeout, start, looks, t as nat, t, false));
            return failed;
        }
        if film {
            frames.push(trace::frame(sim, desc, t));
        }
    }
    assert(clock::paced(timeout, start, looks, t as nat, limit, false));
    Ok(Driven { ticks: t, frames })
}

/// A simulation of a loaded board, with the triggers of tick 0 applied.
pub fn prepare(loaded: &Loaded) -> (r: Result<Simulation, String>)
    requires
        loaded.desc@.fits(),
    ensures
        match loaded.desc@.fault() {
            Some(e) => r matches Err(why) && why@ == about(loaded.name@, e.text()),
            None => {
                let net = loaded.desc@.netlist();
                if applicable(loaded.triggers@, 0, net) {
                    r matches Ok(sim) && {
                        &&& sim.wf()
                        &&& sim.net() == net
                        &&& sim@ == observed(loaded.triggers@, net, machine::start(net), 0)
                        &&& !sim.has_baseline()
                    }
                } else {
                    r matches Err(why) && Some(why@) == loaded.triggers@[first_fault(
                        loaded.triggers@,
                        0,
                        net,
                        0,
                    )].fault(net)
                }
            },
        },
{
    let mut sim: Simulation = match Simulation::from_descriptor(&loaded.desc) {
        Ok(sim) => sim,
        Err(e) => {
            return Err(label(loaded.name.as_str(), e.message().as_str()));
        },
    };
    match apply_triggers(&mut sim, loaded.triggers.as_slice(), 0) {
        Ok(()) => Ok(sim),
        Err(why) => Err(why),
    }
}

/// Without triggers after tick 0, driving tick by tick is the same as running: the triggers of tick 0
/// and then the ticks.
pub proof fn law_only_late_triggers_interrupt(
    triggers: Seq<Trigger>,
    net: Netlist,
    m: Machine,
    t: nat,
)
    requires
        t <= u64::MAX,
        forall|i: int| 0 <= i < triggers.len() ==> (#[trigger] triggers[i]).tick == 0,
    ensures
        observed(triggers, net, m, t) == observed(triggers, net, m, 0).after(net, t),
    decreases t,
{
    if t > 0 {
        law_only_late_triggers_interrupt(triggers, net, m, (t - 1) as nat);
        lemma_nothing_applied(
            triggers,
            t as u64,
            net,
            observed(triggers, net, m, (t - 1) as nat).ticked(net),
            triggers.len() as int,
        );
    }
}

proof fn lemma_nothing_applied(
    triggers: Seq<Trigger>,
    tick: u64,
    net: Netlist,
    m: Machine,
    n: int,
)
    requires
        tick > 0,
        n <= triggers.len(),
        forall|i: int| 0 <= i < triggers.len() ==> (#[trigger] triggers[i]).tick == 0,
    ensures
        applied(triggers, tick, net, m, n) == m,
    decreases n,
{
    if n > 0 {
        lemma_nothing_applied(triggers, tick, net, m, n - 1);
    }
}

/// An extension stands for a binary board exactly when its three letters are those of `lgb`, each small
/// or large.
pub proof fn law_binary_extension(ext: Seq<char>)
    ensures
        is_lgb(ext) <==> ext.len() == 3 && forall|i: int|
            #![trigger ext[i]]
            0 <= i < 3 ==> ext[i] == seq!['l', 'g', 'b'][i] || ext[i] == seq!['L', 'G', 'B'][i],
{
    if is_lgb(ext) {
        assert forall|i: int|
            #![trigger ext[i]]
            0 <= i < 3 implies ext[i] == seq!['l', 'g', 'b'][i] || ext[i] == seq!['L', 'G', 'B'][i] by {
            assert(i == 0 || i == 1 || i == 2);
        }
    } else if ext.len() == 3 && forall|i: int|
        #![trigger ext[i]]
        0 <= i < 3 ==> ext[i] == seq!['l', 'g', 'b'][i] || ext[i] == seq!['L', 'G', 'B'][i] {
        assert(ext[0] == 'l' || ext[0] == 'L');
        assert(ext[1] == 'g' || ext[1] == 'G');
        assert(ext[2] == 'b' || ext[2] == 'B');
    }
}

/// A trigger can be applied when its event is `cont` or `pulse` and its component is a user input.
/// `cont` latches the pins, `pulse` arms a pulse on them.
pub proof fn law_trigger_events(t: Trigger, net: Netlist, m: Machine)
    ensures
        t.fault(net) is None <==> (t.event@ == seq!['c', 'o', 'n', 't'] || t.event@ == seq![
            'p',
            'u',
            'l',
            's',
            'e',
        ]) && t.comp < net.parts.len() && net.parts[t.comp as int].ty == CompType::UserInput,
        t.event@ == seq!['c', 'o', 'n', 't'] ==> t.applied(net, m) == m.latched(
            net,
            t.comp,
            t.state@,
        ),
        t.event@ == seq!['p', 'u', 'l', 's', 'e'] ==> t.applied(net, m) == m.armed(
            net,
            t.comp,
            t.state@,
        ),
{
    reveal_strlit("cont");
    reveal_strlit("pulse");
    assert("cont"@ =~= seq!['c', 'o', 'n', 't']);
    assert("pulse"@ =~= seq!['p', 'u', 'l', 's', 'e']);
    assert("cont"@.len() == 4 && "pulse"@.len() == 5);
}

/// The first trigger that cannot be applied.
proof fn lemma_first_fault(triggers: Seq<Trigger>, tick: u64, net: Netlist, from: int)
    requires
        0 <= from <= triggers.len(),
    ensures
        ({
            let at = first_fault(triggers, tick, net, from);
            &&& from <= at <= triggers.len()
            &&& forall|i: int|
                from <= i < at && (#[trigger] triggers[i]).tick == tick ==> triggers[i].fault(
                    net,
                ) is None
            &&& at < triggers.len() ==> triggers[at].tick == tick && triggers[at].fault(net) is Some
        }),
    decreases triggers.len() - from,
{
    if from < triggers.len() && !(triggers[from].tick == tick && triggers[from].fault(net) is Some) {
        lemma_first_fault(triggers, tick, net, from + 1);
    }
}

/// The triggers of a tick can be applied when each of them can. A drive fails at the first tick with
/// one that cannot, for the reason of the first such.
pub proof fn law_first_bad_trigger_is_reported(
    triggers: Seq<Trigger>,
    net: Netlist,
    t: u64,
    why: Seq<char>,
    s: u64,
    k: int,
)
    requires
        0 <= k < triggers.len(),
    ensures
        applicable(triggers, t, net) && triggers[k].tick == t ==> triggers[k].fault(net) is None,
        (forall|i: int|
            0 <= i < triggers.len() && (#[trigger] triggers[i]).tick == t ==> triggers[i].fault(
                net,
            ) is None) ==> applicable(triggers, t, net),
        fails_at(triggers, net, t, why) && s < t && triggers[k].tick == s ==> triggers[k].fault(
            net,
        ) is None,
        fails_at(triggers, net, t, why) ==> exists|i: int|
            0 <= i < triggers.len() && (#[trigger] triggers[i]).tick == t && triggers[i].fault(net)
                == Some(why) && forall|j: int|
                0 <= j < i && (#[trigger] triggers[j]).tick == t ==> triggers[j].fault(net) is None,
{
    lemma_first_fault(triggers, t, net, 0);
    lemma_first_fault(triggers, s, net, 0);
    let at = first_fault(triggers, t, net, 0);
    if fails_at(triggers, net, t, why) {
        assert(0 <= at < triggers.len());
        assert(triggers[at].tick == t);
        if s < t {
            assert(applicable(triggers, s, net));
        }
    }
}

/// Triggers for a tick are the only ones to have an effect there.
proof fn lemma_applied_alike(
    a: Seq<Trigger>,
    b: Seq<Trigger>,
    tick: u64,
    net: Netlist,
    m: Machine,
    n: int,
)
    requires
        n <= a.len(),
        n <= b.len(),
        forall|i: int| #![trigger a[i]] #![trigger b[i]] 0 <= i < n ==> a[i] == b[i],
    ensures
        applied(a, tick, net, m, n) == applied(b, tick, net, m, n),
    decreases n,
{
    if n > 0 {
        lemma_applied_alike(a, b, tick, net, m, n - 1);
    }
}

/// Before any tick and without triggers, what is observed is the state at the start; at each tick it is
/// what was observed before, ticked once.
pub proof fn law_observed_without_triggers(net: Netlist, m: Machine, t: nat)
    ensures
        observed(Seq::empty(), net, m, 0) == m,
        observed(Seq::empty(), net, m, t + 1) == observed(Seq::empty(), net, m, t).ticked(net),
{
}

/// One trigger more, behind the others, changes nothing that is observed before its tick. At its tick
/// it is applied to what would be observed without it.
pub proof fn law_triggers_wait_for_their_tick(
    triggers: Seq<Trigger>,
    x: Trigger,
    net: Netlist,
    m: Machine,
    t: nat,
)
    requires
        t <= x.tick,
    ensures
        t < x.tick ==> observed(triggers.push(x), net, m, t) == observed(triggers, net, m, t),
        t == x.tick ==> observed(triggers.push(x), net, m, t) == x.applied(
            net,
            observed(triggers, net, m, t),
        ),
    decreases t,
{
    let all = triggers.push(x);
    let n = triggers.len() as int;
    if t > 0 {
        law_triggers_wait_for_their_tick(triggers, x, net, m, (t - 1) as nat);
    }
    let from = if t == 0 {
        m
    } else {
        observed(triggers, net, m, (t - 1) as nat).ticked(net)
    };
    lemma_applied_alike(all, triggers, t as u64, net, from, n);
    assert(all[n] == x);
    assert(applied(all, t as u64, net, from, n + 1) == if x.tick == t {
        x.applied(net, applied(all, t as u64, net, from, n))
    } else {
        applied(all, t as u64, net, from, n)
    });
}

/// A trigger is over at its tick: what is observed at a later tick goes on from there by the ticks and
/// the triggers in between.
pub proof fn law_observing_goes_on(triggers: Seq<Trigger>, net: Netlist, m: Machine, t: nat)
    requires
        t < u64::MAX,
        forall|i: int| 0 <= i < triggers.len() ==> (#[trigger] triggers[i]).tick != t + 1,
    ensures
        observed(triggers, net, m, t + 1) == observed(triggers, net, m, t).ticked(net),
{
    lemma_none_due(
        triggers,
        (t + 1) as u64,
        net,
        observed(triggers, net, m, t).ticked(net),
        triggers.len() as int,
    );
}

proof fn lemma_none_due(triggers: Seq<Trigger>, tick: u64, net: Netlist, m: Machine, n: int)
    requires
        n <= triggers.len(),
        forall|i: int| 0 <= i < triggers.len() ==> (#[trigger] triggers[i]).tick != tick,
    ensures
        applied(triggers, tick, net, m, n) == m,
    decreases n,
{
    if n > 0 {
        lemma_none_due(triggers, tick, net, m, n - 1);
    }
}

/// A drive takes the ticks it is given. Without a number of ticks it goes on for as long as its time
/// lasts, and without either it takes none.
pub proof fn law_most_ticks(ticks: u64, nanos: u128, timeout: Option<u128>)
    ensures
        most_ticks(Some(ticks), timeout) == ticks,
        most_ticks(None, Some(nanos)) == 0xFFFF_FFFF_FFFF_FFFF,
        most_ticks(None, None) == 0,
{
}

/// A message about something named begins with the name, a colon and a space.
pub proof fn law_messages_begin_with_the_name(name: Seq<char>, message: Seq<char>)
    ensures
        about(name, message) == name + seq![':', ' '] + message,
{
    reveal_strlit(": ");
    assert(": "@ =~= seq![':', ' ']);
}

/// Where a drive fails, some trigger cannot be applied.
pub proof fn lemma_failing_trigger(triggers: Seq<Trigger>, net: Netlist, t: u64, why: Seq<char>)
    requires
        fails_at(triggers, net, t, why),
    ensures
        exists|i: int| 0 <= i < triggers.len() && (#[trigger] triggers[i]).fault(net) is Some,
{
    lemma_first_fault(triggers, t, net, 0);
    let at = first_fault(triggers, t, net, 0);
    assert(triggers[at].fault(net) is Some);
}

} // verus!
