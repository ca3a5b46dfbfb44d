//! A simulation served to another thread, command by command.
//!
//! One thread owns the simulation; everybody else sends it commands, which it serves at tick
//! boundaries. A background run goes in batches of ticks, with the waiting commands served between
//! them, and a flag that any thread may raise asks it to stop.

use std::sync::atomic::{AtomicBool, Ordering};
use vstd::prelude::*;
#[allow(unused_imports)]
use vstd::arithmetic::power2;
use vstd::string::StringExecFns;
use rayon::ThreadPool;
use web_time::Instant;
use crate::clock;
use crate::codec;
use crate::error::SimError;
#[allow(unused_imports)]
use crate::laws;
#[allow(unused_imports)]
use crate::machine::{self, Backlog, Machine, CHECK_EVERY};
#[allow(unused_imports)]
use crate::netlist::Netlist;
use crate::pool;
use crate::sim::snapshot::{self, SnapshotConfig, SnapshotInfo};
#[allow(unused_imports)]
use crate::sim::{self, driver, readout, RunConfig, Simulation, PAR_THRESHOLD};
#[allow(unused_imports)]
use crate::state;
use crate::text;
#[allow(unused_imports)]
use crate::types::CompType;
use crate::types::{InputEvent, SimState};

verus! {

/// Ticks of a background run between two looks at the waiting commands.
pub const BATCH: u64 = 4096;

/// A request to the thread that owns the simulation.
pub enum Command {
    /// One tick.
    Tick,
    /// Run to the end before anything else is served.
    RunBlocking { ticks: u64, timeout: Option<u128>, threads: usize },
    /// Start a background run.
    RunAsync { ticks: u64, timeout: Option<u128>, threads: usize },
    /// Apply external input to a user input.
    Trigger { comp: u32, event: u8, state: Vec<bool> },
    /// Read one link.
    Link { id: u32 },
    /// Read every output pin.
    Outputs,
    /// Make a snapshot.
    Snapshot { cfg: SnapshotConfig },
}

/// What becomes of the published speed.
#[derive(Clone, Copy, Debug, PartialEq, Eq, Structural)]
pub enum Speed {
    /// It stays.
    Keep,
    /// It goes to zero.
    Zero,
    /// It becomes `ticks` in `nanos` nanoseconds.
    Rate { ticks: u64, nanos: u128 },
}

/// A snapshot copied out of the simulation.
pub struct SnapParts {
    pub tick: u64,
    pub is_delta: bool,
    /// The packed link values of a full snapshot.
    pub links: Option<Vec<u8>>,
    /// The changed links of a delta, four bytes each, lowest first.
    pub ids: Option<Vec<u8>>,
    /// The packed values of the changed links.
    pub values: Option<Vec<u8>>,
}

/// The answer to a command.
pub enum Reply {
    Done,
    /// A blocking run is over.
    Ran(Speed),
    /// A background run is under way; its end is reported by the batch that ends it.
    Started,
    /// The command was turned down, for this reason.
    Refused(String),
    Value(bool),
    Bytes(Vec<u8>),
    Snapshot(SnapParts),
}

/// Status that may be read at any time without waiting for the simulation.
#[derive(Clone, Copy, Debug, PartialEq, Eq, Structural)]
pub struct Shared {
    pub state: SimState,
    pub tick: u64,
    /// Whether the last batch or run ended with a tick that shared its work out.
    pub parallel: bool,
    pub link_count: u32,
    pub component_count: u32,
}

/// What a batch of a background run did.
#[derive(Clone, Copy, Debug)]
pub struct Progress {
    /// The run is over.
    pub ended: bool,
    pub speed: Speed,
}

/// A background run.
pub struct Active {
    /// Ticks run so far.
    done: u64,
    /// Ticks to run.
    ticks: u64,
    timeout: Option<u128>,
    start: Instant,
    /// Where the current window of the speed measurement began.
    window_start: Instant,
    window_tick: u64,
    /// The workers of a run on several threads.
    pool: Option<ThreadPool>,
    threshold: usize,
}

/// The counts and times of a background run.
pub struct Background {
    pub done: u64,
    pub ticks: u64,
    pub timeout: Option<u128>,
    /// When the run began.
    pub start: Instant,
    /// When the speed was last measured.
    pub window: Instant,
    /// Ticks run when the speed was last measured.
    pub measured: u64,
    /// The run has worker threads.
    pub threaded: bool,
    /// Scheduled links, or components to evaluate, from which on the workers take part in a tick.
    pub threshold: usize,
}

impl View for Active {
    type V = Background;

    closed spec fn view(&self) -> Background {
        Background {
            done: self.done,
            ticks: self.ticks,
            timeout: self.timeout,
            start: self.start,
            window: self.window_start,
            measured: self.window_tick,
            threaded: self.pool is Some,
            threshold: self.threshold,
        }
    }
}

impl Background {
    /// The counts are in order.
    pub open spec fn ok(self) -> bool {
        self.measured <= self.done <= self.ticks
    }
}

/// `v` is a value that loading the flag gives.
pub open spec fn loads(flag: &AtomicBool, v: bool) -> bool {
    call_ensures(AtomicBool::load, (flag, Ordering::Relaxed), v)
}

/// Whether the stop flag has been raised: what a load of it gives.
fn stop_requested(stop: &AtomicBool) -> (r: bool)
    ensures
        loads(stop, r),
{
    let load = AtomicBool::load;
    load(stop, Ordering::Relaxed)
}

/// The flag has been lowered: false has been stored in it.
pub open spec fn lowered(flag: &AtomicBool) -> bool {
    call_ensures(AtomicBool::store, (flag, false, Ordering::Relaxed), ())
}

/// Lower the stop flag.
fn clear_stop(stop: &AtomicBool)
    ensures
        lowered(stop),
{
    let store = AtomicBool::store;
    store(stop, false, Ordering::Relaxed)
}

/// Whether the last of `k` ticks of the run `b` shared its work out; with no tick, whether the last
/// tick before did.
pub open spec fn shared_after(b: Background, sim: &Simulation, k: nat) -> bool {
    if k == 0 || b.threaded {
        driver::shared_last(sim, k, b.threshold)
    } else {
        false
    }
}

/// A background run that is about to begin.
pub open spec fn fresh(b: Background, ticks: u64, timeout: Option<u128>, threads: usize) -> bool {
    &&& b == (Background {
        done: 0,
        ticks,
        timeout,
        start: b.start,
        window: b.window,
        measured: 0,
        threaded: threads > 1,
        threshold: PAR_THRESHOLD,
    })
    &&& clock::reads(b.start)
    &&& clock::reads(b.window)
}

impl Active {
    /// Get a background run ready. It can fail only where worker threads are wanted, and then only
    /// because they cannot be had.
    pub fn new(ticks: u64, timeout: Option<u128>, threads: usize) -> (r: Result<Self, String>)
        ensures
            threads <= 1 ==> r is Ok,
            r matches Ok(a) ==> fresh(a@, ticks, timeout, threads),
            r is Ok && threads > 1 ==> exists|p: ThreadPool| #[trigger] pool::supplied(threads, p),
            r matches Err(why) ==> threads > 1 && pool::unavailable(threads, why@),
    {
        let workers: Option<ThreadPool> = if threads > 1 {
            match pool::request_pool(threads) {
                Ok(p) => Some(p),
                Err(why) => {
                    return Err(why);
                },
            }
        } else {
            None
        };
        Ok(
            Active {
                done: 0,
                ticks,
                timeout,
                start: clock::current(),
                window_start: clock::current(),
                window_tick: 0,
                pool: workers,
                threshold: RunConfig::default().par_threshold,
            },
        )
    }

    /// Go one tick further, unless the run is asked to stop or has no ticks left; tells whether
    /// it is over.
    pub fn step(&mut self, sim: &mut Simulation, stop: bool) -> (over: bool)
        requires
            old(sim).wf(),
            old(self)@.ok(),
        ensures
            over == (stop || old(self)@.done == old(self)@.ticks),
            final(sim).wf(),
            over ==> *final(sim) == *old(sim) && *final(self) == *old(self),
            !over ==> {
                &&& final(self)@ == (Background {
                    done: (old(self)@.done + 1) as u64,
                    ..old(self)@
                })
                &&& final(sim)@ == old(sim)@.ticked(old(sim).net())
                &&& final(sim).net() == old(sim).net()
                &&& final(sim).backlog() == old(sim).backlog().ticked(old(sim).net(), old(sim)@)
                &&& final(sim).lifecycle() == old(sim).lifecycle()
                &&& final(sim).has_baseline() == old(sim).has_baseline()
                &&& final(sim).delta() == old(sim).delta()
                &&& final(sim).gauge() == old(sim).gauge()
                &&& final(sim).was_parallel() == (old(self)@.threaded && old(sim)@.is_large(
                    old(sim).net(),
                    old(sim).backlog().due,
                    old(self)@.threshold,
                ))
            },
    {
        if stop || self.done >= self.ticks {
            return true;
        }
        match &self.pool {
            Some(p) => sim.tick_adaptive(p, self.threshold),
            None => sim.tick(),
        }
        self.done = self.done + 1;
        false
    }

    /// Go up to a batch of ticks further, `nanos` nanoseconds after the start of the run; tells
    /// whether the run is over. Past its time limit it is over at once. Otherwise every tick is
    /// preceded by a look at the flag, and the run is over where the flag shows a request to stop
    /// or no ticks are left.
    fn step_batch(&mut self, sim: &mut Simulation, nanos: u128, stop: &AtomicBool) -> (ended: bool)
        requires
            old(sim).wf(),
            old(self)@.ok(),
        ensures
            final(sim).wf(),
            final(sim).net() == old(sim).net(),
            final(sim).lifecycle() == old(sim).lifecycle(),
            final(sim).has_baseline() == old(sim).has_baseline(),
            final(sim).delta() == old(sim).delta(),
            final(sim).gauge() == old(sim).gauge(),
            final(self)@.ok(),
            old(self)@.done <= final(self)@.done <= old(self)@.done + BATCH,
            final(self)@ == (Background { done: final(self)@.done, ..old(self)@ }),
            final(sim)@ == old(sim)@.after(
                old(sim).net(),
                (final(self)@.done - old(self)@.done) as nat,
            ),
            final(sim).backlog() == old(sim).backlog().after(
                old(sim).net(),
                old(sim)@,
                (final(self)@.done - old(self)@.done) as nat,
            ),
            ended == (final(self)@.done < old(self)@.done + BATCH),
            clock::is_due(old(self)@.timeout, nanos) ==> ended && *final(sim) == *old(sim) && *final(self)
                == *old(self),
            !clock::is_due(old(self)@.timeout, nanos) && ended ==> final(self)@.done
                == old(self)@.ticks || loads(stop, true),
            final(self)@.done > old(self)@.done ==> loads(stop, false),
            final(sim).was_parallel() == shared_after(
                old(self)@,
                old(sim),
                (final(self)@.done - old(self)@.done) as nat,
            ),
            final(self)@.done == old(self)@.done ==> *final(sim) == *old(sim),
    {
        if clock::due(self.timeout, nanos) {
            return true;
        }
        let mut k: u64 = 0;
        while k < BATCH
            invariant
                k <= BATCH,
                sim.wf(),
                sim.net() == old(sim).net(),
                sim.lifecycle() == old(sim).lifecycle(),
                sim.has_baseline() == old(sim).has_baseline(),
                sim.delta() == old(sim).delta(),
                sim.gauge() == old(sim).gauge(),
                !clock::is_due(old(self)@.timeout, nanos),
                self@.ok(),
                self@ == (Background { done: (old(self)@.done + k) as u64, ..old(self)@ }),
                self@.done == old(self)@.done + k,
                sim@ == old(sim)@.after(old(sim).net(), k as nat),
                sim.backlog() == old(sim).backlog().after(old(sim).net(), old(sim)@, k as nat),
                k > 0 ==> loads(stop, false),
                sim.was_parallel() == shared_after(old(self)@, old(sim), k as nat),
                k == 0 ==> *sim == *old(sim),
            decreases BATCH - k,
        {
            if self.step(sim, stop_requested(stop)) {
                return true;
            }
            k = k + 1;
        }
        false
    }
}

/// A simulation, the background run on it, and the status published of both.
pub struct Session {
    sim: Simulation,
    active: Option<Active>,
    shared: Shared,
}

impl Session {
    /// The simulation.
    pub closed spec fn engine(&self) -> Simulation {
        self.sim
    }

    /// The background run.
    pub closed spec fn background(&self) -> Option<Background> {
        match self.active {
            Some(a) => Some(a@),
            None => None,
        }
    }

    /// The published status.
    pub closed spec fn published(&self) -> Shared {
        self.shared
    }

    /// Every session satisfies this.
    pub open spec fn wf(&self) -> bool {
        &&& self.engine().wf()
        &&& self.background() is Some ==> self.background()->0.ok()
    }

    /// A session on a simulation, with no run on it.
    pub fn new(sim: Simulation) -> (r: Self)
        requires
            sim.wf(),
        ensures
            r.wf(),
            r.engine() == sim,
            r.background() is None,
            r.published() == (Shared {
                state: SimState::Stopped,
                tick: sim@.tick,
                parallel: false,
                link_count: sim.net().links as u32,
                component_count: sim.net().parts.len() as u32,
            }),
    {
        let status = sim.status();
        Session {
            sim,
            active: None,
            shared: Shared {
                state: SimState::Stopped,
                tick: status.tick,
                parallel: false,
                link_count: status.link_count,
                component_count: status.component_count,
            },
        }
    }

    /// The published status.
    pub fn status(&self) -> (r: Shared)
        ensures
            r == self.published(),
    {
        self.shared
    }

    /// Whether a background run is under way.
    pub fn busy(&self) -> (r: bool)
        ensures
            r == self.background() is Some,
    {
        self.active.is_some()
    }
}

/// A snapshot has been made and copied out.
pub open spec fn copied(
    before: &Simulation,
    cfg: SnapshotConfig,
    after: &Simulation,
    parts: SnapParts,
) -> bool {
    &&& snapshot::taken(before, cfg, after, parts.is_delta)
    &&& parts.tick == before@.tick
    &&& if parts.is_delta {
        &&& parts.links is None
        &&& parts.ids matches Some(ids) && ids@ == codec::le_words(after.delta().0)
        &&& parts.values matches Some(values) && values@ == after.delta().1
    } else {
        &&& parts.links matches Some(links) && readout::packs(links@, before@.links)
        &&& parts.ids is None
        &&& parts.values is None
    }
}

/// Make a snapshot and copy it out.
pub fn snapshot_parts(sim: &mut Simulation, cfg: SnapshotConfig) -> (r: SnapParts)
    requires
        old(sim).wf(),
    ensures
        final(sim).wf(),
        copied(old(sim), cfg, final(sim), r),
{
    let info: SnapshotInfo = sim.snapshot(cfg);
    if info.is_delta {
        let mut ids: Vec<u8> = Vec::new();
        codec::put_words(&mut ids, sim.snapshot_ids());
        assert(ids@ =~= codec::le_words(sim.delta().0));
        let mut values: Vec<u8> = Vec::new();
        values.extend_from_slice(sim.snapshot_values());
        assert(values@ =~= sim.delta().1);
        SnapParts {
            tick: info.tick,
            is_delta: true,
            links: None,
            ids: Some(ids),
            values: Some(values),
        }
    } else {
        SnapParts {
            tick: info.tick,
            is_delta: false,
            links: Some(sim.link_bytes()),
            ids: None,
            values: None,
        }
    }
}

/// What the session holds besides the simulation is as before.
pub open spec fn same_session(before: &Session, after: &Session) -> bool {
    &&& after.background() == before.background()
    &&& after.published() == before.published()
}

/// The session is as before, down to the simulation.
pub open spec fn untouched(before: &Session, after: &Session) -> bool {
    &&& same_session(before, after)
    &&& after.engine() == before.engine()
}

/// The reply turns a command down for the given reason.
pub open spec fn refuses(reply: Reply, why: Seq<char>) -> bool {
    reply matches Reply::Refused(s) && s@ == why
}

/// Why a trigger with event number `event` on component `comp` is turned down, if it is.
pub open spec fn trigger_fault(sim: &Simulation, comp: u32, event: u8) -> Option<Seq<char>> {
    match InputEvent::of_number(event) {
        Err(v) => Some(
            "invalid input event "@ + text::decimal(v as nat) + " (want 0=cont, 1=pulse)"@,
        ),
        Ok(_) => if sim@.is_input(sim.net(), comp) {
            None
        } else {
            Some(SimError::NotAnInput(comp).text())
        },
    }
}

/// The schedules have an entry more for each output that differs.
pub open spec fn schedules_flips(before: &Simulation, after: &Simulation) -> bool {
    after.backlog() == (Backlog {
        next: before.backlog().next + state::flipped_all(before.net(), before@.parts, after@.parts),
        ..before.backlog()
    })
}

/// The state after a trigger that was not turned down.
pub open spec fn triggered(m: Machine, net: Netlist, comp: u32, event: u8, state: Seq<bool>) -> Machine {
    if InputEvent::of_number(event) == Ok::<InputEvent, u8>(InputEvent::Cont) {
        m.latched(net, comp, state)
    } else {
        m.armed(net, comp, state)
    }
}

/// A blocking run of `k` ticks from `start` on has been made, with the given word on the speed.
pub open spec fn ran(
    before: &Session,
    ticks: u64,
    k: nat,
    start: Instant,
    after: &Session,
    speed: Speed,
) -> bool {
    &&& clock::reads(start)
    &&& k <= ticks
    &&& after.engine()@ == before.engine()@.after(before.engine().net(), k)
    &&& after.engine().backlog() == before.engine().backlog().after(
        before.engine().net(),
        before.engine()@,
        k,
    )
    &&& after.engine().net() == before.engine().net()
    &&& after.engine().has_baseline() == before.engine().has_baseline()
    &&& after.engine().delta() == before.engine().delta()
    &&& after.background() is None
    &&& after.published() == (Shared {
        state: SimState::Stopped,
        tick: after.engine()@.tick,
        parallel: after.engine().was_parallel(),
        ..before.published()
    })
    &&& match speed {
        Speed::Keep => false,
        Speed::Zero => clock::shows(start, 0),
        Speed::Rate { ticks: n, nanos } => {
            &&& nanos > 0
            &&& clock::shows(start, nanos)
            &&& n == after.engine()@.tick.wrapping_sub(before.engine()@.tick)
        },
    }
}

/// What a blocking run makes of what the model leaves out. On the calling thread it only ticks; on
/// several it takes the simulation through its lifecycle.
pub open spec fn run_status(before: &Simulation, k: nat, threads: usize, after: &Simulation) -> bool {
    if threads > 1 {
        &&& after.lifecycle() == SimState::Stopped
        &&& after.was_parallel() == driver::shared_last(before, k, PAR_THRESHOLD)
    } else {
        &&& after.lifecycle() == before.lifecycle()
        &&& after.gauge() == before.gauge()
        &&& after.was_parallel() == (k == 0 && before.was_parallel())
    }
}

/// A blocking run of up to `ticks` ticks from `start` on has gone on for `k` ticks. On the calling
/// thread it looks at the flag and at the clock before every tick, and ends early where the flag
/// shows a request to stop or the clock shows that the time is up; on several it is the simulation's
/// own run.
pub open spec fn kept_going(
    before: &Simulation,
    ticks: u64,
    timeout: Option<u128>,
    threads: usize,
    k: nat,
    start: Instant,
    stop: &AtomicBool,
    after: &Simulation,
) -> bool {
    if threads > 1 {
        driver::timed(before.measured(), before@.tick, timeout, ticks, k, after.gauge())
    } else {
        &&& exists|looks: Seq<u128>| #[trigger]
            clock::paced(timeout, start, looks, k, ticks, loads(stop, true))
        &&& k > 0 ==> loads(stop, false)
    }
}

/// `k` ticks on the calling thread lead from one simulation to the other.
pub open spec fn ticked_on(before: &Simulation, k: nat, after: &Simulation) -> bool {
    &&& after.net() == before.net()
    &&& after@ == before@.after(before.net(), k)
    &&& after.backlog() == before.backlog().after(before.net(), before@, k)
    &&& after.lifecycle() == before.lifecycle()
    &&& after.has_baseline() == before.has_baseline()
    &&& after.delta() == before.delta()
    &&& after.gauge() == before.gauge()
    &&& after.was_parallel() == (k == 0 && before.was_parallel())
}

/// Tick on the calling thread, with a look at the flag and at the clock before every tick, until the
/// ticks are used up, the flag shows a request to stop or the time since `start` is up.
fn tick_on(
    sim: &mut Simulation,
    ticks: u64,
    timeout: Option<u128>,
    start: &Instant,
    stop: &AtomicBool,
) -> (done: u64)
    requires
        old(sim).wf(),
        clock::reads(*start),
    ensures
        final(sim).wf(),
        ticked_on(old(sim), done as nat, final(sim)),
        exists|looks: Seq<u128>| #[trigger]
            clock::paced(timeout, *start, looks, done as nat, ticks, loads(stop, true)),
        done > 0 ==> loads(stop, false),
{
    let mut done: u64 = 0;
    let ghost mut looks: Seq<u128> = Seq::empty();
    while done < ticks
        invariant_except_break
            looks.len() == done,
        invariant
            done <= ticks,
            done <= looks.len() <= done + 1,
            forall|i: int| 0 <= i < looks.len() ==> #[trigger] clock::shows(*start, looks[i]),
            forall|i: int| 0 <= i < done ==> !clock::is_due(timeout, #[trigger] looks[i]),
            done > 0 ==> loads(stop, false),
            sim.wf(),
            ticked_on(old(sim), done as nat, sim),
        ensures
            done < ticks ==> loads(stop, true) || (looks.len() == done + 1 && clock::is_due(
                timeout,
                looks[done as int],
            )),
        decreases ticks - done,
    {
        if stop_requested(stop) {
            break;
        }
        let nanos: u128 = clock::elapsed(start);
        proof {
            looks = looks.push(nanos);
        }
        if clock::due(timeout, nanos) {
            break;
        }
        sim.tick();
        done = done + 1;
    }
    assert(clock::paced(timeout, *start, looks, done as nat, ticks, loads(stop, true)));
    done
}

impl Session {
    /// Run to the end, on the calling thread or on several.
    #[verifier::spinoff_prover]
    #[verifier::rlimit(60)]
    fn run_blocking(
        &mut self,
        ticks: u64,
        timeout: Option<u128>,
        threads: usize,
        stop: &AtomicBool,
    ) -> (r: Reply)
        requires
            old(self).wf(),
            old(self).background() is None,
        ensures
            final(self).wf(),
            threads <= 1 ==> r is Ran,
            r is Ran || r is Refused,
            lowered(stop),
            r matches Reply::Ran(speed) ==> exists|k: nat, start: Instant|
                {
                    &&& #[trigger] ran(old(self), ticks, k, start, final(self), speed)
                    &&& run_status(&old(self).engine(), k, threads, &final(self).engine())
                    &&& kept_going(
                        &old(self).engine(),
                        ticks,
                        timeout,
                        threads,
                        k,
                        start,
                        stop,
                        &final(self).engine(),
                    )
                },
            r is Ran && threads > 1 ==> {
                &&& exists|p: ThreadPool| #[trigger] pool::supplied(threads, p)
                &&& old(self).engine()@.runs_to(
                    old(self).engine().net(),
                    ticks,
                    timeout is Some,
                    final(self).engine()@,
                )
            },
            threads <= 1 && timeout is None ==> final(self).engine()@ == old(self).engine()@.after(
                old(self).engine().net(),
                ticks as nat,
            ) || loads(stop, true),
            r matches Reply::Refused(why) ==> {
                &&& refused_pool(threads, why@)
                &&& final(self).engine() == old(self).engine()
                &&& final(self).background() is None
                &&& final(self).published() == (Shared {
                    state: SimState::Stopped,
                    ..old(self).published()
                })
            },
    {
        let ghost net = self.sim.net();
        let ghost mut k: nat = 0;
        clear_stop(stop);
        self.shared.state = SimState::Running;
        let start: Instant = clock::current();
        let start_tick: u64 = self.sim.tick_count();
        if threads > 1 {
            let cfg = RunConfig {
                ticks,
                timeout,
                threads,
                par_threshold: RunConfig::default().par_threshold,
            };
            if let Err(e) = self.sim.run(cfg) {
                self.shared.state = SimState::Stopped;
                let why: String = e.message();
                assert(e.text() == why@);
                return Reply::Refused(why);
            }
            proof {
                k = choose|k: nat|
                    k <= ticks && self.sim@ == #[trigger] old(self).sim@.after(net, k) && (k
                        == ticks || (timeout is Some && k > 0 && k % CHECK_EVERY as nat == 0));
                machine::lemma_ticks_between(net, old(self).sim@, k);
            }
        } else {
            let done: u64 = tick_on(&mut self.sim, ticks, timeout, &start, stop);
            proof {
                k = done as nat;
            }
        }
        let status = self.sim.status();
        self.shared.parallel = status.parallel;
        self.shared.tick = status.tick;
        self.shared.state = SimState::Stopped;
        let nanos: u128 = clock::elapsed(&start);
        let speed = if nanos > 0 {
            Speed::Rate { ticks: status.tick.wrapping_sub(start_tick), nanos }
        } else {
            Speed::Zero
        };
        assert(ran(old(self), ticks, k, start, self, speed));
        assert(run_status(&old(self).engine(), k, threads, &self.engine()));
        assert(kept_going(
            &old(self).engine(),
            ticks,
            timeout,
            threads,
            k,
            start,
            stop,
            &self.engine(),
        ));
        Reply::Ran(speed)
    }

    /// Start a background run.
    fn run_async(
        &mut self,
        ticks: u64,
        timeout: Option<u128>,
        threads: usize,
        stop: &AtomicBool,
    ) -> (r: Reply)
        requires
            old(self).wf(),
            old(self).background() is None,
        ensures
            final(self).wf(),
            final(self).engine() == old(self).engine(),
            threads <= 1 ==> r is Started,
            r is Started || r is Refused,
            r is Started ==> {
                &&& lowered(stop)
                &&& final(self).background() matches Some(b) && fresh(b, ticks, timeout, threads)
                &&& final(self).published() == (Shared {
                    state: SimState::Running,
                    ..old(self).published()
                })
            },
            r is Started && threads > 1 ==> exists|p: ThreadPool| #[trigger]
                pool::supplied(threads, p),
            r matches Reply::Refused(why) ==> {
                &&& threads > 1 && pool::unavailable(threads, why@)
                &&& untouched(old(self), final(self))
            },
    {
        match Active::new(ticks, timeout, threads) {
            Ok(a) => {
                clear_stop(stop);
                self.shared.state = SimState::Running;
                self.active = Some(a);
                Reply::Started
            },
            Err(why) => Reply::Refused(why),
        }
    }

    /// Apply external input.
    fn trigger(&mut self, comp: u32, event: u8, state: &[bool]) -> (r: Reply)
        requires
            old(self).wf(),
        ensures
            final(self).wf(),
            same_session(old(self), final(self)),
            sim::same_status(&old(self).engine(), &final(self).engine()),
            schedules_flips(&old(self).engine(), &final(self).engine()),
            match trigger_fault(&old(self).engine(), comp, event) {
                Some(why) => {
                    &&& refuses(r, why)
                    &&& final(self).engine()@ == old(self).engine()@
                },
                None => {
                    &&& r is Done
                    &&& final(self).engine()@ == triggered(
                        old(self).engine()@,
                        old(self).engine().net(),
                        comp,
                        event,
                        state@,
                    )
                },
            },
    {
        match InputEvent::try_from(event) {
            Ok(ev) => match self.sim.trigger_input(comp, ev, state) {
                Ok(()) => Reply::Done,
                Err(e) => Reply::Refused(e.message()),
            },
            Err(v) => {
                let mut s: String = String::new();
                s.append("invalid input event ");
                text::push_decimal(&mut s, v as u64);
                s.append(" (want 0=cont, 1=pulse)");
                assert(s@ =~= "invalid input event "@ + text::decimal(v as nat)
                    + " (want 0=cont, 1=pulse)"@);
                proof {
                    let net = self.sim.net();
                    let parts = self.sim@.parts;
                    state::lemma_flipped_none(net, parts, parts, net.parts.len() as int);
                }
                Reply::Refused(s)
            },
        }
    }
}

/// `why` is the message of a run for which no pool of `threads` threads could be had.
pub open spec fn refused_pool(threads: usize, why: Seq<char>) -> bool {
    exists|e: SimError| #[trigger] e.text() == why && driver::pool_error(threads, e)
}

/// Command `cmd` has been served with the given reply, the flag `stop` at hand.
pub open spec fn served(
    before: &Session,
    cmd: Command,
    stop: &AtomicBool,
    after: &Session,
    reply: Reply,
) -> bool {
    let net = before.engine().net();
    match cmd {
        Command::Tick => {
            &&& reply is Done
            &&& after.engine()@ == before.engine()@.ticked(net)
            &&& after.engine().backlog() == before.engine().backlog().ticked(net, before.engine()@)
            &&& after.engine().net() == net
            &&& after.engine().lifecycle() == before.engine().lifecycle()
            &&& after.engine().has_baseline() == before.engine().has_baseline()
            &&& after.engine().delta() == before.engine().delta()
            &&& after.engine().gauge() == before.engine().gauge()
            &&& !after.engine().was_parallel()
            &&& after.background() == before.background()
            &&& after.published() == (Shared {
                tick: after.engine()@.tick,
                ..before.published()
            })
        },
        Command::RunBlocking { ticks, timeout, threads } => if before.background() is Some {
            &&& refuses(reply, "a background run is in progress; stop() it first"@)
            &&& untouched(before, after)
        } else {
            &&& threads <= 1 ==> reply is Ran
            &&& reply is Ran || reply is Refused
            &&& lowered(stop)
            &&& reply matches Reply::Ran(speed) ==> exists|k: nat, start: Instant|
                {
                    &&& #[trigger] ran(before, ticks, k, start, after, speed)
                    &&& run_status(&before.engine(), k, threads, &after.engine())
                    &&& kept_going(
                        &before.engine(),
                        ticks,
                        timeout,
                        threads,
                        k,
                        start,
                        stop,
                        &after.engine(),
                    )
                }
            &&& reply is Ran && threads > 1 ==> {
                &&& exists|p: ThreadPool| #[trigger] pool::supplied(threads, p)
                &&& before.engine()@.runs_to(net, ticks, timeout is Some, after.engine()@)
            }
            &&& threads <= 1 && timeout is None ==> after.engine()@ == before.engine()@.after(
                net,
                ticks as nat,
            ) || loads(stop, true)
            &&& reply matches Reply::Refused(why) ==> {
                &&& refused_pool(threads, why@)
                &&& after.engine() == before.engine()
                &&& after.background() is None
                &&& after.published() == (Shared {
                    state: SimState::Stopped,
                    ..before.published()
                })
            }
        },
        Command::RunAsync { ticks, timeout, threads } => if before.background() is Some {
            &&& refuses(reply, "a run is already in progress"@)
            &&& untouched(before, after)
        } else {
            &&& after.engine() == before.engine()
            &&& threads <= 1 ==> reply is Started
            &&& reply is Started || reply is Refused
            &&& reply is Started ==> {
                &&& lowered(stop)
                &&& after.background() matches Some(b) && fresh(b, ticks, timeout, threads)
                &&& after.published() == (Shared {
                    state: SimState::Running,
                    ..before.published()
                })
            }
            &&& reply is Started && threads > 1 ==> exists|p: ThreadPool| #[trigger]
                pool::supplied(threads, p)
            &&& reply matches Reply::Refused(why) ==> {
                &&& threads > 1 && pool::unavailable(threads, why@)
                &&& untouched(before, after)
            }
        },
        Command::Trigger { comp, event, state } => {
            &&& same_session(before, after)
            &&& sim::same_status(&before.engine(), &after.engine())
            &&& schedules_flips(&before.engine(), &after.engine())
            &&& match trigger_fault(&before.engine(), comp, event) {
                Some(why) => refuses(reply, why) && after.engine()@ == before.engine()@,
                None => reply is Done && after.engine()@ == triggered(
                    before.engine()@,
                    net,
                    comp,
                    event,
                    state@,
                ),
            }
        },
        Command::Link { id } => {
            &&& reply matches Reply::Value(v) && v == before.engine()@.links[id as int]
            &&& untouched(before, after)
        },
        Command::Outputs => {
            &&& reply matches Reply::Bytes(bytes) && bytes@ == readout::driven_bytes(
                net,
                before.engine()@.parts,
                net.parts.len() as int,
            )
            &&& untouched(before, after)
        },
        Command::Snapshot { cfg } => {
            &&& reply matches Reply::Snapshot(parts) && copied(
                &before.engine(),
                cfg,
                &after.engine(),
                parts,
            )
            &&& same_session(before, after)
        },
    }
}

/// `k` more ticks of the background run `b` have been run as a batch.
pub open spec fn advanced(
    before: &Session,
    b: Background,
    after: &Session,
    k: nat,
    progress: Progress,
) -> bool {
    &&& k <= BATCH && b.done + k <= b.ticks
    &&& progress.ended == (k < BATCH)
    &&& after.engine()@ == before.engine()@.after(before.engine().net(), k)
    &&& after.engine().backlog() == before.engine().backlog().after(
        before.engine().net(),
        before.engine()@,
        k,
    )
    &&& after.engine().net() == before.engine().net()
    &&& after.engine().lifecycle() == before.engine().lifecycle()
    &&& after.engine().has_baseline() == before.engine().has_baseline()
    &&& after.engine().delta() == before.engine().delta()
    &&& after.engine().gauge() == before.engine().gauge()
    &&& after.engine().was_parallel() == shared_after(b, &before.engine(), k)
    &&& if progress.ended {
        after.background() is None
    } else {
        after.background() matches Some(next) && next == (Background {
            done: (b.done + k) as u64,
            window: next.window,
            measured: (b.done + k) as u64,
            ..b
        }) && clock::reads(next.window)
    }
    &&& after.published() == (Shared {
        state: if progress.ended {
            SimState::Stopped
        } else {
            SimState::Running
        },
        tick: after.engine()@.tick,
        parallel: after.engine().was_parallel(),
        ..before.published()
    })
    &&& match progress.speed {
        Speed::Keep => !progress.ended && clock::shows(b.window, 0),
        Speed::Zero => progress.ended,
        Speed::Rate { ticks, nanos } => {
            &&& !progress.ended
            &&& nanos > 0
            &&& clock::shows(b.window, nanos)
            &&& ticks == b.done + k - b.measured
        },
    }
}

/// Before a batch of `k` ticks of the run `b` the clock showed `nanos` nanoseconds since its start. If
/// that is past the time limit, the batch ends the run and has no ticks. Otherwise it ends the run
/// only where the ticks are used up or the flag shows a request to stop; and ticks are run only while
/// the flag shows none.
pub open spec fn stops_for_cause(
    b: Background,
    k: nat,
    progress: Progress,
    nanos: u128,
    stop: &AtomicBool,
) -> bool {
    &&& clock::shows(b.start, nanos)
    &&& clock::is_due(b.timeout, nanos) ==> progress.ended && k == 0
    &&& progress.ended && !clock::is_due(b.timeout, nanos) ==> b.done + k == b.ticks || loads(
        stop,
        true,
    )
    &&& k > 0 ==> loads(stop, false)
}

impl Session {
    /// The command is in range of the board.
    pub open spec fn in_range(&self, cmd: Command) -> bool {
        cmd matches Command::Link { id } ==> id < self.engine().net().links
    }

    /// Whether the command is in range of the board.
    pub fn accepts(&self, cmd: &Command) -> (r: bool)
        requires
            self.wf(),
        ensures
            r == self.in_range(*cmd),
    {
        match cmd {
            Command::Link { id } => *id < self.sim.status().link_count,
            _ => true,
        }
    }

    /// Serve one command at a tick boundary.
    pub fn handle(&mut self, cmd: Command, stop: &AtomicBool) -> (r: Reply)
        requires
            old(self).wf(),
            old(self).in_range(cmd),
        ensures
            final(self).wf(),
            served(old(self), cmd, stop, final(self), r),
    {
        match cmd {
            Command::Tick => {
                self.sim.tick();
                self.shared.tick = self.sim.tick_count();
                Reply::Done
            },
            Command::RunBlocking { ticks, timeout, threads } => {
                if self.busy() {
                    Reply::Refused(
                        String::from_str("a background run is in progress; stop() it first"),
                    )
                } else {
                    self.run_blocking(ticks, timeout, threads, stop)
                }
            },
            Command::RunAsync { ticks, timeout, threads } => {
                if self.busy() {
                    Reply::Refused(String::from_str("a run is already in progress"))
                } else {
                    self.run_async(ticks, timeout, threads, stop)
                }
            },
            Command::Trigger { comp, event, state } => self.trigger(comp, event, state.as_slice()),
            Command::Link { id } => Reply::Value(self.sim.link(id)),
            Command::Outputs => Reply::Bytes(self.sim.output_bytes()),
            Command::Snapshot { cfg } => Reply::Snapshot(snapshot_parts(&mut self.sim, cfg)),
        }
    }

    /// Run one batch of the background run and publish where it stands. The run ends by itself
    /// when its ticks or its time are used up, and early when the flag is raised.
    pub fn advance_batch(&mut self, stop: &AtomicBool) -> (progress: Progress)
        requires
            old(self).wf(),
            old(self).background() is Some,
        ensures
            final(self).wf(),
            exists|k: nat, nanos: u128|
                {
                    &&& #[trigger] advanced(
                        old(self),
                        old(self).background()->0,
                        final(self),
                        k,
                        progress,
                    )
                    &&& #[trigger] stops_for_cause(
                        old(self).background()->0,
                        k,
                        progress,
                        nanos,
                        stop,
                    )
                },
    {
        let ghost b = self.background()->0;
        let mut run: Option<Active> = None;
        std::mem::swap(&mut run, &mut self.active);
        match run {
            Some(mut a) => {
                let elapsed: u128 = clock::elapsed(&a.start);
                let ended: bool = a.step_batch(&mut self.sim, elapsed, stop);
                let ghost k: nat = (a.done - b.done) as nat;
                let nanos: u128 = clock::elapsed(&a.window_start);
                let ticks: u64 = a.done - a.window_tick;
                a.window_start = clock::current();
                a.window_tick = a.done;
                let status = self.sim.status();
                self.shared.parallel = status.parallel;
                self.shared.tick = status.tick;
                let speed: Speed;
                if ended {
                    speed = Speed::Zero;
                    self.shared.state = SimState::Stopped;
                } else {
                    speed = if nanos > 0 {
                        Speed::Rate { ticks, nanos }
                    } else {
                        Speed::Keep
                    };
                    self.shared.state = SimState::Running;
                    self.active = Some(a);
                }
                let progress = Progress { ended, speed };
                assert(advanced(old(self), b, self, k, progress));
                assert(stops_for_cause(b, k, progress, elapsed, stop));
                progress
            },
            None => Progress { ended: true, speed: Speed::Keep },
        }
    }
}

/// The command only looks at the simulation.
pub open spec fn only_reads(cmd: Command) -> bool {
    cmd is Link || cmd is Outputs || cmd is Snapshot
}

/// Reading a session, with snapshots too, neither disturbs a background run nor changes what the
/// simulation will do; only the record of changes starts anew.
pub proof fn law_reading_does_not_disturb(
    before: &Session,
    cmd: Command,
    stop: &AtomicBool,
    after: &Session,
    reply: Reply,
    n: nat,
)
    requires
        served(before, cmd, stop, after, reply),
        only_reads(cmd),
    ensures
        after.background() == before.background(),
        after.published() == before.published(),
        after.engine().net() == before.engine().net(),
        after.engine()@.after(after.engine().net(), n) == (Machine {
            changed: after.engine()@.after(after.engine().net(), n).changed,
            ..before.engine()@.after(before.engine().net(), n)
        }),
{
    let net = before.engine().net();
    let m = before.engine()@;
    laws::law_snapshots_do_not_disturb(net, m, after.engine()@.changed, n);
    assert(after.engine()@ == (Machine { changed: after.engine()@.changed, ..m }));
}

/// A blocking run without a time limit runs all its ticks, unless it is on the calling thread and
/// the flag shows a request to stop.
pub proof fn law_blocking_run_completes(
    before: &Session,
    ticks: u64,
    threads: usize,
    stop: &AtomicBool,
    after: &Session,
    reply: Reply,
)
    requires
        before.background() is None,
        served(
            before,
            Command::RunBlocking { ticks, timeout: None, threads },
            stop,
            after,
            reply,
        ),
        reply is Ran,
    ensures
        after.engine()@ == before.engine()@.after(before.engine().net(), ticks as nat) || (threads
            <= 1 && loads(stop, true)),
{
}

/// A background run without a time limit ends with all its ticks run, unless the flag shows a
/// request to stop.
pub proof fn law_background_run_completes(
    before: &Session,
    b: Background,
    after: &Session,
    k: nat,
    progress: Progress,
    nanos: u128,
    stop: &AtomicBool,
)
    requires
        b.ok(),
        b.timeout is None,
        advanced(before, b, after, k, progress),
        stops_for_cause(b, k, progress, nanos, stop),
        progress.ended,
    ensures
        after.engine()@ == before.engine()@.after(
            before.engine().net(),
            (b.ticks - b.done) as nat,
        ) || loads(stop, true),
{
}

/// Two batches of a background run go as far as one run of their ticks.
pub proof fn law_batches_add_up(
    first: &Session,
    b: Background,
    middle: &Session,
    j: nat,
    last: &Session,
    k: nat,
    p: Progress,
    q: Progress,
)
    requires
        advanced(first, b, middle, j, p),
        middle.background() is Some,
        advanced(middle, middle.background()->0, last, k, q),
    ensures
        last.engine()@ == first.engine()@.after(first.engine().net(), j + k),
        last.background() matches Some(next) ==> next.done == b.done + j + k,
{
    laws::law_ticks_add_up(first.engine().net(), first.engine()@, j, k);
}

/// A tick command runs one tick, and the published tick is the one reached. Nothing else that is
/// published changes, and neither does a background run.
pub proof fn law_tick_command(before: &Session, stop: &AtomicBool, after: &Session, reply: Reply)
    requires
        served(before, Command::Tick, stop, after, reply),
    ensures
        reply is Done,
        after.engine()@ == before.engine()@.ticked(before.engine().net()),
        after.engine().net() == before.engine().net(),
        after.background() == before.background(),
        after.published().tick == after.engine()@.tick,
        after.published().state == before.published().state,
        after.published().parallel == before.published().parallel,
        after.published().link_count == before.published().link_count,
        after.published().component_count == before.published().component_count,
{
}

/// While a background run is under way every other run is refused, and nothing changes.
pub proof fn law_busy_session_refuses_runs(
    before: &Session,
    ticks: u64,
    timeout: Option<u128>,
    threads: usize,
    stop: &AtomicBool,
    after: &Session,
    reply: Reply,
)
    requires
        before.background() is Some,
        served(before, Command::RunBlocking { ticks, timeout, threads }, stop, after, reply)
            || served(before, Command::RunAsync { ticks, timeout, threads }, stop, after, reply),
    ensures
        reply is Refused,
        after.engine() == before.engine(),
        after.background() == before.background(),
        after.published() == before.published(),
{
}

/// A background run starts with none of its ticks run, none measured, and the limits it was given; the
/// simulation is as before and published as running. On one thread it always starts.
pub proof fn law_started_run(
    before: &Session,
    ticks: u64,
    timeout: Option<u128>,
    threads: usize,
    stop: &AtomicBool,
    after: &Session,
    reply: Reply,
)
    requires
        before.background() is None,
        served(before, Command::RunAsync { ticks, timeout, threads }, stop, after, reply),
    ensures
        threads <= 1 ==> reply is Started,
        after.engine() == before.engine(),
        reply is Started ==> {
            &&& lowered(stop)
            &&& after.background() matches Some(b) && {
                &&& b.done == 0
                &&& b.measured == 0
                &&& b.ticks == ticks
                &&& b.timeout == timeout
                &&& b.threaded == (threads > 1)
                &&& b.threshold == 2048
                &&& clock::reads(b.start)
            }
            &&& after.published().state == SimState::Running
            &&& after.published().tick == before.published().tick
            &&& after.published().parallel == before.published().parallel
            &&& after.published().link_count == before.published().link_count
            &&& after.published().component_count == before.published().component_count
        },
        !(reply is Started) ==> {
            &&& reply is Refused
            &&& after.background() is None
            &&& after.published() == before.published()
        },
{
}

/// Event 0 latches the pins of a user input and event 1 arms a pulse on them. Any other event, and any
/// component that is not a user input, is refused and changes nothing.
pub proof fn law_trigger_command(
    before: &Session,
    comp: u32,
    event: u8,
    values: Vec<bool>,
    stop: &AtomicBool,
    after: &Session,
    reply: Reply,
)
    requires
        served(before, Command::Trigger { comp, event, state: values }, stop, after, reply),
    ensures
        ({
            let net = before.engine().net();
            let m = before.engine()@;
            let input = comp < net.parts.len() && net.parts[comp as int].ty == CompType::UserInput;
            &&& reply is Done <==> input && event <= 1
            &&& reply is Refused <==> !(input && event <= 1)
            &&& input && event == 0 ==> after.engine()@ == m.latched(net, comp, values@)
            &&& input && event == 1 ==> after.engine()@ == m.armed(net, comp, values@)
            &&& !(input && event <= 1) ==> after.engine()@ == m
            &&& after.engine().net() == net
            &&& after.background() == before.background()
            &&& after.published() == before.published()
        }),
{
}

/// A link command is answered with the value of the link, an output command with a byte for each output
/// pin, and neither changes anything.
pub proof fn law_read_commands(
    before: &Session,
    id: u32,
    c: int,
    p: int,
    stop: &AtomicBool,
    after: &Session,
    reply: Reply,
)
    requires
        served(before, Command::Link { id }, stop, after, reply) || served(
            before,
            Command::Outputs,
            stop,
            after,
            reply,
        ),
        0 <= c < before.engine().net().parts.len(),
        0 <= p < before.engine().net().parts[c].outputs.len(),
    ensures
        ({
            let net = before.engine().net();
            let m = before.engine()@;
            let at = readout::driven_bytes(net, m.parts, c).len() + p;
            &&& served(before, Command::Link { id }, stop, after, reply) ==> (reply matches
                Reply::Value(v) && v == m.links[id as int])
            &&& served(before, Command::Outputs, stop, after, reply) ==> (reply matches
                Reply::Bytes(bytes) && at < bytes@.len() && bytes@[at as int] == if m.parts[c].outs[p]
                == net.parts[c].neg_outputs[p] {
                0u8
            } else {
                1u8
            })
            &&& after.engine() == before.engine()
            &&& after.background() == before.background()
            &&& after.published() == before.published()
        }),
{
    let net = before.engine().net();
    readout::law_outputs_follow_each_other(
        net,
        before.engine()@.parts,
        net.parts.len() as int,
        c,
        p,
    );
}

/// A snapshot that is copied out has the tick, and either the packed values of all links, or the changed
/// links, four bytes each with the lowest first, with their packed values.
pub proof fn law_snapshot_command(
    before: &Session,
    cfg: SnapshotConfig,
    stop: &AtomicBool,
    after: &Session,
    reply: Reply,
    i: int,
)
    requires
        served(before, Command::Snapshot { cfg }, stop, after, reply),
    ensures
        reply is Snapshot,
        after.background() == before.background(),
        after.published() == before.published(),
        ({
            let parts = reply->Snapshot_0;
            let m = before.engine()@;
            &&& parts.tick == m.tick
            &&& parts.is_delta ==> {
                &&& parts.links is None && parts.ids is Some && parts.values is Some
                &&& parts.values->0@ == after.engine().delta().1
                &&& parts.ids->0@.len() == 4 * after.engine().delta().0.len()
                &&& 0 <= i < after.engine().delta().0.len() ==> {
                    let b = parts.ids->0@;
                    b[4 * i] + 256 * b[4 * i + 1] + 65536 * b[4 * i + 2] + 16777216 * b[4 * i + 3]
                        == after.engine().delta().0[i]
                }
            }
            &&& !parts.is_delta ==> {
                &&& parts.links is Some && parts.ids is None && parts.values is None
                &&& 0 <= i < m.links.len() ==> {
                    let b = parts.links->0@;
                    &&& 8 * b.len() >= m.links.len() > 8 * (b.len() - 1)
                    &&& ((b[i / 8] as nat / power2::pow2((i % 8) as nat)) % 2 == 1) == m.links[i]
                }
            }
        }),
{
    let parts = reply->Snapshot_0;
    if parts.is_delta {
        codec::lemma_list_bytes(after.engine().delta().0);
    } else if 0 <= i < before.engine()@.links.len() {
        readout::law_values_are_packed(parts.links->0@, before.engine()@.links, i);
    }
}

/// A blocking run goes on for at most its ticks and leaves the session stopped, with the tick that it
/// reached and no background run. The speed it reports is that of its ticks in the time it took.
pub proof fn law_blocking_run(
    before: &Session,
    ticks: u64,
    k: nat,
    start: Instant,
    after: &Session,
    speed: Speed,
)
    requires
        ran(before, ticks, k, start, after, speed),
    ensures
        k <= ticks,
        after.engine()@ == before.engine()@.after(before.engine().net(), k),
        after.background() is None,
        after.published().state == SimState::Stopped,
        after.published().tick == after.engine()@.tick,
        after.published().parallel == after.engine().was_parallel(),
        after.published().link_count == before.published().link_count,
        after.published().component_count == before.published().component_count,
        !(speed is Keep),
        speed is Zero ==> clock::shows(start, 0),
        speed matches Speed::Rate { ticks: n, nanos } ==> n == k && nanos > 0 && clock::shows(
            start,
            nanos,
        ),
{
    machine::lemma_ticks_between(before.engine().net(), before.engine()@, k);
}

/// A batch is of 4096 ticks at most, and the run goes on exactly if it was of as many. The ticks are
/// added to those run before, the tick and the state are published, and the speed is that since the
/// batch before.
pub proof fn law_batch(
    before: &Session,
    b: Background,
    after: &Session,
    k: nat,
    progress: Progress,
)
    requires
        advanced(before, b, after, k, progress),
    ensures
        k <= 4096,
        b.done + k <= b.ticks,
        progress.ended <==> k < 4096,
        after.engine()@ == before.engine()@.after(before.engine().net(), k),
        after.published().tick == after.engine()@.tick,
        after.published().parallel == after.engine().was_parallel(),
        after.published().link_count == before.published().link_count,
        after.published().component_count == before.published().component_count,
        progress.ended ==> {
            &&& after.background() is None
            &&& after.published().state == SimState::Stopped
            &&& progress.speed is Zero
        },
        !progress.ended ==> {
            &&& after.published().state == SimState::Running
            &&& after.background() matches Some(next) && {
                &&& next.done == b.done + k
                &&& next.measured == next.done
                &&& next.ticks == b.ticks
                &&& next.timeout == b.timeout
                &&& next.start == b.start
                &&& next.threaded == b.threaded
                &&& next.threshold == b.threshold
            }
            &&& progress.speed matches Speed::Rate { ticks, nanos } ==> {
                &&& ticks == b.done + k - b.measured
                &&& nanos > 0
                &&& clock::shows(b.window, nanos)
            }
            &&& progress.speed is Keep ==> clock::shows(b.window, 0)
            &&& !(progress.speed is Zero)
        },
{
}

/// A batch that finds the time limit reached ends the run without a tick. Otherwise it ends the run only
/// when the ticks are used up or a load of the flag shows a request to stop, and ticks are run only after
/// a load that shows none.
pub proof fn law_batches_end_for_cause(
    b: Background,
    k: nat,
    progress: Progress,
    nanos: u128,
    stop: &AtomicBool,
)
    requires
        stops_for_cause(b, k, progress, nanos, stop),
    ensures
        clock::shows(b.start, nanos),
        b.timeout matches Some(n) ==> (nanos >= n ==> progress.ended && k == 0),
        progress.ended && (b.timeout is None || nanos < b.timeout->0) ==> b.done + k == b.ticks || loads(
            stop,
            true,
        ),
        k > 0 ==> loads(stop, false),
{
}

/// A blocking run on the calling thread ends before its ticks are used up only when a load of the flag shows
/// a request to stop, or the clock shows that its time is up.
pub proof fn law_blocking_runs_end_for_cause(
    before: &Simulation,
    ticks: u64,
    timeout: Option<u128>,
    k: nat,
    start: Instant,
    stop: &AtomicBool,
    after: &Simulation,
)
    requires
        kept_going(before, ticks, timeout, 1, k, start, stop, after),
        k < ticks,
    ensures
        loads(stop, true) || (timeout is Some && exists|nanos: u128|
            nanos >= timeout->0 && #[trigger] clock::shows(start, nanos)),
{
    let looks = choose|looks: Seq<u128>| #[trigger]
        clock::paced(timeout, start, looks, k, ticks, loads(stop, true));
    if !loads(stop, true) {
        assert(clock::shows(start, looks[k as int]));
    }
}

} // verus!
