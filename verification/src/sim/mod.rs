//! The simulation object: run state, construction, user input and accessors.

pub mod driver;
pub mod readout;
pub mod snapshot;
pub mod tick;

use vstd::prelude::*;
use web_time::Instant;
#[allow(unused_imports)]
use crate::behavior::{self, PartState};
use crate::bitset::BitSet;
use crate::board::{Board, BoardDescriptor};
use crate::clock::{self, Gauge};
use crate::components::{self, TickCtx};
use crate::error::SimError;
#[allow(unused_imports)]
use crate::machine::{self, Backlog, Machine, Pulse};
#[allow(unused_imports)]
use crate::netlist::{self, Netlist};
use crate::queue::{self, Queues};
#[allow(unused_imports)]
use crate::state::{self, RunState};
use crate::types::{CompType, InputEvent, SimState};

verus! {

/// How a run ends.
#[derive(Clone, Copy, Debug)]
pub struct RunConfig {
    /// Most ticks to run.
    pub ticks: u64,
    /// Wall-clock budget in nanoseconds.
    pub timeout: Option<u128>,
    /// Scheduled links, or components to evaluate, from which on a tick shares the work out.
    pub par_threshold: usize,
    /// Worker threads; one runs everything on the calling thread.
    pub threads: usize,
}

/// The threshold from which on a tick shares the work out, unless a configuration names another.
pub const PAR_THRESHOLD: usize = 2048;

impl Default for RunConfig {
    fn default() -> (r: Self)
        ensures
            r == (RunConfig {
                ticks: u64::MAX,
                timeout: None,
                par_threshold: PAR_THRESHOLD,
                threads: 1,
            }),
    {
        RunConfig { ticks: u64::MAX, timeout: None, par_threshold: PAR_THRESHOLD, threads: 1 }
    }
}

/// A summary of a simulation's status.
#[derive(Clone, Copy, Debug)]
pub struct Status {
    pub state: SimState,
    pub tick: u64,
    pub speed: u32,
    pub link_count: u32,
    pub component_count: u32,
    /// Whether the last tick shared its work out.
    pub parallel: bool,
}

/// A one-shot assertion of a user input.
pub struct UiPulse {
    pub comp: u32,
    pub state: Vec<bool>,
    /// Asserted by the coming section between ticks; once asserted, the next one releases it.
    pub pending: bool,
}

/// A simulation of one board.
pub struct Simulation {
    board: Board,
    /// Value of each link.
    link_state: BitSet,
    /// Outputs, driver counts and scratch.
    run: RunState,
    /// Links the coming read phase looks at.
    read_buf: Vec<u32>,
    /// Components to evaluate, by type; empty between ticks.
    queues: Queues,
    /// Whether a link is in `poll_ids`.
    poll_seen: BitSet,
    /// Links that flipped since the last snapshot.
    poll_ids: Vec<u32>,
    /// Links of the last delta snapshot.
    snap_ids: Vec<u32>,
    /// Values of the last delta snapshot, packed.
    snap_values: Vec<u8>,
    /// Whether a full snapshot has been given out.
    delta_baseline: bool,
    /// Pulses under way.
    ui_pending: Vec<UiPulse>,
    /// The clocks of the board.
    clk_ids: Vec<u32>,
    state: SimState,
    tick: u64,
    speed: u32,
    last_capture: Instant,
    last_capture_tick: u64,
    last_parallel: bool,
}

/// No component has two entries.
pub open spec fn distinct(v: Seq<UiPulse>) -> bool {
    forall|i: int, j: int|
        0 <= i < v.len() && 0 <= j < v.len() && #[trigger] v[i].comp == #[trigger] v[j].comp
            ==> i == j
}

/// The entry of component `c`.
pub open spec fn entry_of(v: Seq<UiPulse>, c: u32) -> int {
    choose|k: int| 0 <= k < v.len() && #[trigger] v[k].comp == c
}

/// The pulses a list of entries stands for.
pub open spec fn pulse_map(v: Seq<UiPulse>) -> Map<u32, Pulse> {
    Map::new(
        |c: u32| exists|k: int| 0 <= k < v.len() && #[trigger] v[k].comp == c,
        |c: u32|
            Pulse { state: v[entry_of(v, c)].state@, armed: v[entry_of(v, c)].pending },
    )
}

/// Each entry stands for its component's pulse.
pub proof fn lemma_pulse_entry(v: Seq<UiPulse>, k: int)
    requires
        distinct(v),
        0 <= k < v.len(),
    ensures
        pulse_map(v).dom().contains(v[k].comp),
        pulse_map(v)[v[k].comp] == (Pulse { state: v[k].state@, armed: v[k].pending }),
{
    let c = v[k].comp;
    assert(pulse_map(v).dom().contains(c));
    let e = entry_of(v, c);
    assert(v[e].comp == v[k].comp);
}

impl View for Simulation {
    type V = Machine;

    closed spec fn view(&self) -> Machine {
        Machine {
            links: self.link_state@,
            parts: self.run.states(&self.board),
            pulses: pulse_map(self.ui_pending@),
            reads: self.read_buf@.to_set(),
            writes: self.run.writes(),
            changed: self.poll_ids@.to_set(),
            tick: self.tick,
        }
    }
}

impl Simulation {
    /// The netlist being simulated.
    pub closed spec fn net(&self) -> Netlist {
        self.board@
    }

    /// Lifecycle state.
    pub closed spec fn lifecycle(&self) -> SimState {
        self.state
    }

    /// Whether a full snapshot has been given out.
    pub closed spec fn has_baseline(&self) -> bool {
        self.delta_baseline
    }

    /// The links and packed values of the last delta snapshot.
    pub closed spec fn delta(&self) -> (Seq<u32>, Seq<u8>) {
        (self.snap_ids@, self.snap_values@)
    }

    /// The measurement of the speed.
    pub closed spec fn gauge(&self) -> Gauge {
        Gauge { speed: self.speed, since: self.last_capture, tick: self.last_capture_tick }
    }

    /// Measured ticks per second.
    pub open spec fn measured(&self) -> u32 {
        self.gauge().speed
    }

    /// How many entries the schedules have, repeated links included.
    pub closed spec fn backlog(&self) -> Backlog {
        Backlog { due: self.read_buf@.len(), next: self.run.write_buf@.len() }
    }

    /// Whether the last tick shared its work out.
    pub closed spec fn was_parallel(&self) -> bool {
        self.last_parallel
    }

    /// The pulse entries belong to existing user inputs and have a value per output.
    spec fn pulses_ok(&self) -> bool {
        &&& distinct(self.ui_pending@)
        &&& forall|k: int|
            0 <= k < self.ui_pending@.len() ==> {
                &&& (#[trigger] self.ui_pending@[k]).comp < self.board.comp_count
                &&& self.board.comp_ty@[self.ui_pending@[k].comp as int] == CompType::UserInput
                &&& self.ui_pending@[k].state@.len() == self.board.part(
                    self.ui_pending@[k].comp as int,
                ).outputs.len()
            }
    }

    /// The flip record lists each link once.
    spec fn polls_ok(&self) -> bool {
        &&& self.poll_seen.wf()
        &&& self.poll_seen@.len() == self.board.link_count
        &&& self.poll_ids@.no_duplicates()
        &&& forall|l: u32| #[trigger]
            self.poll_ids@.contains(l) <==> l < self.board.link_count && self.poll_seen@[l as int]
    }

    /// The clock list holds each clock once.
    spec fn clocks_ok(&self) -> bool {
        &&& self.clk_ids@.no_duplicates()
        &&& forall|c: u32| #[trigger]
            self.clk_ids@.contains(c) <==> c < self.board.comp_count
                && self.board.comp_ty@[c as int] == CompType::Clk
    }

    /// Everything but the compute queues is consistent.
    spec fn mid_tick(&self) -> bool {
        &&& self.board.wf()
        &&& self.link_state.wf()
        &&& self.link_state@.len() == self.board.link_count
        &&& self.run.wf(&self.board)
        &&& self.run.sane(&self.board)
        &&& forall|i: int|
            0 <= i < self.read_buf@.len() ==> #[trigger] self.read_buf@[i] < self.board.link_count
        &&& self.pulses_ok()
        &&& self.polls_ok()
        &&& self.clocks_ok()
    }

    /// A simulation between ticks.
    pub closed spec fn wf(&self) -> bool {
        &&& self.mid_tick()
        &&& queue::drained(self.queues@)
    }
}

/// Moving one more component from its first state adds the links it moved.
proof fn lemma_moved_any_update(
    net: Netlist,
    s0: Seq<PartState>,
    cur: Seq<PartState>,
    c: int,
    next: PartState,
)
    requires
        0 <= c < net.parts.len(),
        cur.len() == net.parts.len(),
        cur[c].outs == s0[c].outs,
    ensures
        state::moved_any(net, s0, cur.update(c, next)) == state::moved_any(net, s0, cur).union(
            state::moved(net.parts[c], s0[c], next),
        ),
{
    let ext = cur.update(c, next);
    let before = state::moved_any(net, s0, cur);
    let after = state::moved_any(net, s0, ext);
    let m = state::moved(net.parts[c], s0[c], next);
    assert forall|l: u32| after.contains(l) <==> before.contains(l) || m.contains(l) by {
        if after.contains(l) {
            let k = choose|k: int|
                0 <= k < net.parts.len() && #[trigger] state::moved(
                    net.parts[k],
                    s0[k],
                    ext[k],
                ).contains(l);
            if k != c {
                assert(state::moved(net.parts[k], s0[k], cur[k]).contains(l));
            }
        }
        if before.contains(l) {
            let k = choose|k: int|
                0 <= k < net.parts.len() && #[trigger] state::moved(
                    net.parts[k],
                    s0[k],
                    cur[k],
                ).contains(l);
            assert(k != c);
            assert(state::moved(net.parts[k], s0[k], ext[k]).contains(l));
        }
        if m.contains(l) {
            assert(state::moved(net.parts[c], s0[c], ext[c]).contains(l));
        }
    }
    assert(after =~= before.union(m));
}

/// Where no output differs, no link moved.
proof fn lemma_moved_none(net: Netlist, a: Seq<PartState>, b: Seq<PartState>)
    requires
        forall|c: int| 0 <= c < net.parts.len() ==> (#[trigger] a[c]).outs == b[c].outs,
    ensures
        state::moved_any(net, a, b) == Set::<u32>::empty(),
{
    assert forall|l: u32| !state::moved_any(net, a, b).contains(l) by {
        if state::moved_any(net, a, b).contains(l) {
            let k = choose|k: int|
                0 <= k < net.parts.len() && #[trigger] state::moved(
                    net.parts[k],
                    a[k],
                    b[k],
                ).contains(l);
            assert(a[k].outs == b[k].outs);
        }
    }
    assert(state::moved_any(net, a, b) =~= Set::empty());
}

/// Power a board on: seed every component, then evaluate each once with every link low.
fn power_on(board: &Board, link_state: &BitSet) -> (run: RunState)
    requires
        board.wf(),
        link_state.wf(),
        link_state@ == behavior::all_low(board.link_count as nat),
    ensures
        run.wf(board),
        run.sane(board),
        run.states(board) == machine::start(board@).parts,
        run.writes() == machine::start(board@).reads,
        run.write_buf@.len() == machine::first_backlog(board@).due,
{
    let ghost net = board@;
    let n: u32 = board.comp_count;
    let mut run: RunState = RunState::new(board);
    let ghost zero = run.states(board);
    let ghost w0 = run.writes();
    let ghost n0 = run.write_buf@.len();
    proof {
        lemma_moved_none(net, machine::cleared(net), zero);
        state::lemma_flipped_none(net, machine::cleared(net), zero, net.parts.len() as int);
        assert(w0.union(state::moved_any(net, machine::cleared(net), zero)) =~= w0);
    }
    let mut c: u32 = 0;
    while c < n
        invariant
            c <= n,
            n == board.comp_count,
            board.wf(),
            net == board@,
            run.wf(board),
            forall|k: int|
                0 <= k < c ==> #[trigger] run.states(board)[k] == net.parts[k].seeded(),
            forall|k: int|
                c <= k < n ==> #[trigger] run.states(board)[k] == (PartState {
                    running: false,
                    ..net.parts[k].cleared()
                }),
            run.writes() == w0.union(
                state::moved_any(net, machine::cleared(net), run.states(board)),
            ),
            run.write_buf@.len() == n0 + state::flipped_all(
                net,
                machine::cleared(net),
                run.states(board),
            ),
        decreases n - c,
    {
        let ghost before = run;
        let ghost cur = run.states(board);
        proof {
            assert(net.parts[c as int].valid());
            assert(cur[c as int] == run.state(board, c as int));
        }
        components::dispatch_init(board.comp_ty[c as usize], c, board, &mut run);
        proof {
            let next = run.state(board, c as int);
            lemma_moved_any_update(net, machine::cleared(net), cur, c as int, next);
            state::lemma_flipped_update(
                net,
                machine::cleared(net),
                cur,
                c as int,
                next,
                net.parts.len() as int,
            );
            assert(state::moved(net.parts[c as int], cur[c as int], next) =~= state::moved(
                net.parts[c as int],
                machine::cleared(net)[c as int],
                next,
            ));
            assert(run.writes() =~= w0.union(
                state::moved_any(net, machine::cleared(net), run.states(board)),
            ));
        }
        c = c + 1;
    }
    let ghost w1 = run.writes();
    let ghost n1 = run.write_buf@.len();
    proof {
        assert(run.states(board) =~= machine::seeded(net));
        state::lemma_flipped_none(
            net,
            machine::seeded(net),
            run.states(board),
            net.parts.len() as int,
        );
        lemma_moved_none(net, machine::seeded(net), run.states(board));
        assert(w1.union(state::moved_any(net, machine::seeded(net), run.states(board))) =~= w1);
    }
    let ctx = TickCtx::new(board, link_state, 0);
    let mut c: u32 = 0;
    while c < n
        invariant
            c <= n,
            n == board.comp_count,
            board.wf(),
            net == board@,
            ctx.wf(),
            ctx.board == board,
            ctx.tick == 0,
            ctx.link_state@ == behavior::all_low(net.links),
            run.wf(board),
            forall|k: int|
                0 <= k < c ==> #[trigger] run.states(board)[k] == machine::powered_on(net)[k],
            forall|k: int|
                c <= k < n ==> #[trigger] run.states(board)[k] == net.parts[k].seeded(),
            run.writes() == w1.union(
                state::moved_any(net, machine::seeded(net), run.states(board)),
            ),
            run.write_buf@.len() == n1 + state::flipped_all(
                net,
                machine::seeded(net),
                run.states(board),
            ),
        decreases n - c,
    {
        let ghost cur = run.states(board);
        proof {
            assert(net.parts[c as int].valid());
            assert(cur[c as int] == run.state(board, c as int));
            behavior::lemma_power_on_sane(net.parts[c as int], c, net.links);
        }
        components::evaluate(board.comp_ty[c as usize], c, &ctx, &mut run);
        proof {
            let next = run.state(board, c as int);
            lemma_moved_any_update(net, machine::seeded(net), cur, c as int, next);
            state::lemma_flipped_update(
                net,
                machine::seeded(net),
                cur,
                c as int,
                next,
                net.parts.len() as int,
            );
            assert(run.writes() =~= w1.union(
                state::moved_any(net, machine::seeded(net), run.states(board)),
            ));
        }
        c = c + 1;
    }
    proof {
        assert(run.states(board) =~= machine::powered_on(net));
        assert forall|k: int| 0 <= k < board.comp_count implies board.part(k).sane(
            #[trigger] run.state(board, k),
        ) by {
            assert(net.parts[k].valid());
            behavior::lemma_power_on_sane(net.parts[k], k as u32, net.links);
            assert(run.states(board)[k] == machine::powered_on(net)[k]);
        }
        assert(run.writes() =~= machine::start(net).reads);
    }
    run
}

/// The clocks of a board.
fn clocks(board: &Board) -> (r: Vec<u32>)
    requires
        board.wf(),
    ensures
        r@.no_duplicates(),
        forall|c: u32| #[trigger]
            r@.contains(c) <==> c < board.comp_count && board.comp_ty@[c as int] == CompType::Clk,
{
    let mut r: Vec<u32> = Vec::new();
    let mut c: u32 = 0;
    while c < board.comp_count
        invariant
            c <= board.comp_count,
            board.wf(),
            r@.no_duplicates(),
            forall|k: u32| #[trigger]
                r@.contains(k) <==> k < c && board.comp_ty@[k as int] == CompType::Clk,
        decreases board.comp_count - c,
    {
        if board.comp_ty[c as usize] == CompType::Clk {
            let ghost before = r@;
            assert(!before.contains(c));
            r.push(c);
            proof {
                assert forall|k: u32| #[trigger] r@.contains(k) <==> before.contains(k) || k == c by {
                    if before.contains(k) {
                        let i = choose|i: int| 0 <= i < before.len() && before[i] == k;
                        assert(r@[i] == k);
                    }
                    assert(r@[before.len() as int] == c);
                }
            }
        }
        c = c + 1;
    }
    r
}

impl Simulation {
    /// Build a simulation of a compiled board at power-on.
    pub fn new(board: Board) -> (r: Result<Self, SimError>)
        requires
            board.wf(),
        ensures
            r is Ok,
            r->Ok_0.wf(),
            r->Ok_0.net() == board@,
            r->Ok_0@ == machine::start(board@),
            r->Ok_0.lifecycle() == SimState::Stopped,
            r->Ok_0.backlog() == machine::first_backlog(board@),
            !r->Ok_0.has_baseline(),
            r->Ok_0.delta() == (Seq::<u32>::empty(), Seq::<u8>::empty()),
            !r->Ok_0.was_parallel(),
            r->Ok_0.measured() == 0,
            r->Ok_0.gauge().tick == 0,
            clock::reads(r->Ok_0.gauge().since),
    {
        let link_state: BitSet = BitSet::new(board.link_count);
        let poll_seen: BitSet = BitSet::new(board.link_count);
        let clk_ids: Vec<u32> = clocks(&board);
        let mut run: RunState = power_on(&board, &link_state);
        let mut read_buf: Vec<u32> = Vec::new();
        let ghost powered = run;
        std::mem::swap(&mut read_buf, &mut run.write_buf);
        proof {
            lemma_same_states(&board, &powered, &run);
            assert(run.writes() =~= Set::empty());
            let empty: Seq<u32> = Seq::empty();
            assert(empty.to_set() =~= Set::empty());
        }
        let sim = Simulation {
            board,
            link_state,
            run,
            read_buf,
            queues: Queues::new(),
            poll_seen,
            poll_ids: Vec::new(),
            snap_ids: Vec::new(),
            snap_values: Vec::new(),
            delta_baseline: false,
            ui_pending: Vec::new(),
            clk_ids,
            state: SimState::Stopped,
            tick: 0,
            speed: 0,
            last_capture: clock::current(),
            last_capture_tick: 0,
            last_parallel: false,
        };
        proof {
            assert(sim@.pulses =~= Map::empty());
            assert(sim@.changed =~= Set::empty());
            assert(sim@ =~= machine::start(sim.board@));
            assert(sim.delta().0 =~= Seq::empty() && sim.delta().1 =~= Seq::empty());
        }
        Ok(sim)
    }

    /// Compile a board description and build a simulation of it.
    pub fn from_descriptor(desc: &BoardDescriptor) -> (r: Result<Self, SimError>)
        requires
            desc@.fits(),
        ensures
            r is Ok <==> desc@.fault() is None,
            r is Err ==> desc@.fault() == Some(r->Err_0),
            r is Ok ==> {
                &&& r->Ok_0.wf()
                &&& r->Ok_0.net() == desc@.netlist()
                &&& r->Ok_0@ == machine::start(desc@.netlist())
                &&& r->Ok_0.lifecycle() == SimState::Stopped
                &&& r->Ok_0.backlog() == machine::first_backlog(desc@.netlist())
                &&& !r->Ok_0.has_baseline()
                &&& r->Ok_0.delta() == (Seq::<u32>::empty(), Seq::<u8>::empty())
                &&& !r->Ok_0.was_parallel()
                &&& r->Ok_0.measured() == 0
                &&& r->Ok_0.gauge().tick == 0
                &&& clock::reads(r->Ok_0.gauge().since)
            },
    {
        match Board::compile(desc) {
            Ok(board) => Simulation::new(board),
            Err(e) => Err(e),
        }
    }
}

impl Simulation {
    /// The state of every simulation is one of its board, which is a sound one.
    pub proof fn law_state_is_valid(&self)
        requires
            self.wf(),
        ensures
            self.net().valid(),
            self@.valid(self.net()),
            self.net().links <= u32::MAX,
            self.net().parts.len() <= u32::MAX,
    {
        let net = self.net();
        let m = self@;
        assert forall|c: int| 0 <= c < net.parts.len() implies net.parts[c].sane(
            #[trigger] m.parts[c],
        ) by {
            assert(m.parts[c] == self.run.state(&self.board, c));
        }
        assert forall|c: u32| #[trigger] m.pulses.dom().contains(c) implies {
            &&& c < net.parts.len()
            &&& net.parts[c as int].ty == CompType::UserInput
            &&& m.pulses[c].state.len() == net.parts[c as int].outputs.len()
        } by {
            let k = choose|k: int|
                0 <= k < self.ui_pending@.len() && #[trigger] self.ui_pending@[k].comp == c;
            lemma_pulse_entry(self.ui_pending@, k);
        }
        assert forall|l: u32| #[trigger] m.reads.contains(l) implies l < net.links by {
            assert(self.read_buf@.contains(l));
        }
        assert forall|l: u32| #[trigger] m.changed.contains(l) implies l < net.links by {
            assert(self.poll_ids@.contains(l));
        }
    }
}

/// A list of values, cut or filled up with low ones to length `n`.
fn pad(values: &[bool], n: u32) -> (r: Vec<bool>)
    ensures
        r@ == machine::padded(values@, n as nat),
{
    let mut r: Vec<bool> = Vec::new();
    let mut p: u32 = 0;
    while p < n
        invariant
            p <= n,
            r@.len() == p,
            forall|k: int| 0 <= k < p ==> #[trigger] r@[k] == (k < values@.len() && values@[k]),
        decreases n - p,
    {
        r.push((p as u64) < values.len() as u64 && values[p as usize]);
        p = p + 1;
    }
    assert(r@ =~= machine::padded(values@, n as nat));
    r
}

/// Replacing a component's entry replaces its pulse.
proof fn lemma_pulse_replaced(v: Seq<UiPulse>, i: int, e: UiPulse)
    requires
        distinct(v),
        0 <= i < v.len(),
        e.comp == v[i].comp,
    ensures
        distinct(v.update(i, e)),
        pulse_map(v.update(i, e)) == pulse_map(v).insert(
            e.comp,
            Pulse { state: e.state@, armed: e.pending },
        ),
{
    let w = v.update(i, e);
    let a = pulse_map(w);
    let b = pulse_map(v).insert(e.comp, Pulse { state: e.state@, armed: e.pending });
    assert forall|j: int, k: int|
        0 <= j < w.len() && 0 <= k < w.len() && #[trigger] w[j].comp == #[trigger] w[k].comp implies j
        == k by {
        assert(v[j].comp == w[j].comp);
        assert(v[k].comp == w[k].comp);
    }
    lemma_pulse_entry(w, i);
    assert forall|c: u32| a.dom().contains(c) <==> b.dom().contains(c) by {
        if a.dom().contains(c) {
            let k = choose|k: int| 0 <= k < w.len() && #[trigger] w[k].comp == c;
            assert(v[k].comp == c);
        }
        if pulse_map(v).dom().contains(c) {
            let k = choose|k: int| 0 <= k < v.len() && #[trigger] v[k].comp == c;
            assert(w[k].comp == c);
        }
    }
    assert forall|c: u32| a.dom().contains(c) implies a[c] == b[c] by {
        let k = choose|k: int| 0 <= k < w.len() && #[trigger] w[k].comp == c;
        lemma_pulse_entry(w, k);
        lemma_pulse_entry(v, k);
    }
    assert(a =~= b);
}

/// A new component's entry adds its pulse.
proof fn lemma_pulse_added(v: Seq<UiPulse>, e: UiPulse)
    requires
        distinct(v),
        forall|k: int| 0 <= k < v.len() ==> #[trigger] v[k].comp != e.comp,
    ensures
        distinct(v.push(e)),
        pulse_map(v.push(e)) == pulse_map(v).insert(
            e.comp,
            Pulse { state: e.state@, armed: e.pending },
        ),
{
    let w = v.push(e);
    let a = pulse_map(w);
    let b = pulse_map(v).insert(e.comp, Pulse { state: e.state@, armed: e.pending });
    assert forall|j: int, k: int|
        0 <= j < w.len() && 0 <= k < w.len() && #[trigger] w[j].comp == #[trigger] w[k].comp implies j
        == k by {
        if j < v.len() {
            assert(v[j].comp == w[j].comp);
        }
        if k < v.len() {
            assert(v[k].comp == w[k].comp);
        }
    }
    lemma_pulse_entry(w, v.len() as int);
    assert forall|c: u32| a.dom().contains(c) <==> b.dom().contains(c) by {
        if a.dom().contains(c) {
            let k = choose|k: int| 0 <= k < w.len() && #[trigger] w[k].comp == c;
            if k < v.len() {
                assert(v[k].comp == c);
            }
        }
        if pulse_map(v).dom().contains(c) {
            let k = choose|k: int| 0 <= k < v.len() && #[trigger] v[k].comp == c;
            assert(w[k].comp == c);
        }
    }
    assert forall|c: u32| a.dom().contains(c) implies a[c] == b[c] by {
        let k = choose|k: int| 0 <= k < w.len() && #[trigger] w[k].comp == c;
        lemma_pulse_entry(w, k);
        if k < v.len() {
            lemma_pulse_entry(v, k);
        }
    }
    assert(a =~= b);
}

/// What a simulation's state adds to the model is as before.
pub open spec fn same_status(a: &Simulation, b: &Simulation) -> bool {
    &&& b.net() == a.net()
    &&& b.lifecycle() == a.lifecycle()
    &&& b.has_baseline() == a.has_baseline()
    &&& b.delta() == a.delta()
    &&& b.gauge() == a.gauge()
    &&& b.was_parallel() == a.was_parallel()
}

impl Simulation {
    /// Apply external input to user input `comp_id`.
    ///
    /// `Cont` latches the outputs at once; `Pulse` arms an assertion of one tick. Outputs beyond
    /// the given values go low. A component that is not a user input is an error and changes
    /// nothing.
    pub fn trigger_input(&mut self, comp_id: u32, event: InputEvent, state: &[bool]) -> (r: Result<
        (),
        SimError,
    >)
        requires
            old(self).wf(),
        ensures
            final(self).wf(),
            same_status(old(self), final(self)),
            final(self).backlog() == (Backlog {
                next: old(self).backlog().next + state::flipped_all(
                    old(self).net(),
                    old(self)@.parts,
                    final(self)@.parts,
                ),
                ..old(self).backlog()
            }),
            r is Ok <==> old(self)@.is_input(old(self).net(), comp_id),
            r is Err ==> r->Err_0 == SimError::NotAnInput(comp_id) && final(self)@ == old(self)@,
            r is Ok && event == InputEvent::Cont ==> final(self)@ == old(self)@.latched(
                old(self).net(),
                comp_id,
                state@,
            ),
            r is Ok && event == InputEvent::Pulse ==> final(self)@ == old(self)@.armed(
                old(self).net(),
                comp_id,
                state@,
            ),
    {
        let ghost net = self.net();
        proof {
            state::lemma_flipped_none(net, self@.parts, self@.parts, net.parts.len() as int);
        }
        if comp_id >= self.board.comp_count || self.board.comp_ty[comp_id as usize]
            != CompType::UserInput {
            return Err(SimError::NotAnInput(comp_id));
        }
        let ids = self.board.output_ids(comp_id);
        let vals: Vec<bool> = pad(state, ids.end - ids.start);
        match event {
            InputEvent::Cont => {
                self.set_outputs(comp_id, &vals, true);
                proof {
                    let c = comp_id as int;
                    let st = old(self).run.state(&self.board, c);
                    assert(self.run.state(&self.board, c).outs =~= vals@);
                    assert(self.run.state(&self.board, c) =~= st.with_outs(vals@));
                    assert(old(self)@.parts[c] == st);
                    assert(self@ =~= old(self)@.latched(old(self).net(), comp_id, state@));
                    state::lemma_flipped_update(
                        net,
                        old(self)@.parts,
                        old(self)@.parts,
                        c,
                        st.with_outs(vals@),
                        net.parts.len() as int,
                    );
                }
            },
            InputEvent::Pulse => {
                let n: usize = self.ui_pending.len();
                let mut k: usize = 0;
                while k < n && self.ui_pending[k].comp != comp_id
                    invariant
                        k <= n,
                        n == self.ui_pending@.len(),
                        forall|j: int|
                            0 <= j < k ==> #[trigger] self.ui_pending@[j].comp != comp_id,
                    decreases n - k,
                {
                    k = k + 1;
                }
                let entry = UiPulse { comp: comp_id, state: vals, pending: true };
                let ghost e = entry;
                if k < n {
                    proof {
                        lemma_pulse_replaced(self.ui_pending@, k as int, e);
                    }
                    self.ui_pending[k] = entry;
                } else {
                    proof {
                        lemma_pulse_added(self.ui_pending@, e);
                    }
                    self.ui_pending.push(entry);
                }
                proof {
                    assert(self@ =~= old(self)@.armed(old(self).net(), comp_id, state@));
                }
            },
        }
        Ok(())
    }

    /// A summary of the status.
    pub fn status(&self) -> (r: Status)
        requires
            self.wf(),
        ensures
            r == (Status {
                state: self.lifecycle(),
                tick: self@.tick,
                speed: self.measured(),
                link_count: self.net().links as u32,
                component_count: self.net().parts.len() as u32,
                parallel: self.was_parallel(),
            }),
            r.link_count == self.net().links,
            r.component_count == self.net().parts.len(),
    {
        Status {
            state: self.state,
            tick: self.tick,
            speed: self.speed,
            link_count: self.board.link_count,
            component_count: self.board.comp_count,
            parallel: self.last_parallel,
        }
    }

    /// Lifecycle state.
    pub fn state(&self) -> (r: SimState)
        ensures
            r == self.lifecycle(),
    {
        self.state
    }

    /// Ticks elapsed.
    pub fn tick_count(&self) -> (r: u64)
        ensures
            r == self@.tick,
    {
        self.tick
    }

    /// Value of a link.
    pub fn link(&self, id: u32) -> (r: bool)
        requires
            self.wf(),
            id < self.net().links,
        ensures
            r == self@.links[id as int],
    {
        self.link_state.get(id)
    }

    /// Ask a running simulation to stop at the next tick boundary.
    pub fn stop(&mut self)
        requires
            old(self).wf(),
        ensures
            final(self).wf(),
            final(self)@ == old(self)@,
            final(self).net() == old(self).net(),
            final(self).backlog() == old(self).backlog(),
            final(self).lifecycle() == (if old(self).lifecycle() == SimState::Running {
                SimState::Stopping
            } else {
                old(self).lifecycle()
            }),
            final(self).has_baseline() == old(self).has_baseline(),
            final(self).delta() == old(self).delta(),
            final(self).gauge() == old(self).gauge(),
            final(self).was_parallel() == old(self).was_parallel(),
    {
        if self.state == SimState::Running {
            self.state = SimState::Stopping;
        }
    }
}

/// The component states do not depend on what is scheduled.
proof fn lemma_same_states(board: &Board, a: &RunState, b: &RunState)
    requires
        b.output_state == a.output_state,
        b.scratch == a.scratch,
        b.clk_count == a.clk_count,
    ensures
        b.states(board) == a.states(board),
        forall|c: int| #[trigger] b.state(board, c) == a.state(board, c),
{
    assert forall|c: int| #[trigger] b.state(board, c) == a.state(board, c) by {
        assert(b.mem(board, c) =~= a.mem(board, c));
    }
    assert(b.states(board) =~= a.states(board));
}

} // verus!
