//! Running ticks with the work shared out over a thread pool.
//!
//! A phase is shared out only where it has enough to do. The workers only look: the read workers
//! find the links that flip, the compute workers evaluate their components on a private copy of the
//! state. What they find is then put into effect on the calling thread, so a tick comes out the same
//! however many threads take part.

use vstd::prelude::*;
use rayon::ThreadPool;
use web_time::Instant;
#[allow(unused_imports)]
use crate::behavior::{self, PartState};
use crate::bitset::BitSet;
use crate::board::Board;
#[allow(unused_imports)]
use crate::clock::{self, Gauge, Look};
use crate::components::{self, TickCtx, N_TYPES};
use crate::error::SimError;
#[allow(unused_imports)]
use crate::machine::{self, Machine, CHECK_EVERY};
use crate::pool;
#[allow(unused_imports)]
use crate::queue;
#[allow(unused_imports)]
use crate::sim::tick;
#[allow(unused_imports)]
use crate::sim::{self, RunConfig, Simulation};
#[allow(unused_imports)]
use crate::state::{self, RunState};
use crate::types::{CompType, SimState};

verus! {

/// Link `l` does not show the wired OR of its drivers.
spec fn stale(link_state: &BitSet, run: &RunState, l: u32) -> bool {
    (run.driver_count@[l as int] != 0) != link_state@[l as int]
}

/// The links among `links` that are to flip.
fn find_flips(links: &[u32], link_state: &BitSet, run: &RunState) -> (r: Vec<u32>)
    requires
        link_state.wf(),
        run.driver_count@.len() == link_state@.len(),
        forall|i: int| 0 <= i < links@.len() ==> #[trigger] links@[i] < link_state@.len(),
    ensures
        forall|l: u32| #[trigger]
            r@.contains(l) <==> links@.contains(l) && stale(link_state, run, l),
{
    let mut r: Vec<u32> = Vec::new();
    let n: usize = links.len();
    let mut i: usize = 0;
    while i < n
        invariant
            i <= n,
            n == links@.len(),
            link_state.wf(),
            run.driver_count@.len() == link_state@.len(),
            forall|k: int| 0 <= k < links@.len() ==> #[trigger] links@[k] < link_state@.len(),
            forall|l: u32| #[trigger]
                r@.contains(l) <==> links@.subrange(0, i as int).contains(l) && stale(
                    link_state,
                    run,
                    l,
                ),
        decreases n - i,
    {
        let l: u32 = links[i];
        let ghost head = links@.subrange(0, i as int);
        let ghost before = r@;
        let v: bool = run.driver_count[l as usize] != 0;
        if v != link_state.get(l) {
            r.push(l);
        }
        proof {
            assert(links@.subrange(0, i + 1) =~= head.push(l));
            lemma_contains_push(head, l);
            lemma_contains_push(before, l);
        }
        i = i + 1;
    }
    assert(links@.subrange(0, n as int) =~= links@);
    r
}

/// What a pushed list contains.
proof fn lemma_contains_push(s: Seq<u32>, v: u32)
    ensures
        forall|x: u32| #[trigger] s.push(v).contains(x) <==> s.contains(x) || x == v,
{
    let t = s.push(v);
    assert forall|x: u32| #[trigger] t.contains(x) <==> s.contains(x) || x == v by {
        if s.contains(x) {
            let i = choose|i: int| 0 <= i < s.len() && s[i] == x;
            assert(t[i] == x);
        }
        assert(t[s.len() as int] == v);
    }
}

/// Every item lies in one of the stretches.
proof fn lemma_in_chunk<T>(items: Seq<T>, size: nat, k: int) -> (i: int)
    requires
        size > 0,
        0 <= k < items.len(),
    ensures
        0 <= i < pool::chunk_count(items.len(), size),
        i * size <= k,
        k < i * size + pool::nth_chunk(items, size, i).len(),
        pool::nth_chunk(items, size, i)[k - i * size] == items[k],
{
    let i = k / size as int;
    assert(i * size <= k < (i + 1) * size) by (nonlinear_arith)
        requires
            size > 0,
            i == k / size as int,
            k >= 0,
    ;
    assert(0 <= i < pool::chunk_count(items.len(), size)) by (nonlinear_arith)
        requires
            size > 0,
            i == k / size as int,
            0 <= k < items.len(),
            pool::chunk_count(items.len(), size) == (items.len() + size - 1) as nat / size,
    ;
    i
}

/// A stretch lies within the items.
proof fn lemma_chunk_bounds<T>(items: Seq<T>, size: nat, i: int)
    requires
        size > 0,
        0 <= i < pool::chunk_count(items.len(), size),
    ensures
        0 <= i * size < items.len(),
        pool::nth_chunk(items, size, i).len() <= items.len() - i * size,
        forall|j: int|
            0 <= j < pool::nth_chunk(items, size, i).len() ==> #[trigger] pool::nth_chunk(
                items,
                size,
                i,
            )[j] == items[i * size + j],
{
    assert(0 <= i * size < items.len()) by (nonlinear_arith)
        requires
            size > 0,
            0 <= i < pool::chunk_count(items.len(), size),
            pool::chunk_count(items.len(), size) == (items.len() + size - 1) as nat / size,
    ;
    assert((i + 1) * size > i * size) by (nonlinear_arith)
        requires
            size > 0,
    ;
}

/// Length of the stretches that give each of `threads` threads at most one.
fn chunk_size(len: usize, threads: usize) -> (r: usize)
    ensures
        r > 0,
        threads > 0 && len > 0 ==> r == pool::chunk_count(len as nat, threads as nat),
{
    if len == 0 || threads == 0 {
        return 1;
    }
    let q: usize = len / threads;
    let rem: usize = len % threads;
    proof {
        assert(len == q * threads + rem && rem < threads) by (nonlinear_arith)
            requires
                threads > 0,
                q == len / threads,
                rem == len % threads,
        ;
        assert((len + threads - 1) / threads as int == q + (if rem > 0 {
            1int
        } else {
            0int
        })) by (nonlinear_arith)
            requires
                len == q * threads + rem,
                0 <= rem < threads,
        ;
        assert(rem > 0 ==> q < len) by (nonlinear_arith)
            requires
                len == q * threads + rem,
                threads > 0,
        ;
        assert(rem == 0 ==> q > 0) by (nonlinear_arith)
            requires
                len == q * threads + rem,
                len > 0,
        ;
    }
    if rem > 0 {
        q + 1
    } else {
        q
    }
}

impl Simulation {
    /// Read phase with the scheduled links shared out: the workers find the links that flip, which
    /// are then read here.
    fn read_phase_par(&mut self, workers: &ThreadPool)
        requires
            old(self).wf(),
        ensures
            final(self).read_upto(old(self), old(self)@.reads),
    {
        let size: usize = chunk_size(self.read_buf.len(), pool::pool_size(workers));
        let ghost items = self.read_buf@;
        let link_state = &self.link_state;
        let run = &self.run;
        let look = |links: &[u32]| -> (r: Vec<u32>)
            requires
                forall|i: int| 0 <= i < links@.len() ==> #[trigger] links@[i] < link_state@.len(),
            ensures
                forall|l: u32| #[trigger]
                    r@.contains(l) <==> links@.contains(l) && stale(link_state, run, l),
            {
                find_flips(links, link_state, run)
            };
        proof {
            assert forall|i: int, s: &[u32]|
                0 <= i < pool::chunk_count(items.len(), size as nat) && s@
                    == #[trigger] pool::nth_chunk(items, size as nat, i) implies #[trigger] call_requires(
                look,
                (s,),
            ) by {
                lemma_chunk_bounds(items, size as nat, i);
            }
        }
        let found: Vec<Vec<u32>> = pool::map_chunks(workers, self.read_buf.as_slice(), size, look);
        proof {
            assert forall|i: int, l: u32| 0 <= i < found@.len() implies (#[trigger] found@[i]@.contains(l)
                ==> items.contains(l)) by {
                let s = choose|s: &[u32]|
                    s@ == pool::nth_chunk(items, size as nat, i) && #[trigger] call_ensures(
                        look,
                        (s,),
                        found@[i],
                    );
                if found@[i]@.contains(l) {
                    assert(s@.contains(l));
                    let j = choose|j: int| 0 <= j < s@.len() && s@[j] == l;
                    lemma_chunk_bounds(items, size as nat, i);
                    assert(items[i * size + j] == l);
                }
            }
            assert forall|l: u32| items.contains(l) && #[trigger] stale(link_state, run, l) implies found_upto(
                found@,
                found@.len() as int,
            ).contains(l) by {
                let k = choose|k: int| 0 <= k < items.len() && items[k] == l;
                let i = lemma_in_chunk(items, size as nat, k);
                let s = choose|s: &[u32]|
                    s@ == pool::nth_chunk(items, size as nat, i) && #[trigger] call_ensures(
                        look,
                        (s,),
                        found@[i],
                    );
                assert(s@[k - i * size] == l);
                assert(s@.contains(l));
                assert(found@[i]@.contains(l));
            }
            self.lemma_nothing_read();
            assert(found_upto(found@, 0) =~= Set::empty());
        }
        let n: usize = found.len();
        let mut i: usize = 0;
        while i < n
            invariant
                i <= n,
                n == found@.len(),
                old(self).wf(),
                items == old(self).read_buf@,
                forall|k: int, l: u32|
                    0 <= k < found@.len() ==> (#[trigger] found@[k]@.contains(l) ==> items.contains(
                        l,
                    )),
                self.read_upto(old(self), found_upto(found@, i as int)),
            decreases n - i,
        {
            self.read_found(&found[i], Ghost(*old(self)), Ghost(found_upto(found@, i as int)));
            assert(found_upto(found@, i + 1) =~= found_upto(found@, i as int).union(
                found@[i as int]@.to_set(),
            ));
            i = i + 1;
        }
        proof {
            let seen = found_upto(found@, n as int);
            let before = old(self);
            let net = before.board@;
            assert((Machine { reads: seen, ..before@ }).visible(net) =~= before@.visible(net)) by {
                assert forall|l: u32| l < before.board.link_count && before@.reads.contains(l)
                    && !seen.contains(l) implies before@.links[l as int] == state::powered(
                    net,
                    before@.parts,
                    l,
                ) by {
                    state::law_count_is_wired_or(&before.board, &before.run, l);
                    assert(items.contains(l));
                    assert(!stale(&before.link_state, &before.run, l));
                }
                assert forall|l: u32| seen.contains(l) implies before@.reads.contains(l) by {
                    let k = choose|k: int|
                        0 <= k < n && k < found@.len() && #[trigger] found@[k]@.contains(l);
                    assert(items.contains(l));
                }
            }
            assert((Machine { reads: before@.reads, ..before@ }) == before@);
        }
    }

    /// Read the links a worker found.
    fn read_found(
        &mut self,
        links: &Vec<u32>,
        Ghost(before): Ghost<Simulation>,
        Ghost(seen): Ghost<Set<u32>>,
    )
        requires
            before.wf(),
            forall|l: u32| #[trigger] links@.contains(l) ==> before.read_buf@.contains(l),
            old(self).read_upto(&before, seen),
        ensures
            final(self).read_upto(&before, seen.union(links@.to_set())),
    {
        let n: usize = links.len();
        assert(seen.union(links@.subrange(0, 0).to_set()) =~= seen);
        let mut i: usize = 0;
        while i < n
            invariant
                i <= n,
                n == links@.len(),
                before.wf(),
                forall|l: u32| #[trigger] links@.contains(l) ==> before.read_buf@.contains(l),
                self.read_upto(&before, seen.union(links@.subrange(0, i as int).to_set())),
            decreases n - i,
        {
            let l: u32 = links[i];
            let ghost head = links@.subrange(0, i as int);
            proof {
                assert(links@.contains(l));
                let k = choose|k: int| 0 <= k < before.read_buf@.len() && before.read_buf@[k] == l;
                assert(before.read_buf@[k] < before.board.link_count);
                assert(links@.subrange(0, i + 1) =~= head.push(l));
                state::lemma_push_to_set(head, l);
                assert(seen.union(head.to_set()).insert(l) =~= seen.union(
                    links@.subrange(0, i + 1).to_set(),
                ));
            }
            self.read_link(l, Ghost(before), Ghost(seen.union(head.to_set())));
            i = i + 1;
        }
        assert(links@.subrange(0, n as int) =~= links@);
    }
}

/// The links in the first `n` lists.
spec fn found_upto(found: Seq<Vec<u32>>, n: int) -> Set<u32> {
    Set::new(|l: u32| exists|k: int| 0 <= k < n && k < found.len() && #[trigger] found[k]@.contains(l))
}

/// What an evaluation left a component with, but for what only a RAM or the section between ticks
/// changes.
struct Outcome {
    outs: Vec<bool>,
    sel: u32,
    edge: bool,
    running: bool,
}

/// The outcome is that of state `st`.
spec fn shows(o: Outcome, st: PartState) -> bool {
    &&& o.outs@ == st.outs
    &&& o.sel == st.sel
    &&& o.edge == st.edge
    &&& o.running == st.running
}

/// The state of component `c`.
fn outcome(run: &RunState, board: &Board, c: u32) -> (r: Outcome)
    requires
        board.wf(),
        run.wf(board),
        c < board.comp_count,
    ensures
        shows(r, run.state(board, c as int)),
{
    let ids = board.output_ids(c);
    let n: u32 = ids.end - ids.start;
    proof {
        let off = board.comp_out_off@;
        assert(off[c as int] <= off[c + 1] <= off[board.comp_count as int]);
    }
    let mut outs: Vec<bool> = Vec::new();
    let mut p: u32 = 0;
    while p < n
        invariant
            p <= n,
            board.wf(),
            run.wf(board),
            c < board.comp_count,
            n == board.part(c as int).outputs.len(),
            outs@.len() == p,
            forall|k: int|
                0 <= k < p ==> #[trigger] outs@[k] == run.state(board, c as int).outs[k],
        decreases n - p,
    {
        outs.push(run.output(board, c, p));
        p = p + 1;
    }
    assert(outs@ =~= run.state(board, c as int).outs);
    Outcome {
        outs,
        sel: run.scratch.sel(c),
        edge: run.scratch.edge_prev(c),
        running: run.scratch.clk_subscribed(c),
    }
}

/// The outcomes are those of evaluating the listed components in `run`.
spec fn outcomes_of(
    ctx: &TickCtx,
    run: &RunState,
    comps: Seq<u32>,
    r: Seq<Outcome>,
) -> bool {
    &&& r.len() == comps.len()
    &&& forall|i: int|
        0 <= i < comps.len() ==> shows(
            #[trigger] r[i],
            ctx.next(comps[i], run.state(ctx.board, comps[i] as int)),
        )
}

/// Evaluate the listed components of type `ty` on a copy of the state.
fn compute_chunk(ty: CompType, comps: &[u32], ctx: &TickCtx, run: &RunState) -> (r: Vec<Outcome>)
    requires
        ctx.wf(),
        run.wf(ctx.board),
        run.sane(ctx.board),
        forall|i: int|
            0 <= i < comps@.len() ==> #[trigger] comps@[i] < ctx.board.comp_count
                && ctx.board.comp_ty@[comps@[i] as int] == ty,
    ensures
        outcomes_of(ctx, run, comps@, r@),
{
    let mut mine: RunState = run.fork(ctx.board);
    let ghost s0 = run.states(ctx.board);
    proof {
        assert forall|k: int| 0 <= k < ctx.board.comp_count implies ctx.board.part(k).sane(
            #[trigger] s0[k],
        ) by {
            assert(s0[k] == run.state(ctx.board, k));
        }
        assert forall|k: int| 0 <= k < ctx.board.comp_count implies ctx.board.part(k).sane(
            #[trigger] mine.state(ctx.board, k),
        ) by {
            assert(run.state(ctx.board, k) == mine.state(ctx.board, k));
        }
        components::lemma_nothing_computed(ctx, &mine);
    }
    components::dispatch_compute(
        ty,
        comps,
        ctx,
        &mut mine,
        Ghost(Set::empty()),
        Ghost(s0),
        Ghost(Seq::empty()),
    );
    let n: usize = comps.len();
    let mut r: Vec<Outcome> = Vec::new();
    let mut i: usize = 0;
    while i < n
        invariant
            i <= n,
            n == comps@.len(),
            ctx.wf(),
            mine.wf(ctx.board),
            s0 == run.states(ctx.board),
            mine.states(ctx.board) == components::stepped(
                ctx,
                Set::<u32>::empty().union(comps@.to_set()),
                s0,
            ),
            forall|k: int|
                0 <= k < comps@.len() ==> #[trigger] comps@[k] < ctx.board.comp_count
                    && ctx.board.comp_ty@[comps@[k] as int] == ty,
            r@.len() == i,
            forall|k: int|
                0 <= k < i ==> shows(
                    #[trigger] r@[k],
                    ctx.next(comps@[k], run.state(ctx.board, comps@[k] as int)),
                ),
        decreases n - i,
    {
        let c: u32 = comps[i];
        proof {
            assert(comps@.to_set().contains(c));
            assert(mine.states(ctx.board)[c as int] == mine.state(ctx.board, c as int));
            assert(s0[c as int] == run.state(ctx.board, c as int));
        }
        r.push(outcome(&mine, ctx.board, c));
        i = i + 1;
    }
    r
}

/// Put the outcome of an evaluation of component `c` into effect.
fn adopt(ctx: &TickCtx, run: &mut RunState, c: u32, o: &Outcome)
    requires
        ctx.wf(),
        old(run).wf(ctx.board),
        c < ctx.board.comp_count,
        ctx.board.comp_ty@[c as int] != CompType::Ram,
        ctx.board.part(c as int).sane(old(run).state(ctx.board, c as int)),
        shows(*o, ctx.next(c, old(run).state(ctx.board, c as int))),
    ensures
        components::evaluated(ctx, c, old(run), final(run)),
{
    let board = ctx.board;
    let ghost st = run.state(board, c as int);
    let ghost next = ctx.next(c, st);
    proof {
        assert(board@.parts[c as int].valid());
        behavior::lemma_step_sane(board.part(c as int), c, ctx.ins(c as int), ctx.tick, st);
        components::lemma_untouched(board, c as int, run);
        assert(next.mem == st.mem && next.count == st.count);
    }
    components::put_all(run, board, c, 0, &o.outs, Ghost(*old(run)));
    let ghost a = *run;
    run.set_sel(board, c, o.sel);
    proof {
        components::lemma_scratch_touched(board, c as int, old(run), &a, run);
    }
    let ghost a = *run;
    run.set_edge(board, c, o.edge);
    proof {
        components::lemma_scratch_touched(board, c as int, old(run), &a, run);
    }
    let ghost a = *run;
    run.set_running(board, c, o.running);
    proof {
        components::lemma_scratch_touched(board, c as int, old(run), &a, run);
        assert(run.state(board, c as int).outs =~= next.outs);
        assert(run.state(board, c as int) =~= next);
    }
}

/// The entries of a queue, each once.
fn dedup(q: &[u32], count: u32) -> (r: Vec<u32>)
    requires
        forall|i: int| 0 <= i < q@.len() ==> #[trigger] q@[i] < count,
    ensures
        r@.no_duplicates(),
        forall|c: u32| #[trigger] r@.contains(c) <==> q@.contains(c),
{
    let mut seen: BitSet = BitSet::new(count);
    let mut r: Vec<u32> = Vec::new();
    let n: usize = q.len();
    let mut i: usize = 0;
    while i < n
        invariant
            i <= n,
            n == q@.len(),
            forall|k: int| 0 <= k < q@.len() ==> #[trigger] q@[k] < count,
            seen.wf(),
            seen@.len() == count,
            r@.no_duplicates(),
            forall|c: u32| #[trigger] r@.contains(c) <==> q@.subrange(0, i as int).contains(c),
            forall|c: u32| #[trigger] r@.contains(c) <==> c < count && seen@[c as int],
        decreases n - i,
    {
        let c: u32 = q[i];
        let ghost head = q@.subrange(0, i as int);
        let ghost before = r@;
        proof {
            assert(q@.subrange(0, i + 1) =~= head.push(c));
            lemma_contains_push(head, c);
            lemma_contains_push(before, c);
        }
        if !seen.get(c) {
            assert(!before.contains(c));
            seen.set(c, true);
            r.push(c);
        } else {
            assert(before.contains(c));
        }
        i = i + 1;
    }
    assert(q@.subrange(0, n as int) =~= q@);
    r
}

impl Simulation {
    /// Compute phase with each type's components shared out.
    fn compute_phase_par(&mut self, workers: &ThreadPool)
        requires
            old(self).mid_tick(),
            queue::sorted(&old(self).board, old(self).queues@),
        ensures
            final(self).computed_from(old(self)),
    {
        let ghost net = self.board@;
        let ghost s0 = self.run.states(&self.board);
        let ghost w0 = self.run.write_buf@;
        let ghost qs = self.queues@;
        let ghost mut done: Set<u32> = Set::empty();
        proof {
            let ctx = TickCtx { board: &self.board, link_state: &self.link_state, tick: self.tick };
            components::lemma_nothing_computed(&ctx, &self.run);
            assert(tick::queued_upto(qs, 0) =~= Set::empty());
            assert forall|k: int| 0 <= k < self.board.comp_count implies self.board.part(k).sane(
                #[trigger] s0[k],
            ) by {
                assert(s0[k] == self.run.state(&self.board, k));
            }
        }
        let mut qi: usize = 0;
        while qi < N_TYPES
            invariant
                qi <= N_TYPES,
                old(self).mid_tick(),
                *self == (Simulation { run: self.run, ..*old(self) }),
                qs == self.queues@,
                queue::sorted(&self.board, qs),
                s0 == old(self).run.states(&self.board),
                w0 == old(self).run.write_buf@,
                s0.len() == self.board.comp_count,
                forall|k: int|
                    0 <= k < self.board.comp_count ==> self.board.part(k).sane(#[trigger] s0[k]),
                done == tick::queued_upto(qs, qi as int),
                components::computed(
                    &(TickCtx {
                        board: &self.board,
                        link_state: &self.link_state,
                        tick: self.tick,
                    }),
                    done,
                    s0,
                    w0,
                    &self.run,
                ),
            decreases N_TYPES - qi,
        {
            let ty: CompType = components::type_from_index(qi);
            proof {
                assert forall|i: int| 0 <= i < qs[qi as int].len() implies #[trigger] qs[qi as int][i]
                    < self.board.comp_count && self.board.comp_ty@[qs[qi as int][i] as int] == ty by {
                    assert(components::type_rank(
                        self.board.comp_ty@[qs[qi as int][i] as int],
                    ) == qi);
                }
            }
            let ctx = TickCtx::new(&self.board, &self.link_state, self.tick);
            if ty == CompType::Ram {
                // A RAM's memory is too large to hand to every worker.
                components::dispatch_compute(
                    ty,
                    self.queues.get(qi),
                    &ctx,
                    &mut self.run,
                    Ghost(done),
                    Ghost(s0),
                    Ghost(w0),
                );
            } else {
                compute_shared(
                    ty,
                    self.queues.get(qi),
                    &ctx,
                    &mut self.run,
                    workers,
                    Ghost(done),
                    Ghost(s0),
                    Ghost(w0),
                );
            }
            proof {
                assert(tick::queued_upto(qs, qi + 1) =~= done.union(qs[qi as int].to_set()));
                done = tick::queued_upto(qs, qi + 1);
            }
            qi = qi + 1;
        }
        assert(done =~= queue::queued(qs));
    }
}

/// Evaluate the components of type `ty` in `queue` on the pool, each once.
fn compute_shared(
    ty: CompType,
    queue: &[u32],
    ctx: &TickCtx,
    run: &mut RunState,
    workers: &ThreadPool,
    Ghost(before): Ghost<Set<u32>>,
    Ghost(s0): Ghost<Seq<PartState>>,
    Ghost(w0): Ghost<Seq<u32>>,
)
    requires
        ctx.wf(),
        ty != CompType::Ram,
        s0.len() == ctx.board.comp_count,
        forall|k: int|
            0 <= k < ctx.board.comp_count ==> ctx.board.part(k).sane(#[trigger] s0[k]),
        components::computed(ctx, before, s0, w0, old(run)),
        forall|i: int|
            0 <= i < queue@.len() ==> #[trigger] queue@[i] < ctx.board.comp_count
                && ctx.board.comp_ty@[queue@[i] as int] == ty,
    ensures
        components::computed(ctx, before.union(queue@.to_set()), s0, w0, final(run)),
{
    let comps: Vec<u32> = dedup(queue, ctx.board.comp_count);
    let ghost items = comps@;
    proof {
        assert forall|i: int| 0 <= i < items.len() implies #[trigger] items[i] < ctx.board.comp_count
            && ctx.board.comp_ty@[items[i] as int] == ty by {
            assert(items.contains(items[i]));
            let k = choose|k: int| 0 <= k < queue@.len() && queue@[k] == items[i];
            assert(queue@[k] == items[i]);
        }
        assert(before.union(items.to_set()) =~= before.union(queue@.to_set())) by {
            assert forall|c: u32| items.to_set().contains(c) <==> queue@.to_set().contains(c) by {
                assert(items.contains(c) <==> queue@.contains(c));
            }
        }
    }
    let size: usize = chunk_size(comps.len(), pool::pool_size(workers));
    let frozen: &RunState = run;
    let work = |part: &[u32]| -> (r: Vec<Outcome>)
        requires
            forall|i: int|
                0 <= i < part@.len() ==> #[trigger] part@[i] < ctx.board.comp_count
                    && ctx.board.comp_ty@[part@[i] as int] == ty,
        ensures
            outcomes_of(ctx, frozen, part@, r@),
        { compute_chunk(ty, part, ctx, frozen) };
    proof {
        assert forall|i: int, s: &[u32]|
            0 <= i < pool::chunk_count(items.len(), size as nat) && s@ == #[trigger] pool::nth_chunk(
                items,
                size as nat,
                i,
            ) implies #[trigger] call_requires(work, (s,)) by {
            lemma_chunk_bounds(items, size as nat, i);
        }
    }
    let results: Vec<Vec<Outcome>> = pool::map_chunks(workers, comps.as_slice(), size, work);
    proof {
        assert forall|i: int| 0 <= i < results@.len() implies outcomes_of(
            ctx,
            old(run),
            pool::nth_chunk(items, size as nat, i),
            (#[trigger] results@[i])@,
        ) by {
            let s = choose|s: &[u32]|
                s@ == pool::nth_chunk(items, size as nat, i) && #[trigger] call_ensures(
                    work,
                    (s,),
                    results@[i],
                );
        }
        assert(before.union(items.subrange(0, 0).to_set()) =~= before);
    }
    let n: usize = results.len();
    let total: usize = comps.len();
    let mut at: usize = 0;
    let mut i: usize = 0;
    while i < n
        invariant
            i <= n,
            n == results@.len(),
            n == pool::chunk_count(items.len(), size as nat),
            size > 0,
            total == items.len(),
            items == comps@,
            at == (if i * size <= total {
                i * size
            } else {
                total as int
            }),
            ctx.wf(),
            ty != CompType::Ram,
            s0.len() == ctx.board.comp_count,
            forall|k: int|
                0 <= k < ctx.board.comp_count ==> ctx.board.part(k).sane(#[trigger] s0[k]),
            items.no_duplicates(),
            forall|k: int|
                0 <= k < items.len() ==> #[trigger] items[k] < ctx.board.comp_count
                    && ctx.board.comp_ty@[items[k] as int] == ty,
            forall|k: int|
                0 <= k < results@.len() ==> outcomes_of(
                    ctx,
                    old(run),
                    pool::nth_chunk(items, size as nat, k),
                    (#[trigger] results@[k])@,
                ),
            components::computed(
                ctx,
                before.union(items.subrange(0, at as int).to_set()),
                s0,
                w0,
                run,
            ),
            forall|k: int|
                at <= k < items.len() ==> run.state(ctx.board, (#[trigger] items[k]) as int) == old(
                    run,
                ).state(ctx.board, items[k] as int),
        decreases n - i,
    {
        let part: &Vec<Outcome> = &results[i];
        proof {
            lemma_chunk_bounds(items, size as nat, i as int);
            assert((i + 1) * size == i * size + size) by (nonlinear_arith);
            assert(outcomes_of(ctx, old(run), pool::nth_chunk(items, size as nat, i as int), part@));
        }
        let m: usize = part.len();
        let mut j: usize = 0;
        while j < m
            invariant
                j <= m,
                m == part@.len(),
                at + m <= items.len() == total,
                items == comps@,
                ctx.wf(),
                ty != CompType::Ram,
                s0.len() == ctx.board.comp_count,
                forall|k: int|
                    0 <= k < ctx.board.comp_count ==> ctx.board.part(k).sane(#[trigger] s0[k]),
                items.no_duplicates(),
                forall|k: int|
                    0 <= k < items.len() ==> #[trigger] items[k] < ctx.board.comp_count
                        && ctx.board.comp_ty@[items[k] as int] == ty,
                forall|k: int|
                    0 <= k < m ==> shows(
                        #[trigger] part@[k],
                        ctx.next(
                            items[at + k],
                            old(run).state(ctx.board, items[at + k] as int),
                        ),
                    ),
                components::computed(
                    ctx,
                    before.union(items.subrange(0, at + j).to_set()),
                    s0,
                    w0,
                    run,
                ),
                forall|k: int|
                    at + j <= k < items.len() ==> run.state(
                        ctx.board,
                        (#[trigger] items[k]) as int,
                    ) == old(run).state(ctx.board, items[k] as int),
            decreases m - j,
        {
            let c: u32 = comps[at + j];
            let ghost a = *run;
            let ghost head = items.subrange(0, at + j);
            proof {
                assert(items[at + j] == c);
                assert(ctx.board.part(c as int).sane(run.state(ctx.board, c as int)));
                assert(shows(part@[j as int], ctx.next(c, run.state(ctx.board, c as int))));
            }
            adopt(ctx, run, c, &part[j]);
            proof {
                components::lemma_computed_more(
                    ctx,
                    before.union(head.to_set()),
                    s0,
                    w0,
                    &a,
                    run,
                    c,
                );
                assert(items.subrange(0, at + j + 1) =~= head.push(c));
                state::lemma_push_to_set(head, c);
                assert(before.union(head.to_set()).insert(c) =~= before.union(
                    items.subrange(0, at + j + 1).to_set(),
                ));
                assert forall|k: int| at + j + 1 <= k < items.len() implies run.state(
                    ctx.board,
                    (#[trigger] items[k]) as int,
                ) == old(run).state(ctx.board, items[k] as int) by {
                    assert(items[k] != c);
                    assert(run.states(ctx.board)[items[k] as int] == run.state(
                        ctx.board,
                        items[k] as int,
                    ));
                    assert(a.states(ctx.board)[items[k] as int] == a.state(
                        ctx.board,
                        items[k] as int,
                    ));
                }
            }
            j = j + 1;
        }
        at = at + m;
        i = i + 1;
    }
    proof {
        assert(n * size >= total) by (nonlinear_arith)
            requires
                size > 0,
                n == pool::chunk_count(items.len(), size as nat),
                pool::chunk_count(items.len(), size as nat) == (items.len() + size - 1) as nat
                    / size as nat,
                total == items.len(),
        ;
        assert(items.subrange(0, total as int) =~= items);
    }
}

impl Simulation {
    /// One tick, whatever the lifecycle state, that shares a phase out over `workers` where it has
    /// at least `par_threshold` links to read or components to evaluate. The outcome is that of
    /// [`tick`](Simulation::tick).
    pub fn tick_adaptive(&mut self, workers: &ThreadPool, par_threshold: usize)
        requires
            old(self).wf(),
        ensures
            final(self).wf(),
            final(self).net() == old(self).net(),
            final(self)@ == old(self)@.ticked(old(self).net()),
            final(self).lifecycle() == old(self).lifecycle(),
            final(self).has_baseline() == old(self).has_baseline(),
            final(self).delta() == old(self).delta(),
            final(self).gauge() == old(self).gauge(),
            final(self).backlog() == old(self).backlog().ticked(old(self).net(), old(self)@),
            final(self).was_parallel() == old(self)@.is_large(
                old(self).net(),
                old(self).backlog().due,
                par_threshold,
            ),
    {
        self.run_tick_adaptive(workers, par_threshold);
    }

    /// The tick with each phase shared out where it has enough to do.
    fn run_tick_adaptive(&mut self, workers: &ThreadPool, threshold: usize)
        requires
            old(self).wf(),
        ensures
            final(self).wf(),
            final(self).net() == old(self).net(),
            final(self)@ == old(self)@.ticked(old(self).net()),
            final(self).backlog() == old(self).backlog().ticked(old(self).net(), old(self)@),
            final(self).unmoved(old(self)),
            final(self).last_parallel == old(self)@.is_large(
                old(self).net(),
                old(self).backlog().due,
                threshold,
            ),
    {
        let read_par: bool = self.read_buf.len() >= threshold;
        if read_par {
            self.read_phase_par(workers);
        } else {
            self.read_phase();
        }
        let ghost read = *self;
        let compute_par: bool = self.queues.at_least(threshold);
        if compute_par {
            self.compute_phase_par(workers);
        } else {
            self.compute_phase();
        }
        let ghost computed = *self;
        self.between_tick();
        self.finish_tick();
        self.last_parallel = read_par || compute_par;
        proof {
            tick::lemma_phases(old(self), &read, &computed, self@, self.backlog());
            let m = old(self)@;
            assert((Machine { reads: m.reads, ..m }) == m);
        }
    }

    /// Run on a pool of workers until the ticks are spent or the time is up. Without a time limit
    /// the number of ticks is exact.
    pub fn run_on(&mut self, workers: &ThreadPool, cfg: RunConfig)
        requires
            old(self).wf(),
        ensures
            final(self).wf(),
            has_run(old(self), cfg, final(self)),
            final(self).was_parallel() == shared_last(
                old(self),
                machine::ticks_between(old(self)@, final(self)@),
                cfg.par_threshold,
            ),
    {
        let ghost net = self.net();
        let ghost m = self@;
        let ghost b = self.backlog();
        let start: Instant = self.begin_run();
        let mut remaining: u64 = cfg.ticks;
        let mut countdown: u64 = if remaining < CHECK_EVERY {
            remaining
        } else {
            CHECK_EVERY
        };
        let ghost mut done: nat = 0;
        let ghost mut log: Seq<Look> = Seq::empty();
        let ghost first = self.gauge();
        proof {
            lemma_begin(first, cfg.timeout, cfg.ticks);
        }
        while remaining > 0
            invariant_except_break
                remaining > 0 ==> countdown > 0 && done + countdown == look_at(
                    cfg.ticks,
                    log.len() as int,
                ),
                remaining > 0 ==> going(
                    first,
                    cfg.timeout,
                    cfg.ticks,
                    log,
                    self.gauge(),
                ),
                remaining == 0 ==> finished(
                    first,
                    cfg.timeout,
                    cfg.ticks,
                    done,
                    log,
                    self.gauge(),
                ),
            invariant
                self.wf(),
                self.net() == net,
                net == old(self).net(),
                m == old(self)@,
                b == old(self).backlog(),
                done + remaining == cfg.ticks,
                self@ == m.after(net, done),
                self.backlog() == b.after(net, m, done),
                first.since == start && first.tick == m.tick,
                self.state == SimState::Running,
                self.delta_baseline == old(self).delta_baseline,
                self.delta() == old(self).delta(),
                self.last_parallel == shared_last(old(self), done, cfg.par_threshold),
            ensures
                finished(first, cfg.timeout, cfg.ticks, done, log, self.gauge()),
            decreases remaining,
        {
            if self.state == SimState::Stopping {
                break;
            }
            self.run_tick_adaptive(workers, cfg.par_threshold);
            proof {
                done = done + 1;
            }
            remaining = remaining - 1;
            countdown = countdown - 1;
            if countdown == 0 {
                let ghost before = self.gauge();
                let (over, look) = self.look_at_clock(&start, cfg.timeout);
                proof {
                    machine::lemma_ticks_between(net, m, done);
                    lemma_look(first, cfg.timeout, cfg.ticks, log, before, look@);
                    log = log.push(look@);
                }
                if over {
                    break;
                }
                countdown = if remaining < CHECK_EVERY {
                    remaining
                } else {
                    CHECK_EVERY
                };
            }
        }
        self.state = SimState::Stopped;
        proof {
            assert(m.after(net, done) == self@);
            machine::lemma_ticks_between(net, m, done);
            lemma_finished(first, cfg.timeout, cfg.ticks, done, log, self.gauge());
        }
    }

    /// Run on a pool of `cfg.threads` threads, if it can be had.
    fn run_parallel(&mut self, cfg: RunConfig) -> (r: Result<(), SimError>)
        requires
            old(self).wf(),
            cfg.threads > 1,
        ensures
            final(self).wf(),
            r is Ok ==> {
                &&& exists|p: ThreadPool| #[trigger] pool::supplied(cfg.threads, p)
                &&& has_run(old(self), cfg, final(self))
                &&& final(self).was_parallel() == shared_last(
                    old(self),
                    machine::ticks_between(old(self)@, final(self)@),
                    cfg.par_threshold,
                )
            },
            r matches Err(e) ==> pool_error(cfg.threads, e) && *final(self) == *old(self),
    {
        match pool::request_pool(cfg.threads) {
            Ok(workers) => {
                self.run_on(&workers, cfg);
                Ok(())
            },
            Err(why) => Err(SimError::ThreadPool(why)),
        }
    }

    /// Run until the ticks are spent or the time is up, on as many threads as the configuration
    /// names. How many take part makes no difference to where the run ends; without a time limit it
    /// ends after exactly the given ticks. The only error is a thread pool that cannot be built.
    pub fn run(&mut self, cfg: RunConfig) -> (r: Result<(), SimError>)
        requires
            old(self).wf(),
        ensures
            final(self).wf(),
            cfg.threads <= 1 ==> r is Ok,
            r is Ok ==> {
                &&& cfg.threads > 1 ==> exists|p: ThreadPool| #[trigger]
                    pool::supplied(cfg.threads, p)
                &&& has_run(old(self), cfg, final(self))
                &&& final(self).was_parallel() == if cfg.threads > 1 {
                    shared_last(
                        old(self),
                        machine::ticks_between(old(self)@, final(self)@),
                        cfg.par_threshold,
                    )
                } else {
                    cfg.ticks == 0 && old(self).was_parallel()
                }
            },
            r matches Err(e) ==> pool_error(cfg.threads, e) && *final(self) == *old(self),
    {
        if cfg.threads > 1 {
            self.run_parallel(cfg)
        } else {
            self.run_single(cfg);
            Ok(())
        }
    }
}

/// A run with this configuration leads from one simulation to the other.
pub open spec fn has_run(before: &Simulation, cfg: RunConfig, after: &Simulation) -> bool {
    &&& after.net() == before.net()
    &&& before@.runs_to(before.net(), cfg.ticks, cfg.timeout is Some, after@)
    &&& after.backlog() == before.backlog().after(
        before.net(),
        before@,
        machine::ticks_between(before@, after@),
    )
    &&& after.lifecycle() == SimState::Stopped
    &&& timed(
        before.measured(),
        before@.tick,
        cfg.timeout,
        cfg.ticks,
        machine::ticks_between(before@, after@),
        after.gauge(),
    )
    &&& after.has_baseline() == before.has_baseline()
    &&& after.delta() == before.delta()
}

/// After how many ticks look `i` at the clock is taken: every so many ticks, and at the last one.
pub open spec fn look_at(ticks: u64, i: int) -> int {
    if (i + 1) * CHECK_EVERY <= ticks {
        (i + 1) * CHECK_EVERY
    } else {
        ticks as int
    }
}

/// The measurement after the first `n` looks of a run of up to `ticks` ticks. It begins at `first`.
pub open spec fn gauge_upto(first: Gauge, ticks: u64, log: Seq<Look>, n: int) -> Gauge
    decreases n,
{
    if n <= 0 {
        first
    } else {
        gauge_upto(first, ticks, log, n - 1).noted(
            first.tick.wrapping_add(look_at(ticks, n - 1) as u64),
            log[n - 1],
        )
    }
}

/// The looks of a run are looks at the clock, each since the window that was current.
pub open spec fn looked(first: Gauge, limit: Option<u128>, ticks: u64, log: Seq<Look>) -> bool {
    forall|i: int|
        0 <= i < log.len() ==> gauge_upto(first, ticks, log, i).sees(
            first.since,
            limit,
            #[trigger] log[i],
        )
}

/// The limit was not reached at any of the first `n` looks.
pub open spec fn not_due(limit: Option<u128>, log: Seq<Look>, n: int) -> bool {
    forall|i: int| 0 <= i < n ==> !clock::is_due(limit, (#[trigger] log[i]).run)
}

/// A run of up to `ticks` ticks has gone on for `k` ticks and looked at the clock as in `log`. It
/// begins with the measurement `first`, which begins with it. It looks after every so many ticks and
/// after the last one. The limit was not reached at any look but the last, and if the run ended early,
/// it was at that one.
pub open spec fn watched(
    first: Gauge,
    limit: Option<u128>,
    ticks: u64,
    k: nat,
    log: Seq<Look>,
) -> bool {
    &&& clock::reads(first.since)
    &&& looked(first, limit, ticks, log)
    &&& k <= ticks
    &&& log.len() == (k + CHECK_EVERY - 1) / CHECK_EVERY as int
    &&& not_due(limit, log, log.len() - 1)
    &&& k < ticks ==> {
        &&& k > 0 && k == log.len() * CHECK_EVERY
        &&& clock::is_due(limit, log.last().run)
    }
}

/// A run of up to `ticks` ticks from tick `tick` on has gone on for `k` ticks, as the time limit and
/// the clock had it, and has left the measurement of the speed at `after`.
pub open spec fn timed(
    speed: u32,
    tick: u64,
    limit: Option<u128>,
    ticks: u64,
    k: nat,
    after: Gauge,
) -> bool {
    exists|first: Gauge, log: Seq<Look>|
        {
            &&& first.speed == speed && first.tick == tick
            &&& #[trigger] watched(first, limit, ticks, k, log)
            &&& after == gauge_upto(first, ticks, log, log.len() as int)
        }
}

/// No tick is run after a look at the clock that shows the time limit to be reached. As a run looks
/// every so many ticks, it overshoots its limit by fewer ticks than lie between two looks.
pub proof fn law_time_limit_is_heeded(
    first: Gauge,
    limit: Option<u128>,
    ticks: u64,
    k: nat,
    log: Seq<Look>,
    i: int,
)
    requires
        watched(first, limit, ticks, k, log),
        0 <= i < log.len(),
        clock::is_due(limit, log[i].run),
    ensures
        i == log.len() - 1,
        k == look_at(ticks, i),
        i * CHECK_EVERY < k <= (i + 1) * CHECK_EVERY,
{
}

/// A run is going on, with the limit not reached at any look so far.
#[verifier::opaque]
pub(super) open spec fn going(
    first: Gauge,
    limit: Option<u128>,
    ticks: u64,
    log: Seq<Look>,
    now: Gauge,
) -> bool {
    &&& clock::reads(first.since)
    &&& looked(first, limit, ticks, log)
    &&& not_due(limit, log, log.len() as int)
    &&& log.len() * CHECK_EVERY < ticks
    &&& now == gauge_upto(first, ticks, log, log.len() as int)
}

/// A run is over after `k` ticks.
#[verifier::opaque]
pub(super) open spec fn finished(
    first: Gauge,
    limit: Option<u128>,
    ticks: u64,
    k: nat,
    log: Seq<Look>,
    now: Gauge,
) -> bool {
    &&& watched(first, limit, ticks, k, log)
    &&& now == gauge_upto(first, ticks, log, log.len() as int)
}

/// Before the first tick.
pub(super) proof fn lemma_begin(first: Gauge, limit: Option<u128>, ticks: u64)
    requires
        clock::reads(first.since),
    ensures
        ticks > 0 ==> going(first, limit, ticks, Seq::empty(), first),
        ticks == 0 ==> finished(first, limit, ticks, 0, Seq::empty(), first),
{
    reveal(going);
    reveal(finished);
}

/// The measurement depends only on the looks so far.
proof fn lemma_gauge_push(first: Gauge, ticks: u64, log: Seq<Look>, look: Look, n: int)
    requires
        n <= log.len(),
    ensures
        gauge_upto(first, ticks, log.push(look), n) == gauge_upto(first, ticks, log, n),
    decreases n,
{
    if n > 0 {
        lemma_gauge_push(first, ticks, log, look, n - 1);
    }
}

/// One more look, which ends the run if the limit is reached or no ticks are left.
pub(super) proof fn lemma_look(
    first: Gauge,
    limit: Option<u128>,
    ticks: u64,
    log: Seq<Look>,
    now: Gauge,
    look: Look,
)
    requires
        going(first, limit, ticks, log, now),
        now.sees(first.since, limit, look),
    ensures
        ({
            let done = look_at(ticks, log.len() as int);
            let next = now.noted(first.tick.wrapping_add(done as u64), look);
            if clock::is_due(limit, look.run) || done == ticks {
                finished(first, limit, ticks, done as nat, log.push(look), next)
            } else {
                going(first, limit, ticks, log.push(look), next)
            }
        }),
{
    reveal(going);
    reveal(finished);
    let more = log.push(look);
    lemma_gauge_push(first, ticks, log, look, log.len() as int);
    assert forall|i: int| 0 <= i < more.len() implies gauge_upto(first, ticks, more, i).sees(
        first.since,
        limit,
        #[trigger] more[i],
    ) by {
        lemma_gauge_push(first, ticks, log, look, i);
        if i < log.len() {
            assert(more[i] == log[i]);
        }
    }
    assert forall|i: int| 0 <= i < log.len() implies !clock::is_due(
        limit,
        (#[trigger] more[i]).run,
    ) by {
        assert(more[i] == log[i]);
    }
}

/// A run that is over was timed.
pub(super) proof fn lemma_finished(
    first: Gauge,
    limit: Option<u128>,
    ticks: u64,
    k: nat,
    log: Seq<Look>,
    now: Gauge,
)
    requires
        finished(first, limit, ticks, k, log, now),
    ensures
        timed(first.speed, first.tick, limit, ticks, k, now),
        k <= ticks,
        k == ticks || (limit is Some && k > 0 && k % CHECK_EVERY as nat == 0),
{
    reveal(finished);
}

/// Whether the last of `k` ticks on several threads shares its work out; with no tick, whether the
/// last tick before did.
pub open spec fn shared_last(before: &Simulation, k: nat, threshold: usize) -> bool {
    let last = (k - 1) as nat;
    if k == 0 {
        before.was_parallel()
    } else {
        before@.after(before.net(), last).is_large(
            before.net(),
            before.backlog().after(before.net(), before@, last).due,
            threshold,
        )
    }
}

/// The error of a run for which no pool of `threads` threads could be had.
pub open spec fn pool_error(threads: usize, e: SimError) -> bool {
    &&& threads > 1
    &&& e matches SimError::ThreadPool(why) && pool::unavailable(threads, why@)
}

/// A run looks at the clock after every 1024 ticks and after its last one. It goes on after a look only
/// if the time limit, where there is one, has not been reached then, and ends before its ticks are used
/// up only if it has.
pub proof fn law_looks_at_the_clock(
    first: Gauge,
    limit: Option<u128>,
    ticks: u64,
    k: nat,
    log: Seq<Look>,
    i: int,
)
    requires
        watched(first, limit, ticks, k, log),
    ensures
        k <= ticks,
        1024 * (log.len() - 1) < k <= 1024 * log.len(),
        0 <= i < log.len() - 1 ==> limit is None || log[i].run < limit->0,
        k < ticks ==> {
            &&& k == 1024 * log.len()
            &&& limit is Some
            &&& log[log.len() - 1].run >= limit->0
        },
        limit is None ==> k == ticks,
        0 <= i < log.len() ==> clock::shows(gauge_upto(first, ticks, log, i).since, log[i].window),
        0 <= i < log.len() && limit is Some ==> clock::shows(first.since, log[i].run),
{
}

/// The speed is measured at the looks at the clock: at each one at which the measuring window is a second
/// long or longer, it becomes the ticks of the window by its length, and a new window begins.
pub proof fn law_speed_follows_the_looks(first: Gauge, ticks: u64, log: Seq<Look>, i: int)
    requires
        0 <= i < log.len(),
    ensures
        gauge_upto(first, ticks, log, 0) == first,
        ({
            let before = gauge_upto(first, ticks, log, i);
            let after = gauge_upto(first, ticks, log, i + 1);
            let done = if 1024 * (i + 1) <= ticks {
                1024 * (i + 1)
            } else {
                ticks as int
            };
            let now = first.tick.wrapping_add(done as u64);
            &&& log[i].window < 1_000_000_000 ==> after == before
            &&& log[i].window >= 1_000_000_000 ==> {
                &&& after.speed == clock::rate_of(now.wrapping_sub(before.tick), log[i].window)
                &&& after.since == log[i].fresh
                &&& after.tick == now
            }
        }),
{
}

/// A run leaves the simulation stopped and its board and snapshots as they were. Without a time limit it
/// is of exactly the ticks it was given.
pub proof fn law_run(before: &Simulation, cfg: RunConfig, after: &Simulation)
    requires
        has_run(before, cfg, after),
    ensures
        after.net() == before.net(),
        after.lifecycle() == SimState::Stopped,
        after.has_baseline() == before.has_baseline(),
        after.delta() == before.delta(),
        cfg.timeout is None ==> after@ == before@.after(before.net(), cfg.ticks as nat),
        exists|k: nat|
            k <= cfg.ticks && after@ == #[trigger] before@.after(before.net(), k) && (k == cfg.ticks
                || k % 1024 == 0),
{
    machine::law_runs_end_on_a_look(before@, before.net(), cfg.ticks, cfg.timeout is Some, after@);
}

/// A tick shares its work out exactly when as many links as the threshold are scheduled, counted once
/// for each flip, or as many input pins read a link that it flips.
pub proof fn law_large_ticks_are_shared(before: &Simulation, k: nat, threshold: usize)
    ensures
        k == 0 ==> shared_last(before, k, threshold) == before.was_parallel(),
        k > 0 ==> {
            let net = before.net();
            let m = before@.after(net, (k - 1) as nat);
            let due = before.backlog().after(net, before@, (k - 1) as nat).due;
            shared_last(before, k, threshold) <==> threshold <= due || threshold
                <= machine::fanout(net, m.flipping(net), net.links as int)
        },
{
}

} // verus!
