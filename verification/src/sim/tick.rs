//! The tick: read phase, compute phase, the section between ticks, and the run loop.

use vstd::prelude::*;
use web_time::Instant;
#[allow(unused_imports)]
use crate::behavior;
#[allow(unused_imports)]
use crate::clock::{self, Gauge, Look};
use crate::components::{self, TickCtx, N_TYPES};
#[allow(unused_imports)]
use crate::machine::{self, Backlog, Machine, Pulse, CHECK_EVERY};
#[allow(unused_imports)]
use crate::netlist::{self, Netlist};
#[allow(unused_imports)]
use crate::queue;
#[allow(unused_imports)]
use crate::sim::{self, driver, RunConfig, Simulation, UiPulse};
#[allow(unused_imports)]
use crate::state;
use crate::types::{CompType, SimState};

verus! {

impl Simulation {
    /// The links in `seen` have their new values, and what follows from that is on record.
    pub(super) open spec fn read_upto(&self, before: &Simulation, seen: Set<u32>) -> bool {
        let net = before.board@;
        &&& self.mid_tick()
        &&& self.board == before.board
        &&& self.run == before.run
        &&& self.read_buf == before.read_buf
        &&& self.kept(before)
        &&& self.link_state@ == (Machine { reads: seen, ..before@ }).visible(net)
        &&& self.poll_ids@.to_set() == before.poll_ids@.to_set().union(
            machine::flips(before.link_state@, self.link_state@),
        )
        &&& queue::sorted(&self.board, self.queues@)
        &&& queue::queued(self.queues@) == machine::woken(
            net,
            machine::flips(before.link_state@, self.link_state@),
        )
        &&& queue::total(self.queues@, N_TYPES as int) == machine::fanout(
            net,
            machine::flips(before.link_state@, self.link_state@),
            net.links as int,
        )
    }

    /// What the read and compute phases leave alone.
    pub(super) open spec fn kept(&self, before: &Simulation) -> bool {
        &&& self.snap_ids == before.snap_ids
        &&& self.snap_values == before.snap_values
        &&& self.delta_baseline == before.delta_baseline
        &&& self.ui_pending == before.ui_pending
        &&& self.clk_ids == before.clk_ids
        &&& self.state == before.state
        &&& self.tick == before.tick
        &&& self.speed == before.speed
        &&& self.last_capture == before.last_capture
        &&& self.last_capture_tick == before.last_capture_tick
        &&& self.last_parallel == before.last_parallel
    }

    /// Read phase: each scheduled link takes the value "some driver is high"; a flip is recorded
    /// and queues the components that read the link. Links change nowhere else.
    pub(super) fn read_phase(&mut self)
        requires
            old(self).wf(),
        ensures
            final(self).read_upto(old(self), old(self)@.reads),
    {
        proof {
            self.lemma_nothing_read();
            assert(self.read_buf@.subrange(0, 0).to_set() =~= Set::empty());
        }
        let n: usize = self.read_buf.len();
        let mut i: usize = 0;
        while i < n
            invariant
                i <= n,
                n == old(self).read_buf@.len(),
                old(self).wf(),
                self.read_upto(old(self), old(self).read_buf@.subrange(0, i as int).to_set()),
            decreases n - i,
        {
            let l: u32 = self.read_buf[i];
            let ghost head = self.read_buf@.subrange(0, i as int);
            proof {
                assert(self.read_buf@.subrange(0, i + 1) =~= head.push(l));
                state::lemma_push_to_set(head, l);
            }
            self.read_link(l, Ghost(*old(self)), Ghost(head.to_set()));
            i = i + 1;
        }
        assert(old(self).read_buf@.subrange(0, n as int) =~= old(self).read_buf@);
    }

    /// Before any link is read.
    pub(super) proof fn lemma_nothing_read(&self)
        requires
            self.wf(),
        ensures
            self.read_upto(self, Set::empty()),
    {
        let net = self.board@;
        assert(self.link_state@ =~= (Machine { reads: Set::empty(), ..self@ }).visible(net));
        assert(machine::flips(self.link_state@, self.link_state@) =~= Set::empty());
        assert(machine::woken(net, Set::empty()) =~= Set::empty());
        assert(queue::queued(self.queues@) =~= Set::empty());
        assert(self.poll_ids@.to_set().union(Set::empty()) =~= self.poll_ids@.to_set());
        queue::lemma_total_drained(self.queues@, N_TYPES as int);
        machine::lemma_fanout_none(net, net.links as int);
    }

    /// Read one scheduled link.
    pub(super) fn read_link(
        &mut self,
        l: u32,
        Ghost(before): Ghost<Simulation>,
        Ghost(seen): Ghost<Set<u32>>,
    )
        requires
            before.wf(),
            l < before.board.link_count,
            old(self).read_upto(&before, seen),
        ensures
            final(self).read_upto(&before, seen.insert(l)),
    {
        let ghost net = before.board@;
        let ghost seen1 = seen.insert(l);
        let ghost links0 = self.link_state@;
        proof {
            state::law_count_is_wired_or(&self.board, &self.run, l);
        }
        let v: bool = self.run.driver_count[l as usize] != 0;
        if v == self.link_state.get(l) {
            proof {
                assert(self.link_state@ =~= (Machine {
                    reads: seen1,
                    ..before@
                }).visible(net));
            }
            return;
        }
        self.link_state.set(l, v);
        proof {
            assert(self.link_state@ =~= (Machine { reads: seen1, ..before@ }).visible(
                net,
            ));
            let f0 = machine::flips(before.link_state@, links0);
            let f1 = machine::flips(before.link_state@, self.link_state@);
            assert(f1 =~= f0.insert(l));
        }
        self.record_flip(l);
        self.queue_readers(l);
        proof {
            let f0 = machine::flips(before.link_state@, links0);
            let f1 = machine::flips(before.link_state@, self.link_state@);
            assert(f1 =~= f0.insert(l));
            assert(self.poll_ids@.to_set() =~= before.poll_ids@.to_set().union(f1));
            assert(!f0.contains(l));
            lemma_woken_insert(net, f0, l);
            machine::lemma_fanout_insert(net, f0, l, net.links as int);
            assert(queue::queued(self.queues@) =~= machine::woken(net, f1));
        }
    }

    /// Note a flipped link for the next snapshot, once.
    pub(super) fn record_flip(&mut self, l: u32)
        requires
            old(self).polls_ok(),
            l < old(self).board.link_count,
        ensures
            final(self).polls_ok(),
            final(self).poll_ids@.to_set() == old(self).poll_ids@.to_set().insert(l),
            *final(self) == (Simulation {
                poll_seen: final(self).poll_seen,
                poll_ids: final(self).poll_ids,
                ..*old(self)
            }),
    {
        let ghost ids = self.poll_ids@;
        if !self.poll_seen.get(l) {
            assert(!ids.contains(l));
            self.poll_seen.set(l, true);
            self.poll_ids.push(l);
            proof {
                state::lemma_push_to_set(ids, l);
                assert forall|m: u32| #[trigger]
                    self.poll_ids@.contains(m) <==> m < self.board.link_count
                        && self.poll_seen@[m as int] by {
                    assert(self.poll_ids@.contains(m) <==> self.poll_ids@.to_set().contains(m));
                    assert(ids.contains(m) <==> ids.to_set().contains(m));
                }
            }
        } else {
            assert(ids.contains(l));
            assert(ids.to_set().contains(l));
            assert(ids.to_set().insert(l) =~= ids.to_set());
        }
    }

    /// Queue every component that reads link `l`.
    pub(super) fn queue_readers(&mut self, l: u32)
        requires
            old(self).board.wf(),
            l < old(self).board.link_count,
            queue::sorted(&old(self).board, old(self).queues@),
        ensures
            queue::sorted(&final(self).board, final(self).queues@),
            queue::queued(final(self).queues@) == queue::queued(old(self).queues@).union(
                old(self).board@.readers(l).to_set(),
            ),
            queue::total(final(self).queues@, N_TYPES as int) == queue::total(
                old(self).queues@,
                N_TYPES as int,
            ) + old(self).board@.readers(l).len(),
            *final(self) == (Simulation { queues: final(self).queues, ..*old(self) }),
    {
        let ghost net = self.board@;
        let ghost q0 = queue::queued(self.queues@);
        let ghost readers = net.readers(l);
        proof {
            netlist::lemma_readers(net, l, net.parts.len() as int);
            assert(q0.union(readers.subrange(0, 0).to_set()) =~= q0);
        }
        let n: usize = self.board.link_consumers(l).len();
        let mut i: usize = 0;
        while i < n
            invariant
                i <= n,
                n == readers.len(),
                net == old(self).board@,
                readers == net.readers(l),
                old(self).board.wf(),
                l < old(self).board.link_count,
                *self == (Simulation { queues: self.queues, ..*old(self) }),
                queue::sorted(&self.board, self.queues@),
                queue::queued(self.queues@) == q0.union(readers.subrange(0, i as int).to_set()),
                queue::total(self.queues@, N_TYPES as int) == queue::total(
                    old(self).queues@,
                    N_TYPES as int,
                ) + i,
                forall|k: int| 0 <= k < readers.len() ==> #[trigger] readers[k] < net.parts.len(),
            decreases n - i,
        {
            let c: u32 = self.board.link_consumers(l)[i];
            let ty: usize = components::type_index(self.board.comp_ty[c as usize]);
            let ghost qs = self.queues@;
            self.queues.push(ty, c);
            proof {
                queue::lemma_queued_push(qs, ty as int, c);
                queue::lemma_total_push(qs, ty as int, c, N_TYPES as int);
                assert(readers.subrange(0, i + 1) =~= readers.subrange(0, i as int).push(c));
                state::lemma_push_to_set(readers.subrange(0, i as int), c);
                assert(queue::queued(self.queues@) =~= q0.union(
                    readers.subrange(0, i + 1).to_set(),
                ));
                assert(queue::sorted(&self.board, self.queues@)) by {
                    assert forall|a: int, k: int|
                        0 <= a < self.queues@.len() && 0 <= k < self.queues@[a].len() implies {
                        &&& #[trigger] self.queues@[a][k] < self.board.comp_count
                        &&& components::type_rank(
                            self.board.comp_ty@[self.queues@[a][k] as int],
                        ) == a
                    } by {
                        if a == ty && k == qs[a].len() {
                            assert(self.queues@[a][k] == c);
                        } else {
                            assert(self.queues@[a][k] == qs[a][k]);
                        }
                    }
                }
            }
            i = i + 1;
        }
        assert(readers.subrange(0, n as int) =~= readers);
    }
}

impl Simulation {
    /// The queued components have been evaluated, and nothing else happened.
    pub(super) open spec fn computed_from(&self, before: &Simulation) -> bool {
        let net = before.board@;
        &&& self.mid_tick()
        &&& *self == (Simulation { run: self.run, ..*before })
        &&& self.run.states(&self.board) == machine::stepped(
            net,
            before.link_state@,
            before.tick,
            queue::queued(before.queues@),
            before.run.states(&before.board),
        )
        &&& self.run.writes() == before.run.writes().union(
            state::moved_any(
                net,
                before.run.states(&before.board),
                self.run.states(&self.board),
            ),
        )
        &&& self.run.write_buf@.len() == before.run.write_buf@.len() + state::flipped_all(
            net,
            before.run.states(&before.board),
            self.run.states(&self.board),
        )
    }

    /// Compute phase: evaluate the queued components, type by type.
    pub(super) fn compute_phase(&mut self)
        requires
            old(self).mid_tick(),
            queue::sorted(&old(self).board, old(self).queues@),
        ensures
            final(self).computed_from(old(self)),
    {
        let ghost net = self.board@;
        let ghost s0 = self.run.states(&self.board);
        let ghost w0 = self.run.write_buf@;
        let ghost qs = self.queues@;
        let ghost mut done: Set<u32> = Set::empty();
        proof {
            let ctx = TickCtx { board: &self.board, link_state: &self.link_state, tick: self.tick };
            components::lemma_nothing_computed(&ctx, &self.run);
            assert(queued_upto(qs, 0) =~= Set::empty());
            assert forall|k: int| 0 <= k < self.board.comp_count implies self.board.part(k).sane(
                #[trigger] s0[k],
            ) by {
                assert(s0[k] == self.run.state(&self.board, k));
            }
        }
        let mut qi: usize = 0;
        while qi < N_TYPES
            invariant
                qi <= N_TYPES,
                old(self).mid_tick(),
                *self == (Simulation { run: self.run, ..*old(self) }),
                qs == self.queues@,
                queue::sorted(&self.board, qs),
                s0 == old(self).run.states(&self.board),
                w0 == old(self).run.write_buf@,
                s0.len() == self.board.comp_count,
                forall|k: int|
                    0 <= k < self.board.comp_count ==> self.board.part(k).sane(#[trigger] s0[k]),
                done == queued_upto(qs, qi as int),
                components::computed(
                    &(TickCtx {
                        board: &self.board,
                        link_state: &self.link_state,
                        tick: self.tick,
                    }),
                    done,
                    s0,
                    w0,
                    &self.run,
                ),
            decreases N_TYPES - qi,
        {
            let ty: CompType = components::type_from_index(qi);
            proof {
                assert forall|i: int| 0 <= i < qs[qi as int].len() implies #[trigger] qs[qi as int][i]
                    < self.board.comp_count && self.board.comp_ty@[qs[qi as int][i] as int] == ty by {
                    assert(components::type_rank(
                        self.board.comp_ty@[qs[qi as int][i] as int],
                    ) == qi);
                }
            }
            let ctx = TickCtx::new(&self.board, &self.link_state, self.tick);
            components::dispatch_compute(
                ty,
                self.queues.get(qi),
                &ctx,
                &mut self.run,
                Ghost(done),
                Ghost(s0),
                Ghost(w0),
            );
            proof {
                assert(queued_upto(qs, qi + 1) =~= done.union(qs[qi as int].to_set()));
                done = queued_upto(qs, qi + 1);
            }
            qi = qi + 1;
        }
        assert(done =~= queue::queued(qs));
    }

    /// Clock section: every running clock counts the tick and flips its output when due.
    pub(super) fn beat_clocks(&mut self)
        requires
            old(self).mid_tick(),
        ensures
            final(self).mid_tick(),
            *final(self) == (Simulation { run: final(self).run, ..*old(self) }),
            final(self).run.states(&final(self).board) == machine::beaten(
                old(self).board@,
                old(self).run.states(&old(self).board),
            ),
            final(self).run.writes() == old(self).run.writes().union(
                state::moved_any(
                    old(self).board@,
                    old(self).run.states(&old(self).board),
                    final(self).run.states(&final(self).board),
                ),
            ),
            final(self).run.write_buf@.len() == old(self).run.write_buf@.len()
                + state::flipped_all(
                old(self).board@,
                old(self).run.states(&old(self).board),
                final(self).run.states(&final(self).board),
            ),
    {
        let ghost net = self.board@;
        let ghost s0 = self.run.states(&self.board);
        let ghost w0 = self.run.writes();
        let ghost n0 = self.run.write_buf@.len();
        let ghost goal = machine::beaten(net, s0);
        proof {
            sim::lemma_moved_none(net, s0, s0);
            state::lemma_flipped_none(net, s0, s0, net.parts.len() as int);
            assert(w0.union(state::moved_any(net, s0, s0)) =~= w0);
        }
        let n: usize = self.clk_ids.len();
        let mut i: usize = 0;
        while i < n
            invariant
                i <= n,
                n == self.clk_ids@.len(),
                old(self).mid_tick(),
                net == old(self).board@,
                s0 == old(self).run.states(&old(self).board),
                s0.len() == net.parts.len(),
                goal == machine::beaten(net, s0),
                *self == (Simulation { run: self.run, ..*old(self) }),
                self.run.wf(&self.board),
                forall|c: int|
                    0 <= c < net.parts.len() ==> #[trigger] self.run.states(&self.board)[c] == (
                    if self.clk_ids@.subrange(0, i as int).contains(c as u32) {
                        goal[c]
                    } else {
                        s0[c]
                    }),
                self.run.writes() == w0.union(
                    state::moved_any(net, s0, self.run.states(&self.board)),
                ),
                self.run.write_buf@.len() == n0 + state::flipped_all(
                    net,
                    s0,
                    self.run.states(&self.board),
                ),
            decreases n - i,
        {
            let c: u32 = self.clk_ids[i];
            let ghost cur = self.run.states(&self.board);
            let ghost before = self.run;
            proof {
                assert(self.clk_ids@.contains(c));
                assert(net.parts[c as int].valid());
                let head = self.clk_ids@.subrange(0, i as int);
                if head.contains(c) {
                    let j = choose|j: int| 0 <= j < head.len() && head[j] == c;
                    assert(self.clk_ids@[j] == c);
                }
                assert(cur[c as int] == s0[c as int]);
                assert(cur[c as int] == self.run.state(&self.board, c as int));
                assert(old(self).run.state(&self.board, c as int) == s0[c as int]);
                assert(net.parts[c as int].sane(s0[c as int]));
                components::lemma_untouched(&self.board, c as int, &self.run);
            }
            if self.run.scratch.clk_subscribed(c) {
                if self.run.output(&self.board, c, 0) {
                    components::put(&mut self.run, &self.board, c, 0, false, Ghost(before));
                } else {
                    let period: u32 = self.board.config(c).a;
                    let count: u32 = self.run.clk_count[c as usize];
                    if count + 1 >= period {
                        components::put(&mut self.run, &self.board, c, 0, true, Ghost(before));
                        let ghost mid = self.run;
                        self.run.set_count(&self.board, c, 0);
                        proof {
                            components::lemma_scratch_touched(
                                &self.board,
                                c as int,
                                &before,
                                &mid,
                                &self.run,
                            );
                        }
                    } else {
                        self.run.set_count(&self.board, c, count + 1);
                        proof {
                            components::lemma_scratch_touched(
                                &self.board,
                                c as int,
                                &before,
                                &before,
                                &self.run,
                            );
                        }
                    }
                }
            }
            proof {
                let next = self.run.state(&self.board, c as int);
                assert(next.outs =~= goal[c as int].outs);
                assert(next == goal[c as int]);
                sim::lemma_moved_any_update(net, s0, cur, c as int, next);
                state::lemma_flipped_update(
                    net,
                    s0,
                    cur,
                    c as int,
                    next,
                    net.parts.len() as int,
                );
                let head = self.clk_ids@.subrange(0, i as int);
                let head1 = self.clk_ids@.subrange(0, i + 1);
                assert(head1 =~= head.push(c));
                assert forall|d: u32| #[trigger] head1.contains(d) <==> head.contains(d) || d == c by {
                    if head.contains(d) {
                        let j = choose|j: int| 0 <= j < head.len() && head[j] == d;
                        assert(head1[j] == d);
                    }
                    assert(head1[i as int] == c);
                }
                assert(self.run.writes() =~= w0.union(
                    state::moved_any(net, s0, self.run.states(&self.board)),
                ));
            }
            i = i + 1;
        }
        proof {
            assert(self.clk_ids@.subrange(0, n as int) =~= self.clk_ids@);
            assert forall|c: int| 0 <= c < net.parts.len() implies self.run.states(&self.board)[c]
                == goal[c] by {
                if !self.clk_ids@.contains(c as u32) {
                    assert(net.parts[c].ty != CompType::Clk);
                }
            }
            assert(self.run.states(&self.board) =~= goal);
            assert forall|c: int| 0 <= c < self.board.comp_count implies self.board.part(c).sane(
                #[trigger] self.run.state(&self.board, c),
            ) by {
                assert(self.run.states(&self.board)[c] == goal[c]);
                assert(net.parts[c].valid());
                assert(old(self).run.state(&self.board, c) == s0[c]);
                behavior::lemma_beat_sane(net.parts[c], s0[c]);
            }
        }
    }
}

impl Simulation {
    /// Set every output of user input `c`: to `vals` where `high`, low otherwise.
    pub(super) fn set_outputs(&mut self, c: u32, vals: &Vec<bool>, high: bool)
        requires
            old(self).mid_tick(),
            c < old(self).board.comp_count,
            old(self).board.comp_ty@[c as int] == CompType::UserInput,
            vals@.len() == old(self).board.part(c as int).outputs.len(),
        ensures
            final(self).mid_tick(),
            *final(self) == (Simulation { run: final(self).run, ..*old(self) }),
            components::touched(
                &final(self).board,
                c as int,
                &old(self).run,
                &final(self).run,
            ),
            final(self).run.state(&final(self).board, c as int) == old(self).run.state(
                &old(self).board,
                c as int,
            ).with_outs(Seq::new(vals@.len(), |p: int| high && vals@[p])),
    {
        let ghost before = self.run;
        let mut outs: Vec<bool> = Vec::new();
        let n: usize = vals.len();
        let mut p: usize = 0;
        while p < n
            invariant
                p <= n,
                n == vals@.len(),
                outs@.len() == p,
                forall|k: int| 0 <= k < p ==> #[trigger] outs@[k] == (high && vals@[k]),
            decreases n - p,
        {
            outs.push(high && vals[p]);
            p = p + 1;
        }
        proof {
            components::lemma_untouched(&self.board, c as int, &self.run);
        }
        components::put_all(&mut self.run, &self.board, c, 0, &outs, Ghost(before));
        proof {
            let b = &self.board;
            let off = b.comp_out_off@;
            assert(off[c as int] <= off[c + 1] <= off[b.comp_count as int]);
            assert(self.run.state(b, c as int).outs =~= Seq::new(
                vals@.len(),
                |p: int| high && vals@[p],
            ));
            assert forall|k: int| 0 <= k < b.comp_count implies b.part(k).sane(
                #[trigger] self.run.state(b, k),
            ) by {
                assert(self.run.states(b)[k] == self.run.state(b, k));
                assert(before.states(b)[k] == before.state(b, k));
            }
        }
    }

    /// Pulse section: an armed pulse sets its outputs and is disarmed; a disarmed one clears them
    /// and ends.
    pub(super) fn fire_pulses(&mut self)
        requires
            old(self).mid_tick(),
        ensures
            final(self).mid_tick(),
            *final(self) == (Simulation {
                run: final(self).run,
                ui_pending: final(self).ui_pending,
                ..*old(self)
            }),
            sim::pulse_map(final(self).ui_pending@) == machine::disarmed(
                sim::pulse_map(old(self).ui_pending@),
            ),
            final(self).run.states(&final(self).board) == machine::pulsed(
                sim::pulse_map(old(self).ui_pending@),
                old(self).run.states(&old(self).board),
            ),
            final(self).run.writes() == old(self).run.writes().union(
                state::moved_any(
                    old(self).board@,
                    old(self).run.states(&old(self).board),
                    final(self).run.states(&final(self).board),
                ),
            ),
            final(self).run.write_buf@.len() == old(self).run.write_buf@.len()
                + state::flipped_all(
                old(self).board@,
                old(self).run.states(&old(self).board),
                final(self).run.states(&final(self).board),
            ),
    {
        let ghost net = self.board@;
        let ghost s0 = self.run.states(&self.board);
        let ghost w0 = self.run.writes();
        let ghost n0 = self.run.write_buf@.len();
        let ghost v0 = self.ui_pending@;
        let ghost pulses = sim::pulse_map(v0);
        let ghost goal = machine::pulsed(pulses, s0);
        let mut pending: Vec<UiPulse> = Vec::new();
        std::mem::swap(&mut pending, &mut self.ui_pending);
        proof {
            sim::lemma_moved_none(net, s0, s0);
            state::lemma_flipped_none(net, s0, s0, net.parts.len() as int);
            assert(w0.union(state::moved_any(net, s0, s0)) =~= w0);
            assert(v0.subrange(0, v0.len() as int) =~= v0);
        }
        while pending.len() > 0
            invariant
                old(self).mid_tick(),
                self.mid_tick(),
                net == old(self).board@,
                v0 == old(self).ui_pending@,
                pulses == sim::pulse_map(v0),
                s0 == old(self).run.states(&old(self).board),
                s0.len() == net.parts.len(),
                goal == machine::pulsed(pulses, s0),
                *self == (Simulation {
                    run: self.run,
                    ui_pending: self.ui_pending,
                    ..*old(self)
                }),
                pending@.len() <= v0.len(),
                pending@ == v0.subrange(0, pending@.len() as int),
                forall|c: int|
                    0 <= c < net.parts.len() ==> #[trigger] self.run.states(&self.board)[c] == (
                    if listed(v0, pending@.len() as int, c as u32) {
                        goal[c]
                    } else {
                        s0[c]
                    }),
                self.run.writes() == w0.union(
                    state::moved_any(net, s0, self.run.states(&self.board)),
                ),
                self.run.write_buf@.len() == n0 + state::flipped_all(
                    net,
                    s0,
                    self.run.states(&self.board),
                ),
                kept_pulses(v0, pending@.len() as int, self.ui_pending@),
            decreases pending@.len(),
        {
            let ghost k = pending@.len() - 1;
            let ghost cur = self.run.states(&self.board);
            let ghost kept = self.ui_pending@;
            let entry: UiPulse = pending.pop().unwrap();
            let c: u32 = entry.comp;
            proof {
                assert(entry == v0[k]);
                sim::lemma_pulse_entry(v0, k);
                assert(!listed(v0, k + 1, c));
                assert(cur[c as int] == s0[c as int]);
                assert(cur[c as int] == self.run.state(&self.board, c as int));
                assert(pending@ =~= v0.subrange(0, k));
            }
            self.set_outputs(c, &entry.state, entry.pending);
            proof {
                let next = self.run.state(&self.board, c as int);
                assert(next.outs =~= machine::pulse_outs(pulses[c]));
                assert(next == goal[c as int]);
                sim::lemma_moved_any_update(net, s0, cur, c as int, next);
                state::lemma_flipped_update(
                    net,
                    s0,
                    cur,
                    c as int,
                    next,
                    net.parts.len() as int,
                );
                assert(self.run.states(&self.board)[c as int] == next);
                assert forall|d: u32| #[trigger] listed(v0, k, d) <==> listed(v0, k + 1, d) || d
                    == c by {
                    if listed(v0, k, d) {
                        let j = choose|j: int| k <= j < v0.len() && (#[trigger] v0[j]).comp == d;
                        if j > k {
                            assert(v0[j].comp == d);
                        }
                    }
                    if listed(v0, k + 1, d) {
                        let j = choose|j: int|
                            k + 1 <= j < v0.len() && (#[trigger] v0[j]).comp == d;
                        assert(v0[j].comp == d);
                    }
                    assert(v0[k].comp == c);
                }
                assert(self.run.writes() =~= w0.union(
                    state::moved_any(net, s0, self.run.states(&self.board)),
                ));
            }
            if entry.pending {
                self.ui_pending.push(UiPulse { comp: c, state: entry.state, pending: false });
            }
            proof {
                lemma_kept_more(v0, k, kept, self.ui_pending@);
            }
        }
        proof {
            lemma_kept_all(v0, self.ui_pending@);
            assert forall|c: int| 0 <= c < net.parts.len() implies self.run.states(&self.board)[c]
                == goal[c] by {
                if pulses.dom().contains(c as u32) {
                    let j = choose|j: int| 0 <= j < v0.len() && #[trigger] v0[j].comp == c as u32;
                    assert(v0[j].comp == c as u32);
                    assert(listed(v0, 0, c as u32));
                } else if listed(v0, 0, c as u32) {
                    let j = choose|j: int| 0 <= j < v0.len() && (#[trigger] v0[j]).comp == c as u32;
                    assert(v0[j].comp == c as u32);
                }
            }
            assert(self.run.states(&self.board) =~= goal);
        }
    }

    /// The section between ticks: clocks, then pulses.
    pub(super) fn between_tick(&mut self)
        requires
            old(self).mid_tick(),
        ensures
            final(self).mid_tick(),
            *final(self) == (Simulation {
                run: final(self).run,
                ui_pending: final(self).ui_pending,
                ..*old(self)
            }),
            ({
                let net = old(self).board@;
                let pulses = sim::pulse_map(old(self).ui_pending@);
                let s0 = old(self).run.states(&old(self).board);
                let clocked = machine::beaten(net, s0);
                let done = machine::pulsed(pulses, clocked);
                &&& sim::pulse_map(final(self).ui_pending@) == machine::disarmed(pulses)
                &&& final(self).run.states(&final(self).board) == done
                &&& final(self).run.writes() == old(self).run.writes().union(
                    state::moved_any(net, s0, clocked),
                ).union(state::moved_any(net, clocked, done))
                &&& final(self).run.write_buf@.len() == old(self).run.write_buf@.len()
                    + state::flipped_all(net, s0, clocked) + state::flipped_all(net, clocked, done)
            }),
    {
        self.beat_clocks();
        self.fire_pulses();
    }

    /// End a tick: what was scheduled becomes due, the queues empty, the count goes up.
    pub(super) fn finish_tick(&mut self)
        requires
            old(self).mid_tick(),
            old(self).queues@.len() == N_TYPES,
        ensures
            final(self).wf(),
            final(self).net() == old(self).net(),
            final(self)@ == (Machine {
                reads: old(self)@.writes,
                writes: Set::empty(),
                tick: old(self).tick.wrapping_add(1),
                ..old(self)@
            }),
            final(self).backlog() == (Backlog { due: old(self).backlog().next, next: 0 }),
            final(self).board == old(self).board,
            final(self).snap_ids == old(self).snap_ids,
            final(self).snap_values == old(self).snap_values,
            final(self).delta_baseline == old(self).delta_baseline,
            final(self).state == old(self).state,
            final(self).speed == old(self).speed,
            final(self).last_capture == old(self).last_capture,
            final(self).last_capture_tick == old(self).last_capture_tick,
            final(self).last_parallel == old(self).last_parallel,
    {
        let ghost before = self.run;
        std::mem::swap(&mut self.read_buf, &mut self.run.write_buf);
        self.run.write_buf.clear();
        self.queues.clear();
        self.tick = self.tick.wrapping_add(1);
        proof {
            sim::lemma_same_states(&self.board, &before, &self.run);
            assert(self.run.writes() =~= Set::empty());
            assert(self@.reads =~= old(self)@.writes);
        }
    }

    /// The tick on the calling thread.
    pub(super) fn run_tick(&mut self)
        requires
            old(self).wf(),
        ensures
            final(self).wf(),
            final(self).net() == old(self).net(),
            final(self)@ == old(self)@.ticked(old(self).net()),
            final(self).backlog() == old(self).backlog().ticked(old(self).net(), old(self)@),
            final(self).unmoved(old(self)),
            !final(self).last_parallel,
    {
        self.read_phase();
        let ghost read = *self;
        self.compute_phase();
        let ghost computed = *self;
        self.between_tick();
        self.finish_tick();
        self.last_parallel = false;
        proof {
            lemma_phases(old(self), &read, &computed, self@, self.backlog());
        }
    }

    /// What a tick leaves alone beyond the model.
    pub(super) open spec fn unmoved(&self, before: &Simulation) -> bool {
        &&& self.snap_ids == before.snap_ids
        &&& self.snap_values == before.snap_values
        &&& self.delta_baseline == before.delta_baseline
        &&& self.state == before.state
        &&& self.speed == before.speed
        &&& self.last_capture == before.last_capture
        &&& self.last_capture_tick == before.last_capture_tick
    }
}

impl Simulation {
    /// One tick, whatever the lifecycle state.
    pub fn tick(&mut self)
        requires
            old(self).wf(),
        ensures
            final(self).wf(),
            final(self).net() == old(self).net(),
            final(self)@ == old(self)@.ticked(old(self).net()),
            final(self).backlog() == old(self).backlog().ticked(old(self).net(), old(self)@),
            final(self).lifecycle() == old(self).lifecycle(),
            final(self).has_baseline() == old(self).has_baseline(),
            final(self).delta() == old(self).delta(),
            final(self).gauge() == old(self).gauge(),
            !final(self).was_parallel(),
    {
        self.run_tick();
    }

    /// Run on the calling thread until the ticks are spent or the time is up. Without a time limit
    /// the number of ticks is exact.
    pub(super) fn run_single(&mut self, cfg: RunConfig)
        requires
            old(self).wf(),
        ensures
            final(self).wf(),
            final(self).net() == old(self).net(),
            old(self)@.runs_to(
                old(self).net(),
                cfg.ticks,
                cfg.timeout is Some,
                final(self)@,
            ),
            final(self).backlog() == old(self).backlog().after(
                old(self).net(),
                old(self)@,
                machine::ticks_between(old(self)@, final(self)@),
            ),
            final(self).lifecycle() == SimState::Stopped,
            driver::timed(
                old(self).measured(),
                old(self)@.tick,
                cfg.timeout,
                cfg.ticks,
                machine::ticks_between(old(self)@, final(self)@),
                final(self).gauge(),
            ),
            final(self).has_baseline() == old(self).has_baseline(),
            final(self).delta() == old(self).delta(),
            cfg.ticks > 0 ==> !final(self).was_parallel(),
            cfg.ticks == 0 ==> final(self).was_parallel() == old(self).was_parallel(),
    {
        let ghost net = self.net();
        let ghost m = self@;
        let ghost b = self.backlog();
        let start: Instant = self.begin_run();
        let mut remaining: u64 = cfg.ticks;
        let mut countdown: u64 = if remaining < CHECK_EVERY {
            remaining
        } else {
            CHECK_EVERY
        };
        let ghost mut done: nat = 0;
        let ghost mut log: Seq<Look> = Seq::empty();
        let ghost first = self.gauge();
        proof {
            driver::lemma_begin(first, cfg.timeout, cfg.ticks);
        }
        while remaining > 0
            invariant_except_break
                remaining > 0 ==> countdown > 0 && done + countdown == driver::look_at(
                    cfg.ticks,
                    log.len() as int,
                ),
                remaining > 0 ==> driver::going(
                    first,
                    cfg.timeout,
                    cfg.ticks,
                    log,
                    self.gauge(),
                ),
                remaining == 0 ==> driver::finished(
                    first,
                    cfg.timeout,
                    cfg.ticks,
                    done,
                    log,
                    self.gauge(),
                ),
            invariant
                self.wf(),
                self.net() == net,
                done + remaining == cfg.ticks,
                self@ == m.after(net, done),
                self.backlog() == b.after(net, m, done),
                first.since == start && first.tick == m.tick,
                self.state == SimState::Running,
                self.delta_baseline == old(self).delta_baseline,
                self.delta() == old(self).delta(),
                done > 0 ==> !self.last_parallel,
                done == 0 ==> self.last_parallel == old(self).last_parallel,
            ensures
                driver::finished(first, cfg.timeout, cfg.ticks, done, log, self.gauge()),
            decreases remaining,
        {
            if self.state == SimState::Stopping {
                break;
            }
            self.run_tick();
            proof {
                done = done + 1;
            }
            remaining = remaining - 1;
            countdown = countdown - 1;
            if countdown == 0 {
                let ghost before = self.gauge();
                let (over, look) = self.look_at_clock(&start, cfg.timeout);
                proof {
                    machine::lemma_ticks_between(net, m, done);
                    driver::lemma_look(first, cfg.timeout, cfg.ticks, log, before, look@);
                    log = log.push(look@);
                }
                if over {
                    break;
                }
                countdown = if remaining < CHECK_EVERY {
                    remaining
                } else {
                    CHECK_EVERY
                };
            }
        }
        self.state = SimState::Stopped;
        proof {
            assert(m.after(net, done) == self@);
            machine::lemma_ticks_between(net, m, done);
            driver::lemma_finished(first, cfg.timeout, cfg.ticks, done, log, self.gauge());
        }
    }

    /// Enter the running state and start the speed measurement.
    pub(super) fn begin_run(&mut self) -> (start: Instant)
        requires
            old(self).wf(),
        ensures
            final(self).wf(),
            clock::reads(start),
            *final(self) == (Simulation {
                state: SimState::Running,
                last_capture: start,
                last_capture_tick: old(self).tick,
                ..*old(self)
            }),
    {
        let start: Instant = clock::current();
        self.state = SimState::Running;
        self.last_capture = start;
        self.last_capture_tick = self.tick;
        start
    }

    /// Update the speed readout, over windows of about a second: a window `nanos` nanoseconds old
    /// goes on if it is shorter, and otherwise gives the speed and makes room for a new one.
    pub(super) fn update_speed(&mut self, nanos: u128)
        requires
            old(self).wf(),
        ensures
            final(self).wf(),
            nanos < clock::SECOND ==> *final(self) == *old(self),
            nanos >= clock::SECOND ==> *final(self) == (Simulation {
                speed: clock::rate_of(
                    old(self).tick.wrapping_sub(old(self).last_capture_tick),
                    nanos,
                ),
                last_capture: final(self).last_capture,
                last_capture_tick: old(self).tick,
                ..*old(self)
            }),
            nanos >= clock::SECOND ==> clock::reads(final(self).last_capture),
    {
        if nanos >= clock::SECOND {
            self.speed = clock::rate(self.tick.wrapping_sub(self.last_capture_tick), nanos);
            self.last_capture = clock::current();
            self.last_capture_tick = self.tick;
        }
    }

    /// A look at the clock in a run that began at `start`: update the speed readout, and tell
    /// whether the time limit has passed.
    pub(super) fn look_at_clock(&mut self, start: &Instant, limit: Option<u128>) -> (r: (
        bool,
        Ghost<Look>,
    ))
        requires
            old(self).wf(),
        ensures
            final(self).wf(),
            old(self).gauge().sees(*start, limit, r.1@),
            r.0 == clock::is_due(limit, r.1@.run),
            final(self).gauge() == old(self).gauge().noted(old(self).tick, r.1@),
            *final(self) == (Simulation {
                speed: final(self).speed,
                last_capture: final(self).last_capture,
                last_capture_tick: final(self).last_capture_tick,
                ..*old(self)
            }),
    {
        let window: u128 = clock::elapsed(&self.last_capture);
        self.update_speed(window);
        let run: u128 = if limit.is_some() {
            clock::elapsed(start)
        } else {
            0
        };
        let ghost look = Look { window, fresh: self.last_capture, run };
        (clock::due(limit, run), Ghost(look))
    }
}

/// Reading, computing, the section between ticks and the swap make up a tick.
pub(super) proof fn lemma_phases(
    start: &Simulation,
    read: &Simulation,
    computed: &Simulation,
    end: Machine,
    backlog: Backlog,
)
    requires
        start.wf(),
        read.read_upto(start, start@.reads),
        computed.computed_from(read),
        ({
            let net = start.board@;
            let pulses = sim::pulse_map(computed.ui_pending@);
            let s0 = computed.run.states(&computed.board);
            let clocked = machine::beaten(net, s0);
            let done = machine::pulsed(pulses, clocked);
            &&& end == (Machine {
                links: computed.link_state@,
                parts: done,
                pulses: machine::disarmed(pulses),
                reads: computed.run.writes().union(state::moved_any(net, s0, clocked)).union(
                    state::moved_any(net, clocked, done),
                ),
                writes: Set::empty(),
                changed: computed.poll_ids@.to_set(),
                tick: start.tick.wrapping_add(1),
            })
            &&& backlog == (Backlog {
                due: computed.run.write_buf@.len() + state::flipped_all(net, s0, clocked)
                    + state::flipped_all(net, clocked, done),
                next: 0,
            })
        }),
    ensures
        end == start@.ticked(start.board@),
        backlog == start.backlog().ticked(start.board@, start@),
{
    let net = start.board@;
    let m = start@;
    assert((Machine { reads: m.reads, ..m }) == m);
    assert(read.link_state@ == m.visible(net));
    assert(end =~= m.ticked(net));
}

/// Some entry from position `k` on belongs to component `c`.
spec fn listed(v: Seq<UiPulse>, k: int, c: u32) -> bool {
    exists|j: int| k <= j < v.len() && (#[trigger] v[j]).comp == c
}

/// Entry `b` is the armed entry `a`, disarmed.
spec fn disarms(a: UiPulse, b: UiPulse) -> bool {
    a.pending && !b.pending && a.comp == b.comp && a.state == b.state
}

/// Entry `e` is one of the armed entries of `v` from position `k` on, disarmed.
spec fn from_armed(v: Seq<UiPulse>, k: int, e: UiPulse) -> bool {
    exists|j: int| k <= j < v.len() && #[trigger] disarms(v[j], e)
}

/// `kept` holds the armed entries of `v` from position `k` on, disarmed.
spec fn kept_pulses(v: Seq<UiPulse>, k: int, kept: Seq<UiPulse>) -> bool {
    &&& forall|i: int| 0 <= i < kept.len() ==> from_armed(v, k, #[trigger] kept[i])
    &&& forall|j: int|
        k <= j < v.len() && (#[trigger] v[j]).pending ==> exists|i: int|
            0 <= i < kept.len() && (#[trigger] kept[i]).comp == v[j].comp
    &&& sim::distinct(kept)
}

proof fn lemma_kept_more(v: Seq<UiPulse>, k: int, kept: Seq<UiPulse>, more: Seq<UiPulse>)
    requires
        sim::distinct(v),
        0 <= k < v.len(),
        kept_pulses(v, k + 1, kept),
        v[k].pending ==> more == kept.push(
            UiPulse { comp: v[k].comp, state: v[k].state, pending: false },
        ),
        !v[k].pending ==> more == kept,
    ensures
        kept_pulses(v, k, more),
{
    assert forall|i: int| 0 <= i < more.len() implies from_armed(v, k, #[trigger] more[i]) by {
        if i < kept.len() {
            assert(from_armed(v, k + 1, kept[i]));
            let j = choose|j: int|
                k + 1 <= j < v.len() && #[trigger] disarms(v[j], kept[i]);
            assert(disarms(v[j], more[i]));
        } else {
            assert(disarms(v[k], more[i]));
        }
    }
    assert forall|j: int| k <= j < v.len() && (#[trigger] v[j]).pending implies exists|i: int|
        0 <= i < more.len() && (#[trigger] more[i]).comp == v[j].comp by {
        if j > k {
            let i = choose|i: int| 0 <= i < kept.len() && (#[trigger] kept[i]).comp == v[j].comp;
            assert(more[i].comp == v[j].comp);
        } else {
            assert(more[kept.len() as int].comp == v[k].comp);
        }
    }
    assert forall|a: int, b: int|
        0 <= a < more.len() && 0 <= b < more.len() && #[trigger] more[a].comp
            == #[trigger] more[b].comp implies a == b by {
        if a < kept.len() && b < kept.len() {
            assert(kept[a].comp == kept[b].comp);
        } else if a < kept.len() {
            assert(from_armed(v, k + 1, kept[a]));
            let j = choose|j: int|
                k + 1 <= j < v.len() && #[trigger] disarms(v[j], kept[a]);
            assert(v[j].comp == v[k].comp);
        } else if b < kept.len() {
            assert(from_armed(v, k + 1, kept[b]));
            let j = choose|j: int|
                k + 1 <= j < v.len() && #[trigger] disarms(v[j], kept[b]);
            assert(v[j].comp == v[k].comp);
        }
    }
}

proof fn lemma_kept_all(v: Seq<UiPulse>, kept: Seq<UiPulse>)
    requires
        sim::distinct(v),
        kept_pulses(v, 0, kept),
    ensures
        sim::pulse_map(kept) == machine::disarmed(sim::pulse_map(v)),
{
    let a = sim::pulse_map(kept);
    let b = machine::disarmed(sim::pulse_map(v));
    assert forall|c: u32| a.dom().contains(c) <==> b.dom().contains(c) by {
        if a.dom().contains(c) {
            let i = choose|i: int| 0 <= i < kept.len() && #[trigger] kept[i].comp == c;
            assert(kept[i].comp == c);
            assert(from_armed(v, 0, kept[i]));
            let j = choose|j: int|
                0 <= j < v.len() && #[trigger] disarms(v[j], kept[i]);
            sim::lemma_pulse_entry(v, j);
        }
        if b.dom().contains(c) {
            let j = choose|j: int| 0 <= j < v.len() && #[trigger] v[j].comp == c;
            assert(v[j].comp == c);
            sim::lemma_pulse_entry(v, j);
            let i = choose|i: int| 0 <= i < kept.len() && (#[trigger] kept[i]).comp == v[j].comp;
            assert(kept[i].comp == c);
        }
    }
    assert forall|c: u32| a.dom().contains(c) implies a[c] == b[c] by {
        let i = choose|i: int| 0 <= i < kept.len() && #[trigger] kept[i].comp == c;
        assert(kept[i].comp == c);
        sim::lemma_pulse_entry(kept, i);
        assert(from_armed(v, 0, kept[i]));
        let j = choose|j: int|
            0 <= j < v.len() && #[trigger] disarms(v[j], kept[i]);
        sim::lemma_pulse_entry(v, j);
    }
    assert(a =~= b);
}

/// The components in the first `n` queues.
pub(super) open spec fn queued_upto(qs: Seq<Seq<u32>>, n: int) -> Set<u32> {
    Set::new(|c: u32| exists|i: int| 0 <= i < n && i < qs.len() && #[trigger] qs[i].contains(c))
}

/// One more flipped link wakes its readers.
proof fn lemma_woken_insert(net: Netlist, links: Set<u32>, l: u32)
    requires
        net.parts.len() <= u32::MAX,
    ensures
        machine::woken(net, links.insert(l)) == machine::woken(net, links).union(
            net.readers(l).to_set(),
        ),
{
    netlist::lemma_readers(net, l, net.parts.len() as int);
    let a = machine::woken(net, links.insert(l));
    let b = machine::woken(net, links).union(net.readers(l).to_set());
    assert forall|c: u32| a.contains(c) <==> b.contains(c) by {
        let ins = net.parts[c as int].inputs;
        if a.contains(c) {
            let p = choose|p: int|
                0 <= p < ins.len() && links.insert(l).contains(#[trigger] ins[p]);
            if ins[p] == l {
                assert(ins.contains(l));
                assert(net.readers(l).contains(c));
            } else {
                assert(links.contains(ins[p]));
            }
        }
        if net.readers(l).to_set().contains(c) {
            assert(net.readers(l).contains(c));
            let p = choose|p: int| 0 <= p < ins.len() && ins[p] == l;
            assert(links.insert(l).contains(ins[p]));
        }
        if machine::woken(net, links).contains(c) {
            let p = choose|p: int| 0 <= p < ins.len() && links.contains(#[trigger] ins[p]);
            assert(links.insert(l).contains(ins[p]));
        }
    }
    assert(a =~= b);
}

} // verus!
