//! What the language bindings have in common: boards as plain objects, and runs that give way to an
//! event loop.

use vstd::prelude::*;
use vstd::string::StringExecFns;
use crate::board::{BoardDescriptor, ComponentDescriptor};
use crate::error::SimError;
#[allow(unused_imports)]
use crate::netlist::{BoardModel, ComponentModel};
use crate::session::BATCH;
use crate::sim::Simulation;
use crate::text;
use crate::types::CompType;

verus! {

/// A component as a binding hands it over, its type a bare number.
pub struct RawComponent {
    pub ty: u32,
    pub inputs: Vec<u32>,
    pub outputs: Vec<u32>,
    pub ops: Option<Vec<u32>>,
}

/// A board as a binding hands it over.
pub struct RawBoard {
    pub links: u32,
    pub components: Vec<RawComponent>,
}

impl RawComponent {
    /// Why the type number stands for no type, if it does not.
    pub open spec fn fault(self) -> Option<Seq<char>> {
        if self.ty > u16::MAX {
            Some("component type "@ + text::decimal(self.ty as nat) + " out of range"@)
        } else if CompType::of_number(self.ty as u16) is None {
            Some(SimError::UnknownComponentType(self.ty as u16).text())
        } else {
            None
        }
    }

    /// The component meant.
    pub open spec fn model(self) -> ComponentModel {
        ComponentModel {
            ty: CompType::of_number(self.ty as u16)->0,
            inputs: self.inputs@,
            outputs: self.outputs@,
            ops: match self.ops {
                Some(ops) => ops@,
                None => Seq::empty(),
            },
            neg_inputs: Seq::empty(),
            neg_outputs: Seq::empty(),
        }
    }

    /// Lower the component.
    fn into_core(&self) -> (r: Result<ComponentDescriptor, String>)
        ensures
            match self.fault() {
                Some(why) => r matches Err(e) && e@ == why,
                None => r matches Ok(c) && c@ == self.model(),
            },
    {
        if self.ty > 0xffff {
            let mut s: String = String::from_str("component type ");
            text::push_decimal(&mut s, self.ty as u64);
            s.append(" out of range");
            assert(s@ =~= "component type "@ + text::decimal(self.ty as nat) + " out of range"@);
            return Err(s);
        }
        match CompType::try_from(self.ty as u16) {
            Ok(ty) => {
                let ops: Vec<u32> = match &self.ops {
                    Some(ops) => vstd::slice::slice_to_vec(ops.as_slice()),
                    None => Vec::new(),
                };
                let c = ComponentDescriptor {
                    ty,
                    inputs: vstd::slice::slice_to_vec(self.inputs.as_slice()),
                    outputs: vstd::slice::slice_to_vec(self.outputs.as_slice()),
                    ops,
                    neg_inputs: Vec::new(),
                    neg_outputs: Vec::new(),
                };
                assert(c@.neg_inputs =~= Seq::empty() && c@.neg_outputs =~= Seq::empty());
                assert(c@.ops =~= self.model().ops);
                Ok(c)
            },
            Err(e) => Err(e.message()),
        }
    }
}

/// The first component from position `from` on whose type number stands for no type.
pub open spec fn first_untyped(cs: Seq<RawComponent>, from: int) -> int
    decreases cs.len() - from,
{
    if from < 0 || from >= cs.len() || cs[from].fault() is Some {
        from
    } else {
        first_untyped(cs, from + 1)
    }
}

impl RawBoard {
    /// Lower the board to a description, checking each type number.
    pub fn into_core(&self) -> (r: Result<BoardDescriptor, String>)
        ensures
            ({
                let cs = self.components@;
                let bad = first_untyped(cs, 0);
                if bad < cs.len() {
                    r matches Err(e) && Some(e@) == cs[bad].fault()
                } else {
                    r matches Ok(b) && b@ == (BoardModel {
                        links: self.links,
                        components: Seq::new(cs.len(), |i: int| cs[i].model()),
                    })
                }
            }),
    {
        let ghost cs = self.components@;
        let n: usize = self.components.len();
        let mut components: Vec<ComponentDescriptor> = Vec::new();
        let mut i: usize = 0;
        while i < n
            invariant
                i <= n,
                n == cs.len(),
                cs == self.components@,
                components@.len() == i,
                first_untyped(cs, 0) == first_untyped(cs, i as int),
                forall|k: int| 0 <= k < i ==> (#[trigger] components@[k])@ == cs[k].model(),
            decreases n - i,
        {
            match self.components[i].into_core() {
                Ok(c) => components.push(c),
                Err(e) => {
                    return Err(e);
                },
            }
            i = i + 1;
        }
        let b = BoardDescriptor { link_count: self.links, components };
        assert(b@.components =~= Seq::new(cs.len(), |i: int| cs[i].model()));
        Ok(b)
    }
}

/// Whether a run with these bounds is sure to end by itself.
pub fn bounded(ticks: u64, timeout: Option<u128>) -> (r: bool)
    ensures
        r == (ticks != u64::MAX || timeout is Some),
{
    ticks != u64::MAX || timeout.is_some()
}

/// A run that gives way to the event loop between batches.
pub struct Cooperative {
    done: u64,
    ticks: u64,
}

impl Cooperative {
    /// Ticks run so far.
    pub closed spec fn ran(self) -> u64 {
        self.done
    }

    /// Ticks to run.
    pub closed spec fn limit(self) -> u64 {
        self.ticks
    }

    /// No more ticks than wanted have been run.
    pub open spec fn ok(self) -> bool {
        self.ran() <= self.limit()
    }

    /// Ticks of the next batch.
    pub open spec fn next(self) -> u64 {
        if self.limit() - self.ran() < BATCH {
            (self.limit() - self.ran()) as u64
        } else {
            BATCH
        }
    }

    /// A run of up to `ticks` ticks.
    pub fn new(ticks: u64) -> (r: Self)
        ensures
            r.ok(),
            r.ran() == 0,
            r.limit() == ticks,
    {
        Cooperative { done: 0, ticks }
    }

    /// Whether the run is over: stopped, out of ticks, or out of time.
    pub fn finished(&self, stop: bool, timed_out: bool) -> (r: bool)
        requires
            self.ok(),
        ensures
            r == (stop || self.ran() == self.limit() || timed_out),
    {
        stop || self.done >= self.ticks || timed_out
    }

    /// Run the next batch, unless the run is stopped.
    pub fn batch(&mut self, sim: &mut Simulation, stop: bool)
        requires
            old(self).ok(),
            old(sim).wf(),
        ensures
            final(self).ok(),
            final(self).limit() == old(self).limit(),
            final(sim).wf(),
            final(sim).net() == old(sim).net(),
            final(sim).lifecycle() == old(sim).lifecycle(),
            final(sim).has_baseline() == old(sim).has_baseline(),
            final(sim).delta() == old(sim).delta(),
            final(sim).gauge() == old(sim).gauge(),
            final(sim).was_parallel() == (final(self).ran() == old(self).ran() && old(
                sim,
            ).was_parallel()),
            final(self).ran() == old(self).ran() + (if stop {
                0
            } else {
                old(self).next() as int
            }),
            final(sim)@ == old(sim)@.after(
                old(sim).net(),
                (final(self).ran() - old(self).ran()) as nat,
            ),
            final(sim).backlog() == old(sim).backlog().after(
                old(sim).net(),
                old(sim)@,
                (final(self).ran() - old(self).ran()) as nat,
            ),
    {
        if stop {
            return;
        }
        let left: u64 = self.ticks - self.done;
        let n: u64 = if left < BATCH {
            left
        } else {
            BATCH
        };
        let mut k: u64 = 0;
        while k < n
            invariant
                k <= n,
                n == old(self).next(),
                self.done == old(self).done + k,
                self.ticks == old(self).ticks,
                old(self).ok(),
                sim.wf(),
                sim.net() == old(sim).net(),
                sim.lifecycle() == old(sim).lifecycle(),
                sim.has_baseline() == old(sim).has_baseline(),
                sim.delta() == old(sim).delta(),
                sim.gauge() == old(sim).gauge(),
                sim.was_parallel() == (k == 0 && old(sim).was_parallel()),
                sim.backlog() == old(sim).backlog().after(old(sim).net(), old(sim)@, k as nat),
                sim@ == old(sim)@.after(old(sim).net(), k as nat),
            decreases n - k,
        {
            sim.tick();
            self.done = self.done + 1;
            k = k + 1;
        }
    }
}

/// A component that a binding hands over is accepted when its number fits 16 bits and stands for a type.
/// It then has that type and the given pins and ops, no ops if none are given, and no negated pins.
pub proof fn law_raw_component(c: RawComponent)
    ensures
        c.fault() is None <==> c.ty <= 65535 && CompType::of_number(c.ty as u16) is Some,
        c.fault() is None ==> {
            let m = c.model();
            &&& Some(m.ty) == CompType::of_number(c.ty as u16)
            &&& m.inputs == c.inputs@
            &&& m.outputs == c.outputs@
            &&& c.ops matches Some(ops) ==> m.ops == ops@
            &&& c.ops is None ==> m.ops.len() == 0
            &&& m.neg_inputs.len() == 0
            &&& m.neg_outputs.len() == 0
        },
{
}

/// Of several components whose number stands for no type, the first one is named.
pub proof fn law_first_untyped(cs: Seq<RawComponent>, from: int)
    requires
        0 <= from <= cs.len(),
    ensures
        from <= first_untyped(cs, from) <= cs.len(),
        forall|i: int|
            from <= i < first_untyped(cs, from) ==> (#[trigger] cs[i]).fault() is None,
        first_untyped(cs, from) < cs.len() ==> cs[first_untyped(cs, from)].fault() is Some,
    decreases cs.len() - from,
{
    if from < cs.len() && cs[from].fault() is None {
        law_first_untyped(cs, from + 1);
    }
}

/// A batch of a run that gives way is of 4096 ticks, or of those that are left if they are fewer.
pub proof fn law_next_batch(c: Cooperative)
    requires
        c.ok(),
    ensures
        c.next() <= 4096,
        c.ran() + c.next() <= c.limit(),
        c.next() < 4096 ==> c.ran() + c.next() == c.limit(),
{
}

} // verus!
