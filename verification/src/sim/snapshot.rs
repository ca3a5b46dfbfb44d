//! Snapshots at tick boundaries, full or delta.
//!
//! The read phase records every link that flips. A snapshot consumes that record: it is either full
//! (the caller reads the link values as they are) or a delta of the links in the record, and either
//! way the record starts anew.

use vstd::prelude::*;
#[allow(unused_imports)]
use vstd::arithmetic::power2;
#[allow(unused_imports)]
use crate::behavior;
#[allow(unused_imports)]
use crate::bits;
#[allow(unused_imports)]
use crate::machine::Machine;
#[allow(unused_imports)]
use crate::sim::readout;
#[allow(unused_imports)]
use crate::sim::{self, Simulation};

verus! {

/// How a snapshot is to be made.
#[derive(Clone, Copy, Debug)]
pub struct SnapshotConfig {
    /// Give a delta where possible.
    pub delta: bool,
    /// Most changed links a delta may carry, an eighth of the links where none is given; beyond it
    /// the snapshot is full.
    pub delta_limit: Option<usize>,
}

impl SnapshotConfig {
    /// Most changed links a delta on a board of `links` links may carry.
    pub open spec fn limit(self, links: nat) -> nat {
        match self.delta_limit {
            Some(n) => n as nat,
            None => links / 8,
        }
    }
}

impl Default for SnapshotConfig {
    /// A full snapshot; a delta, if one is asked for after all, may carry an eighth of the links.
    fn default() -> (r: Self)
        ensures
            r == (SnapshotConfig { delta: false, delta_limit: None }),
    {
        SnapshotConfig { delta: false, delta_limit: None }
    }
}

/// What a snapshot turned out to be.
#[derive(Clone, Copy, Debug, PartialEq, Eq, Structural)]
pub struct SnapshotInfo {
    /// A delta, to be read with `snapshot_ids` and `snapshot_values`; otherwise a full snapshot, to
    /// be read with `link_words` or `link_bytes`.
    pub is_delta: bool,
    /// The tick the snapshot shows.
    pub tick: u64,
    /// Changed links of a delta; all links of a full snapshot.
    pub changed: usize,
}

/// The values of the listed links.
pub open spec fn values_of(ids: Seq<u32>, links: Seq<bool>) -> Seq<bool> {
    Seq::new(ids.len(), |i: int| links[ids[i] as int])
}

/// The delta `(ids, values)` lists exactly the links of `changed`, each once, with their values.
pub open spec fn delta_of(d: (Seq<u32>, Seq<u8>), changed: Set<u32>, links: Seq<bool>) -> bool {
    &&& d.0.no_duplicates()
    &&& d.0.to_set() == changed
    &&& readout::packs(d.1, values_of(d.0, links))
}

/// The values a delta brings a reader of older values up to.
pub open spec fn applied(older: Seq<bool>, d: (Seq<u32>, Seq<u8>)) -> Seq<bool> {
    Seq::new(
        older.len(),
        |l: int|
            if d.0.contains(l as u32) {
                behavior::byte_bit(d.1, d.0.index_of(l as u32))
            } else {
                older[l]
            },
    )
}

/// A reader who applies a delta to the values of the last snapshot has the current values, if every
/// link that differs is among the changed ones.
pub proof fn law_delta_brings_up_to_date(
    older: Seq<bool>,
    links: Seq<bool>,
    changed: Set<u32>,
    d: (Seq<u32>, Seq<u8>),
)
    requires
        delta_of(d, changed, links),
        older.len() == links.len() <= u32::MAX,
        forall|l: u32|
            l < links.len() && older[l as int] != links[l as int] ==> #[trigger] changed.contains(l),
    ensures
        applied(older, d) == links,
{
    assert forall|l: int| 0 <= l < links.len() implies applied(older, d)[l] == links[l] by {
        let id = l as u32;
        assert(d.0.contains(id) <==> d.0.to_set().contains(id));
        if d.0.contains(id) {
            let i = d.0.index_of(id);
            assert(0 <= i < d.0.len() && d.0[i] == id);
            assert(values_of(d.0, links)[i] == links[l]);
            assert(behavior::byte_bit(d.1, i) == (i < d.0.len() && values_of(d.0, links)[i]));
        } else {
            assert(!changed.contains(id));
        }
    }
    assert(applied(older, d) =~= links);
}

/// What a snapshot does to a simulation, and when it is a delta: only where one was asked for, a full
/// one has been given out before, and no more links than the limit have changed.
pub open spec fn taken(
    before: &Simulation,
    cfg: SnapshotConfig,
    after: &Simulation,
    is_delta: bool,
) -> bool {
    &&& after@ == (Machine { changed: Set::empty(), ..before@ })
    &&& after.net() == before.net()
    &&& after.backlog() == before.backlog()
    &&& after.lifecycle() == before.lifecycle()
    &&& after.gauge() == before.gauge()
    &&& after.was_parallel() == before.was_parallel()
    &&& after.has_baseline()
    &&& is_delta == (cfg.delta && before.has_baseline() && before@.changed.len() <= cfg.limit(
        before.net().links,
    ))
    &&& is_delta ==> delta_of(after.delta(), before@.changed, before@.links)
    &&& !is_delta ==> after.delta() == before.delta()
}

/// A snapshot is a delta exactly where one was asked for, a snapshot has been taken before, and no
/// more links have changed than the limit, or than an eighth of all where none is given. It takes the
/// record of changes and leaves the simulation as it is otherwise. A delta names each changed link
/// once, and digit `i % 8` of byte `i / 8` of its values is the value of the link it names at `i`.
pub proof fn law_snapshot_shows_the_changes(
    before: &Simulation,
    cfg: SnapshotConfig,
    after: &Simulation,
    is_delta: bool,
    i: int,
)
    requires
        taken(before, cfg, after, is_delta),
    ensures
        is_delta <==> cfg.delta && before.has_baseline() && match cfg.delta_limit {
            Some(n) => before@.changed.len() <= n,
            None => 8 * before@.changed.len() <= before.net().links,
        },
        after.has_baseline(),
        after@.changed == Set::<u32>::empty(),
        after@.links == before@.links,
        after@.parts == before@.parts,
        after@.pulses == before@.pulses,
        after@.reads == before@.reads,
        after@.writes == before@.writes,
        after@.tick == before@.tick,
        is_delta ==> {
            let ids = after.delta().0;
            let values = after.delta().1;
            &&& ids.no_duplicates()
            &&& forall|l: u32| #[trigger] ids.contains(l) <==> before@.changed.contains(l)
            &&& 8 * values.len() >= ids.len() > 8 * (values.len() - 1)
            &&& 0 <= i < ids.len() ==> ((values[i / 8] as nat / power2::pow2((i % 8) as nat)) % 2
                == 1) == before@.links[ids[i] as int]
        },
{
    if is_delta {
        let ids = after.delta().0;
        let values = after.delta().1;
        assert(forall|l: u32| #[trigger] ids.contains(l) <==> ids.to_set().contains(l));
        if 0 <= i < ids.len() {
            readout::law_values_are_packed(values, values_of(ids, before@.links), i);
        }
    }
}

impl Simulation {
    /// Make a snapshot. It is a delta only where one was asked for, a full one has been given out
    /// before, and no more links than the limit have changed.
    pub fn snapshot(&mut self, cfg: SnapshotConfig) -> (info: SnapshotInfo)
        requires
            old(self).wf(),
        ensures
            final(self).wf(),
            taken(old(self), cfg, final(self), info.is_delta),
            info.tick == old(self)@.tick,
            info.changed == (if info.is_delta {
                old(self)@.changed.len()
            } else {
                old(self).net().links
            }),
    {
        let changed: usize = self.poll_ids.len();
        let ghost ids = self.poll_ids@;
        let ghost links = self.link_state@;
        proof {
            ids.unique_seq_to_set();
        }
        let limit: usize = match cfg.delta_limit {
            Some(n) => n,
            None => self.board.link_count as usize / 8,
        };
        let use_delta: bool = cfg.delta && self.delta_baseline && changed <= limit;
        if use_delta {
            let values: Vec<u8> = self.pack_changed();
            let mut fresh: Vec<u32> = Vec::new();
            std::mem::swap(&mut fresh, &mut self.poll_ids);
            self.forget_flips(&fresh);
            self.snap_ids = fresh;
            self.snap_values = values;
            proof {
                assert(self@.changed =~= Set::empty());
                assert(self@ =~= (Machine { changed: Set::empty(), ..old(self)@ }));
            }
            SnapshotInfo { is_delta: true, tick: self.tick, changed }
        } else {
            let mut fresh: Vec<u32> = Vec::new();
            std::mem::swap(&mut fresh, &mut self.poll_ids);
            self.forget_flips(&fresh);
            self.delta_baseline = true;
            proof {
                assert(self@.changed =~= Set::empty());
                assert(self@ =~= (Machine { changed: Set::empty(), ..old(self)@ }));
            }
            SnapshotInfo {
                is_delta: false,
                tick: self.tick,
                changed: self.board.link_count as usize,
            }
        }
    }

    /// The values of the recorded links, packed.
    fn pack_changed(&self) -> (r: Vec<u8>)
        requires
            self.wf(),
        ensures
            readout::packs(r@, values_of(self.poll_ids@, self.link_state@)),
    {
        let ghost vals = values_of(self.poll_ids@, self.link_state@);
        let n: usize = self.poll_ids.len();
        let n_bytes: usize = n / 8 + if n % 8 == 0 {
            0usize
        } else {
            1usize
        };
        let mut out: Vec<u8> = Vec::new();
        while out.len() < n_bytes
            invariant
                out@.len() <= n_bytes,
                forall|i: int| 0 <= i < out@.len() ==> out@[i] == 0,
            decreases n_bytes - out@.len(),
        {
            out.push(0);
        }
        proof {
            bits::lemma_bit8_zero();
        }
        let mut i: usize = 0;
        while i < n
            invariant
                i <= n,
                n == self.poll_ids@.len(),
                self.wf(),
                vals == values_of(self.poll_ids@, self.link_state@),
                out@.len() == (n + 7) / 8,
                forall|k: int|
                    0 <= k < 8 * out@.len() ==> #[trigger] behavior::byte_bit(out@, k) == (k < i
                        && vals[k]),
            decreases n - i,
        {
            let l: u32 = self.poll_ids[i];
            assert(self.poll_ids@.contains(l));
            if self.link_state.get(l) {
                let at: usize = i / 8;
                let k: u8 = (i % 8) as u8;
                let cur: u8 = out[at];
                let ghost before = out@;
                proof {
                    bits::lemma_bit8_mask(cur, k);
                }
                out[at] = cur | (1u8 << k);
                proof {
                    assert forall|j: int| 0 <= j < 8 * out@.len() implies #[trigger] behavior::byte_bit(
                        out@,
                        j,
                    ) == (j < i + 1 && vals[j]) by {
                        assert(behavior::byte_bit(before, j) == (j < i && vals[j]));
                        if j / 8 == at {
                            assert(bits::bit8(out@[j / 8], j % 8) == (j % 8 == k || bits::bit8(
                                before[j / 8],
                                j % 8,
                            )));
                        }
                    }
                }
            }
            i = i + 1;
        }
        out
    }

    /// Clear the marks of the listed links, which were taken off the record.
    fn forget_flips(&mut self, ids: &Vec<u32>)
        requires
            old(self).board.wf(),
            old(self).poll_ids@.len() == 0,
            old(self).poll_seen.wf(),
            old(self).poll_seen@.len() == old(self).board.link_count,
            forall|l: u32| #[trigger]
                ids@.contains(l) <==> l < old(self).board.link_count
                    && old(self).poll_seen@[l as int],
        ensures
            final(self).polls_ok(),
            *final(self) == (Simulation { poll_seen: final(self).poll_seen, ..*old(self) }),
    {
        let n: usize = ids.len();
        proof {
            assert(ids@.subrange(0, n as int) =~= ids@);
            assert forall|l: int|
                0 <= l < self.board.link_count && #[trigger] self.poll_seen@[l] implies ids@.subrange(
                0,
                n as int,
            ).contains(l as u32) by {
                assert(ids@.contains(l as u32));
            }
        }
        let mut i: usize = 0;
        while i < n
            invariant
                i <= n,
                n == ids@.len(),
                *self == (Simulation { poll_seen: self.poll_seen, ..*old(self) }),
                self.poll_ids@.len() == 0,
                self.poll_seen.wf(),
                self.poll_seen@.len() == self.board.link_count,
                forall|l: u32| #[trigger]
                    ids@.contains(l) <==> l < old(self).board.link_count
                        && old(self).poll_seen@[l as int],
                forall|l: int|
                    0 <= l < self.board.link_count && #[trigger] self.poll_seen@[l]
                        ==> ids@.subrange(i as int, n as int).contains(l as u32),
            decreases n - i,
        {
            assert(ids@.contains(ids@[i as int]));
            let ghost before = self.poll_seen@;
            self.poll_seen.set(ids[i], false);
            proof {
                assert forall|l: int|
                    0 <= l < self.board.link_count && #[trigger] self.poll_seen@[l] implies ids@.subrange(
                    i + 1,
                    n as int,
                ).contains(l as u32) by {
                    assert(before[l]);
                    let rest = ids@.subrange(i as int, n as int);
                    let k = choose|k: int| 0 <= k < rest.len() && rest[k] == l as u32;
                    assert(k > 0);
                    assert(ids@.subrange(i + 1, n as int)[k - 1] == l as u32);
                }
            }
            i = i + 1;
        }
        proof {
            assert forall|l: u32| !(l < self.board.link_count && #[trigger] self.poll_seen@[l as int]) by {
                if l < self.board.link_count && self.poll_seen@[l as int] {
                    assert(ids@.subrange(n as int, n as int).contains(l));
                }
            }
        }
    }

    /// Links of the last delta snapshot, pairing with [`snapshot_values`](Self::snapshot_values).
    pub fn snapshot_ids(&self) -> (r: &[u32])
        ensures
            r@ == self.delta().0,
    {
        self.snap_ids.as_slice()
    }

    /// Packed values of the last delta snapshot: bit `i` is the value of link `snapshot_ids()[i]`.
    pub fn snapshot_values(&self) -> (r: &[u8])
        ensures
            r@ == self.delta().1,
    {
        self.snap_values.as_slice()
    }
}

} // verus!
