//! The mutable state of a running board and the operations that change it.
//!
//! Every change of an output goes through [`RunState::drive`], which keeps the count of powered
//! drivers per link and schedules the link for the next read phase.

use vstd::prelude::*;
#[allow(unused_imports)]
use crate::behavior::{self, PartState};
#[allow(unused_imports)]
use crate::bits;
use crate::bitset::BitSet;
#[allow(unused_imports)]
use crate::board::{self, Board};
#[allow(unused_imports)]
use crate::netlist::{Netlist, Part};
#[allow(unused_imports)]
use crate::reduce;
use crate::scratch::Scratch;
#[allow(unused_imports)]
use crate::types::CompType;

verus! {

/// Output pin `p` of component `c` drives link `l` high.
pub open spec fn feeds(net: Netlist, states: Seq<PartState>, l: u32, c: int, p: int) -> bool {
    &&& 0 <= c < net.parts.len()
    &&& 0 <= p < net.parts[c].outputs.len()
    &&& net.parts[c].outputs[p] == l
    &&& net.parts[c].drives(states[c], p)
}

/// The wired OR of a link: some output drives it high.
pub open spec fn powered(net: Netlist, states: Seq<PartState>, l: u32) -> bool {
    exists|c: int, p: int| #[trigger] feeds(net, states, l, c, p)
}

/// The links of the outputs on which the two states of a component differ.
pub open spec fn moved(part: Part, a: PartState, b: PartState) -> Set<u32> {
    Set::new(
        |l: u32|
            exists|p: int|
                0 <= p < part.outputs.len() && #[trigger] part.outputs[p] == l && a.outs[p]
                    != b.outs[p],
    )
}

/// The links of the outputs on which the two states of some component differ.
pub open spec fn moved_any(net: Netlist, a: Seq<PartState>, b: Seq<PartState>) -> Set<u32> {
    Set::new(
        |l: u32|
            exists|c: int|
                0 <= c < net.parts.len() && #[trigger] moved(net.parts[c], a[c], b[c]).contains(l),
    )
}

/// On how many of the first `n` output pins two lists of outputs differ.
pub open spec fn differing(a: Seq<bool>, b: Seq<bool>, n: int) -> nat
    decreases n,
{
    if n <= 0 {
        0
    } else {
        differing(a, b, n - 1) + if a[n - 1] != b[n - 1] {
            1nat
        } else {
            0
        }
    }
}

/// How many output pins differ between two states of a component.
pub open spec fn flipped(part: Part, a: PartState, b: PartState) -> nat {
    differing(a.outs, b.outs, part.outputs.len() as int)
}

/// How many output pins of the first `n` components differ between two states.
pub open spec fn flipped_upto(net: Netlist, a: Seq<PartState>, b: Seq<PartState>, n: int) -> nat
    decreases n,
{
    if n <= 0 {
        0
    } else {
        flipped_upto(net, a, b, n - 1) + flipped(net.parts[n - 1], a[n - 1], b[n - 1])
    }
}

/// How many output pins of the board differ between two states.
pub open spec fn flipped_all(net: Netlist, a: Seq<PartState>, b: Seq<PartState>) -> nat {
    flipped_upto(net, a, b, net.parts.len() as int)
}

/// Equal outputs differ nowhere.
pub proof fn lemma_differing_none(a: Seq<bool>, n: int)
    ensures
        differing(a, a, n) == 0,
    decreases n,
{
    if n > 0 {
        lemma_differing_none(a, n - 1);
    }
}

/// Setting one pin that was as before adds a difference if it changes.
pub proof fn lemma_differing_set(a: Seq<bool>, b: Seq<bool>, pin: int, v: bool, n: int)
    requires
        0 <= pin < b.len(),
        a[pin] == b[pin],
        n <= b.len(),
    ensures
        differing(a, b.update(pin, v), n) == differing(a, b, n) + if pin < n && b[pin] != v {
            1nat
        } else {
            0
        },
    decreases n,
{
    if n > 0 {
        lemma_differing_set(a, b, pin, v, n - 1);
    }
}

/// States with equal outputs differ on no pin.
pub proof fn lemma_flipped_none(net: Netlist, a: Seq<PartState>, b: Seq<PartState>, n: int)
    requires
        n <= net.parts.len(),
        forall|c: int| 0 <= c < net.parts.len() ==> (#[trigger] a[c]).outs == b[c].outs,
    ensures
        flipped_upto(net, a, b, n) == 0,
    decreases n,
{
    if n > 0 {
        lemma_flipped_none(net, a, b, n - 1);
        assert(a[n - 1].outs == b[n - 1].outs);
        lemma_differing_none(a[n - 1].outs, net.parts[n - 1].outputs.len() as int);
    }
}

/// Giving a component that was as before a new state adds the pins that this flips.
pub proof fn lemma_flipped_update(
    net: Netlist,
    a: Seq<PartState>,
    b: Seq<PartState>,
    c: int,
    next: PartState,
    n: int,
)
    requires
        0 <= c < net.parts.len(),
        n <= net.parts.len(),
        b.len() == net.parts.len(),
        b[c].outs == a[c].outs,
    ensures
        flipped_upto(net, a, b.update(c, next), n) == flipped_upto(net, a, b, n) + if c < n {
            flipped(net.parts[c], a[c], next)
        } else {
            0
        },
    decreases n,
{
    if n > 0 {
        lemma_flipped_update(net, a, b, c, next, n - 1);
        if n - 1 == c {
            lemma_differing_none(a[c].outs, net.parts[c].outputs.len() as int);
        }
    }
}

/// How many of the first `n` output pins of the board drive link `l` high.
pub open spec fn drivers(links: Seq<u32>, neg: Seq<bool>, outs: Seq<bool>, l: u32, n: int) -> nat
    decreases n,
{
    if n <= 0 {
        0
    } else {
        drivers(links, neg, outs, l, n - 1) + if links[n - 1] == l && outs[n - 1] != neg[n - 1] {
            1nat
        } else {
            0
        }
    }
}

/// Mutable run state of a board.
pub struct RunState {
    /// Logical value of each output pin.
    pub output_state: BitSet,
    /// Number of outputs that drive each link high.
    pub driver_count: Vec<u32>,
    /// Scratch of the stateful types.
    pub scratch: Scratch,
    /// Ticks each clock has counted towards its period.
    pub clk_count: Vec<u32>,
    /// Links scheduled for the next read phase.
    pub write_buf: Vec<u32>,
}

impl RunState {
    /// Bits of the RAM region of component `c`.
    pub open spec fn mem(&self, board: &Board, c: int) -> Seq<bool> {
        Seq::new(
            board.part(c).mem_bits(),
            |k: int| behavior::byte_bit(self.scratch.mem@, 8 * board.comp_config@[c].a + k),
        )
    }

    /// State of component `c`.
    pub open spec fn state(&self, board: &Board, c: int) -> PartState {
        PartState {
            outs: board::csr_row(board.comp_out_off@, self.output_state@, c),
            sel: self.scratch.sel@[c] as int,
            edge: self.scratch.edge_prev@[c],
            mem: self.mem(board, c),
            running: self.scratch.clk_subscribed@[c],
            count: self.clk_count@[c] as int,
        }
    }

    /// States of all components.
    pub open spec fn states(&self, board: &Board) -> Seq<PartState> {
        Seq::new(board.comp_count as nat, |c: int| self.state(board, c))
    }

    /// The links scheduled for the next read phase.
    pub open spec fn writes(&self) -> Set<u32> {
        self.write_buf@.to_set()
    }

    /// The driver count of each link is the number of outputs that drive it high.
    pub open spec fn counted(&self, board: &Board) -> bool {
        forall|l: u32|
            l < board.link_count ==> #[trigger] self.driver_count@[l as int] == drivers(
                board.output_link@,
                board.out_negate@,
                self.output_state@,
                l,
                board.output_count as int,
            )
    }

    /// Sized for the board, counts in step, scheduled links existing.
    pub open spec fn wf(&self, board: &Board) -> bool {
        &&& self.output_state.wf()
        &&& self.output_state@.len() == board.output_count
        &&& self.driver_count@.len() == board.link_count
        &&& self.scratch.fits(board.comp_count as nat, board.ram_bytes as nat)
        &&& self.clk_count@.len() == board.comp_count
        &&& self.counted(board)
        &&& forall|i: int|
            0 <= i < self.write_buf@.len() ==> #[trigger] self.write_buf@[i] < board.link_count
    }

    /// Every component's state is sane.
    pub open spec fn sane(&self, board: &Board) -> bool {
        forall|c: int|
            0 <= c < board.comp_count ==> board.part(c).sane(#[trigger] self.state(board, c))
    }
}

/// Flipping one output changes the count of its link by one and no other count.
proof fn lemma_drivers_flip(
    links: Seq<u32>,
    neg: Seq<bool>,
    outs: Seq<bool>,
    o: int,
    l: u32,
    n: int,
)
    requires
        0 <= o < outs.len(),
        0 <= n <= outs.len(),
        links.len() == outs.len(),
        neg.len() == outs.len(),
    ensures
        drivers(links, neg, outs.update(o, !outs[o]), l, n) == drivers(links, neg, outs, l, n) + (
        if o < n && links[o] == l {
            if outs[o] != neg[o] {
                -1int
            } else {
                1int
            }
        } else {
            0int
        }),
    decreases n,
{
    if n > 0 {
        lemma_drivers_flip(links, neg, outs, o, l, n - 1);
    }
}

/// A link has no more drivers than the board has outputs, and at least one where an output drives
/// it.
proof fn lemma_drivers_bound(links: Seq<u32>, neg: Seq<bool>, outs: Seq<bool>, l: u32, n: int)
    requires
        0 <= n <= outs.len(),
    ensures
        drivers(links, neg, outs, l, n) <= n,
        drivers(links, neg, outs, l, n) > 0 <==> exists|o: int|
            0 <= o < n && #[trigger] links[o] == l && outs[o] != neg[o],
    decreases n,
{
    if n > 0 {
        lemma_drivers_bound(links, neg, outs, l, n - 1);
        if drivers(links, neg, outs, l, n) > 0 {
            if links[n - 1] == l && outs[n - 1] != neg[n - 1] {
                assert(exists|o: int| 0 <= o < n && #[trigger] links[o] == l && outs[o] != neg[o]);
            } else {
                let o = choose|o: int|
                    0 <= o < n - 1 && #[trigger] links[o] == l && outs[o] != neg[o];
                assert(links[o] == l);
            }
        }
        if exists|o: int| 0 <= o < n && #[trigger] links[o] == l && outs[o] != neg[o] {
            let o = choose|o: int| 0 <= o < n && #[trigger] links[o] == l && outs[o] != neg[o];
            assert(links[o] == l);
        }
    }
}

/// Every position of the rows belongs to a row.
pub proof fn lemma_owner<A>(off: Seq<u32>, rows: Seq<A>, n: int, o: int) -> (c: int)
    requires
        board::csr_ok(off, rows, n),
        n >= 0,
        0 <= o < rows.len(),
    ensures
        0 <= c < n,
        off[c] <= o < off[c + 1],
{
    lemma_owner_below(off, o, n)
}

proof fn lemma_owner_below(off: Seq<u32>, o: int, k: int) -> (c: int)
    requires
        0 <= k < off.len(),
        off[0] == 0,
        0 <= o < off[k],
    ensures
        0 <= c < k,
        off[c] <= o < off[c + 1],
    decreases k,
{
    if off[k - 1] <= o {
        k - 1
    } else {
        lemma_owner_below(off, o, k - 1)
    }
}

/// A link's driver count is non-zero exactly when the wired OR of its drivers is high.
pub proof fn law_count_is_wired_or(board: &Board, run: &RunState, l: u32)
    requires
        board.wf(),
        run.wf(board),
        l < board.link_count,
    ensures
        run.driver_count@[l as int] != 0 <==> powered(board@, run.states(board), l),
{
    let links = board.output_link@;
    let neg = board.out_negate@;
    let outs = run.output_state@;
    let n = board.output_count as int;
    let off = board.comp_out_off@;
    let states = run.states(board);
    assert(run.driver_count@[l as int] == drivers(links, neg, outs, l, n));
    lemma_drivers_bound(links, neg, outs, l, n);
    if run.driver_count@[l as int] != 0 {
        let o = choose|o: int| 0 <= o < n && #[trigger] links[o] == l && outs[o] != neg[o];
        let c = lemma_owner(off, links, board.comp_count as int, o);
        let p = o - off[c];
        assert(off[c + 1] <= off[board.comp_count as int]);
        assert(board@.parts[c].outputs[p] == l);
        assert(states[c].outs[p] == outs[o]);
        assert(board@.parts[c].neg_outputs[p] == neg[o]);
        assert(feeds(board@, states, l, c, p));
    }
    if powered(board@, states, l) {
        let (c, p) = choose|c: int, p: int| #[trigger] feeds(board@, states, l, c, p);
        let o = off[c] + p;
        assert(off[c] <= off[c + 1]);
        assert(off[c + 1] <= off[board.comp_count as int]);
        assert(links[o] == l);
        assert(outs[o] == states[c].outs[p]);
        assert(neg[o] == board@.parts[c].neg_outputs[p]);
    }
}

/// Changing one output pin changes the state of its component only.
proof fn lemma_output_frame(board: &Board, a: &RunState, b: &RunState, c: int, pin: int, v: bool)
    requires
        board.wf(),
        a.wf(board),
        0 <= c < board.comp_count,
        0 <= pin < board.part(c).outputs.len(),
        b.output_state@ == a.output_state@.update(board.comp_out_off@[c] + pin, v),
        b.scratch == a.scratch,
        b.clk_count == a.clk_count,
    ensures
        b.states(board) == a.states(board).update(
            c,
            a.state(board, c).with_outs(a.state(board, c).outs.update(pin, v)),
        ),
        b.state(board, c) == a.state(board, c).with_outs(a.state(board, c).outs.update(pin, v)),
{
    let off = board.comp_out_off@;
    let n = board.comp_count as int;
    let want = a.states(board).update(
        c,
        a.state(board, c).with_outs(a.state(board, c).outs.update(pin, v)),
    );
    assert(off[c] <= off[c + 1] <= off[n]);
    assert forall|d: int| 0 <= d < n implies b.states(board)[d] == want[d] by {
        assert(off[d] <= off[d + 1] <= off[n]);
        if d < c {
            assert(off[d + 1] <= off[c]);
        }
        if d > c {
            assert(off[c + 1] <= off[d]);
        }
        assert(b.mem(board, d) =~= a.mem(board, d));
        assert(b.state(board, d).outs =~= want[d].outs);
    }
    assert(b.states(board) =~= want);
    assert(b.states(board)[c] == b.state(board, c));
}

impl RunState {
    /// Zeroed run state for a board: every output low, nothing scheduled. Negated outputs drive
    /// their links high from the start, so they are counted and scheduled.
    pub fn new(board: &Board) -> (r: Self)
        requires
            board.wf(),
        ensures
            r.wf(board),
            forall|c: int|
                0 <= c < board.comp_count ==> #[trigger] r.state(board, c) == (PartState {
                    running: false,
                    ..board.part(c).cleared()
                }),
            r.writes() == negated_links(board@),
            r.write_buf@.len() == negated_upto(board@, board@.parts.len() as int),
    {
        let n: u32 = board.output_count;
        let output_state: BitSet = BitSet::new(n);
        let ghost low = output_state@;
        let ghost links = board.output_link@;
        let ghost neg = board.out_negate@;
        let mut driver_count: Vec<u32> = Vec::new();
        let mut l: u32 = 0;
        while l < board.link_count
            invariant
                l <= board.link_count,
                driver_count@.len() == l,
                forall|i: int| 0 <= i < l ==> driver_count@[i] == 0,
            decreases board.link_count - l,
        {
            driver_count.push(0);
            l = l + 1;
        }
        let mut clk_count: Vec<u32> = Vec::new();
        let mut c: u32 = 0;
        while c < board.comp_count
            invariant
                c <= board.comp_count,
                clk_count@.len() == c,
                forall|i: int| 0 <= i < c ==> clk_count@[i] == 0,
            decreases board.comp_count - c,
        {
            clk_count.push(0);
            c = c + 1;
        }
        let mut write_buf: Vec<u32> = Vec::new();
        let mut o: u32 = 0;
        while o < n
            invariant
                o <= n,
                n == board.output_count,
                board.wf(),
                links == board.output_link@,
                neg == board.out_negate@,
                low == Seq::new(n as nat, |i: int| false),
                driver_count@.len() == board.link_count,
                forall|l: u32|
                    l < board.link_count ==> #[trigger] driver_count@[l as int] == drivers(
                        links,
                        neg,
                        low,
                        l,
                        o as int,
                    ),
                forall|i: int|
                    0 <= i < write_buf@.len() ==> exists|q: int|
                        0 <= q < o && neg[q] && #[trigger] links[q] == #[trigger] write_buf@[i],
                forall|q: int|
                    0 <= q < o && neg[q] ==> write_buf@.contains(#[trigger] links[q]),
                write_buf@.len() == behavior::ones(neg.subrange(0, o as int)),
            decreases n - o,
        {
            let link: u32 = board.output_link[o as usize];
            proof {
                let k = lemma_owner(
                    board.comp_out_off@,
                    links,
                    board.comp_count as int,
                    o as int,
                );
                assert(board@.parts[k].outputs[o - board.comp_out_off@[k]] == link);
                lemma_drivers_bound(links, neg, low, link, o as int);
            }
            let ghost buf0 = write_buf@;
            proof {
                assert(neg.subrange(0, o + 1) =~= neg.subrange(0, o as int).push(neg[o as int]));
                behavior::lemma_ones_push(neg.subrange(0, o as int), neg[o as int]);
            }
            if board.out_negate.get(o) {
                driver_count[link as usize] = driver_count[link as usize] + 1;
                write_buf.push(link);
                proof {
                    assert(write_buf@[buf0.len() as int] == link);
                    assert forall|q: int| 0 <= q < o + 1 && neg[q] implies write_buf@.contains(
                        #[trigger] links[q],
                    ) by {
                        if q < o {
                            assert(buf0.contains(links[q]));
                            let i = choose|i: int| 0 <= i < buf0.len() && buf0[i] == links[q];
                            assert(write_buf@[i] == links[q]);
                        }
                    }
                    assert forall|i: int| 0 <= i < write_buf@.len() implies exists|q: int|
                        0 <= q < o + 1 && neg[q] && #[trigger] links[q] == #[trigger] write_buf@[i] by {
                        if i < buf0.len() {
                            assert(write_buf@[i] == buf0[i]);
                            let q = choose|q: int|
                                0 <= q < o && neg[q] && #[trigger] links[q] == buf0[i];
                            assert(links[q] == write_buf@[i]);
                        } else {
                            assert(links[o as int] == write_buf@[i]);
                        }
                    }
                }
            }
            o = o + 1;
        }
        let scratch: Scratch = Scratch::new(board.comp_count, board.ram_bytes);
        let r = RunState { output_state, driver_count, scratch, clk_count, write_buf };
        proof {
            bits::lemma_bit8_zero();
            let off = board.comp_out_off@;
            assert forall|c: int| 0 <= c < board.comp_count implies #[trigger] r.state(board, c)
                == (PartState { running: false, ..board.part(c).cleared() }) by {
                let want = PartState { running: false, ..board.part(c).cleared() };
                assert(off[c] <= off[c + 1] <= off[board.comp_count as int]);
                assert(r.state(board, c).outs =~= want.outs);
                lemma_region(board, c);
                assert(r.state(board, c).mem =~= want.mem);
            }
            assert forall|i: int| 0 <= i < write_buf@.len() implies #[trigger] r.write_buf@[i]
                < board.link_count by {
                let q = choose|q: int|
                    0 <= q < n && neg[q] && #[trigger] links[q] == #[trigger] write_buf@[i];
                let k = lemma_owner(off, links, board.comp_count as int, q);
                assert(board@.parts[k].outputs[q - off[k]] == links[q]);
            }
            assert forall|l: u32| r.writes().contains(l) <==> negated_links(board@).contains(l) by {
                if write_buf@.contains(l) {
                    let i = choose|i: int| 0 <= i < write_buf@.len() && write_buf@[i] == l;
                    let q = choose|q: int|
                        0 <= q < n && neg[q] && #[trigger] links[q] == #[trigger] write_buf@[i];
                    let k = lemma_owner(off, links, board.comp_count as int, q);
                    let p = q - off[k];
                    assert(off[k + 1] <= off[board.comp_count as int]);
                    assert(board@.parts[k].outputs[p] == l);
                    assert(board@.parts[k].neg_outputs[p]);
                }
                if negated_links(board@).contains(l) {
                    let (k, p) = choose|k: int, p: int|
                        0 <= k < board@.parts.len() && 0 <= p < board@.parts[k].outputs.len()
                            && #[trigger] board@.parts[k].outputs[p] == l
                            && board@.parts[k].neg_outputs[p];
                    assert(off[k] <= off[k + 1] <= off[board.comp_count as int]);
                    assert(links[off[k] + p] == l);
                    assert(neg[off[k] + p]);
                }
            }
            assert(r.writes() =~= negated_links(board@));
            lemma_negated_prefix(board, board.comp_count as int);
        }
        r
    }
}

/// The links a negated output drives.
pub open spec fn negated_links(net: Netlist) -> Set<u32> {
    Set::new(
        |l: u32|
            exists|c: int, p: int|
                0 <= c < net.parts.len() && 0 <= p < net.parts[c].outputs.len()
                    && #[trigger] net.parts[c].outputs[p] == l && net.parts[c].neg_outputs[p],
    )
}

/// How many output pins of the first `n` components are negated.
pub open spec fn negated_upto(net: Netlist, n: int) -> nat
    decreases n,
{
    if n <= 0 {
        0
    } else {
        negated_upto(net, n - 1) + behavior::ones(net.parts[n - 1].neg_outputs)
    }
}

/// The negated pins of the first components are those marked in their rows.
proof fn lemma_negated_prefix(board: &Board, c: int)
    requires
        board.wf(),
        0 <= c <= board.comp_count,
    ensures
        behavior::ones(board.out_negate@.subrange(0, board.comp_out_off@[c] as int))
            == negated_upto(board@, c),
    decreases c,
{
    let off = board.comp_out_off@;
    let neg = board.out_negate@;
    assert(off[c] <= off[board.comp_count as int]);
    if c > 0 {
        lemma_negated_prefix(board, c - 1);
        assert(off[c - 1] <= off[c]);
        reduce::lemma_ones_split(neg, off[c - 1] as int, off[c] as int);
        assert(board@.parts[c - 1].neg_outputs == neg.subrange(off[c - 1] as int, off[c] as int));
    }
}

/// The bits of a RAM's region lie in the pool.
proof fn lemma_region(board: &Board, c: int)
    requires
        board.wf(),
        0 <= c < board.comp_count,
    ensures
        board.part(c).mem_bits() > 0 ==> 8 * board.comp_config@[c].a + board.part(c).mem_bits()
            <= 8 * board.ram_bytes,
        board.part(c).mem_bits() > 0 ==> board.comp_ty@[c] == CompType::Ram,
{
    if board.part(c).mem_bits() > 0 {
        assert(board.comp_config@[c].a + board.ram_size(c) <= board.ram_bytes);
    }
}

impl RunState {
    /// Logical value of output pin `pin` of component `c`.
    pub fn output(&self, board: &Board, c: u32, pin: u32) -> (v: bool)
        requires
            board.wf(),
            self.wf(board),
            c < board.comp_count,
            pin < board.part(c as int).outputs.len(),
        ensures
            v == self.state(board, c as int).outs[pin as int],
    {
        proof {
            let off = board.comp_out_off@;
            assert(off[c as int] <= off[c + 1] <= off[board.comp_count as int]);
        }
        self.output_state.get(board.comp_out_off[c as usize] + pin)
    }

    /// Set output pin `pin` of component `c` to `v`. Only a real flip changes anything: it toggles
    /// the output, moves its link's driver count by one and schedules the link.
    pub fn drive(&mut self, board: &Board, c: u32, pin: u32, v: bool)
        requires
            board.wf(),
            old(self).wf(board),
            c < board.comp_count,
            pin < board.part(c as int).outputs.len(),
        ensures
            final(self).wf(board),
            final(self).state(board, c as int) == old(self).state(board, c as int).with_outs(
                old(self).state(board, c as int).outs.update(pin as int, v),
            ),
            final(self).states(board) == old(self).states(board).update(
                c as int,
                final(self).state(board, c as int),
            ),
            ({
                let link = board.part(c as int).outputs[pin as int];
                let count = old(self).driver_count@[link as int];
                let high = v != board.part(c as int).neg_outputs[pin as int];
                if old(self).state(board, c as int).outs[pin as int] != v {
                    &&& final(self).output_state@ == old(self).output_state@.update(
                        board.comp_out_off@[c as int] + pin,
                        v,
                    )
                    &&& final(self).driver_count@ == old(self).driver_count@.update(
                        link as int,
                        (if high {
                            count + 1
                        } else {
                            count - 1
                        }) as u32,
                    )
                    &&& final(self).write_buf@ == old(self).write_buf@.push(link)
                    &&& final(self).writes() == old(self).writes().insert(link)
                } else {
                    *final(self) == *old(self)
                }
            }),
            final(self).scratch == old(self).scratch,
            final(self).clk_count == old(self).clk_count,
    {
        let ghost st = old(self).state(board, c as int);
        proof {
            let off = board.comp_out_off@;
            assert(off[c as int] <= off[c + 1] <= off[board.comp_count as int]);
        }
        let oid: u32 = board.comp_out_off[c as usize] + pin;
        let ghost outs = self.output_state@;
        let ghost links = board.output_link@;
        let ghost neg = board.out_negate@;
        assert(outs[oid as int] == st.outs[pin as int]);
        if self.output_state.get(oid) == v {
            proof {
                assert(st.outs.update(pin as int, v) =~= st.outs);
                assert(self.states(board) =~= old(self).states(board).update(
                    c as int,
                    self.state(board, c as int),
                ));
            }
            return;
        }
        let link: u32 = board.output_link[oid as usize];
        proof {
            assert(board@.parts[c as int].outputs[pin as int] == link);
            let flipped = outs.update(oid as int, v);
            assert(flipped == outs.update(oid as int, !outs[oid as int]));
            assert forall|l: u32| l < board.link_count implies drivers(
                links,
                neg,
                flipped,
                l,
                board.output_count as int,
            ) == #[trigger] self.driver_count@[l as int] + (if l == link {
                if outs[oid as int] != neg[oid as int] {
                    -1int
                } else {
                    1int
                }
            } else {
                0int
            }) by {
                lemma_drivers_flip(
                    links,
                    neg,
                    outs,
                    oid as int,
                    l,
                    board.output_count as int,
                );
            }
            lemma_drivers_bound(links, neg, outs, link, board.output_count as int);
            lemma_drivers_bound(links, neg, flipped, link, board.output_count as int);
        }
        let cur: u32 = self.driver_count[link as usize];
        assert(cur == old(self).driver_count@[link as int]);
        let high: bool = v != board.out_negate.get(oid);
        self.output_state.set(oid, v);
        self.driver_count[link as usize] = if high {
            cur + 1
        } else {
            cur - 1
        };
        let ghost buf = self.write_buf@;
        self.write_buf.push(link);
        proof {
            lemma_output_frame(board, old(self), self, c as int, pin as int, v);
            lemma_push_to_set(buf, link);
        }
    }

    /// Latch the clock level component `c` saw.
    pub fn set_edge(&mut self, board: &Board, c: u32, v: bool)
        requires
            board.wf(),
            old(self).wf(board),
            c < board.comp_count,
        ensures
            final(self).wf(board),
            final(self).state(board, c as int) == (PartState {
                edge: v,
                ..old(self).state(board, c as int)
            }),
            final(self).states(board) == old(self).states(board).update(
                c as int,
                final(self).state(board, c as int),
            ),
            final(self).write_buf == old(self).write_buf,
    {
        self.scratch.set_edge_prev(c, v);
        proof {
            lemma_mem_kept(board, old(self), self);
            assert(self.states(board) =~= old(self).states(board).update(
                c as int,
                self.state(board, c as int),
            ));
        }
    }

    /// Latch the output component `c` selected.
    pub fn set_sel(&mut self, board: &Board, c: u32, v: u32)
        requires
            board.wf(),
            old(self).wf(board),
            c < board.comp_count,
        ensures
            final(self).wf(board),
            final(self).state(board, c as int) == (PartState {
                sel: v as int,
                ..old(self).state(board, c as int)
            }),
            final(self).states(board) == old(self).states(board).update(
                c as int,
                final(self).state(board, c as int),
            ),
            final(self).write_buf == old(self).write_buf,
    {
        self.scratch.set_sel(c, v);
        proof {
            lemma_mem_kept(board, old(self), self);
            assert(self.states(board) =~= old(self).states(board).update(
                c as int,
                self.state(board, c as int),
            ));
        }
    }

    /// Start or stop clock `c`.
    pub fn set_running(&mut self, board: &Board, c: u32, v: bool)
        requires
            board.wf(),
            old(self).wf(board),
            c < board.comp_count,
        ensures
            final(self).wf(board),
            final(self).state(board, c as int) == (PartState {
                running: v,
                ..old(self).state(board, c as int)
            }),
            final(self).states(board) == old(self).states(board).update(
                c as int,
                final(self).state(board, c as int),
            ),
            final(self).write_buf == old(self).write_buf,
    {
        self.scratch.set_clk_subscribed(c, v);
        proof {
            lemma_mem_kept(board, old(self), self);
            assert(self.states(board) =~= old(self).states(board).update(
                c as int,
                self.state(board, c as int),
            ));
        }
    }

    /// Set the ticks clock `c` has counted.
    pub fn set_count(&mut self, board: &Board, c: u32, v: u32)
        requires
            board.wf(),
            old(self).wf(board),
            c < board.comp_count,
        ensures
            final(self).wf(board),
            final(self).state(board, c as int) == (PartState {
                count: v as int,
                ..old(self).state(board, c as int)
            }),
            final(self).states(board) == old(self).states(board).update(
                c as int,
                final(self).state(board, c as int),
            ),
            final(self).write_buf == old(self).write_buf,
    {
        self.clk_count[c as usize] = v;
        proof {
            lemma_mem_kept(board, old(self), self);
            assert(self.states(board) =~= old(self).states(board).update(
                c as int,
                self.state(board, c as int),
            ));
        }
    }

    /// Read bit `k` of the RAM of component `c`.
    pub fn ram_get(&self, board: &Board, c: u32, k: u64) -> (v: bool)
        requires
            board.wf(),
            self.wf(board),
            c < board.comp_count,
            k < board.part(c as int).mem_bits(),
        ensures
            v == self.state(board, c as int).mem[k as int],
    {
        proof {
            lemma_region(board, c as int);
        }
        let base: u64 = board.comp_config[c as usize].a as u64;
        self.scratch.mem_bit((base + k / 8) as usize, (k % 8) as u8)
    }

    /// Write bit `k` of the RAM of component `c`.
    pub fn ram_set(&mut self, board: &Board, c: u32, k: u64, v: bool)
        requires
            board.wf(),
            old(self).wf(board),
            c < board.comp_count,
            k < board.part(c as int).mem_bits(),
        ensures
            final(self).wf(board),
            final(self).state(board, c as int) == (PartState {
                mem: old(self).state(board, c as int).mem.update(k as int, v),
                ..old(self).state(board, c as int)
            }),
            final(self).states(board) == old(self).states(board).update(
                c as int,
                final(self).state(board, c as int),
            ),
            final(self).write_buf == old(self).write_buf,
    {
        proof {
            lemma_region(board, c as int);
        }
        let base: u64 = board.comp_config[c as usize].a as u64;
        self.scratch.set_mem_bit((base + k / 8) as usize, (k % 8) as u8, v);
        proof {
            let n = board.comp_count as int;
            let a0 = old(self).scratch.mem@;
            let a1 = self.scratch.mem@;
            assert forall|i: int| 0 <= i < 8 * a0.len() implies #[trigger] behavior::byte_bit(a1, i)
                == (if i == 8 * base + k {
                v
            } else {
                behavior::byte_bit(a0, i)
            }) by {
                if i / 8 == base + k / 8 {
                    assert(bits::bit8(a1[i / 8], i % 8) == (if i % 8 == k % 8 {
                        v
                    } else {
                        bits::bit8(a0[i / 8], i % 8)
                    }));
                }
            }
            assert(self.mem(board, c as int) =~= old(self).mem(board, c as int).update(
                k as int,
                v,
            ));
            assert forall|d: int| 0 <= d < n && d != c implies #[trigger] self.mem(board, d)
                == old(self).mem(board, d) by {
                lemma_region(board, d);
                if board.part(d).mem_bits() > 0 {
                    lemma_regions_apart(board, c as int, d);
                }
                assert(self.mem(board, d) =~= old(self).mem(board, d));
            }
            assert(self.states(board) =~= old(self).states(board).update(
                c as int,
                self.state(board, c as int),
            ));
        }
    }
}

impl RunState {
    /// A private copy of the state, with nothing scheduled in it.
    pub fn fork(&self, board: &Board) -> (r: Self)
        requires
            board.wf(),
            self.wf(board),
        ensures
            r.wf(board),
            r.states(board) == self.states(board),
            forall|c: int| #[trigger] r.state(board, c) == self.state(board, c),
            r.write_buf@ == Seq::<u32>::empty(),
    {
        let r = RunState {
            output_state: self.output_state.clone(),
            driver_count: self.driver_count.clone(),
            scratch: self.scratch.copy(),
            clk_count: self.clk_count.clone(),
            write_buf: Vec::new(),
        };
        proof {
            assert forall|c: int| #[trigger] r.state(board, c) == self.state(board, c) by {
                assert(r.mem(board, c) =~= self.mem(board, c));
            }
            assert(r.states(board) =~= self.states(board));
        }
        r
    }
}

/// The regions of two RAMs share no byte.
proof fn lemma_regions_apart(board: &Board, c: int, d: int)
    requires
        board.wf(),
        0 <= c < board.comp_count,
        0 <= d < board.comp_count,
        c != d,
        board.part(c).mem_bits() > 0,
        board.part(d).mem_bits() > 0,
    ensures
        8 * board.comp_config@[c].a + board.part(c).mem_bits() <= 8 * board.comp_config@[d].a || 8
            * board.comp_config@[d].a + board.part(d).mem_bits() <= 8 * board.comp_config@[c].a,
{
    if c < d {
        assert(board.comp_config@[c].a + board.ram_size(c) <= board.comp_config@[d].a);
    } else {
        assert(board.comp_config@[d].a + board.ram_size(d) <= board.comp_config@[c].a);
    }
}

/// The RAM contents stay where the memory pool does.
proof fn lemma_mem_kept(board: &Board, a: &RunState, b: &RunState)
    requires
        b.scratch.mem == a.scratch.mem,
    ensures
        forall|d: int| #[trigger] b.mem(board, d) == a.mem(board, d),
{
    assert forall|d: int| #[trigger] b.mem(board, d) == a.mem(board, d) by {
        assert(b.mem(board, d) =~= a.mem(board, d));
    }
}

/// Pushing onto a list inserts into the set of its entries.
pub proof fn lemma_push_to_set(s: Seq<u32>, v: u32)
    ensures
        s.push(v).to_set() == s.to_set().insert(v),
{
    let t = s.push(v);
    assert forall|x: u32| t.to_set().contains(x) <==> s.to_set().insert(v).contains(x) by {
        if t.contains(x) {
            let i = choose|i: int| 0 <= i < t.len() && t[i] == x;
            if i < s.len() {
                assert(s[i] == x);
            }
        }
        if s.contains(x) {
            let i = choose|i: int| 0 <= i < s.len() && s[i] == x;
            assert(t[i] == x);
        }
        assert(t[s.len() as int] == v);
    }
    assert(t.to_set() =~= s.to_set().insert(v));
}

} // verus!
