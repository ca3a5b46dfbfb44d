//! The compute queues: one list of components to evaluate per component type.

use vstd::prelude::*;
#[allow(unused_imports)]
use crate::board::Board;
use crate::components::{self, N_TYPES};

verus! {

/// One queue of component ids per component type.
pub struct Queues {
    by_type: Vec<Vec<u32>>,
}

impl View for Queues {
    type V = Seq<Seq<u32>>;

    closed spec fn view(&self) -> Seq<Seq<u32>> {
        Seq::new(self.by_type@.len(), |i: int| self.by_type@[i]@)
    }
}

/// The components in some queue.
pub open spec fn queued(qs: Seq<Seq<u32>>) -> Set<u32> {
    Set::new(|c: u32| exists|i: int| 0 <= i < qs.len() && #[trigger] qs[i].contains(c))
}

/// Number of entries in the first `n` queues.
pub open spec fn total(qs: Seq<Seq<u32>>, n: int) -> nat
    decreases n,
{
    if n <= 0 {
        0
    } else {
        total(qs, n - 1) + qs[n - 1].len()
    }
}

/// Every queue holds existing components of its own type.
pub open spec fn sorted(board: &Board, qs: Seq<Seq<u32>>) -> bool {
    &&& qs.len() == N_TYPES
    &&& forall|i: int, k: int|
        0 <= i < qs.len() && 0 <= k < qs[i].len() ==> {
            &&& #[trigger] qs[i][k] < board.comp_count
            &&& components::type_rank(board.comp_ty@[qs[i][k] as int]) == i
        }
}

/// Every queue is empty.
pub open spec fn drained(qs: Seq<Seq<u32>>) -> bool {
    qs.len() == N_TYPES && forall|i: int| 0 <= i < qs.len() ==> #[trigger] qs[i] == Seq::<
        u32,
    >::empty()
}

impl Queues {
    /// Empty queues.
    pub fn new() -> (r: Self)
        ensures
            drained(r@),
    {
        let mut by_type: Vec<Vec<u32>> = Vec::new();
        while by_type.len() < N_TYPES
            invariant
                by_type@.len() <= N_TYPES,
                forall|i: int| 0 <= i < by_type@.len() ==> (#[trigger] by_type@[i])@ == Seq::<
                    u32,
                >::empty(),
            decreases N_TYPES - by_type@.len(),
        {
            by_type.push(Vec::new());
        }
        Queues { by_type }
    }

    /// Queue component `c` with the type of index `i`.
    pub fn push(&mut self, i: usize, c: u32)
        requires
            i < old(self)@.len(),
        ensures
            final(self)@ == old(self)@.update(i as int, old(self)@[i as int].push(c)),
    {
        self.by_type[i].push(c);
        assert(self@ =~= old(self)@.update(i as int, old(self)@[i as int].push(c)));
    }

    /// The queue of the type of index `i`.
    pub fn get(&self, i: usize) -> (r: &[u32])
        requires
            i < self@.len(),
        ensures
            r@ == self@[i as int],
    {
        self.by_type[i].as_slice()
    }

    /// Empty every queue.
    pub fn clear(&mut self)
        requires
            old(self)@.len() == N_TYPES,
        ensures
            drained(final(self)@),
    {
        let mut i: usize = 0;
        while i < N_TYPES
            invariant
                i <= N_TYPES,
                self@.len() == N_TYPES,
                forall|k: int| 0 <= k < i ==> #[trigger] self@[k] == Seq::<u32>::empty(),
            decreases N_TYPES - i,
        {
            let ghost before = self@;
            self.by_type[i].clear();
            assert(self@ =~= before.update(i as int, Seq::empty()));
            i = i + 1;
        }
    }
}

impl Queues {
    /// Whether the queues hold at least `n` entries together.
    pub fn at_least(&self, n: usize) -> (r: bool)
        requires
            self@.len() == N_TYPES,
        ensures
            r == (total(self@, N_TYPES as int) >= n),
    {
        let mut missing: usize = n;
        let mut i: usize = 0;
        while i < N_TYPES
            invariant
                i <= N_TYPES,
                self@.len() == N_TYPES,
                missing + total(self@, i as int) == n,
            decreases N_TYPES - i,
        {
            let len: usize = self.by_type[i].len();
            assert(self@[i as int].len() == len);
            if len >= missing {
                proof {
                    lemma_total_monotone(self@, i + 1, N_TYPES as int);
                }
                return true;
            }
            missing = missing - len;
            i = i + 1;
        }
        missing == 0
    }
}

proof fn lemma_total_monotone(qs: Seq<Seq<u32>>, i: int, j: int)
    requires
        0 <= i <= j,
    ensures
        total(qs, i) <= total(qs, j),
    decreases j,
{
    if i < j {
        lemma_total_monotone(qs, i, j - 1);
    }
}

/// Queueing a component adds an entry.
pub proof fn lemma_total_push(qs: Seq<Seq<u32>>, i: int, c: u32, n: int)
    requires
        0 <= i < qs.len(),
        0 <= n <= qs.len(),
    ensures
        total(qs.update(i, qs[i].push(c)), n) == total(qs, n) + if i < n {
            1nat
        } else {
            0
        },
    decreases n,
{
    if n > 0 {
        lemma_total_push(qs, i, c, n - 1);
    }
}

/// Empty queues hold no entry.
pub proof fn lemma_total_drained(qs: Seq<Seq<u32>>, n: int)
    requires
        drained(qs),
        0 <= n <= qs.len(),
    ensures
        total(qs, n) == 0,
    decreases n,
{
    if n > 0 {
        lemma_total_drained(qs, n - 1);
        assert(qs[n - 1] == Seq::<u32>::empty());
    }
}

/// Queueing a component adds it to the queued ones.
pub proof fn lemma_queued_push(qs: Seq<Seq<u32>>, i: int, c: u32)
    requires
        0 <= i < qs.len(),
    ensures
        queued(qs.update(i, qs[i].push(c))) == queued(qs).insert(c),
{
    let after = qs.update(i, qs[i].push(c));
    assert forall|d: u32| queued(after).contains(d) <==> queued(qs).insert(c).contains(d) by {
        if queued(after).contains(d) {
            let k = choose|k: int| 0 <= k < after.len() && #[trigger] after[k].contains(d);
            if k == i {
                let j = choose|j: int| 0 <= j < after[k].len() && after[k][j] == d;
                if j < qs[i].len() {
                    assert(qs[i][j] == d);
                    assert(qs[i].contains(d));
                }
            } else {
                assert(qs[k].contains(d));
            }
        }
        if queued(qs).contains(d) {
            let k = choose|k: int| 0 <= k < qs.len() && #[trigger] qs[k].contains(d);
            let j = choose|j: int| 0 <= j < qs[k].len() && qs[k][j] == d;
            assert(after[k][j] == d);
            assert(after[k].contains(d));
        }
        assert(after[i][qs[i].len() as int] == c);
        assert(after[i].contains(c));
    }
    assert(queued(after) =~= queued(qs).insert(c));
}

} // verus!
