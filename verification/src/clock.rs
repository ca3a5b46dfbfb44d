//! The wall clock the run loop samples.

use vstd::prelude::*;
use web_time::Instant;

verus! {

/// A point in time, as `web_time` measures it.
#[verifier::external_type_specification]
#[verifier::external_body]
pub struct ExInstant(Instant);

/// The current time, by `web_time::Instant::now`. Nothing is claimed of it.
#[verifier::external_body]
pub(crate) fn now() -> Instant {
    Instant::now()
}

/// Nanoseconds passed since `t`, by `web_time::Instant::elapsed`. Nothing is claimed of the
/// number: it is up to the clock.
#[verifier::external_body]
pub(crate) fn nanos_since(t: &Instant) -> u128 {
    t.elapsed().as_nanos()
}

/// `t` is a time that the clock gives as the current one.
pub closed spec fn reads(t: Instant) -> bool {
    call_ensures(now, (), t)
}

/// A reading of the clock gives `nanos` nanoseconds since `t`.
pub closed spec fn shows(t: Instant, nanos: u128) -> bool {
    call_ensures(nanos_since, (&t,), nanos)
}

/// The current time, as the clock gives it.
pub(crate) fn current() -> (t: Instant)
    ensures
        reads(t),
{
    let read = now;
    read()
}

/// Nanoseconds passed since `t`, as the clock shows them.
pub(crate) fn elapsed(t: &Instant) -> (nanos: u128)
    ensures
        shows(*t, nanos),
{
    let read = nanos_since;
    read(t)
}

/// A time limit has passed after `nanos` nanoseconds.
pub open spec fn is_due(limit: Option<u128>, nanos: u128) -> bool {
    match limit {
        Some(n) => nanos >= n,
        None => false,
    }
}

/// Whether a time limit has passed after `nanos` nanoseconds.
pub fn due(limit: Option<u128>, nanos: u128) -> (r: bool)
    ensures
        r == is_due(limit, nanos),
{
    match limit {
        Some(n) => nanos >= n,
        None => false,
    }
}

/// A run of up to `ticks` ticks from `start` on, which looks at the clock before every tick, has gone
/// on for `k` ticks. The looks showed `looks`. None of those before the ticks that were run showed
/// the limit to be reached; and the run ended early only on a look that did, or because it was
/// `stopped`.
pub open spec fn paced(
    limit: Option<u128>,
    start: Instant,
    looks: Seq<u128>,
    k: nat,
    ticks: u64,
    stopped: bool,
) -> bool {
    &&& reads(start)
    &&& k <= ticks
    &&& k <= looks.len() <= k + 1
    &&& forall|i: int| 0 <= i < looks.len() ==> #[trigger] shows(start, looks[i])
    &&& forall|i: int| 0 <= i < k ==> !is_due(limit, #[trigger] looks[i])
    &&& k < ticks ==> stopped || (looks.len() == k + 1 && is_due(limit, looks[k as int]))
}

/// There are a start and looks at the clock by which the run has gone on for `k` ticks.
pub open spec fn in_time(limit: Option<u128>, k: nat, ticks: u64) -> bool {
    exists|start: Instant, looks: Seq<u128>| #[trigger]
        paced(limit, start, looks, k, ticks, false)
}

/// Nanoseconds in a second.
pub const SECOND: u128 = 1_000_000_000;

/// Ticks per second, for `ticks` ticks in `nanos` nanoseconds.
pub open spec fn rate_of(ticks: u64, nanos: u128) -> u32 {
    ((ticks * SECOND) / (if nanos == 0 {
        1
    } else {
        nanos as int
    })) as u32
}

/// A measurement of the speed.
pub struct Gauge {
    /// Ticks per second, as last measured.
    pub speed: u32,
    /// Where the current measuring window began.
    pub since: Instant,
    /// The tick at which it began.
    pub tick: u64,
}

/// A look of a run at the clock.
pub struct Look {
    /// Nanoseconds since the measuring window began.
    pub window: u128,
    /// The time at which a new window begins.
    pub fresh: Instant,
    /// Nanoseconds since the run began.
    pub run: u128,
}

impl Gauge {
    /// The measurement after a look at tick `tick`: a window of a second or more gives the speed and
    /// makes room for a new one.
    pub open spec fn noted(self, tick: u64, look: Look) -> Gauge {
        if look.window >= SECOND {
            Gauge {
                speed: rate_of(tick.wrapping_sub(self.tick), look.window),
                since: look.fresh,
                tick,
            }
        } else {
            self
        }
    }

    /// The look is one at the clock, in a run that began at `start`. A run without a time limit does
    /// not ask how long it has been going.
    pub open spec fn sees(self, start: Instant, limit: Option<u128>, look: Look) -> bool {
        &&& shows(self.since, look.window)
        &&& look.window >= SECOND ==> reads(look.fresh)
        &&& limit is Some ==> shows(start, look.run)
    }
}

/// Ticks per second, for `ticks` ticks in `nanos` nanoseconds.
pub fn rate(ticks: u64, nanos: u128) -> (r: u32)
    ensures
        r == rate_of(ticks, nanos),
{
    let dt: u128 = if nanos == 0 {
        1
    } else {
        nanos
    };
    assert(ticks * SECOND <= u64::MAX * SECOND) by (nonlinear_arith)
        requires
            ticks <= u64::MAX,
    ;
    ((ticks as u128 * SECOND) / dt) as u32
}

/// The speed is the whole number of ticks per second, as far as 32 bits hold it. No time at all counts
/// as one nanosecond.
pub proof fn law_rate_is_ticks_per_second(ticks: u64, nanos: u128, whole: nat)
    requires
        ({
            let time: nat = if nanos == 0 {
                1
            } else {
                nanos as nat
            };
            whole * time <= ticks * 1_000_000_000 < (whole + 1) * time
        }),
    ensures
        rate_of(ticks, nanos) == whole % 0x1_0000_0000,
{
    let time: nat = if nanos == 0 {
        1
    } else {
        nanos as nat
    };
    let total = ticks * 1_000_000_000;
    let rest = total - whole * time;
    assert((whole + 1) * time == whole * time + time) by (nonlinear_arith);
    vstd::arithmetic::div_mod::lemma_fundamental_div_mod_converse(
        total,
        time as int,
        whole as int,
        rest,
    );
    assert(whole <= total) by (nonlinear_arith)
        requires
            whole * time <= total,
            time >= 1,
    ;
    let w = whole as u128;
    assert(w == whole);
    assert((w as u32) == w % 0x1_0000_0000) by (bit_vector);
}

/// A time limit has passed once as much time as it gives has; without a limit none passes.
pub proof fn law_limits_pass(limit: Option<u128>, nanos: u128)
    ensures
        is_due(limit, nanos) <==> limit is Some && limit->0 <= nanos,
{
}

/// The speed is measured over windows of a second or more, and stays in between.
pub proof fn law_speed_is_measured_by_the_second(g: Gauge, tick: u64, look: Look)
    requires
        g.tick <= tick,
    ensures
        look.window < 1_000_000_000 ==> g.noted(tick, look) == g,
        look.window >= 1_000_000_000 ==> {
            let next = g.noted(tick, look);
            &&& next.speed == rate_of((tick - g.tick) as u64, look.window)
            &&& next.since == look.fresh
            &&& next.tick == tick
        },
{
}

} // verus!
